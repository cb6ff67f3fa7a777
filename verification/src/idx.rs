//! The traits indexers must adhere to, and two reference indexers.
//!
//! An index maps column values to the identifiers of the rows holding that
//! value. Both reference implementations keep one bucket of row identifiers
//! per distinct key; a key is dropped as soon as its bucket empties, so that
//! `estimate` keeps an accurate distinct-key count.

use vstd::prelude::*;

use core::ops::Bound;

use crate::val::OrderedValue;
use crate::val::StoreValue;

verus! {

/// `core::ops::Bound`, the standard description of a range endpoint, made
/// visible to the verifier so that range queries can take it. Verus sees its
/// three variants; nothing else is assumed of it.
#[verifier::external_type_specification]
#[verifier::reject_recursive_types(T)]
pub struct ExBound<T>(core::ops::Bound<T>);

/// Whether some pair in `pairs` holds a key with view `k`.
pub open spec fn has_key<T: StoreValue>(pairs: Seq<(T, Vec<usize>)>, k: T::V) -> bool {
    exists|i: int| 0 <= i < pairs.len() && (#[trigger] pairs[i]).0@ == k
}

/// The position of the pair holding a key with view `k`.
pub open spec fn key_at<T: StoreValue>(pairs: Seq<(T, Vec<usize>)>, k: T::V) -> int {
    choose|i: int| 0 <= i < pairs.len() && (#[trigger] pairs[i]).0@ == k
}

/// The row identifiers filed under the key with view `k`, in bucket order;
/// empty if the key is absent.
pub open spec fn bucket_ids<T: StoreValue>(pairs: Seq<(T, Vec<usize>)>, k: T::V) -> Seq<usize> {
    if has_key(pairs, k) {
        pairs[key_at(pairs, k)].1@
    } else {
        Seq::empty()
    }
}

/// No two pairs hold keys with the same view.
pub open spec fn distinct_keys<T: StoreValue>(pairs: Seq<(T, Vec<usize>)>) -> bool {
    forall|i: int, j: int|
        0 <= i < j < pairs.len() ==> (#[trigger] pairs[i]).0@ != (#[trigger] pairs[j]).0@
}

/// Every bucket holds at least one row identifier.
pub open spec fn buckets_nonempty<T: StoreValue>(pairs: Seq<(T, Vec<usize>)>) -> bool {
    forall|i: int| 0 <= i < pairs.len() ==> (#[trigger] pairs[i]).1@.len() > 0
}

/// The number of entries filed in all buckets together.
pub open spec fn total_entries<T: StoreValue>(pairs: Seq<(T, Vec<usize>)>) -> int
    decreases pairs.len(),
{
    if pairs.len() == 0 {
        0
    } else {
        total_entries(pairs.drop_last()) + pairs.last().1@.len()
    }
}

/// An `EqualityIndex` is an index that can perform *efficient* equality
/// lookups: it files row identifiers under the view of a column value, and
/// can report all identifiers filed under a given value.
pub trait EqualityIndex<T: StoreValue>: Sized {
    /// The index's structural invariant.
    spec fn inv(&self) -> bool;

    /// The row identifiers filed under the value view `k`, in bucket order.
    spec fn ids_for(&self, k: T::V) -> Seq<usize>;

    /// The number of (value, row identifier) entries filed.
    spec fn entry_total(&self) -> int;

    /// The number of distinct keys present.
    spec fn key_total(&self) -> int;

    /// Return the identifiers of all rows filed under the given value; the
    /// empty vector if the key is absent.
    fn lookup(&self, key: &T) -> (ids: Vec<usize>)
        requires
            self.inv(),
        ensures
            ids@ == self.ids_for(key@),
    ;

    /// File the given row identifier under the given value. One occurrence is
    /// added even if the same pair is already filed: a value may legitimately
    /// map to many rows.
    fn index(&mut self, key: T, row: usize)
        requires
            old(self).inv(),
            old(self).entry_total() < usize::MAX,
        ensures
            final(self).inv(),
            final(self).ids_for(key@) == old(self).ids_for(key@).push(row),
            forall|k: T::V| k != key@ ==> final(self).ids_for(k) == old(self).ids_for(k),
            final(self).entry_total() == old(self).entry_total() + 1,
            final(self).key_total() == old(self).key_total() + if old(self).ids_for(key@).len()
                == 0 { 1int } else { 0int },
    ;

    /// Remove one occurrence of the given row identifier from under the given
    /// value. The pair must be filed; removing a pair that was never filed is
    /// a caller error.
    fn undex(&mut self, key: &T, row: usize)
        requires
            old(self).inv(),
            old(self).ids_for(key@).contains(row),
        ensures
            final(self).inv(),
            final(self).ids_for(key@).to_multiset() == old(self).ids_for(
                key@,
            ).to_multiset().remove(row),
            forall|k: T::V| k != key@ ==> final(self).ids_for(k) == old(self).ids_for(k),
            final(self).entry_total() == old(self).entry_total() - 1,
            final(self).key_total() == old(self).key_total() - if old(self).ids_for(key@).len()
                == 1 { 1int } else { 0int },
    ;

    /// The expected number of rows filed under one key: the total number of
    /// entries divided by the number of distinct keys, and 0 if no keys are
    /// present. This is cheap: it never scans the index.
    fn estimate(&self) -> (e: usize)
        requires
            self.inv(),
        ensures
            e == if self.key_total() == 0 {
                0int
            } else {
                self.entry_total() / self.key_total()
            },
    ;
}

/// An implementation of `EqualityIndex` that keeps one bucket of row
/// identifiers per distinct key.
#[derive(Clone)]
pub struct HashIndex<K> {
    num: usize,
    pairs: Vec<(K, Vec<usize>)>,
}

impl<K: StoreValue> HashIndex<K> {
    /// Allocate a new, empty `HashIndex`.
    pub fn new() -> (r: HashIndex<K>)
        ensures
            r.inv(),
            forall|k: K::V| r.ids_for(k) == Seq::<usize>::empty(),
            r.entry_total() == 0,
            r.key_total() == 0,
    {
        HashIndex { pairs: Vec::new(), num: 0 }
    }
}

impl<K: StoreValue> EqualityIndex<K> for HashIndex<K> {
    closed spec fn inv(&self) -> bool {
        distinct_keys(self.pairs@) && buckets_nonempty(self.pairs@) && self.num == total_entries(
            self.pairs@,
        )
    }

    closed spec fn ids_for(&self, k: K::V) -> Seq<usize> {
        bucket_ids(self.pairs@, k)
    }

    closed spec fn entry_total(&self) -> int {
        total_entries(self.pairs@)
    }

    closed spec fn key_total(&self) -> int {
        self.pairs@.len() as int
    }

    fn lookup(&self, key: &K) -> (ids: Vec<usize>) {
        let n = self.pairs.len();
        let mut i: usize = 0;
        while i < n
            invariant
                n == self.pairs@.len(),
                i <= n,
                self.inv(),
                forall|j: int| 0 <= j < i ==> (#[trigger] self.pairs@[j]).0@ != key@,
            decreases n - i,
        {
            if self.pairs[i].0.eq_value(key) {
                proof {
                    lemma_key_found(self.pairs@, i as int);
                }
                return copy_ids(&self.pairs[i].1);
            }
            i += 1;
        }
        assert(!has_key(self.pairs@, key@));
        Vec::new()
    }

    fn index(&mut self, key: K, row: usize) {
        let ghost pairs0 = self.pairs@;
        let n = self.pairs.len();
        let mut i: usize = 0;
        while i < n
            invariant
                n == self.pairs@.len(),
                i <= n,
                old(self) == self,
                pairs0 == self.pairs@,
                self.inv(),
                self.entry_total() < usize::MAX,
                forall|j: int| 0 <= j < i ==> (#[trigger] self.pairs@[j]).0@ != key@,
            decreases n - i,
        {
            if self.pairs[i].0.eq_value(&key) {
                proof {
                    lemma_key_found(self.pairs@, i as int);
                    lemma_total_entries_bucket(self.pairs@, i as int);
                }
                self.pairs[i].1.push(row);
                proof {
                    lemma_total_entries_update(pairs0, i as int, self.pairs@[i as int]);
                    lemma_bucket_ids_update(pairs0, i as int, self.pairs@[i as int]);
                    lemma_key_found(self.pairs@, i as int);
                }
                self.num = self.num + 1;
                return;
            }
            i += 1;
        }
        assert(!has_key(pairs0, key@));
        let mut bucket: Vec<usize> = Vec::new();
        bucket.push(row);
        self.pairs.push((key, bucket));
        self.num = self.num + 1;
        proof {
            lemma_total_entries_push(pairs0, self.pairs@.last());
            lemma_bucket_ids_push(pairs0, self.pairs@.last());
            assert(self.ids_for(key@) =~= bucket_ids(pairs0, key@).push(row));
        }
    }

    fn undex(&mut self, key: &K, row: usize) {
        let ghost pairs0 = self.pairs@;
        let n = self.pairs.len();
        let mut i: usize = 0;
        while i < n
            invariant
                n == self.pairs@.len(),
                i <= n,
                old(self) == self,
                pairs0 == self.pairs@,
                self.inv(),
                bucket_ids(self.pairs@, key@).contains(row),
                forall|j: int| 0 <= j < i ==> (#[trigger] self.pairs@[j]).0@ != key@,
            decreases n - i,
        {
            if self.pairs[i].0.eq_value(key) {
                proof {
                    lemma_key_found(self.pairs@, i as int);
                }
                remove_one(&mut self.pairs, i, row);
                proof {
                    lemma_total_entries_bucket(pairs0, i as int);
                    lemma_total_entries_update(pairs0, i as int, self.pairs@[i as int]);
                    lemma_bucket_ids_update(pairs0, i as int, self.pairs@[i as int]);
                    lemma_key_found(self.pairs@, i as int);
                    pairs0[i as int].1@.to_multiset_ensures();
                }
                self.num = self.num - 1;
                if self.pairs[i].1.is_empty() {
                    let ghost pairs1 = self.pairs@;
                    let _ = self.pairs.remove(i);
                    proof {
                        lemma_total_entries_remove(pairs1, i as int);
                        lemma_bucket_ids_remove(pairs1, i as int);
                        assert(bucket_ids(self.pairs@, key@) =~= pairs1[i as int].1@);
                    }
                }
                return;
            }
            i += 1;
        }
        proof {
            assert(!has_key(pairs0, key@));
            assert(false);
        }
    }

    fn estimate(&self) -> (e: usize) {
        let len = self.pairs.len();
        if len > 0 {
            self.num / len
        } else {
            0
        }
    }
}

/// Copy a vector of row identifiers.
fn copy_ids(v: &Vec<usize>) -> (r: Vec<usize>)
    ensures
        r@ == v@,
{
    let mut r: Vec<usize> = Vec::new();
    let n = v.len();
    let mut i: usize = 0;
    while i < n
        invariant
            n == v@.len(),
            i <= n,
            r@ == v@.subrange(0, i as int),
        decreases n - i,
    {
        r.push(v[i]);
        assert(r@ =~= v@.subrange(0, i + 1 as int));
        i += 1;
    }
    assert(v@.subrange(0, n as int) =~= v@);
    r
}

/// Remove one occurrence of `row` from the bucket at position `i`. The
/// occurrence must be present.
fn remove_one<K: StoreValue>(pairs: &mut Vec<(K, Vec<usize>)>, i: usize, row: usize)
    requires
        i < old(pairs)@.len(),
        old(pairs)@[i as int].1@.contains(row),
    ensures
        final(pairs)@ == old(pairs)@.update(
            i as int,
            (old(pairs)@[i as int].0, final(pairs)@[i as int].1),
        ),
        final(pairs)@[i as int].1@.to_multiset() == old(pairs)@[i as int].1@.to_multiset().remove(
            row,
        ),
        final(pairs)@[i as int].1@.len() == old(pairs)@[i as int].1@.len() - 1,
        final(pairs)@[i as int].0 == old(pairs)@[i as int].0,
{
    let ghost bucket0 = pairs@[i as int].1@;
    let n = pairs[i].1.len();
    let mut j: usize = 0;
    while j < n
        invariant
            pairs@ == old(pairs)@,
            i < pairs@.len(),
            n == pairs@[i as int].1@.len(),
            j <= n,
            bucket0.contains(row),
            bucket0 == pairs@[i as int].1@,
            forall|m: int| 0 <= m < j ==> bucket0[m] != row,
        decreases n - j,
    {
        if pairs[i].1[j] == row {
            let _ = pairs[i].1.remove(j);
            proof {
                bucket0.to_multiset_ensures();
                assert(pairs@ =~= old(pairs)@.update(
                    i as int,
                    (old(pairs)@[i as int].0, pairs@[i as int].1),
                ));
            }
            return;
        }
        j += 1;
    }
    proof {
        assert(forall|m: int| 0 <= m < bucket0.len() ==> bucket0[m] != row);
        assert(!bucket0.contains(row));
        assert(false);
    }
}

/// If the pair at `i` holds a key with view `k`, and keys are distinct, the
/// key is present and found at `i`.
proof fn lemma_key_found<K: StoreValue>(pairs: Seq<(K, Vec<usize>)>, i: int)
    requires
        distinct_keys(pairs),
        0 <= i < pairs.len(),
    ensures
        has_key(pairs, pairs[i].0@),
        key_at(pairs, pairs[i].0@) == i,
        bucket_ids(pairs, pairs[i].0@) == pairs[i].1@,
{
    let k = pairs[i].0@;
    assert(has_key(pairs, k));
    let j = key_at(pairs, k);
    assert(0 <= j < pairs.len() && pairs[j].0@ == k);
    if i != j {
        assert(false);
    }
}

/// Updating the pair at `i` while keeping its key view changes only that
/// key's bucket.
proof fn lemma_bucket_ids_update<K: StoreValue>(pairs: Seq<(K, Vec<usize>)>, i: int, p: (K, Vec<usize>))
    requires
        distinct_keys(pairs),
        0 <= i < pairs.len(),
        p.0@ == pairs[i].0@,
    ensures
        distinct_keys(pairs.update(i, p)),
        bucket_ids(pairs.update(i, p), pairs[i].0@) == p.1@,
        forall|k: K::V| k != pairs[i].0@ ==> bucket_ids(pairs.update(i, p), k) == bucket_ids(
            pairs,
            k,
        ),
{
    let upd = pairs.update(i, p);
    assert(distinct_keys(upd));
    lemma_key_found(upd, i);
    assert forall|k: K::V| k != pairs[i].0@ implies bucket_ids(upd, k) == bucket_ids(pairs, k) by {
        if has_key(upd, k) {
            let j = key_at(upd, k);
            assert(upd[j].0@ == k);
            assert(j != i);
            lemma_key_found(pairs, j);
        } else if has_key(pairs, k) {
            let j = key_at(pairs, k);
            assert(j != i);
            assert(upd[j].0@ == k);
            assert(has_key(upd, k));
        }
    }
}

/// Appending a pair with a fresh key adds exactly that key's bucket.
proof fn lemma_bucket_ids_push<K: StoreValue>(pairs: Seq<(K, Vec<usize>)>, p: (K, Vec<usize>))
    requires
        distinct_keys(pairs),
        !has_key(pairs, p.0@),
    ensures
        distinct_keys(pairs.push(p)),
        bucket_ids(pairs.push(p), p.0@) == p.1@,
        forall|k: K::V| k != p.0@ ==> bucket_ids(pairs.push(p), k) == bucket_ids(pairs, k),
{
    let ext = pairs.push(p);
    assert forall|i: int, j: int|
        0 <= i < j < ext.len() implies (#[trigger] ext[i]).0@ != (#[trigger] ext[j]).0@ by {
        if j == ext.len() - 1 {
            assert(ext[i] == pairs[i]);
        } else {
            assert(ext[i] == pairs[i]);
            assert(ext[j] == pairs[j]);
        }
    }
    lemma_key_found(ext, ext.len() - 1);
    assert forall|k: K::V| k != p.0@ implies bucket_ids(ext, k) == bucket_ids(pairs, k) by {
        if has_key(ext, k) {
            let j = key_at(ext, k);
            assert(ext[j].0@ == k);
            assert(j != ext.len() - 1);
            assert(pairs[j].0@ == k);
            lemma_key_found(pairs, j);
            lemma_key_found(ext, j);
        } else if has_key(pairs, k) {
            let j = key_at(pairs, k);
            assert(ext[j].0@ == k);
            assert(has_key(ext, k));
        }
    }
}

/// Removing the pair at `i` empties exactly that key's bucket.
proof fn lemma_bucket_ids_remove<K: StoreValue>(pairs: Seq<(K, Vec<usize>)>, i: int)
    requires
        distinct_keys(pairs),
        0 <= i < pairs.len(),
    ensures
        distinct_keys(pairs.remove(i)),
        !has_key(pairs.remove(i), pairs[i].0@),
        forall|k: K::V| k != pairs[i].0@ ==> bucket_ids(pairs.remove(i), k) == bucket_ids(
            pairs,
            k,
        ),
{
    let rem = pairs.remove(i);
    pairs.remove_ensures(i);
    assert forall|a: int, b: int|
        0 <= a < b < rem.len() implies (#[trigger] rem[a]).0@ != (#[trigger] rem[b]).0@ by {
        let a0 = if a < i { a } else { a + 1 };
        let b0 = if b < i { b } else { b + 1 };
        assert(rem[a] == pairs[a0]);
        assert(rem[b] == pairs[b0]);
    }
    assert forall|j: int| 0 <= j < rem.len() implies (#[trigger] rem[j]).0@ != pairs[i].0@ by {
        let j0 = if j < i { j } else { j + 1 };
        assert(rem[j] == pairs[j0]);
    }
    assert forall|k: K::V| k != pairs[i].0@ implies bucket_ids(rem, k) == bucket_ids(pairs, k) by {
        if has_key(rem, k) {
            let j = key_at(rem, k);
            let j0 = if j < i { j } else { j + 1 };
            assert(rem[j] == pairs[j0]);
            lemma_key_found(pairs, j0);
            lemma_key_found(rem, j);
        } else if has_key(pairs, k) {
            let j = key_at(pairs, k);
            assert(pairs[j].0@ == k);
            assert(j != i);
            let j1 = if j < i { j } else { j - 1 };
            assert(rem[j1] == pairs[j]);
            assert(has_key(rem, k));
        }
    }
}

/// The entry total covers each single bucket.
proof fn lemma_total_entries_bucket<K: StoreValue>(pairs: Seq<(K, Vec<usize>)>, i: int)
    requires
        0 <= i < pairs.len(),
    ensures
        total_entries(pairs) >= pairs[i].1@.len(),
        total_entries(pairs) >= 0,
    decreases pairs.len(),
{
    lemma_total_entries_nonneg(pairs.drop_last());
    if i < pairs.len() - 1 {
        lemma_total_entries_bucket(pairs.drop_last(), i);
    }
}

/// The entry total is never negative.
proof fn lemma_total_entries_nonneg<K: StoreValue>(pairs: Seq<(K, Vec<usize>)>)
    ensures
        total_entries(pairs) >= 0,
    decreases pairs.len(),
{
    if pairs.len() > 0 {
        lemma_total_entries_nonneg(pairs.drop_last());
    }
}

/// Updating one pair changes the entry total by the change in that pair's
/// bucket length.
proof fn lemma_total_entries_update<K: StoreValue>(
    pairs: Seq<(K, Vec<usize>)>,
    i: int,
    p: (K, Vec<usize>),
)
    requires
        0 <= i < pairs.len(),
    ensures
        total_entries(pairs.update(i, p)) == total_entries(pairs) - pairs[i].1@.len()
            + p.1@.len(),
    decreases pairs.len(),
{
    let upd = pairs.update(i, p);
    if i == pairs.len() - 1 {
        assert(upd.drop_last() =~= pairs.drop_last());
    } else {
        assert(upd.drop_last() =~= pairs.drop_last().update(i, p));
        assert(upd.last() == pairs.last());
        lemma_total_entries_update(pairs.drop_last(), i, p);
    }
}

/// Appending a pair adds its bucket length to the entry total.
proof fn lemma_total_entries_push<K: StoreValue>(pairs: Seq<(K, Vec<usize>)>, p: (K, Vec<usize>))
    ensures
        total_entries(pairs.push(p)) == total_entries(pairs) + p.1@.len(),
{
    assert(pairs.push(p).drop_last() =~= pairs);
    assert(pairs.push(p).last() == p);
}

/// Whether the key views appear in ascending order.
pub open spec fn sorted_keys<T: OrderedValue>(pairs: Seq<(T, Vec<usize>)>) -> bool {
    forall|i: int, j: int|
        0 <= i < j < pairs.len() ==> T::le_v((#[trigger] pairs[i]).0@, (#[trigger] pairs[j]).0@)
}

/// Whether `k` lies above the lower range endpoint.
pub open spec fn above_lower<T: OrderedValue>(min: Bound<&T>, k: T::V) -> bool {
    match min {
        Bound::Unbounded => true,
        Bound::Included(x) => T::le_v(x@, k),
        Bound::Excluded(x) => T::le_v(x@, k) && x@ != k,
    }
}

/// Whether `k` lies below the upper range endpoint.
pub open spec fn below_upper<T: OrderedValue>(max: Bound<&T>, k: T::V) -> bool {
    match max {
        Bound::Unbounded => true,
        Bound::Included(x) => T::le_v(k, x@),
        Bound::Excluded(x) => T::le_v(k, x@) && x@ != k,
    }
}

/// Whether `k` lies within the two range endpoints.
pub open spec fn in_range<T: OrderedValue>(min: Bound<&T>, max: Bound<&T>, k: T::V) -> bool {
    above_lower(min, k) && below_upper(max, k)
}

/// The row identifiers of all keys within the range, in ascending key order,
/// each key contributing its bucket.
pub open spec fn range_over<T: OrderedValue>(
    keys: Seq<T::V>,
    ids: spec_fn(T::V) -> Seq<usize>,
    min: Bound<&T>,
    max: Bound<&T>,
) -> Seq<usize>
    decreases keys.len(),
{
    if keys.len() == 0 {
        Seq::empty()
    } else {
        range_over(keys.drop_last(), ids, min, max) + if in_range(min, max, keys.last()) {
            ids(keys.last())
        } else {
            Seq::empty()
        }
    }
}

/// A `RangeIndex` is an index that, in addition to performing efficient
/// equality lookups, can *also* perform efficient range queries: its keys are
/// kept in ascending order.
pub trait RangeIndex<T: OrderedValue>: EqualityIndex<T> {
    /// The distinct key views present, in ascending order.
    spec fn keys(&self) -> Seq<T::V>;

    /// The key sequence is sorted, has no duplicates, and holds exactly the
    /// keys with a non-empty bucket.
    proof fn keys_facts(&self)
        requires
            self.inv(),
        ensures
            forall|i: int, j: int|
                0 <= i < j < self.keys().len() ==> T::le_v(
                    #[trigger] self.keys()[i],
                    #[trigger] self.keys()[j],
                ) && self.keys()[i] != self.keys()[j],
            forall|k: T::V| self.keys().contains(k) <==> self.ids_for(k).len() > 0,
            self.keys().len() == self.key_total(),
    ;

    /// Return the identifiers of all rows whose value lies within the given
    /// endpoints, in ascending order of key, each key contributing its bucket.
    fn between(&self, min: Bound<&T>, max: Bound<&T>) -> (ids: Vec<usize>)
        requires
            self.inv(),
        ensures
            ids@ == range_over(self.keys(), |k: T::V| self.ids_for(k), min, max),
    ;
}

/// An implementation of `RangeIndex` that keeps its buckets in ascending key
/// order.
#[derive(Clone)]
pub struct BTreeIndex<K> {
    num: usize,
    pairs: Vec<(K, Vec<usize>)>,
}

impl<K: OrderedValue> BTreeIndex<K> {
    /// Allocate a new, empty `BTreeIndex`.
    pub fn new() -> (r: BTreeIndex<K>)
        ensures
            r.inv(),
            forall|k: K::V| r.ids_for(k) == Seq::<usize>::empty(),
            r.entry_total() == 0,
            r.key_total() == 0,
    {
        BTreeIndex { pairs: Vec::new(), num: 0 }
    }
}

impl<K: OrderedValue> EqualityIndex<K> for BTreeIndex<K> {
    closed spec fn inv(&self) -> bool {
        distinct_keys(self.pairs@) && buckets_nonempty(self.pairs@) && sorted_keys(self.pairs@)
            && self.num == total_entries(self.pairs@)
    }

    closed spec fn ids_for(&self, k: K::V) -> Seq<usize> {
        bucket_ids(self.pairs@, k)
    }

    closed spec fn entry_total(&self) -> int {
        total_entries(self.pairs@)
    }

    closed spec fn key_total(&self) -> int {
        self.pairs@.len() as int
    }

    fn lookup(&self, key: &K) -> (ids: Vec<usize>) {
        let n = self.pairs.len();
        let mut i: usize = 0;
        while i < n
            invariant
                n == self.pairs@.len(),
                i <= n,
                self.inv(),
                forall|j: int| 0 <= j < i ==> (#[trigger] self.pairs@[j]).0@ != key@,
            decreases n - i,
        {
            if self.pairs[i].0.eq_value(key) {
                proof {
                    lemma_key_found(self.pairs@, i as int);
                }
                return copy_ids(&self.pairs[i].1);
            }
            i += 1;
        }
        assert(!has_key(self.pairs@, key@));
        Vec::new()
    }

    fn index(&mut self, key: K, row: usize) {
        let ghost pairs0 = self.pairs@;
        let n = self.pairs.len();
        let mut i: usize = 0;
        while i < n
            invariant
                n == self.pairs@.len(),
                i <= n,
                old(self) == self,
                pairs0 == self.pairs@,
                self.inv(),
                self.entry_total() < usize::MAX,
                forall|j: int|
                    0 <= j < i ==> (#[trigger] self.pairs@[j]).0@ != key@ && K::le_v(
                        self.pairs@[j].0@,
                        key@,
                    ),
            decreases n - i,
        {
            if self.pairs[i].0.eq_value(&key) {
                proof {
                    lemma_key_found(self.pairs@, i as int);
                    lemma_total_entries_bucket(self.pairs@, i as int);
                }
                self.pairs[i].1.push(row);
                proof {
                    lemma_total_entries_update(pairs0, i as int, self.pairs@[i as int]);
                    lemma_bucket_ids_update(pairs0, i as int, self.pairs@[i as int]);
                    lemma_sorted_update(pairs0, i as int, self.pairs@[i as int]);
                    lemma_key_found(self.pairs@, i as int);
                }
                self.num = self.num + 1;
                return;
            }
            if key.le_value(&self.pairs[i].0) {
                proof {
                    lemma_key_absent_ordered(pairs0, i as int, key@);
                    assert forall|j: int|
                        i <= j < pairs0.len() implies K::le_v(
                        key@,
                        (#[trigger] pairs0[j]).0@,
                    ) by {
                        if j > i {
                            K::le_v_transitive(key@, pairs0[i as int].0@, pairs0[j].0@);
                        }
                    }
                }
                let mut bucket: Vec<usize> = Vec::new();
                bucket.push(row);
                self.pairs.insert(i, (key, bucket));
                self.num = self.num + 1;
                proof {
                    lemma_total_entries_insert(pairs0, i as int, self.pairs@[i as int]);
                    lemma_bucket_ids_insert(pairs0, i as int, self.pairs@[i as int]);
                    lemma_sorted_insert(pairs0, i as int, self.pairs@[i as int]);
                    assert(self.ids_for(key@) =~= bucket_ids(pairs0, key@).push(row));
                }
                return;
            }
            proof {
                K::le_v_total(self.pairs@[i as int].0@, key@);
            }
            i += 1;
        }
        assert(!has_key(pairs0, key@));
        let mut bucket: Vec<usize> = Vec::new();
        bucket.push(row);
        self.pairs.push((key, bucket));
        self.num = self.num + 1;
        proof {
            lemma_total_entries_push(pairs0, self.pairs@.last());
            lemma_bucket_ids_push(pairs0, self.pairs@.last());
            lemma_sorted_insert(pairs0, pairs0.len() as int, self.pairs@.last());
            assert(self.pairs@ =~= pairs0.insert(pairs0.len() as int, self.pairs@.last()));
            assert(self.ids_for(key@) =~= bucket_ids(pairs0, key@).push(row));
        }
    }

    fn undex(&mut self, key: &K, row: usize) {
        let ghost pairs0 = self.pairs@;
        let n = self.pairs.len();
        let mut i: usize = 0;
        while i < n
            invariant
                n == self.pairs@.len(),
                i <= n,
                old(self) == self,
                pairs0 == self.pairs@,
                self.inv(),
                bucket_ids(self.pairs@, key@).contains(row),
                forall|j: int| 0 <= j < i ==> (#[trigger] self.pairs@[j]).0@ != key@,
            decreases n - i,
        {
            if self.pairs[i].0.eq_value(key) {
                proof {
                    lemma_key_found(self.pairs@, i as int);
                }
                remove_one(&mut self.pairs, i, row);
                proof {
                    lemma_total_entries_bucket(pairs0, i as int);
                    lemma_total_entries_update(pairs0, i as int, self.pairs@[i as int]);
                    lemma_bucket_ids_update(pairs0, i as int, self.pairs@[i as int]);
                    lemma_sorted_update(pairs0, i as int, self.pairs@[i as int]);
                    lemma_key_found(self.pairs@, i as int);
                    pairs0[i as int].1@.to_multiset_ensures();
                }
                self.num = self.num - 1;
                if self.pairs[i].1.is_empty() {
                    let ghost pairs1 = self.pairs@;
                    let _ = self.pairs.remove(i);
                    proof {
                        lemma_total_entries_remove(pairs1, i as int);
                        lemma_bucket_ids_remove(pairs1, i as int);
                        lemma_sorted_remove(pairs1, i as int);
                        assert(bucket_ids(self.pairs@, key@) =~= pairs1[i as int].1@);
                    }
                }
                return;
            }
            i += 1;
        }
        proof {
            assert(!has_key(pairs0, key@));
            assert(false);
        }
    }

    fn estimate(&self) -> (e: usize) {
        let len = self.pairs.len();
        if len > 0 {
            self.num / len
        } else {
            0
        }
    }
}

impl<K: OrderedValue> RangeIndex<K> for BTreeIndex<K> {
    closed spec fn keys(&self) -> Seq<K::V> {
        self.pairs@.map_values(|p: (K, Vec<usize>)| p.0@)
    }

    proof fn keys_facts(&self) {
        let ks = self.keys();
        assert forall|k: K::V| ks.contains(k) implies self.ids_for(k).len() > 0 by {
            let i = choose|i: int| 0 <= i < ks.len() && ks[i] == k;
            lemma_key_found(self.pairs@, i);
        }
        assert forall|k: K::V| self.ids_for(k).len() > 0 implies ks.contains(k) by {
            assert(has_key(self.pairs@, k));
            let i = key_at(self.pairs@, k);
            assert(ks[i] == k);
        }
    }

    fn between(&self, min: Bound<&K>, max: Bound<&K>) -> (ids: Vec<usize>) {
        let ghost pairs = self.pairs@;
        let ghost ks = self.keys();
        let ghost idf = |k: K::V| self.ids_for(k);
        let mut out: Vec<usize> = Vec::new();
        let n = self.pairs.len();
        let mut i: usize = 0;
        while i < n
            invariant
                n == self.pairs@.len(),
                i <= n,
                self.inv(),
                pairs == self.pairs@,
                ks == self.keys(),
                idf == (|k: K::V| self.ids_for(k)),
                out@ == range_over(ks.take(i as int), idf, min, max),
            decreases n - i,
        {
            let within = bound_above(&self.pairs[i].0, &min) && bound_below(&self.pairs[i].0, &max);
            proof {
                assert(ks.take(i + 1).drop_last() =~= ks.take(i as int));
                assert(ks.take(i + 1).last() == ks[i as int]);
                assert(ks[i as int] == self.pairs@[i as int].0@);
                lemma_key_found(self.pairs@, i as int);
            }
            if within {
                let mut bucket = copy_ids(&self.pairs[i].1);
                out.append(&mut bucket);
            }
            proof {
                if !in_range(min, max, ks[i as int]) {
                    assert(out@ =~= range_over(ks.take(i as int), idf, min, max)
                        + Seq::<usize>::empty());
                }
            }
            i += 1;
        }
        proof {
            assert(ks.take(n as int) =~= ks);
        }
        out
    }
}

/// A sum type wrapping either kind of index so they can easily be stored
/// together. Since both kinds implement `EqualityIndex`, this enum forwards
/// all calls of that trait to the wrapped index.
pub enum Index<T> {
    /// A range-capable, ordered index.
    Range(BTreeIndex<T>),
    /// An equality-only index.
    Equality(HashIndex<T>),
}

impl<T: OrderedValue> EqualityIndex<T> for Index<T> {
    open spec fn inv(&self) -> bool {
        match self {
            Index::Range(ri) => ri.inv(),
            Index::Equality(ei) => ei.inv(),
        }
    }

    open spec fn ids_for(&self, k: T::V) -> Seq<usize> {
        match self {
            Index::Range(ri) => ri.ids_for(k),
            Index::Equality(ei) => ei.ids_for(k),
        }
    }

    open spec fn entry_total(&self) -> int {
        match self {
            Index::Range(ri) => ri.entry_total(),
            Index::Equality(ei) => ei.entry_total(),
        }
    }

    open spec fn key_total(&self) -> int {
        match self {
            Index::Range(ri) => ri.key_total(),
            Index::Equality(ei) => ei.key_total(),
        }
    }

    fn lookup(&self, key: &T) -> (ids: Vec<usize>) {
        match self {
            Index::Range(ri) => ri.lookup(key),
            Index::Equality(ei) => ei.lookup(key),
        }
    }

    fn index(&mut self, key: T, row: usize) {
        match self {
            Index::Range(ri) => ri.index(key, row),
            Index::Equality(ei) => ei.index(key, row),
        }
    }

    fn undex(&mut self, key: &T, row: usize) {
        match self {
            Index::Range(ri) => ri.undex(key, row),
            Index::Equality(ei) => ei.undex(key, row),
        }
    }

    fn estimate(&self) -> (e: usize) {
        match self {
            Index::Range(ri) => ri.estimate(),
            Index::Equality(ei) => ei.estimate(),
        }
    }
}

impl<T: StoreValue> From<HashIndex<T>> for Index<T> {
    fn from(x: HashIndex<T>) -> (r: Index<T>) {
        Index::Equality(x)
    }
}

impl<T: StoreValue> vstd::std_specs::convert::FromSpecImpl<HashIndex<T>> for Index<T> {
    open spec fn obeys_from_spec() -> bool {
        true
    }

    open spec fn from_spec(x: HashIndex<T>) -> Index<T> {
        Index::Equality(x)
    }
}

impl<T: OrderedValue> From<BTreeIndex<T>> for Index<T> {
    fn from(x: BTreeIndex<T>) -> (r: Index<T>) {
        Index::Range(x)
    }
}

impl<T: OrderedValue> vstd::std_specs::convert::FromSpecImpl<BTreeIndex<T>> for Index<T> {
    open spec fn obeys_from_spec() -> bool {
        true
    }

    open spec fn from_spec(x: BTreeIndex<T>) -> Index<T> {
        Index::Range(x)
    }
}

/// Whether the value lies on or above the given lower endpoint.
fn bound_above<K: OrderedValue>(v: &K, min: &Bound<&K>) -> (r: bool)
    ensures
        r == above_lower(*min, v@),
{
    match min {
        Bound::Unbounded => true,
        Bound::Included(x) => x.le_value(v),
        Bound::Excluded(x) => x.le_value(v) && !x.eq_value(v),
    }
}

/// Whether the value lies on or below the given upper endpoint.
fn bound_below<K: OrderedValue>(v: &K, max: &Bound<&K>) -> (r: bool)
    ensures
        r == below_upper(*max, v@),
{
    match max {
        Bound::Unbounded => true,
        Bound::Included(x) => v.le_value(x),
        Bound::Excluded(x) => v.le_value(x) && !x.eq_value(v),
    }
}

/// In an ordered pair sequence, once the scan stands at the first position
/// not below `k`, and `k` is absent up to there and distinct from the key at
/// the position, `k` is absent everywhere.
proof fn lemma_key_absent_ordered<K: OrderedValue>(pairs: Seq<(K, Vec<usize>)>, i: int, k: K::V)
    requires
        distinct_keys(pairs),
        sorted_keys(pairs),
        0 <= i < pairs.len(),
        forall|j: int| 0 <= j < i ==> (#[trigger] pairs[j]).0@ != k,
        pairs[i].0@ != k,
        K::le_v(k, pairs[i].0@),
    ensures
        !has_key(pairs, k),
{
    assert forall|j: int| 0 <= j < pairs.len() implies (#[trigger] pairs[j]).0@ != k by {
        if j > i && pairs[j].0@ == k {
            K::le_v_antisymmetric(k, pairs[i].0@);
            assert(false);
        }
    }
}

/// Updating a pair while keeping its key view preserves key order.
proof fn lemma_sorted_update<K: OrderedValue>(pairs: Seq<(K, Vec<usize>)>, i: int, p: (K, Vec<usize>))
    requires
        sorted_keys(pairs),
        0 <= i < pairs.len(),
        p.0@ == pairs[i].0@,
    ensures
        sorted_keys(pairs.update(i, p)),
{
    let upd = pairs.update(i, p);
    assert forall|a: int, b: int|
        0 <= a < b < upd.len() implies K::le_v((#[trigger] upd[a]).0@, (#[trigger] upd[b]).0@) by {
        assert(upd[a].0@ == pairs[a].0@);
        assert(upd[b].0@ == pairs[b].0@);
    }
}

/// Removing a pair preserves key order.
proof fn lemma_sorted_remove<K: OrderedValue>(pairs: Seq<(K, Vec<usize>)>, i: int)
    requires
        sorted_keys(pairs),
        0 <= i < pairs.len(),
    ensures
        sorted_keys(pairs.remove(i)),
{
    let rem = pairs.remove(i);
    pairs.remove_ensures(i);
    assert forall|a: int, b: int|
        0 <= a < b < rem.len() implies K::le_v((#[trigger] rem[a]).0@, (#[trigger] rem[b]).0@) by {
        let a0 = if a < i { a } else { a + 1 };
        let b0 = if b < i { b } else { b + 1 };
        assert(rem[a] == pairs[a0]);
        assert(rem[b] == pairs[b0]);
    }
}

/// Inserting a pair between its neighbours by key order preserves key order.
proof fn lemma_sorted_insert<K: OrderedValue>(pairs: Seq<(K, Vec<usize>)>, i: int, p: (K, Vec<usize>))
    requires
        sorted_keys(pairs),
        0 <= i <= pairs.len(),
        forall|j: int| 0 <= j < i ==> K::le_v((#[trigger] pairs[j]).0@, p.0@),
        forall|j: int| i <= j < pairs.len() ==> K::le_v(p.0@, (#[trigger] pairs[j]).0@),
    ensures
        sorted_keys(pairs.insert(i, p)),
{
    let ins = pairs.insert(i, p);
    pairs.insert_ensures(i, p);
    assert forall|a: int, b: int|
        0 <= a < b < ins.len() implies K::le_v((#[trigger] ins[a]).0@, (#[trigger] ins[b]).0@) by {
        if a < i {
            assert(ins[a] == pairs[a]);
        } else if a == i {
            assert(ins[a] == p);
        } else {
            assert(ins[a] == pairs[a - 1]);
        }
        if b < i {
            assert(ins[b] == pairs[b]);
        } else if b == i {
            assert(ins[b] == p);
        } else {
            assert(ins[b] == pairs[b - 1]);
        }
        if a < i && b == i {
        } else if a == i && b > i {
        } else if a < i && b > i {
            K::le_v_transitive(pairs[a].0@, p.0@, pairs[b - 1].0@);
        }
    }
}

/// Inserting a pair with a fresh key adds exactly that key's bucket.
proof fn lemma_bucket_ids_insert<K: StoreValue>(
    pairs: Seq<(K, Vec<usize>)>,
    i: int,
    p: (K, Vec<usize>),
)
    requires
        distinct_keys(pairs),
        0 <= i <= pairs.len(),
        !has_key(pairs, p.0@),
    ensures
        distinct_keys(pairs.insert(i, p)),
        bucket_ids(pairs.insert(i, p), p.0@) == p.1@,
        forall|k: K::V| k != p.0@ ==> bucket_ids(pairs.insert(i, p), k) == bucket_ids(pairs, k),
{
    let ins = pairs.insert(i, p);
    pairs.insert_ensures(i, p);
    assert forall|a: int, b: int|
        0 <= a < b < ins.len() implies (#[trigger] ins[a]).0@ != (#[trigger] ins[b]).0@ by {
        if a < i {
            assert(ins[a] == pairs[a]);
        } else if a == i {
            assert(ins[a] == p);
        } else {
            assert(ins[a] == pairs[a - 1]);
        }
        if b < i {
            assert(ins[b] == pairs[b]);
        } else if b == i {
            assert(ins[b] == p);
        } else {
            assert(ins[b] == pairs[b - 1]);
        }
    }
    lemma_key_found(ins, i);
    assert forall|k: K::V| k != p.0@ implies bucket_ids(ins, k) == bucket_ids(pairs, k) by {
        if has_key(ins, k) {
            let j = key_at(ins, k);
            assert(ins[j].0@ == k);
            assert(j != i);
            let j0 = if j < i { j } else { j - 1 };
            assert(ins[j] == pairs[j0]);
            lemma_key_found(pairs, j0);
            lemma_key_found(ins, j);
        } else if has_key(pairs, k) {
            let j = key_at(pairs, k);
            let j1 = if j < i { j } else { j + 1 };
            assert(ins[j1] == pairs[j]);
            assert(has_key(ins, k));
        }
    }
}

/// Inserting a pair adds its bucket length to the entry total.
proof fn lemma_total_entries_insert<K: StoreValue>(
    pairs: Seq<(K, Vec<usize>)>,
    i: int,
    p: (K, Vec<usize>),
)
    requires
        0 <= i <= pairs.len(),
    ensures
        total_entries(pairs.insert(i, p)) == total_entries(pairs) + p.1@.len(),
    decreases pairs.len(),
{
    let ins = pairs.insert(i, p);
    pairs.insert_ensures(i, p);
    if i == pairs.len() {
        assert(ins.drop_last() =~= pairs);
        assert(ins.last() == p);
    } else {
        assert(ins.drop_last() =~= pairs.drop_last().insert(i, p));
        assert(ins.last() == pairs.last());
        lemma_total_entries_insert(pairs.drop_last(), i, p);
    }
}

/// Removing a pair subtracts its bucket length from the entry total.
proof fn lemma_total_entries_remove<K: StoreValue>(pairs: Seq<(K, Vec<usize>)>, i: int)
    requires
        0 <= i < pairs.len(),
    ensures
        total_entries(pairs.remove(i)) == total_entries(pairs) - pairs[i].1@.len(),
    decreases pairs.len(),
{
    let rem = pairs.remove(i);
    if i == pairs.len() - 1 {
        assert(rem =~= pairs.drop_last());
    } else {
        assert(rem.drop_last() =~= pairs.drop_last().remove(i));
        assert(rem.last() == pairs.last());
        lemma_total_entries_remove(pairs.drop_last(), i);
    }
}

} // verus!
