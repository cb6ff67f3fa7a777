//! An indexed, queryable, in-memory row store.
//!
//! The store keeps rows of a fixed column count, each under a monotonically
//! increasing row identifier. Secondary indices may be attached to columns to
//! speed up equality lookups; they are kept consistent across inserts and
//! deletes. Queries are conjunctions of per-column conditions; the store picks
//! the cheapest usable index, generates a candidate superset of row
//! identifiers, and re-checks every condition on each candidate row.

use vstd::multiset::Multiset;
use vstd::prelude::*;

pub mod cmp;
pub mod idx;
pub mod seq_extra;
pub mod val;

pub use cmp::Comparison;
pub use cmp::Condition;
pub use cmp::Value;
pub use idx::EqualityIndex;
pub use idx::Index;
pub use idx::RangeIndex;

use crate::cmp::conds_valid;
use crate::cmp::matches_all;
use crate::seq_extra::lemma_filter_all_false;
use crate::seq_extra::lemma_filter_all_true;
use crate::seq_extra::lemma_filter_compose;
use crate::seq_extra::lemma_filter_congruent;
use crate::seq_extra::lemma_filter_membership;
use crate::seq_extra::lemma_filter_no_dup;
use crate::seq_extra::lemma_filter_sub;
use crate::seq_extra::lemma_map_values_multiset;
use crate::seq_extra::lemma_multiset_nodup_transfer;
use crate::seq_extra::lemma_nodup_same_members_multiset;
use crate::val::OrderedValue;
use crate::val::StoreValue;

verus! {

/// The row identifiers of the given pairs, in order.
pub open spec fn ids_of<R>(rows: Seq<(usize, R)>) -> Seq<usize> {
    rows.map_values(|p: (usize, R)| p.0)
}

/// The pairs whose row holds a value with view `k` in column `col`.
pub open spec fn rows_with_value<T: StoreValue, R: Row<T>>(
    rows: Seq<(usize, R)>,
    col: int,
    k: T::V,
) -> Seq<(usize, R)> {
    rows.filter(|p: (usize, R)| p.1.view_row()[col]@ == k)
}

/// The pairs whose identifier is not in the removed set, in their original
/// order.
pub open spec fn rows_without<R>(rows: Seq<(usize, R)>, removed: Set<usize>) -> Seq<(usize, R)> {
    rows.filter(|p: (usize, R)| !removed.contains(p.0))
}

/// Whether the row identifiers are strictly increasing.
pub open spec fn increasing_ids<R>(rows: Seq<(usize, R)>) -> bool {
    forall|i: int, j: int|
        0 <= i < j < rows.len() ==> (#[trigger] rows[i]).0 < (#[trigger] rows[j]).0
}

/// A `Store` is the main storage unit: it keeps track of all the rows of
/// data, each under a monotonically increasing row identifier, as well as
/// what indices are attached. Rows are found through `find`, added through
/// `insert`, and removed through `delete` and `delete_filter`.
pub struct Store<T, R = Vec<T>> {
    cols: usize,
    rowid: usize,
    rows: Vec<(usize, R)>,
    indices: Vec<(usize, Index<T>)>,
}

impl<T: OrderedValue, R: Row<T>> Store<T, R> {
    /// The number of columns every row of this store holds.
    pub closed spec fn spec_cols(&self) -> int {
        self.cols as int
    }

    /// The identifier the next inserted row will receive.
    pub closed spec fn spec_rowid(&self) -> usize {
        self.rowid
    }

    /// The stored rows with their identifiers, in ascending identifier
    /// order.
    pub closed spec fn rows_seq(&self) -> Seq<(usize, R)> {
        self.rows@
    }

    /// Whether an index is attached on the given column.
    pub closed spec fn indexed(&self, col: int) -> bool {
        exists|i: int| 0 <= i < self.indices@.len() && (#[trigger] self.indices@[i]).0 == col
    }

    /// The position of the index attached on the given column.
    pub closed spec fn index_pos(&self, col: int) -> int {
        choose|i: int| 0 <= i < self.indices@.len() && (#[trigger] self.indices@[i]).0 == col
    }

    /// The row identifiers the index attached on `col` files under the value
    /// view `k`; empty if no index is attached.
    pub closed spec fn index_ids(&self, col: int, k: T::V) -> Seq<usize> {
        if self.indexed(col) {
            self.indices@[self.index_pos(col)].1.ids_for(k)
        } else {
            Seq::empty()
        }
    }

    /// Whether a row with the given identifier is present.
    pub closed spec fn has_row(&self, id: usize) -> bool {
        exists|i: int| 0 <= i < self.rows@.len() && (#[trigger] self.rows@[i]).0 == id
    }

    /// The position of the row with the given identifier.
    pub closed spec fn row_pos(&self, id: usize) -> int {
        choose|i: int| 0 <= i < self.rows@.len() && (#[trigger] self.rows@[i]).0 == id
    }

    /// The row stored under the given identifier.
    pub closed spec fn row_of(&self, id: usize) -> R {
        self.rows@[self.row_pos(id)].1
    }

    /// The stored pairs whose row satisfies every condition.
    pub open spec fn matching_pairs(&self, conds: Seq<Condition<T>>) -> Seq<(usize, R)> {
        self.rows_seq().filter(|p: (usize, R)| matches_all(conds, p.1.view_row()))
    }

    /// The stored rows that satisfy every condition, in ascending identifier
    /// order.
    pub open spec fn matching_rows(&self, conds: Seq<Condition<T>>) -> Seq<R> {
        self.matching_pairs(conds).map_values(|p: (usize, R)| p.1)
    }

    /// The store's invariant: every row has `cols` columns; identifiers are
    /// strictly increasing and below the next one to be assigned; at most one
    /// index per column, each on a real column; and every attached index
    /// holds, for every value view, exactly the identifiers of the rows
    /// holding that value in the indexed column.
    pub closed spec fn wf(&self) -> bool {
        &&& forall|i: int|
            0 <= i < self.rows@.len() ==> (#[trigger] self.rows@[i]).1.view_row().len()
                == self.cols
        &&& increasing_ids(self.rows@)
        &&& forall|i: int| 0 <= i < self.rows@.len() ==> (#[trigger] self.rows@[i]).0 < self.rowid
        &&& forall|i: int, j: int|
            0 <= i < j < self.indices@.len() ==> (#[trigger] self.indices@[i]).0 != (
            #[trigger] self.indices@[j]).0
        &&& forall|i: int|
            0 <= i < self.indices@.len() ==> (#[trigger] self.indices@[i]).0 < self.cols
        &&& forall|i: int| 0 <= i < self.indices@.len() ==> (#[trigger] self.indices@[i]).1.inv()
        &&& forall|i: int|
            0 <= i < self.indices@.len() ==> (#[trigger] self.indices@[i]).1.entry_total()
                == self.rows@.len()
        &&& forall|i: int, k: T::V|
            0 <= i < self.indices@.len() ==> (#[trigger] self.indices@[i].1.ids_for(
                k,
            )).to_multiset() == ids_of(
                rows_with_value(self.rows@, self.indices@[i].0 as int, k),
            ).to_multiset()
    }

    /// Allocate a new `Store` with the given number of columns. The column
    /// count of every row inserted later is checked against it.
    pub fn new(cols: usize) -> (s: Store<T, R>)
        ensures
            s.wf(),
            s.spec_cols() == cols as int,
            s.spec_rowid() == 0,
            s.rows_seq() == Seq::<(usize, R)>::empty(),
            forall|c: int| !s.indexed(c),
    {
        Store { cols, rowid: 0, rows: Vec::new(), indices: Vec::new() }
    }

    /// Insert a new data row into the `Store`. The row **must** have the
    /// same number of columns as specified when the `Store` was created; the
    /// row receives the next identifier, and every attached index is updated
    /// with the row's value in its column.
    pub fn insert(&mut self, row: R)
        requires
            old(self).wf(),
            row.view_row().len() == old(self).spec_cols(),
            old(self).spec_rowid() < usize::MAX,
        ensures
            final(self).wf(),
            final(self).rows_seq() == old(self).rows_seq().push(
                (old(self).spec_rowid(), row),
            ),
            final(self).spec_rowid() == old(self).spec_rowid() + 1,
            final(self).spec_cols() == old(self).spec_cols(),
            forall|c: int| final(self).indexed(c) == old(self).indexed(c),
    {
        let rowid = self.rowid;
        let ghost rows0 = self.rows@;
        let ghost indices0 = self.indices@;
        let ghost pushed = rows0.push((rowid, row));
        proof {
            lemma_row_count_bound(self.rows@, self.rowid);
        }
        let n = self.indices.len();
        let mut j: usize = 0;
        while j < n
            invariant
                n == self.indices@.len(),
                n == indices0.len(),
                self.cols == old(self).cols,
                self.rowid == old(self).rowid,
                self.rows@ == rows0,
                rows0 == old(self).rows@,
                indices0 == old(self).indices@,
                pushed == rows0.push((rowid, row)),
                rowid == self.rowid,
                old(self).wf(),
                row.view_row().len() == self.cols,
                rows0.len() < usize::MAX,
                j <= n,
                forall|m: int|
                    0 <= m < n ==> (#[trigger] self.indices@[m]).0 == indices0[m].0,
                forall|m: int| j <= m < n ==> (#[trigger] self.indices@[m]).1 == indices0[m].1,
                forall|m: int| 0 <= m < n ==> (#[trigger] self.indices@[m]).1.inv(),
                forall|m: int|
                    0 <= m < j ==> (#[trigger] self.indices@[m]).1.entry_total() == rows0.len()
                        + 1,
                forall|m: int, k: T::V|
                    0 <= m < j ==> (#[trigger] self.indices@[m].1.ids_for(k)).to_multiset()
                        == ids_of(
                        rows_with_value(pushed, self.indices@[m].0 as int, k),
                    ).to_multiset(),
            decreases n - j,
        {
            let col = self.indices[j].0;
            proof {
                assert(indices0[j as int] == old(self).indices@[j as int]);
                assert(self.indices@[j as int].0 == indices0[j as int].0);
                assert(old(self).indices@[j as int].0 < self.cols);
                assert(self.indices@[j as int].1 == indices0[j as int].1);
                assert(old(self).indices@[j as int].1.entry_total() == rows0.len());
            }
            let v: T = row.index(col).dup();
            let ghost idx_before = self.indices@[j as int].1;
            self.indices[j].1.index(v, rowid);
            proof {
                let colx = self.indices@[j as int].0 as int;
                lemma_rows_with_push(rows0, (rowid, row), colx);
                let k0 = row.view_row()[colx]@;
                assert(v@ == k0);
                idx_before.ids_for(k0).to_multiset_ensures();
                assert forall|k: T::V|
                    (#[trigger] self.indices@[j as int].1.ids_for(k)).to_multiset() == ids_of(
                        rows_with_value(pushed, colx, k),
                    ).to_multiset() by {
                    if k == k0 {
                        assert(self.indices@[j as int].1.ids_for(k) == idx_before.ids_for(
                            k,
                        ).push(rowid));
                        assert(ids_of(rows_with_value(pushed, colx, k)) == ids_of(
                            rows_with_value(rows0, colx, k),
                        ).push(rowid));
                        idx_before.ids_for(k).to_multiset_ensures();
                        ids_of(rows_with_value(rows0, colx, k)).to_multiset_ensures();
                    } else {
                        assert(self.indices@[j as int].1.ids_for(k) == idx_before.ids_for(k));
                        assert(ids_of(rows_with_value(pushed, colx, k)) == ids_of(
                            rows_with_value(rows0, colx, k),
                        ));
                    }
                }
            }
            j += 1;
        }
        self.rows.push((rowid, row));
        self.rowid = self.rowid + 1;
        proof {
            assert forall|i: int|
                0 <= i < self.rows@.len() implies (#[trigger] self.rows@[i]).0
                < self.rowid by {
                if i < rows0.len() {
                    assert(self.rows@[i] == rows0[i]);
                }
            }
            assert forall|c: int| final(self).indexed(c) == old(self).indexed(c) by {
                assert(self.indices@.len() == indices0.len());
                if old(self).indexed(c) {
                    let i = choose|i: int|
                        0 <= i < indices0.len() && (#[trigger] indices0[i]).0 == c;
                    assert(self.indices@[i].0 == c);
                }
                if self.indexed(c) {
                    let i = choose|i: int|
                        0 <= i < self.indices@.len() && (#[trigger] self.indices@[i]).0 == c;
                    assert(indices0[i].0 == c);
                }
            }
        }
    }
}

impl<T: OrderedValue, R: Row<T>> Store<T, R> {
    /// Whether a row with this identifier is present and satisfies every
    /// condition.
    pub open spec fn id_matches(&self, conds: Seq<Condition<T>>, id: usize) -> bool {
        self.has_row(id) && matches_all(conds, self.row_of(id).view_row())
    }

    /// Each stored pair is found again under its own identifier.
    proof fn lemma_row_at_pos(&self, i: int)
        requires
            increasing_ids(self.rows@),
            0 <= i < self.rows@.len(),
        ensures
            self.has_row(self.rows@[i].0),
            self.row_pos(self.rows@[i].0) == i,
            self.row_of(self.rows@[i].0) == self.rows@[i].1,
    {
        let id = self.rows@[i].0;
        assert(self.has_row(id));
        let j = self.row_pos(id);
        assert(0 <= j < self.rows@.len() && self.rows@[j].0 == id);
        if i < j {
            assert(self.rows@[i].0 < self.rows@[j].0);
        } else if j < i {
            assert(self.rows@[j].0 < self.rows@[i].0);
        }
    }

    /// Rows with strictly increasing identifiers hold no duplicate pairs.
    proof fn lemma_rows_nodup(&self)
        requires
            increasing_ids(self.rows@),
        ensures
            self.rows@.no_duplicates(),
    {
        assert forall|i: int, j: int|
            0 <= i < self.rows@.len() && 0 <= j < self.rows@.len() && i != j implies self.rows@[i]
            != self.rows@[j] by {
            if i < j {
                assert(self.rows@[i].0 < self.rows@[j].0);
            } else {
                assert(self.rows@[j].0 < self.rows@[i].0);
            }
        }
    }

    /// The position of the index attached on the given column, if any.
    fn find_index_pos(&self, col: usize) -> (r: Option<usize>)
        ensures
            match r {
                Some(i) => i < self.indices@.len() && self.indices@[i as int].0 == col
                    && self.indexed(col as int),
                None => !self.indexed(col as int),
            },
    {
        let n = self.indices.len();
        let mut i: usize = 0;
        while i < n
            invariant
                n == self.indices@.len(),
                i <= n,
                forall|j: int| 0 <= j < i ==> (#[trigger] self.indices@[j]).0 != col,
            decreases n - i,
        {
            if self.indices[i].0 == col {
                return Some(i);
            }
            i += 1;
        }
        None
    }

    /// All row identifiers, in ascending order.
    fn all_ids(&self) -> (ids: Vec<usize>)
        ensures
            ids@ == ids_of(self.rows_seq()),
    {
        let mut ids: Vec<usize> = Vec::new();
        let n = self.rows.len();
        let mut i: usize = 0;
        while i < n
            invariant
                n == self.rows@.len(),
                i <= n,
                ids@ == ids_of(self.rows@.take(i as int)),
            decreases n - i,
        {
            ids.push(self.rows[i].0);
            proof {
                assert(ids@ =~= ids_of(self.rows@.take(i + 1)));
            }
            i += 1;
        }
        proof {
            assert(self.rows@.take(n as int) =~= self.rows@);
        }
        ids
    }

    /// The position of the row with the given identifier, by binary search
    /// over the identifier-sorted row table.
    fn row_position(&self, id: usize) -> (pos: usize)
        requires
            increasing_ids(self.rows@),
            self.has_row(id),
        ensures
            pos < self.rows@.len(),
            self.rows@[pos as int].0 == id,
    {
        let mut lo: usize = 0;
        let mut hi: usize = self.rows.len();
        while hi - lo > 1
            invariant
                lo < hi <= self.rows@.len(),
                increasing_ids(self.rows@),
                exists|j: int| lo <= j < hi && (#[trigger] self.rows@[j]).0 == id,
            decreases hi - lo,
        {
            let mid = lo + (hi - lo) / 2;
            proof {
                let j = choose|j: int| lo <= j < hi && (#[trigger] self.rows@[j]).0 == id;
                if self.rows@[mid as int].0 <= id {
                    if j < mid {
                        assert(self.rows@[j].0 < self.rows@[mid as int].0);
                        assert(false);
                    }
                } else {
                    if j >= mid {
                        if j > mid {
                            assert(self.rows@[mid as int].0 < self.rows@[j].0);
                        }
                        assert(false);
                    }
                }
            }
            if self.rows[mid].0 <= id {
                lo = mid;
            } else {
                hi = mid;
            }
        }
        proof {
            let j = choose|j: int| lo <= j < hi && (#[trigger] self.rows@[j]).0 == id;
            assert(j == lo);
        }
        lo
    }

    /// The row stored under the given identifier.
    fn row_at(&self, id: usize) -> (r: &R)
        requires
            self.wf(),
            self.has_row(id),
        ensures
            *r == self.row_of(id),
            r.view_row().len() == self.spec_cols(),
    {
        let pos = self.row_position(id);
        proof {
            self.lemma_row_at_pos(pos as int);
        }
        &self.rows[pos].1
    }

    /// The identifiers an index hands back for an eligible condition are a
    /// duplicate-free superset of the identifiers of the fully matching
    /// rows, drawn from the stored rows.
    proof fn lemma_candidates_from_index(
        &self,
        conds: Seq<Condition<T>>,
        bc: int,
        bp: int,
        ids: Seq<usize>,
    )
        requires
            self.wf(),
            0 <= bc < conds.len(),
            0 <= bp < self.indices@.len(),
            crate::cmp::index_eligible(conds[bc]),
            self.indices@[bp].0 == conds[bc].column,
            ids == self.indices@[bp].1.ids_for(crate::cmp::eligible_value(conds[bc])@),
        ensures
            ids.no_duplicates(),
            forall|j: int| 0 <= j < ids.len() ==> self.has_row(#[trigger] ids[j]),
            forall|i: int|
                0 <= i < self.rows@.len() && matches_all(
                    conds,
                    (#[trigger] self.rows@[i]).1.view_row(),
                ) ==> ids.contains(self.rows@[i].0),
    {
        let col = self.indices@[bp].0 as int;
        let k = crate::cmp::eligible_value(conds[bc])@;
        let pred = |p: (usize, R)| p.1.view_row()[col]@ == k;
        let mpairs = self.rows@.filter(pred);
        let target = ids_of(mpairs);
        assert(self.indices@[bp].1.ids_for(k).to_multiset() == target.to_multiset());
        self.lemma_rows_nodup();
        lemma_filter_no_dup(self.rows@, pred);
        assert forall|a: int, b: int|
            0 <= a < b < mpairs.len() implies (#[trigger] mpairs[a]).0 != (
        #[trigger] mpairs[b]).0 by {
            lemma_filter_sub(self.rows@, pred, mpairs[a]);
            lemma_filter_sub(self.rows@, pred, mpairs[b]);
            let qa = choose|q: int|
                0 <= q < self.rows@.len() && (#[trigger] self.rows@[q]) == mpairs[a];
            let qb = choose|q: int|
                0 <= q < self.rows@.len() && (#[trigger] self.rows@[q]) == mpairs[b];
            assert(mpairs[a] != mpairs[b]);
            assert(qa != qb);
            if qa < qb {
                assert(self.rows@[qa].0 < self.rows@[qb].0);
            } else {
                assert(self.rows@[qb].0 < self.rows@[qa].0);
            }
        }
        assert forall|a: int, b: int|
            0 <= a < b < target.len() implies target[a] != target[b] by {
            assert(target[a] == mpairs[a].0);
            assert(target[b] == mpairs[b].0);
        }
        assert(target.no_duplicates());
        lemma_multiset_nodup_transfer(ids, target);
        assert forall|j: int| 0 <= j < ids.len() implies self.has_row(#[trigger] ids[j]) by {
            assert(ids.contains(ids[j]));
            assert(target.contains(ids[j]));
            let m = choose|m: int| 0 <= m < target.len() && target[m] == ids[j];
            assert(mpairs[m].0 == ids[j]);
            lemma_filter_sub(self.rows@, pred, mpairs[m]);
            let q = choose|q: int|
                0 <= q < self.rows@.len() && (#[trigger] self.rows@[q]) == mpairs[m];
            assert(self.rows@[q].0 == ids[j]);
        }
        assert forall|i: int|
            0 <= i < self.rows@.len() && matches_all(
                conds,
                (#[trigger] self.rows@[i]).1.view_row(),
            ) implies ids.contains(self.rows@[i].0) by {
            let row = self.rows@[i].1.view_row();
            assert(conds[bc].spec_matches(row));
            assert(row[conds[bc].column as int]@ == k);
            assert(pred(self.rows@[i]));
            lemma_filter_membership(self.rows@, pred);
            assert(self.rows@.contains(self.rows@[i]));
            assert(mpairs.contains(self.rows@[i]));
            let m = choose|m: int| 0 <= m < mpairs.len() && mpairs[m] == self.rows@[i];
            assert(target[m] == self.rows@[i].0);
            assert(target.contains(self.rows@[i].0));
        }
    }

    /// Decide what index to use to match the given conditions most
    /// efficiently, and hand back the candidate row identifiers it yields: a
    /// duplicate-free superset of the identifiers of the rows matching all
    /// conditions. Callers must still check every condition on each
    /// candidate.
    fn using_index(&self, conds: &[Condition<T>]) -> (cand: Vec<usize>)
        requires
            self.wf(),
            conds_valid(conds@, self.spec_cols()),
        ensures
            cand@.no_duplicates(),
            forall|j: int| 0 <= j < cand@.len() ==> self.has_row(#[trigger] cand@[j]),
            forall|i: int|
                0 <= i < self.rows_seq().len() && matches_all(
                    conds@,
                    (#[trigger] self.rows_seq()[i]).1.view_row(),
                ) ==> cand@.contains(self.rows_seq()[i].0),
    {
        let n = conds.len();
        let mut best: Option<(usize, usize)> = None;
        let mut best_est: usize = 0;
        let mut ci: usize = 0;
        while ci < n
            invariant
                n == conds@.len(),
                ci <= n,
                self.wf(),
                match best {
                    Some((c, p)) => c < conds@.len() && p < self.indices@.len()
                        && crate::cmp::index_eligible(conds@[c as int]) && self.indices@[p as int].0
                        == conds@[c as int].column,
                    None => true,
                },
            decreases n - ci,
        {
            let eligible: bool = match &conds[ci].cmp {
                Comparison::Equal(Value::Const(_)) => true,
                Comparison::Equal(Value::Column(_)) => false,
            };
            if eligible {
                match self.find_index_pos(conds[ci].column) {
                    Some(pi) => {
                        proof {
                            assert(self.indices@[pi as int].1.inv());
                        }
                        let e = self.indices[pi].1.estimate();
                        let better: bool = match best {
                            Some(_) => e < best_est,
                            None => true,
                        };
                        if better {
                            best = Some((ci, pi));
                            best_est = e;
                        }
                    },
                    None => {},
                }
            }
            ci += 1;
        }
        match best {
            Some((bc, bp)) => {
                match &conds[bc].cmp {
                    Comparison::Equal(Value::Const(v)) => {
                        proof {
                            assert(self.indices@[bp as int].1.inv());
                        }
                        let ids = self.indices[bp].1.lookup(v);
                        proof {
                            assert(v == crate::cmp::eligible_value(conds@[bc as int]));
                            self.lemma_candidates_from_index(
                                conds@,
                                bc as int,
                                bp as int,
                                ids@,
                            );
                        }
                        ids
                    },
                    Comparison::Equal(Value::Column(_)) => {
                        proof {
                            assert(false);
                        }
                        Vec::new()
                    },
                }
            },
            None => {
                let ids = self.all_ids();
                proof {
                    assert forall|a: int, b: int|
                        0 <= a < b < ids@.len() implies ids@[a] != ids@[b] by {
                        assert(ids@[a] == self.rows@[a].0);
                        assert(ids@[b] == self.rows@[b].0);
                    }
                    assert(ids@.no_duplicates());
                    assert forall|j: int|
                        0 <= j < ids@.len() implies self.has_row(#[trigger] ids@[j]) by {
                        assert(ids@[j] == self.rows@[j].0);
                    }
                    assert forall|i: int|
                        0 <= i < self.rows_seq().len() && matches_all(
                            conds@,
                            (#[trigger] self.rows_seq()[i]).1.view_row(),
                        ) implies ids@.contains(self.rows_seq()[i].0) by {
                        assert(ids@[i] == self.rows@[i].0);
                    }
                }
                ids
            },
        }
    }

    /// The rows a filtered candidate walk hands back are exactly the
    /// matching rows, as a multiset.
    proof fn lemma_find_result(
        &self,
        conds: Seq<Condition<T>>,
        cand: Seq<usize>,
        kept: Seq<usize>,
        res: Seq<&R>,
    )
        requires
            self.wf(),
            cand.no_duplicates(),
            forall|j: int| 0 <= j < cand.len() ==> self.has_row(#[trigger] cand[j]),
            forall|i: int|
                0 <= i < self.rows@.len() && matches_all(
                    conds,
                    (#[trigger] self.rows@[i]).1.view_row(),
                ) ==> cand.contains(self.rows@[i].0),
            kept == cand.filter(|id: usize| self.id_matches(conds, id)),
            res.len() == kept.len(),
            forall|m: int| 0 <= m < kept.len() ==> *(#[trigger] res[m]) == self.row_of(kept[m]),
        ensures
            res.map_values(|r: &R| *r).to_multiset() == self.matching_rows(conds).to_multiset(),
    {
        let pred_id = |id: usize| self.id_matches(conds, id);
        let pred_pair = |p: (usize, R)| matches_all(conds, p.1.view_row());
        let mpairs = self.rows@.filter(pred_pair);
        let mids = ids_of(mpairs);
        lemma_filter_no_dup(cand, pred_id);
        self.lemma_rows_nodup();
        lemma_filter_no_dup(self.rows@, pred_pair);
        lemma_filter_membership(cand, pred_id);
        lemma_filter_membership(self.rows@, pred_pair);
        assert forall|a: int, b: int|
            0 <= a < b < mpairs.len() implies (#[trigger] mpairs[a]).0 != (
        #[trigger] mpairs[b]).0 by {
            lemma_filter_sub(self.rows@, pred_pair, mpairs[a]);
            lemma_filter_sub(self.rows@, pred_pair, mpairs[b]);
            let qa = choose|q: int|
                0 <= q < self.rows@.len() && (#[trigger] self.rows@[q]) == mpairs[a];
            let qb = choose|q: int|
                0 <= q < self.rows@.len() && (#[trigger] self.rows@[q]) == mpairs[b];
            assert(mpairs[a] != mpairs[b]);
            assert(qa != qb);
            if qa < qb {
                assert(self.rows@[qa].0 < self.rows@[qb].0);
            } else {
                assert(self.rows@[qb].0 < self.rows@[qa].0);
            }
        }
        assert forall|a: int, b: int| 0 <= a < b < mids.len() implies mids[a] != mids[b] by {
            assert(mids[a] == mpairs[a].0);
            assert(mids[b] == mpairs[b].0);
        }
        assert(mids.no_duplicates());
        assert forall|x: usize| kept.contains(x) implies mids.contains(x) by {
            assert(cand.contains(x) && pred_id(x));
            let p = self.row_pos(x);
            assert(0 <= p < self.rows@.len() && self.rows@[p].0 == x);
            assert(self.row_of(x) == self.rows@[p].1);
            assert(pred_pair(self.rows@[p]));
            assert(self.rows@.contains(self.rows@[p]));
            assert(mpairs.contains(self.rows@[p]));
            let m = choose|m: int| 0 <= m < mpairs.len() && mpairs[m] == self.rows@[p];
            assert(mids[m] == x);
        }
        assert forall|x: usize| mids.contains(x) implies kept.contains(x) by {
            let m = choose|m: int| 0 <= m < mids.len() && mids[m] == x;
            assert(mpairs[m].0 == x);
            lemma_filter_sub(self.rows@, pred_pair, mpairs[m]);
            let q = choose|q: int|
                0 <= q < self.rows@.len() && (#[trigger] self.rows@[q]) == mpairs[m];
            assert(cand.contains(x));
            self.lemma_row_at_pos(q);
            assert(self.row_of(x) == self.rows@[q].1);
            assert(pred_id(x));
        }
        lemma_nodup_same_members_multiset(kept, mids);
        let row_fn = |id: usize| self.row_of(id);
        lemma_map_values_multiset(kept, mids, row_fn);
        assert forall|m: int|
            0 <= m < mids.len() implies mids.map_values(row_fn)[m] == mpairs[m].1 by {
            assert(mids[m] == mpairs[m].0);
            lemma_filter_sub(self.rows@, pred_pair, mpairs[m]);
            let q = choose|q: int|
                0 <= q < self.rows@.len() && (#[trigger] self.rows@[q]) == mpairs[m];
            self.lemma_row_at_pos(q);
        }
        assert(mids.map_values(row_fn) =~= mpairs.map_values(|p: (usize, R)| p.1));
        assert forall|m: int|
            0 <= m < res.len() implies res.map_values(|r: &R| *r)[m] == kept.map_values(
                row_fn,
            )[m] by {
            assert(*res[m] == self.row_of(kept[m]));
        }
        assert(res.map_values(|r: &R| *r) =~= kept.map_values(row_fn));
    }

    /// Returns all rows matching all the given `Condition`s: exactly the
    /// stored rows satisfying every condition, each once per stored
    /// occurrence.
    ///
    /// The store automatically determines what index to use: among the
    /// conditions over an indexed column that compare for equality against a
    /// constant, it picks the one whose index expects the fewest rows per
    /// key, and falls back to a full scan if there is none. Every condition
    /// is then re-checked on each candidate row, so the result does not
    /// depend on the choice.
    pub fn find<'s>(&'s self, conds: &[Condition<T>]) -> (res: Vec<&'s R>)
        requires
            self.wf(),
            conds_valid(conds@, self.spec_cols()),
        ensures
            res@.map_values(|r: &R| *r).to_multiset() == self.matching_rows(
                conds@,
            ).to_multiset(),
    {
        let cand = self.using_index(conds);
        let mut res: Vec<&R> = Vec::new();
        let ghost pred_id = |id: usize| self.id_matches(conds@, id);
        let ghost mut kept: Seq<usize> = Seq::empty();
        let n = cand.len();
        let mut i: usize = 0;
        proof {
            reveal(Seq::filter);
            assert(cand@.take(0) =~= Seq::<usize>::empty());
            assert(kept == cand@.take(0).filter(pred_id));
        }
        while i < n
            invariant
                n == cand@.len(),
                i <= n,
                self.wf(),
                conds_valid(conds@, self.spec_cols()),
                cand@.no_duplicates(),
                forall|j: int| 0 <= j < cand@.len() ==> self.has_row(#[trigger] cand@[j]),
                forall|q: int|
                    0 <= q < self.rows_seq().len() && matches_all(
                        conds@,
                        (#[trigger] self.rows_seq()[q]).1.view_row(),
                    ) ==> cand@.contains(self.rows_seq()[q].0),
                pred_id == (|id: usize| self.id_matches(conds@, id)),
                kept == cand@.take(i as int).filter(pred_id),
                res@.len() == kept.len(),
                forall|m: int|
                    0 <= m < kept.len() ==> *(#[trigger] res@[m]) == self.row_of(kept[m]),
            decreases n - i,
        {
            let id = cand[i];
            let row = self.row_at(id);
            let keep = crate::cmp::all_match(conds, row);
            if keep {
                res.push(row);
                proof {
                    kept = kept.push(id);
                }
            }
            proof {
                reveal(Seq::filter);
                assert(cand@.take(i + 1).drop_last() =~= cand@.take(i as int));
                assert(cand@.take(i + 1).last() == id);
                assert(pred_id(id) == keep);
                assert(kept == cand@.take(i + 1).filter(pred_id));
            }
            i += 1;
        }
        proof {
            assert(cand@.take(n as int) =~= cand@);
            self.lemma_find_result(conds@, cand@, kept, res@);
        }
        res
    }
    /// Delete all rows that match the given conditions *and* for which the
    /// given filter function returns true. The matching rows are collected
    /// first; each is then removed from the row table, and every attached
    /// index gives up the pair of the row's value in its column and the
    /// row's identifier.
    pub fn delete_filter<F: Fn(&R) -> bool>(&mut self, conds: &[Condition<T>], f: F)
        requires
            old(self).wf(),
            conds_valid(conds@, old(self).spec_cols()),
            forall|r: R| #[trigger] f.requires((&r,)),
        ensures
            final(self).wf(),
            final(self).spec_cols() == old(self).spec_cols(),
            final(self).spec_rowid() == old(self).spec_rowid(),
            forall|c: int| final(self).indexed(c) == old(self).indexed(c),
            exists|removed: Set<usize>|
                {
                    &&& final(self).rows_seq() == #[trigger] rows_without(
                        old(self).rows_seq(),
                        removed,
                    )
                    &&& forall|i: int|
                        0 <= i < old(self).rows_seq().len() && removed.contains(
                            (#[trigger] old(self).rows_seq()[i]).0,
                        ) ==> matches_all(conds@, old(self).rows_seq()[i].1.view_row())
                            && f.ensures((&old(self).rows_seq()[i].1,), true)
                    &&& forall|i: int|
                        0 <= i < old(self).rows_seq().len() && !removed.contains(
                            (#[trigger] old(self).rows_seq()[i]).0,
                        ) && matches_all(conds@, old(self).rows_seq()[i].1.view_row())
                            ==> f.ensures((&old(self).rows_seq()[i].1,), false)
                },
    {
        let cand = self.using_index(conds);
        let mut doomed: Vec<usize> = Vec::new();
        let nc = cand.len();
        let mut i: usize = 0;
        while i < nc
            invariant
                nc == cand@.len(),
                i <= nc,
                self == old(self),
                self.wf(),
                conds_valid(conds@, self.spec_cols()),
                forall|r: R| #[trigger] f.requires((&r,)),
                cand@.no_duplicates(),
                forall|j: int| 0 <= j < cand@.len() ==> self.has_row(#[trigger] cand@[j]),
                forall|q: int|
                    0 <= q < self.rows_seq().len() && matches_all(
                        conds@,
                        (#[trigger] self.rows_seq()[q]).1.view_row(),
                    ) ==> cand@.contains(self.rows_seq()[q].0),
                forall|m: int|
                    0 <= m < doomed@.len() ==> cand@.take(i as int).contains(
                        #[trigger] doomed@[m],
                    ),
                doomed@.no_duplicates(),
                forall|m: int|
                    0 <= m < doomed@.len() ==> self.id_matches(conds@, #[trigger] doomed@[m])
                        && f.ensures((&self.row_of(doomed@[m]),), true),
                forall|q: int|
                    0 <= q < i && !doomed@.contains(#[trigger] cand@[q]) && self.id_matches(
                        conds@,
                        cand@[q],
                    ) ==> f.ensures((&self.row_of(cand@[q]),), false),
            decreases nc - i,
        {
            let id = cand[i];
            let row = self.row_at(id);
            let keep = crate::cmp::all_match(conds, row);
            let ghost doomed0 = doomed@;
            let mut doom = false;
            if keep {
                doom = f(row);
            }
            if doom {
                proof {
                    if doomed0.contains(id) {
                        let m = choose|m: int| 0 <= m < doomed0.len() && doomed0[m] == id;
                        assert(cand@.take(i as int).contains(id));
                        let q = choose|q: int|
                            0 <= q < i && #[trigger] cand@.take(i as int)[q] == id;
                        assert(cand@[q] == cand@[i as int]);
                        assert(false);
                    }
                }
                doomed.push(id);
                proof {
                    assert(doomed@ == doomed0.push(id));
                    assert forall|a: int, b: int|
                        0 <= a < b < doomed@.len() implies doomed@[a] != doomed@[b] by {
                        if b == doomed@.len() - 1 {
                            assert(doomed@[a] == doomed0[a]);
                            assert(doomed0.contains(doomed0[a]));
                        }
                    }
                }
            }
            proof {
                assert forall|m: int|
                    0 <= m < doomed@.len() implies cand@.take(i + 1).contains(
                    #[trigger] doomed@[m],
                ) by {
                    if m < doomed0.len() && cand@.take(i as int).contains(doomed0[m]) {
                        let q = choose|q: int|
                            0 <= q < i && #[trigger] cand@.take(i as int)[q] == doomed0[m];
                        assert(cand@.take(i + 1)[q] == doomed@[m]);
                    } else {
                        assert(doomed@[m] == id);
                        assert(cand@.take(i + 1)[i as int] == id);
                    }
                }
                assert(*row == self.row_of(id));
                assert forall|q: int|
                    0 <= q < i + 1 && !doomed@.contains(#[trigger] cand@[q])
                        && self.id_matches(conds@, cand@[q]) implies f.ensures(
                    (&self.row_of(cand@[q]),),
                    false,
                ) by {
                    if q < i {
                        if doomed0.contains(cand@[q]) {
                            let m = choose|m: int|
                                0 <= m < doomed0.len() && #[trigger] doomed0[m] == cand@[q];
                            assert(doomed@[m] == cand@[q]);
                            assert(doomed@.contains(cand@[q]));
                            assert(false);
                        }
                    } else {
                        assert(cand@[q] == id);
                        assert(keep == self.id_matches(conds@, id));
                        if doom {
                            assert(doomed@[doomed@.len() - 1] == id);
                            assert(doomed@.contains(id));
                            assert(false);
                        }
                    }
                }
            }
            i += 1;
        }
        proof {
            assert(cand@.take(nc as int) =~= cand@);
            assert(self.rows@.filter(
                (|p: (usize, R)| !doomed@.take(0).contains(p.0)),
            ) =~= self.rows@) by {
                assert(doomed@.take(0) =~= Seq::<usize>::empty());
                lemma_filter_all_true(
                    self.rows@,
                    |p: (usize, R)| !doomed@.take(0).contains(p.0),
                );
            }
        }
        let nd = doomed.len();
        let mut d: usize = 0;
        while d < nd
            invariant
                nd == doomed@.len(),
                d <= nd,
                self.wf(),
                self.spec_cols() == old(self).spec_cols(),
                self.spec_rowid() == old(self).spec_rowid(),
                self.indices@.len() == old(self).indices@.len(),
                forall|m: int|
                    0 <= m < self.indices@.len() ==> (#[trigger] self.indices@[m]).0 == old(
                        self,
                    ).indices@[m].0,
                doomed@.no_duplicates(),
                self.rows@ == old(self).rows@.filter(
                    (|p: (usize, R)| !doomed@.take(d as int).contains(p.0)),
                ),
                forall|m: int| d <= m < nd ==> self.has_row(#[trigger] doomed@[m]),
                forall|m: int|
                    0 <= m < nd ==> old(self).id_matches(conds@, #[trigger] doomed@[m])
                        && f.ensures((&old(self).row_of(doomed@[m]),), true),
                forall|q: int|
                    0 <= q < old(self).rows_seq().len() && !doomed@.contains(
                        (#[trigger] old(self).rows_seq()[q]).0,
                    ) && matches_all(conds@, old(self).rows_seq()[q].1.view_row())
                        ==> f.ensures((&old(self).rows_seq()[q].1,), false),
            decreases nd - d,
        {
            let id = doomed[d];
            let ghost rows_a = self.rows@;
            proof {
                assert forall|q: int|
                    0 <= q < rows_a.len() implies (#[trigger] rows_a[q]).1.view_row().len()
                    == old(self).spec_cols() && rows_a[q].0 < old(self).spec_rowid() by {
                    assert(self.rows@[q] == rows_a[q]);
                }
            }
            let pos = self.row_position(id);
            let pr: (usize, R) = self.rows.remove(pos);
            let ghost rows_b = self.rows@;
            proof {
                assert(pr == rows_a[pos as int]);
                assert(rows_b == rows_a.remove(pos as int));
                lemma_increasing_remove(rows_a, pos as int);
            }
            let nidx = self.indices.len();
            let mut j: usize = 0;
            while j < nidx
                invariant
                    nidx == self.indices@.len(),
                    j <= nidx,
                    rows_b == self.rows@,
                    rows_b == rows_a.remove(pos as int),
                    pos < rows_a.len(),
                    pr == rows_a[pos as int],
                    pr.0 == id,
                    increasing_ids(rows_a),
                    increasing_ids(rows_b),
                    self.spec_cols() == old(self).spec_cols(),
                    self.spec_rowid() == old(self).spec_rowid(),
                    pr.1.view_row().len() == self.cols,
                    self.indices@.len() == old(self).indices@.len(),
                    forall|m: int|
                        0 <= m < self.indices@.len() ==> (#[trigger] self.indices@[m]).0
                            == old(self).indices@[m].0,
                    forall|m: int, mm: int|
                        0 <= m < mm < self.indices@.len() ==> (#[trigger] self.indices@[m]).0
                            != (#[trigger] self.indices@[mm]).0,
                    forall|m: int|
                        0 <= m < self.indices@.len() ==> (#[trigger] self.indices@[m]).0
                            < self.cols,
                    forall|m: int|
                        0 <= m < self.indices@.len() ==> (
                        #[trigger] self.indices@[m]).1.inv(),
                    forall|m: int|
                        j <= m < self.indices@.len() ==> (
                        #[trigger] self.indices@[m]).1.entry_total() == rows_a.len(),
                    forall|m: int|
                        0 <= m < j ==> (#[trigger] self.indices@[m]).1.entry_total()
                            == rows_b.len(),
                    forall|m: int, k: T::V|
                        j <= m < self.indices@.len() ==> (#[trigger] self.indices@[m].1.ids_for(
                            k,
                        )).to_multiset() == ids_of(
                            rows_with_value(rows_a, self.indices@[m].0 as int, k),
                        ).to_multiset(),
                    forall|m: int, k: T::V|
                        0 <= m < j ==> (#[trigger] self.indices@[m].1.ids_for(k)).to_multiset()
                            == ids_of(
                            rows_with_value(rows_b, self.indices@[m].0 as int, k),
                        ).to_multiset(),
                decreases nidx - j,
            {
                let col = self.indices[j].0;
                let ghost idx_before = self.indices@[j as int].1;
                let ghost colx = col as int;
                let ghost k0 = pr.1.view_row()[colx]@;
                proof {
                    let predk = |p: (usize, R)| p.1.view_row()[colx]@ == k0;
                    lemma_filter_membership(rows_a, predk);
                    assert(rows_a.contains(rows_a[pos as int]));
                    assert(rows_with_value(rows_a, colx, k0).contains(pr));
                    let m = choose|m: int|
                        0 <= m < rows_with_value(rows_a, colx, k0).len() && rows_with_value(
                            rows_a,
                            colx,
                            k0,
                        )[m] == pr;
                    assert(ids_of(rows_with_value(rows_a, colx, k0))[m] == id);
                    assert(ids_of(rows_with_value(rows_a, colx, k0)).contains(id));
                    ids_of(rows_with_value(rows_a, colx, k0)).to_multiset_ensures();
                    idx_before.ids_for(k0).to_multiset_ensures();
                    assert(idx_before.ids_for(k0).to_multiset().count(id) > 0);
                    assert(idx_before.ids_for(k0).contains(id));
                }
                self.indices[j].1.undex(pr.1.index(col), id);
                proof {
                    lemma_rows_with_remove(rows_a, pos as int, colx);
                    assert forall|k: T::V|
                        (#[trigger] self.indices@[j as int].1.ids_for(k)).to_multiset()
                            == ids_of(rows_with_value(rows_b, colx, k)).to_multiset() by {
                        if k == k0 {
                            assert(self.indices@[j as int].1.ids_for(k).to_multiset()
                                == idx_before.ids_for(k).to_multiset().remove(id));
                        } else {
                            assert(self.indices@[j as int].1.ids_for(k) == idx_before.ids_for(
                                k,
                            ));
                        }
                    }
                }
                j += 1;
            }
            proof {
                let prednow = |p: (usize, R)| !doomed@.take(d as int).contains(p.0);
                let prednext = |p: (usize, R)| !doomed@.take(d + 1).contains(p.0);
                let prednotid = |p: (usize, R)| p.0 != id;
                let pre = rows_a.subrange(0, pos as int);
                let suf = rows_a.subrange(pos + 1, rows_a.len() as int);
                let mid = rows_a.subrange(pos as int, pos + 1);
                assert(rows_a =~= (pre + mid) + suf);
                assert(rows_b =~= pre + suf);
                Seq::filter_distributes_over_add(pre + mid, suf, prednotid);
                Seq::filter_distributes_over_add(pre, mid, prednotid);
                Seq::filter_distributes_over_add(pre, suf, prednotid);
                assert forall|q: int| 0 <= q < pre.len() implies prednotid(
                    #[trigger] pre[q],
                ) by {
                    assert(pre[q] == rows_a[q]);
                    assert(rows_a[q].0 < rows_a[pos as int].0);
                }
                assert forall|q: int| 0 <= q < suf.len() implies prednotid(
                    #[trigger] suf[q],
                ) by {
                    assert(suf[q] == rows_a[q + pos + 1]);
                    assert(rows_a[pos as int].0 < rows_a[q + pos + 1].0);
                }
                lemma_filter_all_true(pre, prednotid);
                lemma_filter_all_true(suf, prednotid);
                reveal(Seq::filter);
                assert(mid.drop_last() == Seq::<(usize, R)>::empty());
                assert(Seq::<(usize, R)>::empty().filter(prednotid) =~= Seq::<
                    (usize, R),
                >::empty());
                assert(!prednotid(mid.last()));
                assert(mid.filter(prednotid) =~= Seq::<(usize, R)>::empty());
                assert((pre + mid).filter(prednotid) =~= pre);
                assert(rows_a.filter(prednotid) =~= rows_b);
                let predcomp = |p: (usize, R)| prednow(p) && prednotid(p);
                lemma_filter_compose(old(self).rows@, prednow, prednotid, predcomp);
                assert(doomed@.take(d + 1) =~= doomed@.take(d as int).push(id));
                assert forall|q: int|
                    0 <= q < old(self).rows@.len() implies predcomp(
                    #[trigger] old(self).rows@[q],
                ) == prednext(old(self).rows@[q]) by {
                    let p = old(self).rows@[q];
                    if doomed@.take(d as int).contains(p.0) {
                        let m = choose|m: int|
                            0 <= m < d && #[trigger] doomed@.take(d as int)[m] == p.0;
                        assert(doomed@.take(d + 1)[m] == p.0);
                    }
                    if doomed@.take(d + 1).contains(p.0) {
                        let m = choose|m: int|
                            0 <= m < d + 1 && #[trigger] doomed@.take(d + 1)[m] == p.0;
                        if m < d {
                            assert(doomed@.take(d as int)[m] == p.0);
                        }
                    }
                    if p.0 == id {
                        assert(doomed@.take(d + 1)[d as int] == id);
                    }
                }
                lemma_filter_congruent(old(self).rows@, predcomp, prednext);
                assert(rows_b == old(self).rows@.filter(prednext));
                assert forall|m: int|
                    d + 1 <= m < nd implies self.has_row(#[trigger] doomed@[m]) by {
                    let mid2 = doomed@[m];
                    assert(rows_a.contains(rows_a[choose|q: int|
                        0 <= q < rows_a.len() && (#[trigger] rows_a[q]).0 == mid2]));
                    let q = choose|q: int|
                        0 <= q < rows_a.len() && (#[trigger] rows_a[q]).0 == mid2;
                    assert(mid2 != id);
                    assert(prednotid(rows_a[q]));
                    lemma_filter_membership(rows_a, prednotid);
                    assert(rows_a.filter(prednotid).contains(rows_a[q]));
                    assert(rows_b.contains(rows_a[q]));
                    let qq = choose|qq: int|
                        0 <= qq < rows_b.len() && rows_b[qq] == rows_a[q];
                    assert(self.rows@[qq].0 == mid2);
                }
                assert forall|q: int|
                    0 <= q < self.rows@.len() implies (#[trigger] self.rows@[q]).1.view_row().len()
                        == self.cols && self.rows@[q].0 < self.rowid by {
                    assert(rows_b[q] == rows_a.remove(pos as int)[q]);
                    rows_a.remove_ensures(pos as int);
                    let q0 = if q < pos as int { q } else { q + 1 };
                    assert(rows_b[q] == rows_a[q0]);
                    assert(rows_a[q0].1.view_row().len() == old(self).spec_cols());
                }
            }
            d += 1;
        }
        proof {
            broadcast use vstd::set::group_set_axioms;

            let removed = Set::new(|id: usize| doomed@.contains(id));
            assert(doomed@.take(nd as int) =~= doomed@);
            assert forall|q: int|
                0 <= q < old(self).rows@.len() implies (|p: (usize, R)| !doomed@.contains(
                p.0,
            ))(#[trigger] old(self).rows@[q]) == (|p: (usize, R)| !removed.contains(p.0))(
                old(self).rows@[q],
            ) by {}
            lemma_filter_congruent(
                old(self).rows@,
                |p: (usize, R)| !doomed@.contains(p.0),
                |p: (usize, R)| !removed.contains(p.0),
            );
            assert(self.rows_seq() == rows_without(old(self).rows_seq(), removed));
            assert forall|i2: int|
                0 <= i2 < old(self).rows_seq().len() && removed.contains(
                    (#[trigger] old(self).rows_seq()[i2]).0,
                ) implies matches_all(conds@, old(self).rows_seq()[i2].1.view_row())
                && f.ensures((&old(self).rows_seq()[i2].1,), true) by {
                let idv = old(self).rows_seq()[i2].0;
                assert(doomed@.contains(idv));
                let m = choose|m: int| 0 <= m < doomed@.len() && doomed@[m] == idv;
                assert(old(self).id_matches(conds@, idv));
                old(self).lemma_row_at_pos(i2);
                assert(old(self).row_of(idv) == old(self).rows_seq()[i2].1);
            }
            assert forall|c: int| final(self).indexed(c) == old(self).indexed(c) by {
                if old(self).indexed(c) {
                    let m = choose|m: int|
                        0 <= m < old(self).indices@.len() && (#[trigger] old(
                            self,
                        ).indices@[m]).0 == c;
                    assert(self.indices@[m].0 == c);
                }
                if self.indexed(c) {
                    let m = choose|m: int|
                        0 <= m < self.indices@.len() && (#[trigger] self.indices@[m]).0 == c;
                    assert(old(self).indices@[m].0 == c);
                }
            }
        }
    }
    /// Delete all rows that match the given conditions.
    pub fn delete(&mut self, conds: &[Condition<T>])
        requires
            old(self).wf(),
            conds_valid(conds@, old(self).spec_cols()),
        ensures
            final(self).wf(),
            final(self).spec_cols() == old(self).spec_cols(),
            final(self).spec_rowid() == old(self).spec_rowid(),
            forall|c: int| final(self).indexed(c) == old(self).indexed(c),
            final(self).rows_seq() == old(self).rows_seq().filter(
                (|p: (usize, R)| !matches_all(conds@, p.1.view_row())),
            ),
    {
        let f = (|_r: &R| -> (b: bool)
            ensures
                b,
            {
                true
            });
        self.delete_filter(conds, f);
        proof {
            let removed = choose|removed: Set<usize>|
                {
                    &&& self.rows_seq() == #[trigger] rows_without(
                        old(self).rows_seq(),
                        removed,
                    )
                    &&& forall|i: int|
                        0 <= i < old(self).rows_seq().len() && removed.contains(
                            (#[trigger] old(self).rows_seq()[i]).0,
                        ) ==> matches_all(conds@, old(self).rows_seq()[i].1.view_row())
                            && f.ensures((&old(self).rows_seq()[i].1,), true)
                    &&& forall|i: int|
                        0 <= i < old(self).rows_seq().len() && !removed.contains(
                            (#[trigger] old(self).rows_seq()[i]).0,
                        ) && matches_all(conds@, old(self).rows_seq()[i].1.view_row())
                            ==> f.ensures((&old(self).rows_seq()[i].1,), false)
                };
            assert forall|q: int|
                0 <= q < old(self).rows@.len() implies (|p: (usize, R)| !removed.contains(
                p.0,
            ))(#[trigger] old(self).rows@[q]) == (|p: (usize, R)| !matches_all(
                conds@,
                p.1.view_row(),
            ))(old(self).rows@[q]) by {
                let p = old(self).rows@[q];
                if !removed.contains(p.0) && matches_all(conds@, p.1.view_row()) {
                    assert(f.ensures((&p.1,), false));
                    assert(false);
                }
            }
            lemma_filter_congruent(
                old(self).rows@,
                |p: (usize, R)| !removed.contains(p.0),
                |p: (usize, R)| !matches_all(conds@, p.1.view_row()),
            );
        }
    }

    /// Add an index on the given column using the given indexer, which must
    /// be convertible to the tagged index union and still empty. The index is
    /// immediately fed every currently stored row, in ascending identifier
    /// order, and replaces any index previously attached on that column.
    pub fn index<I>(&mut self, column: usize, indexer: I) where Index<T>: From<I>
        requires
            old(self).wf(),
            column < old(self).spec_cols(),
            forall|w: Index<T>|
                #[trigger] call_ensures(<Index<T> as From<I>>::from, (indexer,), w) ==> w.inv()
                    && w.entry_total() == 0 && w.key_total() == 0 && (forall|k: T::V|
                    w.ids_for(k) == Seq::<usize>::empty()),
        ensures
            final(self).wf(),
            final(self).rows_seq() == old(self).rows_seq(),
            final(self).spec_rowid() == old(self).spec_rowid(),
            final(self).spec_cols() == old(self).spec_cols(),
            final(self).indexed(column as int),
            forall|c: int| c != column ==> final(self).indexed(c) == old(self).indexed(c),
    {
        let mut idx: Index<T> = From::from(indexer);
        let n = self.rows.len();
        let mut i: usize = 0;
        proof {
            reveal(Seq::filter);
            assert(self.rows@.take(0) =~= Seq::<(usize, R)>::empty());
            assert forall|k: T::V|
                (#[trigger] idx.ids_for(k)).to_multiset() == ids_of(
                    rows_with_value(self.rows@.take(0), column as int, k),
                ).to_multiset() by {
                let pred = |p: (usize, R)| p.1.view_row()[column as int]@ == k;
                assert(Seq::<(usize, R)>::empty().filter(pred) =~= Seq::<(usize, R)>::empty());
                assert(idx.ids_for(k) == Seq::<usize>::empty());
                assert(ids_of(Seq::<(usize, R)>::empty()) =~= Seq::<usize>::empty());
            }
        }
        while i < n
            invariant
                self == old(self),
                n == self.rows@.len(),
                i <= n,
                self.wf(),
                column < self.spec_cols(),
                idx.inv(),
                idx.entry_total() == i,
                forall|k: T::V|
                    (#[trigger] idx.ids_for(k)).to_multiset() == ids_of(
                        rows_with_value(self.rows@.take(i as int), column as int, k),
                    ).to_multiset(),
            decreases n - i,
        {
            let ghost idx0 = idx;
            let rid = self.rows[i].0;
            let v: T = self.rows[i].1.index(column).dup();
            idx.index(v, rid);
            proof {
                let colx = column as int;
                let p = self.rows@[i as int];
                assert(self.rows@.take(i + 1).drop_last() =~= self.rows@.take(i as int));
                assert(self.rows@.take(i + 1) == self.rows@.take(i as int).push(p));
                lemma_rows_with_push(self.rows@.take(i as int), p, colx);
                let k0 = p.1.view_row()[colx]@;
                assert(v@ == k0);
                assert forall|k: T::V|
                    (#[trigger] idx.ids_for(k)).to_multiset() == ids_of(
                        rows_with_value(self.rows@.take(i + 1), colx, k),
                    ).to_multiset() by {
                    if k == k0 {
                        assert(idx.ids_for(k) == idx0.ids_for(k).push(rid));
                        assert(ids_of(rows_with_value(self.rows@.take(i + 1), colx, k))
                            == ids_of(
                            rows_with_value(self.rows@.take(i as int), colx, k),
                        ).push(rid));
                        idx0.ids_for(k).to_multiset_ensures();
                        ids_of(
                            rows_with_value(self.rows@.take(i as int), colx, k),
                        ).to_multiset_ensures();
                    } else {
                        assert(idx.ids_for(k) == idx0.ids_for(k));
                        assert(ids_of(rows_with_value(self.rows@.take(i + 1), colx, k))
                            == ids_of(rows_with_value(self.rows@.take(i as int), colx, k)));
                    }
                }
            }
            i += 1;
        }
        proof {
            assert(self.rows@.take(n as int) =~= self.rows@);
        }
        let ghost indices0 = self.indices@;
        match self.find_index_pos(column) {
            Some(p) => {
                let _ = self.indices.remove(p);
                proof {
                    indices0.remove_ensures(p as int);
                    assert forall|m: int|
                        0 <= m < self.indices@.len() implies (#[trigger] self.indices@[m]).0
                        != column by {
                        let m0 = if m < p as int { m } else { m + 1 };
                        assert(self.indices@[m] == indices0[m0]);
                        if m0 != p as int && indices0[m0].0 == column {
                            assert(indices0[p as int].0 == column);
                            assert(false);
                        }
                    }
                }
                self.indices.push((column, idx));
            },
            None => {
                proof {
                    assert forall|m: int|
                        0 <= m < self.indices@.len() implies (#[trigger] self.indices@[m]).0
                        != column by {
                        assert(!self.indexed(column as int));
                    }
                }
                self.indices.push((column, idx));
            },
        }
        proof {
            let fin = self.indices@;
            let last = fin.len() - 1;
            assert(fin[last] == (column, idx));
            assert forall|m: int| 0 <= m < last implies fin[m].0 != column && (exists|m0: int|
                0 <= m0 < indices0.len() && #[trigger] indices0[m0] == fin[m]) by {
                if fin.len() == indices0.len() + 1 {
                    assert(fin[m] == indices0[m]);
                } else {
                    let p = choose|p: int|
                        0 <= p < indices0.len() && (#[trigger] indices0[p]).0 == column;
                    indices0.remove_ensures(p);
                    let m0 = if m < p { m } else { m + 1 };
                    assert(fin[m] == indices0.remove(p)[m]);
                    assert(indices0.remove(p)[m] == indices0[m0]);
                }
            }
            assert forall|m: int, mm: int|
                0 <= m < mm < fin.len() implies (#[trigger] fin[m]).0 != (
            #[trigger] fin[mm]).0 by {
                if mm == last {
                    assert(fin[m].0 != column);
                } else {
                    let a = choose|m0: int|
                        0 <= m0 < indices0.len() && #[trigger] indices0[m0] == fin[m];
                    let b = choose|m0: int|
                        0 <= m0 < indices0.len() && #[trigger] indices0[m0] == fin[mm];
                    if fin.len() == indices0.len() + 1 {
                        assert(fin[m] == indices0[m]);
                        assert(fin[mm] == indices0[mm]);
                    } else {
                        if fin[m].0 == fin[mm].0 {
                            assert(indices0[a].0 == indices0[b].0);
                            if a != b {
                                assert(false);
                            }
                            assert(fin[m] == fin[mm]);
                            let p = choose|p: int|
                                0 <= p < indices0.len() && (#[trigger] indices0[p]).0 == column;
                            indices0.remove_ensures(p);
                            let ma = if m < p { m } else { m + 1 };
                            let mb = if mm < p { mm } else { mm + 1 };
                            assert(fin[m] == indices0[ma]);
                            assert(fin[mm] == indices0[mb]);
                            assert(indices0[ma].0 != indices0[mb].0);
                            assert(false);
                        }
                    }
                }
            }
            assert forall|m: int|
                0 <= m < fin.len() implies (#[trigger] fin[m]).0 < self.cols && fin[m].1.inv()
                    && fin[m].1.entry_total() == self.rows@.len() by {
                if m < last {
                    let m0 = choose|m0: int|
                        0 <= m0 < indices0.len() && #[trigger] indices0[m0] == fin[m];
                    assert(old(self).indices@[m0] == fin[m]);
                }
            }
            assert forall|m: int, k: T::V|
                0 <= m < fin.len() implies (#[trigger] fin[m].1.ids_for(k)).to_multiset()
                    == ids_of(
                    rows_with_value(self.rows@, fin[m].0 as int, k),
                ).to_multiset() by {
                if m < last {
                    let m0 = choose|m0: int|
                        0 <= m0 < indices0.len() && #[trigger] indices0[m0] == fin[m];
                    assert(old(self).indices@[m0] == fin[m]);
                    assert((old(self).indices@[m0].1.ids_for(k)).to_multiset() == ids_of(
                        rows_with_value(self.rows@, old(self).indices@[m0].0 as int, k),
                    ).to_multiset());
                }
            }
            assert(self.indexed(column as int)) by {
                assert(fin[last].0 == column);
            }
            assert forall|c: int|
                c != column implies final(self).indexed(c) == old(self).indexed(c) by {
                if old(self).indexed(c) {
                    let m0 = choose|m0: int|
                        0 <= m0 < indices0.len() && (#[trigger] indices0[m0]).0 == c;
                    if fin.len() == indices0.len() + 1 {
                        assert(fin[m0].0 == c);
                    } else {
                        let p = choose|p: int|
                            0 <= p < indices0.len() && (#[trigger] indices0[p]).0 == column;
                        indices0.remove_ensures(p);
                        let mnew = if m0 < p { m0 } else { m0 - 1 };
                        assert(m0 != p);
                        assert(fin[mnew] == indices0[m0]);
                    }
                }
                if self.indexed(c) {
                    let m = choose|m: int|
                        0 <= m < fin.len() && (#[trigger] fin[m]).0 == c;
                    assert(m != last);
                    let m0 = choose|m0: int|
                        0 <= m0 < indices0.len() && #[trigger] indices0[m0] == fin[m];
                    assert(old(self).indices@[m0].0 == c);
                }
            }
        }
    }
}

impl<T: OrderedValue, R: Row<T>> Store<T, R> {
    /// With no conditions, every stored row matches: by `find`'s contract,
    /// `find(&[])` returns exactly the stored rows, as a multiset, whether
    /// or not any index is attached.
    pub proof fn lemma_find_no_conditions(&self)
        ensures
            self.matching_rows(Seq::<Condition<T>>::empty()) == self.rows_seq().map_values(
                (|p: (usize, R)| p.1),
            ),
    {
        let conds = Seq::<Condition<T>>::empty();
        let pred = |p: (usize, R)| matches_all(conds, p.1.view_row());
        assert forall|i: int| 0 <= i < self.rows@.len() implies pred(
            #[trigger] self.rows@[i],
        ) by {
            assert(conds.len() == 0);
        }
        lemma_filter_all_true(self.rows@, pred);
    }

    /// A stored pair matches a condition set exactly when it satisfies each
    /// condition in it: conditions on different columns combine
    /// conjunctively.
    pub proof fn lemma_conditions_conjunctive(&self, conds: Seq<Condition<T>>, p: (usize, R))
        ensures
            self.matching_pairs(conds).contains(p) <==> self.rows_seq().contains(p) && (forall|
                i: int,
            |
                0 <= i < conds.len() ==> (#[trigger] conds[i]).spec_matches(p.1.view_row())),
    {
        let pred = |q: (usize, R)| matches_all(conds, q.1.view_row());
        lemma_filter_membership(self.rows@, pred);
    }

    /// Row identifiers are strictly increasing and never reused: every
    /// present identifier lies below the identifier the next insert will
    /// assign, `insert` assigns exactly that identifier and increments it,
    /// and `delete` leaves it unchanged, so identifiers assigned by
    /// successive inserts are strictly increasing even across deletes.
    pub proof fn lemma_rowid_monotonic(&self)
        requires
            self.wf(),
        ensures
            increasing_ids(self.rows_seq()),
            forall|i: int|
                0 <= i < self.rows_seq().len() ==> (#[trigger] self.rows_seq()[i]).0
                    < self.spec_rowid(),
    {
    }
}

/// Indices only affect performance, never correctness: the rows `find`
/// returns are a function of the stored rows alone, so two stores holding
/// the same rows answer every query identically, whatever indices either has
/// attached, and whenever they were attached.
pub proof fn lemma_index_transparency<T: OrderedValue, R: Row<T>>(
    s1: &Store<T, R>,
    s2: &Store<T, R>,
    conds: Seq<Condition<T>>,
)
    requires
        s1.rows_seq() == s2.rows_seq(),
    ensures
        s1.matching_rows(conds) == s2.matching_rows(conds),
{
}

/// Deletion correctly unindexes: after `delete(conds)` the store holds
/// exactly the rows that do not match, so `find(conds)` finds nothing, and
/// `find(&[])` holds exactly the stored rows that did not match.
pub proof fn lemma_delete_maintains_invariant<T: OrderedValue, R: Row<T>>(
    before: &Store<T, R>,
    after: &Store<T, R>,
    conds: Seq<Condition<T>>,
)
    requires
        after.rows_seq() == before.rows_seq().filter(
            (|p: (usize, R)| !matches_all(conds, p.1.view_row())),
        ),
    ensures
        after.matching_pairs(conds) == Seq::<(usize, R)>::empty(),
        forall|p: (usize, R)|
            after.rows_seq().contains(p) <==> before.rows_seq().contains(p) && !matches_all(
                conds,
                p.1.view_row(),
            ),
{
    let keep = |p: (usize, R)| !matches_all(conds, p.1.view_row());
    let pred = |p: (usize, R)| matches_all(conds, p.1.view_row());
    lemma_filter_membership(before.rows_seq(), keep);
    assert forall|i: int| 0 <= i < after.rows_seq().len() implies !pred(
        #[trigger] after.rows_seq()[i],
    ) by {
        assert(after.rows_seq().contains(after.rows_seq()[i]));
        lemma_filter_sub(before.rows_seq(), keep, after.rows_seq()[i]);
    }
    lemma_filter_all_false(after.rows_seq(), pred);
}

/// Attaching an index after rows exist backfills it to exactly the state an
/// index attached before the inserts would reach: in any two well-formed
/// stores holding the same rows, the indices attached on one column file the
/// same identifiers under every value.
pub proof fn lemma_backfill_agrees<T: OrderedValue, R: Row<T>>(
    s1: &Store<T, R>,
    s2: &Store<T, R>,
    col: int,
    k: T::V,
)
    requires
        s1.wf(),
        s2.wf(),
        s1.rows_seq() == s2.rows_seq(),
        s1.indexed(col),
        s2.indexed(col),
    ensures
        s1.index_ids(col, k).to_multiset() == s2.index_ids(col, k).to_multiset(),
{
}

/// In a sequence of rows with strictly increasing identifiers, the
/// identifier at a position is at least the position, so there are never
/// more rows than the next identifier to be assigned.
proof fn lemma_row_count_bound<R>(rows: Seq<(usize, R)>, rowid: usize)
    requires
        increasing_ids(rows),
        forall|i: int| 0 <= i < rows.len() ==> (#[trigger] rows[i]).0 < rowid,
    ensures
        rows.len() <= rowid,
{
    if rows.len() > 0 {
        lemma_ids_ge_index(rows, rows.len() - 1);
    }
}

/// In a sequence of rows with strictly increasing identifiers, the
/// identifier at a position is at least the position.
proof fn lemma_ids_ge_index<R>(rows: Seq<(usize, R)>, i: int)
    requires
        increasing_ids(rows),
        0 <= i < rows.len(),
    ensures
        rows[i].0 >= i,
    decreases i,
{
    if i > 0 {
        lemma_ids_ge_index(rows, i - 1);
    }
}

/// Mapping to identifiers distributes over concatenation.
proof fn lemma_ids_of_concat<R>(a: Seq<(usize, R)>, b: Seq<(usize, R)>)
    ensures
        ids_of(a + b) == ids_of(a) + ids_of(b),
{
    assert(ids_of(a + b) =~= ids_of(a) + ids_of(b));
}

/// Removing a row preserves the strict identifier order.
proof fn lemma_increasing_remove<R>(rows: Seq<(usize, R)>, pos: int)
    requires
        increasing_ids(rows),
        0 <= pos < rows.len(),
    ensures
        increasing_ids(rows.remove(pos)),
{
    let rem = rows.remove(pos);
    rows.remove_ensures(pos);
    assert forall|a: int, b: int|
        0 <= a < b < rem.len() implies (#[trigger] rem[a]).0 < (#[trigger] rem[b]).0 by {
        let a0 = if a < pos { a } else { a + 1 };
        let b0 = if b < pos { b } else { b + 1 };
        assert(rem[a] == rows[a0]);
        assert(rem[b] == rows[b0]);
    }
}

/// Removing the row at `pos` takes its identifier out of exactly the value
/// group of its own column value.
proof fn lemma_rows_with_remove<T: StoreValue, R: Row<T>>(
    rows: Seq<(usize, R)>,
    pos: int,
    col: int,
)
    requires
        increasing_ids(rows),
        0 <= pos < rows.len(),
    ensures
        forall|k: T::V|
            rows[pos].1.view_row()[col]@ == k ==> ids_of(
                #[trigger] rows_with_value(rows.remove(pos), col, k),
            ).to_multiset() == ids_of(rows_with_value(rows, col, k)).to_multiset().remove(
                rows[pos].0,
            ),
        forall|k: T::V|
            rows[pos].1.view_row()[col]@ != k ==> ids_of(
                #[trigger] rows_with_value(rows.remove(pos), col, k),
            ) == ids_of(rows_with_value(rows, col, k)),
{
    broadcast use vstd::multiset::group_multiset_axioms;

    reveal(Seq::filter);
    let pre = rows.subrange(0, pos);
    let mid = rows.subrange(pos, pos + 1);
    let suf = rows.subrange(pos + 1, rows.len() as int);
    assert(rows =~= (pre + mid) + suf);
    assert(rows.remove(pos) =~= pre + suf);
    assert(mid.len() == 1);
    assert(mid.last() == rows[pos]);
    assert(mid.drop_last() =~= Seq::<(usize, R)>::empty());
    assert forall|k: T::V|
        rows[pos].1.view_row()[col]@ != k implies ids_of(
        #[trigger] rows_with_value(rows.remove(pos), col, k),
    ) == ids_of(rows_with_value(rows, col, k)) by {
        let pred = |p: (usize, R)| p.1.view_row()[col]@ == k;
        Seq::filter_distributes_over_add(pre + mid, suf, pred);
        Seq::filter_distributes_over_add(pre, mid, pred);
        Seq::filter_distributes_over_add(pre, suf, pred);
        assert(mid.drop_last() == Seq::<(usize, R)>::empty());
        assert(Seq::<(usize, R)>::empty().filter(pred) =~= Seq::<(usize, R)>::empty());
        assert(mid.filter(pred) =~= Seq::<(usize, R)>::empty());
        assert((pre + mid).filter(pred) == pre.filter(pred) + mid.filter(pred));
        assert(pre.filter(pred) + mid.filter(pred) =~= pre.filter(pred));
        assert(rows.filter(pred) == pre.filter(pred) + suf.filter(pred));
        assert(rows.remove(pos).filter(pred) == pre.filter(pred) + suf.filter(pred));
    }
    assert forall|k: T::V|
        rows[pos].1.view_row()[col]@ == k implies ids_of(
        #[trigger] rows_with_value(rows.remove(pos), col, k),
    ).to_multiset() == ids_of(rows_with_value(rows, col, k)).to_multiset().remove(
        rows[pos].0,
    ) by {
        let pred = |p: (usize, R)| p.1.view_row()[col]@ == k;
        Seq::filter_distributes_over_add(pre + mid, suf, pred);
        Seq::filter_distributes_over_add(pre, mid, pred);
        Seq::filter_distributes_over_add(pre, suf, pred);
        assert(mid.drop_last() == Seq::<(usize, R)>::empty());
        assert(Seq::<(usize, R)>::empty().filter(pred) =~= Seq::<(usize, R)>::empty());
        assert(mid.filter(pred) =~= Seq::<(usize, R)>::empty().push(rows[pos]));
        assert(rows.filter(pred) == (pre.filter(pred) + mid.filter(pred)) + suf.filter(pred));
        assert(rows.remove(pos).filter(pred) == pre.filter(pred) + suf.filter(pred));
        let ia = ids_of(pre.filter(pred));
        let im = ids_of(mid.filter(pred));
        let ib = ids_of(suf.filter(pred));
        lemma_ids_of_concat(pre.filter(pred) + mid.filter(pred), suf.filter(pred));
        lemma_ids_of_concat(pre.filter(pred), mid.filter(pred));
        lemma_ids_of_concat(pre.filter(pred), suf.filter(pred));
        assert(ids_of(rows_with_value(rows, col, k)) == (ia + im) + ib);
        assert(ids_of(rows_with_value(rows.remove(pos), col, k)) == ia + ib);
        vstd::seq_lib::lemma_multiset_commutative(ia + im, ib);
        vstd::seq_lib::lemma_multiset_commutative(ia, im);
        vstd::seq_lib::lemma_multiset_commutative(ia, ib);
        assert(im =~= Seq::<usize>::empty().push(rows[pos].0));
        Seq::<usize>::empty().to_multiset_ensures();
        assert(im.to_multiset() =~= Multiset::<usize>::empty().insert(rows[pos].0));
        assert forall|x: usize|
            ((ia + im) + ib).to_multiset().remove(rows[pos].0).count(x) == (
            ia + ib).to_multiset().count(x) by {
        }
        assert(((ia + im) + ib).to_multiset().remove(rows[pos].0) =~= (
        ia + ib).to_multiset());
    }
}

/// Filtering rows with strictly increasing identifiers keeps them strictly
/// increasing.
proof fn lemma_filter_increasing<R>(rows: Seq<(usize, R)>, pred: spec_fn((usize, R)) -> bool)
    requires
        increasing_ids(rows),
    ensures
        increasing_ids(rows.filter(pred)),
    decreases rows.len(),
{
    reveal(Seq::filter);
    if rows.len() > 0 {
        assert forall|i: int, j: int|
            0 <= i < j < rows.drop_last().len() implies (#[trigger] rows.drop_last()[i]).0 < (
        #[trigger] rows.drop_last()[j]).0 by {
            assert(rows.drop_last()[i] == rows[i]);
            assert(rows.drop_last()[j] == rows[j]);
        }
        lemma_filter_increasing(rows.drop_last(), pred);
        let sub = rows.drop_last().filter(pred);
        if pred(rows.last()) {
            assert forall|i: int, j: int|
                0 <= i < j < sub.push(rows.last()).len() implies (#[trigger] sub.push(
                rows.last(),
            )[i]).0 < (#[trigger] sub.push(rows.last())[j]).0 by {
                if j == sub.len() {
                    assert(sub.contains(sub[i]));
                    lemma_filter_sub(rows.drop_last(), pred, sub[i]);
                    let q = choose|q: int|
                        0 <= q < rows.drop_last().len() && rows.drop_last()[q] == sub[i];
                    assert(rows[q] == sub[i]);
                    assert(rows[q].0 < rows.last().0);
                }
            }
        }
    }
}

/// Appending a row adds its identifier to exactly the value groups its
/// column value belongs to.
proof fn lemma_rows_with_push<T: StoreValue, R: Row<T>>(
    rows: Seq<(usize, R)>,
    p: (usize, R),
    col: int,
)
    ensures
        forall|k: T::V|
            p.1.view_row()[col]@ == k ==> ids_of(
                #[trigger] rows_with_value(rows.push(p), col, k),
            ) == ids_of(rows_with_value(rows, col, k)).push(p.0),
        forall|k: T::V|
            p.1.view_row()[col]@ != k ==> ids_of(
                #[trigger] rows_with_value(rows.push(p), col, k),
            ) == ids_of(rows_with_value(rows, col, k)),
{
    reveal(Seq::filter);
    assert forall|k: T::V| p.1.view_row()[col]@ == k implies ids_of(
        #[trigger] rows_with_value(rows.push(p), col, k),
    ) == ids_of(rows_with_value(rows, col, k)).push(p.0) by {
        let pred = |q: (usize, R)| q.1.view_row()[col]@ == k;
        assert(rows.push(p).drop_last() =~= rows);
        assert(rows.push(p).last() == p);
        assert(rows.push(p).filter(pred) == rows.filter(pred).push(p));
        assert(ids_of(rows.filter(pred).push(p)) =~= ids_of(rows.filter(pred)).push(p.0));
    }
    assert forall|k: T::V| p.1.view_row()[col]@ != k implies ids_of(
        #[trigger] rows_with_value(rows.push(p), col, k),
    ) == ids_of(rows_with_value(rows, col, k)) by {
        let pred = |q: (usize, R)| q.1.view_row()[col]@ == k;
        assert(rows.push(p).drop_last() =~= rows);
        assert(rows.push(p).last() == p);
        assert(rows.push(p).filter(pred) == rows.filter(pred));
    }
}

/// Implementors of `Row` can be used to store the individual rows of a
/// `Store`.
///
/// A row is an ordered, fixed-length sequence of values, abstracted by
/// `view_row`. Implementors must be able to look a value up by column number
/// and to report how many columns they hold.
pub trait Row<T> {
    /// The columns of this row, as a sequence of values.
    spec fn view_row(&self) -> Seq<T>;

    /// Look up the value in the given column of this `Row`. The column number
    /// must be in bounds; an out-of-range column is a fatal caller error.
    fn index(&self, column: usize) -> (r: &T)
        requires
            column < self.view_row().len(),
        ensures
            *r == self.view_row()[column as int],
    ;

    /// Returns the number of columns in this `Row`.
    fn columns(&self) -> (n: usize)
        ensures
            n == self.view_row().len(),
    ;
}

impl<T> Row<T> for Vec<T> {
    open spec fn view_row(&self) -> Seq<T> {
        self@
    }

    fn index(&self, column: usize) -> (r: &T) {
        &self[column]
    }

    fn columns(&self) -> (n: usize) {
        self.len()
    }
}

impl<T> Row<T> for [T] {
    open spec fn view_row(&self) -> Seq<T> {
        self@
    }

    fn index(&self, column: usize) -> (r: &T) {
        &self[column]
    }

    fn columns(&self) -> (n: usize) {
        self.len()
    }
}

impl<'a, T> Row<T> for &'a [T] {
    open spec fn view_row(&self) -> Seq<T> {
        self@
    }

    fn index(&self, column: usize) -> (r: &T) {
        &self[column]
    }

    fn columns(&self) -> (n: usize) {
        self.len()
    }
}

/// Relies on `Arc`'s `Deref`: a shared handle dereferences to the value it
/// was constructed from.
#[verifier::external_body]
fn arc_deref<T>(a: &std::sync::Arc<T>) -> (r: &T)
    ensures
        *r == **a,
{
    &**a
}

impl<T> Row<T> for std::sync::Arc<Vec<T>> {
    open spec fn view_row(&self) -> Seq<T> {
        self@
    }

    fn index(&self, column: usize) -> (r: &T) {
        let v: &Vec<T> = arc_deref(self);
        &v[column]
    }

    fn columns(&self) -> (n: usize) {
        let v: &Vec<T> = arc_deref(self);
        v.len()
    }
}

} // verus!
