//! General facts about sequences, their filters and their multisets, used by
//! the store's proofs.

use vstd::prelude::*;

verus! {

/// An element of a filtered sequence comes from the sequence and satisfies
/// the predicate.
pub proof fn lemma_filter_sub<A>(s: Seq<A>, pred: spec_fn(A) -> bool, x: A)
    requires
        s.filter(pred).contains(x),
    ensures
        s.contains(x),
        pred(x),
    decreases s.len(),
{
    reveal(Seq::filter);
    if s.len() == 0 {
    } else {
        let sub = s.drop_last().filter(pred);
        if pred(s.last()) && x == s.last() {
            assert(s[s.len() - 1] == x);
        } else {
            assert(sub.contains(x));
            lemma_filter_sub(s.drop_last(), pred, x);
            let j = choose|j: int| 0 <= j < s.drop_last().len() && s.drop_last()[j] == x;
            assert(s[j] == x);
        }
    }
}

/// An element of the sequence satisfying the predicate is in the filtered
/// sequence; together with `lemma_filter_sub` this characterises membership.
pub proof fn lemma_filter_membership<A>(s: Seq<A>, pred: spec_fn(A) -> bool)
    ensures
        forall|x: A| #[trigger] s.filter(pred).contains(x) <==> s.contains(x) && pred(x),
{
    assert forall|x: A| #[trigger] s.filter(pred).contains(x) implies s.contains(x) && pred(x) by {
        lemma_filter_sub(s, pred, x);
    }
    assert forall|x: A| s.contains(x) && pred(x) implies #[trigger] s.filter(pred).contains(x) by {
        let i = choose|i: int| 0 <= i < s.len() && s[i] == x;
        s.lemma_filter_contains(pred, i);
    }
}

/// Filtering preserves freedom from duplicates.
pub proof fn lemma_filter_no_dup<A>(s: Seq<A>, pred: spec_fn(A) -> bool)
    requires
        s.no_duplicates(),
    ensures
        s.filter(pred).no_duplicates(),
    decreases s.len(),
{
    reveal(Seq::filter);
    if s.len() == 0 {
    } else {
        let sub = s.drop_last().filter(pred);
        lemma_filter_no_dup(s.drop_last(), pred);
        if pred(s.last()) {
            if sub.contains(s.last()) {
                lemma_filter_sub(s.drop_last(), pred, s.last());
                let j = choose|j: int|
                    0 <= j < s.drop_last().len() && s.drop_last()[j] == s.last();
                assert(s[j] == s[s.len() - 1]);
                assert(false);
            }
            let ext = sub.push(s.last());
            assert forall|i: int, j: int|
                0 <= i < j < ext.len() implies ext[i] != ext[j] by {
                if j == ext.len() - 1 {
                    assert(sub.contains(ext[i]));
                }
            }
        }
    }
}

/// Two filters with predicates that agree on the sequence's elements are
/// equal.
pub proof fn lemma_filter_congruent<A>(s: Seq<A>, p1: spec_fn(A) -> bool, p2: spec_fn(A) -> bool)
    requires
        forall|i: int| 0 <= i < s.len() ==> p1(#[trigger] s[i]) == p2(s[i]),
    ensures
        s.filter(p1) == s.filter(p2),
    decreases s.len(),
{
    reveal(Seq::filter);
    if s.len() > 0 {
        assert forall|i: int| 0 <= i < s.drop_last().len() implies p1(
            #[trigger] s.drop_last()[i],
        ) == p2(s.drop_last()[i]) by {
            assert(s.drop_last()[i] == s[i]);
        }
        lemma_filter_congruent(s.drop_last(), p1, p2);
        assert(p1(s.last()) == p2(s.last()));
    }
}

/// A filter whose predicate holds of every element is the identity.
pub proof fn lemma_filter_all_true<A>(s: Seq<A>, pred: spec_fn(A) -> bool)
    requires
        forall|i: int| 0 <= i < s.len() ==> pred(#[trigger] s[i]),
    ensures
        s.filter(pred) == s,
    decreases s.len(),
{
    reveal(Seq::filter);
    if s.len() > 0 {
        assert forall|i: int| 0 <= i < s.drop_last().len() implies pred(
            #[trigger] s.drop_last()[i],
        ) by {
            assert(s.drop_last()[i] == s[i]);
        }
        lemma_filter_all_true(s.drop_last(), pred);
        assert(pred(s.last()));
        assert(s.drop_last().push(s.last()) =~= s);
    }
}

/// A filter whose predicate holds of no element is empty.
pub proof fn lemma_filter_all_false<A>(s: Seq<A>, pred: spec_fn(A) -> bool)
    requires
        forall|i: int| 0 <= i < s.len() ==> !pred(#[trigger] s[i]),
    ensures
        s.filter(pred) == Seq::<A>::empty(),
    decreases s.len(),
{
    reveal(Seq::filter);
    if s.len() > 0 {
        assert forall|i: int| 0 <= i < s.drop_last().len() implies !pred(
            #[trigger] s.drop_last()[i],
        ) by {
            assert(s.drop_last()[i] == s[i]);
        }
        lemma_filter_all_false(s.drop_last(), pred);
        assert(!pred(s.last()));
    }
}

/// Filtering twice is filtering by the conjunction.
pub proof fn lemma_filter_compose<A>(
    s: Seq<A>,
    p1: spec_fn(A) -> bool,
    p2: spec_fn(A) -> bool,
    p12: spec_fn(A) -> bool,
)
    requires
        forall|x: A| #[trigger] p12(x) == (p1(x) && p2(x)),
    ensures
        s.filter(p1).filter(p2) == s.filter(p12),
    decreases s.len(),
{
    reveal(Seq::filter);
    if s.len() > 0 {
        lemma_filter_compose(s.drop_last(), p1, p2, p12);
        if p1(s.last()) {
            assert(s.filter(p1) == s.drop_last().filter(p1).push(s.last()));
            assert(s.filter(p1).drop_last() =~= s.drop_last().filter(p1));
        }
    }
}

/// Two duplicate-free sequences with the same members have the same multiset.
pub proof fn lemma_nodup_same_members_multiset<A>(s: Seq<A>, t: Seq<A>)
    requires
        s.no_duplicates(),
        t.no_duplicates(),
        forall|x: A| s.contains(x) <==> t.contains(x),
    ensures
        s.to_multiset() == t.to_multiset(),
{
    s.to_multiset_ensures();
    t.to_multiset_ensures();
    s.lemma_multiset_has_no_duplicates();
    t.lemma_multiset_has_no_duplicates();
    assert forall|x: A| s.to_multiset().count(x) == t.to_multiset().count(x) by {
        if s.contains(x) {
            assert(t.contains(x));
            assert(s.to_multiset().count(x) > 0);
            assert(t.to_multiset().count(x) > 0);
        } else {
            assert(!t.contains(x));
            assert(s.to_multiset().count(x) == 0);
            assert(t.to_multiset().count(x) == 0);
        }
    }
    assert(s.to_multiset() =~= t.to_multiset());
}

/// A sequence whose multiset equals that of a duplicate-free sequence is
/// itself duplicate-free and has the same members.
pub proof fn lemma_multiset_nodup_transfer<A>(s: Seq<A>, t: Seq<A>)
    requires
        s.to_multiset() == t.to_multiset(),
        t.no_duplicates(),
    ensures
        s.no_duplicates(),
        forall|x: A| s.contains(x) <==> t.contains(x),
    decreases s.len(),
{
    s.to_multiset_ensures();
    t.to_multiset_ensures();
    t.lemma_multiset_has_no_duplicates();
    s.lemma_multiset_has_no_duplicates_conv();
    assert forall|x: A| s.contains(x) <==> t.contains(x) by {
        assert(s.contains(x) <==> s.to_multiset().count(x) > 0);
        assert(t.contains(x) <==> t.to_multiset().count(x) > 0);
    }
}

/// Mapping preserves multiset equality.
pub proof fn lemma_map_values_multiset<A, B>(s: Seq<A>, t: Seq<A>, f: spec_fn(A) -> B)
    requires
        s.to_multiset() == t.to_multiset(),
    ensures
        s.map_values(f).to_multiset() == t.map_values(f).to_multiset(),
    decreases s.len(),
{
    broadcast use vstd::multiset::group_multiset_axioms;

    s.to_multiset_ensures();
    t.to_multiset_ensures();
    if s.len() == 0 {
        assert(t.len() == 0);
        assert(s.map_values(f) =~= t.map_values(f));
    } else {
        let x = s.last();
        assert(s.contains(x));
        assert(s.to_multiset().count(x) > 0);
        assert(t.contains(x));
        let j = choose|j: int| 0 <= j < t.len() && t[j] == x;
        let s2 = s.drop_last();
        let t2 = t.remove(j);
        assert(s2.push(x) =~= s);
        s2.to_multiset_ensures();
        assert(s.to_multiset() == s2.to_multiset().insert(x));
        assert(t2.to_multiset() == t.to_multiset().remove(x));
        assert(s2.to_multiset() =~= t2.to_multiset());
        lemma_map_values_multiset(s2, t2, f);
        let ms = s.map_values(f);
        let mt = t.map_values(f);
        let ms2 = s2.map_values(f);
        let mt2 = t2.map_values(f);
        assert(ms2.push(f(x)) =~= ms);
        assert(mt2 =~= mt.remove(j));
        ms2.to_multiset_ensures();
        mt.to_multiset_ensures();
        assert(ms.to_multiset() == ms2.to_multiset().insert(f(x)));
        assert(mt.remove(j).to_multiset() == mt.to_multiset().remove(mt[j]));
        assert(mt[j] == f(x));
        assert forall|y: B| ms.to_multiset().count(y) == mt.to_multiset().count(y) by {
            assert(mt.contains(mt[j]));
            mt.to_multiset_ensures();
            assert(mt.to_multiset().count(f(x)) > 0);
        }
        assert(ms.to_multiset() =~= mt.to_multiset());
    }
}

} // verus!
