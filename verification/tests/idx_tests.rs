use std::collections::Bound::Excluded;
use std::collections::Bound::Included;
use std::collections::Bound::Unbounded;

use shortcut::idx::BTreeIndex;
use shortcut::idx::HashIndex;
use shortcut::EqualityIndex;
use shortcut::RangeIndex;

#[test]
fn hashmap_eq_index() {
    let mut eqidx = HashIndex::new();
    assert_eq!(eqidx.lookup(&"a").len(), 0);
    eqidx.index("a", 0);
    assert_eq!(eqidx.lookup(&"a").len(), 1);
    eqidx.index("a", 1);
    assert_eq!(eqidx.lookup(&"a").len(), 2);
    eqidx.undex(&"a", 0);
    assert_eq!(eqidx.lookup(&"a").len(), 1);
}

#[test]
fn btree_eq_index() {
    let mut idx = BTreeIndex::new();
    assert_eq!(idx.lookup(&"a").len(), 0);
    idx.index("a", 0);
    assert_eq!(idx.lookup(&"a").len(), 1);
    idx.index("a", 1);
    assert_eq!(idx.lookup(&"a").len(), 2);
    idx.undex(&"a", 0);
    assert_eq!(idx.lookup(&"a").len(), 1);
}

#[test]
fn btree_range_index() {
    let mut idx = BTreeIndex::new();
    assert_eq!(idx.between(Included(&"a"), Included(&"b")).len(), 0);
    idx.index("a", 0);
    assert_eq!(idx.between(Included(&"a"), Included(&"b")).len(), 1);
    idx.index("b", 1);
    assert_eq!(idx.between(Included(&"a"), Included(&"b")).len(), 2);
    idx.undex(&"b", 1);
    assert_eq!(idx.between(Included(&"a"), Included(&"b")).len(), 1);
}

#[test]
fn hash_index_undexes_exactly_one_occurrence() {
    let mut idx = HashIndex::new();
    idx.index("a", 7);
    idx.index("a", 7);
    idx.index("a", 8);
    assert_eq!(idx.lookup(&"a").len(), 3);
    idx.undex(&"a", 7);
    let ids = idx.lookup(&"a");
    assert_eq!(ids.len(), 2);
    assert!(ids.contains(&7));
    assert!(ids.contains(&8));
}

#[test]
fn hash_index_estimate_is_entries_per_key() {
    let mut idx: HashIndex<&str> = HashIndex::new();
    assert_eq!(idx.estimate(), 0);
    idx.index("a", 0);
    idx.index("a", 1);
    idx.index("b", 2);
    assert_eq!(idx.estimate(), 1);
    idx.index("a", 3);
    assert_eq!(idx.estimate(), 2);
}

#[test]
fn btree_index_estimate_empty_is_zero() {
    let idx: BTreeIndex<&str> = BTreeIndex::new();
    assert_eq!(idx.estimate(), 0);
}

#[test]
fn empty_key_drops_from_estimate() {
    let mut idx: HashIndex<&str> = HashIndex::new();
    idx.index("a", 0);
    idx.index("b", 1);
    idx.index("b", 2);
    idx.undex(&"a", 0);
    assert_eq!(idx.estimate(), 2);
}

#[test]
fn btree_between_respects_bounds() {
    let mut idx = BTreeIndex::new();
    idx.index("b", 1);
    idx.index("a", 0);
    idx.index("c", 2);
    idx.index("b", 3);
    let all = idx.between(Unbounded, Unbounded);
    assert_eq!(all, vec![0, 1, 3, 2]);
    assert_eq!(idx.between(Excluded(&"a"), Excluded(&"c")), vec![1, 3]);
    assert_eq!(idx.between(Included(&"b"), Unbounded), vec![1, 3, 2]);
    assert_eq!(idx.between(Unbounded, Excluded(&"b")), vec![0]);
}

#[test]
fn lookup_of_absent_key_is_empty() {
    let mut idx = HashIndex::new();
    idx.index("a", 0);
    assert_eq!(idx.lookup(&"b").len(), 0);
    let mut bidx = BTreeIndex::new();
    bidx.index("a", 0);
    assert_eq!(bidx.lookup(&"b").len(), 0);
}
