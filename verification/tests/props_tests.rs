use std::collections::Bound::Included;
use std::sync::Arc;

use shortcut::cmp;
use shortcut::idx;
use shortcut::EqualityIndex;
use shortcut::RangeIndex;
use shortcut::Store;

fn found_sorted(store: &Store<&'static str>, conds: &[cmp::Condition<&'static str>]) -> Vec<Vec<&'static str>> {
    let mut rows: Vec<Vec<&'static str>> = store.find(conds).into_iter().cloned().collect();
    rows.sort();
    rows
}

fn eq_a() -> [cmp::Condition<&'static str>; 1] {
    [cmp::Condition {
        column: 0,
        cmp: cmp::Comparison::Equal(cmp::Value::new("a")),
    }]
}

#[test]
fn roundtrip_returns_inserted_rows_as_multiset() {
    let mut store = Store::new(2);
    store.insert(vec!["a", "x1"]);
    store.insert(vec!["a", "x1"]);
    store.insert(vec!["b", "x2"]);
    let rows = found_sorted(&store, &[]);
    assert_eq!(rows, vec![vec!["a", "x1"], vec!["a", "x1"], vec!["b", "x2"]]);

    let mut indexed = Store::new(2);
    indexed.index(0, idx::HashIndex::new());
    indexed.insert(vec!["a", "x1"]);
    indexed.insert(vec!["a", "x1"]);
    indexed.insert(vec!["b", "x2"]);
    assert_eq!(found_sorted(&indexed, &[]), rows);
}

#[test]
fn index_never_changes_results() {
    let data = [vec!["a", "x1"], vec!["a", "x2"], vec!["b", "x3"]];
    let expected = vec![vec!["a", "x1"], vec!["a", "x2"]];

    let mut plain = Store::new(2);
    for row in data.iter() {
        plain.insert(row.clone());
    }
    assert_eq!(found_sorted(&plain, &eq_a()), expected);

    let mut early = Store::new(2);
    early.index(0, idx::HashIndex::new());
    for row in data.iter() {
        early.insert(row.clone());
    }
    assert_eq!(found_sorted(&early, &eq_a()), expected);

    let mut late = Store::new(2);
    for row in data.iter() {
        late.insert(row.clone());
    }
    late.index(0, idx::HashIndex::new());
    assert_eq!(found_sorted(&late, &eq_a()), expected);
}

#[test]
fn conditions_combine_conjunctively() {
    let mut store = Store::new(2);
    store.insert(vec!["a", "x1"]);
    store.insert(vec!["a", "x2"]);
    store.insert(vec!["b", "x3"]);
    let conds = [
        cmp::Condition {
            column: 0,
            cmp: cmp::Comparison::Equal(cmp::Value::new("a")),
        },
        cmp::Condition {
            column: 1,
            cmp: cmp::Comparison::Equal(cmp::Value::new("x2")),
        },
    ];
    assert_eq!(found_sorted(&store, &conds), vec![vec!["a", "x2"]]);
}

#[test]
fn delete_unindexes_for_every_index_kind() {
    let mut store = Store::new(2);
    store.index(0, idx::HashIndex::new());
    store.index(1, idx::BTreeIndex::new());
    store.insert(vec!["a", "x1"]);
    store.insert(vec!["a", "x2"]);
    store.insert(vec!["b", "x3"]);
    store.delete(&eq_a());
    assert_eq!(store.find(&eq_a()).len(), 0);
    assert_eq!(found_sorted(&store, &[]), vec![vec!["b", "x3"]]);
    let x2 = [cmp::Condition {
        column: 1,
        cmp: cmp::Comparison::Equal(cmp::Value::new("x2")),
    }];
    assert_eq!(store.find(&x2).len(), 0);
}

#[test]
fn partial_delete_preserves_others() {
    let mut store = Store::new(2);
    store.insert(vec!["a", "x1"]);
    store.insert(vec!["a", "x2"]);
    store.insert(vec!["b", "x3"]);
    store.delete(&eq_a());
    assert_eq!(found_sorted(&store, &[]), vec![vec!["b", "x3"]]);
}

#[test]
fn deleted_rows_never_resurface() {
    let mut store = Store::new(1);
    store.index(0, idx::HashIndex::new());
    store.insert(vec!["a"]);
    store.insert(vec!["b"]);
    store.delete(&eq_a());
    store.insert(vec!["a"]);
    assert_eq!(store.find(&eq_a()).len(), 1);
    assert_eq!(store.find(&[]).len(), 2);
    store.delete(&[]);
    assert_eq!(store.find(&[]).len(), 0);
    store.insert(vec!["c"]);
    assert_eq!(found_sorted(&store, &[]), vec![vec!["c"]]);
}

#[test]
fn backfill_matches_early_attachment() {
    let data = [vec!["a", "x1"], vec!["a", "x2"], vec!["b", "x3"]];

    let mut early = Store::new(2);
    early.index(0, idx::BTreeIndex::new());
    for row in data.iter() {
        early.insert(row.clone());
    }

    let mut late = Store::new(2);
    for row in data.iter() {
        late.insert(row.clone());
    }
    late.index(0, idx::BTreeIndex::new());

    for key in ["a", "b", "c"] {
        let cond = [cmp::Condition {
            column: 0,
            cmp: cmp::Comparison::Equal(cmp::Value::new(key)),
        }];
        assert_eq!(found_sorted(&early, &cond), found_sorted(&late, &cond));
    }
}

#[test]
fn reattaching_replaces_the_index() {
    let mut store = Store::new(2);
    store.index(0, idx::HashIndex::new());
    store.insert(vec!["a", "x1"]);
    store.insert(vec!["b", "x2"]);
    store.index(0, idx::BTreeIndex::new());
    assert_eq!(found_sorted(&store, &eq_a()), vec![vec!["a", "x1"]]);
}

#[test]
fn find_on_empty_store_is_empty() {
    let store: Store<&str> = Store::new(2);
    assert_eq!(store.find(&[]).len(), 0);
    assert_eq!(store.find(&eq_a()).len(), 0);
}

#[test]
fn column_reference_conditions_bypass_indices() {
    let mut store = Store::new(2);
    store.index(0, idx::HashIndex::new());
    store.insert(vec!["a", "a"]);
    store.insert(vec!["a", "b"]);
    store.insert(vec!["c", "c"]);
    let self_eq = [cmp::Condition {
        column: 0,
        cmp: cmp::Comparison::Equal(cmp::Value::column(1)),
    }];
    assert_eq!(
        found_sorted(&store, &self_eq),
        vec![vec!["a", "a"], vec!["c", "c"]]
    );
}

#[test]
fn arc_rows_read_back_their_columns() {
    let mut store = Store::new(2);
    store.insert(Arc::new(vec!["a", "x1"]));
    store.insert(Arc::new(vec!["b", "x2"]));
    let found = store.find(&eq_a());
    assert_eq!(found.len(), 1);
    assert_eq!(found[0][0], "a");
    assert_eq!(found[0][1], "x1");
}

#[test]
fn string_rows_with_ordered_index() {
    let mut store: Store<String> = Store::new(2);
    store.index(0, idx::BTreeIndex::new());
    store.insert(vec!["a".to_string(), "x1".to_string()]);
    store.insert(vec!["a".to_string(), "x2".to_string()]);
    store.insert(vec!["b".to_string(), "x3".to_string()]);
    let cond = [cmp::Condition {
        column: 0,
        cmp: cmp::Comparison::Equal(cmp::Value::new("a".to_string())),
    }];
    assert_eq!(store.find(&cond).len(), 2);
    store.delete(&cond);
    assert_eq!(store.find(&cond).len(), 0);
    assert_eq!(store.find(&[]).len(), 1);
}

#[test]
fn integer_rows_with_both_index_kinds() {
    let mut store: Store<u64> = Store::new(2);
    store.index(0, idx::HashIndex::new());
    store.index(1, idx::BTreeIndex::new());
    store.insert(vec![1, 10]);
    store.insert(vec![1, 20]);
    store.insert(vec![2, 30]);
    let one = [cmp::Condition {
        column: 0,
        cmp: cmp::Comparison::Equal(cmp::Value::new(1u64)),
    }];
    assert_eq!(store.find(&one).len(), 2);
    store.delete(&one);
    assert_eq!(store.find(&one).len(), 0);
    assert_eq!(store.find(&[]).len(), 1);
}

#[test]
fn string_range_scan_is_ordered_by_key() {
    let mut idx: idx::BTreeIndex<&str> = idx::BTreeIndex::new();
    idx.index("pear", 1);
    idx.index("apple", 0);
    idx.index("quince", 2);
    idx.index("banana", 3);
    assert_eq!(
        idx.between(Included(&"apple"), Included(&"pear")),
        vec![0, 3, 1]
    );
}
