use std::sync;

use shortcut::cmp;
use shortcut::idx;
use shortcut::Store;

#[test]
fn it_works() {
    let mut store = Store::new(2);
    store.insert(vec!["a1", "a2"]);
    store.insert(vec!["b1", "b2"]);
    store.insert(vec!["c1", "c2"]);
    assert_eq!(store.find(&[]).len(), 3);
}

#[test]
fn it_works_w_non_vec() {
    let mut store = Store::new(2);
    store.insert(sync::Arc::new(vec!["a1", "a2"]));
    store.insert(sync::Arc::new(vec!["b1", "b2"]));
    store.insert(sync::Arc::new(vec!["c1", "c2"]));
    assert_eq!(store.find(&[]).len(), 3);
}

#[test]
fn it_works_with_indices() {
    let mut store = Store::new(2);
    store.index(0, idx::HashIndex::new());
    store.insert(vec!["a1", "a2"]);
    store.insert(vec!["b1", "b2"]);
    store.insert(vec!["c1", "c2"]);
    assert_eq!(store.find(&[]).len(), 3);
}

#[test]
fn it_filters() {
    let mut store = Store::new(2);
    store.insert(vec!["a", "x1"]);
    store.insert(vec!["a", "x2"]);
    store.insert(vec!["b", "x3"]);
    let cmp = [cmp::Condition {
        column: 0,
        cmp: cmp::Comparison::Equal(cmp::Value::new("a")),
    }];
    assert_eq!(store.find(&cmp).len(), 2);
    assert!(store.find(&cmp).into_iter().all(|r| r[0] == "a"));
}

#[test]
fn it_filters_with_indices() {
    let mut store = Store::new(2);
    store.index(0, idx::HashIndex::new());
    store.insert(vec!["a", "x1"]);
    store.insert(vec!["a", "x2"]);
    store.insert(vec!["b", "x3"]);
    let cmp = [cmp::Condition {
        column: 0,
        cmp: cmp::Comparison::Equal(cmp::Value::new("a")),
    }];
    assert_eq!(store.find(&cmp).len(), 2);
    assert!(store.find(&cmp).into_iter().all(|r| r[0] == "a"));
}

#[test]
fn it_filters_with_partial_indices() {
    let mut store = Store::new(2);
    store.index(0, idx::HashIndex::new());
    store.insert(vec!["a", "x1"]);
    store.insert(vec!["a", "x2"]);
    store.insert(vec!["b", "x3"]);
    let cmp = [
        cmp::Condition {
            column: 0,
            cmp: cmp::Comparison::Equal(cmp::Value::new("a")),
        },
        cmp::Condition {
            column: 1,
            cmp: cmp::Comparison::Equal(cmp::Value::new("x2")),
        },
    ];
    assert_eq!(store.find(&cmp).len(), 1);
    assert!(store.find(&cmp).into_iter().all(|r| r[0] == "a" && r[1] == "x2"));
}

#[test]
fn it_filters_with_late_indices() {
    let mut store = Store::new(2);
    store.insert(vec!["a", "x1"]);
    store.insert(vec!["a", "x2"]);
    store.insert(vec!["b", "x3"]);
    store.index(0, idx::HashIndex::new());
    let cmp = [cmp::Condition {
        column: 0,
        cmp: cmp::Comparison::Equal(cmp::Value::new("a")),
    }];
    assert_eq!(store.find(&cmp).len(), 2);
    assert!(store.find(&cmp).into_iter().all(|r| r[0] == "a"));
}

#[test]
fn it_deletes() {
    let mut store = Store::new(2);
    store.insert(vec!["a1", "a2"]);
    store.insert(vec!["b1", "b2"]);
    store.insert(vec!["c1", "c2"]);
    store.delete(&[]);
    assert_eq!(store.find(&[]).len(), 0);
}

#[test]
fn filtered_delete() {
    let mut store = Store::new(2);
    store.insert(vec!["a1", "a2"]);
    store.insert(vec!["b1", "b2"]);
    store.insert(vec!["c1", "c2"]);
    store.delete_filter(&[], |row| row[0] != "b1");
    assert_eq!(store.find(&[]).len(), 1);
    assert!(store.find(&[]).into_iter().all(|r| r[0] == "b1"));
}

#[test]
fn it_deletes_with_filters() {
    let mut store = Store::new(2);
    store.insert(vec!["a", "x1"]);
    store.insert(vec!["a", "x2"]);
    store.insert(vec!["b", "x3"]);
    let cmp = [cmp::Condition {
        column: 0,
        cmp: cmp::Comparison::Equal(cmp::Value::new("a")),
    }];
    store.delete(&cmp);
    assert_eq!(store.find(&cmp).len(), 0);
    assert_eq!(store.find(&[]).len(), 1);
    assert!(store.find(&[]).into_iter().all(|r| r[0] == "b"));
}

#[test]
fn it_deletes_with_indices() {
    let mut store = Store::new(2);
    store.index(0, idx::HashIndex::new());
    store.insert(vec!["a", "x1"]);
    store.insert(vec!["a", "x2"]);
    store.insert(vec!["b", "x3"]);
    let cmp = [cmp::Condition {
        column: 0,
        cmp: cmp::Comparison::Equal(cmp::Value::new("a")),
    }];
    store.delete(&cmp);
    assert_eq!(store.find(&cmp).len(), 0);
    assert_eq!(store.find(&[]).len(), 1);
    assert!(store.find(&[]).into_iter().all(|r| r[0] == "b"));
}

#[test]
fn it_deletes_with_partial_indices() {
    let mut store = Store::new(2);
    store.index(0, idx::HashIndex::new());
    store.insert(vec!["a", "x1"]);
    store.insert(vec!["a", "x2"]);
    store.insert(vec!["b", "x3"]);
    let cmp = [
        cmp::Condition {
            column: 0,
            cmp: cmp::Comparison::Equal(cmp::Value::new("a")),
        },
        cmp::Condition {
            column: 1,
            cmp: cmp::Comparison::Equal(cmp::Value::new("x2")),
        },
    ];
    store.delete(&cmp);
    assert_eq!(store.find(&cmp).len(), 0);
    assert_eq!(store.find(&[]).len(), 2);
    assert!(store.find(&[]).into_iter().any(|r| r[0] == "a" && r[1] == "x1"));
    assert!(store.find(&[]).into_iter().any(|r| r[0] == "b" && r[1] == "x3"));
}
