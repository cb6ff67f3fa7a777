use shortcut::cmp::Comparison;
use shortcut::cmp::Condition;
use shortcut::cmp::Value;

#[test]
fn value() {
    let a = &["a"];
    let b = &["b"];
    assert_eq!(Value::column(0).value(&a[..]), &"a");
    assert_eq!(Value::new("a").value(&b[..]), &"a");
}

#[test]
fn cmp_eq() {
    let a = &["a"];
    let b = &["b"];
    assert!(Comparison::Equal(Value::column(0)).matches(&"a", &a[..]));
    assert!(!Comparison::Equal(Value::column(0)).matches(&"a", &b[..]));
    assert!(Comparison::Equal(Value::new("a")).matches(&"a", &b[..]));
    assert!(!Comparison::Equal(Value::new("b")).matches(&"a", &a[..]));
}

#[test]
fn borrowed_values() {
    let a = vec!["a".to_string()];
    let b = vec!["b".to_string()];
    assert!(Comparison::Equal(Value::column(0)).matches(&a[0], &a));
    assert!(!Comparison::Equal(Value::column(0)).matches(&a[0], &b));
    assert!(Comparison::Equal(Value::using(&a[0])).matches(&a[0], &b));
    assert!(!Comparison::Equal(Value::using(&b[0])).matches(&a[0], &a));
}

#[test]
fn through_deref() {
    let a = vec!["a".to_string()];
    let b = vec!["b".to_string()];
    assert!(Comparison::Equal(Value::column(0)).matches(&a[0], &a));
    assert!(!Comparison::Equal(Value::column(0)).matches(&a[0], &b));
    assert!(Comparison::Equal(Value::new("a".to_string())).matches(&a[0], &b));
    assert!(!Comparison::Equal(Value::new("b".to_string())).matches(&a[0], &a));
}

#[test]
fn display() {
    let cf01: Condition<String> = Condition {
        column: 0,
        cmp: Comparison::Equal(Value::Column(1)),
    };

    let cca = Condition {
        column: 0,
        cmp: Comparison::Equal::<&str>(Value::new("a")),
    };

    assert_eq!(cf01.describe(), "[0] = [1]");
    assert_eq!(cca.describe(), "[0] = a")
}

#[test]
fn describe_renders_multi_digit_columns() {
    let c: Condition<u64> = Condition {
        column: 12,
        cmp: Comparison::Equal(Value::new(305)),
    };
    assert_eq!(c.describe(), "[12] = 305");
    assert_eq!(Value::<u64>::column(10).describe(), "[10]");
    assert_eq!(Value::<u64>::new(0).describe(), "0");
}

#[test]
fn cond_eq() {
    let cmpf0 = Comparison::Equal(Value::column(0));
    let cmpca = Comparison::Equal(Value::new("a"));
    let cmpcb = Comparison::Equal(Value::new("b"));

    let cf10 = Condition {
        column: 1,
        cmp: cmpf0,
    };
    let cca = Condition {
        column: 0,
        cmp: cmpca,
    };
    let ccb = Condition {
        column: 0,
        cmp: cmpcb,
    };

    let a = &["a"];
    let b = &["b"];
    let aa = &["a", "a"];
    let ab = &["a", "b"];
    assert!(cf10.matches(&aa[..]));
    assert!(!cf10.matches(&ab[..]));
    assert!(cca.matches(&a[..]));
    assert!(!cca.matches(&b[..]));
    assert!(ccb.matches(&b[..]));
    assert!(!ccb.matches(&a[..]));
}
