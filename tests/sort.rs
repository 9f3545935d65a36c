use json_walk::{DefaultOrder, Kind, KeysBy, Number, PartialEqOrdered, Path, Value, ValueOrd, ValuesBy};
use std::cell::RefCell;
use std::cmp::Ordering;
use std::collections::HashSet;

fn conv(v: &serde_json::Value) -> Value {
    match v {
        serde_json::Value::Null => Value::Null,
        serde_json::Value::Bool(b) => Value::Bool(*b),
        serde_json::Value::Number(n) => {
            if let Some(u) = n.as_u64() {
                Value::Number(Number::PosInt(u))
            } else if let Some(i) = n.as_i64() {
                Value::Number(Number::NegInt(i))
            } else {
                Value::Number(Number::Float(n.as_f64().unwrap().to_bits()))
            }
        }
        serde_json::Value::String(s) => Value::String(s.clone()),
        serde_json::Value::Array(a) => Value::Array(a.iter().map(conv).collect()),
        serde_json::Value::Object(o) => {
            Value::Object(o.iter().map(|(k, v)| (k.clone(), conv(v))).collect())
        }
    }
}

fn j(text: &str) -> Value {
    conv(&serde_json::from_str::<serde_json::Value>(text).unwrap())
}

fn key(s: &str) -> Kind {
    Kind::ObjectKey(s.to_string())
}

fn pos(i: usize) -> Kind {
    Kind::ArrayIndex(i)
}

fn path(steps: Vec<Kind>) -> Path {
    Path::from_indices(steps)
}

fn keys_of(v: &Value) -> Vec<String> {
    match v {
        Value::Object(e) => e.iter().map(|(k, _)| k.clone()).collect(),
        _ => vec![],
    }
}

fn doc() -> Value {
    j(r#"{"a": "a", "c": "c", "b": "b", "d": {"2": "2", "1": "1"}}"#)
}

#[test]
fn sort_preserves_order() {
    assert!(!PartialEqOrdered::eq(
        &j(r#"{"b": "b", "a": "a", "d": {"1": "1", "2": "2"}, "c": "c"}"#),
        &j(r#"{"a": "a", "b": "b", "c": "c", "d": {"1": "1", "2": "2"}}"#)
    ));
}

#[test]
fn sort_sort_keys() {
    let sorted = doc().sorted_keys();
    assert!(PartialEqOrdered::eq(&sorted, &j(r#"{"a": "a", "b": "b", "c": "c", "d": {"2": "2", "1": "1"}}"#)));
}

#[test]
fn sort_sort_keys_recursive() {
    let sorted = doc().sorted_keys_recursive();
    assert!(PartialEqOrdered::eq(&sorted, &j(r#"{"a": "a", "b": "b", "c": "c", "d": {"1": "1", "2": "2"}}"#)));
}

fn reversed(ak: &Path, _av: &Value, bk: &Path, _bv: &Value) -> Ordering {
    assert!(ak.is_object_key());
    assert!(bk.is_object_key());
    Ord::cmp(bk, ak)
}

fn by_string_value(ak: &Path, av: &Value, bk: &Path, bv: &Value) -> Ordering {
    assert!(ak.is_object_key());
    assert!(bk.is_object_key());
    match (av, bv) {
        (Value::String(a), Value::String(b)) => Ord::cmp(a, b),
        (Value::String(_), _) => Ordering::Less,
        (_, Value::String(_)) => Ordering::Greater,
        _ => Ordering::Equal,
    }
}

#[test]
fn sort_sort_keys_by_recursive_custom_ordering_reversed() {
    let sorted = doc().sorted_keys_by_recursive(&KeysBy::new(reversed));
    assert!(PartialEqOrdered::eq(&sorted, &j(r#"{"d": {"2": "2", "1": "1"}, "c": "c", "b": "b", "a": "a"}"#)));
}

#[test]
fn sort_sort_keys_by_recursive_custom_ordering_by_value() {
    let value = j(r#"{"b": "a", "a": "c", "d": "b", "x": {"1": "2", "2": "1"}}"#);
    let sorted = value.sorted_keys_by_recursive(&KeysBy::new(by_string_value));
    assert!(PartialEqOrdered::eq(&sorted, &j(r#"{"b": "a", "d": "b", "a": "c", "x": {"2": "1", "1": "2"}}"#)));
}

#[test]
fn keys_sort_keys() {
    let expected = j(r#"{"a": "a", "b": "b", "c": "c", "d": {"2": "2", "1": "1"}}"#);
    assert!(PartialEqOrdered::eq(&doc().sorted_keys(), &expected));
    assert!(PartialEqOrdered::eq(&doc().sorted_keys_unstable(), &expected));
}

#[test]
fn sort_keys_by_uses_correct_indices() {
    let expected: HashSet<Path> =
        HashSet::from_iter([path(vec![key("a")]), path(vec![key("c")]), path(vec![key("b")]), path(vec![key("d")])]);
    let indices = RefCell::new(HashSet::new());
    let cmp = KeysBy::new(|ak: &Path, _av: &Value, bk: &Path, _bv: &Value| {
        indices.borrow_mut().extend([ak.clone(), bk.clone()]);
        Ord::cmp(ak, bk)
    });
    doc().sort_keys_by(&cmp);
    assert_eq!(&*indices.borrow(), &expected);
    indices.borrow_mut().clear();
    doc().sort_keys_unstable_by(&cmp);
    assert_eq!(&*indices.borrow(), &expected);
}

#[test]
fn keys_sort_keys_recursive() {
    let expected = j(r#"{"a": "a", "b": "b", "c": "c", "d": {"1": "1", "2": "2"}}"#);
    assert!(PartialEqOrdered::eq(&doc().sorted_keys_recursive(), &expected));
    assert!(PartialEqOrdered::eq(&doc().sorted_keys_unstable_recursive(), &expected));
}

#[test]
fn sort_keys_by_recursive_uses_correct_indices() {
    let expected: HashSet<Path> = HashSet::from_iter([
        path(vec![key("a")]),
        path(vec![key("c")]),
        path(vec![key("b")]),
        path(vec![key("d")]),
        path(vec![key("d"), key("2")]),
        path(vec![key("d"), key("1")]),
    ]);
    let indices = RefCell::new(HashSet::new());
    let cmp = KeysBy::new(|ak: &Path, _av: &Value, bk: &Path, _bv: &Value| {
        indices.borrow_mut().extend([ak.clone(), bk.clone()]);
        Ord::cmp(ak, bk)
    });
    doc().sort_keys_by_recursive(&cmp);
    assert_eq!(&*indices.borrow(), &expected);
    indices.borrow_mut().clear();
    doc().sort_keys_unstable_by_recursive(&cmp);
    assert_eq!(&*indices.borrow(), &expected);
}

#[test]
fn keys_sort_keys_by_recursive_custom_ordering_reversed() {
    let expected = j(r#"{"d": {"2": "2", "1": "1"}, "c": "c", "b": "b", "a": "a"}"#);
    let cmp = KeysBy::new(reversed);
    assert!(PartialEqOrdered::eq(&doc().sorted_keys_by_recursive(&cmp), &expected));
    let mut v = doc();
    v.sort_keys_unstable_by_recursive(&cmp);
    assert!(PartialEqOrdered::eq(&v, &expected));
}

#[test]
fn keys_sort_keys_by_recursive_custom_ordering_by_value() {
    let value = j(r#"{"b": "a", "a": "c", "d": "b", "x": {"1": "2", "2": "1"}}"#);
    let expected = j(r#"{"b": "a", "d": "b", "a": "c", "x": {"2": "1", "1": "2"}}"#);
    let cmp = KeysBy::new(by_string_value);
    assert!(PartialEqOrdered::eq(&value.clone().sorted_keys_by_recursive(&cmp), &expected));
    let mut v = value;
    v.sort_keys_unstable_by_recursive(&cmp);
    assert!(PartialEqOrdered::eq(&v, &expected));
}

#[test]
fn mod_preserves_order() {
    let value = j(r#"{"b": "b", "a": "a", "d": {"1": "1", "2": "2"}, "c": "c"}"#);
    assert!(!PartialEqOrdered::eq(&value, &j(r#"{"a": "a", "b": "b", "c": "c", "d": {"1": "1", "2": "2"}}"#)));
    assert!(!PartialEqOrdered::eq(&value, &j(r#"{"b": "b", "a": "a", "d": {"2": "2", "1": "1"}, "c": "c"}"#)));
    assert!(PartialEqOrdered::eq(&value, &value));
}

#[test]
fn value_ord() {
    let s = |t: &str| Value::String(t.to_string());
    let num = |n: u64| Value::Number(Number::PosInt(n));
    assert_eq!(ValueOrd::cmp(&s("a"), &s("b")), Ordering::Less);
    assert_eq!(ValueOrd::cmp(&s("b"), &s("a")), Ordering::Greater);
    assert_eq!(ValueOrd::cmp(&num(1), &num(2)), Ordering::Less);
    assert_eq!(ValueOrd::cmp(&Value::Bool(false), &Value::Bool(true)), Ordering::Less);
    assert_eq!(ValueOrd::cmp(&Value::Array(vec![s("a"), s("b")]), &Value::Array(vec![s("a")])), Ordering::Greater);
    assert_eq!(
        ValueOrd::cmp(&Value::Array(vec![Value::Bool(false), s("a")]), &Value::Array(vec![s("a")])),
        Ordering::Less
    );
}

#[test]
fn value_ord_numbers_and_kinds() {
    assert_eq!(ValueOrd::cmp(&j("-10"), &j("12")), Ordering::Less);
    assert_eq!(ValueOrd::cmp(&j("-10.8273"), &j("-10")), Ordering::Less);
    assert_eq!(ValueOrd::cmp(&j("2.5"), &j("2")), Ordering::Greater);
    assert_eq!(ValueOrd::cmp(&j("2.0"), &j("2")), Ordering::Equal);
    assert_eq!(ValueOrd::cmp(&j("1e300"), &j("18446744073709551615")), Ordering::Greater);
    assert_eq!(ValueOrd::cmp(&j("0.5"), &j("0.25")), Ordering::Greater);
    assert_eq!(ValueOrd::cmp(&j("-0.0"), &j("0")), Ordering::Equal);
    assert_eq!(ValueOrd::cmp(&j("null"), &j("false")), Ordering::Less);
    assert_eq!(ValueOrd::cmp(&j("true"), &j("0")), Ordering::Less);
    assert_eq!(ValueOrd::cmp(&j("99"), &j(r#""a""#)), Ordering::Less);
    assert_eq!(ValueOrd::cmp(&j(r#""z""#), &j("[]")), Ordering::Less);
    assert_eq!(ValueOrd::cmp(&j("[]"), &j("{}")), Ordering::Less);
    assert_eq!(ValueOrd::cmp(&j(r#"{"a": 1}"#), &j(r#"{"a": 2}"#)), Ordering::Less);
    assert_eq!(ValueOrd::cmp(&j(r#"{"b": 1}"#), &j(r#"{"a": 2}"#)), Ordering::Greater);
}

#[test]
fn sort_values() {
    let value = j(r#"{"a": "a", "c": "c", "d": [3, 2, 1], "b": {"1": "2", "2": "1"}}"#);
    let expected = j(r#"{"a": "a", "c": "c", "d": [3, 2, 1], "b": {"1": "2", "2": "1"}}"#);
    assert_eq!(value.clone().sorted_values(), expected);
    assert_eq!(value.sorted_values_unstable(), expected);
    assert_eq!(j("[3, 2, 1]").sorted_values(), j("[1, 2, 3]"));
}

#[test]
fn sort_values_recursive() {
    let value = j(r#"{"a": "a", "c": "c", "d": [3, 2, 1], "b": {"1": "2", "2": "1"}}"#);
    let expected = j(r#"{"a": "a", "c": "c", "d": [1, 2, 3], "b": {"1": "2", "2": "1"}}"#);
    assert_eq!(value.clone().sorted_values_recursive(), expected);
    assert_eq!(value.sorted_values_unstable_recursive(), expected);
}

#[test]
fn sort_values_by_recursive_custom_ordering_reversed() {
    let value = j(r#"{"a": "a", "c": "c", "b": [1, 2, 3], "d": {"2": "1", "1": "2"}}"#);
    let cmp = ValuesBy::new(|a: &Value, b: &Value| ValueOrd::cmp(b, a));
    let expected = j(r#"{"a": "a", "c": "c", "b": [3, 2, 1], "d": {"2": "1", "1": "2"}}"#);
    assert!(PartialEqOrdered::eq(&value.clone().sorted_values_by_recursive(&cmp), &expected));
    let mut v = value;
    v.sort_values_unstable_by_recursive(&cmp);
    assert!(PartialEqOrdered::eq(&v, &expected));
}

#[test]
fn sort_values_by_recursive_custom_ordering_by_value() {
    let value = j(r#"{"x": [["b", "b"], ["c"], ["a", "a", "a"], false, "test"]}"#);
    let expected_default = j(r#"{"x": [false, "test", ["a", "a", "a"], ["b", "b"], ["c"]]}"#);
    assert_eq!(value.clone().sorted_values_recursive(), expected_default);
    assert_eq!(value.clone().sorted_values_unstable_recursive(), expected_default);
    let cmp = ValuesBy::new(|a: &Value, b: &Value| match (a, b) {
        (Value::Array(a), Value::Array(b)) => Ord::cmp(&a.len(), &b.len()),
        _ => ValueOrd::cmp(a, b),
    });
    let expected_custom_cmp = j(r#"{"x": [false, "test", ["c"], ["b", "b"], ["a", "a", "a"]]}"#);
    assert_eq!(value.clone().sorted_values_by_recursive(&cmp), expected_custom_cmp);
    let mut v = value;
    v.sort_values_unstable_by_recursive(&cmp);
    assert_eq!(v, expected_custom_cmp);
}

#[test]
fn sorted_keys_round_trip() {
    let value = j(r#"{"a": "a", "c": "c", "b": "b", "d": {"2": "2", "1": "1"}}"#);
    let once = value.clone().sorted_keys();
    assert_eq!(keys_of(&once), vec!["a", "b", "c", "d"]);
    assert_eq!(keys_of(&once.at(&path(vec![key("d")]))), vec!["2", "1"]);
    let deep = value.sorted_keys_recursive();
    assert_eq!(keys_of(&deep), vec!["a", "b", "c", "d"]);
    assert_eq!(keys_of(&deep.at(&path(vec![key("d")]))), vec!["1", "2"]);
}

#[test]
fn sorted_keys_recursive_twice_is_once() {
    let value = j(r#"{"z": {"b": [{"y": 1, "x": 2}], "a": 0}, "m": null}"#);
    let once = value.sorted_keys_recursive();
    let twice = once.clone().sorted_keys_recursive();
    assert!(PartialEqOrdered::eq(&once, &twice));
}

#[test]
fn sort_keys_and_values_together() {
    let mut v = j(r#"{"b": [2, 1], "a": {"d": [4, 3], "c": 0}}"#);
    v.sort_recursive();
    assert!(PartialEqOrdered::eq(&v, &j(r#"{"a": {"c": 0, "d": [3, 4]}, "b": [1, 2]}"#)));
    let mut w = j(r#"[3, 1, 2]"#);
    w.sort();
    assert_eq!(w, j("[1, 2, 3]"));
}

#[test]
fn default_value_order_object_used_directly() {
    let v = j("[2, 1]").sorted_values_by(&DefaultOrder);
    assert_eq!(v, j("[1, 2]"));
}

#[test]
fn equal_keys_keep_their_order() {
    let same = KeysBy::new(|_a: &Path, _av: &Value, _b: &Path, _bv: &Value| Ordering::Equal);
    let v = j(r#"{"b": 1, "a": 2}"#).sorted_keys_by(&same);
    assert!(PartialEqOrdered::eq(&v, &j(r#"{"b": 1, "a": 2}"#)));
}

#[test]
fn numbers_compare_as_doubles() {
    assert_eq!(ValueOrd::cmp(&j("9007199254740992"), &j("9007199254740993")), Ordering::Equal);
    assert_eq!(ValueOrd::cmp(&j("9007199254740995"), &j("9007199254740996")), Ordering::Equal);
    assert_eq!(ValueOrd::cmp(&j("9007199254740994"), &j("9007199254740995")), Ordering::Less);
    assert_eq!(ValueOrd::cmp(&j("-9007199254740993"), &j("-9007199254740992")), Ordering::Equal);
    assert_eq!(ValueOrd::cmp(&j("18446744073709551615"), &j("1.8446744073709552e19")), Ordering::Equal);
    assert_eq!(ValueOrd::cmp(&j("9223372036854775807"), &j("-9223372036854775808")), Ordering::Greater);
    assert_eq!(ValueOrd::cmp(&j("9007199254740993"), &j("9007199254740992.0")), Ordering::Equal);
}

#[test]
fn deep_equal_ignores_key_order() {
    let a = j(r#"{"a": 1, "b": {"x": [1, {"p": 1, "q": 2}], "y": null}}"#);
    let b = j(r#"{"b": {"y": null, "x": [1, {"q": 2, "p": 1}]}, "a": 1}"#);
    assert!(json_walk::deep_equal(&a, &b));
    assert!(!PartialEqOrdered::eq(&a, &b));
    assert!(!json_walk::deep_equal(&a, &j(r#"{"a": 1}"#)));
    assert!(!json_walk::deep_equal(&j(r#"{"a": 1}"#), &a));
    assert!(!json_walk::deep_equal(&j("[1, 2]"), &j("[2, 1]")));
    assert!(!json_walk::deep_equal(&j(r#"{"a": 1}"#), &j(r#"{"a": 2}"#)));
}

#[test]
fn nan_patterns_are_equal_and_greatest() {
    let nan = |bits: u64| Value::Number(Number::Float(bits));
    let quiet = f64::NAN.to_bits();
    let negative_payload = quiet | (1u64 << 63) | 5;
    assert_eq!(ValueOrd::cmp(&nan(quiet), &nan(negative_payload)), Ordering::Equal);
    assert_eq!(ValueOrd::cmp(&nan(negative_payload), &j("1e308")), Ordering::Greater);
    assert_eq!(ValueOrd::cmp(&nan(f64::INFINITY.to_bits()), &nan(quiet)), Ordering::Less);
    assert_eq!(ValueOrd::cmp(&nan(f64::NEG_INFINITY.to_bits()), &j("-1e308")), Ordering::Less);
}
