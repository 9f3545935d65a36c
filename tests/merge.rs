use itertools::Itertools;
use json_walk::{Kind, MergeRule, Number, Path, RuleWith, UnionRule, Value};

fn conv(v: &serde_json::Value) -> Value {
    match v {
        serde_json::Value::Null => Value::Null,
        serde_json::Value::Bool(b) => Value::Bool(*b),
        serde_json::Value::Number(n) => {
            if let Some(u) = n.as_u64() {
                Value::Number(Number::PosInt(u))
            } else if let Some(i) = n.as_i64() {
                Value::Number(Number::NegInt(i))
            } else {
                Value::Number(Number::Float(n.as_f64().unwrap().to_bits()))
            }
        }
        serde_json::Value::String(s) => Value::String(s.clone()),
        serde_json::Value::Array(a) => Value::Array(a.iter().map(conv).collect()),
        serde_json::Value::Object(o) => {
            Value::Object(o.iter().map(|(k, v)| (k.clone(), conv(v))).collect())
        }
    }
}

fn j(text: &str) -> Value {
    conv(&serde_json::from_str::<serde_json::Value>(text).unwrap())
}

fn key(s: &str) -> Kind {
    Kind::ObjectKey(s.to_string())
}

fn pos(i: usize) -> Kind {
    Kind::ArrayIndex(i)
}

fn path(steps: Vec<Kind>) -> Path {
    Path::from_indices(steps)
}

fn merged(base: &str, donor: &str) -> Value {
    j(base).merged_recursive(&j(donor))
}

#[test]
fn it_should_merge_array_string() {
    assert_eq!(merged(r#"["a", "b"]"#, r#"["b", "c"]"#), j(r#"["a", "b", "b", "c"]"#));
}

#[test]
fn it_should_merge_array_object() {
    assert_eq!(
        merged(r#"[{"value": "a"}, {"value": "b"}]"#, r#"[{"value": "b"}, {"value": "c"}]"#),
        j(r#"[{"value": "a"}, {"value": "b"}, {"value": "b"}, {"value": "c"}]"#)
    );
}

#[test]
fn it_should_merge_object() {
    assert_eq!(
        merged(r#"{"value1": "a", "value2": "b"}"#, r#"{"value1": "a", "value2": "c", "value3": "d"}"#),
        j(r#"{"value1": "a", "value2": "c", "value3": "d"}"#)
    );
}

#[test]
fn it_should_merge_string() {
    assert_eq!(merged(r#""a""#, r#""b""#), j(r#""b""#));
}

fn additive(_p: &Path, this: &Value, other: &Value) -> (Option<Value>, bool) {
    match (this, other) {
        (Value::Object(t), Value::Object(o)) => {
            let mut t = t.clone();
            for (k, _) in o {
                if !t.iter().any(|(tk, _)| tk == k) {
                    t.push((k.clone(), Value::Null));
                }
            }
            (Some(Value::Object(t)), true)
        }
        (_, Value::Null) => (None, false),
        (Value::Null, o) => (Some(o.clone()), false),
        _ => (None, false),
    }
}

fn base_doc() -> Value {
    j(r#"{"title": "This is a title", "person": {"firstName": "John", "lastName": "Doe"}, "cities": ["london", "paris"]}"#)
}

fn donor_doc() -> Value {
    j(r#"{"title": "", "person": {"firstName": "", "lastName": "", "new": "this field is new"},
        "cities": ["london"], "new": ["this is new"]}"#)
}

#[test]
fn test_merge() {
    let rule = RuleWith::new(additive);
    assert_eq!(
        base_doc().merged_by_recursive(&donor_doc(), &rule),
        j(r#"{"title": "This is a title", "person": {"firstName": "John", "lastName": "Doe", "new": "this field is new"},
            "cities": ["london", "paris"], "new": ["this is new"]}"#)
    );
}

#[test]
fn merge_array_string() {
    assert_eq!(merged(r#"["a", "b"]"#, r#"["b", "c"]"#), j(r#"["a", "b", "b", "c"]"#));
}

#[test]
fn merge_array_object() {
    assert_eq!(
        merged(r#"[{"value": "a"}, {"value": "b"}]"#, r#"[{"value": "b"}, {"value": "c"}]"#),
        j(r#"[{"value": "a"}, {"value": "b"}, {"value": "b"}, {"value": "c"}]"#)
    );
}

#[test]
fn merge_object() {
    assert_eq!(
        merged(r#"{"value1": "a", "value2": "b"}"#, r#"{"value1": "a", "value2": "c", "value3": "d"}"#),
        j(r#"{"value1": "a", "value2": "c", "value3": "d"}"#)
    );
}

#[test]
fn merge_string() {
    assert_eq!(merged(r#""a""#, r#""b""#), j(r#""b""#));
}

fn custom_union(_p: &Path, this: &Value, other: &Value) -> (Option<Value>, bool) {
    match (this, other) {
        (Value::Object(t), Value::Object(o)) => {
            let mut t = t.clone();
            for (k, _) in o {
                if !t.iter().any(|(tk, _)| tk == k) {
                    t.push((k.clone(), Value::Null));
                }
            }
            (Some(Value::Object(t)), true)
        }
        (Value::Object(_), _) => (None, false),
        (_, o @ Value::Object(_)) => (Some(o.clone()), false),
        (_, Value::Null) => (None, false),
        (Value::Null, o) => (Some(o.clone()), false),
        (_, o) => (Some(o.clone()), false),
    }
}

#[test]
fn union_all_custom_func() {
    let items = vec![
        j(r#"{"title": "This is a title", "person": {"firstName": "John", "lastName": "Doe"}, "cities": ["london", "paris"]}"#),
        j(r#"{"person": {"firstName": "John"}}"#),
        j(r#"{"another": 1}"#),
        j(r#"{"another": {"another": 2}}"#),
        j(r#"{"person": {"firstName": {"test": "John"}, "gender": {"important": false}}}"#),
    ];
    let mut expected = j(r#"{"title": "This is a title",
        "person": {"lastName": "Doe", "firstName": {"test": "John"}, "gender": {"important": false}},
        "cities": ["london", "paris"], "another": {"another": 2}}"#);
    expected.sort_keys_recursive();
    let rule = RuleWith::new(custom_union);
    let len = items.len();
    for perm in items.into_iter().permutations(len) {
        let mut union = Value::union_all_by(&perm, &rule);
        union.sort_keys_recursive();
        assert_eq!(union, expected);
    }
}

#[test]
fn union_recursive_complex() {
    assert_eq!(
        base_doc().into_union_recursive(&donor_doc()),
        j(r#"{"title": "This is a title", "person": {"firstName": "John", "lastName": "Doe", "new": "this field is new"},
            "cities": ["london", "paris", "london"], "new": ["this is new"]}"#)
    );
}

#[test]
fn merge_one_level_visits_but_does_not_expand_children() {
    let mut base = j(r#"{"a": {"x": 1}, "b": 2}"#);
    base.merge(&j(r#"{"a": {"y": 3}, "b": 5, "c": 6}"#));
    assert_eq!(base, j(r#"{"a": {"x": 1, "y": null}, "b": 5, "c": 6}"#));
}

#[test]
fn merge_rule_cases() {
    assert_eq!(merged("[1]", "2"), j("[1, 2]"));
    assert_eq!(merged("[1]", "null"), j("[1, null]"));
    assert_eq!(merged("[1]", r#"{"a": 1}"#), j("[1]"));
    assert_eq!(merged("1", "null"), j("1"));
    assert_eq!(merged("null", "[1]"), j("[1]"));
    assert_eq!(merged("1", r#"{"a": 1}"#), j(r#"{"a": 1}"#));
    assert_eq!(merged(r#"{"a": 1}"#, "2"), j(r#"{"a": 1}"#));
    assert_eq!(merged(r#"{"a": 1}"#, "[2]"), j(r#"{"a": 1}"#));
}

#[test]
fn union_rule_cases() {
    let u = |a: &str, b: &str| j(a).into_union_recursive(&j(b));
    assert_eq!(u("1", "2"), j("1"));
    assert_eq!(u("null", "2"), j("2"));
    assert_eq!(u("[1]", "[2]"), j("[1, 2]"));
    assert_eq!(u("[1]", "2"), j("[1]"));
    assert_eq!(u("1", "null"), j("1"));
    assert_eq!(u(r#"{"a": null}"#, r#"{"a": {"b": 1}}"#), j(r#"{"a": {"b": 1}}"#));
}

#[test]
fn union_all_of_two_documents() {
    let a = j(r#"{"x": {"p": 1}, "y": null}"#);
    let b = j(r#"{"x": {"q": 2}, "y": 3, "z": [1]}"#);
    let ab = Value::union_all(&vec![a.clone(), b.clone()]);
    let ba = Value::union_all(&vec![b, a]);
    assert_eq!(ab.sorted_keys_recursive(), ba.sorted_keys_recursive());
    assert_eq!(Value::union_all(&vec![]), j("{}"));
    assert_eq!(Value::union_all(&vec![j("[1]")]), j("{}"));
}

#[test]
fn merge_example_with_union_appends_arrays() {
    let mut base = j(r#"{"title": "t", "person": {"first": "John", "last": "Doe"}, "cities": ["london", "paris"]}"#);
    let donor = j(r#"{"title": "", "person": {"first": "", "last": "", "new": "n"}, "cities": ["london"], "new": ["x"]}"#);
    base.union_recursive(&donor);
    assert_eq!(
        base,
        j(r#"{"title": "t", "person": {"first": "John", "last": "Doe", "new": "n"}, "cities": ["london", "paris", "london"], "new": ["x"]}"#)
    );
    let kept = j(r#"{"title": "t", "person": {"first": "John", "last": "Doe"}, "cities": ["london", "paris"]}"#)
        .merged_by_recursive(&donor, &RuleWith::new(additive));
    assert_eq!(
        kept,
        j(r#"{"title": "t", "person": {"first": "John", "last": "Doe", "new": "n"}, "cities": ["london", "paris"], "new": ["x"]}"#)
    );
}

#[test]
fn merging_a_tree_into_itself_keeps_it() {
    let a = j(r#"{"a": {"b": "c", "d": 1}, "e": null, "f": []}"#);
    assert_eq!(a.clone().merged_recursive(&a), a);
    let by_rule = a.clone().merged_by_recursive(&a, &MergeRule);
    assert_eq!(by_rule, a);
}

#[test]
fn union_rule_object_used_directly() {
    let a = j(r#"{"a": null}"#).merged_by_recursive(&j(r#"{"a": 1, "b": 2}"#), &UnionRule);
    assert_eq!(a, j(r#"{"a": 1, "b": 2}"#));
}

#[test]
fn engine_driven_merge_step_matches_recursive_merge() {
    let mut receiver = base_doc();
    let donor = donor_doc();
    let mut dfs = json_walk::Dfs::new();
    while dfs.process_next(&mut receiver, &donor, &UnionRule).is_some() {}
    assert_eq!(receiver, base_doc().into_union_recursive(&donor));
}

#[test]
fn merged_by_one_level_with_a_rule() {
    let r = j(r#"{"a": {"x": 1}}"#).merged_by(&j(r#"{"a": {"y": 2}, "b": 3}"#), &UnionRule);
    assert_eq!(r, j(r#"{"a": {"x": 1, "y": null}, "b": 3}"#));
    let m = j(r#"{"a": 1}"#).merged(&j(r#"{"a": 2}"#));
    assert_eq!(m, j(r#"{"a": 2}"#));
    let mut u = j(r#"{"a": null}"#);
    u.union(&j(r#"{"a": 5}"#));
    assert_eq!(u, j(r#"{"a": 5}"#));
    assert_eq!(j("[1]").into_union(&j("[2]")), j("[1, 2]"));
}

#[test]
fn validity_is_checked_and_kept() {
    let doc = base_doc();
    assert!(doc.is_well_formed());
    let dup = Value::Object(vec![("a".to_string(), j("1")), ("a".to_string(), j("2"))]);
    assert!(!dup.is_well_formed());
    let nested = Value::Array(vec![j("1"), dup.clone()]);
    assert!(!nested.is_well_formed());
    assert!(doc.clone().merged_recursive(&donor_doc()).is_well_formed());
    assert!(doc.into_union_recursive(&donor_doc()).is_well_formed());
}
