use json_walk::{Dfs, Iter, Kind, Number, ParallelTraverser, Path, Traverser, Value, VisitWith};

fn conv(v: &serde_json::Value) -> Value {
    match v {
        serde_json::Value::Null => Value::Null,
        serde_json::Value::Bool(b) => Value::Bool(*b),
        serde_json::Value::Number(n) => {
            if let Some(u) = n.as_u64() {
                Value::Number(Number::PosInt(u))
            } else if let Some(i) = n.as_i64() {
                Value::Number(Number::NegInt(i))
            } else {
                Value::Number(Number::Float(n.as_f64().unwrap().to_bits()))
            }
        }
        serde_json::Value::String(s) => Value::String(s.clone()),
        serde_json::Value::Array(a) => Value::Array(a.iter().map(conv).collect()),
        serde_json::Value::Object(o) => {
            Value::Object(o.iter().map(|(k, v)| (k.clone(), conv(v))).collect())
        }
    }
}

fn j(text: &str) -> Value {
    conv(&serde_json::from_str::<serde_json::Value>(text).unwrap())
}

fn key(s: &str) -> Kind {
    Kind::ObjectKey(s.to_string())
}

fn pos(i: usize) -> Kind {
    Kind::ArrayIndex(i)
}

fn path(steps: Vec<Kind>) -> Path {
    Path::from_indices(steps)
}

fn cloned(pairs: Vec<(Path, &Value)>) -> Vec<(Path, Value)> {
    pairs.into_iter().map(|(p, v)| (p, v.clone())).collect()
}

fn iter_rec(value: &Value, depth: Option<usize>) -> Vec<(Path, Value)> {
    cloned(Iter::new(value).depth(depth).collect())
}

#[test]
fn test_hash_map_iter() {
    let map = std::collections::HashMap::<String, String>::new();
    assert!(map.is_empty());
}

#[test]
fn test_object_keys_recursively_dfs() {}

#[test]
fn test_object_iter_recursively_dfs() {
    let value = j(r#"{"a": 42, "person": {"name": "John", "surname": "Doe"}, "values": [true, 10, "string"]}"#);
    assert_eq!(iter_rec(&value, Some(0)), vec![(path(vec![]), value.clone())]);
    assert_eq!(
        iter_rec(&value, Some(1)),
        vec![
            (path(vec![]), value.clone()),
            (path(vec![key("a")]), j("42")),
            (path(vec![key("person")]), j(r#"{"name": "John", "surname": "Doe"}"#)),
            (path(vec![key("values")]), j(r#"[true, 10, "string"]"#)),
        ]
    );
    assert_eq!(
        iter_rec(&value, Some(2)),
        vec![
            (path(vec![]), value.clone()),
            (path(vec![key("a")]), j("42")),
            (path(vec![key("person")]), j(r#"{"name": "John", "surname": "Doe"}"#)),
            (path(vec![key("person"), key("name")]), j(r#""John""#)),
            (path(vec![key("person"), key("surname")]), j(r#""Doe""#)),
            (path(vec![key("values")]), j(r#"[true, 10, "string"]"#)),
            (path(vec![key("values"), pos(0)]), j("true")),
            (path(vec![key("values"), pos(1)]), j("10")),
            (path(vec![key("values"), pos(2)]), j(r#""string""#)),
        ]
    );
}

#[test]
fn test_iter_keys_recursively() {
    let mut value = j(r#"{"title": "This is a title", "person": {"firstName": "John", "lastName": "Doe"}, "cities": ["london", "paris"]}"#);
    let mut dfs = Dfs::new();
    let mut seen = 0;
    while let Some(idx) = dfs.next(&value) {
        assert!(value.get_index(&idx).is_some());
        seen += 1;
    }
    assert_eq!(seen, 8);
    let keep = VisitWith::new(|_p: &Path, _v: &Value| -> Option<Value> { None });
    let before = value.clone();
    value.for_each_mut_recursive(&keep);
    assert_eq!(value, before);
    let copy = value.clone();
    for (idx, val) in copy.iter_recursive() {
        assert_eq!(Some(val), value.get_index(&idx));
    }
}

#[test]
fn terminal_value_iter_recursive_dfs() {
    assert_eq!(iter_rec(&j("1"), None), vec![(path(vec![]), j("1"))]);
    assert_eq!(iter_rec(&j(r#""string""#), None), vec![(path(vec![]), j(r#""string""#))]);
    assert_eq!(iter_rec(&j("true"), None), vec![(path(vec![]), j("true"))]);
    assert_eq!(iter_rec(&j("null"), None), vec![(path(vec![]), j("null"))]);
}

#[test]
fn non_terminal_value_array_iter_recursive_dfs_limit() {
    let value = j(r#"[{"nested": [1, 2, 3]}, 1, 2, 3]"#);
    let dfs = Iter::new(&value);
    let expected = vec![
        (path(vec![]), value.clone()),
        (path(vec![pos(0)]), j(r#"{"nested": [1, 2, 3]}"#)),
        (path(vec![pos(0), key("nested")]), j("[1, 2, 3]")),
        (path(vec![pos(0), key("nested"), pos(0)]), j("1")),
        (path(vec![pos(0), key("nested"), pos(1)]), j("2")),
        (path(vec![pos(0), key("nested"), pos(2)]), j("3")),
        (path(vec![pos(1)]), j("1")),
        (path(vec![pos(2)]), j("2")),
        (path(vec![pos(3)]), j("3")),
    ];
    assert_eq!(cloned(Iter::new(&value).limit(None).collect()), expected);
    assert_eq!(cloned(Iter::new(&value).limit(Some(1)).collect()), expected[..1].to_vec());
    assert_eq!(cloned(Iter::new(&value).limit(Some(3)).collect()), expected[..3].to_vec());
    assert_eq!(cloned(Iter::new(&value).limit(Some(5)).collect()), expected[..5].to_vec());
    assert_eq!(cloned(Iter::new(&value).limit(Some(9)).collect()), expected[..9].to_vec());
    assert_eq!(cloned(dfs.collect()), expected);
}

#[test]
fn non_terminal_value_array_iter_recursive_dfs_order() {
    let value = j(r#"[1, 2, {"nested": [1, 2, 3]}]"#);
    assert_eq!(iter_rec(&value, Some(0)), vec![(path(vec![]), value.clone())]);
    assert_eq!(
        iter_rec(&value, Some(1)),
        vec![
            (path(vec![]), value.clone()),
            (path(vec![pos(0)]), j("1")),
            (path(vec![pos(1)]), j("2")),
            (path(vec![pos(2)]), j(r#"{"nested": [1, 2, 3]}"#)),
        ]
    );
    assert_eq!(
        iter_rec(&value, Some(2)),
        vec![
            (path(vec![]), value.clone()),
            (path(vec![pos(0)]), j("1")),
            (path(vec![pos(1)]), j("2")),
            (path(vec![pos(2)]), j(r#"{"nested": [1, 2, 3]}"#)),
            (path(vec![pos(2), key("nested")]), j("[1, 2, 3]")),
        ]
    );
    assert_eq!(
        iter_rec(&value, Some(3)),
        vec![
            (path(vec![]), value.clone()),
            (path(vec![pos(0)]), j("1")),
            (path(vec![pos(1)]), j("2")),
            (path(vec![pos(2)]), j(r#"{"nested": [1, 2, 3]}"#)),
            (path(vec![pos(2), key("nested")]), j("[1, 2, 3]")),
            (path(vec![pos(2), key("nested"), pos(0)]), j("1")),
            (path(vec![pos(2), key("nested"), pos(1)]), j("2")),
            (path(vec![pos(2), key("nested"), pos(2)]), j("3")),
        ]
    );
}

#[test]
fn nonterminal_value_object_iter_recursive_dfs_order() {
    let value = j(r#"{"a": 42, "person": {"name": "John", "surname": "Doe"}, "values": [true, 10, "string"]}"#);
    assert_eq!(iter_rec(&value, Some(0)), vec![(path(vec![]), value.clone())]);
    assert_eq!(
        iter_rec(&value, Some(1)),
        vec![
            (path(vec![]), value.clone()),
            (path(vec![key("a")]), j("42")),
            (path(vec![key("person")]), j(r#"{"name": "John", "surname": "Doe"}"#)),
            (path(vec![key("values")]), j(r#"[true, 10, "string"]"#)),
        ]
    );
    assert_eq!(
        iter_rec(&value, Some(2)),
        vec![
            (path(vec![]), value.clone()),
            (path(vec![key("a")]), j("42")),
            (path(vec![key("person")]), j(r#"{"name": "John", "surname": "Doe"}"#)),
            (path(vec![key("person"), key("name")]), j(r#""John""#)),
            (path(vec![key("person"), key("surname")]), j(r#""Doe""#)),
            (path(vec![key("values")]), j(r#"[true, 10, "string"]"#)),
            (path(vec![key("values"), pos(0)]), j("true")),
            (path(vec![key("values"), pos(1)]), j("10")),
            (path(vec![key("values"), pos(2)]), j(r#""string""#)),
        ]
    );
    assert_eq!(iter_rec(&value, Some(2)), iter_rec(&value, Some(3)));
}

fn invert_value(_p: &Path, val: &Value) -> Option<Value> {
    match val {
        Value::Array(arr) => {
            let mut arr = arr.clone();
            arr.reverse();
            Some(Value::Array(arr))
        }
        Value::String(s) => Some(Value::String(s.chars().rev().collect::<String>())),
        Value::Bool(b) => Some(Value::Bool(!*b)),
        Value::Number(n) => {
            let negated = match n {
                Number::PosInt(u) => Number::NegInt(-(*u as i64)),
                Number::NegInt(i) => {
                    if *i < 0 {
                        Number::PosInt((-*i) as u64)
                    } else {
                        Number::NegInt(-*i)
                    }
                }
                Number::Float(bits) => Number::Float((-f64::from_bits(*bits)).to_bits()),
            };
            Some(Value::Number(negated))
        }
        Value::Object(_) | Value::Null => None,
    }
}

fn inv_rec(value: &Value, depth: Option<usize>) -> Value {
    let mut tmp = value.clone();
    tmp.for_each_mut(depth, &VisitWith::new(invert_value));
    tmp
}

#[test]
fn nonterminal_value_object_iter_mut_recursive_dfs_order() {
    let value = j(r#"{"a": 42, "person": {"name": "john"}, "values": [true, 10, {"12": 1, "null": null}]}"#);
    assert_eq!(inv_rec(&value, Some(0)), value);
    assert_eq!(
        inv_rec(&value, Some(1)),
        j(r#"{"a": -42, "person": {"name": "john"}, "values": [{"12": 1, "null": null}, 10, true]}"#)
    );
    assert_eq!(
        inv_rec(&value, Some(2)),
        j(r#"{"a": -42, "person": {"name": "nhoj"}, "values": [{"12": 1, "null": null}, -10, false]}"#)
    );
    assert_eq!(
        inv_rec(&value, Some(3)),
        j(r#"{"a": -42, "person": {"name": "nhoj"}, "values": [{"12": -1, "null": null}, -10, false]}"#)
    );
    assert_eq!(inv_rec(&value, Some(3)), inv_rec(&value, Some(4)));
}

fn remove_entries(_p: &Path, val: &Value) -> Option<Value> {
    match val {
        Value::Array(arr) => {
            let kept: Vec<Value> = arr.iter().filter(|v| **v != j(r#""remove""#)).cloned().collect();
            Some(Value::Array(kept))
        }
        Value::Object(map) => {
            let kept: Vec<(String, Value)> = map.iter().filter(|(k, _)| k != "remove").cloned().collect();
            Some(Value::Object(kept))
        }
        _ => None,
    }
}

#[test]
fn nonterminal_value_object_iter_mut_recursive_dfs_remove_entries() {
    let mut value = j(r#"{"nested": {"key": "value", "remove": "i will be removed",
        "nested": {"change": ["valid", "remove"], "remove": {"key": "i will be removed"}}}}"#);
    value.for_each_mut(None, &VisitWith::new(remove_entries));
    assert_eq!(value, j(r#"{"nested": {"key": "value", "nested": {"change": ["valid"]}}}"#));
}

fn add_entries(_p: &Path, val: &Value) -> Option<Value> {
    match val {
        Value::Array(arr) => {
            let mut arr = arr.clone();
            arr.push(j("{}"));
            Some(Value::Array(arr))
        }
        Value::Object(map) => {
            let mut map = map.clone();
            match map.iter().position(|(k, _)| k == "new") {
                Some(i) => map[i].1 = j("{}"),
                None => map.push(("new".to_string(), j("{}"))),
            }
            Some(Value::Object(map))
        }
        _ => None,
    }
}

#[test]
fn nonterminal_value_object_iter_mut_recursive_dfs_add_entries() {
    let mut value = j(r#"{"nested": {"old": "value", "nested": {"change": ["old"], "nested": {"old": "old value"}}}}"#);
    value.for_each_mut(Some(3), &VisitWith::new(add_entries));
    assert_eq!(
        value,
        j(r#"{
            "nested": {
                "old": "value",
                "nested": {
                    "change": ["old", {}],
                    "nested": {"old": "old value", "new": {}},
                    "new": {"new": {}}
                },
                "new": {"new": {"new": {}}}
            },
            "new": {"new": {"new": {"new": {}}}}
        }"#)
    );
}

#[test]
fn nonterminal_value_iter() {
    let value = j(r#"{"person1": {"name": "bob"}, "person2": {"name": "john"}}"#);
    assert_eq!(
        cloned(value.iter()),
        vec![
            (path(vec![]), value.clone()),
            (path(vec![key("person1")]), j(r#"{"name": "bob"}"#)),
            (path(vec![key("person2")]), j(r#"{"name": "john"}"#)),
        ]
    );
    assert_eq!(cloned(value.iter()), cloned(value.iter()));
}

#[test]
fn value_iter_recursive_dfs() {
    let value = j(r#"{"person1": {"name": "bob"}, "person2": {"name": "john"}}"#);
    assert_eq!(
        cloned(value.iter_recursive()),
        vec![
            (path(vec![]), value.clone()),
            (path(vec![key("person1")]), j(r#"{"name": "bob"}"#)),
            (path(vec![key("person1"), key("name")]), j(r#""bob""#)),
            (path(vec![key("person2")]), j(r#"{"name": "john"}"#)),
            (path(vec![key("person2"), key("name")]), j(r#""john""#)),
        ]
    );
}

#[test]
fn stepping_the_traverser_matches_the_walk() {
    let value = j(r#"[{"nested": [1, 2, 3]}, 1, 2, 3]"#);
    let mut dfs = Dfs::new();
    let mut paths = Vec::new();
    while let Some(p) = dfs.next(&value) {
        paths.push(p);
    }
    let walked: Vec<Path> = value.iter_recursive().into_iter().map(|(p, _)| p).collect();
    assert_eq!(paths, walked);
}

#[test]
fn traverser_limit_and_reset() {
    let value = j(r#"[1, 2, 3]"#);
    let mut dfs = Dfs::new();
    dfs.set_limit(Some(2));
    assert_eq!(dfs.next(&value), Some(path(vec![])));
    assert_eq!(dfs.next(&value), Some(path(vec![pos(0)])));
    assert_eq!(dfs.next(&value), None);
    dfs.reset();
    assert_eq!(dfs.num_visited, 0);
    assert_eq!(dfs.next(&value), Some(path(vec![])));
}

#[test]
fn traverser_depth_bound_stops_expansion() {
    let value = j(r#"{"a": {"b": 1}}"#);
    let mut dfs = Dfs::with_depth(Some(1));
    assert_eq!(dfs.next(&value), Some(path(vec![])));
    assert_eq!(dfs.next(&value), Some(path(vec![key("a")])));
    assert_eq!(dfs.next(&value), None);
}

#[test]
fn mutating_step_expands_the_new_node() {
    let mut value = j(r#"{"a": 1}"#);
    let grow = VisitWith::new(|p: &Path, v: &Value| -> Option<Value> {
        if p.depth() == 1 && *v == j("1") {
            Some(j("[7]"))
        } else {
            None
        }
    });
    let mut dfs = Dfs::new();
    let mut seen = Vec::new();
    while let Some(p) = dfs.mutate_then_next(&mut value, &grow) {
        seen.push(p);
    }
    assert_eq!(value, j(r#"{"a": [7]}"#));
    assert_eq!(seen, vec![path(vec![]), path(vec![key("a")]), path(vec![key("a"), pos(0)])]);
}

#[test]
fn split_hands_over_the_upper_half() {
    let value = j(r#"[1, 2, 3, 4]"#);
    let mut dfs = Dfs::new();
    assert!(dfs.split().is_none());
    dfs.next(&value);
    let other = dfs.split().unwrap();
    assert_eq!(dfs.queue.len(), 2);
    assert_eq!(other.queue.len(), 2);
    assert_eq!(other.queue[1].1, path(vec![pos(0)]));
}

#[test]
fn walk_visits_every_node_once() {
    let value = j(r#"{"a": [1, {"b": null}], "c": {"d": {"e": "f"}}, "g": []}"#);
    let walked = value.iter_recursive();
    assert_eq!(walked.len(), 9);
    for (i, (p, v)) in walked.iter().enumerate() {
        assert_eq!(value.get_index(p), Some(*v));
        for (q, _) in walked.iter().skip(i + 1) {
            assert_ne!(p, q);
        }
    }
}

fn nesting(v: &Value) -> usize {
    match v {
        Value::Array(a) => 1 + a.iter().map(nesting).max().unwrap_or(0),
        Value::Object(e) => 1 + e.iter().map(|(_, v)| nesting(v)).max().unwrap_or(0),
        _ => 0,
    }
}

#[test]
fn bounded_growth_terminates_with_depth_bound_nesting() {
    for depth in 0..5usize {
        let mut value = j("{}");
        value.for_each_mut(Some(depth), &VisitWith::new(add_entries));
        assert_eq!(nesting(&value), depth + 2);
        let mut arr = j("[]");
        arr.for_each_mut(Some(depth), &VisitWith::new(add_entries));
        assert_eq!(nesting(&arr), depth + 2);
    }
}

#[test]
fn lazy_walk_hands_out_nodes_in_order() {
    let value = j(r#"{"person1": {"name": "bob"}, "person2": {"name": "john"}}"#);
    let mut lazy = Iter::new(&value).limit(Some(4)).into_iter();
    let mut got = Vec::new();
    while let Some((p, v)) = lazy.next() {
        got.push((p, v.clone()));
    }
    assert_eq!(got, cloned(value.iter_recursive())[..4].to_vec());
    let mut again = json_walk::KeyValueIter::new(&value, Dfs::with_depth(Some(0)));
    assert_eq!(again.next().map(|(p, _)| p), Some(path(vec![])));
    assert!(again.next().is_none());
}

#[test]
fn traverser_trait_drives_the_same_walk() {
    let value = j(r#"{"a": [1, 2]}"#);
    let mut t: Dfs = Traverser::new();
    Traverser::set_depth(&mut t, Some(1));
    Traverser::set_limit(&mut t, None);
    let mut seen = Vec::new();
    while let Some(p) = Traverser::next(&mut t, &value) {
        seen.push(p);
    }
    assert_eq!(seen, vec![path(vec![]), path(vec![key("a")])]);
    Traverser::reset(&mut t);
    assert_eq!(Traverser::next(&mut t, &value), Some(path(vec![])));
}

#[test]
fn bounded_mutating_pass_stops_after_the_limit() {
    let value = j(r#"{"a": 42, "b": true, "c": "xy"}"#);
    let mut two = value.clone();
    two.for_each_mut_limited(None, Some(2), &VisitWith::new(invert_value));
    assert_eq!(two, j(r#"{"a": -42, "b": true, "c": "xy"}"#));
    let mut none = value.clone();
    none.for_each_mut_limited(None, Some(0), &VisitWith::new(invert_value));
    assert_eq!(none, value);
    let mut all = value.clone();
    all.for_each_mut_limited(None, None, &VisitWith::new(invert_value));
    assert_eq!(all, j(r#"{"a": -42, "b": false, "c": "yx"}"#));
}

#[test]
fn lazy_walk_passes_over_paths_that_name_nothing() {
    let value = j(r#"{"a": 1}"#);
    let mut t = Dfs::new();
    t.queue.push((1, path(vec![key("missing")])));
    let mut lazy = json_walk::KeyValueIter::new(&value, t);
    let first = lazy.next().map(|(p, _)| p);
    assert_eq!(first, Some(path(vec![])));
}

#[test]
fn traverser_trait_contract_matches_inherent_steps() {
    let value = j(r#"[1, [2]]"#);
    let mut a = Dfs::new();
    let mut b: Dfs = Traverser::new();
    loop {
        let x = a.next(&value);
        let y = Traverser::next(&mut b, &value);
        assert_eq!(x, y);
        if x.is_none() {
            break;
        }
    }
}
