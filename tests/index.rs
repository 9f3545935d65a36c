use json_walk::{JsonIndex, Kind, Number, Path, Value};

fn conv(v: &serde_json::Value) -> Value {
    match v {
        serde_json::Value::Null => Value::Null,
        serde_json::Value::Bool(b) => Value::Bool(*b),
        serde_json::Value::Number(n) => {
            if let Some(u) = n.as_u64() {
                Value::Number(Number::PosInt(u))
            } else if let Some(i) = n.as_i64() {
                Value::Number(Number::NegInt(i))
            } else {
                Value::Number(Number::Float(n.as_f64().unwrap().to_bits()))
            }
        }
        serde_json::Value::String(s) => Value::String(s.clone()),
        serde_json::Value::Array(a) => Value::Array(a.iter().map(conv).collect()),
        serde_json::Value::Object(o) => {
            Value::Object(o.iter().map(|(k, v)| (k.clone(), conv(v))).collect())
        }
    }
}

fn j(text: &str) -> Value {
    conv(&serde_json::from_str::<serde_json::Value>(text).unwrap())
}

fn key(s: &str) -> Kind {
    Kind::ObjectKey(s.to_string())
}

fn pos(i: usize) -> Kind {
    Kind::ArrayIndex(i)
}

fn path(steps: Vec<Kind>) -> Path {
    Path::from_indices(steps)
}

fn try_keys(v: Option<&Value>) -> Option<Vec<String>> {
    match v {
        Some(Value::Object(entries)) => Some(entries.iter().map(|(k, _)| k.clone()).collect()),
        _ => None,
    }
}

fn complex_json() -> Value {
    j(r#"{
        "string": "value",
        "bool": true,
        "null": null,
        "number": 1,
        "0": 1,
        "object": {"string": "value", "bool": true, "null": null, "number": 1, "object": {}, "array": []},
        "array": ["value", true, null, 1,
            {"string": "value", "bool": true, "null": null, "number": 1, "object": {}, "array": []},
            ["value", true, null, 1,
                {"string": "value", "bool": true, "null": null, "number": 1, "object": {}, "array": []}]]
    }"#)
}

#[test]
fn test_index_value_by_path() {
    let value = j(r#"{"1": 1, "2": {"hello": "world"}, "3": [true, "hello", 3]}"#);
    assert_eq!(value.at(&path(vec![key("1")])), j("1"));
    assert_eq!(value.at(&path(vec![key("2")])), j(r#"{"hello": "world"}"#));
    assert_eq!(value.at(&path(vec![key("2"), key("hello")])), j(r#""world""#));
    assert_eq!(value.at(&path(vec![key("2"), key("missing")])), j("null"));
    assert_eq!(value.at(&path(vec![key("3")])), j(r#"[true, "hello", 3]"#));
    assert_eq!(value.at(&path(vec![key("3"), pos(0)])), j("true"));
    assert_eq!(value.at(&path(vec![key("3"), key("0")])), j("null"));
    assert_eq!(value.at(&path(vec![key("3"), pos(1)])), j(r#""hello""#));
    assert_eq!(value.at(&path(vec![key("3"), pos(2)])), j("3"));
    let array = value.at(&path(vec![key("3")]));
    assert_eq!(array.at(&path(vec![pos(0)])), j("true"));
    assert_eq!(array.at(&path(vec![pos(1)])), j(r#""hello""#));
    assert_eq!(array.at(&path(vec![pos(5)])), j("null"));
}

#[test]
fn test_index_mut_value_by_path() {
    let mut value = j(r#"{"1": 1, "2": {"hello": "world"}}"#);
    value.set_by_path(&path(vec![key("2"), key("hello")]), j(r#""world 2""#));
    assert_eq!(value.at(&path(vec![key("2"), key("hello")])), j(r#""world 2""#), "change value /'2'/hello");
    value.set_by_path(&path(vec![key("3")]), j("3"));
    assert_eq!(value.at(&path(vec![key("3")])), j("3"), "insert new value /'3'");
    value.set_by_path(&path(vec![key("2"), key("new")]), j("[1, 2, 3]"));
    assert_eq!(value.at(&path(vec![key("2"), key("new")])), j("[1, 2, 3]"), "insert new nested value /'2'/new");
    assert_eq!(value.at(&path(vec![key("i did nothing")])), j("null"));
    assert_eq!(value, j(r#"{"1": 1, "2": {"hello": "world 2", "new": [1, 2, 3]}, "3": 3}"#));
}

#[test]
fn test_index_path_indexing() {
    let value = j(r#"{"0": 0, "1": 1, "2": 2, "3": 3}"#);
    let index = path(vec![key("0"), key("1"), key("2"), key("3")]);
    assert_eq!(index.len(), 4);
    assert_eq!(value.at(&Path::new(index.get(0).clone())), j("0"));
    assert_eq!(value.at(&Path::new(index.get(1).clone())), j("1"));
    assert_eq!(value.at(&Path::new(index.get(2).clone())), j("2"));
}

#[test]
fn test_index_path_slicing() {
    let value = j(r#"{"1": {"2": {"3": [1, 2, 3]}}}"#);
    let index = path(vec![key("1"), key("2"), key("3"), pos(1)]);
    assert_eq!(try_keys(value.get_index(&index.prefix(0))), Some(vec!["1".to_string()]));
    assert_eq!(try_keys(value.get_index(&index.prefix(1))), Some(vec!["2".to_string()]));
    assert_eq!(try_keys(value.get_index(&index.prefix(2))), Some(vec!["3".to_string()]));
    assert_eq!(value.get_index(&index.prefix(3)), Some(&j("[1, 2, 3]")));
    assert_eq!(value.get_index(&index.prefix(4)), Some(&j("2")));
}

#[test]
fn test_get_index_arguments() {
    let value = complex_json();
    assert!(value.get_index(&Path::new("string")).is_some());
    assert!(value.get_index(&Path::new("string".to_string())).is_some());
    assert!(value.get_index(&path(vec![key("string"), pos(0)])).is_none());
    assert!(value.get_index(&path(vec![key("string"), pos(0), key("test")])).is_none());
}

#[test]
fn test_complex_json_get_index() {
    let value = complex_json();
    assert_eq!(value.get_index(&path(vec![key("string")])), Some(&j(r#""value""#)));
    assert_eq!(value.get_index(&path(vec![key("0")])), Some(&j("1")));
    assert_eq!(value.get_index(&path(vec![pos(0)])), None);
    assert_eq!(value.get_index(&path(vec![key("object"), key("array"), pos(0)])), None);
    assert_eq!(value.get_index(&path(vec![key("object"), key("object"), key("empty")])), None);
    assert_eq!(value.get_index(&path(vec![key("object"), pos(0)])), None);
    assert_eq!(value.get_index(&path(vec![key("array"), pos(1)])), Some(&j("true")));
    assert_eq!(value.get_index(&path(vec![key("array"), key("1")])), None);
    assert_eq!(value.get_index(&path(vec![key("array"), pos(2)])), Some(&j("null")));
    assert_eq!(value.get_index(&path(vec![key("array"), pos(100)])), None);
}

#[test]
fn test_index_to_string() {
    assert_eq!(pos(12).to_string(), "12");
    assert_eq!(pos(0).to_string(), "0");
    assert_eq!(pos(100_000).to_string(), "100000");
    assert_eq!(key("test").to_string(), "test");
    assert_eq!(key("'test'").to_string(), "'test'");
    assert_eq!(key(r#""test""#).to_string(), r#""test""#);
    assert_eq!(String::from("test").kind().to_string(), "test");
    assert_eq!(String::from("'test'").kind().to_string(), "'test'");
    assert_eq!(String::from(r#""test""#).kind().to_string(), r#""test""#);
}

#[test]
fn test_index_path_to_string() {
    assert_eq!(path(vec![]).to_string(), "/");
    assert_eq!(path(vec![key("test")]).to_string(), "/test");
    assert_eq!(path(vec![key("test/hello")]).to_string(), "/test/hello");
    assert_eq!(path(vec![key("test"), pos(12), key("hi")]).to_string(), "/test/12/hi");
    assert_eq!(path(vec![pos(12), pos(0), pos(42), key("hi")]).to_string(), "/12/0/42/hi");
}

#[test]
fn test_index_kind() {
    assert_eq!(12usize.kind(), Kind::ArrayIndex(12));
    let usize_ref = 12usize;
    assert_eq!((&usize_ref).kind(), Kind::ArrayIndex(12));
    assert_eq!(String::from("test").kind(), key("test"));
    assert_eq!("test".kind(), key("test"));
    let string_ref = String::from("test");
    assert_eq!((&string_ref).kind(), key("test"));
}

#[test]
fn test_index_try_as_array_index() {
    assert_eq!(pos(12).try_as_array_index(), Some(12));
    assert_eq!(key("test").try_as_array_index(), None);
    assert_eq!(String::from("test").kind().try_as_array_index(), None);
    let string_ref = String::from("test");
    assert_eq!((&string_ref).kind().try_as_array_index(), None);
}

#[test]
fn test_index_try_as_object_key() {
    assert_eq!(pos(12).try_as_object_key(), None);
    assert_eq!(key("test").try_as_object_key(), Some(&"test".to_string()));
    assert_eq!(String::from("test").kind().try_as_object_key(), Some(&"test".to_string()));
    let string_ref = String::from("test");
    assert_eq!((&string_ref).kind().try_as_array_index(), None);
}

#[test]
fn test_index_partial_eq() {
    assert_ne!(pos(12), pos(24));
    assert_eq!(pos(12), pos(12));
    assert_eq!(key("test"), key("test"));
    assert_ne!(key("test hello"), key("test"));
    assert_eq!(String::from("test").kind(), "test".kind());
    assert_eq!(String::from("test").kind(), String::from("test").kind());
    let s1: String = "test".into();
    let s2: String = "test".into();
    assert_eq!(s1.kind(), s2.kind());
    assert!(s1.kind().same(&s2.kind()));
    let s3: &str = "test";
    assert_eq!(s1.kind(), s3.kind());
    let i1: usize = 100;
    let i2: usize = 100;
    assert_eq!(i1.kind(), i2.kind());
    assert!(i1.kind().same(&i2.kind()));
    let i3: usize = 120;
    assert_ne!(i1.kind(), i3.kind());
    assert!(!i1.kind().same(&i3.kind()));
    let a: &str = "test";
    let b: &str = "different";
    assert_ne!(a.kind(), b.kind());
    assert!(!a.kind().same(&b.kind()));
    assert!(!pos(0).same(&key("0")));
}

#[test]
fn test_index_partial_ord() {
    assert_eq!(key("a").partial_cmp(&key("a")), Some(std::cmp::Ordering::Equal));
    assert_eq!(key("a").partial_cmp(&key("b")), Some(std::cmp::Ordering::Less));
    assert_eq!(key("a").partial_cmp(&"b".to_string().kind()), Some(std::cmp::Ordering::Less));
    assert_eq!(pos(0).partial_cmp(&pos(0)), Some(std::cmp::Ordering::Equal));
    assert_eq!(pos(0).partial_cmp(&pos(10)), Some(std::cmp::Ordering::Less));
    assert_eq!(pos(10).partial_cmp(&pos(0)), Some(std::cmp::Ordering::Greater));
    assert_eq!(key("aa").partial_cmp(&key("b")), Some(std::cmp::Ordering::Less));
    assert_eq!(key("bab").partial_cmp(&key("b")), Some(std::cmp::Ordering::Greater));
    assert_eq!(key("a").compare(&key("b")), std::cmp::Ordering::Less);
    assert_eq!(key("bab").compare(&key("b")), std::cmp::Ordering::Greater);
    assert_eq!(pos(10).compare(&pos(0)), std::cmp::Ordering::Greater);
    assert_eq!(key("z").compare(&pos(0)), std::cmp::Ordering::Less);
}

#[test]
fn test_index_path_ord() {
    let sort_index = |p: Path| {
        let mut inner = p.iter().clone();
        inner.sort();
        Path::from_indices(inner)
    };
    assert_eq!(sort_index(path(vec![pos(1), pos(2), pos(4)])), path(vec![pos(1), pos(2), pos(4)]));
    assert_eq!(
        sort_index(path(vec![pos(5), pos(1), pos(4), pos(3), pos(4)])),
        path(vec![pos(1), pos(3), pos(4), pos(4), pos(5)])
    );
    assert_eq!(sort_index(path(vec![key("b"), key("c"), key("a")])), path(vec![key("a"), key("b"), key("c")]));
    assert_eq!(
        sort_index(path(vec!["b".to_string().kind(), key("c"), key("a")])),
        path(vec![key("a"), key("b"), key("c")])
    );
    assert_eq!(
        sort_index(path(vec![pos(4), pos(2), pos(3), pos(1), key("b"), key("c"), key("a")])),
        path(vec![key("a"), key("b"), key("c"), pos(1), pos(2), pos(3), pos(4)])
    );
    assert_eq!(
        path(vec![key("a"), pos(1)]).compare(&path(vec![key("a"), pos(2)])),
        std::cmp::Ordering::Less
    );
    assert_eq!(path(vec![key("a")]).compare(&path(vec![key("a"), pos(0)])), std::cmp::Ordering::Less);
}

#[test]
fn test_index_path_partial_eq() {
    assert_eq!(path(vec![]), path(vec![]));
    assert_ne!(path(vec![pos(12)]), path(vec![]));
    assert_ne!(path(vec![pos(12)]), path(vec![pos(24)]));
    assert_ne!(path(vec![key("hello"), pos(12)]), path(vec![key("hello"), pos(24)]));
    assert_eq!(path(vec![key("hello"), pos(12)]), path(vec![key("hello"), pos(12)]));
    assert_eq!(path(vec![key("hello"), key("world")]), path(vec![key("hello"), key("world")]));
    assert_ne!(path(vec![key("hello"), key("world")]), path(vec![key("world"), key("hello")]));
    assert!(!path(vec![key("hello"), key("world")]).same(&path(vec![key("world"), key("hello")])));
    assert_eq!(path(vec![String::from("hello").kind(), key("world")]), path(vec![key("hello"), key("world")]));
    assert!(path(vec![String::from("hello").kind(), key("world")]).same(&path(vec![key("hello"), key("world")])));
    assert_eq!(
        path(vec![key("hello"), pos(12), key("world"), pos(1)]),
        path(vec![key("hello"), pos(12), key("world"), pos(1)])
    );
    assert_ne!(
        path(vec![key("hello"), pos(12), key("world"), pos(1)]),
        path(vec![key("hello"), pos(56), key("world"), pos(1)])
    );
}

#[test]
fn test_value_str_string_equality() {
    let value = j(r#"{"a": 42}"#);
    let str_index: &str = "a";
    let string_index: String = "a".into();
    assert_eq!(value.at(&Path::new(str_index)), j("42"));
    assert_eq!(value.at(&Path::new(string_index.clone())), j("42"));
    assert_eq!(value.at(&Path::new(str_index)), value.at(&Path::new(string_index.clone())));
}

#[test]
fn path_join_add_and_depth() {
    let mut p = Path::empty();
    assert_eq!(p.depth(), 0);
    assert!(!p.is_object_key());
    assert!(!p.is_array_key());
    p.add("a");
    assert!(p.is_object_key());
    p.add(3usize);
    assert!(p.is_array_key());
    assert_eq!(p.depth(), 2);
    let q = Path::new("b").join(&p);
    assert_eq!(q, path(vec![key("b"), key("a"), pos(3)]));
    assert_eq!(q.to_string(), "/b/a/3");
}

#[test]
fn set_by_path_turns_null_into_object() {
    let mut value = j("null");
    value.set_by_path(&path(vec![key("a"), key("b")]), j("1"));
    assert_eq!(value, j(r#"{"a": {"b": 1}}"#));
}

#[test]
fn replace_at_reports_missing_paths() {
    let mut value = j(r#"{"a": [1, 2]}"#);
    assert!(value.replace_at(&path(vec![key("a"), pos(1)]), j("5")));
    assert!(!value.replace_at(&path(vec![key("a"), pos(7)]), j("5")));
    assert_eq!(value, j(r#"{"a": [1, 5]}"#));
}
