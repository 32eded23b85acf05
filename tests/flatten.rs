use serde_value_utils::{to_flatten_maptree, FlatMap, FlatSerializer, FlattenError, Value};

fn text(s: &str) -> Value {
    Value::String(s.to_string())
}

fn map(entries: Vec<(&str, Value)>) -> Value {
    Value::Mapping(entries.into_iter().map(|(k, v)| (text(k), v)).collect())
}

fn keys(m: &FlatMap) -> Vec<String> {
    m.entries.iter().map(|e| e.0.clone()).collect()
}

fn sample() -> Value {
    map(vec![
        ("a", text("test")),
        ("b", Value::F64(0.5f64.to_bits())),
        ("c", Value::Sequence(vec![Value::I8(5), Value::I8(9)])),
        ("d", map(vec![("a", text("subtest")), ("b", Value::U64(695217))])),
    ])
}

#[test]
fn new_keeps_configuration() {
    let s = FlatSerializer::new("_".to_string(), "-".to_string());
    assert_eq!(s.key_separator, "_");
    assert_eq!(s.prefix, "-");
    assert!(!s.with_schema);
    let t = FlatSerializer::new_with_schema(".".to_string(), "".to_string());
    assert!(t.with_schema);
}

#[test]
fn format_key_cases() {
    let s = FlatSerializer::new("_".to_string(), "_".to_string());
    assert_eq!(s.format_key("", "", &Value::U8(1)), "");
    assert_eq!(s.format_key("x", "", &Value::U8(1)), "");
    assert_eq!(s.format_key("", "a", &Value::U8(1)), "_a");
    assert_eq!(s.format_key("_a", "b", &Value::U8(1)), "_a_b");
    let t = FlatSerializer::new_with_schema("_".to_string(), "_".to_string());
    assert_eq!(t.format_key("_a", "b", &Value::Bool(true)), "_a_b_bool");
    assert_eq!(t.format_key("", "b", &Value::I32(-1)), "_b_long");
    assert_eq!(t.format_key("", "b", &Value::F32(0)), "_b_float");
    assert_eq!(t.format_key("", "b", &Value::U16(3)), "_b_double");
    assert_eq!(t.format_key("", "b", &text("x")), "_b");
    assert_eq!(t.format_key("", "b", &Value::Char('x')), "_b");
}

#[test]
fn path_composition() {
    let m = to_flatten_maptree("_", Some("_"), map(vec![("a", map(vec![("b", Value::U64(5))]))])).unwrap();
    assert_eq!(m.entries.len(), 1);
    assert_eq!(m.get("_a_b"), Some(&Value::U64(5)));
}

#[test]
fn sequence_indexing() {
    let m = to_flatten_maptree(
        "_",
        Some("_"),
        map(vec![("c", Value::Sequence(vec![Value::U64(5), Value::U64(9)]))]),
    )
    .unwrap();
    assert_eq!(keys(&m), vec!["_c_0", "_c_1"]);
    assert_eq!(m.get("_c_0"), Some(&Value::U64(5)));
    assert_eq!(m.get("_c_1"), Some(&Value::U64(9)));
}

#[test]
fn long_sequence_index_has_two_digits() {
    let items: Vec<Value> = (0..12u8).map(Value::U8).collect();
    let m = to_flatten_maptree("_", Some("_"), map(vec![("c", Value::Sequence(items))])).unwrap();
    assert_eq!(m.entries.len(), 12);
    assert_eq!(m.get("_c_11"), Some(&Value::U8(11)));
    assert_eq!(m.get("_c_10"), Some(&Value::U8(10)));
}

#[test]
fn schema_suffixing() {
    let s = FlatSerializer::new_with_schema("_".to_string(), "_".to_string());
    let m = s.disassemble("", "", map(vec![("b", Value::F64(0.5f64.to_bits()))])).unwrap();
    assert_eq!(keys(&m), vec!["_b_float"]);
    let m = s
        .disassemble("", "", map(vec![("d", map(vec![("b", Value::U64(695217))]))]))
        .unwrap();
    assert_eq!(keys(&m), vec!["_d_b_double"]);
    assert_eq!(m.get("_d_b_double"), Some(&Value::U64(695217)));
}

#[test]
fn schema_end_to_end() {
    let s = FlatSerializer::new_with_schema("_".to_string(), "_".to_string());
    let m = s.disassemble("", "", sample()).unwrap();
    assert_eq!(
        keys(&m),
        vec!["_a", "_b_float", "_c_0_long", "_c_1_long", "_d_a", "_d_b_double"]
    );
}

#[test]
fn end_to_end() {
    let m = to_flatten_maptree("_", Some("_"), sample()).unwrap();
    assert_eq!(keys(&m), vec!["_a", "_b", "_c_0", "_c_1", "_d_a", "_d_b"]);
    assert_eq!(m.get("_a"), Some(&text("test")));
    assert_eq!(m.get("_b"), Some(&Value::F64(0.5f64.to_bits())));
    assert_eq!(m.get("_c_0"), Some(&Value::I8(5)));
    assert_eq!(m.get("_c_1"), Some(&Value::I8(9)));
    assert_eq!(m.get("_d_a"), Some(&text("subtest")));
    assert_eq!(m.get("_d_b"), Some(&Value::U64(695217)));
}

#[test]
fn flat_input_keeps_keys_and_values() {
    let m = to_flatten_maptree(
        "_",
        Some("p"),
        map(vec![("x", Value::Bool(true)), ("y", text("v")), ("z", Value::Unit)]),
    )
    .unwrap();
    assert_eq!(keys(&m), vec!["px", "py", "pz"]);
    assert_eq!(m.get("px"), Some(&Value::Bool(true)));
    assert_eq!(m.get("py"), Some(&text("v")));
    assert_eq!(m.get("pz"), Some(&Value::Unit));
}

#[test]
fn no_prefix() {
    let m = to_flatten_maptree(".", None, map(vec![("a", map(vec![("b", Value::U8(1))]))])).unwrap();
    assert_eq!(keys(&m), vec!["a.b"]);
}

#[test]
fn collision_last_write_wins() {
    let m = to_flatten_maptree(
        "_",
        Some("_"),
        map(vec![("a_b", Value::U64(1)), ("a", map(vec![("b", Value::U64(2))]))]),
    )
    .unwrap();
    assert_eq!(m.entries.len(), 1);
    assert_eq!(m.get("_a_b"), Some(&Value::U64(2)));
    let m = to_flatten_maptree(
        "_",
        Some("_"),
        map(vec![("a", map(vec![("b", Value::U64(2))])), ("a_b", Value::U64(1))]),
    )
    .unwrap();
    assert_eq!(m.get("_a_b"), Some(&Value::U64(1)));
}

#[test]
fn invalid_key_rejected() {
    let bad = Value::Mapping(vec![(text("a"), Value::U8(1)), (Value::U8(7), Value::U8(2))]);
    assert_eq!(to_flatten_maptree("_", Some("_"), bad), Err(FlattenError::InvalidMapKey));
    let nested = map(vec![
        ("a", Value::U8(1)),
        ("d", Value::Sequence(vec![Value::Mapping(vec![(Value::Bool(true), Value::U8(2))])])),
    ]);
    assert_eq!(to_flatten_maptree("_", Some("_"), nested), Err(FlattenError::InvalidMapKey));
}

#[test]
fn char_keys() {
    let v = Value::Mapping(vec![(Value::Char('k'), Value::I64(-3))]);
    let m = to_flatten_maptree("_", Some("_"), v).unwrap();
    assert_eq!(m.get("_k"), Some(&Value::I64(-3)));
}

#[test]
fn empty_key_restarts_path() {
    let v = map(vec![("a", map(vec![("", map(vec![("b", Value::U8(1))]))]))]);
    let m = to_flatten_maptree("_", Some("_"), v).unwrap();
    assert_eq!(keys(&m), vec!["_b"]);
}

#[test]
fn scalar_root_and_empty_map() {
    let m = to_flatten_maptree("_", Some("_"), Value::U8(4)).unwrap();
    assert_eq!(m.get(""), Some(&Value::U8(4)));
    let m = to_flatten_maptree("_", Some("_"), Value::Mapping(vec![])).unwrap();
    assert_eq!(m.entries.len(), 0);
    assert_eq!(m.get("_a"), None);
}

#[test]
fn flat_map_insert_overwrites() {
    let mut m = FlatMap::empty();
    m.insert("k".to_string(), Value::U8(1));
    m.insert("j".to_string(), Value::U8(2));
    m.insert("k".to_string(), Value::U8(3));
    assert_eq!(m.entries.len(), 2);
    assert_eq!(m.get("k"), Some(&Value::U8(3)));
    assert_eq!(m.get("j"), Some(&Value::U8(2)));
}

#[test]
fn entries_ordered_by_key() {
    let v = map(vec![("z", Value::U8(1)), ("b", Value::U8(2)), ("m", Value::U8(3)), ("bb", Value::U8(4))]);
    let m = to_flatten_maptree("_", None, v).unwrap();
    assert_eq!(keys(&m), vec!["b", "bb", "m", "z"]);
}
