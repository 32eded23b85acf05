use serde_value_utils::detect::{read_bool, read_i64, read_u64};
use serde_value_utils::text::compare_text;
use serde_value_utils::{try_detect_type, Value};

fn float_of(raw: &str) -> Option<u64> {
    raw.parse::<f64>().ok().map(f64::to_bits)
}

fn detect(raw: &str) -> Value {
    try_detect_type(raw, float_of(raw))
}

#[test]
fn priority_cascade() {
    assert_eq!(detect("true"), Value::Bool(true));
    assert_eq!(detect("false"), Value::Bool(false));
    assert_eq!(detect("42"), Value::U64(42));
    assert_eq!(detect("-42"), Value::I64(-42));
    assert_eq!(detect("6.5"), Value::F64(6.5f64.to_bits()));
    assert_eq!(detect("hello"), Value::String("hello".to_string()));
}

#[test]
fn boolean_is_case_sensitive() {
    assert_eq!(detect("True"), Value::String("True".to_string()));
    assert_eq!(detect(" true"), Value::String(" true".to_string()));
    assert_eq!(read_bool("true"), Some(true));
    assert_eq!(read_bool("tru"), None);
}

#[test]
fn integer_edges() {
    assert_eq!(detect("0"), Value::U64(0));
    assert_eq!(detect("18446744073709551615"), Value::U64(u64::MAX));
    assert_eq!(detect("-9223372036854775808"), Value::I64(i64::MIN));
    assert_eq!(detect("-0"), Value::I64(0));
    assert_eq!(
        detect("18446744073709551616"),
        Value::F64(18446744073709551616f64.to_bits())
    );
    assert_eq!(read_u64("123"), Some(123));
    assert_eq!(read_u64("12a"), None);
    assert_eq!(read_u64(""), None);
    assert_eq!(read_i64("-"), None);
    assert_eq!(read_i64("-9223372036854775809"), None);
    assert_eq!(read_i64("9223372036854775807"), Some(i64::MAX));
}

#[test]
fn fallbacks() {
    assert_eq!(detect(""), Value::String(String::new()));
    assert_eq!(detect("1e3"), Value::F64(1000f64.to_bits()));
    assert_eq!(try_detect_type("x", Some(7)), Value::F64(7));
}

#[test]
fn text_comparison() {
    assert!(compare_text("a", "b") < 0);
    assert!(compare_text("b", "a") > 0);
    assert!(compare_text("ab", "ab") == 0);
    assert!(compare_text("a", "ab") < 0);
    assert!(compare_text("", "") == 0);
}
