use rdr_proxy::json::{decimal_key, key_matches, signed_decimal_key, JsonNumber, JsonValue};

fn obj(members: Vec<(&str, JsonValue)>) -> JsonValue {
    JsonValue::Object(members.into_iter().map(|(k, v)| (k.to_string(), v)).collect())
}

fn chars(s: &str) -> Vec<char> {
    s.chars().collect()
}

#[test]
fn decimal_keys_match_to_string() {
    assert_eq!(decimal_key(0), chars("0"));
    assert_eq!(decimal_key(7), chars("7"));
    assert_eq!(decimal_key(10), chars("10"));
    assert_eq!(decimal_key(179), chars("179"));
    assert_eq!(decimal_key(u64::MAX), chars(&u64::MAX.to_string()));
}

#[test]
fn signed_decimal_keys_match_to_string() {
    assert_eq!(signed_decimal_key(0), chars("0"));
    assert_eq!(signed_decimal_key(42), chars("42"));
    assert_eq!(signed_decimal_key(-5), chars("-5"));
    assert_eq!(signed_decimal_key(-120), chars("-120"));
    assert_eq!(signed_decimal_key(i64::MIN), chars(&i64::MIN.to_string()));
    assert_eq!(signed_decimal_key(i64::MAX), chars(&i64::MAX.to_string()));
}

#[test]
fn key_matching_compares_characters() {
    assert!(key_matches(&"rdr".to_string(), &chars("rdr")));
    assert!(!key_matches(&"rdr".to_string(), &chars("rd")));
    assert!(!key_matches(&"rdr".to_string(), &chars("rdx")));
    assert!(key_matches(&"".to_string(), &chars("")));
    assert!(key_matches(&"né".to_string(), &chars("né")));
}

#[test]
fn get_finds_the_first_member_with_the_key() {
    let v = obj(vec![
        ("a", JsonValue::Number(JsonNumber::PosInt(1))),
        ("b", JsonValue::Number(JsonNumber::PosInt(2))),
        ("a", JsonValue::Number(JsonNumber::PosInt(3))),
    ]);
    assert_eq!(v.get(&chars("a")).and_then(|x| x.as_u64()), Some(1));
    assert_eq!(v.get(&chars("b")).and_then(|x| x.as_u64()), Some(2));
    assert!(v.get(&chars("c")).is_none());
}

#[test]
fn get_on_a_non_object_finds_nothing() {
    let arr = JsonValue::Array(vec![JsonValue::Null]);
    assert!(arr.get(&chars("0")).is_none());
    assert!(JsonValue::Str("a".to_string()).get(&chars("a")).is_none());
    assert!(JsonValue::Null.get(&chars("a")).is_none());
}

#[test]
fn numbers_convert_as_serde_json_does() {
    let pos = JsonValue::Number(JsonNumber::PosInt(5));
    let big = JsonValue::Number(JsonNumber::PosInt(u64::MAX));
    let neg = JsonValue::Number(JsonNumber::NegInt(-5));
    let float = JsonValue::Number(JsonNumber::Float);
    assert_eq!(pos.as_u64(), Some(5));
    assert_eq!(pos.as_i64(), Some(5));
    assert_eq!(big.as_u64(), Some(u64::MAX));
    assert_eq!(big.as_i64(), None);
    assert_eq!(neg.as_u64(), None);
    assert_eq!(neg.as_i64(), Some(-5));
    assert_eq!(float.as_u64(), None);
    assert_eq!(float.as_i64(), None);
    assert_eq!(JsonValue::Bool(true).as_u64(), None);
}

#[test]
fn arrays_and_strings_are_read() {
    let arr = JsonValue::Array(vec![JsonValue::Str("x".to_string())]);
    assert_eq!(arr.as_array().map(|v| v.len()), Some(1));
    assert!(JsonValue::Null.as_array().is_none());
    assert_eq!(JsonValue::Str("x".to_string()).as_str().map(|s| s.as_str()), Some("x"));
    assert!(JsonValue::Null.as_str().is_none());
}
