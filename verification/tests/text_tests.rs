use rdr_proxy::hosts::{curate_broken_records, HostSet};
use rdr_proxy::json::{parse_json, JsonNumber, JsonValue, TextError};
use rdr_proxy::seed::{read_rand_seed_text, SeedLookup};
use rdr_proxy::workload::load_workload_text;

fn e(milli: u64, host: &str, user: i64) -> (u64, String, i64) {
    (milli, host.to_string(), user)
}

#[test]
fn json_text_is_parsed_into_the_model() {
    let doc = parse_json(br#"{"b": [1, -2, 2.5, "x", null, true], "a": {}}"#).unwrap();
    let chars = |s: &str| s.chars().collect::<Vec<char>>();
    let items = doc.get(&chars("b")).unwrap().as_array().unwrap();
    assert_eq!(items.len(), 6);
    assert_eq!(items[0].as_u64(), Some(1));
    assert_eq!(items[1].as_i64(), Some(-2));
    assert!(matches!(items[2], JsonValue::Number(JsonNumber::Float)));
    assert_eq!(items[3].as_str().map(|s| s.as_str()), Some("x"));
    assert!(matches!(items[4], JsonValue::Null));
    assert!(matches!(items[5], JsonValue::Bool(true)));
    assert!(matches!(doc.get(&chars("a")), Some(JsonValue::Object(m)) if m.is_empty()));
    assert!(doc.get(&chars("c")).is_none());
}

#[test]
fn text_that_is_not_json_is_refused() {
    assert!(parse_json(b"{\"0\": ").is_none());
    assert!(parse_json(b"[1] x").is_none());
    assert!(parse_json(b"").is_none());
}

#[test]
fn the_workload_is_loaded_from_text() {
    let text = br#"{
        "0": {"3": [500, "b.com"], "7": [100, "a.com"], "9": [1, "c.com"]},
        "2": {"7": [20, "arienh4.net.nyud.net"], "3": [20, "zz.com"]},
        "5": {"3": [1, "late.com"]}
    }"#;
    let users = vec![3, 7];
    let w = match load_workload_text(text, 3, &users, &curate_broken_records()) {
        Ok(w) => w,
        Err(_) => panic!("the workload should load"),
    };
    assert_eq!(w.len(), 2);
    assert_eq!(w[&0], vec![e(100, "a.com", 7), e(500, "b.com", 3)]);
    assert_eq!(w[&2], vec![e(20, "zz.com", 3)]);
}

#[test]
fn workload_text_errors_are_told_apart() {
    let users = vec![1];
    let broken = HostSet::new();
    assert!(matches!(load_workload_text(b"not json", 1, &users, &broken), Err(TextError::NotJson)));
    assert!(matches!(
        load_workload_text(br#"{"0": {"1": [2.5, "a.com"]}}"#, 1, &users, &broken),
        Err(TextError::Unreadable)
    ));
    assert!(matches!(
        load_workload_text(br#"{"0": {"1": "a.com"}}"#, 1, &users, &broken),
        Err(TextError::Unreadable)
    ));
}

#[test]
fn the_seed_is_read_from_text() {
    let text = br#"{"rdr": {"40": {"0": [3, 17, -2]}}}"#;
    match read_rand_seed_text(text, 40, 0) {
        Ok(SeedLookup::Found(v)) => assert_eq!(v, vec![3, 17, -2]),
        _ => panic!("the seed should be found"),
    }
    assert!(matches!(read_rand_seed_text(text, 40, 1), Ok(SeedLookup::NoIterData)));
    assert!(matches!(read_rand_seed_text(text, 5, 0), Ok(SeedLookup::NoUsersData)));
    assert!(matches!(read_rand_seed_text(b"{}", 5, 0), Ok(SeedLookup::NoRdrData)));
    assert!(matches!(read_rand_seed_text(b"{", 5, 0), Err(TextError::NotJson)));
    assert!(matches!(
        read_rand_seed_text(br#"{"rdr": {"40": {"0": [1.5]}}}"#, 40, 0),
        Err(TextError::Unreadable)
    ));
}
