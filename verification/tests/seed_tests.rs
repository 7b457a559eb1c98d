use rdr_proxy::json::{JsonNumber, JsonValue};
use rdr_proxy::seed::{rand_seed_well_formed, rdr_extract_rand_seed, SeedLookup};

fn obj(members: Vec<(&str, JsonValue)>) -> JsonValue {
    JsonValue::Object(members.into_iter().map(|(k, v)| (k.to_string(), v)).collect())
}

fn ints(xs: Vec<i64>) -> JsonValue {
    JsonValue::Array(
        xs.into_iter()
            .map(|x| {
                if x < 0 {
                    JsonValue::Number(JsonNumber::NegInt(x))
                } else {
                    JsonValue::Number(JsonNumber::PosInt(x as u64))
                }
            })
            .collect(),
    )
}

fn sample() -> JsonValue {
    obj(vec![(
        "rdr",
        obj(vec![
            ("40", obj(vec![("0", ints(vec![3, 17, -2])), ("1", ints(vec![]))])),
            ("5", obj(vec![("0", JsonValue::Array(vec![JsonValue::Number(JsonNumber::Float)]))])),
        ]),
    )])
}

fn found(r: SeedLookup) -> Option<Vec<i64>> {
    match r {
        SeedLookup::Found(v) => Some(v),
        _ => None,
    }
}

#[test]
fn the_seed_is_found() {
    let json = sample();
    assert!(rand_seed_well_formed(&json, 40, 0));
    assert_eq!(found(rdr_extract_rand_seed(&json, 40, 0)), Some(vec![3, 17, -2]));
    assert_eq!(found(rdr_extract_rand_seed(&json, 40, 1)), Some(vec![]));
}

#[test]
fn each_missing_level_is_told_apart() {
    let json = sample();
    assert!(matches!(rdr_extract_rand_seed(&json, 40, 2), SeedLookup::NoIterData));
    assert!(matches!(rdr_extract_rand_seed(&json, 10, 0), SeedLookup::NoUsersData));
    let other = obj(vec![("pvn", sample())]);
    assert!(matches!(rdr_extract_rand_seed(&other, 40, 0), SeedLookup::NoRdrData));
    assert!(matches!(rdr_extract_rand_seed(&JsonValue::Null, 40, 0), SeedLookup::NoRdrData));
}

#[test]
fn an_unreadable_seed_is_found() {
    let json = sample();
    assert!(!rand_seed_well_formed(&json, 5, 0));
    assert!(rand_seed_well_formed(&json, 5, 1));
    let not_array = obj(vec![("rdr", obj(vec![("1", obj(vec![("0", JsonValue::Null)]))]))]);
    assert!(!rand_seed_well_formed(&not_array, 1, 0));
}
