use rdr_proxy::hosts::{curate_broken_records, HostSet};
use rdr_proxy::json::{JsonNumber, JsonValue};
use rdr_proxy::order::{bytes_less, entry_less, sort_entries};
use rdr_proxy::workload::{rdr_build_workload, rdr_workload_well_formed};

fn obj(members: Vec<(&str, JsonValue)>) -> JsonValue {
    JsonValue::Object(members.into_iter().map(|(k, v)| (k.to_string(), v)).collect())
}

fn req(milli: u64, host: &str) -> JsonValue {
    JsonValue::Array(vec![
        JsonValue::Number(JsonNumber::PosInt(milli)),
        JsonValue::Str(host.to_string()),
    ])
}

fn sample() -> JsonValue {
    obj(vec![
        (
            "0",
            obj(vec![
                ("3", req(500, "b.com")),
                ("7", req(100, "a.com")),
                ("-1", req(100, "a.com")),
                ("9", req(1, "c.com")),
            ]),
        ),
        (
            "2",
            obj(vec![
                ("7", req(20, "arienh4.net.nyud.net")),
                ("3", req(20, "zz.com")),
            ]),
        ),
        ("5", obj(vec![("3", req(1, "late.com"))])),
    ])
}

fn e(milli: u64, host: &str, user: i64) -> (u64, String, i64) {
    (milli, host.to_string(), user)
}

#[test]
fn workload_holds_sorted_visits_of_listed_users() {
    let json = sample();
    let users = vec![3, 7, -1];
    let broken = curate_broken_records();
    assert!(rdr_workload_well_formed(&json, 3, &users, &broken));
    let w = rdr_build_workload(&json, 3, &users, &broken);
    assert_eq!(w.len(), 2);
    assert_eq!(w[&0], vec![e(100, "a.com", -1), e(100, "a.com", 7), e(500, "b.com", 3)]);
    assert_eq!(w[&2], vec![e(20, "zz.com", 3)]);
    assert!(!w.contains_key(&1));
    assert!(!w.contains_key(&5));
}

#[test]
fn seconds_beyond_the_limit_are_left_out() {
    let json = sample();
    let users = vec![3];
    let broken = HostSet::new();
    let w = rdr_build_workload(&json, 6, &users, &broken);
    assert_eq!(w.len(), 3);
    assert_eq!(w[&5], vec![e(1, "late.com", 3)]);
    let w0 = rdr_build_workload(&json, 0, &users, &broken);
    assert!(w0.is_empty());
}

#[test]
fn broken_hosts_are_skipped_without_reading_their_time() {
    let json = obj(vec![(
        "0",
        obj(vec![
            (
                "1",
                JsonValue::Array(vec![
                    JsonValue::Str("not a number".to_string()),
                    JsonValue::Str("arienh4.net.nyud.net".to_string()),
                ]),
            ),
            ("2", req(7, "ok.com")),
        ]),
    )]);
    let users = vec![1, 2];
    let broken = curate_broken_records();
    assert!(rdr_workload_well_formed(&json, 1, &users, &broken));
    let w = rdr_build_workload(&json, 1, &users, &broken);
    assert_eq!(w[&0], vec![e(7, "ok.com", 2)]);
    assert!(!rdr_workload_well_formed(&json, 1, &users, &HostSet::new()));
}

#[test]
fn a_second_without_listed_users_is_empty() {
    let json = obj(vec![("0", obj(vec![("9", req(1, "c.com"))]))]);
    let w = rdr_build_workload(&json, 1, &vec![1], &HostSet::new());
    assert_eq!(w[&0], Vec::<(u64, String, i64)>::new());
}

#[test]
fn unreadable_requests_are_found() {
    let broken = HostSet::new();
    let users = vec![1];
    let not_array = obj(vec![("0", obj(vec![("1", JsonValue::Str("x".to_string()))]))]);
    let short = obj(vec![(
        "0",
        obj(vec![("1", JsonValue::Array(vec![JsonValue::Number(JsonNumber::PosInt(1))]))]),
    )]);
    let host_not_string = obj(vec![(
        "0",
        obj(vec![(
            "1",
            JsonValue::Array(vec![JsonValue::Number(JsonNumber::PosInt(1)), JsonValue::Null]),
        )]),
    )]);
    let float_time = obj(vec![(
        "0",
        obj(vec![(
            "1",
            JsonValue::Array(vec![
                JsonValue::Number(JsonNumber::Float),
                JsonValue::Str("a.com".to_string()),
            ]),
        )]),
    )]);
    assert!(!rdr_workload_well_formed(&not_array, 1, &users, &broken));
    assert!(!rdr_workload_well_formed(&short, 1, &users, &broken));
    assert!(!rdr_workload_well_formed(&host_not_string, 1, &users, &broken));
    assert!(!rdr_workload_well_formed(&float_time, 1, &users, &broken));
    // The unreadable second lies beyond the seconds that are read.
    assert!(rdr_workload_well_formed(&float_time, 0, &users, &broken));
    // The unreadable request belongs to a user that is not listed.
    assert!(rdr_workload_well_formed(&float_time, 1, &vec![2], &broken));
}

#[test]
fn bytes_order_like_strings() {
    assert!(bytes_less(b"a", b"ab"));
    assert!(!bytes_less(b"ab", b"a"));
    assert!(bytes_less(b"B.com", b"a.com"));
    assert!(!bytes_less(b"a.com", b"a.com"));
    assert!(bytes_less(b"", b"a"));
    assert!(!bytes_less(b"", b""));
}

#[test]
fn entries_compare_like_tuples() {
    let cases = vec![
        (e(1, "b", 5), e(2, "a", 0)),
        (e(1, "a", 5), e(1, "b", 0)),
        (e(1, "a", -3), e(1, "a", 2)),
        (e(1, "a", 2), e(1, "a", 2)),
        (e(1, "é", 0), e(1, "z", 0)),
    ];
    for (x, y) in cases {
        assert_eq!(entry_less(&x, &y), x < y);
        assert_eq!(entry_less(&y, &x), y < x);
    }
}

#[test]
fn sorting_matches_the_standard_sort() {
    let mut v = vec![
        e(5, "b.com", 1),
        e(1, "z.com", 2),
        e(5, "a.com", 9),
        e(5, "a.com", -9),
        e(0, "é.com", 0),
        e(0, "e.com", 0),
        e(1, "z.com", 2),
    ];
    let mut expected = v.clone();
    expected.sort();
    sort_entries(&mut v);
    assert_eq!(v, expected);
    let mut empty: Vec<(u64, String, i64)> = Vec::new();
    sort_entries(&mut empty);
    assert!(empty.is_empty());
}
