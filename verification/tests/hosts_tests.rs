use rdr_proxy::hosts::{curate_broken_records, HostSet};

#[test]
fn broken_records_hold_the_known_broken_host() {
    let broken = curate_broken_records();
    assert!(broken.contains(&"arienh4.net.nyud.net".to_string()));
    assert!(!broken.contains(&"google.com".to_string()));
    assert!(!broken.contains(&"arienh4.net.nyud".to_string()));
}

#[test]
fn insert_reports_whether_the_host_is_new() {
    let mut set = HostSet::new();
    assert!(!set.contains(&"a.com".to_string()));
    assert!(set.insert("a.com".to_string()));
    assert!(set.contains(&"a.com".to_string()));
    assert!(!set.insert("a.com".to_string()));
    assert!(set.insert("b.com".to_string()));
    assert!(set.contains(&"a.com".to_string()));
    assert!(set.contains(&"b.com".to_string()));
}
