use rdr_proxy::hosts::curate_broken_records;
use rdr_proxy::schedule::{BrowseOutcome, RoundTally};
use rdr_proxy::workload::load_workload_text;

fn zeros(r: Option<(usize, usize, usize, usize, usize, usize)>) -> [usize; 6] {
    match r {
        Some((a, b, c, d, e, f)) => [a, b, c, d, e, f],
        None => [0; 6],
    }
}

fn outcome(i: usize) -> BrowseOutcome {
    match i % 5 {
        0 => BrowseOutcome::Visited { code: 1, elapsed_ms: 10 + i as u128 },
        1 => BrowseOutcome::Visited { code: 2, elapsed_ms: 3 },
        2 => BrowseOutcome::Failed,
        3 => BrowseOutcome::Visited { code: 3, elapsed_ms: 700 },
        _ => BrowseOutcome::Visited { code: 8, elapsed_ms: 1 },
    }
}

fn summary(items: &[usize]) -> Option<(usize, usize, usize, usize, usize, usize)> {
    let mut tally = RoundTally::new();
    for i in items {
        tally.record(outcome(*i));
    }
    tally.finish()
}

#[test]
fn round_summaries_add_up() {
    let a = [0, 1, 2, 3, 4, 5];
    let b = [2, 7, 9, 10];
    let ab: Vec<usize> = a.iter().chain(b.iter()).cloned().collect();
    let (x, y, z) = (zeros(summary(&ab)), zeros(summary(&a)), zeros(summary(&b)));
    for k in 0..6 {
        assert_eq!(x[k], y[k] + z[k]);
    }
    assert!(summary(&[4, 9]).is_none());
    assert!(summary(&[4, 9, 4]).is_none());
    assert!(summary(&[4, 2]).is_some());
}

const TEXT: &[u8] = br#"{
    "0": {"3": [500, "b.com"], "7": [100, "a.com"], "-1": [100, "a.com"]},
    "1": {"7": [5, "x.com"], "3": [5, "x.com"]},
    "2": {"7": [20, "arienh4.net.nyud.net"], "3": [20, "zz.com"]},
    "4": {"-1": [1, "late.com"]}
}"#;

#[test]
fn fewer_seconds_give_the_cut_workload() {
    let users = vec![3, 7, -1];
    let broken = curate_broken_records();
    let small = load_workload_text(TEXT, 2, &users, &broken).ok().unwrap();
    let large = load_workload_text(TEXT, 5, &users, &broken).ok().unwrap();
    assert_eq!(small.len(), 2);
    assert_eq!(large.len(), 4);
    for (sec, visits) in &small {
        assert_eq!(&large[sec], visits);
    }
    for sec in large.keys() {
        assert_eq!(small.contains_key(sec), *sec < 2);
    }
}

#[test]
fn the_order_of_users_does_not_matter() {
    let broken = curate_broken_records();
    let w1 = load_workload_text(TEXT, 5, &vec![3, 7, -1], &broken).ok().unwrap();
    let w2 = load_workload_text(TEXT, 5, &vec![-1, 3, 7], &broken).ok().unwrap();
    let w3 = load_workload_text(TEXT, 5, &vec![7, -1, 3], &broken).ok().unwrap();
    assert_eq!(w1, w2);
    assert_eq!(w1, w3);
}
