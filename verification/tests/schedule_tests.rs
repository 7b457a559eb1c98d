use rdr_proxy::schedule::{should_browse, BrowseOutcome, RoundTally, RunMetrics};

#[test]
fn a_round_without_visits_has_no_summary() {
    let tally = RoundTally::new();
    assert_eq!(tally.finish(), None);
}

#[test]
fn outcomes_are_counted_by_kind() {
    let mut tally = RoundTally::new();
    assert!(tally.record(BrowseOutcome::Visited { code: 1, elapsed_ms: 120 }));
    assert!(tally.record(BrowseOutcome::Visited { code: 1, elapsed_ms: 30 }));
    assert!(tally.record(BrowseOutcome::Visited { code: 2, elapsed_ms: 7 }));
    assert!(tally.record(BrowseOutcome::Visited { code: 3, elapsed_ms: 1000 }));
    assert!(tally.record(BrowseOutcome::Failed));
    assert!(!tally.record(BrowseOutcome::Visited { code: 9, elapsed_ms: 5 }));
    assert_eq!(tally.num_of_visit, 5);
    assert_eq!(tally.elapsed_time, vec![120, 30, 7, 1000]);
    assert_eq!(tally.finish(), Some((2, 1, 1, 1, 4, 1157)));
}

#[test]
fn failures_alone_give_a_summary_without_times() {
    let mut tally = RoundTally::new();
    tally.record(BrowseOutcome::Failed);
    tally.record(BrowseOutcome::Failed);
    assert_eq!(tally.finish(), Some((0, 0, 0, 2, 0, 0)));
}

#[test]
fn unknown_codes_alone_give_no_summary() {
    let mut tally = RoundTally::new();
    assert!(!tally.record(BrowseOutcome::Visited { code: 0, elapsed_ms: 5 }));
    assert_eq!(tally.finish(), None);
}

#[test]
fn the_total_time_is_checked() {
    let mut tally = RoundTally::new();
    tally.record(BrowseOutcome::Visited { code: 1, elapsed_ms: usize::MAX as u128 });
    assert_eq!(tally.elapsed_total(), Some(usize::MAX));
    tally.record(BrowseOutcome::Visited { code: 1, elapsed_ms: 1 });
    assert_eq!(tally.elapsed_total(), None);
}

#[test]
fn elapsed_times_are_truncated_to_usize() {
    let mut tally = RoundTally::new();
    let t: u128 = (1u128 << 64) + 3;
    tally.record(BrowseOutcome::Visited { code: 1, elapsed_ms: t });
    assert_eq!(tally.elapsed_time, vec![t as usize]);
}

#[test]
fn only_listed_users_are_browsed() {
    let users = vec![4, -2, 9];
    assert!(should_browse(&users, 4));
    assert!(should_browse(&users, -2));
    assert!(should_browse(&users, 9));
    assert!(!should_browse(&users, 5));
    assert!(!should_browse(&Vec::new(), 0));
}

#[test]
fn rounds_add_up_in_the_run() {
    let mut run = RunMetrics::new();
    run.add_round((2, 1, 0, 1, 3, 150));
    run.add_round((1, 0, 1, 0, 2, 40));
    assert_eq!(
        (run.num_of_ok, run.num_of_err, run.num_of_timeout, run.num_of_closed, run.num_of_visit),
        (3, 1, 1, 1, 5)
    );
    assert_eq!(run.elapsed_time, vec![150, 40]);
}
