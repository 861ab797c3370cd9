use syntax_survey::timeline::{commit_buckets, run_versions, sample_months, Sample, Step, Timeline};

fn buckets(samples: &[Sample]) -> Vec<u64> {
    samples.iter().map(|s| s.bucket).collect()
}

#[test]
fn one_sample_per_month_in_range() {
    // Commits in months 105, 103, 103 and 100, newest first.
    let commits = vec![105, 103, 103, 100];
    let samples = sample_months(&commits, 101, 106);
    assert_eq!(
        samples,
        vec![
            Sample { bucket: 106, commit: 0 },
            Sample { bucket: 105, commit: 0 },
            Sample { bucket: 104, commit: 1 },
            Sample { bucket: 103, commit: 1 },
            Sample { bucket: 102, commit: 3 },
            Sample { bucket: 101, commit: 3 },
        ]
    );
}

#[test]
fn same_history_gives_same_samples() {
    let commits = vec![24270, 24268, 24268, 24261, 24255];
    let first = sample_months(&commits, 24250, 24275);
    let second = sample_months(&commits, 24250, 24275);
    assert_eq!(first, second);
    assert_eq!(first.len(), 21);
}

#[test]
fn months_before_the_first_commit_have_no_sample() {
    let commits = vec![50, 48];
    let samples = sample_months(&commits, 40, 52);
    assert_eq!(buckets(&samples), vec![52, 51, 50, 49, 48]);
    assert_eq!(sample_months(&commits, 40, 47), vec![]);
    assert_eq!(sample_months(&Vec::new(), 40, 52), vec![]);
}

#[test]
fn empty_range_has_no_sample() {
    let commits = vec![50, 48];
    assert_eq!(sample_months(&commits, 51, 50), vec![]);
    assert_eq!(sample_months(&commits, 50, 50), vec![Sample { bucket: 50, commit: 0 }]);
}

#[test]
fn range_that_starts_at_month_zero() {
    let commits = vec![1, 0];
    assert_eq!(
        sample_months(&commits, 0, 2),
        vec![
            Sample { bucket: 2, commit: 0 },
            Sample { bucket: 1, commit: 0 },
            Sample { bucket: 0, commit: 1 },
        ]
    );
    assert_eq!(
        sample_months(&vec![u64::MAX, 0], 0, 0),
        vec![Sample { bucket: 0, commit: 1 }]
    );
}

#[test]
fn commit_carries_forward_over_empty_months() {
    // No commit in month 11, one in month 10: it stands for both.
    let commits = vec![12, 10, 9];
    let samples = sample_months(&commits, 9, 12);
    assert_eq!(
        samples,
        vec![
            Sample { bucket: 12, commit: 0 },
            Sample { bucket: 11, commit: 1 },
            Sample { bucket: 10, commit: 1 },
            Sample { bucket: 9, commit: 2 },
        ]
    );
}

#[test]
fn newer_commit_of_the_month_is_preferred() {
    // Two commits in month 11: the one visited first represents it.
    let commits = vec![11, 11, 10];
    let samples = sample_months(&commits, 10, 11);
    assert_eq!(
        samples,
        vec![Sample { bucket: 11, commit: 0 }, Sample { bucket: 10, commit: 2 }]
    );
}

#[test]
fn walk_decides_commit_by_commit() {
    let mut walk = Timeline::new(10, 12);
    assert!(!walk.is_finished());
    assert_eq!(walk.offer(13), Step::Skip);
    assert_eq!(walk.offer(11), Step::Sample(12));
    assert_eq!(walk.offer(11), Step::Sample(11));
    assert_eq!(walk.offer(11), Step::Skip);
    assert_eq!(walk.offer(3), Step::Sample(10));
    assert!(walk.is_finished());
    assert_eq!(walk.offer(3), Step::Finished);
    assert_eq!(walk.offer(100), Step::Finished);
}

#[test]
fn walk_over_an_empty_range_is_finished() {
    let mut walk = Timeline::new(5, 4);
    assert!(walk.is_finished());
    assert_eq!(walk.offer(0), Step::Finished);
    let mut walk = Timeline::new(0, 0);
    assert_eq!(walk.offer(0), Step::Sample(0));
    assert_eq!(walk.offer(0), Step::Finished);
}

#[test]
fn history_by_commit_times() {
    // 2015-05-15, 2015-03-01 00:00:00 and 2015-02-28 23:59:59, newest first.
    let times = vec![1431648000, 1425168000, 1425167999];
    assert_eq!(
        commit_buckets(&times),
        Some(vec![2015 * 12 + 4, 2015 * 12 + 2, 2015 * 12 + 1])
    );
    // From January 2015 to June 2015.
    let samples = run_versions(&times, (0, 2015), (5, 2015)).unwrap();
    assert_eq!(
        samples,
        vec![
            Sample { bucket: 24185, commit: 0 },
            Sample { bucket: 24184, commit: 0 },
            Sample { bucket: 24183, commit: 1 },
            Sample { bucket: 24182, commit: 1 },
            Sample { bucket: 24181, commit: 2 },
        ]
    );
}

#[test]
fn history_with_a_time_outside_the_calendar() {
    assert_eq!(commit_buckets(&vec![0, i64::MAX]), None);
    assert_eq!(run_versions(&vec![0, i64::MIN], (0, 1970), (0, 1970)), None);
    assert_eq!(
        run_versions(&vec![0], (0, 1970), (0, 1970)),
        Some(vec![Sample { bucket: 1970 * 12, commit: 0 }])
    );
}
