use hrs::{summarize_durations, sums_fit, Duration, TagDurations};

fn sum(durations: &Vec<Duration>) -> Duration {
    Duration::minutes(durations.iter().map(|d| d.num_minutes()).sum())
}

fn groups_of(pairs: Vec<(&str, Vec<Duration>)>) -> TagDurations {
    let mut groups = TagDurations::new();
    for (tag, durations) in pairs {
        for d in durations {
            groups.record(tag.to_owned(), d);
        }
    }
    groups
}

#[test]
fn test_summarize_durations() {
    let durations_by_tag = groups_of(vec![
        (
            "desc without tag 2",
            vec![Duration::minutes(30), Duration::minutes(15)],
        ),
        (
            "[tag1]",
            vec![
                Duration::minutes(30),
                Duration::minutes(15),
                Duration::minutes(105),
            ],
        ),
        (
            "desc without tag 1",
            vec![Duration::hours(1), Duration::minutes(135)],
        ),
        ("[tag2]", vec![Duration::hours(1), Duration::minutes(45)]),
    ]);

    assert!(sums_fit(&durations_by_tag));
    let (summary, total) = summarize_durations(&durations_by_tag);

    let expected_summary = vec![
        ("[tag1]".to_owned(), sum(durations_by_tag.get("[tag1]").unwrap())),
        ("[tag2]".to_owned(), sum(durations_by_tag.get("[tag2]").unwrap())),
        (
            "desc without tag 1".to_owned(),
            sum(durations_by_tag.get("desc without tag 1").unwrap()),
        ),
        (
            "desc without tag 2".to_owned(),
            sum(durations_by_tag.get("desc without tag 2").unwrap()),
        ),
    ];

    assert_eq!(summary, expected_summary);
    let mut all = Vec::new();
    for i in 0..durations_by_tag.len() {
        all.extend(durations_by_tag.entry(i).1.iter().copied());
    }
    assert_eq!(total, sum(&all));
    assert_eq!(total, Duration::minutes(495));
}

#[test]
fn empty_groups_summarize_to_zero() {
    let groups = TagDurations::new();
    let (summary, total) = summarize_durations(&groups);
    assert!(summary.is_empty());
    assert_eq!(total, Duration::zero());
}

#[test]
fn summary_is_strictly_ascending_by_code_point() {
    let groups = groups_of(vec![
        ("b", vec![Duration::minutes(1)]),
        ("a", vec![Duration::minutes(2)]),
        ("B", vec![Duration::minutes(3)]),
        ("ab", vec![Duration::minutes(4)]),
        ("[x]", vec![Duration::minutes(5)]),
        ("a", vec![Duration::minutes(6)]),
    ]);
    let (summary, total) = summarize_durations(&groups);
    let tags: Vec<&str> = summary.iter().map(|(t, _)| t.as_str()).collect();
    assert_eq!(tags, vec!["B", "[x]", "a", "ab", "b"]);
    assert_eq!(summary[2].1, Duration::minutes(8));
    let per_tag: i64 = summary.iter().map(|(_, d)| d.num_minutes()).sum();
    assert_eq!(total.num_minutes(), per_tag);
    assert_eq!(total, Duration::minutes(21));
}

#[test]
fn negative_durations_reduce_totals() {
    let groups = groups_of(vec![("x", vec![Duration::minutes(60), Duration::minutes(-90)])]);
    let (summary, total) = summarize_durations(&groups);
    assert_eq!(summary, vec![("x".to_owned(), Duration::minutes(-30))]);
    assert_eq!(total, Duration::minutes(-30));
}

#[test]
fn sums_fit_detects_overflow() {
    let groups = groups_of(vec![("x", vec![Duration::minutes(i64::MAX), Duration::minutes(1)])]);
    assert!(!sums_fit(&groups));
    let groups = groups_of(vec![
        ("x", vec![Duration::minutes(i64::MAX)]),
        ("y", vec![Duration::minutes(1)]),
    ]);
    assert!(!sums_fit(&groups));
    let groups = groups_of(vec![
        ("x", vec![Duration::minutes(i64::MAX)]),
        ("y", vec![Duration::minutes(-1)]),
    ]);
    assert!(sums_fit(&groups));
}
