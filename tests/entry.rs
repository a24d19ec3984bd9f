use hrs::{process_line, process_lines, Duration, TagDurations};

#[test]
fn test_process_line() {
    let mut prev_tag = None;
    let mut durations_by_tag = TagDurations::new();

    let line = "8-9 desc without tag 1";
    let duration = process_line(line, &mut prev_tag, &mut durations_by_tag).unwrap();
    assert_eq!(duration, Duration::hours(1));
    assert_eq!(prev_tag, Some("desc without tag 1".to_owned()));
    assert_eq!(
        durations_by_tag.get("desc without tag 1").unwrap(),
        &vec![Duration::hours(1)]
    );

    let line = "9-9.30 [tag1] desc";
    let duration = process_line(line, &mut prev_tag, &mut durations_by_tag).unwrap();
    assert_eq!(duration, Duration::minutes(30));
    assert_eq!(prev_tag, Some("[tag1]".to_owned()));
    assert_eq!(
        durations_by_tag.get("[tag1]").unwrap(),
        &vec![Duration::minutes(30)]
    );

    let line = "9.45-10 -\"-";
    let duration = process_line(line, &mut prev_tag, &mut durations_by_tag).unwrap();
    assert_eq!(duration, Duration::minutes(15));
    assert_eq!(prev_tag, Some("[tag1]".to_owned()));
    assert_eq!(
        durations_by_tag.get("[tag1]").unwrap(),
        &vec![Duration::minutes(30), Duration::minutes(15)]
    );

    let line = "10-10.30 desc without tag 2";
    let duration = process_line(line, &mut prev_tag, &mut durations_by_tag).unwrap();
    assert_eq!(duration, Duration::minutes(30));
    assert_eq!(prev_tag, Some("desc without tag 2".to_owned()));
    assert_eq!(
        durations_by_tag.get("desc without tag 2").unwrap(),
        &vec![Duration::minutes(30)]
    );

    let duration = process_line("10.45-11 -\"-", &mut prev_tag, &mut durations_by_tag).unwrap();
    assert_eq!(duration, Duration::minutes(15));
    assert_eq!(prev_tag, Some("desc without tag 2".to_owned()));
    assert_eq!(
        durations_by_tag.get("desc without tag 2").unwrap(),
        &vec![Duration::minutes(30), Duration::minutes(15)]
    );

    let line = "12-14.15 desc without tag 1";
    let duration = process_line(line, &mut prev_tag, &mut durations_by_tag).unwrap();
    assert_eq!(duration, Duration::minutes(135));
    assert_eq!(prev_tag, Some("desc without tag 1".to_owned()));
    assert_eq!(
        durations_by_tag.get("desc without tag 1").unwrap(),
        &vec![Duration::hours(1), Duration::minutes(135)]
    );

    let line = "14.15-16 [tag1] desc, with some additinal info";
    let duration = process_line(line, &mut prev_tag, &mut durations_by_tag).unwrap();
    assert_eq!(duration, Duration::minutes(105));
    assert_eq!(prev_tag, Some("[tag1]".to_owned()));
    assert_eq!(
        durations_by_tag.get("[tag1]").unwrap(),
        &vec![
            Duration::minutes(30),
            Duration::minutes(15),
            Duration::minutes(105)
        ]
    );

    let line = "16-17   [tag1] NOTE: whitespace before tag";
    let duration = process_line(line, &mut prev_tag, &mut durations_by_tag).unwrap();
    assert_eq!(duration, Duration::minutes(60));
    assert_eq!(prev_tag, Some("[tag1]".to_owned()));
    assert_eq!(
        durations_by_tag.get("[tag1]").unwrap(),
        &vec![
            Duration::minutes(30),
            Duration::minutes(15),
            Duration::minutes(105),
            Duration::minutes(60),
        ]
    );
}

fn parse_one(line: &str) -> (Option<Duration>, Option<String>, TagDurations) {
    let mut prev_tag = None;
    let mut groups = TagDurations::new();
    let r = process_line(line, &mut prev_tag, &mut groups);
    (r, prev_tag, groups)
}

#[test]
fn bracketed_tag_is_the_group_with_brackets() {
    let (r, prev, _) = parse_one("10.45-11 [TAG-2] [SECONDARY TAG] desc");
    assert_eq!(r, Some(Duration::minutes(15)));
    assert_eq!(prev, Some("[TAG-2]".to_owned()));
    let (_, prev, _) = parse_one("8-9 [a]b] rest");
    assert_eq!(prev, Some("[a]".to_owned()));
}

#[test]
fn unclosed_bracket_makes_a_plain_tag() {
    let (_, prev, _) = parse_one("8-9 [open tag");
    assert_eq!(prev, Some("[open tag".to_owned()));
}

#[test]
fn plain_tag_is_text_after_the_whole_whitespace_run() {
    let (r, prev, _) = parse_one("8-9 \t  some text ");
    assert_eq!(r, Some(Duration::hours(1)));
    assert_eq!(prev, Some("some text ".to_owned()));
    let (r, prev, _) = parse_one("8-9 ");
    assert_eq!(r, Some(Duration::hours(1)));
    assert_eq!(prev, Some(String::new()));
}

#[test]
fn lines_that_are_no_entries_change_nothing() {
    let mut prev_tag = Some("[kept]".to_owned());
    let mut groups = TagDurations::new();
    for line in [
        "--",
        "1.3",
        "8-9",
        "8-9desc",
        "8 - 9 desc",
        "123456-9 desc",
        "8-123456 desc",
        "-9 desc",
        "8- desc",
        "",
    ] {
        assert_eq!(process_line(line, &mut prev_tag, &mut groups), None, "{line}");
    }
    assert_eq!(prev_tag, Some("[kept]".to_owned()));
    assert_eq!(groups.len(), 0);
}

#[test]
fn invalid_clock_times_skip_the_line() {
    let mut prev_tag = None;
    let mut groups = TagDurations::new();
    for line in ["25-26 x", "8-9.60 x", "8.5.1-9 x", "123-9 x", "8-9.123 x", ".5-9 x", "8.-9 x"] {
        assert_eq!(process_line(line, &mut prev_tag, &mut groups), None, "{line}");
    }
    assert_eq!(prev_tag, None);
    assert_eq!(groups.len(), 0);
}

#[test]
fn one_digit_minutes_and_padded_hours() {
    let (r, _, _) = parse_one("9.5-09.50 x");
    assert_eq!(r, Some(Duration::minutes(45)));
    let (r, _, _) = parse_one("0-23.59 x");
    assert_eq!(r, Some(Duration::minutes(1439)));
}

#[test]
fn negative_durations_pass_through() {
    let (r, prev, groups) = parse_one("17-8 overnight");
    assert_eq!(r, Some(Duration::minutes(-540)));
    assert_eq!(prev, Some("overnight".to_owned()));
    assert_eq!(groups.get("overnight").unwrap(), &vec![Duration::minutes(-540)]);
}

#[test]
fn carry_marker_resolves_to_previous_tag() {
    let mut prev_tag = None;
    let mut groups = TagDurations::new();
    process_line("8-9 [A] x", &mut prev_tag, &mut groups);
    let r = process_line("9-9.15 -\" whatever", &mut prev_tag, &mut groups);
    assert_eq!(r, Some(Duration::minutes(15)));
    assert_eq!(prev_tag, Some("[A]".to_owned()));
    assert_eq!(
        groups.get("[A]").unwrap(),
        &vec![Duration::hours(1), Duration::minutes(15)]
    );
    assert!(groups.get("-\" whatever").is_none());
}

#[test]
fn carry_marker_without_previous_tag_is_kept() {
    let mut prev_tag = None;
    let mut groups = TagDurations::new();
    process_line("8-9 -\"-", &mut prev_tag, &mut groups);
    assert_eq!(prev_tag, Some("-\"-".to_owned()));
    process_line("9-10 -\"-", &mut prev_tag, &mut groups);
    assert_eq!(
        groups.get("-\"-").unwrap(),
        &vec![Duration::hours(1), Duration::hours(1)]
    );
}

#[test]
fn lone_dash_is_no_carry_marker() {
    let mut prev_tag = None;
    let mut groups = TagDurations::new();
    process_line("8-9 [A] x", &mut prev_tag, &mut groups);
    process_line("9-10 - x", &mut prev_tag, &mut groups);
    assert_eq!(prev_tag, Some("- x".to_owned()));
}

#[test]
fn process_lines_keeps_order_and_skips_other_lines() {
    let lines = vec!["1.3", "--", "8-9 [A] a", "junk", "9-9.30 b", "9.30-10 -\"-"];
    let (processed, groups) = process_lines(lines);
    assert_eq!(
        processed,
        vec![
            (Duration::hours(1), "8-9 [A] a"),
            (Duration::minutes(30), "9-9.30 b"),
            (Duration::minutes(30), "9.30-10 -\"-"),
        ]
    );
    assert_eq!(groups.len(), 2);
    assert_eq!(groups.get("[A]").unwrap(), &vec![Duration::hours(1)]);
    assert_eq!(
        groups.get("b").unwrap(),
        &vec![Duration::minutes(30), Duration::minutes(30)]
    );
}
