use hrs::output::HumanDuration as OutputHumanDuration;
use hrs::{compare_to_expected, Duration, HumanDuration};

#[test]
fn lib_test_human_duration() {
    assert_eq!(HumanDuration(Duration::minutes(1)).plain(), "00:01");
    assert_eq!(HumanDuration(Duration::minutes(15)).plain(), "00:15");
    assert_eq!(HumanDuration(Duration::hours(1)).plain(), "01:00");
    assert_eq!(HumanDuration(Duration::minutes(135)).plain(), "02:15");
    assert_eq!(HumanDuration(Duration::hours(10)).plain(), "10:00");

    let hour = (Duration::hours(1), "01:00");
    assert_eq!(HumanDuration(hour.0).signed(), format!("+{}", hour.1));
    assert_eq!(
        HumanDuration(Duration::minutes(-hour.0.num_minutes())).signed(),
        format!("-{}", hour.1)
    );
}

#[test]
fn output_test_human_duration() {
    assert_eq!(OutputHumanDuration(Duration::minutes(1)).plain(), "00:01");
    assert_eq!(OutputHumanDuration(Duration::minutes(15)).plain(), "00:15");
    assert_eq!(OutputHumanDuration(Duration::hours(1)).plain(), "01:00");
    assert_eq!(OutputHumanDuration(Duration::minutes(135)).plain(), "02:15");
    assert_eq!(OutputHumanDuration(Duration::hours(10)).plain(), "10:00");

    let hour = (Duration::hours(1), "01:00");
    assert_eq!(OutputHumanDuration(hour.0).signed(), format!("+{}", hour.1));
    assert_eq!(
        OutputHumanDuration(Duration::minutes(-60)).signed(),
        format!("-{}", hour.1)
    );
}

#[test]
fn formatting_zero_ninety_and_minus_ninety() {
    assert_eq!(HumanDuration(Duration::zero()).plain(), "00:00");
    assert_eq!(HumanDuration(Duration::minutes(90)).plain(), "01:30");
    assert_eq!(HumanDuration(Duration::minutes(-90)).plain(), "01:30");
    assert_eq!(HumanDuration(Duration::minutes(-90)).signed(), "-01:30");
    assert_eq!(HumanDuration(Duration::zero()).signed(), "+00:00");
}

#[test]
fn hours_above_ninety_nine_are_not_truncated() {
    assert_eq!(HumanDuration(Duration::minutes(100 * 60 + 5)).plain(), "100:05");
    assert_eq!(HumanDuration(Duration::minutes(-(12345 * 60 + 59))).plain(), "12345:59");
}

#[test]
fn extreme_durations_format_their_magnitude() {
    assert_eq!(
        HumanDuration(Duration::minutes(i64::MIN)).plain(),
        format!("{:02}:{:02}", (i64::MIN as i128).abs() / 60, (i64::MIN as i128).abs() % 60)
    );
}

#[test]
fn total_equal_to_the_working_day_has_no_diff() {
    assert_eq!(compare_to_expected(Duration::minutes(450)), None);
}

#[test]
fn total_above_the_working_day_has_a_positive_diff() {
    assert_eq!(compare_to_expected(Duration::hours(8)), Some(Duration::minutes(30)));
}

#[test]
fn total_below_the_working_day_has_a_negative_diff() {
    assert_eq!(compare_to_expected(Duration::hours(6)), Some(Duration::minutes(-90)));
    assert_eq!(compare_to_expected(Duration::zero()), Some(Duration::minutes(-450)));
}
