use hrs::find_and_collect_day;

#[test]
fn test_find_and_collect_day() {
    let input = "


27.2
--
foo


28.2 (day info)
--
bar

1.3  day info
--
baz
";

    assert_eq!(find_and_collect_day(&input, "27.2"), vec!["27.2", "--", "foo"]);
    assert_eq!(
        find_and_collect_day(&input, "28.2"),
        vec!["28.2 (day info)", "--", "bar"]
    );
    assert_eq!(find_and_collect_day(&input, "28.02"), [] as [&str; 0]);
    assert_eq!(
        find_and_collect_day(&input, "1.3  day info"),
        vec!["1.3  day info", "--", "baz"]
    );
}

#[test]
fn absent_day_gives_no_lines() {
    assert!(find_and_collect_day("1.3\n8-9 a\n", "2.3").is_empty());
    assert!(find_and_collect_day("", "1.3").is_empty());
}

#[test]
fn header_needs_a_space_after_the_date() {
    assert!(find_and_collect_day("1.30\n8-9 a\n", "1.3").is_empty());
    assert_eq!(find_and_collect_day("1.3\t x\n8-9 a\n", "1.3"), [] as [&str; 0]);
}

#[test]
fn only_first_block_of_a_date_is_taken() {
    let input = "1.3\nfirst\n\n1.3\nsecond\n";
    assert_eq!(find_and_collect_day(input, "1.3"), vec!["1.3", "first"]);
}

#[test]
fn block_runs_to_end_of_text() {
    assert_eq!(find_and_collect_day("x\n4.3", "4.3"), vec!["4.3"]);
    assert_eq!(find_and_collect_day("4.3\na\nb", "4.3"), vec!["4.3", "a", "b"]);
}

#[test]
fn carriage_returns_before_newlines_are_dropped() {
    let input = "1.3\r\n8-9 a\r\n\r\n2.3\r\n";
    assert_eq!(find_and_collect_day(input, "1.3"), vec!["1.3", "8-9 a"]);
}

#[test]
fn finding_a_day_twice_gives_the_same_lines() {
    let input = "27.2\nfoo\n\n28.2 x\nbar\n";
    assert_eq!(
        find_and_collect_day(input, "28.2"),
        find_and_collect_day(input, "28.2")
    );
}
