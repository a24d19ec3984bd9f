//! Parsing of entry lines `START-END [tag] description` and the running
//! state that a day's lines share: the previous tag and the tag groups.

use vstd::prelude::*;
use chrono::Timelike;
use crate::duration::{Duration, TimeOfDay};
use crate::tags::{groups_total, lemma_recorded_total, recorded, Groups, TagDurations};
use crate::text::chars_of;

verus! {

/// A character of a time token: a digit or a dot.
pub open spec fn is_time_char(c: char) -> bool {
    ('0' <= c && c <= '9') || c == '.'
}

pub open spec fn is_digit(c: char) -> bool {
    '0' <= c && c <= '9'
}

/// Unicode `White_Space`.
pub open spec fn is_ws(c: char) -> bool {
    ||| ('\t' <= c && c <= '\r')
    ||| c == ' '
    ||| c == '\u{85}'
    ||| c == '\u{a0}'
    ||| c == '\u{1680}'
    ||| ('\u{2000}' <= c && c <= '\u{200a}')
    ||| c == '\u{2028}'
    ||| c == '\u{2029}'
    ||| c == '\u{202f}'
    ||| c == '\u{205f}'
    ||| c == '\u{3000}'
}

/// End of the run of time characters that starts at `from`.
pub open spec fn time_run_end(s: Seq<char>, from: int) -> int
    decreases s.len() - from,
{
    if 0 <= from < s.len() && is_time_char(s[from]) {
        time_run_end(s, from + 1)
    } else {
        from
    }
}

/// End of the run of whitespace that starts at `from`.
pub open spec fn ws_run_end(s: Seq<char>, from: int) -> int
    decreases s.len() - from,
{
    if 0 <= from < s.len() && is_ws(s[from]) {
        ws_run_end(s, from + 1)
    } else {
        from
    }
}

/// Position of the first `']'` at or after `from`, or the length.
pub open spec fn bracket_close(s: Seq<char>, from: int) -> int
    decreases s.len() - from,
{
    if 0 <= from < s.len() && s[from] != ']' {
        bracket_close(s, from + 1)
    } else {
        from
    }
}

/// The tag of the text after the times: a leading `[...]` up to the first
/// `]`, brackets included, or else the whole text.
pub open spec fn tag_text(rest: Seq<char>) -> Seq<char> {
    let c = bracket_close(rest, 1);
    if rest.len() > 0 && rest[0] == '[' && c < rest.len() {
        rest.subrange(0, c + 1)
    } else {
        rest
    }
}

/// Start token, end token and tag of a line of the form
/// `TIME-TIME<whitespace>[tag] text`, where each time is one to five digits
/// and dots; `None` for any other line.
pub open spec fn entry_parts(line: Seq<char>) -> Option<(Seq<char>, Seq<char>, Seq<char>)> {
    let e1 = time_run_end(line, 0);
    let e2 = time_run_end(line, e1 + 1);
    let w = ws_run_end(line, e2);
    let rest = line.subrange(w, line.len() as int);
    if 1 <= e1 <= 5 && e1 < line.len() && line[e1] == '-' && 1 <= e2 - (e1 + 1) <= 5 && w > e2
        && !rest.contains('\n') {
        Some((line.subrange(0, e1), line.subrange(e1 + 1, e2), tag_text(rest)))
    } else {
        None
    }
}

/// A token with `.00` appended when it has no dot.
pub open spec fn with_minutes(t: Seq<char>) -> Seq<char> {
    if t.contains('.') {
        t
    } else {
        t + seq!['.', '0', '0']
    }
}

pub open spec fn digit_value(c: char) -> int {
    (c as u32) as int - ('0' as u32) as int
}

/// Value of a run of decimal digits.
pub open spec fn number_value(s: Seq<char>) -> int
    decreases s.len(),
{
    if s.len() == 0 {
        0
    } else {
        number_value(s.drop_last()) * 10 + digit_value(s.last())
    }
}

/// Position of the first `'.'` in `s` at or after `from`, or the length.
pub open spec fn dot_index(s: Seq<char>, from: int) -> int
    decreases s.len() - from,
{
    if 0 <= from < s.len() && s[from] != '.' {
        dot_index(s, from + 1)
    } else {
        from
    }
}

pub open spec fn all_digits(s: Seq<char>) -> bool {
    forall|i: int| 0 <= i < s.len() ==> is_digit(#[trigger] s[i])
}

/// The time of day a `HOUR.MINUTE` token reads as: one or two digits of
/// hour up to 23, a dot, and one or two digits of minute up to 59.
pub open spec fn clock_time(t: Seq<char>) -> Option<TimeOfDay> {
    let d = dot_index(t, 0);
    let h = t.subrange(0, d);
    let m = t.subrange(d + 1, t.len() as int);
    if d < t.len() && 1 <= h.len() <= 2 && 1 <= m.len() <= 2 && all_digits(h) && all_digits(m)
        && number_value(h) < 24 && number_value(m) < 60 {
        Some(TimeOfDay { hour: number_value(h) as u32, minute: number_value(m) as u32 })
    } else {
        None
    }
}

/// The `chrono` format of a clock token.
pub open spec fn clock_format() -> Seq<char> {
    seq!['%', 'H', '.', '%', 'M']
}

/// Relies on chrono's `NaiveTime::parse_from_str` with the format `%H.%M`.
/// On a token of ASCII digits and dots it reads one or two digits of hour
/// (0 to 23), the dot, then one or two digits of minute (0 to 59), and it
/// fails on anything else, trailing input included.
#[verifier::external_body]
fn parse_clock(token: &str, format: &str) -> (r: Option<TimeOfDay>)
    requires
        format@ == clock_format(),
        forall|i: int| 0 <= i < token@.len() ==> is_time_char(#[trigger] token@[i]),
    ensures
        r == clock_time(token@),
{
    match chrono::NaiveTime::parse_from_str(token, format) {
        Ok(t) => Some(TimeOfDay { hour: t.hour(), minute: t.minute() }),
        Err(_) => None,
    }
}

/// Duration and tag of an entry line, before the carry-over marker is
/// resolved; `None` when the line is no entry or a time is no clock time.
pub open spec fn parse_entry(line: Seq<char>) -> Option<(Duration, Seq<char>)> {
    match entry_parts(line) {
        None => None,
        Some(parts) => {
            let start = clock_time(with_minutes(parts.0));
            let end = clock_time(with_minutes(parts.1));
            if start is Some && end is Some {
                Some(
                    (
                        Duration {
                            minutes: (end->0.minute_of_day() - start->0.minute_of_day()) as i64,
                        },
                        parts.2,
                    ),
                )
            } else {
                None
            }
        },
    }
}

/// A tag that stands for the previous entry's tag: it starts with `-"`.
pub open spec fn is_carry_marker(tag: Seq<char>) -> bool {
    tag.len() >= 2 && tag[0] == '-' && tag[1] == '"'
}

/// The tag an entry is filed under, given the previous entry's tag.
pub open spec fn resolve_tag(tag: Seq<char>, prev: Option<Seq<char>>) -> Seq<char> {
    if prev is Some && is_carry_marker(tag) {
        prev->0
    } else {
        tag
    }
}

pub open spec fn tag_view(tag: Option<String>) -> Option<Seq<char>> {
    match tag {
        Some(s) => Some(s@),
        None => None,
    }
}

fn time_char(c: char) -> (r: bool)
    ensures
        r == is_time_char(c),
{
    ('0' <= c && c <= '9') || c == '.'
}

fn whitespace(c: char) -> (r: bool)
    ensures
        r == is_ws(c),
{
    ('\t' <= c && c <= '\r') || c == ' ' || c == '\u{85}' || c == '\u{a0}' || c == '\u{1680}' || (
    '\u{2000}' <= c && c <= '\u{200a}') || c == '\u{2028}' || c == '\u{2029}' || c == '\u{202f}'
        || c == '\u{205f}' || c == '\u{3000}'
}

fn time_run(s: &Vec<char>, from: usize) -> (r: usize)
    requires
        from <= s.len(),
    ensures
        r == time_run_end(s@, from as int),
        from <= r <= s.len(),
        forall|k: int| from <= k < r ==> is_time_char(#[trigger] s@[k]),
{
    let mut i = from;
    while i < s.len() && time_char(s[i])
        invariant
            from <= i <= s.len(),
            time_run_end(s@, from as int) == time_run_end(s@, i as int),
            forall|k: int| from <= k < i ==> is_time_char(#[trigger] s@[k]),
        decreases s.len() - i,
    {
        i = i + 1;
    }
    i
}

fn ws_run(s: &Vec<char>, from: usize) -> (r: usize)
    requires
        from <= s.len(),
    ensures
        r == ws_run_end(s@, from as int),
        from <= r <= s.len(),
{
    let mut i = from;
    while i < s.len() && whitespace(s[i])
        invariant
            from <= i <= s.len(),
            ws_run_end(s@, from as int) == ws_run_end(s@, i as int),
        decreases s.len() - i,
    {
        i = i + 1;
    }
    i
}

fn find_close(s: &Vec<char>, from: usize) -> (r: usize)
    requires
        from <= s.len(),
    ensures
        r == bracket_close(s@, from as int),
        from <= r <= s.len(),
{
    let mut i = from;
    while i < s.len() && s[i] != ']'
        invariant
            from <= i <= s.len(),
            bracket_close(s@, from as int) == bracket_close(s@, i as int),
        decreases s.len() - i,
    {
        i = i + 1;
    }
    i
}

fn has_newline(s: &Vec<char>, from: usize) -> (r: bool)
    requires
        from <= s.len(),
    ensures
        r == s@.subrange(from as int, s.len() as int).contains('\n'),
{
    let ghost rest = s@.subrange(from as int, s.len() as int);
    let mut i = from;
    while i < s.len()
        invariant
            from <= i <= s.len(),
            rest == s@.subrange(from as int, s.len() as int),
            forall|k: int| from <= k < i ==> s@[k] != '\n',
        decreases s.len() - i,
    {
        if s[i] == '\n' {
            assert(rest[i - from] == '\n');
            return true;
        }
        i = i + 1;
    }
    assert forall|k: int| 0 <= k < rest.len() implies rest[k] != '\n' by {
        assert(rest[k] == s@[from + k]);
    }
    false
}

proof fn lemma_bracket_shift(s: Seq<char>, w: int, k: int)
    requires
        0 <= w <= s.len(),
        0 <= k,
    ensures
        bracket_close(s.subrange(w, s.len() as int), k) == bracket_close(s, w + k) - w,
    decreases s.len() - (w + k),
{
    if w + k < s.len() && s[w + k] != ']' {
        lemma_bracket_shift(s, w, k + 1);
    }
}

proof fn lemma_digits_nonneg(s: Seq<char>)
    requires
        all_digits(s),
    ensures
        number_value(s) >= 0,
    decreases s.len(),
{
    if s.len() > 0 {
        assert(is_digit(s[s.len() - 1]));
        assert(all_digits(s.drop_last())) by {
            assert forall|i: int| 0 <= i < s.drop_last().len() implies is_digit(
                #[trigger] s.drop_last()[i],
            ) by {
                assert(s.drop_last()[i] == s[i]);
            }
        }
        lemma_digits_nonneg(s.drop_last());
    }
}

proof fn lemma_clock_time_wf(t: Seq<char>)
    ensures
        clock_time(t) matches Some(c) ==> c.wf(),
{
    let d = dot_index(t, 0);
    let h = t.subrange(0, d);
    let m = t.subrange(d + 1, t.len() as int);
    if clock_time(t) is Some {
        lemma_digits_nonneg(h);
        lemma_digits_nonneg(m);
    }
}

/// `time` with `.00` appended when it has no dot.
fn with_mins(time: &str) -> (r: String)
    ensures
        r@ == with_minutes(time@),
{
    let chars = chars_of(time);
    let mut i: usize = 0;
    while i < chars.len()
        invariant
            chars@ == time@,
            i <= chars.len(),
            forall|k: int| 0 <= k < i ==> chars@[k] != '.',
        decreases chars.len() - i,
    {
        if chars[i] == '.' {
            assert(time@.contains('.')) by {
                assert(time@[i as int] == '.');
            }
            return time.to_owned();
        }
        i = i + 1;
    }
    let mut out = time.to_owned();
    proof {
        reveal_strlit(".00");
    }
    out.append(".00");
    assert(out@ =~= with_minutes(time@));
    out
}

proof fn lemma_with_minutes_time_chars(t: Seq<char>)
    requires
        forall|i: int| 0 <= i < t.len() ==> is_time_char(#[trigger] t[i]),
    ensures
        forall|i: int|
            0 <= i < with_minutes(t).len() ==> is_time_char(#[trigger] with_minutes(t)[i]),
{
    if !t.contains('.') {
        assert forall|i: int| 0 <= i < with_minutes(t).len() implies is_time_char(
            #[trigger] with_minutes(t)[i],
        ) by {
            if i >= t.len() {
                assert(with_minutes(t)[i] == seq!['.', '0', '0'][i - t.len()]);
            }
        }
    }
}

/// Parses one line of a day: on an entry, resolves its tag against
/// `prev_tag`, files its duration under that tag and returns the duration.
/// Other lines change nothing and give `None`.
pub fn process_line(
    line: &str,
    prev_tag: &mut Option<String>,
    durations_by_tag: &mut TagDurations,
) -> (r: Option<Duration>)
    requires
        old(durations_by_tag).wf(),
    ensures
        final(durations_by_tag).wf(),
        match parse_entry(line@) {
            None => {
                &&& r is None
                &&& *final(prev_tag) == *old(prev_tag)
                &&& final(durations_by_tag)@ == old(durations_by_tag)@
            },
            Some(entry) => {
                let tag = resolve_tag(entry.1, tag_view(*old(prev_tag)));
                &&& r == Some(entry.0)
                &&& tag_view(*final(prev_tag)) == Some(tag)
                &&& final(durations_by_tag)@ == recorded(old(durations_by_tag)@, tag, entry.0)
            },
        },
{
    let chars = chars_of(line);
    let n = chars.len();
    let ghost l = line@;
    let e1 = time_run(&chars, 0);
    if e1 < 1 || e1 > 5 || e1 >= n || chars[e1] != '-' {
        return None;
    }
    let e2 = time_run(&chars, e1 + 1);
    if e2 - (e1 + 1) < 1 || e2 - (e1 + 1) > 5 {
        return None;
    }
    let w = ws_run(&chars, e2);
    if w == e2 {
        return None;
    }
    if has_newline(&chars, w) {
        return None;
    }
    let ghost rest = l.subrange(w as int, n as int);
    let tag_end = if w < n && chars[w] == '[' {
        let c = find_close(&chars, w + 1);
        if c < n {
            c + 1
        } else {
            n
        }
    } else {
        n
    };
    proof {
        lemma_bracket_shift(l, w as int, 1);
        assert(l.subrange(w as int, tag_end as int) =~= tag_text(rest));
    }
    let start_token = with_mins(line.substring_char(0, e1));
    let end_token = with_mins(line.substring_char(e1 + 1, e2));
    let format = "%H.%M";
    proof {
        reveal_strlit("%H.%M");
        assert(format@ =~= clock_format());
        lemma_with_minutes_time_chars(l.subrange(0, e1 as int));
        lemma_with_minutes_time_chars(l.subrange(e1 + 1, e2 as int));
        lemma_clock_time_wf(start_token@);
        lemma_clock_time_wf(end_token@);
    }
    let start = match parse_clock(start_token.as_str(), format) {
        Some(t) => t,
        None => {
            return None;
        },
    };
    let end = match parse_clock(end_token.as_str(), format) {
        Some(t) => t,
        None => {
            return None;
        },
    };
    let tag = line.substring_char(w, tag_end).to_owned();
    let marker = tag_end - w >= 2 && chars[w] == '-' && chars[w + 1] == '"';
    assert(marker == is_carry_marker(tag@));
    let carried = if marker {
        match &*prev_tag {
            Some(p) => Some(p.clone()),
            None => None,
        }
    } else {
        None
    };
    let resolved = match carried {
        Some(p) => p,
        None => {
            *prev_tag = Some(tag.clone());
            tag
        },
    };
    let d = start.until(&end);
    durations_by_tag.record(resolved, d);
    Some(d)
}

/// What a day's lines have produced so far: the entries with their
/// durations in order, the tag groups, and the last resolved tag.
pub type DayState = (Seq<(Duration, Seq<char>)>, Groups, Option<Seq<char>>);

/// The state after one more line.
pub open spec fn day_step(state: DayState, line: Seq<char>) -> DayState {
    match parse_entry(line) {
        None => state,
        Some(entry) => {
            let tag = resolve_tag(entry.1, state.2);
            (state.0.push((entry.0, line)), recorded(state.1, tag, entry.0), Some(tag))
        },
    }
}

/// The state after all of `lines`, from no entries and no previous tag.
pub open spec fn run_lines(lines: Seq<Seq<char>>) -> DayState
    decreases lines.len(),
{
    if lines.len() == 0 {
        (seq![], seq![], None)
    } else {
        day_step(run_lines(lines.drop_last()), lines.last())
    }
}

/// Each entry line of `lines` with its duration, in order, and the
/// durations grouped by resolved tag.
pub fn process_lines<'a>(lines: Vec<&'a str>) -> (r: (Vec<(Duration, &'a str)>, TagDurations))
    ensures
        r.1.wf(),
        r.0@.map_values(|e: (Duration, &str)| (e.0, e.1@)) == run_lines(
            lines@.map_values(|l: &str| l@),
        ).0,
        r.1@ == run_lines(lines@.map_values(|l: &str| l@)).1,
{
    let ghost all = lines@.map_values(|l: &str| l@);
    let mut durations_by_tag = TagDurations::new();
    let mut prev_tag: Option<String> = None;
    let mut processed: Vec<(Duration, &'a str)> = Vec::new();
    let mut j: usize = 0;
    assert(all.take(0) =~= Seq::<Seq<char>>::empty());
    assert(processed@.map_values(|e: (Duration, &str)| (e.0, e.1@)) =~= Seq::<
        (Duration, Seq<char>),
    >::empty());
    while j < lines.len()
        invariant
            all == lines@.map_values(|l: &str| l@),
            j <= lines.len(),
            durations_by_tag.wf(),
            processed@.map_values(|e: (Duration, &str)| (e.0, e.1@)) == run_lines(
                all.take(j as int),
            ).0,
            durations_by_tag@ == run_lines(all.take(j as int)).1,
            tag_view(prev_tag) == run_lines(all.take(j as int)).2,
        decreases lines.len() - j,
    {
        let line = lines[j];
        let ghost before = processed@;
        assert(all.take(j + 1).drop_last() =~= all.take(j as int));
        assert(all.take(j + 1).last() == line@);
        if let Some(duration) = process_line(line, &mut prev_tag, &mut durations_by_tag) {
            processed.push((duration, line));
            assert(processed@.map_values(|e: (Duration, &str)| (e.0, e.1@)) =~= before.map_values(
                |e: (Duration, &str)| (e.0, e.1@),
            ).push((duration, line@)));
        }
        j = j + 1;
    }
    assert(all.take(j as int) =~= all);
    (processed, durations_by_tag)
}

/// One to five digits and dots.
pub open spec fn is_time_token(t: Seq<char>) -> bool {
    &&& 1 <= t.len() <= 5
    &&& forall|i: int| 0 <= i < t.len() ==> is_time_char(#[trigger] t[i])
}

/// A non-empty run of whitespace.
pub open spec fn is_ws_run(w: Seq<char>) -> bool {
    &&& w.len() > 0
    &&& forall|i: int| 0 <= i < w.len() ==> is_ws(#[trigger] w[i])
}

/// The line `START-END`, a run of whitespace, then `text`.
pub open spec fn entry_line(start: Seq<char>, end: Seq<char>, ws: Seq<char>, text: Seq<char>) -> Seq<
    char,
> {
    start + seq!['-'] + end + ws + text
}

proof fn lemma_time_run_to(s: Seq<char>, from: int, to: int)
    requires
        0 <= from <= to <= s.len(),
        forall|k: int| from <= k < to ==> is_time_char(#[trigger] s[k]),
        to == s.len() || !is_time_char(s[to]),
    ensures
        time_run_end(s, from) == to,
    decreases to - from,
{
    if from < to {
        lemma_time_run_to(s, from + 1, to);
    }
}

proof fn lemma_ws_run_to(s: Seq<char>, from: int, to: int)
    requires
        0 <= from <= to <= s.len(),
        forall|k: int| from <= k < to ==> is_ws(#[trigger] s[k]),
        to == s.len() || !is_ws(s[to]),
    ensures
        ws_run_end(s, from) == to,
    decreases to - from,
{
    if from < to {
        lemma_ws_run_to(s, from + 1, to);
    }
}

proof fn lemma_bracket_close_to(s: Seq<char>, from: int, to: int)
    requires
        0 <= from <= to < s.len(),
        forall|k: int| from <= k < to ==> #[trigger] s[k] != ']',
        s[to] == ']',
    ensures
        bracket_close(s, from) == to,
    decreases to - from,
{
    if from < to {
        lemma_bracket_close_to(s, from + 1, to);
    }
}

/// The parts of a line made of two time tokens, a hyphen between them, a
/// run of whitespace and a text that starts with no whitespace.
proof fn lemma_entry_line_parts(start: Seq<char>, end: Seq<char>, ws: Seq<char>, text: Seq<char>)
    requires
        is_time_token(start),
        is_time_token(end),
        is_ws_run(ws),
        text.len() == 0 || !is_ws(text[0]),
        !text.contains('\n'),
    ensures
        entry_parts(entry_line(start, end, ws, text)) == Some((start, end, tag_text(text))),
{
    let line = entry_line(start, end, ws, text);
    let e1 = start.len() as int;
    let e2 = e1 + 1 + end.len();
    let w = e2 + ws.len();
    assert(line[e1] == '-');
    assert forall|k: int| 0 <= k < e1 implies is_time_char(#[trigger] line[k]) by {
        assert(line[k] == start[k]);
    }
    lemma_time_run_to(line, 0, e1);
    assert forall|k: int| e1 + 1 <= k < e2 implies is_time_char(#[trigger] line[k]) by {
        assert(line[k] == end[k - e1 - 1]);
    }
    assert(!is_time_char(line[e2])) by {
        assert(line[e2] == ws[0]);
    }
    lemma_time_run_to(line, e1 + 1, e2);
    assert forall|k: int| e2 <= k < w implies is_ws(#[trigger] line[k]) by {
        assert(line[k] == ws[k - e2]);
    }
    if text.len() > 0 {
        assert(line[w] == text[0]);
    }
    lemma_ws_run_to(line, e2, w);
    assert(line.subrange(w, line.len() as int) =~= text);
    assert(line.subrange(0, e1) =~= start);
    assert(line.subrange(e1 + 1, e2) =~= end);
}

/// On an entry line whose text after the whitespace opens with a bracket
/// group, the tag is that group, brackets included, whatever text follows;
/// such a tag is no carry-over marker and resolves to itself.
pub proof fn lemma_bracketed_tag(
    start: Seq<char>,
    end: Seq<char>,
    ws: Seq<char>,
    inner: Seq<char>,
    rest: Seq<char>,
    prev: Option<Seq<char>>,
)
    requires
        is_time_token(start),
        is_time_token(end),
        is_ws_run(ws),
        !inner.contains(']'),
        !inner.contains('\n'),
        !rest.contains('\n'),
    ensures
        entry_parts(entry_line(start, end, ws, seq!['['] + inner + seq![']'] + rest)) == Some(
            (start, end, seq!['['] + inner + seq![']']),
        ),
        resolve_tag(seq!['['] + inner + seq![']'], prev) == seq!['['] + inner + seq![']'],
{
    let group = seq!['['] + inner + seq![']'];
    let text = group + rest;
    assert(text[0] == '[');
    assert(!text.contains('\n')) by {
        if text.contains('\n') {
            let k = choose|k: int| 0 <= k < text.len() && text[k] == '\n';
            if 1 <= k < 1 + inner.len() {
                assert(inner[k - 1] == text[k]);
            } else if k >= group.len() {
                assert(rest[k - group.len()] == text[k]);
            }
        }
    }
    lemma_entry_line_parts(start, end, ws, text);
    assert forall|k: int| 1 <= k < 1 + inner.len() implies #[trigger] text[k] != ']' by {
        assert(text[k] == inner[k - 1]);
    }
    assert(text[1 + inner.len() as int] == ']');
    lemma_bracket_close_to(text, 1, 1 + inner.len() as int);
    assert(text.subrange(0, 2 + inner.len() as int) =~= group);
}

/// On an entry line whose text after the whitespace is no bracket group,
/// the tag is that whole text; unless it is a carry-over marker that
/// follows a tag, it resolves to itself.
pub proof fn lemma_plain_tag(
    start: Seq<char>,
    end: Seq<char>,
    ws: Seq<char>,
    text: Seq<char>,
    prev: Option<Seq<char>>,
)
    requires
        is_time_token(start),
        is_time_token(end),
        is_ws_run(ws),
        text.len() == 0 || !is_ws(text[0]),
        !text.contains('\n'),
        text.len() == 0 || text[0] != '[' || !text.drop_first().contains(']'),
        !is_carry_marker(text) || prev is None,
    ensures
        entry_parts(entry_line(start, end, ws, text)) == Some((start, end, text)),
        resolve_tag(text, prev) == text,
{
    lemma_entry_line_parts(start, end, ws, text);
    if text.len() > 0 && text[0] == '[' {
        let c = bracket_close(text, 1);
        if c < text.len() {
            lemma_bracket_close_bound(text, 1);
            assert(text.drop_first()[c - 1] == ']');
        }
    }
}

proof fn lemma_bracket_close_bound(s: Seq<char>, from: int)
    requires
        0 <= from <= s.len(),
    ensures
        from <= bracket_close(s, from) <= s.len(),
        bracket_close(s, from) < s.len() ==> s[bracket_close(s, from)] == ']',
    decreases s.len() - from,
{
    if from < s.len() && s[from] != ']' {
        lemma_bracket_close_bound(s, from + 1);
    }
}

/// An entry whose tag starts with the carry-over marker, after an entry
/// that had a tag, is filed under that earlier tag, which stays the
/// previous tag.
pub proof fn lemma_carry_over(state: DayState, line: Seq<char>, d: Duration, tag: Seq<char>)
    requires
        parse_entry(line) == Some((d, tag)),
        is_carry_marker(tag),
        state.2 is Some,
    ensures
        day_step(state, line).1 == recorded(state.1, state.2->0, d),
        day_step(state, line).2 == state.2,
{
}

/// Sum of the durations of listed entries.
pub open spec fn listed_total(listed: Seq<(Duration, Seq<char>)>) -> int
    decreases listed.len(),
{
    if listed.len() == 0 {
        0
    } else {
        listed_total(listed.drop_last()) + listed.last().0.minutes
    }
}

/// The durations grouped by tag add up to the same total as the entries
/// listed line by line.
pub proof fn lemma_grand_total_of_entries(lines: Seq<Seq<char>>)
    ensures
        groups_total(run_lines(lines).1) == listed_total(run_lines(lines).0),
    decreases lines.len(),
{
    if lines.len() > 0 {
        let before = run_lines(lines.drop_last());
        lemma_grand_total_of_entries(lines.drop_last());
        if let Some(entry) = parse_entry(lines.last()) {
            lemma_recorded_total(before.1, resolve_tag(entry.1, before.2), entry.0);
            assert(before.0.push((entry.0, lines.last())).drop_last() =~= before.0);
        }
    }
}

} // verus!
