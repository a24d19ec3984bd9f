//! Locating the block of lines that belongs to one day of the log.

use vstd::prelude::*;
use crate::text::chars_of;

verus! {

/// Position of the first `'\n'` in `s` at or after `from`, or `s.len()`.
pub open spec fn next_newline(s: Seq<char>, from: int) -> int
    decreases s.len() - from,
{
    if from >= s.len() {
        s.len() as int
    } else if s[from] == '\n' {
        from
    } else {
        next_newline(s, from + 1)
    }
}

/// A line without the `'\r'` of a `"\r\n"` terminator.
pub open spec fn strip_cr(line: Seq<char>) -> Seq<char> {
    if line.len() > 0 && line.last() == '\r' {
        line.drop_last()
    } else {
        line
    }
}

/// The lines of `s` that start at or after `from`.
pub open spec fn lines_from(s: Seq<char>, from: int) -> Seq<Seq<char>>
    decreases s.len() - from,
    via lines_from_decreases
{
    if from < 0 || from >= s.len() {
        seq![]
    } else {
        let e = next_newline(s, from);
        if e >= s.len() {
            seq![s.subrange(from, s.len() as int)]
        } else {
            seq![strip_cr(s.subrange(from, e))] + lines_from(s, e + 1)
        }
    }
}

#[via_fn]
proof fn lines_from_decreases(s: Seq<char>, from: int) {
    if 0 <= from < s.len() {
        lemma_next_newline_bounds(s, from);
    }
}

/// The lines of a text: split at each `'\n'`, a `'\r'` right before it
/// dropped, and no empty line after a final `'\n'`.
pub open spec fn lines_of(s: Seq<char>) -> Seq<Seq<char>> {
    lines_from(s, 0)
}

proof fn lemma_next_newline_bounds(s: Seq<char>, from: int)
    requires
        0 <= from <= s.len(),
    ensures
        from <= next_newline(s, from) <= s.len(),
        next_newline(s, from) < s.len() ==> s[next_newline(s, from)] == '\n',
        forall|k: int| from <= k < next_newline(s, from) ==> s[k] != '\n',
    decreases s.len() - from,
{
    if from < s.len() && s[from] != '\n' {
        lemma_next_newline_bounds(s, from + 1);
    }
}

proof fn lemma_next_newline_skip(s: Seq<char>, from: int, i: int)
    requires
        0 <= from <= i <= s.len(),
        forall|k: int| from <= k < i ==> s[k] != '\n',
    ensures
        next_newline(s, from) == next_newline(s, i),
    decreases i - from,
{
    if from < i {
        lemma_next_newline_skip(s, from + 1, i);
    }
}

proof fn lemma_lines_step(s: Seq<char>, start: int, i: int)
    requires
        0 <= start <= i < s.len(),
        s[i] == '\n',
        forall|k: int| start <= k < i ==> s[k] != '\n',
    ensures
        lines_from(s, start) == seq![strip_cr(s.subrange(start, i))] + lines_from(s, i + 1),
{
    lemma_next_newline_skip(s, start, i);
}

proof fn lemma_lines_last(s: Seq<char>, start: int)
    requires
        0 <= start < s.len(),
        forall|k: int| start <= k < s.len() ==> s[k] != '\n',
    ensures
        lines_from(s, start) == seq![s.subrange(start, s.len() as int)],
{
    lemma_next_newline_skip(s, start, s.len() as int);
}

/// `span` marks, in characters, where `line` stands in `s`.
pub open spec fn spans_line(s: Seq<char>, span: (usize, usize), line: Seq<char>) -> bool {
    &&& span.0 <= span.1 <= s.len()
    &&& s.subrange(span.0 as int, span.1 as int) == line
}

/// Start and end, in characters, of each line of `s`.
fn line_spans(s: &Vec<char>) -> (r: Vec<(usize, usize)>)
    ensures
        r.len() == lines_of(s@).len(),
        forall|j: int| 0 <= j < r.len() ==> spans_line(s@, #[trigger] r[j], lines_of(s@)[j]),
{
    let mut spans: Vec<(usize, usize)> = Vec::new();
    let ghost mut done: Seq<Seq<char>> = seq![];
    let mut start: usize = 0;
    let mut i: usize = 0;
    assert(lines_of(s@) =~= done + lines_from(s@, 0));
    while i < s.len()
        invariant
            start <= i <= s.len(),
            forall|k: int| start <= k < i ==> s@[k] != '\n',
            lines_of(s@) == done + lines_from(s@, start as int),
            spans.len() == done.len(),
            forall|j: int| 0 <= j < spans.len() ==> spans_line(s@, #[trigger] spans[j], done[j]),
        decreases s.len() - i,
    {
        if s[i] == '\n' {
            let end = if i > start && s[i - 1] == '\r' {
                i - 1
            } else {
                i
            };
            proof {
                lemma_lines_step(s@, start as int, i as int);
                let line = s@.subrange(start as int, i as int);
                assert(s@.subrange(start as int, end as int) =~= strip_cr(line));
                assert(lines_of(s@) =~= done.push(strip_cr(line)) + lines_from(s@, i + 1));
                done = done.push(strip_cr(line));
            }
            spans.push((start, end));
            start = i + 1;
        }
        i = i + 1;
    }
    if start < s.len() {
        proof {
            lemma_lines_last(s@, start as int);
            let line = s@.subrange(start as int, s.len() as int);
            assert(lines_of(s@) =~= done.push(line));
            done = done.push(line);
        }
        spans.push((start, s.len()));
    } else {
        assert(lines_of(s@) =~= done);
    }
    spans
}

/// `line` opens the block of `date`: it is `date` itself, or `date`
/// followed by a space and any annotation.
pub open spec fn is_header(line: Seq<char>, date: Seq<char>) -> bool {
    ||| line == date
    ||| (line.len() > date.len() && line.take(date.len() as int) == date && line[date.len() as int]
        == ' ')
}

/// Index of the first header of `date` at or after `from`, or `lines.len()`.
pub open spec fn first_header(lines: Seq<Seq<char>>, date: Seq<char>, from: int) -> int
    decreases lines.len() - from,
{
    if from >= lines.len() {
        lines.len() as int
    } else if is_header(lines[from], date) {
        from
    } else {
        first_header(lines, date, from + 1)
    }
}

/// Index of the first empty line at or after `from`, or `lines.len()`.
pub open spec fn block_end(lines: Seq<Seq<char>>, from: int) -> int
    decreases lines.len() - from,
{
    if from >= lines.len() {
        lines.len() as int
    } else if lines[from].len() == 0 {
        from
    } else {
        block_end(lines, from + 1)
    }
}

/// The block of `date`: its first header line and the lines after it, up to
/// the first empty line or the end; empty when no line is a header.
pub open spec fn day_block(lines: Seq<Seq<char>>, date: Seq<char>) -> Seq<Seq<char>> {
    let h = first_header(lines, date, 0);
    if h >= lines.len() {
        seq![]
    } else {
        lines.subrange(h, block_end(lines, h + 1))
    }
}

proof fn lemma_first_header_absent(lines: Seq<Seq<char>>, date: Seq<char>, from: int)
    requires
        0 <= from <= lines.len(),
        forall|i: int| from <= i < lines.len() ==> !is_header(#[trigger] lines[i], date),
    ensures
        first_header(lines, date, from) == lines.len(),
    decreases lines.len() - from,
{
    if from < lines.len() {
        lemma_first_header_absent(lines, date, from + 1);
    }
}

/// A date with no header line in the log has an empty block.
pub proof fn lemma_absent_day_is_empty(content: Seq<char>, date: Seq<char>)
    requires
        forall|i: int|
            0 <= i < lines_of(content).len() ==> !is_header(#[trigger] lines_of(content)[i], date),
    ensures
        day_block(lines_of(content), date) == Seq::<Seq<char>>::empty(),
{
    lemma_first_header_absent(lines_of(content), date, 0);
}

/// Looking for the same day twice in the same text finds the same lines.
pub proof fn lemma_day_block_repeatable(
    content: Seq<char>,
    date: Seq<char>,
    first: Seq<Seq<char>>,
    second: Seq<Seq<char>>,
)
    requires
        first == day_block(lines_of(content), date),
        second == day_block(lines_of(content), date),
    ensures
        first == second,
{
}

fn is_header_at(s: &Vec<char>, span: (usize, usize), date: &Vec<char>) -> (r: bool)
    requires
        span.0 <= span.1 <= s.len(),
    ensures
        r == is_header(s@.subrange(span.0 as int, span.1 as int), date@),
{
    let (a, b) = span;
    let ghost line = s@.subrange(a as int, b as int);
    let n = b - a;
    if n < date.len() {
        assert(line.len() != date@.len());
        return false;
    }
    let mut k: usize = 0;
    while k < date.len()
        invariant
            a == span.0,
            b == span.1,
            a + n == b <= s.len(),
            date.len() <= n,
            k <= date.len(),
            line == s@.subrange(a as int, b as int),
            forall|m: int| 0 <= m < k ==> line[m] == date@[m],
        decreases date.len() - k,
    {
        if s[a + k] != date[k] {
            assert(line[k as int] != date@[k as int]);
            assert(line.take(date.len() as int)[k as int] != date@[k as int]);
            assert(line.take(date.len() as int) != date@);
            assert(line != date@);
            return false;
        }
        k = k + 1;
    }
    assert(line.take(date.len() as int) =~= date@);
    if n == date.len() {
        assert(line =~= date@);
        true
    } else {
        s[a + date.len()] == ' '
    }
}

/// The lines of `content` that belong to the day `date`, in order.
pub fn find_and_collect_day<'a>(content: &'a str, date: &str) -> (r: Vec<&'a str>)
    ensures
        r@.map_values(|l: &str| l@) == day_block(lines_of(content@), date@),
{
    let chars = chars_of(content);
    let date_chars = chars_of(date);
    let spans = line_spans(&chars);
    let ghost lines = lines_of(content@);
    let mut out: Vec<&'a str> = Vec::new();
    let mut in_day = false;
    let mut j: usize = 0;
    let mut closed = false;
    while j < spans.len() && !closed
        invariant
            chars@ == content@,
            date_chars@ == date@,
            lines == lines_of(chars@),
            spans.len() == lines.len(),
            forall|i: int| 0 <= i < spans.len() ==> spans_line(chars@, #[trigger] spans[i], lines[i]),
            j <= spans.len(),
            closed ==> in_day && j < spans.len() && lines[j as int].len() == 0,
            !in_day ==> out.len() == 0 && first_header(lines, date@, 0) == first_header(
                lines,
                date@,
                j as int,
            ),
            in_day ==> {
                let h = first_header(lines, date@, 0);
                &&& 0 <= h < j
                &&& block_end(lines, h + 1) == block_end(lines, j as int)
                &&& out.len() == j - h
                &&& forall|i: int| 0 <= i < out.len() ==> (#[trigger] out[i])@ == lines[h + i]
            },
        decreases spans.len() - j + if closed {
            0int
        } else {
            1int
        },
    {
        let span = spans[j];
        assert(spans_line(chars@, spans[j as int], lines[j as int]));
        if !in_day {
            if is_header_at(&chars, span, &date_chars) {
                in_day = true;
                out.push(content.substring_char(span.0, span.1));
            }
        } else {
            if span.0 == span.1 {
                assert(lines[j as int].len() == 0);
                closed = true;
            } else {
                out.push(content.substring_char(span.0, span.1));
            }
        }
        if !closed {
            j = j + 1;
        }
    }
    proof {
        let h = first_header(lines, date@, 0);
        let block = day_block(lines, date@);
        if in_day {
            assert(block_end(lines, j as int) == j);
            assert(out@.map_values(|l: &str| l@) =~= block);
        } else {
            assert(out@.map_values(|l: &str| l@) =~= block);
        }
    }
    out
}

} // verus!
