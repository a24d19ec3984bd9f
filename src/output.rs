//! Rendering of durations as `HH:MM` text and the comparison of a day's
//! total with the expected working day.

use vstd::prelude::*;
use crate::duration::Duration;

verus! {

/// Length of the expected working day: 7 hours 30 minutes.
pub const EXPECTED_DAY_MINUTES: i64 = 450;

/// How far `total` is from the expected working day, or `None` when it
/// matches exactly.
pub fn compare_to_expected(total: Duration) -> (r: Option<Duration>)
    requires
        total.minutes - EXPECTED_DAY_MINUTES >= i64::MIN,
    ensures
        r is None <==> total.minutes == EXPECTED_DAY_MINUTES,
        r matches Some(d) ==> d.minutes == total.minutes - EXPECTED_DAY_MINUTES,
        r matches Some(d) ==> (d.minutes > 0 <==> total.minutes > EXPECTED_DAY_MINUTES),
        r matches Some(d) ==> (d.minutes < 0 <==> total.minutes < EXPECTED_DAY_MINUTES),
{
    let diff = total.minutes - EXPECTED_DAY_MINUTES;
    if diff == 0 {
        None
    } else {
        Some(Duration::minutes(diff))
    }
}

/// The character of a decimal digit.
pub open spec fn digit_char(d: int) -> char {
    if d == 0 {
        '0'
    } else if d == 1 {
        '1'
    } else if d == 2 {
        '2'
    } else if d == 3 {
        '3'
    } else if d == 4 {
        '4'
    } else if d == 5 {
        '5'
    } else if d == 6 {
        '6'
    } else if d == 7 {
        '7'
    } else if d == 8 {
        '8'
    } else {
        '9'
    }
}

/// Decimal notation of `n`, without leading zeros.
pub open spec fn decimal(n: nat) -> Seq<char>
    decreases n,
{
    if n < 10 {
        seq![digit_char(n as int)]
    } else {
        decimal(n / 10).push(digit_char((n % 10) as int))
    }
}

/// Decimal notation of `n`, padded with a zero to at least two digits.
pub open spec fn two_digits(n: nat) -> Seq<char> {
    if n < 10 {
        seq!['0', digit_char(n as int)]
    } else {
        decimal(n)
    }
}

pub open spec fn magnitude(m: int) -> nat {
    if m < 0 {
        (-m) as nat
    } else {
        m as nat
    }
}

/// `HH:MM` text of the magnitude of a span of `m` minutes.
pub open spec fn clock_text(m: int) -> Seq<char> {
    two_digits(magnitude(m) / 60) + seq![':'] + two_digits(magnitude(m) % 60)
}

/// `HH:MM` text of a span of `m` minutes, led by its sign (`+` for zero).
pub open spec fn signed_clock_text(m: int) -> Seq<char> {
    (if m < 0 {
        seq!['-']
    } else {
        seq!['+']
    }) + clock_text(m)
}

fn push_digit(out: &mut String, d: u64)
    requires
        d < 10,
    ensures
        final(out)@ == old(out)@.push(digit_char(d as int)),
{
    let text = if d == 0 {
        proof { reveal_strlit("0"); }
        "0"
    } else if d == 1 {
        proof { reveal_strlit("1"); }
        "1"
    } else if d == 2 {
        proof { reveal_strlit("2"); }
        "2"
    } else if d == 3 {
        proof { reveal_strlit("3"); }
        "3"
    } else if d == 4 {
        proof { reveal_strlit("4"); }
        "4"
    } else if d == 5 {
        proof { reveal_strlit("5"); }
        "5"
    } else if d == 6 {
        proof { reveal_strlit("6"); }
        "6"
    } else if d == 7 {
        proof { reveal_strlit("7"); }
        "7"
    } else if d == 8 {
        proof { reveal_strlit("8"); }
        "8"
    } else {
        proof { reveal_strlit("9"); }
        "9"
    };
    out.append(text);
    assert(final(out)@ =~= old(out)@.push(digit_char(d as int)));
}

fn push_decimal(out: &mut String, n: u64)
    ensures
        final(out)@ == old(out)@ + decimal(n as nat),
    decreases n,
{
    if n >= 10 {
        push_decimal(out, n / 10);
    }
    push_digit(out, n % 10);
    assert(final(out)@ =~= old(out)@ + decimal(n as nat));
}

fn push_two_digits(out: &mut String, n: u64)
    ensures
        final(out)@ == old(out)@ + two_digits(n as nat),
{
    if n < 10 {
        push_digit(out, 0);
    }
    push_decimal(out, n);
    assert(final(out)@ =~= old(out)@ + two_digits(n as nat));
}

/// A duration as it is shown to people.
pub struct HumanDuration(pub Duration);

impl HumanDuration {
    /// `HH:MM` of the magnitude, without sign.
    pub fn plain(&self) -> (r: String)
        ensures
            r@ == clock_text(self.0.minutes as int),
    {
        let m = self.0.minutes as i128;
        let abs: u64 = if m < 0 {
            (-m) as u64
        } else {
            m as u64
        };
        let mut out = String::new();
        push_two_digits(&mut out, abs / 60);
        proof { reveal_strlit(":"); }
        out.append(":");
        push_two_digits(&mut out, abs % 60);
        assert(out@ =~= clock_text(self.0.minutes as int));
        out
    }

    /// `+HH:MM` or `-HH:MM`: the sign is `-` only for a negative span.
    pub fn signed(&self) -> (r: String)
        ensures
            r@ == signed_clock_text(self.0.minutes as int),
    {
        let mut out = String::new();
        if self.0.minutes < 0 {
            proof { reveal_strlit("-"); }
            out.append("-");
        } else {
            proof { reveal_strlit("+"); }
            out.append("+");
        }
        let text = self.plain();
        out.append(text.as_str());
        assert(out@ =~= signed_clock_text(self.0.minutes as int));
        out
    }
}

} // verus!
