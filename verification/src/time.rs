//! Completion times, held in thousandths of a second, and their decimal text.

use vstd::prelude::*;

verus! {

/// A completion time in thousandths of a second.
#[derive(Clone, Copy, Debug, PartialEq, Eq, Structural)]
pub struct Time {
    pub millis: i64,
}

/// The time that stands in for a missing or unreadable one: 9999.000 seconds.
pub const FALLBACK_MILLIS: i64 = 9_999_000;

/// The character of a decimal digit.
pub open spec fn digit_char(d: int) -> char {
    ((48 + d) as u8) as char
}

/// The decimal digits of `n`, without leading zeros; "0" for zero.
pub open spec fn digits_text(n: nat) -> Seq<char>
    decreases n,
{
    if n < 10 {
        seq![digit_char(n as int)]
    } else {
        digits_text(n / 10).push(digit_char((n % 10) as int))
    }
}

/// The size of a number of thousandths, whatever its sign.
pub open spec fn magnitude(millis: int) -> nat {
    if millis < 0 {
        (-millis) as nat
    } else {
        millis as nat
    }
}

/// A number of thousandths as seconds with exactly three digits behind the point,
/// such as "12.500", with a minus sign in front where it is below zero.
pub open spec fn time_text(millis: int) -> Seq<char> {
    let m = magnitude(millis);
    let sign = if millis < 0 {
        seq!['-']
    } else {
        Seq::<char>::empty()
    };
    let part = m % 1000;
    sign + digits_text(m / 1000) + seq![
        '.',
        digit_char((part / 100) as int),
        digit_char((part / 10 % 10) as int),
        digit_char((part % 10) as int),
    ]
}

fn digit(d: u64) -> (c: char)
    requires
        d < 10,
    ensures
        c == digit_char(d as int),
{
    (48u8 + d as u8) as char
}

fn push_digits(out: &mut String, n: u64)
    ensures
        final(out)@ == old(out)@ + digits_text(n as nat),
    decreases n,
{
    if n >= 10 {
        push_digits(out, n / 10);
    }
    out.push(digit(n % 10));
    assert(out@ =~= old(out)@ + digits_text(n as nat));
}

impl Time {
    /// The time of so many thousandths of a second.
    pub fn from_millis(millis: i64) -> (t: Time)
        ensures
            t.millis == millis,
    {
        Time { millis }
    }

    /// The fallback time, 9999.000 seconds.
    pub fn fallback() -> (t: Time)
        ensures
            t.millis == FALLBACK_MILLIS,
    {
        Time { millis: FALLBACK_MILLIS }
    }

    /// Adds the time's text to the end of `out`.
    pub fn write_to(self, out: &mut String)
        ensures
            final(out)@ == old(out)@ + time_text(self.millis as int),
    {
        let size: u64 = if self.millis < 0 {
            (-(self.millis + 1)) as u64 + 1
        } else {
            self.millis as u64
        };
        assert(size == magnitude(self.millis as int));
        if self.millis < 0 {
            out.push('-');
        }
        let part = size % 1000;
        push_digits(out, size / 1000);
        out.push('.');
        out.push(digit(part / 100));
        out.push(digit(part / 10 % 10));
        out.push(digit(part % 10));
        assert(out@ =~= old(out)@ + time_text(self.millis as int));
    }

    /// The time as seconds with three digits behind the point, such as "12.500".
    pub fn to_text(self) -> (s: String)
        ensures
            s@ == time_text(self.millis as int),
    {
        let mut s = String::new();
        self.write_to(&mut s);
        assert(s@ =~= time_text(self.millis as int));
        s
    }
}

} // verus!
