//! UTC hour stamps and their fixed-width decimal rendering.
//!
//! A time bucket is named by a category prefix and an hour stamp rendered as
//! `YYYY-MM-DD-HH`. The rendering is fixed-width, so stamps for different
//! hours can never name the same bucket; that fact carries the bucket
//! isolation argument of the caching policy.

use vstd::prelude::*;

verus! {

/// A UTC wall-clock hour: the partition unit of the cache.
///
/// Only the fields that the bucket name renders are kept; minutes and below
/// are deliberately absent.
#[derive(Debug, Clone, Copy, PartialEq, Eq, Structural)]
pub struct HourStamp {
    pub year: u16,
    pub month: u8,
    pub day: u8,
    pub hour: u8,
}

impl HourStamp {
    /// The ranges a calendar clock can produce, plus a four-digit year so
    /// the rendering is fixed-width.
    pub open spec fn wf(self) -> bool {
        &&& self.year <= 9999
        &&& 1 <= self.month <= 12
        &&& 1 <= self.day <= 31
        &&& self.hour <= 23
    }

    /// Builds a stamp from raw clock parts, clamping an out-of-range year
    /// into the four-digit range the bucket layout renders.
    pub fn from_parts(year: i32, month: u32, day: u32, hour: u32) -> (r: HourStamp)
        requires
            1 <= month <= 12,
            1 <= day <= 31,
            hour <= 23,
        ensures
            r.wf(),
            0 <= year <= 9999 ==> r.year == year,
            r.month == month && r.day == day && r.hour == hour,
    {
        let y: u16 = if year < 0 {
            0
        } else if year > 9999 {
            9999
        } else {
            year as u16
        };
        HourStamp { year: y, month: month as u8, day: day as u8, hour: hour as u8 }
    }
}

/// The decimal digit character for `d` in `0..10`.
pub open spec fn digit_char(d: int) -> char {
    if d == 0 {
        '0'
    } else if d == 1 {
        '1'
    } else if d == 2 {
        '2'
    } else if d == 3 {
        '3'
    } else if d == 4 {
        '4'
    } else if d == 5 {
        '5'
    } else if d == 6 {
        '6'
    } else if d == 7 {
        '7'
    } else if d == 8 {
        '8'
    } else {
        '9'
    }
}

/// `n` in `0..100` as two decimal digits, zero-padded.
pub open spec fn pad2(n: int) -> Seq<char> {
    seq![digit_char(n / 10 % 10), digit_char(n % 10)]
}

/// `n` in `0..10000` as four decimal digits, zero-padded.
pub open spec fn pad4(n: int) -> Seq<char> {
    seq![
        digit_char(n / 1000 % 10),
        digit_char(n / 100 % 10),
        digit_char(n / 10 % 10),
        digit_char(n % 10),
    ]
}

/// The thirteen characters `YYYY-MM-DD-HH` naming `h`'s bucket hour.
pub open spec fn stamp_chars(h: HourStamp) -> Seq<char> {
    pad4(h.year as int) + seq!['-'] + pad2(h.month as int) + seq!['-'] + pad2(h.day as int)
        + seq!['-'] + pad2(h.hour as int)
}

/// The single decimal digit `d` as a string slice.
fn digit_str(d: u8) -> (r: &'static str)
    requires
        d < 10,
    ensures
        r@ == seq![digit_char(d as int)],
{
    proof {
        reveal_strlit("0");
        reveal_strlit("1");
        reveal_strlit("2");
        reveal_strlit("3");
        reveal_strlit("4");
        reveal_strlit("5");
        reveal_strlit("6");
        reveal_strlit("7");
        reveal_strlit("8");
        reveal_strlit("9");
    }
    let r = match d {
        0 => "0",
        1 => "1",
        2 => "2",
        3 => "3",
        4 => "4",
        5 => "5",
        6 => "6",
        7 => "7",
        8 => "8",
        _ => "9",
    };
    proof {
        assert(r@ =~= seq![digit_char(d as int)]);
    }
    r
}

/// Appends `n` to `out` as two zero-padded decimal digits.
fn push_pad2(out: &mut String, n: u8)
    requires
        n < 100,
    ensures
        final(out)@ == old(out)@ + pad2(n as int),
{
    out.append(digit_str(n / 10));
    out.append(digit_str(n % 10));
    proof {
        assert(final(out)@ =~= old(out)@ + pad2(n as int));
    }
}

/// Appends `n` to `out` as four zero-padded decimal digits.
fn push_pad4(out: &mut String, n: u16)
    requires
        n < 10000,
    ensures
        final(out)@ == old(out)@ + pad4(n as int),
{
    out.append(digit_str((n / 1000) as u8));
    out.append(digit_str((n / 100 % 10) as u8));
    out.append(digit_str((n / 10 % 10) as u8));
    out.append(digit_str((n % 10) as u8));
    proof {
        assert(final(out)@ =~= old(out)@ + pad4(n as int));
    }
}

/// Appends `YYYY-MM-DD-HH` for `h` to `out`.
pub fn push_stamp(out: &mut String, h: HourStamp)
    requires
        h.wf(),
    ensures
        final(out)@ == old(out)@ + stamp_chars(h),
{
    proof {
        reveal_strlit("-");
    }
    push_pad4(out, h.year);
    out.append("-");
    push_pad2(out, h.month);
    out.append("-");
    push_pad2(out, h.day);
    out.append("-");
    push_pad2(out, h.hour);
    proof {
        assert("-"@ =~= seq!['-']);
        assert(final(out)@ =~= old(out)@ + stamp_chars(h));
    }
}

/// Distinct digits render as distinct characters.
proof fn lemma_digit_char_injective(a: int, b: int)
    requires
        0 <= a < 10,
        0 <= b < 10,
        digit_char(a) == digit_char(b),
    ensures
        a == b,
{
}

/// Two-digit rendering is injective below 100.
proof fn lemma_pad2_injective(a: int, b: int)
    requires
        0 <= a < 100,
        0 <= b < 100,
        pad2(a) == pad2(b),
    ensures
        a == b,
{
    assert(pad2(a)[0] == pad2(b)[0]);
    assert(pad2(a)[1] == pad2(b)[1]);
    lemma_digit_char_injective(a / 10 % 10, b / 10 % 10);
    lemma_digit_char_injective(a % 10, b % 10);
}

/// Four-digit rendering is injective below 10000.
proof fn lemma_pad4_injective(a: int, b: int)
    requires
        0 <= a < 10000,
        0 <= b < 10000,
        pad4(a) == pad4(b),
    ensures
        a == b,
{
    assert(pad4(a)[0] == pad4(b)[0]);
    assert(pad4(a)[1] == pad4(b)[1]);
    assert(pad4(a)[2] == pad4(b)[2]);
    assert(pad4(a)[3] == pad4(b)[3]);
    lemma_digit_char_injective(a / 1000 % 10, b / 1000 % 10);
    lemma_digit_char_injective(a / 100 % 10, b / 100 % 10);
    lemma_digit_char_injective(a / 10 % 10, b / 10 % 10);
    lemma_digit_char_injective(a % 10, b % 10);
}

/// Distinct hours render as distinct (equal-length) stamps.
pub proof fn lemma_stamp_chars_injective(h1: HourStamp, h2: HourStamp)
    requires
        h1.wf(),
        h2.wf(),
        stamp_chars(h1) == stamp_chars(h2),
    ensures
        h1 == h2,
{
    let s1 = stamp_chars(h1);
    let s2 = stamp_chars(h2);
    assert(pad4(h1.year as int) =~= s1.subrange(0, 4));
    assert(pad4(h2.year as int) =~= s2.subrange(0, 4));
    assert(pad2(h1.month as int) =~= s1.subrange(5, 7));
    assert(pad2(h2.month as int) =~= s2.subrange(5, 7));
    assert(pad2(h1.day as int) =~= s1.subrange(8, 10));
    assert(pad2(h2.day as int) =~= s2.subrange(8, 10));
    assert(pad2(h1.hour as int) =~= s1.subrange(11, 13));
    assert(pad2(h2.hour as int) =~= s2.subrange(11, 13));
    lemma_pad4_injective(h1.year as int, h2.year as int);
    lemma_pad2_injective(h1.month as int, h2.month as int);
    lemma_pad2_injective(h1.day as int, h2.day as int);
    lemma_pad2_injective(h1.hour as int, h2.hour as int);
}

} // verus!
