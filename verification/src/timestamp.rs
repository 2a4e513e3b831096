//! Civil date-and-time values as plain fields, in UTC.
//!
//! The record store hands timestamps over as epoch values; the binary turns
//! them into the calendar fields below before they reach the library, so that
//! ordering, formatting and parsing are all ordinary verified arithmetic.

use vstd::prelude::*;
use crate::text::chars_to_string;
use crate::text::digit_char;
use crate::text::digit_of;
use crate::text::spec_digit;
use crate::text::spec_digit_val;
use crate::text::spec_is_digit;

verus! {

/// A timestamp with timezone fixed to UTC, held as calendar fields.
#[derive(Clone, Copy, PartialEq, Eq, Structural, Debug)]
pub struct Timestamp {
    pub year: u32,
    pub month: u32,
    pub day: u32,
    pub hour: u32,
    pub minute: u32,
    pub second: u32,
}

impl Timestamp {
    /// The field ranges every timestamp of the library satisfies.  Day
    /// validity is the simple bound used by the on-disk format; the source
    /// store is trusted not to produce days that its own calendar refused.
    pub open spec fn wf(self) -> bool {
        &&& 1 <= self.year <= 9999
        &&& 1 <= self.month <= 12
        &&& 1 <= self.day <= 31
        &&& self.hour <= 23
        &&& self.minute <= 59
        &&& self.second <= 59
    }

    /// Strict chronological order: lexicographic over the fields.
    pub open spec fn spec_before(self, other: Self) -> bool {
        if self.year != other.year {
            self.year < other.year
        } else if self.month != other.month {
            self.month < other.month
        } else if self.day != other.day {
            self.day < other.day
        } else if self.hour != other.hour {
            self.hour < other.hour
        } else if self.minute != other.minute {
            self.minute < other.minute
        } else {
            self.second < other.second
        }
    }

    /// Whether this timestamp is strictly earlier than `other`.
    pub fn before(&self, other: &Self) -> (r: bool)
        ensures
            r == self.spec_before(*other),
    {
        if self.year != other.year {
            self.year < other.year
        } else if self.month != other.month {
            self.month < other.month
        } else if self.day != other.day {
            self.day < other.day
        } else if self.hour != other.hour {
            self.hour < other.hour
        } else if self.minute != other.minute {
            self.minute < other.minute
        } else {
            self.second < other.second
        }
    }

    /// The date formatted as `YYYY-MM-DD`.
    pub open spec fn spec_ymd(self) -> Seq<char> {
        let y = self.year as int;
        let mo = self.month as int;
        let d = self.day as int;
        seq![
            spec_digit(y / 1000 % 10),
            spec_digit(y / 100 % 10),
            spec_digit(y / 10 % 10),
            spec_digit(y % 10),
            '-',
            spec_digit(mo / 10 % 10),
            spec_digit(mo % 10),
            '-',
            spec_digit(d / 10 % 10),
            spec_digit(d % 10),
        ]
    }

    /// The time of day formatted as `HH-MM-SS`.
    pub open spec fn spec_hms(self) -> Seq<char> {
        let h = self.hour as int;
        let mi = self.minute as int;
        let s = self.second as int;
        seq![
            spec_digit(h / 10 % 10),
            spec_digit(h % 10),
            '-',
            spec_digit(mi / 10 % 10),
            spec_digit(mi % 10),
            '-',
            spec_digit(s / 10 % 10),
            spec_digit(s % 10),
        ]
    }

    /// The timestamp formatted as `YYYY-MM-DDTHH:MM:SSZ`.
    pub open spec fn spec_rfc3339(self) -> Seq<char> {
        let y = self.year as int;
        let mo = self.month as int;
        let d = self.day as int;
        let h = self.hour as int;
        let mi = self.minute as int;
        let s = self.second as int;
        seq![
            spec_digit(y / 1000 % 10),
            spec_digit(y / 100 % 10),
            spec_digit(y / 10 % 10),
            spec_digit(y % 10),
            '-',
            spec_digit(mo / 10 % 10),
            spec_digit(mo % 10),
            '-',
            spec_digit(d / 10 % 10),
            spec_digit(d % 10),
            'T',
            spec_digit(h / 10 % 10),
            spec_digit(h % 10),
            ':',
            spec_digit(mi / 10 % 10),
            spec_digit(mi % 10),
            ':',
            spec_digit(s / 10 % 10),
            spec_digit(s % 10),
            'Z',
        ]
    }

    /// Formats the date part, `YYYY-MM-DD`.
    pub fn format_ymd(&self) -> (r: String)
        ensures
            r@ == self.spec_ymd(),
    {
        let mut out: Vec<char> = Vec::new();
        push_pad4(&mut out, self.year);
        out.push('-');
        push_pad2(&mut out, self.month);
        out.push('-');
        push_pad2(&mut out, self.day);
        proof {
            assert(out@ =~= self.spec_ymd());
        }
        chars_to_string(&out)
    }

    /// Formats the time of day, `HH-MM-SS`.
    pub fn format_hms(&self) -> (r: String)
        ensures
            r@ == self.spec_hms(),
    {
        let mut out: Vec<char> = Vec::new();
        push_pad2(&mut out, self.hour);
        out.push('-');
        push_pad2(&mut out, self.minute);
        out.push('-');
        push_pad2(&mut out, self.second);
        proof {
            assert(out@ =~= self.spec_hms());
        }
        chars_to_string(&out)
    }

    /// Formats the full timestamp, `YYYY-MM-DDTHH:MM:SSZ`.
    pub fn format_rfc3339(&self) -> (r: String)
        ensures
            r@ == self.spec_rfc3339(),
    {
        let mut out: Vec<char> = Vec::new();
        push_pad4(&mut out, self.year);
        out.push('-');
        push_pad2(&mut out, self.month);
        out.push('-');
        push_pad2(&mut out, self.day);
        out.push('T');
        push_pad2(&mut out, self.hour);
        out.push(':');
        push_pad2(&mut out, self.minute);
        out.push(':');
        push_pad2(&mut out, self.second);
        out.push('Z');
        proof {
            assert(out@ =~= self.spec_rfc3339());
        }
        chars_to_string(&out)
    }
}

/// Appends the two-digit zero-padded rendering of `n`.
fn push_pad2(out: &mut Vec<char>, n: u32)
    ensures
        final(out)@ == old(out)@ + seq![
            spec_digit(n as int / 10 % 10),
            spec_digit(n as int % 10),
        ],
{
    out.push(digit_char(n / 10 % 10));
    out.push(digit_char(n % 10));
    proof {
        assert(final(out)@ =~= old(out)@ + seq![
            spec_digit(n as int / 10 % 10),
            spec_digit(n as int % 10),
        ]);
    }
}

/// Appends the four-digit zero-padded rendering of `n`.
fn push_pad4(out: &mut Vec<char>, n: u32)
    ensures
        final(out)@ == old(out)@ + seq![
            spec_digit(n as int / 1000 % 10),
            spec_digit(n as int / 100 % 10),
            spec_digit(n as int / 10 % 10),
            spec_digit(n as int % 10),
        ],
{
    out.push(digit_char(n / 1000 % 10));
    out.push(digit_char(n / 100 % 10));
    out.push(digit_char(n / 10 % 10));
    out.push(digit_char(n % 10));
    proof {
        assert(final(out)@ =~= old(out)@ + seq![
            spec_digit(n as int / 1000 % 10),
            spec_digit(n as int / 100 % 10),
            spec_digit(n as int / 10 % 10),
            spec_digit(n as int % 10),
        ]);
    }
}

/// The timestamp read back from a `YYYY-MM-DDTHH:MM:SSZ` rendering, if the
/// text has exactly that shape and the fields are in range.
pub open spec fn spec_parse_rfc3339(s: Seq<char>) -> Option<Timestamp> {
    if s.len() == 20 && s[4] == '-' && s[7] == '-' && s[10] == 'T' && s[13] == ':' && s[16]
        == ':' && s[19] == 'Z' && spec_is_digit(s[0]) && spec_is_digit(s[1]) && spec_is_digit(
        s[2],
    ) && spec_is_digit(s[3]) && spec_is_digit(s[5]) && spec_is_digit(s[6]) && spec_is_digit(
        s[8],
    ) && spec_is_digit(s[9]) && spec_is_digit(s[11]) && spec_is_digit(s[12]) && spec_is_digit(
        s[14],
    ) && spec_is_digit(s[15]) && spec_is_digit(s[17]) && spec_is_digit(s[18]) {
        let t = Timestamp {
            year: (1000 * spec_digit_val(s[0]) + 100 * spec_digit_val(s[1]) + 10 * spec_digit_val(
                s[2],
            ) + spec_digit_val(s[3])) as u32,
            month: (10 * spec_digit_val(s[5]) + spec_digit_val(s[6])) as u32,
            day: (10 * spec_digit_val(s[8]) + spec_digit_val(s[9])) as u32,
            hour: (10 * spec_digit_val(s[11]) + spec_digit_val(s[12])) as u32,
            minute: (10 * spec_digit_val(s[14]) + spec_digit_val(s[15])) as u32,
            second: (10 * spec_digit_val(s[17]) + spec_digit_val(s[18])) as u32,
        };
        if t.wf() {
            Some(t)
        } else {
            None
        }
    } else {
        None
    }
}

/// The midnight timestamp read back from a `YYYY-MM-DD` rendering, if the
/// text has exactly that shape and the fields are in range.
pub open spec fn spec_parse_ymd(s: Seq<char>) -> Option<Timestamp> {
    if s.len() == 10 && s[4] == '-' && s[7] == '-' && spec_is_digit(s[0]) && spec_is_digit(
        s[1],
    ) && spec_is_digit(s[2]) && spec_is_digit(s[3]) && spec_is_digit(s[5]) && spec_is_digit(
        s[6],
    ) && spec_is_digit(s[8]) && spec_is_digit(s[9]) {
        let t = Timestamp {
            year: (1000 * spec_digit_val(s[0]) + 100 * spec_digit_val(s[1]) + 10 * spec_digit_val(
                s[2],
            ) + spec_digit_val(s[3])) as u32,
            month: (10 * spec_digit_val(s[5]) + spec_digit_val(s[6])) as u32,
            day: (10 * spec_digit_val(s[8]) + spec_digit_val(s[9])) as u32,
            hour: 0,
            minute: 0,
            second: 0,
        };
        if t.wf() {
            Some(t)
        } else {
            None
        }
    } else {
        None
    }
}

impl Timestamp {
    /// Whether the fields are in range.
    pub fn is_wf(&self) -> (r: bool)
        ensures
            r == self.wf(),
    {
        1 <= self.year && self.year <= 9999 && 1 <= self.month && self.month <= 12 && 1
            <= self.day && self.day <= 31 && self.hour <= 23 && self.minute <= 59 && self.second
            <= 59
    }

    /// Parses a `YYYY-MM-DDTHH:MM:SSZ` rendering.
    pub fn parse_rfc3339(v: &Vec<char>) -> (r: Option<Timestamp>)
        ensures
            r == spec_parse_rfc3339(v@),
    {
        if v.len() != 20 {
            return None;
        }
        if !(v[4] == '-' && v[7] == '-' && v[10] == 'T' && v[13] == ':' && v[16] == ':' && v[19]
            == 'Z') {
            return None;
        }
        let d0 = match digit_of(v[0]) { Some(d) => d, None => { return None; } };
        let d1 = match digit_of(v[1]) { Some(d) => d, None => { return None; } };
        let d2 = match digit_of(v[2]) { Some(d) => d, None => { return None; } };
        let d3 = match digit_of(v[3]) { Some(d) => d, None => { return None; } };
        let d5 = match digit_of(v[5]) { Some(d) => d, None => { return None; } };
        let d6 = match digit_of(v[6]) { Some(d) => d, None => { return None; } };
        let d8 = match digit_of(v[8]) { Some(d) => d, None => { return None; } };
        let d9 = match digit_of(v[9]) { Some(d) => d, None => { return None; } };
        let d11 = match digit_of(v[11]) { Some(d) => d, None => { return None; } };
        let d12 = match digit_of(v[12]) { Some(d) => d, None => { return None; } };
        let d14 = match digit_of(v[14]) { Some(d) => d, None => { return None; } };
        let d15 = match digit_of(v[15]) { Some(d) => d, None => { return None; } };
        let d17 = match digit_of(v[17]) { Some(d) => d, None => { return None; } };
        let d18 = match digit_of(v[18]) { Some(d) => d, None => { return None; } };
        let t = Timestamp {
            year: 1000 * d0 + 100 * d1 + 10 * d2 + d3,
            month: 10 * d5 + d6,
            day: 10 * d8 + d9,
            hour: 10 * d11 + d12,
            minute: 10 * d14 + d15,
            second: 10 * d17 + d18,
        };
        if t.is_wf() {
            Some(t)
        } else {
            None
        }
    }

    /// Parses a `YYYY-MM-DD` rendering into the midnight timestamp.
    pub fn parse_ymd(v: &Vec<char>) -> (r: Option<Timestamp>)
        ensures
            r == spec_parse_ymd(v@),
    {
        if v.len() != 10 {
            return None;
        }
        if !(v[4] == '-' && v[7] == '-') {
            return None;
        }
        let d0 = match digit_of(v[0]) { Some(d) => d, None => { return None; } };
        let d1 = match digit_of(v[1]) { Some(d) => d, None => { return None; } };
        let d2 = match digit_of(v[2]) { Some(d) => d, None => { return None; } };
        let d3 = match digit_of(v[3]) { Some(d) => d, None => { return None; } };
        let d5 = match digit_of(v[5]) { Some(d) => d, None => { return None; } };
        let d6 = match digit_of(v[6]) { Some(d) => d, None => { return None; } };
        let d8 = match digit_of(v[8]) { Some(d) => d, None => { return None; } };
        let d9 = match digit_of(v[9]) { Some(d) => d, None => { return None; } };
        let t = Timestamp {
            year: 1000 * d0 + 100 * d1 + 10 * d2 + d3,
            month: 10 * d5 + d6,
            day: 10 * d8 + d9,
            hour: 0,
            minute: 0,
            second: 0,
        };
        if t.is_wf() {
            Some(t)
        } else {
            None
        }
    }
}

/// The digits of a value below one hundred carry the value.
proof fn lemma_digits2(n: int)
    requires
        0 <= n < 100,
    ensures
        10 * (n / 10 % 10) + n % 10 == n,
{
    vstd::arithmetic::div_mod::lemma_fundamental_div_mod(n, 10);
    vstd::arithmetic::div_mod::lemma_small_mod((n / 10) as nat, 10);
}

/// The digits of a value below ten thousand carry the value.
proof fn lemma_digits4(n: int)
    requires
        0 <= n < 10000,
    ensures
        1000 * (n / 1000 % 10) + 100 * (n / 100 % 10) + 10 * (n / 10 % 10) + n % 10 == n,
{
    vstd::arithmetic::div_mod::lemma_fundamental_div_mod(n, 10);
    vstd::arithmetic::div_mod::lemma_fundamental_div_mod(n / 10, 10);
    vstd::arithmetic::div_mod::lemma_fundamental_div_mod(n / 100, 10);
    vstd::arithmetic::div_mod::lemma_div_denominator(n, 10, 10);
    vstd::arithmetic::div_mod::lemma_div_denominator(n, 100, 10);
    vstd::arithmetic::div_mod::lemma_small_mod((n / 1000) as nat, 10);
}

/// Formatting a well-formed timestamp as `YYYY-MM-DDTHH:MM:SSZ` and parsing
/// the text back yields the same timestamp.
pub proof fn lemma_rfc3339_round_trip(t: Timestamp)
    requires
        t.wf(),
    ensures
        spec_parse_rfc3339(t.spec_rfc3339()) == Some(t),
{
    let s = t.spec_rfc3339();
    assert forall|d: int| 0 <= d < 10 implies spec_is_digit(#[trigger] spec_digit(d))
        && spec_digit_val(spec_digit(d)) == d by {
        crate::text::lemma_digit_char_val(d);
    }
    lemma_digits4(t.year as int);
    lemma_digits2(t.month as int);
    lemma_digits2(t.day as int);
    lemma_digits2(t.hour as int);
    lemma_digits2(t.minute as int);
    lemma_digits2(t.second as int);
}

/// Formatting a well-formed timestamp as `YYYY-MM-DD` and parsing the text
/// back yields the same date at midnight.
pub proof fn lemma_ymd_round_trip(t: Timestamp)
    requires
        t.wf(),
    ensures
        spec_parse_ymd(t.spec_ymd()) == Some(
            Timestamp { hour: 0, minute: 0, second: 0, ..t },
        ),
{
    assert forall|d: int| 0 <= d < 10 implies spec_is_digit(#[trigger] spec_digit(d))
        && spec_digit_val(spec_digit(d)) == d by {
        crate::text::lemma_digit_char_val(d);
    }
    lemma_digits4(t.year as int);
    lemma_digits2(t.month as int);
    lemma_digits2(t.day as int);
}

/// A rendered timestamp holds digits and punctuation, never a newline.
pub proof fn lemma_rfc3339_newline_free(t: Timestamp)
    ensures
        !t.spec_rfc3339().contains('\n'),
{
    let s = t.spec_rfc3339();
    if s.contains('\n') {
        let i = choose|i: int| 0 <= i < s.len() && s[i] == '\n';
        assert(forall|d: int| spec_digit(d) != '\n');
        assert(s[i] != '\n');
    }
}

} // verus!
