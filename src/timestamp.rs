//! Calendar timestamps as plain numeric fields, their lenient text reading, their
//! `YYYY-MM-DDTHH:MM:SS` rendering, and minute arithmetic on the calendar.

use crate::text::{
    all_digits, digits_value, is_digit, parse_unsigned,
    parse_unsigned_range, piece_bounds, piece_range, unsigned_or_zero,
};
use chrono::{Datelike, Timelike};
use vstd::prelude::*;

verus! {

/// A calendar date.
#[derive(Clone, Copy, Debug, PartialEq, Eq, Structural, PartialOrd, Ord, Hash)]
pub struct Date {
    pub year: u32,
    pub month: u32,
    pub day: u32,
}

/// A calendar date and time of day, to the second, without a time zone. The fields hold
/// what was read; nothing checks that they name a real instant.
#[derive(Clone, Copy, Debug, PartialEq, Eq, Structural, PartialOrd, Ord, Hash)]
pub struct Timestamp {
    pub year: u32,
    pub month: u32,
    pub day: u32,
    pub hour: u32,
    pub minute: u32,
    pub second: u32,
}

impl Timestamp {
    pub open spec fn spec_date(self) -> Date {
        Date { year: self.year, month: self.month, day: self.day }
    }

    /// The calendar date, time of day dropped.
    #[verifier::when_used_as_spec(spec_date)]
    pub fn date(self) -> (r: Date)
        ensures
            r == self.spec_date(),
    {
        Date { year: self.year, month: self.month, day: self.day }
    }
}

/// The `k`-th `sep`-separated piece of `s[lo..hi]` read as a `u32`, zero when malformed
/// or missing.
pub open spec fn field_value(s: Seq<char>, sep: char, lo: int, hi: int, k: nat) -> u32 {
    let r = piece_range(s, sep, lo, hi, k);
    unsigned_or_zero(s.subrange(r.0, r.1), u32::MAX as int) as u32
}

/// The timestamp that the text `s[lo..hi]` denotes: the part before the first `T` is split
/// on `-` into year, month and day, the part after it on `:` into hour, minute and second.
pub open spec fn timestamp_in(s: Seq<char>, lo: int, hi: int) -> Timestamp {
    let d = piece_range(s, 'T', lo, hi, 0);
    let t = piece_range(s, 'T', lo, hi, 1);
    Timestamp {
        year: field_value(s, '-', d.0, d.1, 0),
        month: field_value(s, '-', d.0, d.1, 1),
        day: field_value(s, '-', d.0, d.1, 2),
        hour: field_value(s, ':', t.0, t.1, 0),
        minute: field_value(s, ':', t.0, t.1, 1),
        second: field_value(s, ':', t.0, t.1, 2),
    }
}

pub open spec fn timestamp_of(s: Seq<char>) -> Timestamp {
    timestamp_in(s, 0, s.len() as int)
}

fn field_in(s: &Vec<char>, sep: char, lo: usize, hi: usize, k: usize) -> (r: u32)
    requires
        lo <= hi <= s.len(),
    ensures
        r == field_value(s@, sep, lo as int, hi as int, k as nat),
{
    let (a, b) = piece_bounds(s, sep, lo, hi, k);
    match parse_unsigned_range(s, a, b, u32::MAX as u64) {
        Some(v) => v as u32,
        None => 0,
    }
}

/// Reads the timestamp held in `s[lo..hi]`.
pub fn timestamp_from_chars(s: &Vec<char>, lo: usize, hi: usize) -> (r: Timestamp)
    requires
        lo <= hi <= s.len(),
    ensures
        r == timestamp_in(s@, lo as int, hi as int),
{
    let (dl, dh) = piece_bounds(s, 'T', lo, hi, 0);
    let (tl, th) = piece_bounds(s, 'T', lo, hi, 1);
    Timestamp {
        year: field_in(s, '-', dl, dh, 0),
        month: field_in(s, '-', dl, dh, 1),
        day: field_in(s, '-', dl, dh, 2),
        hour: field_in(s, ':', tl, th, 0),
        minute: field_in(s, ':', tl, th, 1),
        second: field_in(s, ':', tl, th, 2),
    }
}

/// The characters of `s`, in order.
pub fn chars_of(s: &str) -> (r: Vec<char>)
    ensures
        r@ == s@,
{
    let mut v: Vec<char> = Vec::new();
    for c in it: s.chars()
        invariant
            v@ == it.seq().subrange(0, it.index() as int),
    {
        v.push(c);
    }
    v
}

pub open spec fn digit_char(d: nat) -> char {
    ((d + 48) as u32) as char
}

/// Decimal digits of `v`, most significant first, zero-padded on the left to at least
/// `w` characters (at least one digit in any case).
pub open spec fn pad_digits(v: nat, w: nat) -> Seq<char>
    decreases v, w,
{
    if v < 10 && w <= 1 {
        seq![digit_char(v)]
    } else {
        pad_digits(
            v / 10,
            if w > 0 {
                (w - 1) as nat
            } else {
                0
            },
        ).push(digit_char(v % 10))
    }
}

/// The `YYYY-MM-DDTHH:MM:SS` rendering of a timestamp.
pub open spec fn timestamp_text(t: Timestamp) -> Seq<char> {
    pad_digits(t.year as nat, 4) + seq!['-'] + pad_digits(t.month as nat, 2) + seq!['-']
        + pad_digits(t.day as nat, 2) + seq!['T'] + pad_digits(t.hour as nat, 2) + seq![':']
        + pad_digits(t.minute as nat, 2) + seq![':'] + pad_digits(t.second as nat, 2)
}

/// Appends the digits of `v`, zero-padded to at least `w` characters.
pub fn push_padded(out: &mut Vec<char>, v: u64, w: usize)
    ensures
        final(out)@ == old(out)@ + pad_digits(v as nat, w as nat),
    decreases v, w,
{
    if v < 10 && w <= 1 {
        out.push(((v + 48) as u8) as char);
    } else {
        let w2: usize = if w > 0 {
            w - 1
        } else {
            0
        };
        push_padded(out, v / 10, w2);
        out.push(((v % 10 + 48) as u8) as char);
        assert(final(out)@ =~= old(out)@ + pad_digits(v as nat, w as nat));
    }
}

/// Relies on `String`'s `FromIterator<char>`: the string holds exactly the collected
/// characters, in order.
#[verifier::external_body]
pub(crate) fn string_from_chars(v: Vec<char>) -> (r: String)
    ensures
        r@ == v@,
{
    v.into_iter().collect()
}

/// Renders `t` as `YYYY-MM-DDTHH:MM:SS`.
pub fn timestamp_chars(t: Timestamp) -> (r: Vec<char>)
    ensures
        r@ == timestamp_text(t),
{
    let mut out: Vec<char> = Vec::new();
    push_padded(&mut out, t.year as u64, 4);
    out.push('-');
    push_padded(&mut out, t.month as u64, 2);
    out.push('-');
    push_padded(&mut out, t.day as u64, 2);
    out.push('T');
    push_padded(&mut out, t.hour as u64, 2);
    out.push(':');
    push_padded(&mut out, t.minute as u64, 2);
    out.push(':');
    push_padded(&mut out, t.second as u64, 2);
    assert(out@ =~= timestamp_text(t));
    out
}

/// The `YYYY-MM-DD` rendering of a date.
pub open spec fn date_text(d: Date) -> Seq<char> {
    pad_digits(d.year as nat, 4) + seq!['-'] + pad_digits(d.month as nat, 2) + seq!['-']
        + pad_digits(d.day as nat, 2)
}

impl Date {
    /// Renders the date as `YYYY-MM-DD`.
    pub fn to_iso_string(self) -> (r: String)
        ensures
            r@ == date_text(self),
    {
        let mut out: Vec<char> = Vec::new();
        push_padded(&mut out, self.year as u64, 4);
        out.push('-');
        push_padded(&mut out, self.month as u64, 2);
        out.push('-');
        push_padded(&mut out, self.day as u64, 2);
        assert(out@ =~= date_text(self));
        string_from_chars(out)
    }
}

impl Timestamp {
    /// Renders the timestamp as `YYYY-MM-DDTHH:MM:SS`.
    pub fn to_iso_string(self) -> (r: String)
        ensures
            r@ == timestamp_text(self),
    {
        string_from_chars(timestamp_chars(self))
    }
}

/// Reads a timestamp from its text; malformed or missing numeric fields read as zero.
pub fn parse_timestamp(timestamp: &str) -> (r: Timestamp)
    ensures
        r == timestamp_of(timestamp@),
{
    let s = chars_of(timestamp);
    timestamp_from_chars(&s, 0, s.len())
}

/// The timestamp `minutes` minutes after `t` on the proleptic Gregorian calendar, as
/// chrono computes it; `None` where `t` names no valid date and time, or the result falls
/// outside chrono's range or before year zero.
pub uninterp spec fn minutes_later(t: Timestamp, minutes: int) -> Option<Timestamp>;

/// Relies on chrono: `NaiveDate::from_ymd_opt` and `NaiveDate::and_hms_opt` to read `t`
/// as a date and time (rejecting invalid ones), `TimeDelta::try_minutes` and
/// `NaiveDateTime::checked_add_signed` for the calendar arithmetic; each refusal, and a
/// year outside `i32` or below zero, gives `None`. The result depends on the arguments
/// alone.
#[verifier::external_body]
pub(crate) fn add_minutes(t: Timestamp, minutes: i64) -> (r: Option<Timestamp>)
    ensures
        r == minutes_later(t, minutes as int),
{
    let delta = chrono::TimeDelta::try_minutes(minutes)?;
    let date = chrono::NaiveDate::from_ymd_opt(i32::try_from(t.year).ok()?, t.month, t.day)?;
    let start = date.and_hms_opt(t.hour, t.minute, t.second)?;
    let end = start.checked_add_signed(delta)?;
    Some(Timestamp {
        year: u32::try_from(end.year()).ok()?,
        month: end.month(),
        day: end.day(),
        hour: end.hour(),
        minute: end.minute(),
        second: end.second(),
    })
}

/// Text in the exact shape `YYYY-MM-DDTHH:MM:SS`: digits everywhere but at the five
/// separator positions.
pub open spec fn is_timestamp_text(s: Seq<char>) -> bool {
    &&& s.len() == 19
    &&& s[4] == '-' && s[7] == '-' && s[10] == 'T' && s[13] == ':' && s[16] == ':'
    &&& forall|i: int|
        0 <= i < 19 && i != 4 && i != 7 && i != 10 && i != 13 && i != 16 ==> is_digit(
            #[trigger] s[i],
        )
}

pub open spec fn pow10(n: nat) -> nat
    decreases n,
{
    if n == 0 {
        1
    } else {
        10 * pow10((n - 1) as nat)
    }
}

proof fn lemma_find_sep_at(s: Seq<char>, sep: char, i: int, j: int, hi: int)
    requires
        0 <= i <= j <= hi <= s.len(),
        forall|m: int| i <= m < j ==> s[m] != sep,
        j == hi || s[j] == sep,
    ensures
        crate::text::find_sep(s, sep, i, hi) == j,
    decreases j - i,
{
    if i < j {
        lemma_find_sep_at(s, sep, i + 1, j, hi);
    }
}

proof fn lemma_digit_char(c: char)
    requires
        is_digit(c),
    ensures
        digit_char(crate::text::digit_value(c)) == c,
{
    assert(((((c as u32) - 48) + 48) as u32) as char == c);
}

/// A run of decimal digits reads back as a number that renders to the same run.
proof fn lemma_digits_round_trip(d: Seq<char>)
    requires
        all_digits(d),
        d.len() >= 1,
    ensures
        pad_digits(digits_value(d), d.len()) == d,
        digits_value(d) < pow10(d.len()),
    decreases d.len(),
{
    let v = digits_value(d);
    let p = d.drop_last();
    let c = d.last();
    assert(is_digit(d[d.len() - 1]));
    lemma_digit_char(c);
    if d.len() == 1 {
        assert(p.len() == 0);
        assert(pad_digits(v, 1) =~= d);
    } else {
        lemma_digits_round_trip(p);
        let pv = digits_value(p);
        let lv = crate::text::digit_value(c);
        assert(v == pv * 10 + lv);
        assert(v / 10 == pv && v % 10 == lv) by (nonlinear_arith)
            requires
                v == pv * 10 + lv,
                lv < 10,
        ;
        assert(pad_digits(v, d.len()) =~= pad_digits(pv, p.len()).push(c));
        assert(pad_digits(v, d.len()) =~= d);
        assert(v < pow10(d.len())) by (nonlinear_arith)
            requires
                v == pv * 10 + lv,
                lv < 10,
                pv < pow10(p.len()),
                pow10(d.len()) == 10 * pow10(p.len()),
        ;
    }
}

/// The field `s[a..b]` of a well-shaped timestamp text: its value renders back to it.
proof fn lemma_field(s: Seq<char>, sep: char, lo: int, hi: int, k: nat, a: int, b: int)
    requires
        0 <= a < b <= s.len(),
        b - a <= 4,
        piece_range(s, sep, lo, hi, k) == (a, b),
        forall|i: int| a <= i < b ==> is_digit(#[trigger] s[i]),
    ensures
        pad_digits(field_value(s, sep, lo, hi, k) as nat, (b - a) as nat) == s.subrange(a, b),
{
    let d = s.subrange(a, b);
    assert(all_digits(d)) by {
        assert forall|i: int| 0 <= i < d.len() implies is_digit(#[trigger] d[i]) by {
            assert(d[i] == s[a + i]);
        }
    }
    lemma_digits_round_trip(d);
    assert(pow10(1) == 10 && pow10(2) == 100 && pow10(3) == 1000 && pow10(4) == 10000) by {
        reveal_with_fuel(pow10, 5);
    }
    assert(digits_value(d) < 10000);
    assert(!(d.len() > 0 && d[0] == '+')) by {
        assert(is_digit(d[0]));
    }
    assert(parse_unsigned(d, u32::MAX as int) == Some(digits_value(d)));
}

/// Reading a timestamp from text of the exact shape `YYYY-MM-DDTHH:MM:SS` and rendering it
/// again gives back the same text.
pub proof fn lemma_timestamp_text_round_trip(s: Seq<char>)
    requires
        is_timestamp_text(s),
    ensures
        timestamp_text(timestamp_of(s)) == s,
{
    let n = 19int;
    assert forall|m: int| 0 <= m < 10 implies s[m] != 'T' by {
        if m != 4 && m != 7 {
            assert(is_digit(s[m]));
        }
    }
    lemma_find_sep_at(s, 'T', 0, 10, n);
    assert forall|m: int| 11 <= m < 19 implies s[m] != 'T' by {
        if m != 13 && m != 16 {
            assert(is_digit(s[m]));
        }
    }
    lemma_find_sep_at(s, 'T', 11, 19, n);
    assert(piece_range(s, 'T', 0, n, 0) == (0int, 10int));
    assert(piece_range(s, 'T', 0, n, 1) == piece_range(s, 'T', 11, n, 0));
    assert(piece_range(s, 'T', 0, n, 1) == (11int, 19int));
    assert forall|m: int| 0 <= m < 4 implies s[m] != '-' by {
        assert(is_digit(s[m]));
    }
    assert forall|m: int| 5 <= m < 7 implies s[m] != '-' by {
        assert(is_digit(s[m]));
    }
    assert forall|m: int| 8 <= m < 10 implies s[m] != '-' by {
        assert(is_digit(s[m]));
    }
    lemma_find_sep_at(s, '-', 0, 4, 10);
    lemma_find_sep_at(s, '-', 5, 7, 10);
    lemma_find_sep_at(s, '-', 8, 10, 10);
    assert(piece_range(s, '-', 0, 10, 0) == (0int, 4int));
    assert(piece_range(s, '-', 0, 10, 1) == (5int, 7int)) by {
        assert(piece_range(s, '-', 0, 10, 1) == piece_range(s, '-', 5, 10, 0));
    }
    assert(piece_range(s, '-', 0, 10, 2) == (8int, 10int)) by {
        assert(piece_range(s, '-', 0, 10, 2) == piece_range(s, '-', 5, 10, 1));
        assert(piece_range(s, '-', 5, 10, 1) == piece_range(s, '-', 8, 10, 0));
    }
    assert forall|m: int| 11 <= m < 13 implies s[m] != ':' by {
        assert(is_digit(s[m]));
    }
    assert forall|m: int| 14 <= m < 16 implies s[m] != ':' by {
        assert(is_digit(s[m]));
    }
    assert forall|m: int| 17 <= m < 19 implies s[m] != ':' by {
        assert(is_digit(s[m]));
    }
    lemma_find_sep_at(s, ':', 11, 13, 19);
    lemma_find_sep_at(s, ':', 14, 16, 19);
    lemma_find_sep_at(s, ':', 17, 19, 19);
    assert(piece_range(s, ':', 11, 19, 0) == (11int, 13int));
    assert(piece_range(s, ':', 11, 19, 1) == (14int, 16int)) by {
        assert(piece_range(s, ':', 11, 19, 1) == piece_range(s, ':', 14, 19, 0));
    }
    assert(piece_range(s, ':', 11, 19, 2) == (17int, 19int)) by {
        assert(piece_range(s, ':', 11, 19, 2) == piece_range(s, ':', 14, 19, 1));
        assert(piece_range(s, ':', 14, 19, 1) == piece_range(s, ':', 17, 19, 0));
    }
    lemma_field(s, '-', 0, 10, 0, 0, 4);
    lemma_field(s, '-', 0, 10, 1, 5, 7);
    lemma_field(s, '-', 0, 10, 2, 8, 10);
    lemma_field(s, ':', 11, 19, 0, 11, 13);
    lemma_field(s, ':', 11, 19, 1, 14, 16);
    lemma_field(s, ':', 11, 19, 2, 17, 19);
    assert(timestamp_text(timestamp_of(s)) =~= s);
}

} // verus!
