//! Minute-precision calendar timestamps: the scheduling unit of a record.
//!
//! A `Stamp` is a plain year/month/day/hour/minute tuple interpreted in one
//! consistent local time reference. The module gives it a validity predicate
//! (real calendar dates, leap years included), a strict ordering used for the
//! "strictly in the future" check, and a fixed `YYYY-MM-DD HH:MM` text form
//! with a verified parse/format round trip.

use vstd::prelude::*;
use vstd::arithmetic::div_mod::lemma_fundamental_div_mod;
use vstd::arithmetic::div_mod::lemma_fundamental_div_mod_converse;
use chrono::Datelike;
use chrono::Timelike;
use crate::errors::ValidationError;
use crate::text::{digit_char_spec, is_digit, digit_val, digit_char, char_digit, chars_of_str};

verus! {

/// A calendar moment with minute precision.
#[derive(Clone, Copy, PartialEq, Eq, Structural, Debug)]
pub struct Stamp {
    pub year: u16,
    pub month: u8,
    pub day: u8,
    pub hour: u8,
    pub minute: u8,
}

pub open spec fn leap_year(y: int) -> bool {
    y % 4 == 0 && (y % 100 != 0 || y % 400 == 0)
}

pub open spec fn days_in_month(y: int, m: int) -> int {
    if m == 2 {
        if leap_year(y) {
            29
        } else {
            28
        }
    } else if m == 4 || m == 6 || m == 9 || m == 11 {
        30
    } else {
        31
    }
}

/// Strict chronological order on stamps: lexicographic on the fields from
/// year down to minute.
pub open spec fn stamp_lt(a: Stamp, b: Stamp) -> bool {
    a.year < b.year || (a.year == b.year && (a.month < b.month || (a.month == b.month && (a.day
        < b.day || (a.day == b.day && (a.hour < b.hour || (a.hour == b.hour && a.minute
        < b.minute)))))))
}

/// The fixed 16-character `YYYY-MM-DD HH:MM` rendering of a stamp.
pub open spec fn stamp_text(st: Stamp) -> Seq<char> {
    seq![
        digit_char_spec(st.year as int / 1000),
        digit_char_spec((st.year as int / 100) % 10),
        digit_char_spec((st.year as int / 10) % 10),
        digit_char_spec(st.year as int % 10),
        '-',
        digit_char_spec(st.month as int / 10),
        digit_char_spec(st.month as int % 10),
        '-',
        digit_char_spec(st.day as int / 10),
        digit_char_spec(st.day as int % 10),
        ' ',
        digit_char_spec(st.hour as int / 10),
        digit_char_spec(st.hour as int % 10),
        ':',
        digit_char_spec(st.minute as int / 10),
        digit_char_spec(st.minute as int % 10),
    ]
}

/// Spec-level parser for the fixed 16-character stamp text: accepts exactly
/// well-formed stamps written as `YYYY-MM-DD HH:MM`.
pub open spec fn pstamp_chars(s: Seq<char>) -> Option<Stamp> {
    if s.len() == 16 && is_digit(s[0]) && is_digit(s[1]) && is_digit(s[2]) && is_digit(s[3]) && s[4]
        == '-' && is_digit(s[5]) && is_digit(s[6]) && s[7] == '-' && is_digit(s[8]) && is_digit(
        s[9],
    ) && s[10] == ' ' && is_digit(s[11]) && is_digit(s[12]) && s[13] == ':' && is_digit(s[14])
        && is_digit(s[15]) {
        let st = Stamp {
            year: (1000 * digit_val(s[0]) + 100 * digit_val(s[1]) + 10 * digit_val(s[2])
                + digit_val(s[3])) as u16,
            month: (10 * digit_val(s[5]) + digit_val(s[6])) as u8,
            day: (10 * digit_val(s[8]) + digit_val(s[9])) as u8,
            hour: (10 * digit_val(s[11]) + digit_val(s[12])) as u8,
            minute: (10 * digit_val(s[14]) + digit_val(s[15])) as u8,
        };
        if st.wf() {
            Some(st)
        } else {
            None
        }
    } else {
        None
    }
}

impl Stamp {
    /// A stamp is well formed when it names a real calendar moment with a
    /// four-digit year.
    pub open spec fn wf(self) -> bool {
        self.year <= 9999 && 1 <= self.month <= 12 && 1 <= self.day && self.day as int
            <= days_in_month(self.year as int, self.month as int) && self.hour < 24 && self.minute
            < 60
    }

    /// Builds a stamp from raw fields, accepting exactly the well-formed ones.
    pub fn from_fields(year: u16, month: u8, day: u8, hour: u8, minute: u8) -> (r: Option<Stamp>)
        ensures
            match r {
                Some(st) => st == (Stamp { year, month, day, hour, minute }) && st.wf(),
                None => !(Stamp { year, month, day, hour, minute }).wf(),
            },
    {
        let st = Stamp { year, month, day, hour, minute };
        if st.wf_exec() {
            Some(st)
        } else {
            None
        }
    }

    /// Runtime check of `wf`.
    pub fn wf_exec(&self) -> (b: bool)
        ensures
            b == self.wf(),
    {
        self.year <= 9999 && 1 <= self.month && self.month <= 12 && 1 <= self.day && self.day
            <= days_in_month_x(self.year, self.month) && self.hour < 24 && self.minute < 60
    }

    /// Strictly-before test used for the "in the future" validation.
    pub fn is_before(&self, other: &Stamp) -> (r: bool)
        ensures
            r == stamp_lt(*self, *other),
    {
        if self.year != other.year {
            self.year < other.year
        } else if self.month != other.month {
            self.month < other.month
        } else if self.day != other.day {
            self.day < other.day
        } else if self.hour != other.hour {
            self.hour < other.hour
        } else {
            self.minute < other.minute
        }
    }

    /// Renders the stamp as `YYYY-MM-DD HH:MM`.
    pub fn format(&self) -> (r: String)
        requires
            self.wf(),
        ensures
            r@ == stamp_text(*self),
    {
        proof {
            lemma_four_digit_decompose(self.year as int);
            lemma_two_digit_decompose(self.month as int);
            lemma_two_digit_decompose(self.day as int);
            lemma_two_digit_decompose(self.hour as int);
            lemma_two_digit_decompose(self.minute as int);
        }
        let mut out: Vec<char> = Vec::new();
        out.push(digit_char((self.year / 1000) as u8));
        out.push(digit_char(((self.year / 100) % 10) as u8));
        out.push(digit_char(((self.year / 10) % 10) as u8));
        out.push(digit_char((self.year % 10) as u8));
        out.push('-');
        out.push(digit_char(self.month / 10));
        out.push(digit_char(self.month % 10));
        out.push('-');
        out.push(digit_char(self.day / 10));
        out.push(digit_char(self.day % 10));
        out.push(' ');
        out.push(digit_char(self.hour / 10));
        out.push(digit_char(self.hour % 10));
        out.push(':');
        out.push(digit_char(self.minute / 10));
        out.push(digit_char(self.minute % 10));
        proof {
            assert(out@ =~= stamp_text(*self));
        }
        crate::text::string_of_chars(&out)
    }
}

/// Number of days in the given month, leap years included.
pub fn days_in_month_x(y: u16, m: u8) -> (d: u8)
    ensures
        d as int == days_in_month(y as int, m as int),
{
    if m == 2 {
        if y % 4 == 0 && (y % 100 != 0 || y % 400 == 0) {
            29
        } else {
            28
        }
    } else if m == 4 || m == 6 || m == 9 || m == 11 {
        30
    } else {
        31
    }
}

/// Round trip of one digit through its character.
proof fn lemma_digit_round(v: int)
    requires
        0 <= v < 10,
    ensures
        is_digit(digit_char_spec(v)),
        digit_val(digit_char_spec(v)) == v,
{
}

/// Round trip of one digit character through its value.
proof fn lemma_digit_char_of_val(c: char)
    requires
        is_digit(c),
    ensures
        0 <= digit_val(c) < 10,
        digit_char_spec(digit_val(c)) == c,
{
}

/// A two-digit number splits into digits that recombine to it.
proof fn lemma_two_digit_decompose(n: int)
    requires
        0 <= n <= 99,
    ensures
        0 <= n / 10 < 10,
        0 <= n % 10 < 10,
        n == 10 * (n / 10) + n % 10,
{
    lemma_fundamental_div_mod(n, 10);
    vstd::arithmetic::div_mod::lemma_mod_bound(n, 10);
}

/// A four-digit number splits into digits that recombine to it.
proof fn lemma_four_digit_decompose(y: int)
    requires
        0 <= y <= 9999,
    ensures
        0 <= y / 1000 < 10,
        0 <= (y / 100) % 10 < 10,
        0 <= (y / 10) % 10 < 10,
        0 <= y % 10 < 10,
        y == 1000 * (y / 1000) + 100 * ((y / 100) % 10) + 10 * ((y / 10) % 10) + y % 10,
{
    let a = y / 1000;
    let r3 = y % 1000;
    lemma_fundamental_div_mod(y, 1000);
    vstd::arithmetic::div_mod::lemma_mod_bound(y, 1000);
    let b = r3 / 100;
    let r2 = r3 % 100;
    lemma_fundamental_div_mod(r3, 100);
    vstd::arithmetic::div_mod::lemma_mod_bound(r3, 100);
    let c = r2 / 10;
    let r1 = r2 % 10;
    lemma_fundamental_div_mod(r2, 10);
    vstd::arithmetic::div_mod::lemma_mod_bound(r2, 10);
    lemma_fundamental_div_mod_converse(y, 100, 10 * a + b, r2);
    lemma_fundamental_div_mod_converse(10 * a + b, 10, a, b);
    lemma_fundamental_div_mod_converse(y, 10, 100 * a + 10 * b + c, r1);
    lemma_fundamental_div_mod_converse(100 * a + 10 * b + c, 10, 10 * a + b, c);
}

/// The digits of a two-digit group recombine to its value.
proof fn lemma_two_digit_parts(a: int, b: int)
    requires
        0 <= a < 10,
        0 <= b < 10,
    ensures
        (10 * a + b) / 10 == a,
        (10 * a + b) % 10 == b,
{
    lemma_fundamental_div_mod_converse(10 * a + b, 10, a, b);
}

/// The digits of a four-digit group recombine to its value.
proof fn lemma_four_digit_parts(a: int, b: int, c: int, d: int)
    requires
        0 <= a < 10,
        0 <= b < 10,
        0 <= c < 10,
        0 <= d < 10,
    ensures
        (1000 * a + 100 * b + 10 * c + d) / 1000 == a,
        ((1000 * a + 100 * b + 10 * c + d) / 100) % 10 == b,
        ((1000 * a + 100 * b + 10 * c + d) / 10) % 10 == c,
        (1000 * a + 100 * b + 10 * c + d) % 10 == d,
{
    let n = 1000 * a + 100 * b + 10 * c + d;
    lemma_fundamental_div_mod_converse(n, 1000, a, 100 * b + 10 * c + d);
    lemma_fundamental_div_mod_converse(n, 100, 10 * a + b, 10 * c + d);
    lemma_fundamental_div_mod_converse(n, 10, 100 * a + 10 * b + c, d);
    lemma_two_digit_parts(a, b);
    lemma_fundamental_div_mod_converse(100 * a + 10 * b + c, 10, 10 * a + b, c);
}

/// Parsing inverts rendering: the text of a well-formed stamp parses back to
/// exactly that stamp.
pub proof fn lemma_pstamp_round(st: Stamp)
    requires
        st.wf(),
    ensures
        pstamp_chars(stamp_text(st)) == Some(st),
{
    let s = stamp_text(st);
    let y = st.year as int;
    let mo = st.month as int;
    let d = st.day as int;
    let h = st.hour as int;
    let mi = st.minute as int;
    lemma_four_digit_decompose(y);
    lemma_two_digit_decompose(mo);
    lemma_two_digit_decompose(d);
    lemma_two_digit_decompose(h);
    lemma_two_digit_decompose(mi);
    lemma_digit_round(y / 1000);
    lemma_digit_round((y / 100) % 10);
    lemma_digit_round((y / 10) % 10);
    lemma_digit_round(y % 10);
    lemma_digit_round(mo / 10);
    lemma_digit_round(mo % 10);
    lemma_digit_round(d / 10);
    lemma_digit_round(d % 10);
    lemma_digit_round(h / 10);
    lemma_digit_round(h % 10);
    lemma_digit_round(mi / 10);
    lemma_digit_round(mi % 10);
    assert(pstamp_chars(s) == Some(st));
}

/// Rendering inverts parsing: a text accepted by the stamp parser is the
/// rendering of the (well-formed) stamp it yields.
pub proof fn lemma_pstamp_sound(s: Seq<char>)
    requires
        pstamp_chars(s) is Some,
    ensures
        pstamp_chars(s)->Some_0.wf(),
        s == stamp_text(pstamp_chars(s)->Some_0),
{
    let st = pstamp_chars(s)->Some_0;
    lemma_digit_char_of_val(s[0]);
    lemma_digit_char_of_val(s[1]);
    lemma_digit_char_of_val(s[2]);
    lemma_digit_char_of_val(s[3]);
    lemma_digit_char_of_val(s[5]);
    lemma_digit_char_of_val(s[6]);
    lemma_digit_char_of_val(s[8]);
    lemma_digit_char_of_val(s[9]);
    lemma_digit_char_of_val(s[11]);
    lemma_digit_char_of_val(s[12]);
    lemma_digit_char_of_val(s[14]);
    lemma_digit_char_of_val(s[15]);
    lemma_four_digit_parts(digit_val(s[0]), digit_val(s[1]), digit_val(s[2]), digit_val(s[3]));
    lemma_two_digit_parts(digit_val(s[5]), digit_val(s[6]));
    lemma_two_digit_parts(digit_val(s[8]), digit_val(s[9]));
    lemma_two_digit_parts(digit_val(s[11]), digit_val(s[12]));
    lemma_two_digit_parts(digit_val(s[14]), digit_val(s[15]));
    assert(s =~= stamp_text(st));
}

/// Exec parser for a 16-character window holding `YYYY-MM-DD HH:MM`,
/// matching the spec parser exactly.
pub(crate) fn xstamp16(cs: &Vec<char>, i: usize) -> (r: Option<Stamp>)
    requires
        i + 16 <= cs@.len(),
    ensures
        r == pstamp_chars(cs@.subrange(i as int, i + 16)),
{
    let n: usize = cs.len();
    let ghost w = cs@.subrange(i as int, i + 16);
    let d0 = char_digit(cs[i]);
    let d1 = char_digit(cs[i + 1]);
    let d2 = char_digit(cs[i + 2]);
    let d3 = char_digit(cs[i + 3]);
    let d5 = char_digit(cs[i + 5]);
    let d6 = char_digit(cs[i + 6]);
    let d8 = char_digit(cs[i + 8]);
    let d9 = char_digit(cs[i + 9]);
    let d11 = char_digit(cs[i + 11]);
    let d12 = char_digit(cs[i + 12]);
    let d14 = char_digit(cs[i + 14]);
    let d15 = char_digit(cs[i + 15]);
    if d0.is_some() && d1.is_some() && d2.is_some() && d3.is_some() && cs[i + 4] == '-'
        && d5.is_some() && d6.is_some() && cs[i + 7] == '-' && d8.is_some() && d9.is_some() && cs[i
        + 10] == ' ' && d11.is_some() && d12.is_some() && cs[i + 13] == ':' && d14.is_some()
        && d15.is_some() {
        let year: u16 = 1000 * (d0.unwrap() as u16) + 100 * (d1.unwrap() as u16) + 10 * (d2.unwrap()
            as u16) + (d3.unwrap() as u16);
        let month: u8 = 10 * d5.unwrap() + d6.unwrap();
        let day: u8 = 10 * d8.unwrap() + d9.unwrap();
        let hour: u8 = 10 * d11.unwrap() + d12.unwrap();
        let minute: u8 = 10 * d14.unwrap() + d15.unwrap();
        let st = Stamp { year, month, day, hour, minute };
        if st.wf_exec() {
            Some(st)
        } else {
            None
        }
    } else {
        None
    }
}

/// Relies on `std::time::SystemTime::now` and `duration_since` for the
/// seconds since the Unix epoch, and on chrono for the local calendar view
/// of that instant: `DateTime::from_timestamp` returns `None` outside the
/// representable range, `with_timezone(&Local)` reinterprets the same
/// instant in the local zone, and the `Datelike`/`Timelike` accessors
/// document month as 1..=12, day as 1..=31, hour below 24 and minute below
/// 60. A clock before the epoch or beyond chrono's range yields `None`
/// rather than a fault; the year is an unconstrained `i32`.
#[verifier::external_body]
fn local_now_fields() -> (r: Option<(i32, u32, u32, u32, u32)>)
    ensures
        r is Some ==> 1 <= r->Some_0.1 <= 12 && 1 <= r->Some_0.2 <= 31 && r->Some_0.3 < 24
            && r->Some_0.4 < 60,
{
    let since_epoch = std::time::SystemTime::now().duration_since(std::time::UNIX_EPOCH).ok()?;
    let secs = i64::try_from(since_epoch.as_secs()).ok()?;
    let utc = chrono::DateTime::from_timestamp(secs, 0)?;
    let local = utc.with_timezone(&chrono::Local);
    Some((local.year(), local.month(), local.day(), local.hour(), local.minute()))
}

/// Decides the whole clock-to-stamp validation: raw calendar fields are
/// accepted exactly when the year is representable and the fields name a
/// real calendar moment.
pub fn stamp_of_clock_fields(y: i32, mo: u32, d: u32, h: u32, mi: u32) -> (r: Option<Stamp>)
    ensures
        r is Some <==> (0 <= y <= 9999 && 1 <= mo <= 12 && 1 <= d && d as int <= days_in_month(
            y as int,
            mo as int,
        ) && h < 24 && mi < 60),
        r is Some ==> r->Some_0 == (Stamp {
            year: y as u16,
            month: mo as u8,
            day: d as u8,
            hour: h as u8,
            minute: mi as u8,
        }) && r->Some_0.wf(),
{
    if y < 0 || y > 9999 {
        return None;
    }
    if mo < 1 || mo > 12 || d < 1 || d > 31 || h > 23 || mi > 59 {
        return None;
    }
    Stamp::from_fields(y as u16, mo as u8, d as u8, h as u8, mi as u8)
}

/// The current local wall-clock moment, validated into a well-formed stamp;
/// `None` when the clock cannot be read as one (before the Unix epoch, or
/// outside the representable years 0..=9999).
pub fn current_stamp() -> (r: Option<Stamp>)
    ensures
        r is Some ==> r->Some_0.wf(),
{
    match local_now_fields() {
        None => None,
        Some((y, mo, d, h, mi)) => stamp_of_clock_fields(y, mo, d, h, mi),
    }
}

/// Parses a schedule entered as `YYYY-MM-DD HH:MM`. Succeeds exactly on the
/// rendering of a well-formed stamp; anything else is a format failure
/// (distinct from the "not in the future" rejection).
pub fn parse_stamp(s: &str) -> (r: Result<Stamp, ValidationError>)
    ensures
        match r {
            Ok(st) => st.wf() && s@ == stamp_text(st),
            Err(e) => e == ValidationError::BadFormat && forall|st: Stamp|
                st.wf() ==> s@ != stamp_text(st),
        },
{
    let cs = chars_of_str(s);
    if cs.len() != 16 {
        proof {
            assert forall|st: Stamp| st.wf() implies s@ != stamp_text(st) by {
                if s@ == stamp_text(st) {
                    lemma_pstamp_round(st);
                }
            }
        }
        return Err(ValidationError::BadFormat);
    }
    proof {
        assert(cs@.subrange(0, 16) =~= s@);
    }
    match xstamp16(&cs, 0) {
        Some(st) => {
            proof {
                lemma_pstamp_sound(s@);
            }
            Ok(st)
        },
        None => {
            proof {
                assert forall|st: Stamp| st.wf() implies s@ != stamp_text(st) by {
                    if s@ == stamp_text(st) {
                        lemma_pstamp_round(st);
                    }
                }
            }
            Err(ValidationError::BadFormat)
        },
    }
}

} // verus!
