//! Formatting of the clock's face: time, AM/PM suffix, year and day/month.

use vstd::prelude::*;
use chrono::{Datelike, Timelike};

verus! {

/// Whether hours are shown from 0 to 23 or from 1 to 12.
#[derive(Clone, Copy, Debug, PartialEq, Eq, Structural)]
pub enum HourFormat {
    H24,
    H12,
}

/// Which fields of the time are shown.
#[derive(Clone, Copy, Debug, PartialEq, Eq, Structural)]
pub enum TimeFormat {
    HhMmSs,
    HhMm,
    MmSs,
    IsoTime,
}

/// A local date and time, field by field.
#[derive(Clone, Copy, Debug)]
pub struct LocalTime {
    pub year: i32,
    /// 1 to 12
    pub month: u32,
    /// 1 to 31
    pub day: u32,
    /// 0 to 23
    pub hour: u32,
    /// 0 to 59
    pub minute: u32,
    /// 0 to 59
    pub second: u32,
    /// Seconds since the Unix epoch.
    pub timestamp: i64,
}

impl LocalTime {
    /// Every field is in its calendar range.
    pub open spec fn well_formed(self) -> bool {
        &&& 1 <= self.month <= 12
        &&& 1 <= self.day <= 31
        &&& self.hour < 24
        &&& self.minute < 60
        &&& self.second < 60
    }
}

/// The current local time, read with `chrono::Local::now()` and taken apart
/// with chrono's `Datelike` and `Timelike` accessors.  What is claimed is
/// only the ranges chrono documents for them (month 1-12, day 1-31, hour
/// 0-23, minute and second 0-59); which time it is, the year and the
/// timestamp are left unsaid.
#[verifier::external_body]
fn now_local() -> (t: LocalTime)
    ensures
        t.well_formed(),
{
    let now = chrono::Local::now();
    LocalTime {
        year: now.year(),
        month: now.month(),
        day: now.day(),
        hour: now.hour(),
        minute: now.minute(),
        second: now.second(),
        timestamp: now.timestamp(),
    }
}

/// The decimal digit `d`.
pub open spec fn digit_char(d: int) -> char {
    if d == 0 {
        '0'
    } else if d == 1 {
        '1'
    } else if d == 2 {
        '2'
    } else if d == 3 {
        '3'
    } else if d == 4 {
        '4'
    } else if d == 5 {
        '5'
    } else if d == 6 {
        '6'
    } else if d == 7 {
        '7'
    } else if d == 8 {
        '8'
    } else {
        '9'
    }
}

/// The decimal digits of `n`, without leading zeros.
pub open spec fn decimal(n: nat) -> Seq<char>
    decreases n,
{
    if n < 10 {
        seq![digit_char(n as int)]
    } else {
        decimal(n / 10) + seq![digit_char((n % 10) as int)]
    }
}

/// `n` in decimal, padded with a zero to two digits (`{:02}`).
pub open spec fn pad2(n: nat) -> Seq<char> {
    if n < 10 {
        seq!['0'] + decimal(n)
    } else {
        decimal(n)
    }
}

/// The decimal form of a signed number (`i32::to_string`).
pub open spec fn signed_decimal(n: int) -> Seq<char> {
    if n < 0 {
        seq!['-'] + decimal((-n) as nat)
    } else {
        decimal(n as nat)
    }
}

fn digit(d: u64) -> (c: char)
    requires
        d < 10,
    ensures
        c == digit_char(d as int),
{
    if d == 0 {
        '0'
    } else if d == 1 {
        '1'
    } else if d == 2 {
        '2'
    } else if d == 3 {
        '3'
    } else if d == 4 {
        '4'
    } else if d == 5 {
        '5'
    } else if d == 6 {
        '6'
    } else if d == 7 {
        '7'
    } else if d == 8 {
        '8'
    } else {
        '9'
    }
}

/// Appends the decimal digits of `n` to `s`.
pub fn push_decimal(s: &mut String, n: u64)
    ensures
        final(s)@ == old(s)@ + decimal(n as nat),
    decreases n,
{
    if n >= 10 {
        push_decimal(s, n / 10);
    }
    s.push(digit(n % 10));
}

/// Appends `n` padded with a zero to two digits.
pub fn push_pad2(s: &mut String, n: u32)
    ensures
        final(s)@ == old(s)@ + pad2(n as nat),
{
    if n < 10 {
        s.push('0');
    }
    push_decimal(s, n as u64);
    assert(final(s)@ =~= old(s)@ + pad2(n as nat));
}

/// `n` padded with a zero to two digits.
pub fn two_digit(n: u32) -> (r: String)
    ensures
        r@ == pad2(n as nat),
{
    let mut s = String::new();
    push_pad2(&mut s, n);
    assert(s@ =~= pad2(n as nat));
    s
}

/// The hour as shown: unchanged for a 24-hour clock, 12, 1, ..., 11 for a
/// 12-hour clock.
pub open spec fn shown_hour(hour_format: HourFormat, hour: nat) -> nat {
    match hour_format {
        HourFormat::H24 => hour,
        HourFormat::H12 => if hour % 12 == 0 {
            12
        } else {
            hour % 12
        },
    }
}

/// The hour as shown on the clock.
pub fn display_hour(hour_format: HourFormat, hour: u32) -> (r: u32)
    ensures
        r == shown_hour(hour_format, hour as nat),
{
    match hour_format {
        HourFormat::H24 => hour,
        HourFormat::H12 => {
            let h = hour % 12;
            if h == 0 {
                12
            } else {
                h
            }
        },
    }
}

/// The time text for the given formats, e.g. `09:05:03`.
pub open spec fn time_text(
    hour_format: HourFormat,
    time_format: TimeFormat,
    hour: nat,
    minute: nat,
    second: nat,
) -> Seq<char> {
    let h = pad2(shown_hour(hour_format, hour));
    match time_format {
        TimeFormat::HhMmSs => h + seq![':'] + pad2(minute) + seq![':'] + pad2(second),
        TimeFormat::HhMm => h + seq![':'] + pad2(minute),
        TimeFormat::MmSs => pad2(minute) + seq![':'] + pad2(second),
        TimeFormat::IsoTime => h + seq![':'] + pad2(minute) + seq![':'] + pad2(second),
    }
}

/// The time text of `t`.
pub fn format_time_of(hour_format: HourFormat, time_format: TimeFormat, t: &LocalTime) -> (r:
    String)
    ensures
        r@ == time_text(
            hour_format,
            time_format,
            t.hour as nat,
            t.minute as nat,
            t.second as nat,
        ),
{
    let hour = display_hour(hour_format, t.hour);
    let mut s = String::new();
    match time_format {
        TimeFormat::HhMmSs | TimeFormat::IsoTime => {
            push_pad2(&mut s, hour);
            s.push(':');
            push_pad2(&mut s, t.minute);
            s.push(':');
            push_pad2(&mut s, t.second);
        },
        TimeFormat::HhMm => {
            push_pad2(&mut s, hour);
            s.push(':');
            push_pad2(&mut s, t.minute);
        },
        TimeFormat::MmSs => {
            push_pad2(&mut s, t.minute);
            s.push(':');
            push_pad2(&mut s, t.second);
        },
    }
    assert(s@ =~= time_text(
        hour_format,
        time_format,
        t.hour as nat,
        t.minute as nat,
        t.second as nat,
    ));
    s
}

/// The current local time as text.
pub fn format_time(hour_format: HourFormat, time_format: TimeFormat) -> (r: String)
    ensures
        exists|h: nat, m: nat, s: nat|
            h < 24 && m < 60 && s < 60 && r@ == time_text(hour_format, time_format, h, m, s),
{
    let now = now_local();
    format_time_of(hour_format, time_format, &now)
}

/// `AM` or `PM` for a 12-hour clock, nothing for a 24-hour clock.
pub open spec fn am_pm_text(hour_format: HourFormat, hour: nat) -> Option<Seq<char>> {
    match hour_format {
        HourFormat::H24 => None,
        HourFormat::H12 => if hour >= 12 {
            Some(seq!['P', 'M'])
        } else {
            Some(seq!['A', 'M'])
        },
    }
}

/// The AM/PM suffix for `hour`.
pub fn am_pm_of(hour_format: HourFormat, hour: u32) -> (r: Option<String>)
    ensures
        match r {
            None => am_pm_text(hour_format, hour as nat) is None,
            Some(s) => am_pm_text(hour_format, hour as nat) == Some(s@),
        },
{
    match hour_format {
        HourFormat::H24 => None,
        HourFormat::H12 => {
            let mut s = String::new();
            if hour >= 12 {
                s.push('P');
            } else {
                s.push('A');
            }
            s.push('M');
            assert(s@ =~= am_pm_text(hour_format, hour as nat).unwrap());
            Some(s)
        },
    }
}

/// The AM/PM suffix for the current local hour.
pub fn am_pm_suffix(hour_format: HourFormat) -> (r: Option<String>)
    ensures
        hour_format == HourFormat::H24 ==> r is None,
        hour_format == HourFormat::H12 ==> (r matches Some(s) && (s@ == seq!['A', 'M'] || s@
            == seq!['P', 'M'])),
{
    if let HourFormat::H24 = hour_format {
        return None;
    }
    let now = now_local();
    am_pm_of(hour_format, now.hour)
}

/// `year` in decimal, with a minus sign when it is negative.
pub fn year_text(year: i32) -> (r: String)
    ensures
        r@ == signed_decimal(year as int),
{
    let mut s = String::new();
    if year < 0 {
        s.push('-');
        let m: i64 = -(year as i64);
        push_decimal(&mut s, m as u64);
    } else {
        push_decimal(&mut s, year as u64);
    }
    assert(s@ =~= signed_decimal(year as int));
    s
}

/// The current local year.
pub fn format_year() -> (r: String)
    ensures
        exists|y: int| i32::MIN <= y <= i32::MAX && r@ == signed_decimal(y),
{
    let now = now_local();
    year_text(now.year)
}

/// Three-letter upper-case name of `month` (1 for January); any other
/// number than 1 to 11 reads as December.
pub open spec fn month_name(month: nat) -> Seq<char> {
    if month == 1 {
        seq!['J', 'A', 'N']
    } else if month == 2 {
        seq!['F', 'E', 'B']
    } else if month == 3 {
        seq!['M', 'A', 'R']
    } else if month == 4 {
        seq!['A', 'P', 'R']
    } else if month == 5 {
        seq!['M', 'A', 'Y']
    } else if month == 6 {
        seq!['J', 'U', 'N']
    } else if month == 7 {
        seq!['J', 'U', 'L']
    } else if month == 8 {
        seq!['A', 'U', 'G']
    } else if month == 9 {
        seq!['S', 'E', 'P']
    } else if month == 10 {
        seq!['O', 'C', 'T']
    } else if month == 11 {
        seq!['N', 'O', 'V']
    } else {
        seq!['D', 'E', 'C']
    }
}

fn push_month(s: &mut String, month: u32)
    ensures
        final(s)@ == old(s)@ + month_name(month as nat),
{
    let (a, b, c) = if month == 1 {
        ('J', 'A', 'N')
    } else if month == 2 {
        ('F', 'E', 'B')
    } else if month == 3 {
        ('M', 'A', 'R')
    } else if month == 4 {
        ('A', 'P', 'R')
    } else if month == 5 {
        ('M', 'A', 'Y')
    } else if month == 6 {
        ('J', 'U', 'N')
    } else if month == 7 {
        ('J', 'U', 'L')
    } else if month == 8 {
        ('A', 'U', 'G')
    } else if month == 9 {
        ('S', 'E', 'P')
    } else if month == 10 {
        ('O', 'C', 'T')
    } else if month == 11 {
        ('N', 'O', 'V')
    } else {
        ('D', 'E', 'C')
    };
    s.push(a);
    s.push(b);
    s.push(c);
    assert(final(s)@ =~= old(s)@ + month_name(month as nat));
}

/// The day of the month padded to two digits followed by the month's name,
/// e.g. `07MAR`.
pub open spec fn day_month_text(day: nat, month: nat) -> Seq<char> {
    pad2(day) + month_name(month)
}

/// The day/month text for the given date.
pub fn day_month_of(day: u32, month: u32) -> (r: String)
    ensures
        r@ == day_month_text(day as nat, month as nat),
{
    let mut s = String::new();
    push_pad2(&mut s, day);
    push_month(&mut s, month);
    assert(s@ =~= day_month_text(day as nat, month as nat));
    s
}

/// The current local day and month.
pub fn format_day_month() -> (r: String)
    ensures
        exists|d: nat, m: nat| 1 <= d <= 31 && 1 <= m <= 12 && r@ == day_month_text(d, m),
{
    let now = now_local();
    day_month_of(now.day, now.month)
}

} // verus!

verus! {

/// A number below a hundred pads to exactly its two digits.
pub proof fn lemma_pad2_two_digits(n: nat)
    requires
        n < 100,
    ensures
        pad2(n) == seq![digit_char((n / 10) as int), digit_char((n % 10) as int)],
        pad2(n).len() == 2,
{
    if n < 10 {
        assert(pad2(n) =~= seq![digit_char(0), digit_char(n as int)]);
    } else {
        assert(decimal(n / 10) == seq![digit_char((n / 10) as int)]);
        assert(pad2(n) =~= seq![digit_char((n / 10) as int), digit_char((n % 10) as int)]);
    }
}

/// A 12-hour clock shows hours 1 to 12; a 24-hour clock shows the hour.
pub proof fn lemma_shown_hour(hour_format: HourFormat, hour: nat)
    requires
        hour < 24,
    ensures
        hour_format == HourFormat::H12 ==> 1 <= shown_hour(hour_format, hour) <= 12,
        hour_format == HourFormat::H24 ==> shown_hour(hour_format, hour) == hour,
        shown_hour(hour_format, hour) < 24,
{
}

/// For a valid time the text is `HH:MM:SS` (8 characters) or `HH:MM` /
/// `MM:SS` (5 characters), with the colons in place.
pub proof fn lemma_time_text_shape(
    hour_format: HourFormat,
    time_format: TimeFormat,
    hour: nat,
    minute: nat,
    second: nat,
)
    requires
        hour < 24,
        minute < 60,
        second < 60,
    ensures
        ({
            let t = time_text(hour_format, time_format, hour, minute, second);
            match time_format {
                TimeFormat::HhMm | TimeFormat::MmSs => t.len() == 5 && t[2] == ':',
                _ => t.len() == 8 && t[2] == ':' && t[5] == ':',
            }
        }),
{
    lemma_shown_hour(hour_format, hour);
    lemma_pad2_two_digits(shown_hour(hour_format, hour));
    lemma_pad2_two_digits(minute);
    lemma_pad2_two_digits(second);
}

/// `PM` exactly from noon on.
pub proof fn lemma_am_pm(hour: nat)
    ensures
        am_pm_text(HourFormat::H12, hour) == Some(
            if hour >= 12 {
                seq!['P', 'M']
            } else {
                seq!['A', 'M']
            },
        ),
        am_pm_text(HourFormat::H24, hour) is None,
{
}

/// The twelve month names in calendar order, January first.
pub open spec fn calendar_months() -> Seq<Seq<char>> {
    seq![
        seq!['J', 'A', 'N'],
        seq!['F', 'E', 'B'],
        seq!['M', 'A', 'R'],
        seq!['A', 'P', 'R'],
        seq!['M', 'A', 'Y'],
        seq!['J', 'U', 'N'],
        seq!['J', 'U', 'L'],
        seq!['A', 'U', 'G'],
        seq!['S', 'E', 'P'],
        seq!['O', 'C', 'T'],
        seq!['N', 'O', 'V'],
        seq!['D', 'E', 'C'],
    ]
}

/// Month `m` (1 for January) is shown by the `m`-th name of the calendar,
/// after the day padded to two digits; different months get different
/// names.
pub proof fn lemma_month_names(day: nat, m: nat, other: nat)
    requires
        1 <= m <= 12,
        1 <= other <= 12,
    ensures
        month_name(m) == calendar_months()[m - 1],
        day_month_text(day, m) == pad2(day) + calendar_months()[m - 1],
        m != other ==> month_name(m) != month_name(other),
{
    let cal = calendar_months();
    assert(month_name(m) =~= cal[m - 1]);
    assert(month_name(other) =~= cal[other - 1]);
    if m != other {
        let a = month_name(m);
        let b = month_name(other);
        assert(a[0] != b[0] || a[1] != b[1] || a[2] != b[2]);
    }
}

} // verus!
