//! Instants and calendar dates.

use vstd::prelude::*;

use crate::imap_client::query::lemma_decimal_reads_back;
use crate::text::copy_of;
use crate::text::decimal;
use crate::text::digits_value;
use crate::text::opt_text;
use crate::text::padded;
use crate::text::padded_string;

verus! {

/// The year, month, day, hour, minute and second of a Unix second at an offset
/// from UTC, in seconds.
pub uninterp spec fn civil_at(second: i64, offset: i32) -> Option<(i16, i8, i8, i8, i8, i8)>;

/// The calendar fields in UTC of a Unix second.
pub open spec fn utc_civil(second: i64) -> Option<(i16, i8, i8, i8, i8, i8)> {
    civil_at(second, 0)
}

/// A year, month, day, hour, minute and second within their calendar ranges.
pub open spec fn civil_in_range(c: (i16, i8, i8, i8, i8, i8)) -> bool {
    &&& -9999 <= c.0 <= 9999
    &&& 1 <= c.1 <= 12
    &&& 1 <= c.2 <= 31
    &&& 0 <= c.3 <= 23
    &&& 0 <= c.4 <= 59
    &&& 0 <= c.5 <= 59
}

/// `jiff::Timestamp::to_zoned` at a constant offset: the calendar fields of a
/// Unix second, each within its calendar range, or nothing where jiff does not
/// support the second or the offset. The fields depend on these two alone.
#[verifier::external_body]
pub(crate) fn civil_fields_at(second: i64, offset: i32) -> (c: Option<(i16, i8, i8, i8, i8, i8)>)
    ensures
        c == civil_at(second, offset),
        c is Some ==> civil_in_range(c->0),
{
    let zone = jiff::tz::TimeZone::fixed(jiff::tz::Offset::from_seconds(offset).ok()?);
    let z = jiff::Timestamp::from_second(second).ok()?.to_zoned(zone);
    Some((z.year(), z.month(), z.day(), z.hour(), z.minute(), z.second()))
}

/// A year in four places; a year before zero has a minus sign in the first.
pub open spec fn year_text(year: int) -> Seq<char> {
    if year >= 0 {
        padded(year as nat, 4)
    } else {
        "-"@ + padded((-year) as nat, 3)
    }
}

/// Computes [`year_text`].
pub fn year_string(year: i16) -> (out: String)
    ensures
        out@ == year_text(year as int),
{
    if year >= 0 {
        padded_string(year as u64, 4)
    } else {
        let mut out = copy_of("-");
        let magnitude: i32 = -(year as i32);
        let digits = padded_string(magnitude as u64, 3);
        out.append(digits.as_str());
        out
    }
}

/// A date and a time of day in the form `YYYY-MM-DDTHH:MM:SS`.
pub open spec fn stamp_text(
    year: Seq<char>,
    month: nat,
    day: nat,
    hour: nat,
    minute: nat,
    second: nat,
) -> Seq<char> {
    year + "-"@ + padded(month, 2) + "-"@ + padded(day, 2) + "T"@ + padded(hour, 2) + ":"@ + padded(
        minute,
        2,
    ) + ":"@ + padded(second, 2)
}

/// Computes [`stamp_text`].
pub fn stamp_string(year: &str, month: u8, day: u8, hour: u8, minute: u8, second: u8) -> (out:
    String)
    ensures
        out@ == stamp_text(
            year@,
            month as nat,
            day as nat,
            hour as nat,
            minute as nat,
            second as nat,
        ),
{
    let mut out = copy_of(year);
    out.append("-");
    let t = padded_string(month as u64, 2);
    out.append(t.as_str());
    out.append("-");
    let t = padded_string(day as u64, 2);
    out.append(t.as_str());
    out.append("T");
    let t = padded_string(hour as u64, 2);
    out.append(t.as_str());
    out.append(":");
    let t = padded_string(minute as u64, 2);
    out.append(t.as_str());
    out.append(":");
    let t = padded_string(second as u64, 2);
    out.append(t.as_str());
    out
}

/// Calendar fields in UTC in the form `YYYY-MM-DDTHH:MM:SSZ`.
pub open spec fn utc_iso(c: (i16, i8, i8, i8, i8, i8)) -> Seq<char> {
    stamp_text(
        year_text(c.0 as int),
        c.1 as nat,
        c.2 as nat,
        c.3 as nat,
        c.4 as nat,
        c.5 as nat,
    ) + "Z"@
}

proof fn lemma_leading_zeros(k: nat, t: Seq<char>)
    ensures
        digits_value(Seq::new(k, |i: int| '0') + t, 10) == digits_value(t, 10),
    decreases k + t.len(),
{
    let zeros = Seq::new(k, |i: int| '0');
    let s = zeros + t;
    if t.len() > 0 {
        lemma_leading_zeros(k, t.drop_last());
        assert(s.drop_last() =~= zeros + t.drop_last());
        assert(s.last() == t.last());
    } else if k > 0 {
        let fewer = Seq::new((k - 1) as nat, |i: int| '0');
        lemma_leading_zeros((k - 1) as nat, t);
        assert(s.drop_last() =~= fewer + t);
        assert(s.last() == '0');
    } else {
        assert(s =~= t);
    }
}

/// A number in places of its own reads back.
pub proof fn lemma_padded_reads_back(n: nat, width: nat)
    ensures
        digits_value(padded(n, width), 10) == Some(n),
        n < 100 && width == 2 ==> padded(n, width).len() == 2,
        n < 10000 && width == 4 ==> padded(n, width).len() == 4,
        forall|i: int| 0 <= i < padded(n, width).len() ==> '0' <= #[trigger] padded(n, width)[i] <= '9',
{
    lemma_decimal_reads_back(n);
    reveal_with_fuel(decimal, 5);
    if decimal(n).len() < width {
        lemma_leading_zeros((width - decimal(n).len()) as nat, decimal(n));
        let p = padded(n, width);
        let k = width - decimal(n).len();
        assert forall|i: int| 0 <= i < p.len() implies '0' <= #[trigger] p[i] <= '9' by {
            if i >= k {
                assert(p[i] == decimal(n)[i - k]);
            }
        }
    }
}

/// A stamp reads back: its year, and the numbers of its month, day, hour, minute
/// and second stand in their own places.
pub proof fn stamps_tell_their_fields(
    year: Seq<char>,
    month: nat,
    day: nat,
    hour: nat,
    minute: nat,
    second: nat,
)
    requires
        year.len() == 4,
        month < 100 && day < 100 && hour < 100 && minute < 100 && second < 100,
    ensures
        ({
            let s = stamp_text(year, month, day, hour, minute, second);
            &&& s.len() == 19
            &&& s.subrange(0, 4) == year && s[4] == '-'
            &&& digits_value(s.subrange(5, 7), 10) == Some(month) && s[7] == '-'
            &&& digits_value(s.subrange(8, 10), 10) == Some(day) && s[10] == 'T'
            &&& digits_value(s.subrange(11, 13), 10) == Some(hour) && s[13] == ':'
            &&& digits_value(s.subrange(14, 16), 10) == Some(minute) && s[16] == ':'
            &&& digits_value(s.subrange(17, 19), 10) == Some(second)
        }),
{
    reveal_strlit("-");
    reveal_strlit("T");
    reveal_strlit(":");
    let s = stamp_text(year, month, day, hour, minute, second);
    lemma_padded_reads_back(month, 2);
    lemma_padded_reads_back(day, 2);
    lemma_padded_reads_back(hour, 2);
    lemma_padded_reads_back(minute, 2);
    lemma_padded_reads_back(second, 2);
    assert("-"@.len() == 1 && "T"@.len() == 1 && ":"@.len() == 1);
    assert(s.subrange(0, 4) =~= year);
    assert(s.subrange(5, 7) =~= padded(month, 2));
    assert(s.subrange(8, 10) =~= padded(day, 2));
    assert(s.subrange(11, 13) =~= padded(hour, 2));
    assert(s.subrange(14, 16) =~= padded(minute, 2));
    assert(s.subrange(17, 19) =~= padded(second, 2));
}

/// A Unix second as `YYYY-MM-DDTHH:MM:SSZ`.
pub fn unix_to_utc_iso(second: i64) -> (out: Option<String>)
    ensures
        opt_text(out) == match utc_civil(second) {
            Some(c) => Some(utc_iso(c)),
            None => None,
        },
{
    match civil_fields_at(second, 0) {
        Some(c) => {
            let year = year_string(c.0);
            let mut out = stamp_string(
                year.as_str(),
                c.1 as u8,
                c.2 as u8,
                c.3 as u8,
                c.4 as u8,
                c.5 as u8,
            );
            out.append("Z");
            Some(out)
        },
        None => None,
    }
}

// ---------------------------------------------------------------------------
// Reading dates and times
// ---------------------------------------------------------------------------

/// The Unix second of a text `YYYY-MM-DDTHH:MM:SS±HH:MM`.
pub uninterp spec fn stamp_second(text: Seq<char>) -> Option<i64>;

/// `jiff::Timestamp::strptime` with the format `%Y-%m-%dT%H:%M:%S%:z`: the Unix
/// second that a text with an offset stands for, or nothing where it does not
/// follow the format; which depends on the text alone.
#[verifier::external_body]
pub(crate) fn stamp_second_of(text: &str) -> (second: Option<i64>)
    ensures
        second == stamp_second(text@),
{
    jiff::Timestamp::strptime("%Y-%m-%dT%H:%M:%S%:z", text).ok().map(|t| t.as_second())
}

/// What a date and time of day without an offset stands for in a time zone.
#[derive(Clone, Copy, Debug, PartialEq, Eq, Structural)]
pub enum LocalTime {
    /// The text is no date with a time of day.
    Unparseable,
    /// The zone has no such time.
    NoSuchTime,
    /// The Unix second.
    At(i64),
}

/// The time zone that a time without an offset is meant in.
#[derive(Clone, Copy, Debug, PartialEq, Eq, Structural)]
pub enum Zone {
    /// A constant offset from UTC, in seconds.
    Fixed(i32),
    /// The zone of this machine.
    Local,
}

/// The calendar fields of a text `YYYY-MM-DDTHH:MM:SS`.
pub uninterp spec fn civil_text(stem: Seq<char>) -> Option<(i16, i8, i8, i8, i8, i8)>;

/// `jiff::civil::DateTime::strptime` with the format `%Y-%m-%dT%H:%M:%S`: the
/// calendar fields that a text stands for, or nothing where it does not follow
/// the format; which depends on the text alone.
#[verifier::external_body]
fn civil_of_text(stem: &str) -> (c: Option<(i16, i8, i8, i8, i8, i8)>)
    ensures
        c == civil_text(stem@),
{
    let c = jiff::civil::DateTime::strptime("%Y-%m-%dT%H:%M:%S", stem).ok()?;
    Some((c.year(), c.month(), c.day(), c.hour(), c.minute(), c.second()))
}

/// The Unix second of calendar fields at a constant offset.
pub uninterp spec fn fixed_second(c: (i16, i8, i8, i8, i8, i8), offset: i32) -> Option<i64>;

/// `jiff::civil::DateTime::to_zoned` at a constant offset: the Unix second of
/// calendar fields, or nothing where they are no date and time, or jiff does not
/// support the offset or the second; which depends on these alone.
#[verifier::external_body]
fn fixed_second_of(c: (i16, i8, i8, i8, i8, i8), offset: i32) -> (second: Option<i64>)
    ensures
        second == fixed_second(c, offset),
{
    let civil = jiff::civil::DateTime::new(c.0, c.1, c.2, c.3, c.4, c.5, 0).ok()?;
    let zone = jiff::tz::TimeZone::fixed(jiff::tz::Offset::from_seconds(offset).ok()?);
    Some(civil.to_zoned(zone).ok()?.timestamp().as_second())
}

/// `jiff::civil::DateTime::to_zoned` in `jiff::tz::TimeZone::system`: the Unix
/// second of calendar fields in the zone of the machine. jiff takes a time that
/// a zone skips or repeats at the offset before the change, so that every date
/// and time has a second, but for the first and the last year that it supports.
/// The second lies within 26 hours of the one in UTC. Which it is depends on
/// the machine and is not stated.
#[verifier::external_body]
fn system_second_of(c: (i16, i8, i8, i8, i8, i8)) -> (second: Option<i64>)
    ensures
        -9998 <= c.0 <= 9998 && fixed_second(c, 0) is Some ==> second is Some,
        match (second, fixed_second(c, 0)) {
            (Some(s), Some(utc)) => -93_600 < utc - s < 93_600,
            _ => true,
        },
{
    let civil = jiff::civil::DateTime::new(c.0, c.1, c.2, c.3, c.4, c.5, 0).ok()?;
    Some(civil.to_zoned(jiff::tz::TimeZone::system()).ok()?.timestamp().as_second())
}

/// What a text stands for, given the second that its calendar fields are in a
/// zone.
pub open spec fn local_time(
    c: Option<(i16, i8, i8, i8, i8, i8)>,
    second: Option<i64>,
) -> LocalTime {
    match (c, second) {
        (None, _) => LocalTime::Unparseable,
        (Some(_), None) => LocalTime::NoSuchTime,
        (Some(_), Some(s)) => LocalTime::At(s),
    }
}

/// What a text `YYYY-MM-DDTHH:MM:SS` stands for at a constant offset.
pub open spec fn fixed_zone_time(stem: Seq<char>, offset: i32) -> LocalTime {
    match civil_text(stem) {
        Some(c) => local_time(Some(c), fixed_second(c, offset)),
        None => LocalTime::Unparseable,
    }
}

/// What a text `YYYY-MM-DDTHH:MM:SS` can stand for in the zone of a machine: a
/// text that is a date with a time of day has a second there, within 26 hours of
/// the one in UTC, unless its year is at the end of what is supported.
pub open spec fn is_machine_time(stem: Seq<char>, t: LocalTime) -> bool {
    match civil_text(stem) {
        None => t is Unparseable,
        Some(c) => {
            &&& !(t is Unparseable)
            &&& -9998 <= c.0 <= 9998 && fixed_second(c, 0) is Some ==> t is At
            &&& match (t, fixed_second(c, 0)) {
                (LocalTime::At(s), Some(utc)) => -93_600 < utc - s < 93_600,
                _ => true,
            }
        },
    }
}

/// What a text can stand for in a zone.
pub open spec fn is_zone_time(stem: Seq<char>, zone: Zone, t: LocalTime) -> bool {
    match zone {
        Zone::Fixed(offset) => t == fixed_zone_time(stem, offset),
        Zone::Local => is_machine_time(stem, t),
    }
}

/// What a text stands for in a zone.
pub fn zone_time(stem: &str, zone: Zone) -> (t: LocalTime)
    ensures
        is_zone_time(stem@, zone, t),
        zone is Local ==> (t is Unparseable <==> civil_text(stem@) is None),
{
    let c = match civil_of_text(stem) {
        Some(c) => c,
        None => {
            return LocalTime::Unparseable;
        },
    };
    let second = match zone {
        Zone::Fixed(offset) => fixed_second_of(c, offset),
        Zone::Local => system_second_of(c),
    };
    match second {
        Some(s) => LocalTime::At(s),
        None => LocalTime::NoSuchTime,
    }
}

/// `jiff::tz::TimeZone::system`'s offset from UTC at a Unix second, in seconds;
/// nothing for a second that jiff does not support. jiff's offsets lie within 26
/// hours of UTC; which one it is depends on the zone of the machine.
#[verifier::external_body]
fn system_offset_at(second: i64) -> (offset: Option<i32>)
    ensures
        offset matches Some(o) ==> -93_600 < o < 93_600,
{
    let t = jiff::Timestamp::from_second(second).ok()?;
    Some(jiff::tz::TimeZone::system().to_offset(t).seconds())
}

/// An offset that a zone may have: the constant one, or one within 26 hours of
/// UTC.
pub open spec fn of_zone(zone: Zone, offset: i32) -> bool {
    match zone {
        Zone::Fixed(o) => offset == o,
        Zone::Local => -93_600 < offset < 93_600,
    }
}

/// The offset of a zone from UTC at a Unix second.
pub fn zone_offset(second: i64, zone: Zone) -> (offset: i32)
    ensures
        of_zone(zone, offset),
{
    match zone {
        Zone::Fixed(o) => o,
        Zone::Local => match system_offset_at(second) {
            Some(o) => o,
            None => 0,
        },
    }
}

/// A leap year of the Gregorian calendar, which is taken to reach back
/// indefinitely.
pub open spec fn is_leap(year: int) -> bool {
    year % 4 == 0 && (year % 100 != 0 || year % 400 == 0)
}

/// The number of days of a month.
pub open spec fn month_days(year: int, month: int) -> int {
    if month == 2 {
        if is_leap(year) {
            29
        } else {
            28
        }
    } else if month == 4 || month == 6 || month == 9 || month == 11 {
        30
    } else {
        31
    }
}

/// A day of the calendar, in the years that are supported.
pub open spec fn is_calendar_day(year: int, month: int, day: int) -> bool {
    -9999 <= year <= 9999 && 1 <= month <= 12 && 1 <= day <= month_days(year, month)
}

/// The day before a day; nothing where the day is none, or the first one.
pub open spec fn day_before(year: i16, month: i8, day: i8) -> Option<(i16, i8, i8)> {
    if !is_calendar_day(year as int, month as int, day as int) {
        None
    } else if day > 1 {
        Some((year, month, (day - 1) as i8))
    } else if month > 1 {
        Some((year, (month - 1) as i8, month_days(year as int, month - 1) as i8))
    } else if year > -9999 {
        Some(((year - 1) as i16, 12, 31))
    } else {
        None
    }
}

/// `jiff::civil::Date::yesterday`: the day before a day, or nothing where the
/// day is none or the first that jiff supports.
#[verifier::external_body]
fn day_before_of(year: i16, month: i8, day: i8) -> (d: Option<(i16, i8, i8)>)
    ensures
        d == day_before(year, month, day),
{
    let d = jiff::civil::Date::new(year, month, day).ok()?.yesterday().ok()?;
    Some((d.year(), d.month(), d.day()))
}

/// The day after a day; nothing where the day is none, or the last one.
pub open spec fn day_after(year: i16, month: i8, day: i8) -> Option<(i16, i8, i8)> {
    if !is_calendar_day(year as int, month as int, day as int) {
        None
    } else if day < month_days(year as int, month as int) {
        Some((year, month, (day + 1) as i8))
    } else if month < 12 {
        Some((year, (month + 1) as i8, 1))
    } else if year < 9999 {
        Some(((year + 1) as i16, 1, 1))
    } else {
        None
    }
}

/// `jiff::civil::Date::tomorrow`: the day after a day, or nothing where the day
/// is none or the last that jiff supports.
#[verifier::external_body]
fn day_after_of(year: i16, month: i8, day: i8) -> (d: Option<(i16, i8, i8)>)
    ensures
        d == day_after(year, month, day),
{
    let d = jiff::civil::Date::new(year, month, day).ok()?.tomorrow().ok()?;
    Some((d.year(), d.month(), d.day()))
}

/// The day after the day before a day is that day, and so is the day before the
/// day after it.
pub proof fn neighbours_lead_back(year: i16, month: i8, day: i8)
    ensures
        day_before(year, month, day) matches Some(d) ==> day_after(d.0, d.1, d.2) == Some(
            (year, month, day),
        ),
        day_after(year, month, day) matches Some(d) ==> day_before(d.0, d.1, d.2) == Some(
            (year, month, day),
        ),
{
}

/// The day before or after a day.
pub open spec fn neighbour_day(year: i16, month: i8, day: i8, earlier: bool) -> Option<
    (i16, i8, i8),
> {
    if earlier {
        day_before(year, month, day)
    } else {
        day_after(year, month, day)
    }
}

/// One day comes before another in the calendar.
pub open spec fn is_earlier_day(a: (i16, i8, i8), b: (i16, i8, i8)) -> bool {
    a.0 < b.0 || (a.0 == b.0 && (a.1 < b.1 || (a.1 == b.1 && a.2 < b.2)))
}

/// The neighbours of a day lie on their own side of it, with no day between.
pub proof fn neighbours_lie_on_their_side(
    year: i16,
    month: i8,
    day: i8,
    between: (i16, i8, i8),
)
    requires
        is_calendar_day(between.0 as int, between.1 as int, between.2 as int),
    ensures
        neighbour_day(year, month, day, true) matches Some(d) ==> is_earlier_day(
            d,
            (year, month, day),
        ) && !(is_earlier_day(d, between) && is_earlier_day(between, (year, month, day))),
        neighbour_day(year, month, day, false) matches Some(d) ==> is_earlier_day(
            (year, month, day),
            d,
        ) && !(is_earlier_day((year, month, day), between) && is_earlier_day(between, d)),
{
}

/// Computes [`neighbour_day`].
pub fn neighbour_day_of(year: i16, month: i8, day: i8, earlier: bool) -> (d: Option<(i16, i8, i8)>)
    ensures
        d == neighbour_day(year, month, day, earlier),
        d matches Some(n) ==> 1 <= n.1 <= 12 && 1 <= n.2 <= 31,
{
    if earlier {
        day_before_of(year, month, day)
    } else {
        day_after_of(year, month, day)
    }
}

} // verus!
