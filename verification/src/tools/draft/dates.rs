//! Dates above quoted messages, in the reader's time zone.

use vstd::prelude::*;

use crate::imap_client::query::lemma_decimal_reads_back;
use crate::text::chars_of;
use crate::text::copy_of;
use crate::text::decimal;
use crate::text::decimal_string;
use crate::text::lemma_next_char;
use crate::text::lemma_split_behind;
use crate::text::opt_str;
use crate::text::padded;
use crate::text::padded_string;
use crate::text::split;
use crate::text::string_of_range;
use crate::time::civil_at;
use crate::time::civil_fields_at;
use crate::time::civil_in_range;
use crate::time::lemma_padded_reads_back;
use crate::time::stamp_second;
use crate::time::stamp_second_of;
use crate::time::is_leap;
use crate::time::month_days;
use crate::time::of_zone;
use crate::time::zone_offset;
use crate::time::Zone;
use crate::tools::draft::render::Locale;

verus! {

// ---------------------------------------------------------------------------
// Days of the week
// ---------------------------------------------------------------------------

/// The number of days of a year before a month.
pub open spec fn days_before_month(year: int, month: int) -> int
    decreases month,
{
    if month <= 1 {
        0
    } else {
        days_before_month(year, month - 1) + month_days(year, month - 1)
    }
}

/// The number of days from the last day of the year zero to a day.
pub open spec fn day_number(year: int, month: int, day: int) -> int {
    let past = year - 1;
    365 * past + past / 4 - past / 100 + past / 400 + days_before_month(year, month) + day
}

/// The day of the week, from zero for Sunday: the first day of the year one was
/// a Monday.
pub open spec fn weekday(year: int, month: int, day: int) -> int {
    day_number(year, month, day) % 7
}

/// The day after a day.
pub open spec fn next_day(year: int, month: int, day: int) -> (int, int, int) {
    if day < month_days(year, month) {
        (year, month, day + 1)
    } else if month < 12 {
        (year, month + 1, 1)
    } else {
        (year + 1, 1, 1)
    }
}

proof fn lemma_leap(year: int)
    ensures
        (year / 4 - year / 100 + year / 400) - ((year - 1) / 4 - (year - 1) / 100 + (year - 1)
            / 400) == (if is_leap(year) {
            1int
        } else {
            0int
        }),
{
}

proof fn lemma_days_before_month(year: int, month: int)
    requires
        1 <= month <= 12,
    ensures
        days_before_month(year, month) == month_start(month) + (if month > 2 && is_leap(year) {
            1int
        } else {
            0int
        }),
{
    reveal_with_fuel(days_before_month, 13);
}

/// The number of days before a month in a year without a leap day.
spec fn month_start(month: int) -> int {
    if month <= 1 {
        0
    } else if month == 2 {
        31
    } else if month == 3 {
        59
    } else if month == 4 {
        90
    } else if month == 5 {
        120
    } else if month == 6 {
        151
    } else if month == 7 {
        181
    } else if month == 8 {
        212
    } else if month == 9 {
        243
    } else if month == 10 {
        273
    } else if month == 11 {
        304
    } else {
        334
    }
}

/// Each day is followed by the next day of the week, across the ends of months
/// and years.
pub proof fn weekday_advances(year: int, month: int, day: int)
    requires
        1 <= month <= 12,
        1 <= day <= month_days(year, month),
    ensures
        ({
            let next = next_day(year, month, day);
            weekday(next.0, next.1, next.2) == (weekday(year, month, day) + 1) % 7
        }),
{
    lemma_next_number(year, month, day);
}

/// The next day has the next number.
proof fn lemma_next_number(year: int, month: int, day: int)
    requires
        1 <= month <= 12,
        1 <= day <= month_days(year, month),
    ensures
        ({
            let next = next_day(year, month, day);
            day_number(next.0, next.1, next.2) == day_number(year, month, day) + 1
        }),
{
    if day < month_days(year, month) {
    } else if month < 12 {
        assert(days_before_month(year, month + 1) == days_before_month(year, month) + month_days(
            year,
            month,
        ));
    } else {
        lemma_leap(year);
        lemma_days_before_month(year, 12);
        assert(days_before_month(year + 1, 1) == 0);
    }
}

/// The shift of a month in the weekday formula.
fn month_shift(month: u32) -> (t: i64)
    requires
        1 <= month <= 12,
    ensures
        0 <= t <= 6,
        (t - month_start(month as int) + (if month <= 2 {
            0int
        } else {
            1int
        })) % 7 == 0,
{
    match month {
        1 => 0,
        2 => 3,
        3 => 2,
        4 => 5,
        5 => 0,
        6 => 3,
        7 => 5,
        8 => 1,
        9 => 4,
        10 => 6,
        11 => 2,
        _ => 4,
    }
}

/// The day of the week, from zero for Sunday, by Sakamoto's formula. A month
/// out of range gives zero, a day beyond `i32` counts as the first.
pub fn weekday_index(year: i32, month: u32, day: u32) -> (idx: usize)
    ensures
        idx == (if 1 <= month <= 12 {
            weekday(
                year as int,
                month as int,
                if day <= i32::MAX {
                    day as int
                } else {
                    1
                },
            )
        } else {
            0
        }),
        idx < 7,
{
    if !(1 <= month && month <= 12) {
        return 0;
    }
    // A multiple of 400 years is a whole number of weeks.
    let shifted: i64 = year as i64 + 2_147_484_000;
    let y: i64 = if month <= 2 {
        shifted - 1
    } else {
        shifted
    };
    let d: i64 = if day <= 2_147_483_647 {
        day as i64
    } else {
        1
    };
    let shift: i64 = month_shift(month);
    let sum: u64 = (y as u64) + (y as u64) / 4 + (y as u64) / 400 + (shift as u64) + (d as u64) - (
    y as u64) / 100;
    proof {
        lemma_leap(year as int);
        lemma_days_before_month(year as int, month as int);
        lemma_weekday_formula(year as int, month as int, d as int, shift as int);
        assert(weekday(year as int, month as int, d as int) == sum as int % 7);
    }
    (sum % 7) as usize
}

proof fn lemma_weekday_formula(year: int, month: int, day: int, shift: int)
    requires
        1 <= month <= 12,
        -2_147_483_648 <= year <= 2_147_483_647,
        (shift - month_start(month) + (if month <= 2 {
            0int
        } else {
            1int
        })) % 7 == 0,
    ensures
        ({
            let y = year + 2_147_484_000 - (if month <= 2 {
                1int
            } else {
                0int
            });
            weekday(year, month, day) == (y + y / 4 - y / 100 + y / 400 + shift + day) % 7
        }),
{
    lemma_leap(year);
    lemma_days_before_month(year, month);
    let y = year - (if month <= 2 {
        1int
    } else {
        0int
    });
    let far = y + 2_147_484_000;
    let past = year - 1;
    // 2_147_484_000 == 400 * 5_368_710
    assert(far / 4 == y / 4 + 536_871_000);
    assert(far / 100 == y / 100 + 21_474_840);
    assert(far / 400 == y / 400 + 5_368_710);
    let k = (shift - month_start(month) + (if month <= 2 {
        0int
    } else {
        1int
    })) / 7;
    assert(shift == 7 * k + month_start(month) - (if month <= 2 {
        0int
    } else {
        1int
    }));
    let leaps = y / 4 - y / 100 + y / 400;
    let total = far + far / 4 - far / 100 + far / 400 + shift + day;
    assert(total == y + leaps + shift + day + 2_147_484_000 + 536_871_000 - 21_474_840
        + 5_368_710);
    let number = day_number(year, month, day);
    if month <= 2 {
        assert(y == past);
    } else {
        assert(y == year);
    }
    assert(number == 365 * past + leaps + month_start(month) + day);
    assert((total - number) % 7 == 0) by {
        let w = 2_147_484_000int + 536_871_000 - 21_474_840 + 5_368_710;
        assert(w == 7 * 381_178_410);
        assert(total - number == y - 365 * past + shift - month_start(month) + w);
        if month <= 2 {
            assert(total - number == -364 * past + 7 * k + w);
            assert(total - number == 7 * (-52 * past + k + 381_178_410));
        } else {
            assert(y - 365 * past == 1 - 364 * past);
            assert(total - number == 7 * (-52 * past + k + 381_178_410));
        }
    }
}

// ---------------------------------------------------------------------------
// Dates in words
// ---------------------------------------------------------------------------

/// The name of a day of the week, from zero for Sunday.
pub open spec fn weekday_text(locale: Locale, index: int) -> Seq<char> {
    match locale {
        Locale::En => if index == 0 {
            "Sunday"@
        } else if index == 1 {
            "Monday"@
        } else if index == 2 {
            "Tuesday"@
        } else if index == 3 {
            "Wednesday"@
        } else if index == 4 {
            "Thursday"@
        } else if index == 5 {
            "Friday"@
        } else {
            "Saturday"@
        },
        Locale::De => if index == 0 {
            "Sonntag"@
        } else if index == 1 {
            "Montag"@
        } else if index == 2 {
            "Dienstag"@
        } else if index == 3 {
            "Mittwoch"@
        } else if index == 4 {
            "Donnerstag"@
        } else if index == 5 {
            "Freitag"@
        } else {
            "Samstag"@
        },
    }
}

/// Computes [`weekday_text`].
fn weekday_name(locale: Locale, index: usize) -> (s: &'static str)
    requires
        index < 7,
    ensures
        s@ == weekday_text(locale, index as int),
{
    match locale {
        Locale::En => match index {
            0 => "Sunday",
            1 => "Monday",
            2 => "Tuesday",
            3 => "Wednesday",
            4 => "Thursday",
            5 => "Friday",
            _ => "Saturday",
        },
        Locale::De => match index {
            0 => "Sonntag",
            1 => "Montag",
            2 => "Dienstag",
            3 => "Mittwoch",
            4 => "Donnerstag",
            5 => "Freitag",
            _ => "Samstag",
        },
    }
}

/// The name of a month.
pub open spec fn month_text(locale: Locale, month: int) -> Seq<char> {
    match locale {
        Locale::En => if month == 1 {
            "January"@
        } else if month == 2 {
            "February"@
        } else if month == 3 {
            "March"@
        } else if month == 4 {
            "April"@
        } else if month == 5 {
            "May"@
        } else if month == 6 {
            "June"@
        } else if month == 7 {
            "July"@
        } else if month == 8 {
            "August"@
        } else if month == 9 {
            "September"@
        } else if month == 10 {
            "October"@
        } else if month == 11 {
            "November"@
        } else {
            "December"@
        },
        Locale::De => if month == 1 {
            "Januar"@
        } else if month == 2 {
            "Februar"@
        } else if month == 3 {
            "März"@
        } else if month == 4 {
            "April"@
        } else if month == 5 {
            "Mai"@
        } else if month == 6 {
            "Juni"@
        } else if month == 7 {
            "Juli"@
        } else if month == 8 {
            "August"@
        } else if month == 9 {
            "September"@
        } else if month == 10 {
            "Oktober"@
        } else if month == 11 {
            "November"@
        } else {
            "Dezember"@
        },
    }
}

/// Computes [`month_text`].
fn month_name(locale: Locale, month: u32) -> (s: &'static str)
    requires
        1 <= month <= 12,
    ensures
        s@ == month_text(locale, month as int),
{
    match locale {
        Locale::En => match month {
            1 => "January",
            2 => "February",
            3 => "March",
            4 => "April",
            5 => "May",
            6 => "June",
            7 => "July",
            8 => "August",
            9 => "September",
            10 => "October",
            11 => "November",
            _ => "December",
        },
        Locale::De => match month {
            1 => "Januar",
            2 => "Februar",
            3 => "März",
            4 => "April",
            5 => "Mai",
            6 => "Juni",
            7 => "Juli",
            8 => "August",
            9 => "September",
            10 => "Oktober",
            11 => "November",
            _ => "Dezember",
        },
    }
}

/// A year in decimal, with a minus sign where it is before zero.
pub open spec fn signed_decimal(n: int) -> Seq<char> {
    if n >= 0 {
        decimal(n as nat)
    } else {
        "-"@ + decimal((-n) as nat)
    }
}

fn signed_decimal_string(n: i16) -> (out: String)
    ensures
        out@ == signed_decimal(n as int),
{
    if n >= 0 {
        decimal_string(n as u64)
    } else {
        let magnitude: i32 = -(n as i32);
        let mut out = copy_of("-");
        let digits = decimal_string(magnitude as u64);
        out.append(digits.as_str());
        out
    }
}

/// An hour on a clock of twelve hours.
pub open spec fn hour_of_twelve(hour: int) -> int {
    if hour == 0 {
        12
    } else if hour <= 12 {
        hour
    } else {
        hour - 12
    }
}

/// A date and time in words: `Tuesday, March 24, 2026 1:56:47 PM` in English,
/// `Dienstag, 24. März 2026 13:56` in German.
pub open spec fn outlook_text(c: (i16, i8, i8, i8, i8, i8), locale: Locale) -> Seq<char> {
    let day_name = weekday_text(locale, weekday(c.0 as int, c.1 as int, c.2 as int));
    let month = month_text(locale, c.1 as int);
    let day = decimal(c.2 as nat);
    let year = signed_decimal(c.0 as int);
    match locale {
        Locale::En => day_name + ", "@ + month + " "@ + day + ", "@ + year + " "@ + decimal(
            hour_of_twelve(c.3 as int) as nat,
        ) + ":"@ + padded(c.4 as nat, 2) + ":"@ + padded(c.5 as nat, 2) + (if c.3 < 12 {
            " AM"@
        } else {
            " PM"@
        }),
        Locale::De => day_name + ", "@ + day + ". "@ + month + " "@ + year + " "@ + padded(
            c.3 as nat,
            2,
        ) + ":"@ + padded(c.4 as nat, 2),
    }
}

/// Computes [`outlook_text`].
pub fn outlook_string(c: (i16, i8, i8, i8, i8, i8), locale: Locale) -> (out: String)
    requires
        civil_in_range(c),
    ensures
        out@ == outlook_text(c, locale),
{
    let index = weekday_index(c.0 as i32, c.1 as u32, c.2 as u32);
    let month = month_name(locale, c.1 as u32);
    let day = decimal_string(c.2 as u64);
    let year = signed_decimal_string(c.0);
    let minute = padded_string(c.4 as u64, 2);
    let mut out = copy_of(weekday_name(locale, index));
    out.append(", ");
    match locale {
        Locale::En => {
            out.append(month);
            out.append(" ");
            out.append(day.as_str());
            out.append(", ");
            out.append(year.as_str());
            out.append(" ");
            let hour: i8 = if c.3 == 0 {
                12
            } else if c.3 <= 12 {
                c.3
            } else {
                c.3 - 12
            };
            let hour = decimal_string(hour as u64);
            out.append(hour.as_str());
            out.append(":");
            out.append(minute.as_str());
            out.append(":");
            let second = padded_string(c.5 as u64, 2);
            out.append(second.as_str());
            if c.3 < 12 {
                out.append(" AM");
            } else {
                out.append(" PM");
            }
        },
        Locale::De => {
            out.append(day.as_str());
            out.append(". ");
            out.append(month);
            out.append(" ");
            out.append(year.as_str());
            out.append(" ");
            let hour = padded_string(c.3 as u64, 2);
            out.append(hour.as_str());
            out.append(":");
            out.append(minute.as_str());
        },
    }
    out
}

/// Days of the week and months go by their own names, in order: each begins with
/// its abbreviation in the usual list of them, in English and in German, and is one
/// word.
pub proof fn days_and_months_have_their_names(index: int, month: int)
    requires
        0 <= index < 7,
        1 <= month <= 12,
    ensures
        weekday_text(Locale::En, index).take(3) == "SunMonTueWedThuFriSat"@.subrange(3 * index, 3 * index + 3),
        weekday_text(Locale::De, index).take(2) == "SoMoDiMiDoFrSa"@.subrange(2 * index, 2 * index + 2),
        month_text(Locale::En, month).take(3)
            == "JanFebMarAprMayJunJulAugSepOctNovDec"@.subrange(3 * month - 3, 3 * month),
        month_text(Locale::De, month).take(3)
            == "JanFebMärAprMaiJunJulAugSepOktNovDez"@.subrange(3 * month - 3, 3 * month),
        forall|locale: Locale| is_one_word(#[trigger] weekday_text(locale, index)),
        forall|locale: Locale| is_one_word(#[trigger] month_text(locale, month)),
{
    lemma_english_days(index);
    lemma_german_days(index);
    lemma_english_months(month);
    lemma_german_months(month);
    assert forall|locale: Locale| is_one_word(#[trigger] weekday_text(locale, index)) by {
        assert(locale == Locale::En || locale == Locale::De);
    }
    assert forall|locale: Locale| is_one_word(#[trigger] month_text(locale, month)) by {
        assert(locale == Locale::En || locale == Locale::De);
    }
}

/// A text without spaces.
pub open spec fn is_one_word(t: Seq<char>) -> bool {
    forall|i: int| 0 <= i < t.len() ==> #[trigger] t[i] != ' '
}

proof fn lemma_english_days(index: int)
    requires
        0 <= index < 7,
    ensures
        weekday_text(Locale::En, index).take(3) == "SunMonTueWedThuFriSat"@.subrange(3 * index, 3 * index + 3),
        is_one_word(weekday_text(Locale::En, index)),
{
    reveal_strlit("SunMonTueWedThuFriSat");
    reveal_strlit("Sunday");
    reveal_strlit("Monday");
    reveal_strlit("Tuesday");
    reveal_strlit("Wednesday");
    reveal_strlit("Thursday");
    reveal_strlit("Friday");
    reveal_strlit("Saturday");
    assert(weekday_text(Locale::En, index).take(3) =~= "SunMonTueWedThuFriSat"@.subrange(3 * index, 3 * index + 3));
}

proof fn lemma_german_days(index: int)
    requires
        0 <= index < 7,
    ensures
        weekday_text(Locale::De, index).take(2) == "SoMoDiMiDoFrSa"@.subrange(2 * index, 2 * index + 2),
        is_one_word(weekday_text(Locale::De, index)),
{
    reveal_strlit("SoMoDiMiDoFrSa");
    reveal_strlit("Sonntag");
    reveal_strlit("Montag");
    reveal_strlit("Dienstag");
    reveal_strlit("Mittwoch");
    reveal_strlit("Donnerstag");
    reveal_strlit("Freitag");
    reveal_strlit("Samstag");
    assert(weekday_text(Locale::De, index).take(2) =~= "SoMoDiMiDoFrSa"@.subrange(2 * index, 2 * index + 2));
}

proof fn lemma_english_months(month: int)
    requires
        1 <= month <= 12,
    ensures
        month_text(Locale::En, month).take(3) == "JanFebMarAprMayJunJulAugSepOctNovDec"@.subrange(3 * month - 3, 3 * month),
        is_one_word(month_text(Locale::En, month)),
{
    reveal_strlit("JanFebMarAprMayJunJulAugSepOctNovDec");
    reveal_strlit("January");
    reveal_strlit("February");
    reveal_strlit("March");
    reveal_strlit("April");
    reveal_strlit("May");
    reveal_strlit("June");
    reveal_strlit("July");
    reveal_strlit("August");
    reveal_strlit("September");
    reveal_strlit("October");
    reveal_strlit("November");
    reveal_strlit("December");
    assert(month_text(Locale::En, month).take(3) =~= "JanFebMarAprMayJunJulAugSepOctNovDec"@.subrange(3 * month - 3, 3 * month));
}

proof fn lemma_german_months(month: int)
    requires
        1 <= month <= 12,
    ensures
        month_text(Locale::De, month).take(3) == "JanFebMärAprMaiJunJulAugSepOktNovDez"@.subrange(3 * month - 3, 3 * month),
        is_one_word(month_text(Locale::De, month)),
{
    reveal_strlit("JanFebMärAprMaiJunJulAugSepOktNovDez");
    reveal_strlit("Januar");
    reveal_strlit("Februar");
    reveal_strlit("März");
    reveal_strlit("April");
    reveal_strlit("Mai");
    reveal_strlit("Juni");
    reveal_strlit("Juli");
    reveal_strlit("August");
    reveal_strlit("September");
    reveal_strlit("Oktober");
    reveal_strlit("November");
    reveal_strlit("Dezember");
    assert(month_text(Locale::De, month).take(3) =~= "JanFebMärAprMaiJunJulAugSepOktNovDez"@.subrange(3 * month - 3, 3 * month));
}

proof fn lemma_first_word(a: Seq<char>)
    requires
        is_one_word(a),
    ensures
        split(a, ' ') == seq![a],
{
    lemma_next_char(a, ' ', 0);
    assert(a.subrange(0, a.len() as int) =~= a);
}

/// A date in words reads back, word by word: the day of the week, the month, the
/// day, the year and the time of day; in English on a clock of twelve hours that
/// tells the same hour, before noon or after it, in German on one of twenty-four.
pub proof fn dates_in_words_tell_the_date(c: (i16, i8, i8, i8, i8, i8))
    requires
        civil_in_range(c),
    ensures
        ({
            let day = weekday(c.0 as int, c.1 as int, c.2 as int);
            let hour = hour_of_twelve(c.3 as int);
            &&& 1 <= hour <= 12 && hour % 12 == c.3 as int % 12
            &&& split(outlook_text(c, Locale::En), ' ') == seq![
                weekday_text(Locale::En, day) + seq![','],
            ].push(month_text(Locale::En, c.1 as int)).push(decimal(c.2 as nat) + seq![',']).push(
                signed_decimal(c.0 as int),
            ).push(
                decimal(hour as nat) + seq![':'] + padded(c.4 as nat, 2) + seq![':'] + padded(
                    c.5 as nat,
                    2,
                ),
            ).push(
                if c.3 < 12 {
                    seq!['A', 'M']
                } else {
                    seq!['P', 'M']
                },
            )
            &&& split(outlook_text(c, Locale::De), ' ') == seq![
                weekday_text(Locale::De, day) + seq![','],
            ].push(decimal(c.2 as nat) + seq!['.']).push(month_text(Locale::De, c.1 as int)).push(
                signed_decimal(c.0 as int),
            ).push(padded(c.3 as nat, 2) + seq![':'] + padded(c.4 as nat, 2))
        }),
{
    lemma_english_date(c);
    lemma_german_date(c);
}

proof fn lemma_five_words(a: Seq<char>, b: Seq<char>, c: Seq<char>, d: Seq<char>, e: Seq<char>)
    requires
        is_one_word(a),
        is_one_word(b),
        is_one_word(c),
        is_one_word(d),
        is_one_word(e),
    ensures
        split(a + seq![' '] + b + seq![' '] + c + seq![' '] + d + seq![' '] + e, ' ') == seq![a].push(
            b,
        ).push(c).push(d).push(e),
{
    lemma_first_word(a);
    lemma_split_behind(a, b, ' ', 0);
    lemma_split_behind(a + seq![' '] + b, c, ' ', 0);
    lemma_split_behind(a + seq![' '] + b + seq![' '] + c, d, ' ', 0);
    lemma_split_behind(a + seq![' '] + b + seq![' '] + c + seq![' '] + d, e, ' ', 0);
}

proof fn lemma_marked(a: Seq<char>, m: char)
    requires
        is_one_word(a),
        m != ' ',
    ensures
        is_one_word(a + seq![m]),
{
}

proof fn lemma_regrouped(a: Seq<char>, x: Seq<char>, m: Seq<char>, sp: Seq<char>, b: Seq<char>)
    requires
        x == m + sp,
    ensures
        a + x + b == a + m + sp + b,
{
    assert(a + x + b =~= a + m + sp + b);
}

proof fn lemma_marks()
    ensures
        ", "@ == seq![','] + seq![' '],
        ". "@ == seq!['.'] + seq![' '],
        " "@ == seq![' '],
        ":"@ == seq![':'],
        " AM"@ == seq![' '] + seq!['A', 'M'],
        " PM"@ == seq![' '] + seq!['P', 'M'],
{
    reveal_strlit(", ");
    reveal_strlit(". ");
    reveal_strlit(" ");
    reveal_strlit(":");
    reveal_strlit(" AM");
    reveal_strlit(" PM");
    assert(", "@ =~= seq![','] + seq![' ']);
    assert(". "@ =~= seq!['.'] + seq![' ']);
    assert(" "@ =~= seq![' ']);
    assert(":"@ =~= seq![':']);
    assert(" AM"@ =~= seq![' '] + seq!['A', 'M']);
    assert(" PM"@ =~= seq![' '] + seq!['P', 'M']);
}

proof fn lemma_english_date(c: (i16, i8, i8, i8, i8, i8))
    requires
        civil_in_range(c),
    ensures
        split(outlook_text(c, Locale::En), ' ') == seq![
            weekday_text(Locale::En, weekday(c.0 as int, c.1 as int, c.2 as int)) + seq![','],
        ].push(month_text(Locale::En, c.1 as int)).push(decimal(c.2 as nat) + seq![',']).push(
            signed_decimal(c.0 as int),
        ).push(
            decimal(hour_of_twelve(c.3 as int) as nat) + seq![':'] + padded(c.4 as nat, 2) + seq![
                ':',
            ] + padded(c.5 as nat, 2),
        ).push(
            if c.3 < 12 {
                seq!['A', 'M']
            } else {
                seq!['P', 'M']
            },
        ),
{
    let index = weekday(c.0 as int, c.1 as int, c.2 as int);
    let hour = decimal(hour_of_twelve(c.3 as int) as nat);
    let minute = padded(c.4 as nat, 2);
    let second = padded(c.5 as nat, 2);
    let name = weekday_text(Locale::En, index);
    let b = month_text(Locale::En, c.1 as int);
    let number = decimal(c.2 as nat);
    let year = signed_decimal(c.0 as int);
    let half = if c.3 < 12 {
        seq!['A', 'M']
    } else {
        seq!['P', 'M']
    };
    let sp = seq![' '];
    let comma = seq![','];
    let colon = seq![':'];
    days_and_months_have_their_names(index, c.1 as int);
    lemma_decimal_reads_back(c.2 as nat);
    lemma_decimal_reads_back(hour_of_twelve(c.3 as int) as nat);
    lemma_padded_reads_back(c.4 as nat, 2);
    lemma_padded_reads_back(c.5 as nat, 2);
    lemma_year_is_one_word(c.0 as int);
    lemma_words_are_one(hour, minute, second);
    lemma_marked(name, ',');
    lemma_marked(number, ',');
    lemma_marks();
    let a = name + comma;
    let d = number + comma;
    let t = hour + colon + minute + colon + second;
    let first = a + sp + b;
    let then = first + sp + number + comma;
    lemma_regrouped(name, ", "@, comma, sp, b);
    assert(name + ", "@ + b == first);
    lemma_regrouped(first + sp + number, ", "@, comma, sp, year);
    let date = then + sp + year;
    assert(first + sp + number + ", "@ + year == date);
    assert(then =~= first + sp + d);
    assert(date + sp + hour + colon + minute + colon + second =~= date + sp + t);
    lemma_five_words(a, b, d, year, t);
    assert(is_one_word(half));
    lemma_split_behind(date + sp + t, half, ' ', 0);
    let last = if c.3 < 12 {
        " AM"@
    } else {
        " PM"@
    };
    assert(outlook_text(c, Locale::En) == date + sp + hour + colon + minute + colon + second + last);
    assert(date + sp + t + last =~= date + sp + t + sp + half);
}

proof fn lemma_german_date(c: (i16, i8, i8, i8, i8, i8))
    requires
        civil_in_range(c),
    ensures
        split(outlook_text(c, Locale::De), ' ') == seq![
            weekday_text(Locale::De, weekday(c.0 as int, c.1 as int, c.2 as int)) + seq![','],
        ].push(decimal(c.2 as nat) + seq!['.']).push(month_text(Locale::De, c.1 as int)).push(
            signed_decimal(c.0 as int),
        ).push(padded(c.3 as nat, 2) + seq![':'] + padded(c.4 as nat, 2)),
{
    let index = weekday(c.0 as int, c.1 as int, c.2 as int);
    let hour = padded(c.3 as nat, 2);
    let minute = padded(c.4 as nat, 2);
    let name = weekday_text(Locale::De, index);
    let b = month_text(Locale::De, c.1 as int);
    let number = decimal(c.2 as nat);
    let year = signed_decimal(c.0 as int);
    let sp = seq![' '];
    let comma = seq![','];
    let dot = seq!['.'];
    let colon = seq![':'];
    days_and_months_have_their_names(index, c.1 as int);
    lemma_decimal_reads_back(c.2 as nat);
    lemma_padded_reads_back(c.3 as nat, 2);
    lemma_padded_reads_back(c.4 as nat, 2);
    lemma_year_is_one_word(c.0 as int);
    lemma_words_are_one(hour, minute, Seq::empty());
    lemma_marked(name, ',');
    lemma_marked(number, '.');
    lemma_marks();
    let a = name + comma;
    let d = number + dot;
    let t = hour + colon + minute;
    lemma_regrouped(name, ", "@, comma, sp, number);
    let first = a + sp + number;
    assert(name + ", "@ + number == first);
    lemma_regrouped(first, ". "@, dot, sp, b);
    let date = first + dot + sp + b + sp + year;
    assert(first + dot =~= a + sp + d);
    assert(date + sp + hour + colon + minute =~= date + sp + t);
    lemma_five_words(a, d, b, year, t);
    assert(outlook_text(c, Locale::De) == date + sp + hour + colon + minute);
}

proof fn lemma_words_are_one(a: Seq<char>, b: Seq<char>, c: Seq<char>)
    requires
        is_one_word(a),
        is_one_word(b),
        is_one_word(c),
    ensures
        is_one_word(a + seq![':'] + b),
        is_one_word(a + seq![':'] + b + seq![':'] + c),
{
    let x = a + seq![':'] + b;
    let n = a.len() as int;
    assert forall|i: int| 0 <= i < x.len() implies #[trigger] x[i] != ' ' by {
        if i < n {
            assert(x[i] == a[i]);
        } else if i > n {
            assert(x[i] == b[i - n - 1]);
        }
    }
    let y = x + seq![':'] + c;
    let m = x.len() as int;
    assert forall|i: int| 0 <= i < y.len() implies #[trigger] y[i] != ' ' by {
        if i < m {
            assert(y[i] == x[i]);
        } else if i > m {
            assert(y[i] == c[i - m - 1]);
        }
    }
}

proof fn lemma_year_is_one_word(n: int)
    ensures
        is_one_word(signed_decimal(n)),
{
    reveal_strlit("-");
    if n >= 0 {
        lemma_decimal_reads_back(n as nat);
    } else {
        let d = decimal((-n) as nat);
        lemma_decimal_reads_back((-n) as nat);
        let s = signed_decimal(n);
        assert("-"@.len() == 1);
        assert forall|i: int| 0 <= i < s.len() implies #[trigger] s[i] != ' ' by {
            if i > 0 {
                assert(s[i] == d[i - 1]);
            }
        }
    }
}

/// A stamp with a final `Z` made into the offset of UTC.
pub open spec fn with_offset(iso: Seq<char>) -> Seq<char> {
    if iso.len() > 0 && iso.last() == 'Z' {
        iso.drop_last() + "+00:00"@
    } else {
        iso
    }
}

/// A stamp in words at an offset from UTC. A stamp that cannot be read is shown
/// as it is, a missing one by the locale's words.
pub open spec fn shown_date(iso: Option<Seq<char>>, locale: Locale, offset: i32) -> Seq<char> {
    match iso {
        None => locale.unknown_date_text(),
        Some(t) => match stamp_second(with_offset(t)) {
            None => t,
            Some(second) => match civil_at(second, offset) {
                None => t,
                Some(c) => outlook_text(c, locale),
            },
        },
    }
}

/// Formats a stamp for the header above a quoted message, in the time of a zone.
pub fn format_date_outlook_in(iso: Option<&str>, locale: Locale, zone: Zone) -> (out: String)
    ensures
        exists|offset: i32|
            of_zone(zone, offset) && out@ == #[trigger] shown_date(opt_str(iso), locale, offset),
{
    let ghost any: i32 = match zone {
        Zone::Fixed(o) => o,
        Zone::Local => 0,
    };
    let iso = match iso {
        None => {
            let out = copy_of(locale.unknown_date());
            assert(out@ == shown_date(None, locale, any));
            return out;
        },
        Some(t) => t,
    };
    let cs = chars_of(iso);
    let n: usize = cs.len();
    let stamp = if n > 0 && cs[n - 1] == 'Z' {
        let mut stem = string_of_range(&cs, 0, n - 1);
        proof {
            assert(stem@ =~= iso@.drop_last());
        }
        stem.append("+00:00");
        stem
    } else {
        copy_of(iso)
    };
    assert(stamp@ == with_offset(iso@));
    let second: i64 = match stamp_second_of(stamp.as_str()) {
        None => {
            let out = copy_of(iso);
            assert(out@ == shown_date(Some(iso@), locale, any));
            return out;
        },
        Some(s) => s,
    };
    let offset: i32 = zone_offset(second, zone);
    let out = match civil_fields_at(second, offset) {
        None => copy_of(iso),
        Some(c) => outlook_string(c, locale),
    };
    assert(of_zone(zone, offset));
    assert(out@ == shown_date(Some(iso@), locale, offset));
    out
}

/// Formats a stamp for the header above a quoted message, in the time of the
/// reader's machine.
pub fn format_date_outlook(iso: Option<&str>, locale: Locale) -> (out: String)
    ensures
        exists|offset: i32|
            of_zone(Zone::Local, offset) && out@ == #[trigger] shown_date(
                opt_str(iso),
                locale,
                offset,
            ),
{
    format_date_outlook_in(iso, locale, Zone::Local)
}

} // verus!
