//! Bounds on the time of arrival: a day, or a day with a time of day.

use vstd::prelude::*;

use crate::imap_client::util::imap_date;
use crate::imap_client::util::iso_to_imap_date;
use crate::text::append_range;
use crate::text::byte_len;
use crate::text::byte_len_of;
use crate::text::chars_of;
use crate::text::copy_of;
use crate::text::lemma_byte_len_push;
use crate::text::padded;
use crate::text::padded_string;
use crate::text::string_of_range;
use crate::text::width_of;
use crate::time::civil_fields_at;
use crate::time::civil_text;
use crate::time::fixed_second;
use crate::time::is_earlier_day;
use crate::time::is_zone_time;
use crate::time::neighbour_day;
use crate::time::neighbour_day_of;
use crate::time::stamp_second;
use crate::time::stamp_second_of;
use crate::time::utc_civil;
use crate::time::year_string;
use crate::time::year_text;
use crate::time::zone_time;
use crate::time::LocalTime;
use crate::time::Zone;

verus! {

/// A bound: the day that the server searches by, and the exact Unix second where
/// a time of day was given.
#[derive(Debug)]
pub struct TimeBound {
    /// The day in the form `D-Mon-YYYY`. With a time of day it is one day wider:
    /// the server compares days in a time zone of its own.
    pub imap_date: String,
    pub unix: Option<i64>,
}

/// The value of a bound.
pub struct BoundView {
    pub imap_date: Seq<char>,
    pub unix: Option<i64>,
}

impl View for TimeBound {
    type V = BoundView;

    open spec fn view(&self) -> BoundView {
        BoundView { imap_date: self.imap_date@, unix: self.unix }
    }
}

/// The value of a bound, or what is wrong with it.
pub open spec fn bound_result(r: Result<TimeBound, String>) -> Result<BoundView, Seq<char>> {
    match r {
        Ok(b) => Ok(b@),
        Err(text) => Err(text@),
    }
}

// ---------------------------------------------------------------------------
// The form
// ---------------------------------------------------------------------------

/// The number of leading characters that fill exactly `bytes` bytes, where there
/// is one.
pub open spec fn chars_in(s: Seq<char>, bytes: nat, k: int) -> bool {
    0 <= k <= s.len() && byte_len(s.take(k)) == bytes
}

/// The first character from `i` on that begins an offset from UTC; the end of
/// the text where none does.
pub open spec fn offset_at(s: Seq<char>, i: int) -> int
    decreases s.len() - i,
{
    if i < 0 || i >= s.len() {
        s.len() as int
    } else if s[i] == 'Z' || s[i] == '+' || s[i] == '-' {
        i
    } else {
        offset_at(s, i + 1)
    }
}

/// A date with a time of day, with seconds where it has none.
pub open spec fn with_seconds(stem: Seq<char>) -> Seq<char> {
    if byte_len(stem) == 16 {
        stem + ":00"@
    } else {
        stem
    }
}

/// What a bound looks like.
#[derive(Debug)]
pub enum BoundForm {
    /// A day.
    Day,
    /// Longer than a day, and cut by a character in the middle of where the day
    /// would end.
    Broken,
    /// A date and a time with an offset from UTC.
    Offset(String),
    /// A date and a time without one.
    Local(String),
}

/// The value of what a bound looks like.
pub enum FormView {
    Day,
    Broken,
    Offset(Seq<char>),
    Local(Seq<char>),
}

impl View for BoundForm {
    type V = FormView;

    open spec fn view(&self) -> FormView {
        match self {
            BoundForm::Day => FormView::Day,
            BoundForm::Broken => FormView::Broken,
            BoundForm::Offset(t) => FormView::Offset(t@),
            BoundForm::Local(t) => FormView::Local(t@),
        }
    }
}

/// What a text longer than a day, with `k` characters in the place of the day,
/// looks like. `Z` is the offset zero; what follows it is not read.
pub open spec fn long_form(raw: Seq<char>, k: int) -> FormView {
    let at = offset_at(raw, k);
    if at >= raw.len() {
        FormView::Local(with_seconds(raw))
    } else if raw[at] == 'Z' {
        FormView::Offset(with_seconds(raw.take(at)) + "+00:00"@)
    } else {
        FormView::Offset(with_seconds(raw.take(at)) + raw.skip(at))
    }
}

/// What a bound looks like.
pub open spec fn bound_form(raw: Seq<char>) -> FormView {
    if byte_len(raw) <= 10 {
        FormView::Day
    } else if exists|k: int| chars_in(raw, 10, k) {
        long_form(raw, choose|k: int| chars_in(raw, 10, k))
    } else {
        FormView::Broken
    }
}

proof fn lemma_widths(s: Seq<char>, k: int, j: int)
    requires
        0 <= k < j <= s.len(),
    ensures
        byte_len(s.take(k)) < byte_len(s.take(j)),
    decreases j - k,
{
    let c = s[j - 1];
    assert(s.take(j) =~= s.take(j - 1).push(c));
    lemma_byte_len_push(s.take(j - 1), c);
    if k < j - 1 {
        lemma_widths(s, k, j - 1);
    }
}

fn day_chars(cs: &Vec<char>) -> (k: Option<usize>)
    ensures
        match k {
            Some(n) => chars_in(cs@, 10, n as int) && forall|j: int| #[trigger]
                chars_in(cs@, 10, j) ==> j == n,
            None => forall|j: int| !#[trigger] chars_in(cs@, 10, j),
        },
{
    let mut k: usize = 0;
    let mut used: usize = 0;
    proof {
        assert(cs@.take(0) =~= Seq::<char>::empty());
        assert(byte_len(Seq::<char>::empty()) == 0) by {
            assert(vstd::utf8::encode_utf8(Seq::<char>::empty()).len() == 0);
        }
    }
    while k < cs.len() && used < 10
        invariant
            k <= cs@.len(),
            used == byte_len(cs@.take(k as int)),
            used <= 13,
            forall|j: int| 0 <= j < k ==> byte_len(#[trigger] cs@.take(j)) < 10,
        decreases cs@.len() - k,
    {
        proof {
            assert(cs@.take(k as int + 1) =~= cs@.take(k as int).push(cs@[k as int]));
            lemma_byte_len_push(cs@.take(k as int), cs@[k as int]);
        }
        used += width_of(cs[k]);
        k += 1;
    }
    proof {
        assert forall|j: int| #[trigger] chars_in(cs@, 10, j) implies j == k && used == 10 by {
            if j < k {
                assert(byte_len(cs@.take(j)) < 10);
            } else if j > k {
                lemma_widths(cs@, k as int, j);
            }
        }
    }
    if used == 10 {
        assert(chars_in(cs@, 10, k as int));
        Some(k)
    } else {
        None
    }
}

fn add_seconds(stem: String) -> (out: String)
    ensures
        out@ == with_seconds(stem@),
{
    let mut out = stem;
    if byte_len_of(out.as_str()) == 16 {
        out.append(":00");
    }
    out
}

/// Looks at a bound.
pub fn read_form(raw: &str) -> (f: BoundForm)
    ensures
        f@ == bound_form(raw@),
{
    if byte_len_of(raw) <= 10 {
        return BoundForm::Day;
    }
    let cs = chars_of(raw);
    let n: usize = cs.len();
    let start = match day_chars(&cs) {
        Some(k) => k,
        None => {
            return BoundForm::Broken;
        },
    };
    proof {
        assert(chars_in(raw@, 10, start as int));
        assert((choose|k: int| chars_in(raw@, 10, k)) == start);
    }
    let mut at: usize = start;
    while at < n && cs[at] != 'Z' && cs[at] != '+' && cs[at] != '-'
        invariant
            n == cs@.len(),
            cs@ == raw@,
            start <= at <= n,
            offset_at(raw@, start as int) == offset_at(raw@, at as int),
        decreases n - at,
    {
        at += 1;
    }
    if at >= n {
        return BoundForm::Local(add_seconds(copy_of(raw)));
    }
    let stem = string_of_range(&cs, 0, at);
    proof {
        assert(stem@ =~= raw@.take(at as int));
    }
    let mut full = add_seconds(stem);
    let ghost head = full@;
    if cs[at] == 'Z' {
        full.append("+00:00");
    } else {
        append_range(&mut full, &cs, at, n);
        proof {
            assert(raw@.subrange(at as int, n as int) =~= raw@.skip(at as int));
            assert(full@ =~= head + raw@.skip(at as int));
        }
    }
    BoundForm::Offset(full)
}

// ---------------------------------------------------------------------------
// The bound
// ---------------------------------------------------------------------------

/// What is said of a bound that is no use.
pub open spec fn bound_complaint(raw: Seq<char>, what: Seq<char>) -> Seq<char> {
    "Invalid date-time \""@ + raw + "\": "@ + what
        + ". Use YYYY-MM-DD, or YYYY-MM-DDTHH:MM[:SS] (local time), optionally with Z or ±HH:MM"@
}

fn complain(raw: &str, what: &str) -> (out: String)
    ensures
        out@ == bound_complaint(raw@, what@),
{
    let mut out = copy_of("Invalid date-time \"");
    out.append(raw);
    out.append("\": ");
    out.append(what);
    out.append(
        ". Use YYYY-MM-DD, or YYYY-MM-DDTHH:MM[:SS] (local time), optionally with Z or ±HH:MM",
    );
    out
}

/// A day in the form `YYYY-MM-DD`.
pub open spec fn day_text(d: (i16, i8, i8)) -> Seq<char> {
    year_text(d.0 as int) + "-"@ + padded(d.1 as nat, 2) + "-"@ + padded(d.2 as nat, 2)
}

/// The bound at a second, given the day that the server searches by.
pub open spec fn bound_on(raw: Seq<char>, second: i64, day: Option<(i16, i8, i8)>) -> Result<
    BoundView,
    Seq<char>,
> {
    match day {
        None => Err(bound_complaint(raw, "date out of range"@)),
        Some(d) => match imap_date(day_text(d)) {
            Ok(date) => Ok(BoundView { imap_date: date, unix: Some(second) }),
            Err(text) => Err(text),
        },
    }
}

/// Makes the bound at a second, given the day that the server searches by.
pub fn bound_on_day(raw: &str, second: i64, day: Option<(i16, i8, i8)>) -> (r: Result<
    TimeBound,
    String,
>)
    requires
        day matches Some(d) ==> 0 <= d.1 && 0 <= d.2,
    ensures
        bound_result(r) == bound_on(raw@, second, day),
{
    match day {
        None => Err(complain(raw, "date out of range")),
        Some(d) => {
            let mut text = year_string(d.0);
            text.append("-");
            let month = padded_string(d.1 as u64, 2);
            text.append(month.as_str());
            text.append("-");
            let number = padded_string(d.2 as u64, 2);
            text.append(number.as_str());
            match iso_to_imap_date(text.as_str()) {
                Ok(date) => Ok(TimeBound { imap_date: date, unix: Some(second) }),
                Err(e) => Err(e),
            }
        },
    }
}

/// The day beside the one, in UTC, that a second falls on.
pub open spec fn day_beside(second: i64, earlier: bool) -> Option<(i16, i8, i8)> {
    match utc_civil(second) {
        Some(c) => neighbour_day(c.0, c.1, c.2, earlier),
        None => None,
    }
}

/// The second that a bound stands for, given what it stands for on this machine
/// where it has no offset; or what is wrong with it.
pub open spec fn bound_second(form: FormView, local: LocalTime) -> Result<i64, Seq<char>> {
    match form {
        FormView::Offset(t) => match stamp_second(t) {
            Some(s) => Ok(s),
            None => Err("unparseable date, time or offset"@),
        },
        FormView::Local(_) => match local {
            LocalTime::Unparseable => Err("unparseable date or time part"@),
            LocalTime::NoSuchTime => Err("not a valid local time"@),
            LocalTime::At(s) => Ok(s),
        },
        _ => Err("unparseable date or time part"@),
    }
}

/// A bound, given what it stands for on this machine where it has no offset.
pub open spec fn time_bound(raw: Seq<char>, earlier: bool, local: LocalTime) -> Result<
    BoundView,
    Seq<char>,
> {
    match bound_form(raw) {
        FormView::Day => match imap_date(raw) {
            Ok(date) => Ok(BoundView { imap_date: date, unix: None }),
            Err(text) => Err(text),
        },
        form => match bound_second(form, local) {
            Ok(s) => bound_on(raw, s, day_beside(s, earlier)),
            Err(what) => Err(bound_complaint(raw, what)),
        },
    }
}

/// What a bound can stand for in a zone.
pub open spec fn stands_for(raw: Seq<char>, zone: Zone, local: LocalTime) -> bool {
    bound_form(raw) matches FormView::Local(stem) ==> is_zone_time(stem, zone, local)
}

/// A bound in a zone.
pub open spec fn is_bound_in(
    raw: Seq<char>,
    earlier: bool,
    zone: Zone,
    r: Result<BoundView, Seq<char>>,
) -> bool {
    exists|local: LocalTime| #[trigger]
        stands_for(raw, zone, local) && r == time_bound(raw, earlier, local)
}

fn bound_at_second(raw: &str, second: i64, earlier: bool) -> (r: Result<TimeBound, String>)
    ensures
        bound_result(r) == bound_on(raw@, second, day_beside(second, earlier)),
{
    match civil_fields_at(second, 0) {
        Some(c) => bound_on_day(raw, second, neighbour_day_of(c.0, c.1, c.2, earlier)),
        None => bound_on_day(raw, second, None),
    }
}

/// Makes a bound, given what its text stands for on this machine where it has no
/// offset.
pub fn bound_with(raw: &str, form: BoundForm, earlier: bool, local: LocalTime) -> (r: Result<
    TimeBound,
    String,
>)
    requires
        form@ == bound_form(raw@),
    ensures
        bound_result(r) == time_bound(raw@, earlier, local),
{
    match form {
        BoundForm::Day => match iso_to_imap_date(raw) {
            Ok(date) => Ok(TimeBound { imap_date: date, unix: None }),
            Err(e) => Err(e),
        },
        BoundForm::Broken => Err(complain(raw, "unparseable date or time part")),
        BoundForm::Offset(t) => match stamp_second_of(t.as_str()) {
            Some(s) => bound_at_second(raw, s, earlier),
            None => Err(complain(raw, "unparseable date, time or offset")),
        },
        BoundForm::Local(_) => match local {
            LocalTime::Unparseable => Err(complain(raw, "unparseable date or time part")),
            LocalTime::NoSuchTime => Err(complain(raw, "not a valid local time")),
            LocalTime::At(s) => bound_at_second(raw, s, earlier),
        },
    }
}

/// Reads a bound: `YYYY-MM-DD`, or with a time of day `YYYY-MM-DDTHH:MM[:SS]`,
/// which may be followed by `Z` or an offset; a time without either is meant in
/// the zone. The day that the server searches by is then one day earlier, or one
/// day later.
pub fn parse_time_bound(raw: &str, widen_earlier: bool, zone: Zone) -> (r: Result<TimeBound, String>)
    ensures
        is_bound_in(raw@, widen_earlier, zone, bound_result(r)),
{
    let form = read_form(raw);
    let local = match &form {
        BoundForm::Local(stem) => zone_time(stem.as_str(), zone),
        _ => LocalTime::Unparseable,
    };
    proof {
        assert(stands_for(raw@, zone, local));
    }
    bound_with(raw, form, widen_earlier, local)
}

// ---------------------------------------------------------------------------
// Laws
// ---------------------------------------------------------------------------

/// A bound is a day, with no exact second, if and only if it is no longer than
/// one; anything longer that is accepted carries its second.
pub proof fn days_have_no_second(raw: Seq<char>, earlier: bool, local: LocalTime)
    requires
        time_bound(raw, earlier, local) is Ok,
    ensures
        time_bound(raw, earlier, local)->Ok_0.unix is None <==> byte_len(raw) <= 10,
{
}

/// The two directions of a bound share their second and differ only in the day
/// that the server searches by: the one before the day of that second in UTC, or
/// the one after it. A plain day is the same day in both.
pub proof fn directions_share_their_second(raw: Seq<char>, local: LocalTime)
    ensures
        ({
            let a = time_bound(raw, true, local);
            let b = time_bound(raw, false, local);
            &&& a is Ok && b is Ok ==> a->Ok_0.unix == b->Ok_0.unix
            &&& a is Ok && a->Ok_0.unix is Some ==> {
                &&& day_beside(a->Ok_0.unix->0, true) is Some
                &&& imap_date(day_text(day_beside(a->Ok_0.unix->0, true)->0)) == Ok::<
                    Seq<char>,
                    Seq<char>,
                >(a->Ok_0.imap_date)
            }
            &&& b is Ok && b->Ok_0.unix is Some ==> {
                &&& day_beside(b->Ok_0.unix->0, false) is Some
                &&& imap_date(day_text(day_beside(b->Ok_0.unix->0, false)->0)) == Ok::<
                    Seq<char>,
                    Seq<char>,
                >(b->Ok_0.imap_date)
            }
            &&& byte_len(raw) <= 10 ==> a == b && match imap_date(raw) {
                Ok(date) => a == Ok::<BoundView, Seq<char>>(
                    BoundView { imap_date: date, unix: None },
                ),
                Err(_) => a is Err,
            }
        }),
{
}

/// The day that the server searches by lies outside the exact second, so that
/// the server leaves out no message that the second keeps: before the day of the
/// second in UTC where later messages are asked for, and after it where earlier
/// ones are.
pub proof fn server_days_lie_outside_the_second(
    raw: Seq<char>,
    earlier: bool,
    local: LocalTime,
) -> (r: ((i16, i8, i8), (i16, i8, i8)))
    requires
        time_bound(raw, earlier, local) is Ok,
        time_bound(raw, earlier, local)->Ok_0.unix is Some,
    ensures
        ({
            let bound = time_bound(raw, earlier, local)->Ok_0;
            let (own, searched) = r;
            &&& utc_civil(bound.unix->0) matches Some(c)
            &&& own == (c.0, c.1, c.2)
            &&& imap_date(day_text(searched)) == Ok::<Seq<char>, Seq<char>>(bound.imap_date)
            &&& earlier ==> is_earlier_day(searched, own)
            &&& !earlier ==> is_earlier_day(own, searched)
        }),
{
    let second = time_bound(raw, earlier, local)->Ok_0.unix->0;
    let c = utc_civil(second)->0;
    ((c.0, c.1, c.2), day_beside(second, earlier)->0)
}

/// Read in one zone that is no machine's, or with an offset of its own, a bound
/// has the same second in both directions.
pub proof fn bounds_agree_on_their_second(
    raw: Seq<char>,
    zone: Zone,
    a: Result<BoundView, Seq<char>>,
    b: Result<BoundView, Seq<char>>,
)
    requires
        zone is Fixed || !(bound_form(raw) is Local),
        is_bound_in(raw, true, zone, a),
        is_bound_in(raw, false, zone, b),
        a is Ok,
        b is Ok,
    ensures
        a->Ok_0.unix == b->Ok_0.unix,
{
    let x = choose|local: LocalTime| #[trigger]
        stands_for(raw, zone, local) && a == time_bound(raw, true, local);
    let y = choose|local: LocalTime| #[trigger]
        stands_for(raw, zone, local) && b == time_bound(raw, false, local);
    directions_share_their_second(raw, x);
    assert(time_bound(raw, false, x) == time_bound(raw, false, y));
}

/// A local bound that is a date with a time of day is never called unreadable,
/// and has its second in every year but those at the end of what is supported.
pub proof fn local_bounds_have_a_second(
    raw: Seq<char>,
    stem: Seq<char>,
    c: (i16, i8, i8, i8, i8, i8),
    local: LocalTime,
)
    requires
        bound_form(raw) == FormView::Local(stem),
        stands_for(raw, Zone::Local, local),
        civil_text(stem) == Some(c),
        -9998 <= c.0 <= 9998,
        fixed_second(c, 0) is Some,
    ensures
        bound_second(bound_form(raw), local) is Ok,
{
}

} // verus!
