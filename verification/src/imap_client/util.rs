//! Pure helpers of the mail client and the tools.

use base64::Engine;
use vstd::prelude::*;
use vstd::utf8::decode_utf8;
use vstd::utf8::is_ascii_chars;
use vstd::utf8::valid_utf8;

use crate::text::append_range;
use crate::text::ascii_lower;
use crate::text::ascii_lower_char;
use crate::text::ascii_lower_string;
use crate::text::ascii_lower_text;
use crate::text::byte_len;
use crate::text::byte_len_of;
use crate::text::chars_of;
use crate::text::contains_text;
use crate::text::control_char;
use crate::text::copy_of;
use crate::text::decimal;
use crate::text::decimal_string;
use crate::text::find_first;
use crate::text::find_first_at;
use crate::text::find_from;
use crate::text::find_last;
use crate::text::find_last_at;
use crate::text::is_control;
use crate::text::is_white_space;
use crate::text::lowercase;
use crate::text::lowercase_ignores_case;
use crate::text::lowercase_of;
use crate::text::next_char;
use crate::text::next_char_at;
use crate::text::occurs_at;
use crate::text::occurs_here;
use crate::text::opt_text;
use crate::text::parse_number;
use crate::text::parsed_number;
use crate::text::same_text;
use crate::text::string_of_range;
use crate::text::text_contains;
use crate::text::texts;
use crate::text::trim;
use crate::text::trim_start;
use crate::text::trim_start_bound;
use crate::text::trimmed;

verus! {

// ---------------------------------------------------------------------------
// Strings in IMAP commands
// ---------------------------------------------------------------------------

/// A character inside an IMAP quoted string: backslash and quote are escaped,
/// controls are dropped.
pub open spec fn imap_escape(c: char) -> Seq<char> {
    if c == '\\' {
        seq!['\\', '\\']
    } else if c == '"' {
        seq!['\\', '"']
    } else if is_control(c) {
        Seq::empty()
    } else {
        seq![c]
    }
}

/// A text inside an IMAP quoted string.
pub open spec fn imap_escaped(s: Seq<char>) -> Seq<char> {
    s.flat_map(|c: char| imap_escape(c))
}

/// Escapes a text for use inside an IMAP quoted string.
pub fn escape_imap_string(s: &str) -> (out: String)
    ensures
        out@ == imap_escaped(s@),
{
    let cs = chars_of(s);
    let n: usize = cs.len();
    proof {
        assert(cs@.subrange(0, n as int) =~= s@);
    }
    escape_range(&cs, 0, n)
}

/// Escapes the characters at `from..to` for an IMAP quoted string.
fn escape_range(cs: &[char], from: usize, to: usize) -> (out: String)
    requires
        from <= to <= cs@.len(),
    ensures
        out@ == imap_escaped(cs@.subrange(from as int, to as int)),
{
    let ghost s = cs@.subrange(from as int, to as int);
    let ghost f = |c: char| imap_escape(c);
    let mut out = String::new();
    let mut i: usize = from;
    proof {
        assert(s.take(0).flat_map(f) =~= Seq::<char>::empty());
    }
    while i < to
        invariant
            from <= i <= to <= cs@.len(),
            s == cs@.subrange(from as int, to as int),
            f == |c: char| imap_escape(c),
            out@ == s.take(i - from).flat_map(f),
        decreases to - i,
    {
        let c: char = cs[i];
        let ghost before = out@;
        proof {
            s.lemma_flat_map_take_append(f, i - from);
            assert(f(s[i - from]) == imap_escape(c));
        }
        if c == '\\' {
            out.push('\\');
            out.push('\\');
        } else if c == '"' {
            out.push('\\');
            out.push('"');
        } else if !control_char(c) {
            out.push(c);
        }
        proof {
            assert(out@ =~= before + imap_escape(c));
        }
        i += 1;
    }
    proof {
        assert(s.take(to - from) =~= s);
    }
    out
}

/// Whether an IMAP host reliably searches for text that is not ASCII. Outlook
/// and Exchange accept the syntax but never find anything.
pub open spec fn searches_unicode(host: Seq<char>) -> bool {
    let h = ascii_lower_text(host);
    !(contains_text(h, "office365.com"@) || contains_text(h, "outlook.com"@) || contains_text(
        h,
        "outlook.office.com"@,
    ))
}

/// Decides [`searches_unicode`].
pub fn host_supports_unicode_search(host: &str) -> (yes: bool)
    ensures
        yes == searches_unicode(host@),
{
    let h = ascii_lower_string(host);
    !(text_contains(h.as_str(), "office365.com") || text_contains(h.as_str(), "outlook.com")
        || text_contains(h.as_str(), "outlook.office.com"))
}

/// A text without its control characters.
pub open spec fn without_controls(s: Seq<char>) -> Seq<char> {
    s.filter(|c: char| !is_control(c))
}

/// Control characters are left out of a text, and nothing else is.
pub proof fn control_characters_are_left_out(s: Seq<char>, c: char)
    ensures
        without_controls(s).contains(c) <==> s.contains(c) && !is_control(c),
        (forall|i: int| 0 <= i < s.len() ==> !is_control(#[trigger] s[i])) ==> without_controls(s)
            == s,
    decreases s.len(),
{
    reveal_with_fuel(Seq::filter, 1);
    if s.len() == 0 {
        assert(without_controls(s) =~= s);
    } else {
        let front = s.drop_last();
        let last = s.last();
        let head = without_controls(front);
        let all = without_controls(s);
        control_characters_are_left_out(front, c);
        assert(front.push(last) =~= s);
        assert(s[s.len() - 1] == last);
        if !is_control(last) {
            assert(all == head.push(last));
            assert(all[head.len() as int] == last);
        } else {
            assert(all == head);
        }
        if head.contains(c) {
            let k = choose|k: int| 0 <= k < head.len() && head[k] == c;
            assert(all[k] == c);
        }
        if all.contains(c) {
            let k = choose|k: int| 0 <= k < all.len() && all[k] == c;
            if k < head.len() {
                assert(head[k] == c);
            }
        }
        if s.contains(c) {
            let k = choose|k: int| 0 <= k < s.len() && s[k] == c;
            if k < front.len() {
                assert(front[k] == c);
            }
        }
        if front.contains(c) {
            let k = choose|k: int| 0 <= k < front.len() && front[k] == c;
            assert(s[k] == c);
        }
        if forall|i: int| 0 <= i < s.len() ==> !is_control(#[trigger] s[i]) {
            assert forall|i: int| 0 <= i < front.len() implies !is_control(#[trigger] front[i]) by {
                assert(front[i] == s[i]);
            }
        }
    }
}

/// Computes [`without_controls`].
pub fn strip_controls(s: &str) -> (out: String)
    ensures
        out@ == without_controls(s@),
{
    let cs = chars_of(s);
    let mut out = String::new();
    let mut i: usize = 0;
    while i < cs.len()
        invariant
            cs@ == s@,
            i <= cs@.len(),
            out@ == without_controls(s@.take(i as int)),
        decreases cs@.len() - i,
    {
        proof {
            assert(s@.take(i as int + 1).drop_last() =~= s@.take(i as int));
            reveal_with_fuel(Seq::filter, 1);
        }
        if !control_char(cs[i]) {
            out.push(cs[i]);
        }
        i += 1;
    }
    proof {
        assert(s@.take(s@.len() as int) =~= s@);
    }
    out
}

/// What a server reads between the quotes of a quoted string: a backslash takes
/// the quote or backslash behind it as it is. Nothing where the text would end
/// the string early, leave it open or break the line.
pub open spec fn unquoted(t: Seq<char>) -> Option<Seq<char>>
    decreases t.len(),
{
    if t.len() == 0 {
        Some(Seq::empty())
    } else if t[0] == '"' || is_control(t[0]) {
        None
    } else if t[0] != '\\' {
        match unquoted(t.skip(1)) {
            Some(rest) => Some(seq![t[0]] + rest),
            None => None,
        }
    } else if t.len() > 1 && (t[1] == '"' || t[1] == '\\') {
        match unquoted(t.skip(2)) {
            Some(rest) => Some(seq![t[1]] + rest),
            None => None,
        }
    } else {
        None
    }
}

proof fn lemma_unquoted_concat(a: Seq<char>, b: Seq<char>)
    requires
        unquoted(a) is Some,
        unquoted(b) is Some,
    ensures
        unquoted(a + b) == Some(unquoted(a)->0 + unquoted(b)->0),
    decreases a.len(),
{
    if a.len() == 0 {
        assert(a + b =~= b);
        assert(Seq::<char>::empty() + unquoted(b)->0 =~= unquoted(b)->0);
    } else if a[0] != '\\' {
        lemma_unquoted_concat(a.skip(1), b);
        assert((a + b).skip(1) =~= a.skip(1) + b);
        let x = unquoted(a.skip(1))->0;
        assert(seq![a[0]] + (x + unquoted(b)->0) =~= seq![a[0]] + x + unquoted(b)->0);
    } else {
        lemma_unquoted_concat(a.skip(2), b);
        assert((a + b).skip(2) =~= a.skip(2) + b);
        let x = unquoted(a.skip(2))->0;
        assert(seq![a[1]] + (x + unquoted(b)->0) =~= seq![a[1]] + x + unquoted(b)->0);
    }
}

proof fn lemma_unquoted_char(c: char)
    ensures
        unquoted(imap_escape(c)) == Some(without_controls(seq![c])),
{
    let e = imap_escape(c);
    reveal_with_fuel(unquoted, 2);
    reveal_with_fuel(Seq::filter, 2);
    assert(seq![c].drop_last() =~= Seq::<char>::empty());
    assert(Seq::<char>::empty().push(c) =~= seq![c]);
    if e.len() == 1 {
        assert(e.skip(1) =~= Seq::<char>::empty());
        assert(seq![c] + Seq::<char>::empty() =~= seq![c]);
    } else if e.len() == 2 {
        assert(e.skip(2) =~= Seq::<char>::empty());
        assert(seq![c] + Seq::<char>::empty() =~= seq![c]);
    }
}

proof fn lemma_quoted_reads_back(s: Seq<char>, n: int)
    requires
        0 <= n <= s.len(),
    ensures
        unquoted(imap_escaped(s.take(n))) == Some(without_controls(s.take(n))),
    decreases n,
{
    let f = |c: char| imap_escape(c);
    let keep = |c: char| !is_control(c);
    if n == 0 {
        assert(s.take(0).flat_map(f) =~= Seq::<char>::empty());
        reveal_with_fuel(Seq::filter, 1);
        assert(without_controls(s.take(0)) =~= Seq::<char>::empty());
    } else {
        lemma_quoted_reads_back(s, n - 1);
        s.lemma_flat_map_take_append(f, n - 1);
        lemma_unquoted_char(s[n - 1]);
        lemma_unquoted_concat(imap_escaped(s.take(n - 1)), imap_escape(s[n - 1]));
        assert(s.take(n) =~= s.take(n - 1) + seq![s[n - 1]]);
        Seq::filter_distributes_over_add(s.take(n - 1), seq![s[n - 1]], keep);
    }
}

/// A server reads a quoted text back as it was, but for its control characters:
/// no quote in it ends the string early, and no line break gets into the
/// command.
pub proof fn quoted_texts_read_back(s: Seq<char>)
    ensures
        unquoted(imap_escaped(s)) == Some(without_controls(s)),
{
    lemma_quoted_reads_back(s, s.len() as int);
    assert(s.take(s.len() as int) =~= s);
}

/// A text as an argument of an IMAP search: quoted where it is ASCII, else a
/// non-synchronizing literal with its length in bytes.
pub open spec fn astring(value: Seq<char>) -> Seq<char> {
    let clean = without_controls(value);
    if is_ascii_chars(clean) {
        "\""@ + imap_escaped(clean) + "\""@
    } else {
        "{"@ + decimal(byte_len(clean)) + "+}\r\n"@ + clean
    }
}

/// Computes [`astring`].
pub fn imap_astring(value: &str) -> (out: String)
    ensures
        out@ == astring(value@),
{
    let clean = strip_controls(value);
    if clean.as_str().is_ascii() {
        let mut out = copy_of("\"");
        let body = escape_imap_string(clean.as_str());
        out.append(body.as_str());
        out.append("\"");
        out
    } else {
        let mut out = copy_of("{");
        let n: usize = byte_len_of(clean.as_str());
        let digits = decimal_string(n as u64);
        out.append(digits.as_str());
        out.append("+}\r\n");
        out.append(clean.as_str());
        out
    }
}

// ---------------------------------------------------------------------------
// Dates
// ---------------------------------------------------------------------------

/// The name of a month in an IMAP date.
pub open spec fn month_name(month: int) -> Option<Seq<char>> {
    if month == 1 {
        Some("Jan"@)
    } else if month == 2 {
        Some("Feb"@)
    } else if month == 3 {
        Some("Mar"@)
    } else if month == 4 {
        Some("Apr"@)
    } else if month == 5 {
        Some("May"@)
    } else if month == 6 {
        Some("Jun"@)
    } else if month == 7 {
        Some("Jul"@)
    } else if month == 8 {
        Some("Aug"@)
    } else if month == 9 {
        Some("Sep"@)
    } else if month == 10 {
        Some("Oct"@)
    } else if month == 11 {
        Some("Nov"@)
    } else if month == 12 {
        Some("Dec"@)
    } else {
        None
    }
}

fn month_abbreviation(month: u64) -> (name: Option<&'static str>)
    ensures
        match name {
            Some(s) => month_name(month as int) == Some(s@),
            None => month_name(month as int) is None,
        },
{
    if month == 1 {
        Some("Jan")
    } else if month == 2 {
        Some("Feb")
    } else if month == 3 {
        Some("Mar")
    } else if month == 4 {
        Some("Apr")
    } else if month == 5 {
        Some("May")
    } else if month == 6 {
        Some("Jun")
    } else if month == 7 {
        Some("Jul")
    } else if month == 8 {
        Some("Aug")
    } else if month == 9 {
        Some("Sep")
    } else if month == 10 {
        Some("Oct")
    } else if month == 11 {
        Some("Nov")
    } else if month == 12 {
        Some("Dec")
    } else {
        None
    }
}

/// The IMAP form `D-Mon-YYYY` of a date `YYYY-MM-DD`, or what is wrong with it.
pub open spec fn imap_date(iso: Seq<char>) -> Result<Seq<char>, Seq<char>> {
    let a = next_char(iso, '-', 0);
    let b = next_char(iso, '-', a + 1);
    let n = iso.len() as int;
    if a >= n || b >= n || next_char(iso, '-', b + 1) < n {
        Err("Invalid date format: "@ + iso + ". Expected YYYY-MM-DD"@)
    } else {
        let month = parsed_number(iso.subrange(a + 1, b), 10, 0xffff_ffff);
        let day = parsed_number(iso.subrange(b + 1, n), 10, 0xffff_ffff);
        match (month, day) {
            (None, _) => Err("Invalid month"@),
            (_, None) => Err("Invalid day"@),
            (Some(m), Some(d)) => match month_name(m as int) {
                Some(name) => Ok(decimal(d) + "-"@ + name + "-"@ + iso.subrange(0, a)),
                None => Err("Invalid month: "@ + decimal(m)),
            },
        }
    }
}

/// The text of a result, whichever it is.
pub open spec fn result_text(r: Result<String, String>) -> Result<Seq<char>, Seq<char>> {
    match r {
        Ok(s) => Ok(s@),
        Err(e) => Err(e@),
    }
}

/// Converts a date `YYYY-MM-DD` to the IMAP form `D-Mon-YYYY`.
pub fn iso_to_imap_date(iso: &str) -> (out: Result<String, String>)
    ensures
        result_text(out) == imap_date(iso@),
{
    let cs = chars_of(iso);
    let n: usize = cs.len();
    let a: usize = next_char_at(&cs, '-', 0);
    let mut well_formed = false;
    let mut b: usize = n;
    if a < n {
        b = next_char_at(&cs, '-', a + 1);
        if b < n {
            let c: usize = next_char_at(&cs, '-', b + 1);
            well_formed = c >= n;
        }
    }
    if !well_formed {
        let mut msg = copy_of("Invalid date format: ");
        msg.append(iso);
        msg.append(". Expected YYYY-MM-DD");
        return Err(msg);
    }
    let month: u64 = match parse_number(&cs, a + 1, b, 10, 0xffff_ffff) {
        Some(m) => m,
        None => {
            return Err(copy_of("Invalid month"));
        },
    };
    let day: u64 = match parse_number(&cs, b + 1, n, 10, 0xffff_ffff) {
        Some(d) => d,
        None => {
            return Err(copy_of("Invalid day"));
        },
    };
    match month_abbreviation(month) {
        Some(name) => {
            let mut out = decimal_string(day);
            out.append("-");
            out.append(name);
            out.append("-");
            let year = string_of_range(&cs, 0, a);
            out.append(year.as_str());
            Ok(out)
        },
        None => {
            let mut msg = copy_of("Invalid month: ");
            let digits = decimal_string(month);
            msg.append(digits.as_str());
            Err(msg)
        },
    }
}

proof fn lemma_month_names(month: int)
    ensures
        match month_name(month) {
            Some(name) => 1 <= month <= 12 && name
                == "JanFebMarAprMayJunJulAugSepOctNovDec"@.subrange(3 * month - 3, 3 * month),
            None => !(1 <= month <= 12),
        },
{
    reveal_strlit("JanFebMarAprMayJunJulAugSepOctNovDec");
    reveal_strlit("Jan");
    reveal_strlit("Feb");
    reveal_strlit("Mar");
    reveal_strlit("Apr");
    reveal_strlit("May");
    reveal_strlit("Jun");
    reveal_strlit("Jul");
    reveal_strlit("Aug");
    reveal_strlit("Sep");
    reveal_strlit("Oct");
    reveal_strlit("Nov");
    reveal_strlit("Dec");
    if 1 <= month <= 12 {
        assert(month_name(month)->0
            =~= "JanFebMarAprMayJunJulAugSepOctNovDec"@.subrange(3 * month - 3, 3 * month));
    }
}

/// A date in the form that servers read tells the same day: its day, the name of
/// its month and its year are those of the date that it was made from. It is made
/// exactly where the month is one of the year and the day is a number.
pub proof fn imap_dates_tell_the_same_day(year: Seq<char>, month: Seq<char>, day: Seq<char>)
    requires
        !year.contains('-'),
        !month.contains('-'),
        !day.contains('-'),
    ensures
        ({
            let m = parsed_number(month, 10, 0xffff_ffff);
            let d = parsed_number(day, 10, 0xffff_ffff);
            match imap_date(year + "-"@ + month + "-"@ + day) {
                Ok(text) => m is Some && 1 <= m->0 <= 12 && d is Some && text == decimal(d->0)
                    + "-"@ + "JanFebMarAprMayJunJulAugSepOctNovDec"@.subrange(
                    3 * m->0 - 3,
                    3 * m->0 as int,
                ) + "-"@ + year,
                Err(_) => m is None || !(1 <= m->0 <= 12) || d is None,
            }
        }),
{
    reveal_strlit("-");
    let iso = year + "-"@ + month + "-"@ + day;
    let a = year.len() as int;
    let b = a + 1 + month.len();
    assert(iso[a] == '-' && iso[b] == '-');
    crate::text::lemma_next_char(iso, '-', 0);
    assert(next_char(iso, '-', 0) == a) by {
        let x = next_char(iso, '-', 0);
        if x < a {
            assert(iso[x] == year[x]);
        }
    }
    crate::text::lemma_next_char(iso, '-', a + 1);
    assert(next_char(iso, '-', a + 1) == b) by {
        let x = next_char(iso, '-', a + 1);
        if x < b {
            assert(iso[x] == month[x - a - 1]);
        }
    }
    crate::text::lemma_next_char(iso, '-', b + 1);
    assert(next_char(iso, '-', b + 1) == iso.len()) by {
        let x = next_char(iso, '-', b + 1);
        if x < iso.len() {
            assert(iso[x] == day[x - b - 1]);
        }
    }
    assert(iso.subrange(0, a) =~= year);
    assert(iso.subrange(a + 1, b) =~= month);
    assert(iso.subrange(b + 1, iso.len() as int) =~= day);
    if let Some(m) = parsed_number(month, 10, 0xffff_ffff) {
        lemma_month_names(m as int);
    }
}

// ---------------------------------------------------------------------------
// OR chains
// ---------------------------------------------------------------------------

/// Criteria of which one must hold, in the prefix notation of IMAP:
/// `OR a OR b c`.
pub open spec fn or_chain(criteria: Seq<Seq<char>>) -> Seq<char>
    decreases criteria.len(),
{
    if criteria.len() == 0 {
        Seq::empty()
    } else if criteria.len() == 1 {
        criteria[0]
    } else {
        "OR "@ + criteria[0] + " "@ + or_chain(criteria.drop_first())
    }
}

/// Combines criteria of which one must hold; nothing for no criteria.
pub fn build_or_criteria(criteria: &Vec<String>) -> (out: Option<String>)
    ensures
        opt_text(out) == if criteria@.len() == 0 {
            None
        } else {
            Some(or_chain(texts(criteria@)))
        },
{
    let n: usize = criteria.len();
    if n == 0 {
        return None;
    }
    let ghost all = texts(criteria@);
    let mut out = String::new();
    let mut i: usize = 0;
    proof {
        assert(all.skip(0) =~= all);
        assert(Seq::<char>::empty() + or_chain(all) =~= or_chain(all));
    }
    while i < n - 1
        invariant
            n == criteria@.len(),
            n > 0,
            i <= n - 1,
            all == texts(criteria@),
            out@ + or_chain(all.skip(i as int)) == or_chain(all),
        decreases n - i,
    {
        let ghost before = out@;
        proof {
            assert(all.skip(i as int).drop_first() =~= all.skip(i as int + 1));
            assert(all[i as int] == criteria@[i as int]@);
        }
        out.append("OR ");
        out.append(criteria[i].as_str());
        out.append(" ");
        proof {
            let rest = or_chain(all.skip(i as int + 1));
            assert(out@ + rest =~= before + ("OR "@ + all[i as int] + " "@ + rest));
        }
        i += 1;
    }
    out.append(criteria[n - 1].as_str());
    proof {
        assert(all[n - 1] == criteria@[n - 1]@);
    }
    Some(out)
}

// ---------------------------------------------------------------------------
// Log lines
// ---------------------------------------------------------------------------

/// The hexadecimal digit of a number below sixteen.
pub open spec fn hex_digit(d: int) -> char {
    if d < 10 {
        ('0' as u32 + d) as char
    } else {
        ('A' as u32 + (d - 10)) as char
    }
}

/// Computes [`hex_digit`].
pub fn hex_digit_of(d: u32) -> (c: char)
    requires
        d < 16,
    ensures
        c == hex_digit(d as int),
{
    if d < 10 {
        (48u8 + d as u8) as char
    } else {
        (55u8 + d as u8) as char
    }
}

/// A number in capital hexadecimal.
pub open spec fn hex_text(n: nat) -> Seq<char>
    decreases n,
{
    if n < 16 {
        seq![hex_digit(n as int)]
    } else {
        hex_text(n / 16).push(hex_digit((n % 16) as int))
    }
}

/// Computes [`hex_text`].
pub fn hex_string(n: u32) -> (out: String)
    ensures
        out@ == hex_text(n as nat),
    decreases n,
{
    let mut out = String::new();
    if n >= 16 {
        out = hex_string(n / 16);
    }
    proof {
        assert(Seq::<char>::empty().push(hex_digit(n as int)) =~= seq![hex_digit(n as int)]);
    }
    out.push(hex_digit_of(n % 16));
    out
}

/// A character in a log line: what could end the line or hide is written as
/// `\xNN`.
pub open spec fn log_char(c: char) -> Seq<char> {
    let n = c as u32;
    if is_control(c) || n == 0x2028 || n == 0x2029 || n == 0xfeff {
        "\\x"@ + (if n < 16 {
            seq!['0']
        } else {
            Seq::empty()
        }) + hex_text(n as nat)
    } else {
        seq![c]
    }
}

/// A text in a log line.
pub open spec fn log_text(s: Seq<char>) -> Seq<char> {
    s.flat_map(|c: char| log_char(c))
}

/// Makes a text safe for a log line.
pub fn sanitize_log_str(s: &str) -> (out: String)
    ensures
        out@ == log_text(s@),
{
    let cs = chars_of(s);
    let ghost f = |c: char| log_char(c);
    let mut out = String::new();
    let mut i: usize = 0;
    proof {
        assert(s@.take(0).flat_map(f) =~= Seq::<char>::empty());
    }
    while i < cs.len()
        invariant
            cs@ == s@,
            i <= cs@.len(),
            f == |c: char| log_char(c),
            out@ == s@.take(i as int).flat_map(f),
        decreases cs@.len() - i,
    {
        let c: char = cs[i];
        let ghost before = out@;
        proof {
            s@.lemma_flat_map_take_append(f, i as int);
        }
        let n: u32 = c as u32;
        if control_char(c) || n == 0x2028 || n == 0x2029 || n == 0xfeff {
            out.append("\\x");
            if n < 16 {
                out.push('0');
            }
            let h = hex_string(n);
            out.append(h.as_str());
        } else {
            out.push(c);
        }
        proof {
            assert(out@ =~= before + log_char(c));
            assert(f(s@[i as int]) == log_char(c));
        }
        i += 1;
    }
    proof {
        assert(s@.take(s@.len() as int) =~= s@);
    }
    out
}

/// The characters that a log line may not hold.
pub open spec fn breaks_log_line(c: char) -> bool {
    is_control(c) || c as u32 == 0x2028 || c as u32 == 0x2029 || c as u32 == 0xfeff
}

proof fn lemma_hex_text_is_plain(n: nat)
    ensures
        forall|i: int| 0 <= i < hex_text(n).len() ==> !breaks_log_line(#[trigger] hex_text(n)[i]),
    decreases n,
{
    let t = hex_text(n);
    if n >= 16 {
        lemma_hex_text_is_plain(n / 16);
    }
    assert forall|i: int| 0 <= i < t.len() implies !breaks_log_line(#[trigger] t[i]) by {
        if i < t.len() - 1 {
            assert(t[i] == hex_text(n / 16)[i]);
        } else {
            let d = if n < 16 { n as int } else { (n % 16) as int };
            assert(t[i] == hex_digit(d));
            assert(0 <= d < 16);
        }
    }
}

proof fn lemma_log_char_is_plain(c: char)
    ensures
        forall|i: int| 0 <= i < log_char(c).len() ==> !breaks_log_line(#[trigger] log_char(c)[i]),
{
    reveal_strlit("\\x");
    lemma_hex_text_is_plain(c as u32 as nat);
}

proof fn lemma_log_text_is_plain(s: Seq<char>, n: int)
    requires
        0 <= n <= s.len(),
    ensures
        forall|i: int|
            0 <= i < log_text(s.take(n)).len() ==> !breaks_log_line(
                #[trigger] log_text(s.take(n))[i],
            ),
    decreases n,
{
    let f = |c: char| log_char(c);
    if n == 0 {
        assert(s.take(0).flat_map(f) =~= Seq::<char>::empty());
    } else {
        lemma_log_text_is_plain(s, n - 1);
        s.lemma_flat_map_take_append(f, n - 1);
        lemma_log_char_is_plain(s[n - 1]);
        let head = log_text(s.take(n - 1));
        let t = log_text(s.take(n));
        assert(t == head + log_char(s[n - 1]));
        assert forall|i: int| 0 <= i < t.len() implies !breaks_log_line(#[trigger] t[i]) by {
            if i < head.len() {
                assert(t[i] == head[i]);
            } else {
                assert(t[i] == log_char(s[n - 1])[i - head.len()]);
            }
        }
    }
}

/// Whatever a server or a sender wrote, it stays on its line of the log.
pub proof fn log_texts_stay_on_their_line(s: Seq<char>)
    ensures
        forall|i: int|
            0 <= i < log_text(s).len() ==> !breaks_log_line(#[trigger] log_text(s)[i]),
{
    lemma_log_text_is_plain(s, s.len() as int);
    assert(s.take(s.len() as int) =~= s);
}

// ---------------------------------------------------------------------------
// Kinds of errors
// ---------------------------------------------------------------------------

/// Some phrase of a list occurs in a text.
pub open spec fn contains_some(s: Seq<char>, phrases: Seq<Seq<char>>) -> bool {
    exists|i: int| 0 <= i < phrases.len() && contains_text(s, #[trigger] phrases[i])
}

/// The texts of a list of string slices.
pub open spec fn slice_texts(v: Seq<&str>) -> Seq<Seq<char>> {
    v.map_values(|s: &str| s@)
}

fn contains_any(s: &str, phrases: &[&str]) -> (yes: bool)
    ensures
        yes == contains_some(s@, slice_texts(phrases@)),
{
    let h = chars_of(s);
    let ghost all = slice_texts(phrases@);
    let mut i: usize = 0;
    while i < phrases.len()
        invariant
            h@ == s@,
            i <= phrases@.len(),
            all == slice_texts(phrases@),
            forall|j: int| 0 <= j < i ==> !contains_text(s@, #[trigger] all[j]),
        decreases phrases@.len() - i,
    {
        let n = chars_of(phrases[i]);
        proof {
            assert(all[i as int] == phrases@[i as int]@);
        }
        match find_from(&h, &n, 0) {
            Some(p) => {
                return true;
            },
            None => {},
        }
        i += 1;
    }
    false
}

/// Phrases that tell that the session is unusable: the transport failed, the
/// server said goodbye, or the stream is out of step.
pub open spec fn connection_phrases() -> Seq<Seq<char>> {
    seq![
        "broken pipe"@,
        "connection reset"@,
        "connection refused"@,
        "connection closed"@,
        "connection is closed"@,
        "connection aborted"@,
        "connection lost"@,
        "peer closed"@,
        "close_notify"@,
        "unexpected eof"@,
        "timed out"@,
        "network is unreachable"@,
        "no route to host"@,
        "status: bye"@,
        "* bye"@,
        "unable to parse"@,
        "invalid response"@,
        "no mailbox selected"@,
    ]
}

/// Phrases that tell of a passing state of the server.
pub open spec fn transient_phrases() -> Seq<Seq<char>> {
    seq![
        "[unavailable]"@,
        "[inuse]"@,
        "server unavailable"@,
        "service unavailable"@,
        "temporarily"@,
        "temporary error"@,
        "temporary failure"@,
        "temporary problem"@,
        "mailbox is in use"@,
        "try again"@,
        "too many connections"@,
    ]
}

/// The message tells that the session must be renewed.
pub open spec fn connection_error(msg: Seq<char>) -> bool {
    contains_some(lowercase(msg), connection_phrases())
}

/// The message tells of something that a later attempt may not meet.
pub open spec fn retryable_error(msg: Seq<char>) -> bool {
    connection_error(msg) || contains_some(lowercase(msg), transient_phrases())
}

/// Retrying goes by the words of a message, whatever the case of their ASCII
/// letters, and every message that tells of a lost connection may be retried.
pub proof fn retries_ignore_case(msg: Seq<char>, other: Seq<char>)
    requires
        ascii_lower_text(msg) == ascii_lower_text(other),
    ensures
        retryable_error(msg) == retryable_error(other),
        connection_error(msg) == connection_error(other),
        connection_error(msg) ==> retryable_error(msg),
{
    lowercase_ignores_case(msg, other);
}

/// Decides [`connection_error`].
pub fn is_connection_error(msg: &str) -> (yes: bool)
    ensures
        yes == connection_error(msg@),
{
    let lower = lowercase_of(msg);
    let phrases: [&str; 18] = [
        "broken pipe",
        "connection reset",
        "connection refused",
        "connection closed",
        "connection is closed",
        "connection aborted",
        "connection lost",
        "peer closed",
        "close_notify",
        "unexpected eof",
        "timed out",
        "network is unreachable",
        "no route to host",
        "status: bye",
        "* bye",
        "unable to parse",
        "invalid response",
        "no mailbox selected",
    ];
    proof {
        assert(slice_texts(phrases@) =~= connection_phrases());
    }
    contains_any(lower.as_str(), phrases.as_slice())
}

/// Whether retrying the same call later is sensible.
pub fn is_retryable_error(msg: &str) -> (yes: bool)
    ensures
        yes == retryable_error(msg@),
{
    if is_connection_error(msg) {
        return true;
    }
    let lower = lowercase_of(msg);
    let phrases: [&str; 11] = [
        "[unavailable]",
        "[inuse]",
        "server unavailable",
        "service unavailable",
        "temporarily",
        "temporary error",
        "temporary failure",
        "temporary problem",
        "mailbox is in use",
        "try again",
        "too many connections",
    ];
    proof {
        assert(slice_texts(phrases@) =~= transient_phrases());
    }
    contains_any(lower.as_str(), phrases.as_slice())
}

// ---------------------------------------------------------------------------
// Message-IDs
// ---------------------------------------------------------------------------

/// An angle bracket.
pub open spec fn is_angle(c: char) -> bool {
    c == '<' || c == '>'
}

/// A text without the angle brackets at its beginning.
pub open spec fn trim_angle_start(s: Seq<char>) -> Seq<char>
    decreases s.len(),
{
    if s.len() > 0 && is_angle(s[0]) {
        trim_angle_start(s.drop_first())
    } else {
        s
    }
}

/// A text without the angle brackets at its end.
pub open spec fn trim_angle_end(s: Seq<char>) -> Seq<char>
    decreases s.len(),
{
    if s.len() > 0 && is_angle(s.last()) {
        trim_angle_end(s.drop_last())
    } else {
        s
    }
}

/// A text without the angle brackets at either end.
pub open spec fn trim_angles(s: Seq<char>) -> Seq<char> {
    trim_angle_end(trim_angle_start(s))
}

/// An id is what stands between its angle brackets, and an id without them is left
/// as it is.
pub proof fn ids_are_bared(id: Seq<char>)
    requires
        id.len() > 0,
        id[0] != '<' && id[0] != '>',
        id.last() != '<' && id.last() != '>',
    ensures
        trim_angles(id) == id,
        trim_angles(seq!['<'] + id + seq!['>']) == id,
{
    let s = seq!['<'] + id + seq!['>'];
    let t = id + seq!['>'];
    assert(s.drop_first() =~= t);
    assert(t[0] == id[0]);
    assert(trim_angle_start(t) == t);
    assert(trim_angle_start(s) == t);
    assert(t.drop_last() =~= id);
    assert(trim_angle_end(id) == id);
    assert(trim_angle_start(id) == id);
    assert(trim_angle_end(t) == id);
}

/// The bounds of a text without the angle brackets at either end.
fn angle_bounds(cs: &[char]) -> (b: (usize, usize))
    ensures
        b.0 <= b.1 <= cs@.len(),
        cs@.subrange(b.0 as int, b.1 as int) == trim_angles(cs@),
{
    let n: usize = cs.len();
    let mut a: usize = 0;
    proof {
        assert(cs@.subrange(0, n as int) =~= cs@);
    }
    while a < n && (cs[a] == '<' || cs[a] == '>')
        invariant
            n == cs@.len(),
            a <= n,
            trim_angle_start(cs@) == trim_angle_start(cs@.subrange(a as int, n as int)),
        decreases n - a,
    {
        proof {
            assert(cs@.subrange(a as int, n as int).drop_first() =~= cs@.subrange(a + 1, n as int));
        }
        a += 1;
    }
    let ghost core = cs@.subrange(a as int, n as int);
    let mut z: usize = n;
    while z > a && (cs[z - 1] == '<' || cs[z - 1] == '>')
        invariant
            a <= z <= n,
            n == cs@.len(),
            trim_angle_end(core) == trim_angle_end(cs@.subrange(a as int, z as int)),
        decreases z,
    {
        proof {
            assert(cs@.subrange(a as int, z as int).drop_last() =~= cs@.subrange(a as int, z - 1));
        }
        z -= 1;
    }
    (a, z)
}

/// Computes [`trim_angles`].
pub fn without_angles(s: &str) -> (out: String)
    ensures
        out@ == trim_angles(s@),
{
    let cs = chars_of(s);
    let (a, z) = angle_bounds(&cs);
    string_of_range(&cs, a, z)
}

/// Cleans a Message-ID for an IMAP header search: without its brackets, and
/// escaped.
pub fn clean_message_id(id: &str) -> (out: String)
    ensures
        out@ == imap_escaped(trim_angles(id@)),
{
    let bare = without_angles(id);
    escape_imap_string(bare.as_str())
}

/// A byte with an ASCII capital letter made small.
pub open spec fn lower_byte(b: u8) -> u8 {
    if 65 <= b <= 90 {
        (b + 32) as u8
    } else {
        b
    }
}

/// The bytes of `message-id:`.
pub open spec fn message_id_header() -> Seq<u8> {
    seq![109u8, 101u8, 115u8, 115u8, 97u8, 103u8, 101u8, 45u8, 105u8, 100u8, 58u8]
}

/// The first position at or after `i` that holds the byte `b`, or the length.
pub open spec fn next_byte(s: Seq<u8>, b: u8, i: int) -> int
    decreases s.len() - i,
{
    if i < 0 || i >= s.len() {
        s.len() as int
    } else if s[i] == b {
        i
    } else {
        next_byte(s, b, i + 1)
    }
}

/// A line without the carriage return at its end.
pub open spec fn without_cr(line: Seq<u8>) -> Seq<u8> {
    if line.len() > 0 && line.last() == 13u8 {
        line.drop_last()
    } else {
        line
    }
}

/// The value of a header line `Message-ID: …`.
pub open spec fn message_id_value(line: Seq<u8>) -> Option<Seq<char>> {
    let value = line.skip(11);
    if line.len() > 11 && line.take(11).map_values(|b: u8| lower_byte(b)) == message_id_header()
        && valid_utf8(value) && trim(decode_utf8(value)).len() > 0 {
        Some(trim(decode_utf8(value)))
    } else {
        None
    }
}

/// The first Message-ID among the header lines from position `i` on. The
/// header ends at the first empty line.
pub open spec fn message_id_from(s: Seq<u8>, i: int) -> Option<Seq<char>>
    decreases s.len() + 1 - i,
    via message_id_from_decreases
{
    if i < 0 || i > s.len() {
        None
    } else {
        let end = next_byte(s, 10, i);
        let line = without_cr(s.subrange(i, end));
        if line.len() == 0 {
            None
        } else if message_id_value(line) is Some {
            message_id_value(line)
        } else {
            message_id_from(s, end + 1)
        }
    }
}

#[via_fn]
proof fn message_id_from_decreases(s: Seq<u8>, i: int) {
    if 0 <= i <= s.len() {
        lemma_next_byte(s, 10, i);
    }
}

proof fn lemma_next_byte(s: Seq<u8>, b: u8, i: int)
    requires
        0 <= i <= s.len(),
    ensures
        i <= next_byte(s, b, i) <= s.len(),
    decreases s.len() - i,
{
    if i < s.len() && s[i] != b {
        lemma_next_byte(s, b, i + 1);
    }
}

/// `std::str::from_utf8`: the text that the bytes spell, or nothing where they
/// are not UTF-8.
#[verifier::external_body]
pub(crate) fn text_from_utf8(bytes: &[u8]) -> (out: Option<String>)
    ensures
        out is Some == valid_utf8(bytes@),
        out is Some ==> out->0@ == decode_utf8(bytes@),
{
    std::str::from_utf8(bytes).ok().map(String::from)
}

/// Whether the bytes at `from..from + 11` spell `message-id:`, whatever the
/// case.
fn names_message_id(bytes: &[u8], from: usize) -> (yes: bool)
    requires
        from + 11 <= bytes@.len(),
    ensures
        yes == (bytes@.subrange(from as int, from + 11).map_values(|b: u8| lower_byte(b))
            == message_id_header()),
{
    let header: [u8; 11] = [109, 101, 115, 115, 97, 103, 101, 45, 105, 100, 58];
    let ghost low = bytes@.subrange(from as int, from + 11).map_values(|b: u8| lower_byte(b));
    let total: usize = bytes.len();
    let mut i: usize = 0;
    while i < 11
        invariant
            i <= 11,
            from + 11 <= total,
            total == bytes@.len(),
            header@ =~= message_id_header(),
            low == bytes@.subrange(from as int, from + 11).map_values(|b: u8| lower_byte(b)),
            forall|j: int| 0 <= j < i ==> low[j] == message_id_header()[j],
        decreases 11 - i,
    {
        let b: u8 = bytes[from + i];
        let small: u8 = if 65 <= b && b <= 90 {
            b + 32
        } else {
            b
        };
        proof {
            assert(low[i as int] == small);
        }
        if small != header[i] {
            return false;
        }
        i += 1;
    }
    proof {
        assert(low =~= message_id_header());
    }
    true
}

/// Reads the Message-ID, brackets and all, out of the header of a message.
pub fn extract_message_id(message_bytes: &[u8]) -> (out: Option<String>)
    ensures
        opt_text(out) == message_id_from(message_bytes@, 0),
{
    let n: usize = message_bytes.len();
    let mut start: usize = 0;
    loop
        invariant
            n == message_bytes@.len(),
            start <= n,
            message_id_from(message_bytes@, 0) == message_id_from(message_bytes@, start as int),
        decreases n - start,
    {
        let mut end: usize = start;
        while end < n && message_bytes[end] != 10
            invariant
                n == message_bytes@.len(),
                start <= end <= n,
                next_byte(message_bytes@, 10, start as int) == next_byte(
                    message_bytes@,
                    10,
                    end as int,
                ),
            decreases n - end,
        {
            end += 1;
        }
        let ghost whole = message_bytes@.subrange(start as int, end as int);
        let mut stop: usize = end;
        if end > start && message_bytes[end - 1] == 13 {
            stop = end - 1;
            proof {
                assert(whole.drop_last() =~= message_bytes@.subrange(start as int, stop as int));
            }
        }
        let ghost line = message_bytes@.subrange(start as int, stop as int);
        assert(line == without_cr(whole));
        if stop == start {
            return None;
        }
        if stop - start > 11 {
            proof {
                assert(line.take(11) =~= message_bytes@.subrange(start as int, start + 11));
                assert(line.skip(11) =~= message_bytes@.subrange(start + 11, stop as int));
            }
            if names_message_id(message_bytes, start) {
                match text_from_utf8(&message_bytes[start + 11..stop]) {
                    Some(value) => {
                        let id = trimmed(value.as_str());
                        if !id.as_str().is_empty() {
                            return Some(id);
                        }
                    },
                    None => {},
                }
            }
        }
        assert(message_id_value(line) is None);
        if end >= n {
            assert(message_id_from(message_bytes@, end + 1) is None);
            return None;
        }
        start = end + 1;
    }
}

// ---------------------------------------------------------------------------
// Folder names
// ---------------------------------------------------------------------------

/// The bytes that a text stands for in base64 without padding.
pub uninterp spec fn base64_bytes(s: Seq<char>) -> Option<Seq<u8>>;

/// `base64`'s `STANDARD_NO_PAD.decode`: the bytes that a text stands for in the
/// standard alphabet without padding, or nothing where it is malformed; which
/// depends on the text alone.
#[verifier::external_body]
fn base64_decode(s: &str) -> (out: Option<Vec<u8>>)
    ensures
        match out {
            Some(v) => base64_bytes(s@) == Some(v@),
            None => base64_bytes(s@) is None,
        },
{
    base64::engine::general_purpose::STANDARD_NO_PAD.decode(s).ok()
}

/// Pairs of bytes as numbers, the first byte of each the higher.
pub open spec fn units_of(bytes: Seq<u8>) -> Seq<u16> {
    Seq::new(bytes.len() / 2, |i: int| (bytes[2 * i] * 256 + bytes[2 * i + 1]) as u16)
}

/// The characters that UTF-16 code units spell from position `i` on, or nothing
/// where a surrogate stands alone.
pub open spec fn utf16_from(units: Seq<u16>, i: int) -> Option<Seq<char>>
    decreases units.len() - i,
{
    if i < 0 || i >= units.len() {
        Some(Seq::empty())
    } else if !(0xd800 <= units[i] <= 0xdfff) {
        match utf16_from(units, i + 1) {
            Some(rest) => Some(seq![units[i] as u32 as char] + rest),
            None => None,
        }
    } else if units[i] <= 0xdbff && i + 1 < units.len() && 0xdc00 <= units[i + 1] <= 0xdfff {
        match utf16_from(units, i + 2) {
            Some(rest) => Some(
                seq![
                    (0x10000 + (units[i] - 0xd800) * 0x400 + (units[i + 1]
                        - 0xdc00)) as u32 as char,
                ] + rest,
            ),
            None => None,
        }
    } else {
        None
    }
}

/// Decodes UTF-16 code units.
fn decode_utf16(units: &Vec<u16>) -> (out: Option<String>)
    ensures
        opt_text(out) == utf16_from(units@, 0),
{
    let n: usize = units.len();
    let mut out = String::new();
    let mut i: usize = 0;
    proof {
        match utf16_from(units@, 0) {
            Some(t) => {
                assert(Seq::<char>::empty() + t =~= t);
            },
            None => {},
        }
    }
    while i < n
        invariant
            n == units@.len(),
            i <= n,
            utf16_from(units@, 0) == match utf16_from(units@, i as int) {
                Some(rest) => Some(out@ + rest),
                None => None,
            },
        decreases n - i,
    {
        let u: u32 = units[i] as u32;
        let ghost before = out@;
        let mut code: u32 = u;
        let mut step: usize = 1;
        if 0xd800 <= u && u <= 0xdfff {
            if u > 0xdbff || i + 1 >= n {
                return None;
            }
            let low: u32 = units[i + 1] as u32;
            if low < 0xdc00 || low > 0xdfff {
                return None;
            }
            code = 0x10000 + (u - 0xd800) * 0x400 + (low - 0xdc00);
            step = 2;
        }
        let c = match char::from_u32(code) {
            Some(c) => c,
            None => {
                return None;
            },
        };
        proof {
            vstd::utf8::char_u32_cast(c, code);
            match utf16_from(units@, i + step) {
                Some(rest) => {
                    assert(before + (seq![c] + rest) =~= before.push(c) + rest);
                },
                None => {},
            }
        }
        out.push(c);
        i += step;
    }
    proof {
        assert(out@ + Seq::<char>::empty() =~= out@);
    }
    Some(out)
}

/// A text with every comma made a slash.
pub open spec fn commas_to_slashes(s: Seq<char>) -> Seq<char> {
    s.map_values(
        |c: char|
            if c == ',' {
                '/'
            } else {
                c
            },
    )
}

/// The characters of one shifted part of a folder name.
pub open spec fn shifted_text(s: Seq<char>) -> Option<Seq<char>> {
    match base64_bytes(commas_to_slashes(s)) {
        Some(bytes) => if bytes.len() % 2 != 0 {
            None
        } else {
            utf16_from(units_of(bytes), 0)
        },
        None => None,
    }
}

fn decode_shifted(cs: &[char], from: usize, to: usize) -> (out: Option<String>)
    requires
        from <= to <= cs@.len(),
    ensures
        opt_text(out) == shifted_text(cs@.subrange(from as int, to as int)),
{
    let ghost part = cs@.subrange(from as int, to as int);
    let mut encoded = String::new();
    let mut i: usize = from;
    while i < to
        invariant
            from <= i <= to <= cs@.len(),
            part == cs@.subrange(from as int, to as int),
            encoded@ =~= commas_to_slashes(part).take(i - from),
        decreases to - i,
    {
        if cs[i] == ',' {
            encoded.push('/');
        } else {
            encoded.push(cs[i]);
        }
        i += 1;
    }
    proof {
        assert(commas_to_slashes(part).take(to - from) =~= commas_to_slashes(part));
    }
    let bytes = match base64_decode(encoded.as_str()) {
        Some(b) => b,
        None => {
            return None;
        },
    };
    let n: usize = bytes.len();
    if n % 2 != 0 {
        return None;
    }
    let mut units: Vec<u16> = Vec::new();
    let mut k: usize = 0;
    while k < n
        invariant
            n == bytes@.len(),
            n % 2 == 0,
            k <= n,
            k % 2 == 0,
            units@.len() == k / 2,
            forall|j: int| 0 <= j < k / 2 ==> #[trigger] units@[j] == units_of(bytes@)[j],
        decreases n - k,
    {
        let high: u32 = bytes[k] as u32;
        let low: u32 = bytes[k + 1] as u32;
        let unit: u16 = (high * 256 + low) as u16;
        units.push(unit);
        proof {
            assert(units_of(bytes@)[(k / 2) as int] == unit);
        }
        k += 2;
    }
    proof {
        assert(units@ =~= units_of(bytes@));
    }
    decode_utf16(&units)
}

/// A folder name in modified UTF-7, decoded from position `i` on; nothing where
/// it is malformed.
pub open spec fn utf7_from(name: Seq<char>, i: int) -> Option<Seq<char>>
    decreases name.len() + 1 - i,
    via utf7_from_decreases
{
    let amp = next_char(name, '&', i);
    if i < 0 || i > name.len() || amp >= name.len() {
        Some(name.subrange(i, name.len() as int))
    } else {
        let end = next_char(name, '-', amp + 1);
        if end >= name.len() {
            None
        } else {
            let part = if end == amp + 1 {
                Some(seq!['&'])
            } else {
                shifted_text(name.subrange(amp + 1, end))
            };
            match (part, utf7_from(name, end + 1)) {
                (Some(p), Some(rest)) => Some(name.subrange(i, amp) + p + rest),
                _ => None,
            }
        }
    }
}

#[via_fn]
proof fn utf7_from_decreases(name: Seq<char>, i: int) {
    if 0 <= i <= name.len() {
        lemma_next_char(name, '&', i);
        let amp = next_char(name, '&', i);
        if amp < name.len() {
            lemma_next_char(name, '-', amp + 1);
        }
    }
}

proof fn lemma_next_char(s: Seq<char>, c: char, i: int)
    requires
        0 <= i <= s.len(),
    ensures
        i <= next_char(s, c, i) <= s.len(),
    decreases s.len() - i,
{
    if i < s.len() && s[i] != c {
        lemma_next_char(s, c, i + 1);
    }
}

/// The readable form of a folder name, where it differs from the wire form and
/// the wire form is well formed.
pub open spec fn readable_folder(name: Seq<char>) -> Option<Seq<char>> {
    match utf7_from(name, 0) {
        Some(t) => if t == name {
            None
        } else {
            Some(t)
        },
        None => None,
    }
}

/// Decodes an IMAP folder name from modified UTF-7 (RFC 3501 section 5.1.3).
/// Nothing for a name that has nothing to decode or is malformed.
pub fn decode_modified_utf7(name: &str) -> (out: Option<String>)
    ensures
        opt_text(out) == readable_folder(name@),
{
    let cs = chars_of(name);
    let n: usize = cs.len();
    let mut out = String::new();
    let mut i: usize = 0;
    proof {
        match utf7_from(name@, 0) {
            Some(t) => {
                assert(Seq::<char>::empty() + t =~= t);
            },
            None => {},
        }
    }
    loop
        invariant_except_break
            cs@ == name@,
            n == cs@.len(),
            i <= n,
            utf7_from(name@, 0) == match utf7_from(name@, i as int) {
                Some(rest) => Some(out@ + rest),
                None => None,
            },
        ensures
            utf7_from(name@, 0) == Some(out@),
        decreases n - i,
    {
        let amp: usize = next_char_at(&cs, '&', i);
        if amp >= n {
            append_range(&mut out, &cs, i, n);
            break;
        }
        let ghost before = out@;
        append_range(&mut out, &cs, i, amp);
        let end: usize = next_char_at(&cs, '-', amp + 1);
        if end >= n {
            return None;
        }
        if end == amp + 1 {
            out.push('&');
            proof {
                assert(out@ =~= before + name@.subrange(i as int, amp as int) + seq!['&']);
            }
        } else {
            match decode_shifted(&cs, amp + 1, end) {
                Some(t) => {
                    out.append(t.as_str());
                },
                None => {
                    return None;
                },
            }
        }
        proof {
            let part = if end == amp + 1 {
                Some(seq!['&'])
            } else {
                shifted_text(name@.subrange(amp + 1, end as int))
            };
            match utf7_from(name@, end + 1) {
                Some(rest) => {
                    assert(before + (name@.subrange(i as int, amp as int) + part->0 + rest) =~= out@
                        + rest);
                },
                None => {},
            }
        }
        i = end + 1;
    }
    if same_text(out.as_str(), name) {
        None
    } else {
        Some(out)
    }
}

// ---------------------------------------------------------------------------
// Subjects
// ---------------------------------------------------------------------------

/// The marks that a reply's subject may begin with, in small letters.
pub open spec fn reply_marks() -> Seq<Seq<char>> {
    seq!["re:"@, "aw:"@, "antw:"@, "antwort:"@]
}

/// The marks that a forwarded message's subject may begin with, in small
/// letters.
pub open spec fn forward_marks() -> Seq<Seq<char>> {
    seq!["fwd:"@, "fw:"@, "wg:"@, "weitergeleitet:"@]
}

/// A text begins with a prefix, whatever the case of its ASCII letters.
pub open spec fn begins_ignoring_case(s: Seq<char>, prefix: Seq<char>) -> bool {
    prefix.len() <= s.len() && ascii_lower_text(s.take(prefix.len() as int)) == ascii_lower_text(
        prefix,
    )
}

/// Decides [`begins_ignoring_case`].
pub fn starts_with_ignore_ascii_case(s: &str, prefix: &str) -> (yes: bool)
    ensures
        yes == begins_ignoring_case(s@, prefix@),
{
    let cs = chars_of(s);
    let p = chars_of(prefix);
    proof {
        assert(s@.skip(0) =~= s@);
    }
    begins_at(&cs, 0, &p)
}

/// Whether the characters from `from` on begin with a prefix, whatever the
/// case.
fn begins_at(cs: &[char], from: usize, p: &[char]) -> (yes: bool)
    requires
        from <= cs@.len(),
    ensures
        yes == begins_ignoring_case(cs@.skip(from as int), p@),
{
    let n: usize = cs.len();
    let m: usize = p.len();
    if m > n - from {
        return false;
    }
    let ghost head = ascii_lower_text(cs@.skip(from as int).take(m as int));
    let ghost want = ascii_lower_text(p@);
    let mut i: usize = 0;
    while i < m
        invariant
            n == cs@.len(),
            m == p@.len(),
            from + m <= n,
            i <= m,
            head == ascii_lower_text(cs@.skip(from as int).take(m as int)),
            want == ascii_lower_text(p@),
            forall|j: int| 0 <= j < i ==> head[j] == want[j],
        decreases m - i,
    {
        proof {
            assert(head[i as int] == ascii_lower(cs@[from + i]));
            assert(want[i as int] == ascii_lower(p@[i as int]));
        }
        if ascii_lower_char(cs[from + i]) != ascii_lower_char(p[i]) {
            return false;
        }
        i += 1;
    }
    proof {
        assert(head =~= want);
    }
    true
}

/// Some mark of a list is at the beginning of a text.
pub open spec fn begins_with_mark(s: Seq<char>, marks: Seq<Seq<char>>) -> bool {
    exists|i: int| 0 <= i < marks.len() && begins_ignoring_case(s, #[trigger] marks[i])
}

/// The first mark of a list that a text begins with.
pub open spec fn mark_of(s: Seq<char>, marks: Seq<Seq<char>>, i: int) -> Option<Seq<char>>
    decreases marks.len() - i,
{
    if i < 0 || i >= marks.len() {
        None
    } else if begins_ignoring_case(s, marks[i]) {
        Some(marks[i])
    } else {
        mark_of(s, marks, i + 1)
    }
}

/// Whether the characters from `from` on begin with a mark of a list, and the
/// length of the first that they do.
fn find_mark(cs: &[char], from: usize, marks: &[&str]) -> (len: Option<usize>)
    requires
        from <= cs@.len(),
    ensures
        match len {
            Some(k) => mark_of(cs@.skip(from as int), slice_texts(marks@), 0) is Some && k
                == mark_of(cs@.skip(from as int), slice_texts(marks@), 0)->0.len() && from + k
                <= cs@.len(),
            None => mark_of(cs@.skip(from as int), slice_texts(marks@), 0) is None,
        },
        len is Some == begins_with_mark(cs@.skip(from as int), slice_texts(marks@)),
{
    let ghost all = slice_texts(marks@);
    let ghost rest = cs@.skip(from as int);
    let mut i: usize = 0;
    while i < marks.len()
        invariant
            from <= cs@.len(),
            i <= marks@.len(),
            all == slice_texts(marks@),
            rest == cs@.skip(from as int),
            mark_of(rest, all, 0) == mark_of(rest, all, i as int),
            forall|j: int| 0 <= j < i ==> !begins_ignoring_case(rest, #[trigger] all[j]),
        decreases marks@.len() - i,
    {
        let p = chars_of(marks[i]);
        proof {
            assert(all[i as int] == marks@[i as int]@);
        }
        if begins_at(cs, from, &p) {
            return Some(p.len());
        }
        i += 1;
    }
    None
}

/// The marks that [`reply_marks`] lists.
pub fn reply_prefixes() -> (marks: [&'static str; 4])
    ensures
        slice_texts(marks@) == reply_marks(),
{
    let marks: [&'static str; 4] = ["re:", "aw:", "antw:", "antwort:"];
    proof {
        assert(slice_texts(marks@) =~= reply_marks());
    }
    marks
}

/// The marks that [`forward_marks`] lists.
pub fn forward_prefixes() -> (marks: [&'static str; 4])
    ensures
        slice_texts(marks@) == forward_marks(),
{
    let marks: [&'static str; 4] = ["fwd:", "fw:", "wg:", "weitergeleitet:"];
    proof {
        assert(slice_texts(marks@) =~= forward_marks());
    }
    marks
}

/// The subject already begins with a reply mark, leading white space aside.
pub fn has_reply_prefix(subject: &str) -> (yes: bool)
    ensures
        yes == begins_with_mark(trim_start(subject@), reply_marks()),
{
    let cs = chars_of(subject);
    let n: usize = cs.len();
    let a: usize = trim_start_bound(&cs, 0, n);
    let marks = reply_prefixes();
    proof {
        assert(cs@.subrange(0, n as int) =~= subject@);
        assert(cs@.subrange(a as int, n as int) =~= cs@.skip(a as int));
    }
    find_mark(&cs, a, marks.as_slice()).is_some()
}

/// The subject already begins with a forward mark, leading white space aside.
pub fn has_forward_prefix(subject: &str) -> (yes: bool)
    ensures
        yes == begins_with_mark(trim_start(subject@), forward_marks()),
{
    let cs = chars_of(subject);
    let n: usize = cs.len();
    let a: usize = trim_start_bound(&cs, 0, n);
    let marks = forward_prefixes();
    proof {
        assert(cs@.subrange(0, n as int) =~= subject@);
        assert(cs@.subrange(a as int, n as int) =~= cs@.skip(a as int));
    }
    find_mark(&cs, a, marks.as_slice()).is_some()
}

/// A subject without the reply and forward marks, and the white space, at its
/// beginning.
pub open spec fn subject_kernel(s: Seq<char>) -> Seq<char>
    decreases s.len(),
    via subject_kernel_decreases
{
    let t = trim_start(s);
    match mark_of(t, reply_marks() + forward_marks(), 0) {
        Some(m) => subject_kernel(t.skip(m.len() as int)),
        None => t,
    }
}

#[via_fn]
proof fn subject_kernel_decreases(s: Seq<char>) {
    let t = trim_start(s);
    let marks = reply_marks() + forward_marks();
    lemma_trim_start_len(s);
    lemma_mark_of(t, marks, 0);
    lemma_marks_not_empty();
}

proof fn lemma_trim_start_len(s: Seq<char>)
    ensures
        trim_start(s).len() <= s.len(),
    decreases s.len(),
{
    if s.len() > 0 && is_white_space(s[0]) {
        lemma_trim_start_len(s.drop_first());
    }
}

proof fn lemma_mark_of(s: Seq<char>, marks: Seq<Seq<char>>, i: int)
    requires
        0 <= i,
    ensures
        mark_of(s, marks, i) is Some ==> {
            &&& begins_ignoring_case(s, mark_of(s, marks, i)->0)
            &&& marks.contains(mark_of(s, marks, i)->0)
        },
    decreases marks.len() - i,
{
    if i < marks.len() && !begins_ignoring_case(s, marks[i]) {
        lemma_mark_of(s, marks, i + 1);
    }
}

proof fn lemma_marks_not_empty()
    ensures
        forall|m: Seq<char>|
            #[trigger] (reply_marks() + forward_marks()).contains(m) ==> m.len() > 0,
{
    reveal_strlit("re:");
    reveal_strlit("aw:");
    reveal_strlit("antw:");
    reveal_strlit("antwort:");
    reveal_strlit("fwd:");
    reveal_strlit("fw:");
    reveal_strlit("wg:");
    reveal_strlit("weitergeleitet:");
}

/// A mark: small letters, and a colon at its end.
spec fn is_mark(m: Seq<char>) -> bool {
    &&& m.len() > 1
    &&& m.last() == ':'
    &&& forall|i: int| 0 <= i < m.len() - 1 ==> 'a' <= #[trigger] m[i] <= 'z'
}

proof fn lemma_all_are_marks()
    ensures
        forall|i: int|
            0 <= i < (reply_marks() + forward_marks()).len() ==> is_mark(
                #[trigger] (reply_marks() + forward_marks())[i],
            ),
{
    reveal_strlit("re:");
    reveal_strlit("aw:");
    reveal_strlit("antw:");
    reveal_strlit("antwort:");
    reveal_strlit("fwd:");
    reveal_strlit("fw:");
    reveal_strlit("wg:");
    reveal_strlit("weitergeleitet:");
}

proof fn lemma_some_mark(s: Seq<char>, marks: Seq<Seq<char>>, i: int, k: int)
    requires
        0 <= i <= k < marks.len(),
        begins_ignoring_case(s, marks[k]),
    ensures
        mark_of(s, marks, i) is Some,
    decreases k - i,
{
    if i < k && !begins_ignoring_case(s, marks[i]) {
        lemma_some_mark(s, marks, i + 1, k);
    }
}

proof fn lemma_mark_at(s: Seq<char>, m: Seq<char>, i: int)
    requires
        begins_ignoring_case(s, m),
        is_mark(m),
        0 <= i < m.len(),
    ensures
        ascii_lower(s[i]) == m[i],
{
    assert(ascii_lower_text(s.take(m.len() as int))[i] == ascii_lower_text(m)[i]);
}

/// The bare subject of a message is its subject without the marks that it begins
/// with, in any case, and nothing else is lost: each mark is left out, however many
/// there are, and a subject without a colon only loses the white space in front.
pub proof fn subjects_lose_their_marks_alone(subject: Seq<char>, mark: Seq<char>, k: int)
    requires
        0 <= k < 8,
        ascii_lower_text(mark) == seq![
            "re:"@,
            "aw:"@,
            "antw:"@,
            "antwort:"@,
            "fwd:"@,
            "fw:"@,
            "wg:"@,
            "weitergeleitet:"@,
        ][k],
    ensures
        subject_kernel(mark + subject) == subject_kernel(subject),
        !subject.contains(':') ==> subject_kernel(subject) == trim_start(subject),
{
    let marks = reply_marks() + forward_marks();
    let m = marks[k];
    assert(ascii_lower_text(mark) == m);
    lemma_all_are_marks();
    let t = mark + subject;
    assert(mark.len() == m.len());
    assert(ascii_lower_text(m) =~= m) by {
        assert forall|i: int| 0 <= i < m.len() implies ascii_lower(#[trigger] m[i]) == m[i] by {}
    }
    assert(t.take(m.len() as int) =~= mark);
    assert(begins_ignoring_case(t, m));
    lemma_mark_at(t, m, 0);
    assert(!is_white_space(t[0]));
    assert(trim_start(t) == t);
    lemma_some_mark(t, marks, 0, k);
    lemma_mark_of(t, marks, 0);
    let found = mark_of(t, marks, 0)->0;
    let j = choose|j: int| 0 <= j < marks.len() && marks[j] == found;
    assert(is_mark(marks[j]));
    if found.len() < m.len() {
        lemma_mark_at(t, found, found.len() - 1);
        lemma_mark_at(t, m, found.len() - 1);
    } else if found.len() > m.len() {
        lemma_mark_at(t, found, m.len() - 1);
        lemma_mark_at(t, m, m.len() - 1);
    }
    assert(t.skip(m.len() as int) =~= subject);
    if !subject.contains(':') {
        lemma_trim_start_within(subject);
        let u = trim_start(subject);
        lemma_mark_of(u, marks, 0);
        if mark_of(u, marks, 0) is Some {
            let other = mark_of(u, marks, 0)->0;
            let i = choose|i: int| 0 <= i < marks.len() && marks[i] == other;
            assert(is_mark(marks[i]));
            lemma_mark_at(u, other, other.len() - 1);
            assert(u[other.len() - 1] == ':');
            assert(u.contains(':'));
        }
    }
}

proof fn lemma_trim_start_within(s: Seq<char>)
    ensures
        forall|c: char| trim_start(s).contains(c) ==> #[trigger] s.contains(c),
    decreases s.len(),
{
    if s.len() > 0 && is_white_space(s[0]) {
        let rest = s.drop_first();
        lemma_trim_start_within(rest);
        assert forall|c: char| trim_start(s).contains(c) implies #[trigger] s.contains(c) by {
            assert(rest.contains(c));
            let k = choose|k: int| 0 <= k < rest.len() && rest[k] == c;
            assert(s[k + 1] == c);
        }
    }
}

/// Computes [`subject_kernel`].
pub fn strip_email_prefixes(subject: &str) -> (out: String)
    ensures
        out@ == subject_kernel(subject@),
{
    let cs = chars_of(subject);
    let n: usize = cs.len();
    let marks: [&str; 8] = [
        "re:",
        "aw:",
        "antw:",
        "antwort:",
        "fwd:",
        "fw:",
        "wg:",
        "weitergeleitet:",
    ];
    proof {
        assert(slice_texts(marks@) =~= reply_marks() + forward_marks());
        assert(cs@.subrange(0, n as int) =~= subject@);
    }
    let mut i: usize = 0;
    loop
        invariant
            cs@ == subject@,
            n == cs@.len(),
            i <= n,
            slice_texts(marks@) == reply_marks() + forward_marks(),
            subject_kernel(subject@) == subject_kernel(cs@.subrange(i as int, n as int)),
        decreases n - i,
    {
        let a: usize = trim_start_bound(&cs, i, n);
        let ghost t = cs@.subrange(a as int, n as int);
        proof {
            assert(t =~= cs@.skip(a as int));
        }
        match find_mark(&cs, a, marks.as_slice()) {
            Some(k) => {
                proof {
                    lemma_mark_of(t, reply_marks() + forward_marks(), 0);
                    lemma_marks_not_empty();
                    assert(t.skip(k as int) =~= cs@.subrange(a + k, n as int));
                }
                i = a + k;
            },
            None => {
                return string_of_range(&cs, a, n);
            },
        }
    }
}

/// What remains of a subject begins with no mark; so stripping it again changes
/// nothing.
pub proof fn subject_kernel_is_bare(s: Seq<char>)
    ensures
        mark_of(subject_kernel(s), reply_marks() + forward_marks(), 0) is None,
        subject_kernel(subject_kernel(s)) == subject_kernel(s),
    decreases s.len(),
{
    let t = trim_start(s);
    lemma_trim_start_len(s);
    lemma_mark_of(t, reply_marks() + forward_marks(), 0);
    lemma_marks_not_empty();
    match mark_of(t, reply_marks() + forward_marks(), 0) {
        Some(m) => {
            subject_kernel_is_bare(t.skip(m.len() as int));
        },
        None => {
            lemma_trim_start_twice(s);
        },
    }
}

proof fn lemma_trim_start_twice(s: Seq<char>)
    ensures
        trim_start(trim_start(s)) == trim_start(s),
    decreases s.len(),
{
    if s.len() > 0 && is_white_space(s[0]) {
        lemma_trim_start_twice(s.drop_first());
    }
}

// ---------------------------------------------------------------------------
// Server messages
// ---------------------------------------------------------------------------

/// A text without the response code in brackets that it begins with.
pub open spec fn without_code(s: Seq<char>) -> Seq<char> {
    match find_first(s, "]"@, 0) {
        Some(i) => if s[0] == '[' && i + 1 < s.len() && s[i + 1] == ' ' {
            s.skip(i + 2)
        } else {
            s
        },
        None => s,
    }
}

/// Where a note ` (now in … state)` at the end of a text begins.
pub open spec fn state_note(s: Seq<char>) -> Option<int> {
    match find_last(s, " (now in "@, s.len() as int) {
        Some(p) => if occurs_at(s, " state)"@, s.len() - 7) && p + 9 <= s.len() - 7 && !s.subrange(
            p + 9,
            s.len() - 7,
        ).contains(')') {
            Some(p)
        } else {
            None
        },
        None => None,
    }
}

/// A text without the notes that servers put at its end: ` (Failure)` and the
/// state of the session, in any order and number.
pub open spec fn without_notes(s: Seq<char>) -> Seq<char>
    decreases s.len(),
    via without_notes_decreases
{
    if occurs_at(s, " (Failure)"@, s.len() - 10) {
        without_notes(s.take(s.len() - 10))
    } else {
        match state_note(s) {
            Some(p) => without_notes(s.take(p)),
            None => s,
        }
    }
}

#[via_fn]
proof fn without_notes_decreases(s: Seq<char>) {
    if let Some(p) = state_note(s) {
        lemma_find_last_bounds(s, " (now in "@, s.len() as int);
    }
}

proof fn lemma_find_last_bounds(hay: Seq<char>, needle: Seq<char>, i: int)
    ensures
        find_last(hay, needle, i) matches Some(p) ==> occurs_at(hay, needle, p),
    decreases i + 1,
{
    if i >= 0 && !occurs_at(hay, needle, i) {
        lemma_find_last_bounds(hay, needle, i - 1);
    }
}

/// What the server said, out of the way that the client library words an
/// error; other messages stay as they are.
pub open spec fn server_message(raw: Seq<char>) -> Seq<char> {
    match find_first(raw, "info: Some(\""@, 0) {
        None => raw,
        Some(a) => {
            let rest = raw.skip(a + "info: Some(\""@.len());
            match find_last(rest, "\")"@, rest.len() as int) {
                None => raw,
                Some(z) => without_notes(without_code(rest.take(z))),
            }
        },
    }
}

/// Computes [`without_code`].
fn cut_code(s: &str) -> (out: String)
    ensures
        out@ == without_code(s@),
{
    let cs = chars_of(s);
    let n: usize = cs.len();
    let close = chars_of("]");
    proof {
        reveal_strlit("]");
    }
    match find_first_at(&cs, &close, 0) {
        Some(i) => {
            if cs[0] == '[' && i + 1 < n && cs[i + 1] == ' ' {
                proof {
                    assert(s@.skip(i + 2) =~= cs@.subrange(i + 2, n as int));
                }
                string_of_range(&cs, i + 2, n)
            } else {
                copy_of(s)
            }
        },
        None => copy_of(s),
    }
}

/// Computes [`state_note`] of the first `z` characters.
fn find_state_note(cs: &[char], z: usize) -> (p: Option<usize>)
    requires
        z <= cs@.len(),
    ensures
        match p {
            Some(i) => state_note(cs@.take(z as int)) == Some(i as int) && i < z,
            None => state_note(cs@.take(z as int)) is None,
        },
{
    let ghost t = cs@.take(z as int);
    let head = string_of_range(cs, 0, z);
    let hc = chars_of(head.as_str());
    let open = chars_of(" (now in ");
    let close = chars_of(" state)");
    proof {
        reveal_strlit(" (now in ");
        reveal_strlit(" state)");
        assert(hc@ =~= t);
    }
    let i: usize = match find_last_at(&hc, &open) {
        Some(i) => i,
        None => {
            return None;
        },
    };
    if z < 16 || i > z - 16 || !occurs_here(&hc, &close, z - 7) {
        return None;
    }
    let mut k: usize = i + 9;
    let ghost inner = t.subrange(i + 9, z - 7);
    while k < z - 7
        invariant
            16 <= z == hc@.len(),
            hc@ == t,
            i + 9 <= k <= z - 7,
            t == cs@.take(z as int),
            inner == t.subrange(i + 9, z - 7),
            find_last(t, " (now in "@, t.len() as int) == Some(i as int),
            forall|j: int| i + 9 <= j < k ==> #[trigger] t[j] != ')',
        decreases z - k,
    {
        if hc[k] == ')' {
            proof {
                assert(inner[k - (i + 9)] == ')');
                assert(inner.contains(')'));
            }
            return None;
        }
        k += 1;
    }
    proof {
        if inner.contains(')') {
            let j = choose|j: int| 0 <= j < inner.len() && inner[j] == ')';
            assert(t[j + i + 9] == ')');
        }
    }
    Some(i)
}

/// Computes [`without_notes`].
fn cut_notes(s: &str) -> (out: String)
    ensures
        out@ == without_notes(s@),
{
    let cs = chars_of(s);
    let failure = chars_of(" (Failure)");
    let mut z: usize = cs.len();
    let mut more: bool = true;
    proof {
        reveal_strlit(" (Failure)");
        assert(cs@.take(z as int) =~= s@);
    }
    while more
        invariant
            cs@ == s@,
            failure@ == " (Failure)"@,
            failure@.len() == 10,
            z <= cs@.len(),
            without_notes(s@) == without_notes(cs@.take(z as int)),
            !more ==> without_notes(s@) == cs@.take(z as int),
        decreases z, if more { 1int } else { 0int },
    {
        let ghost t = cs@.take(z as int);
        if z >= 10 && occurs_here(&cs, &failure, z - 10) {
            proof {
                assert(t.subrange(z - 10, z as int) =~= cs@.subrange(z - 10, z as int));
                assert(t.take(z - 10) =~= cs@.take(z - 10));
            }
            z -= 10;
        } else {
            proof {
                if z >= 10 {
                    assert(t.subrange(z - 10, z as int) =~= cs@.subrange(z - 10, z as int));
                }
            }
            match find_state_note(&cs, z) {
                Some(p) => {
                    proof {
                        assert(t.take(p as int) =~= cs@.take(p as int));
                    }
                    z = p;
                },
                None => {
                    more = false;
                },
            }
        }
    }
    proof {
        assert(cs@.take(z as int) =~= cs@.subrange(0, z as int));
    }
    string_of_range(&cs, 0, z)
}

/// Reformats an error of the client library into what the server said: without
/// the wording around it, the response code before it and the noise behind it.
pub fn clean_imap_error(raw: &str) -> (out: String)
    ensures
        out@ == server_message(raw@),
{
    let cs = chars_of(raw);
    let n: usize = cs.len();
    let open = chars_of("info: Some(\"");
    let close = chars_of("\")");
    let a: usize = match find_first_at(&cs, &open, 0) {
        Some(a) => a,
        None => {
            return copy_of(raw);
        },
    };
    let start: usize = a + open.len();
    let rest = string_of_range(&cs, start, n);
    let rc = chars_of(rest.as_str());
    proof {
        assert(rest@ =~= raw@.skip(start as int));
    }
    let z: usize = match find_last_at(&rc, &close) {
        Some(z) => z,
        None => {
            return copy_of(raw);
        },
    };
    let info = string_of_range(&rc, 0, z);
    proof {
        assert(info@ =~= rest@.take(z as int));
    }
    let info = cut_code(info.as_str());
    cut_notes(info.as_str())
}

} // verus!
