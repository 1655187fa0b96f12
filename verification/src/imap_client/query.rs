//! What a server understands by the criteria of a search: how it reads their
//! text, and which messages it finds.

use vstd::prelude::*;

use crate::imap_client::util::astring;
use crate::imap_client::util::imap_escaped;
use crate::imap_client::util::or_chain;
use crate::imap_client::util::quoted_texts_read_back;
use crate::imap_client::util::unquoted;
use crate::imap_client::util::without_controls;
use crate::text::byte_len;
use crate::text::char_width;
use crate::text::decimal;
use crate::text::digit_char;
use crate::text::digits_value;
use crate::text::is_control;
use crate::text::joined;
use crate::text::lemma_encode_concat;
use crate::text::lemma_next_char;
use crate::text::lemma_scalar_width;
use crate::text::next_char;

verus! {

// ---------------------------------------------------------------------------
// Messages
// ---------------------------------------------------------------------------

/// Where a search looks for a text.
pub enum Field {
    From,
    To,
    Subject,
    /// The header and the body.
    Text,
    /// The header fields with a name.
    Header(Seq<char>),
}

/// A message on the server, as far as searches can tell.
pub struct Stored {
    /// A text occurs in a field, whatever the case.
    pub has: spec_fn(Field, Seq<char>) -> bool,
    /// It arrived on a day, written `D-Mon-YYYY`, or later.
    pub since: spec_fn(Seq<char>) -> bool,
    /// It arrived before a day.
    pub before: spec_fn(Seq<char>) -> bool,
    pub seen: bool,
    pub flagged: bool,
    pub answered: bool,
    /// Its size in bytes.
    pub size: nat,
}

// ---------------------------------------------------------------------------
// Reading strings
// ---------------------------------------------------------------------------

/// A quoted string, read from behind its opening quote: what it holds, and what
/// follows it.
pub open spec fn read_quoted(t: Seq<char>) -> Option<(Seq<char>, Seq<char>)>
    decreases t.len(),
{
    if t.len() == 0 || is_control(t[0]) {
        None
    } else if t[0] == '"' {
        Some((Seq::empty(), t.skip(1)))
    } else if t[0] != '\\' {
        match read_quoted(t.skip(1)) {
            Some(r) => Some((seq![t[0]] + r.0, r.1)),
            None => None,
        }
    } else if t.len() > 1 && (t[1] == '"' || t[1] == '\\') {
        match read_quoted(t.skip(2)) {
            Some(r) => Some((seq![t[1]] + r.0, r.1)),
            None => None,
        }
    } else {
        None
    }
}

/// The characters that fill `n` bytes, and what follows them.
pub open spec fn read_bytes(t: Seq<char>, n: nat) -> Option<(Seq<char>, Seq<char>)>
    decreases t.len(),
{
    if n == 0 {
        Some((Seq::empty(), t))
    } else if t.len() == 0 || char_width(t[0]) > n {
        None
    } else {
        match read_bytes(t.skip(1), (n - char_width(t[0])) as nat) {
            Some(r) => Some((seq![t[0]] + r.0, r.1)),
            None => None,
        }
    }
}

/// A string, quoted or as a literal with its length in bytes: what it holds, and
/// what follows it.
pub open spec fn read_string(t: Seq<char>) -> Option<(Seq<char>, Seq<char>)> {
    if t.len() == 0 {
        None
    } else if t[0] == '"' {
        read_quoted(t.skip(1))
    } else if t[0] == '{' {
        let at = next_char(t, '+', 0);
        if at + 4 <= t.len() && t.subrange(at, at + 4) == seq!['+', '}', '\r', '\n'] {
            match digits_value(t.subrange(1, at), 10) {
                Some(n) => read_bytes(t.skip(at + 4), n),
                None => None,
            }
        } else {
            None
        }
    } else {
        None
    }
}

/// The word that a text begins with, up to a space.
pub open spec fn first_word(t: Seq<char>) -> Seq<char> {
    t.take(next_char(t, ' ', 0))
}

/// What follows the first word and its space.
pub open spec fn behind_word(t: Seq<char>) -> Seq<char> {
    if next_char(t, ' ', 0) < t.len() {
        t.skip(next_char(t, ' ', 0) + 1)
    } else {
        Seq::empty()
    }
}

/// What follows the first word.
pub open spec fn from_space(t: Seq<char>) -> Seq<char> {
    t.skip(next_char(t, ' ', 0))
}

// ---------------------------------------------------------------------------
// Reading criteria
// ---------------------------------------------------------------------------

/// A criterion with a string: whether the field has it, and what follows.
pub open spec fn judged_text(t: Seq<char>, field: Field, m: Stored) -> Option<(bool, Seq<char>)> {
    match read_string(t) {
        Some(r) => Some(((m.has)(field, r.0), r.1)),
        None => None,
    }
}

/// The first criterion of a text: whether a message meets it, and what follows;
/// nothing where there is no criterion.
pub open spec fn judged(t: Seq<char>, m: Stored) -> Option<(bool, Seq<char>)>
    decreases t.len(),
{
    let word = first_word(t);
    let rest = behind_word(t);
    if t.len() == 0 {
        None
    } else if word == "OR"@ && rest.len() < t.len() {
        match judged(rest, m) {
            Some(a) => if 0 < a.1.len() <= t.len() && a.1[0] == ' ' {
                match judged(a.1.skip(1), m) {
                    Some(b) => Some((a.0 || b.0, b.1)),
                    None => None,
                }
            } else {
                None
            },
            None => None,
        }
    } else if word == "FROM"@ {
        judged_text(rest, Field::From, m)
    } else if word == "TO"@ {
        judged_text(rest, Field::To, m)
    } else if word == "SUBJECT"@ {
        judged_text(rest, Field::Subject, m)
    } else if word == "TEXT"@ {
        judged_text(rest, Field::Text, m)
    } else if word == "HEADER"@ {
        judged_text(behind_word(rest), Field::Header(first_word(rest)), m)
    } else if word == "SINCE"@ {
        Some(((m.since)(first_word(rest)), from_space(rest)))
    } else if word == "BEFORE"@ {
        Some(((m.before)(first_word(rest)), from_space(rest)))
    } else if word == "SEEN"@ {
        Some((m.seen, from_space(t)))
    } else if word == "UNSEEN"@ {
        Some((!m.seen, from_space(t)))
    } else if word == "FLAGGED"@ {
        Some((m.flagged, from_space(t)))
    } else if word == "UNFLAGGED"@ {
        Some((!m.flagged, from_space(t)))
    } else if word == "ANSWERED"@ {
        Some((m.answered, from_space(t)))
    } else if word == "UNANSWERED"@ {
        Some((!m.answered, from_space(t)))
    } else if word == "LARGER"@ {
        match digits_value(first_word(rest), 10) {
            Some(n) => Some((m.size > n, from_space(rest))),
            None => None,
        }
    } else if word == "SMALLER"@ {
        match digits_value(first_word(rest), 10) {
            Some(n) => Some((m.size < n, from_space(rest))),
            None => None,
        }
    } else {
        None
    }
}

/// Criteria with a space between neighbours: whether a message meets all of them;
/// nothing where they cannot be read.
pub open spec fn judged_all(t: Seq<char>, m: Stored) -> Option<bool>
    decreases t.len(),
{
    match judged(t, m) {
        Some(a) => if a.1.len() == 0 {
            Some(a.0)
        } else if a.1.len() <= t.len() && a.1[0] == ' ' {
            match judged_all(a.1.skip(1), m) {
                Some(b) => Some(a.0 && b),
                None => None,
            }
        } else {
            None
        },
        None => None,
    }
}

/// What a server makes of the criteria of a search: whether it finds a message;
/// nothing where it cannot read them. The criteria may begin with the character
/// set that they are written in.
pub open spec fn finds(criteria: Seq<char>, m: Stored) -> Option<bool> {
    let rest = behind_word(criteria);
    if first_word(criteria) == "CHARSET"@ && first_word(rest) == "UTF-8"@ {
        judged_all(behind_word(rest), m)
    } else {
        judged_all(criteria, m)
    }
}

// ---------------------------------------------------------------------------
// Pieces
// ---------------------------------------------------------------------------

/// What may follow a criterion.
pub open spec fn is_tail(r: Seq<char>) -> bool {
    r.len() == 0 || r[0] == ' '
}

/// A text is a criterion that a message meets, or does not meet.
pub open spec fn says(p: Seq<char>, m: Stored, b: bool) -> bool {
    forall|r: Seq<char>| is_tail(r) ==> #[trigger] judged(p + r, m) == Some((b, r))
}

/// A text without a space.
pub open spec fn is_word(w: Seq<char>) -> bool {
    forall|i: int| 0 <= i < w.len() ==> #[trigger] w[i] != ' '
}

pub proof fn lemma_words(w: Seq<char>, r: Seq<char>)
    requires
        is_word(w),
        is_tail(r),
    ensures
        first_word(w + r) == w,
        from_space(w + r) == r,
        r.len() > 0 ==> behind_word(w + r) == r.skip(1),
{
    let t = w + r;
    let at = next_char(t, ' ', 0);
    lemma_next_char(t, ' ', 0);
    assert(at == w.len()) by {
        if at < w.len() {
            assert(t[at] == w[at]);
        }
        if at > w.len() {
            assert(t[w.len() as int] == r[0]);
        }
    }
    assert(t.take(at) =~= w);
    assert(t.skip(at) =~= r);
    if r.len() > 0 {
        assert(t.skip(at + 1) =~= r.skip(1));
    }
}

/// The words that criteria begin with.
pub proof fn lemma_keys()
    ensures
        "OR"@.len() == 2 && "OR"@[0] == 'O' && is_word("OR"@),
        "FROM"@.len() == 4 && "FROM"@[0] == 'F' && is_word("FROM"@),
        "TO"@.len() == 2 && "TO"@[0] == 'T' && is_word("TO"@),
        "SUBJECT"@.len() == 7 && "SUBJECT"@[0] == 'S' && "SUBJECT"@[1] == 'U' && is_word("SUBJECT"@),
        "TEXT"@.len() == 4 && "TEXT"@[0] == 'T' && is_word("TEXT"@),
        "HEADER"@.len() == 6 && "HEADER"@[0] == 'H' && is_word("HEADER"@),
        "SINCE"@.len() == 5 && is_word("SINCE"@),
        "BEFORE"@.len() == 6 && "BEFORE"@[0] == 'B' && is_word("BEFORE"@),
        "SEEN"@.len() == 4 && "SEEN"@[0] == 'S' && is_word("SEEN"@),
        "UNSEEN"@.len() == 6 && "UNSEEN"@[0] == 'U' && is_word("UNSEEN"@),
        "FLAGGED"@.len() == 7 && "FLAGGED"@[0] == 'F' && is_word("FLAGGED"@),
        "UNFLAGGED"@.len() == 9 && is_word("UNFLAGGED"@),
        "ANSWERED"@.len() == 8 && is_word("ANSWERED"@),
        "UNANSWERED"@.len() == 10 && is_word("UNANSWERED"@),
        "LARGER"@.len() == 6 && "LARGER"@[0] == 'L' && is_word("LARGER"@),
        "SMALLER"@.len() == 7 && "SMALLER"@[0] == 'S' && "SMALLER"@[1] == 'M' && is_word("SMALLER"@),
        "CHARSET"@.len() == 7 && "CHARSET"@[0] == 'C' && is_word("CHARSET"@),
        "UTF-8"@.len() == 5 && "UTF-8"@[0] == 'U' && is_word("UTF-8"@),
        " "@ =~= seq![' '],
        "\""@ =~= seq!['"'],
{
    reveal_strlit("OR");
    reveal_strlit("FROM");
    reveal_strlit("TO");
    reveal_strlit("SUBJECT");
    reveal_strlit("TEXT");
    reveal_strlit("HEADER");
    reveal_strlit("SINCE");
    reveal_strlit("BEFORE");
    reveal_strlit("SEEN");
    reveal_strlit("UNSEEN");
    reveal_strlit("FLAGGED");
    reveal_strlit("UNFLAGGED");
    reveal_strlit("ANSWERED");
    reveal_strlit("UNANSWERED");
    reveal_strlit("LARGER");
    reveal_strlit("SMALLER");
    reveal_strlit("CHARSET");
    reveal_strlit("UTF-8");
    reveal_strlit(" ");
    reveal_strlit("\"");
}

proof fn lemma_read_quoted(s: Seq<char>, r: Seq<char>)
    requires
        unquoted(s) is Some,
    ensures
        read_quoted(s + seq!['"'] + r) == Some((unquoted(s)->0, r)),
    decreases s.len(),
{
    let t = s + seq!['"'] + r;
    if s.len() == 0 {
        assert(t[0] == '"');
        assert(t.skip(1) =~= r);
    } else if s[0] != '\\' {
        lemma_read_quoted(s.skip(1), r);
        assert(t.skip(1) =~= s.skip(1) + seq!['"'] + r);
    } else {
        lemma_read_quoted(s.skip(2), r);
        assert(t.skip(2) =~= s.skip(2) + seq!['"'] + r);
    }
}

/// A quoted text is read as it was, but for its control characters.
pub proof fn lemma_quoted(s: Seq<char>, r: Seq<char>)
    ensures
        read_string(seq!['"'] + imap_escaped(s) + seq!['"'] + r) == Some((without_controls(s), r)),
{
    quoted_texts_read_back(s);
    lemma_read_quoted(imap_escaped(s), r);
    let t = seq!['"'] + imap_escaped(s) + seq!['"'] + r;
    assert(t.skip(1) =~= imap_escaped(s) + seq!['"'] + r);
}

proof fn lemma_read_bytes(s: Seq<char>, r: Seq<char>)
    ensures
        read_bytes(s + r, byte_len(s)) == Some((s, r)),
    decreases s.len(),
{
    if s.len() == 0 {
        assert(s + r =~= r);
        assert(vstd::utf8::encode_utf8(s).len() == 0);
        assert(s =~= Seq::<char>::empty());
    } else {
        let c = s[0];
        let rest = s.skip(1);
        assert(s =~= seq![c] + rest);
        lemma_encode_concat(seq![c], rest);
        assert(seq![c].drop_first() =~= Seq::<char>::empty());
        reveal_with_fuel(vstd::utf8::encode_utf8, 2);
        assert(vstd::utf8::encode_utf8(seq![c]) =~= vstd::utf8::encode_scalar(c as u32));
        lemma_scalar_width(c);
        lemma_read_bytes(rest, r);
        assert((s + r).skip(1) =~= rest + r);
        assert((s + r)[0] == c);
    }
}

/// A number in decimal reads back, and holds nothing but digits.
pub proof fn lemma_decimal_reads_back(n: nat)
    ensures
        digits_value(decimal(n), 10) == Some(n),
        decimal(n).len() > 0,
        forall|k: int| 0 <= k < decimal(n).len() ==> '0' <= #[trigger] decimal(n)[k] <= '9',
    decreases n,
{
    let t = decimal(n);
    reveal_with_fuel(digits_value, 2);
    if n < 10 {
        assert(t.drop_last() =~= Seq::<char>::empty());
        assert(t.last() == digit_char(n as int));
    } else {
        lemma_decimal_reads_back(n / 10);
        assert(t.drop_last() =~= decimal(n / 10));
        assert(t.last() == digit_char((n % 10) as int));
        assert forall|k: int| 0 <= k < t.len() implies '0' <= #[trigger] t[k] <= '9' by {
            if k < t.len() - 1 {
                assert(t[k] == decimal(n / 10)[k]);
            }
        }
    }
}

/// A server reads the argument of a search as the text that was meant, but for
/// its control characters.
pub proof fn arguments_read_back(s: Seq<char>, r: Seq<char>)
    ensures
        read_string(astring(s) + r) == Some((without_controls(s), r)),
{
    let clean = without_controls(s);
    lemma_keys();
    lemma_clean_stays_clean(s);
    if vstd::utf8::is_ascii_chars(clean) {
        lemma_quoted(clean, r);
        assert(astring(s) + r =~= seq!['"'] + imap_escaped(clean) + seq!['"'] + r);
    } else {
        reveal_strlit("{");
        reveal_strlit("+}\r\n");
        let n = byte_len(clean);
        let digits = decimal(n);
        let end = seq!['+', '}', '\r', '\n'];
        let t = astring(s) + r;
        assert("+}\r\n"@ =~= end);
        assert(t =~= seq!['{'] + digits + end + clean + r);
        lemma_decimal_reads_back(n);
        let at = next_char(t, '+', 0);
        lemma_next_char(t, '+', 0);
        assert(at == 1 + digits.len()) by {
            if at < 1 + digits.len() {
                if at > 0 {
                    assert(t[at] == digits[at - 1]);
                }
            }
            if at > 1 + digits.len() {
                assert(t[1 + digits.len() as int] == '+');
            }
        }
        assert(t.subrange(at, at + 4) =~= end);
        assert(t.subrange(1, at) =~= digits);
        assert(t.skip(at + 4) =~= clean + r);
        lemma_read_bytes(clean, r);
    }
}

proof fn lemma_clean_stays_clean(s: Seq<char>)
    ensures
        without_controls(without_controls(s)) == without_controls(s),
    decreases s.len(),
{
    reveal_with_fuel(Seq::filter, 2);
    if s.len() > 0 {
        let front = s.drop_last();
        let keep = |c: char| !is_control(c);
        lemma_clean_stays_clean(front);
        if keep(s.last()) {
            let w = without_controls(front);
            assert(without_controls(s) =~= w.push(s.last()));
            assert(w.push(s.last()).drop_last() =~= w);
        }
    }
}

/// A criterion with a text says whether the text occurs in the field that the key
/// names.
pub proof fn lemma_text_criterion(key: Seq<char>, field: Field, term: Seq<char>, m: Stored)
    requires
        (key == "FROM"@ && field == Field::From) || (key == "TO"@ && field == Field::To) || (key
            == "SUBJECT"@ && field == Field::Subject) || (key == "TEXT"@ && field == Field::Text),
    ensures
        says(key + " "@ + astring(term), m, (m.has)(field, without_controls(term))),
{
    let p = key + " "@ + astring(term);
    lemma_keys();
    assert forall|r: Seq<char>| is_tail(r) implies #[trigger] judged(p + r, m) == Some(
        ((m.has)(field, without_controls(term)), r),
    ) by {
        let tail = seq![' '] + astring(term) + r;
        assert(p + r =~= key + tail);
        lemma_words(key, tail);
        assert(tail.skip(1) =~= astring(term) + r);
        arguments_read_back(term, r);
    }
}

/// A criterion on a header says whether the header has the text.
pub proof fn lemma_header_criterion(name: Seq<char>, text: Seq<char>, m: Stored)
    requires
        is_word(name),
    ensures
        says(
            "HEADER "@ + name + " \""@ + imap_escaped(text) + "\""@,
            m,
            (m.has)(Field::Header(name), without_controls(text)),
        ),
{
    let p = "HEADER "@ + name + " \""@ + imap_escaped(text) + "\""@;
    lemma_keys();
    reveal_strlit("HEADER ");
    reveal_strlit(" \"");
    assert("HEADER "@ =~= "HEADER"@ + seq![' ']) by {
        reveal_strlit("HEADER");
    }
    assert(" \""@ =~= seq![' ', '"']);
    assert forall|r: Seq<char>| is_tail(r) implies #[trigger] judged(p + r, m) == Some(
        ((m.has)(Field::Header(name), without_controls(text)), r),
    ) by {
        let arg = seq!['"'] + imap_escaped(text) + seq!['"'] + r;
        let inner = seq![' '] + arg;
        let tail = seq![' '] + name + inner;
        assert(p + r =~= "HEADER"@ + tail);
        lemma_words("HEADER"@, tail);
        assert(tail.skip(1) =~= name + inner);
        lemma_words(name, inner);
        assert(inner.skip(1) =~= arg);
        lemma_quoted(text, r);
    }
}

/// Of the criteria of a chain one must be met.
pub proof fn lemma_or_chain(parts: Seq<Seq<char>>, m: Stored, truth: Seq<bool>)
    requires
        parts.len() > 0,
        truth.len() == parts.len(),
        forall|i: int| 0 <= i < parts.len() ==> says(#[trigger] parts[i], m, truth[i]),
    ensures
        says(or_chain(parts), m, exists|i: int| 0 <= i < truth.len() && #[trigger] truth[i]),
    decreases parts.len(),
{
    let some = exists|i: int| 0 <= i < truth.len() && #[trigger] truth[i];
    assert(says(parts[0], m, truth[0]));
    if parts.len() == 1 {
        assert(some == truth[0]);
    } else {
        let rest = parts.drop_first();
        let rest_truth = truth.drop_first();
        assert forall|i: int| 0 <= i < rest.len() implies says(
            #[trigger] rest[i],
            m,
            rest_truth[i],
        ) by {
            assert(says(parts[i + 1], m, truth[i + 1]));
        }
        lemma_or_chain(rest, m, rest_truth);
        let later = exists|i: int| 0 <= i < rest_truth.len() && #[trigger] rest_truth[i];
        assert(some == (truth[0] || later)) by {
            if later {
                let i = choose|i: int| 0 <= i < rest_truth.len() && #[trigger] rest_truth[i];
                assert(truth[i + 1]);
            }
            if some && !truth[0] {
                let i = choose|i: int| 0 <= i < truth.len() && #[trigger] truth[i];
                assert(rest_truth[i - 1]);
            }
        }
        lemma_keys();
        reveal_strlit("OR ");
        assert("OR "@ =~= "OR"@ + seq![' ']) by {
            reveal_strlit("OR");
        }
        let p = or_chain(parts);
        assert forall|r: Seq<char>| is_tail(r) implies #[trigger] judged(p + r, m) == Some(
            (some, r),
        ) by {
            let second = or_chain(rest) + r;
            let between = seq![' '] + second;
            let tail = seq![' '] + parts[0] + between;
            assert(p + r =~= "OR"@ + tail);
            lemma_words("OR"@, tail);
            assert(tail.skip(1) =~= parts[0] + between);
            assert(judged(parts[0] + between, m) == Some((truth[0], between)));
            assert(between.skip(1) =~= second);
            assert(judged(or_chain(rest) + r, m) == Some((later, r)));
        }
    }
}

proof fn lemma_joined_with_tail(parts: Seq<Seq<char>>, m: Stored, truth: Seq<bool>, tail: Seq<char>)
    requires
        parts.len() > 0,
        truth.len() == parts.len(),
        forall|i: int| 0 <= i < parts.len() ==> says(#[trigger] parts[i], m, truth[i]),
        is_tail(tail),
        tail.len() > 0 ==> judged_all(tail.skip(1), m) is Some,
    ensures
        judged_all(joined(parts, " "@) + tail, m) == Some(
            (forall|i: int| 0 <= i < truth.len() ==> #[trigger] truth[i]) && (tail.len() == 0
                || judged_all(tail.skip(1), m)->0),
        ),
    decreases parts.len(),
{
    lemma_keys();
    let n = parts.len() - 1;
    let every = forall|i: int| 0 <= i < truth.len() ==> #[trigger] truth[i];
    let last = parts[n];
    assert(says(last, m, truth[n]));
    let end = last + tail;
    assert(judged(end, m) == Some((truth[n], tail)));
    let rest = tail.len() == 0 || judged_all(tail.skip(1), m)->0;
    assert(tail.len() <= end.len());
    assert(judged_all(end, m) == Some(truth[n] && rest));
    if parts.len() == 1 {
        assert(joined(parts, " "@) + tail =~= end);
        assert(every == truth[0]);
    } else {
        let front = parts.drop_last();
        let front_truth = truth.drop_last();
        assert forall|i: int| 0 <= i < front.len() implies says(
            #[trigger] front[i],
            m,
            front_truth[i],
        ) by {
            assert(says(parts[i], m, truth[i]));
        }
        let more = seq![' '] + end;
        assert(more.skip(1) =~= end);
        lemma_joined_with_tail(front, m, front_truth, more);
        assert(joined(parts, " "@) + tail =~= joined(front, " "@) + more);
        let front_every = forall|i: int| 0 <= i < front_truth.len() ==> #[trigger] front_truth[i];
        assert(every == (front_every && truth[n])) by {
            if front_every && truth[n] {
                assert forall|i: int| 0 <= i < truth.len() implies #[trigger] truth[i] by {
                    if i < n {
                        assert(front_truth[i]);
                    }
                }
            }
            if every {
                assert forall|i: int| 0 <= i < front_truth.len() implies #[trigger] front_truth[i] by {
                    assert(truth[i]);
                }
            }
        }
    }
}

/// Of the criteria of a search all must be met.
pub proof fn lemma_joined(parts: Seq<Seq<char>>, m: Stored, truth: Seq<bool>)
    requires
        parts.len() > 0,
        truth.len() == parts.len(),
        forall|i: int| 0 <= i < parts.len() ==> says(#[trigger] parts[i], m, truth[i]),
    ensures
        judged_all(joined(parts, " "@), m) == Some(
            forall|i: int| 0 <= i < truth.len() ==> #[trigger] truth[i],
        ),
{
    let none = Seq::<char>::empty();
    lemma_joined_with_tail(parts, m, truth, none);
    assert(joined(parts, " "@) + none =~= joined(parts, " "@));
}

/// The character set that criteria begin with is no criterion.
pub proof fn lemma_charset(criteria: Seq<char>, m: Stored)
    ensures
        finds("CHARSET UTF-8 "@ + criteria, m) == judged_all(criteria, m),
{
    lemma_keys();
    reveal_strlit("CHARSET UTF-8 ");
    assert("CHARSET UTF-8 "@ =~= "CHARSET"@ + seq![' '] + "UTF-8"@ + seq![' ']) by {
        reveal_strlit("CHARSET");
        reveal_strlit("UTF-8");
    }
    let inner = seq![' '] + criteria;
    let tail = seq![' '] + "UTF-8"@ + inner;
    assert("CHARSET UTF-8 "@ + criteria =~= "CHARSET"@ + tail);
    lemma_words("CHARSET"@, tail);
    assert(tail.skip(1) =~= "UTF-8"@ + inner);
    lemma_words("UTF-8"@, inner);
    assert(inner.skip(1) =~= criteria);
}

/// Criteria that can be read without a character set name none.
pub proof fn lemma_no_charset(criteria: Seq<char>, m: Stored)
    requires
        judged_all(criteria, m) is Some,
    ensures
        finds(criteria, m) == judged_all(criteria, m),
{
    lemma_keys();
}

} // verus!
