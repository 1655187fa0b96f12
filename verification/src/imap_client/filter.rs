//! What is applied to a message after the server's search: full-text terms that
//! the server cannot take, and bounds on the time of arrival.

use vstd::prelude::*;

use crate::email::address_views;
use crate::email::AddressView;
use crate::email::EmailAddress;
use crate::email::EmailFull;
use crate::email::EmailView;
use crate::text::chars_of;
use crate::text::contains_text;
use crate::text::find_from;
use crate::text::lowercase;
use crate::text::lowercase_of;
use crate::text::occurs_at;
use crate::text::texts;

verus! {

/// Full-text terms for servers whose search cannot take them. The terms are in
/// lower case. Each of `all` must occur, and of each group in `any` at least
/// one.
#[derive(Debug)]
pub struct BodyTextFilter {
    pub all: Vec<String>,
    pub any: Vec<Vec<String>>,
}

/// A message's mailboxes, in the order in which they are searched.
pub open spec fn searched_mailboxes(e: EmailView) -> Seq<AddressView> {
    (match e.from {
        Some(a) => seq![a],
        None => Seq::empty(),
    }) + e.to + e.cc
}

/// One mailbox in the searchable text: name and address, on a line of its own.
pub open spec fn mailbox_line(a: AddressView) -> Seq<char> {
    (match a.name {
        Some(n) => lowercase(n) + " "@,
        None => Seq::empty(),
    }) + lowercase(a.address) + "\n"@
}

/// The mailboxes in the searchable text.
pub open spec fn mailbox_lines(l: Seq<AddressView>) -> Seq<char> {
    l.flat_map(|a: AddressView| mailbox_line(a))
}

/// The searchable text of a message, in lower case: its subject, its mailboxes
/// and its whole body, on lines of their own, so that no term matches across
/// two of them.
pub open spec fn haystack(e: EmailView) -> Seq<char> {
    lowercase(e.subject) + "\n"@ + mailbox_lines(searched_mailboxes(e)) + lowercase(e.body_text)
}

/// Every term of a list occurs.
pub open spec fn has_all(hay: Seq<char>, terms: Seq<Seq<char>>) -> bool {
    forall|i: int| 0 <= i < terms.len() ==> contains_text(hay, #[trigger] terms[i])
}

/// A term of a list occurs.
pub open spec fn has_any(hay: Seq<char>, terms: Seq<Seq<char>>) -> bool {
    exists|i: int| 0 <= i < terms.len() && contains_text(hay, #[trigger] terms[i])
}

impl BodyTextFilter {
    /// The filter that accepts every message.
    pub fn empty() -> (f: BodyTextFilter)
        ensures
            f.all@.len() == 0,
            f.any@.len() == 0,
    {
        BodyTextFilter { all: Vec::new(), any: Vec::new() }
    }

    /// Whether there is nothing to match.
    pub fn is_empty(&self) -> (yes: bool)
        ensures
            yes == (self.all@.len() == 0 && self.any@.len() == 0),
    {
        self.all.len() == 0 && self.any.len() == 0
    }

    pub open spec fn accepts(self, e: EmailView) -> bool {
        &&& has_all(haystack(e), texts(self.all@))
        &&& forall|g: int|
            0 <= g < self.any@.len() ==> has_any(haystack(e), texts((#[trigger] self.any@[g])@))
    }

    /// Whether a message has the terms.
    pub fn matches(&self, email: &EmailFull) -> (yes: bool)
        ensures
            yes == self.accepts(email@),
    {
        let hay = Self::searchable(email);
        let cs = chars_of(hay.as_str());
        if !has_all_terms(&cs, &self.all) {
            return false;
        }
        let mut g: usize = 0;
        while g < self.any.len()
            invariant
                g <= self.any@.len(),
                cs@ == haystack(email@),
                has_all(haystack(email@), texts(self.all@)),
                forall|h: int|
                    0 <= h < g ==> has_any(
                        haystack(email@),
                        texts((#[trigger] self.any@[h])@),
                    ),
            decreases self.any@.len() - g,
        {
            if !has_any_term(&cs, &self.any[g]) {
                return false;
            }
            g += 1;
        }
        true
    }

    /// Computes [`haystack`].
    fn searchable(email: &EmailFull) -> (out: String)
        ensures
            out@ == haystack(email@),
    {
        let mut out = lowercase_of(email.subject.as_str());
        out.append("\n");
        let ghost start = out@;
        let ghost first: Seq<AddressView> = match email@.from {
            Some(a) => seq![a],
            None => Seq::empty(),
        };
        let ghost f = |a: AddressView| mailbox_line(a);
        proof {
            assert(start + mailbox_lines(Seq::empty()) =~= start) by {
                assert(mailbox_lines(Seq::empty()) =~= Seq::<char>::empty());
            }
        }
        if let Some(a) = &email.from {
            append_mailbox(&mut out, a);
            proof {
                lemma_lines_concat(Seq::empty(), first);
                assert(first.drop_last() =~= Seq::empty());
                assert(mailbox_lines(first) =~= mailbox_line(a@)) by {
                    lemma_one_line(a@);
                }
            }
        }
        assert(out@ == start + mailbox_lines(first));
        append_mailboxes(&mut out, &email.to);
        append_mailboxes(&mut out, &email.cc);
        let body = lowercase_of(email.body_text.as_str());
        proof {
            lemma_lines_concat(first, email@.to);
            lemma_lines_concat(first + email@.to, email@.cc);
            assert(out@ =~= start + mailbox_lines(searched_mailboxes(email@)));
        }
        out.append(body.as_str());
        out
    }
}

proof fn lemma_lines_concat(a: Seq<AddressView>, b: Seq<AddressView>)
    ensures
        mailbox_lines(a + b) == mailbox_lines(a) + mailbox_lines(b),
    decreases b.len(),
{
    let f = |a: AddressView| mailbox_line(a);
    if b.len() == 0 {
        assert(a + b =~= a);
        assert(b.flat_map(f) =~= Seq::<char>::empty());
        assert(mailbox_lines(a) + Seq::<char>::empty() =~= mailbox_lines(a));
    } else {
        let n = (a + b).len() as int;
        lemma_lines_concat(a, b.drop_last());
        (a + b).lemma_flat_map_take_append(f, n - 1);
        b.lemma_flat_map_take_append(f, b.len() - 1);
        assert((a + b).take(n) =~= a + b);
        assert((a + b).take(n - 1) =~= a + b.drop_last());
        assert(b.take(b.len() as int) =~= b);
        assert(b.take(b.len() - 1) =~= b.drop_last());
        assert(mailbox_lines(a) + (mailbox_lines(b.drop_last()) + f(b.last())) =~= (mailbox_lines(a)
            + mailbox_lines(b.drop_last())) + f(b.last()));
    }
}

proof fn lemma_one_line(a: AddressView)
    ensures
        mailbox_lines(seq![a]) == mailbox_line(a),
{
    let f = |a: AddressView| mailbox_line(a);
    let s = seq![a];
    s.lemma_flat_map_take_append(f, 0);
    assert(s.take(1) =~= s);
    assert(s.take(0).flat_map(f) =~= Seq::<char>::empty());
    assert(Seq::<char>::empty() + f(s[0]) =~= mailbox_line(a));
}

fn append_mailbox(out: &mut String, a: &EmailAddress)
    ensures
        final(out)@ == old(out)@ + mailbox_line(a@),
{
    let ghost before = out@;
    if let Some(n) = &a.name {
        let lower = lowercase_of(n.as_str());
        out.append(lower.as_str());
        out.append(" ");
    }
    let lower = lowercase_of(a.address.as_str());
    out.append(lower.as_str());
    out.append("\n");
    proof {
        assert(out@ =~= before + mailbox_line(a@));
    }
}

fn append_mailboxes(out: &mut String, l: &Vec<EmailAddress>)
    ensures
        final(out)@ == old(out)@ + mailbox_lines(address_views(l@)),
{
    let ghost start = out@;
    let ghost all = address_views(l@);
    let ghost f = |a: AddressView| mailbox_line(a);
    let mut i: usize = 0;
    proof {
        assert(all.take(0).flat_map(f) =~= Seq::<char>::empty());
        assert(start + Seq::<char>::empty() =~= start);
    }
    while i < l.len()
        invariant
            i <= l@.len(),
            all == address_views(l@),
            f == |a: AddressView| mailbox_line(a),
            out@ == start + all.take(i as int).flat_map(f),
        decreases l@.len() - i,
    {
        let ghost before = out@;
        append_mailbox(out, &l[i]);
        proof {
            all.lemma_flat_map_take_append(f, i as int);
            assert(f(all[i as int]) == mailbox_line(l@[i as int]@));
            assert(out@ =~= start + (all.take(i as int).flat_map(f) + f(all[i as int])));
        }
        i += 1;
    }
    proof {
        assert(all.take(all.len() as int) =~= all);
    }
}

/// Whether a term occurs in a text.
pub fn term_occurs(hay: &[char], term: &str) -> (yes: bool)
    ensures
        yes == contains_text(hay@, term@),
{
    let t = chars_of(term);
    match find_from(hay, &t, 0) {
        Some(_) => true,
        None => false,
    }
}

/// Decides [`has_all`].
pub fn has_all_terms(hay: &[char], terms: &Vec<String>) -> (yes: bool)
    ensures
        yes == has_all(hay@, texts(terms@)),
{
    let ghost all = texts(terms@);
    let mut i: usize = 0;
    while i < terms.len()
        invariant
            i <= terms@.len(),
            all == texts(terms@),
            forall|j: int| 0 <= j < i ==> contains_text(hay@, #[trigger] all[j]),
        decreases terms@.len() - i,
    {
        proof {
            assert(all[i as int] == terms@[i as int]@);
        }
        if !term_occurs(hay, terms[i].as_str()) {
            return false;
        }
        i += 1;
    }
    true
}

/// Decides [`has_any`].
pub fn has_any_term(hay: &[char], terms: &Vec<String>) -> (yes: bool)
    ensures
        yes == has_any(hay@, texts(terms@)),
{
    let ghost all = texts(terms@);
    let mut i: usize = 0;
    while i < terms.len()
        invariant
            i <= terms@.len(),
            all == texts(terms@),
            forall|j: int| 0 <= j < i ==> !contains_text(hay@, #[trigger] all[j]),
        decreases terms@.len() - i,
    {
        proof {
            assert(all[i as int] == terms@[i as int]@);
        }
        if term_occurs(hay, terms[i].as_str()) {
            return true;
        }
        i += 1;
    }
    false
}

/// A term on one line occurs behind a line's end only where it occurs before or
/// after it.
proof fn lemma_term_splits(a: Seq<char>, b: Seq<char>, term: Seq<char>)
    requires
        a.len() > 0,
        a.last() == '\n',
        !term.contains('\n'),
    ensures
        contains_text(a + b, term) <==> contains_text(a, term) || contains_text(b, term),
{
    let n = term.len() as int;
    if contains_text(a + b, term) {
        let i = choose|i: int| occurs_at(a + b, term, i);
        if i + n <= a.len() {
            assert(a.subrange(i, i + n) =~= (a + b).subrange(i, i + n));
            assert(occurs_at(a, term, i));
        } else if i >= a.len() {
            assert(b.subrange(i - a.len(), i - a.len() + n) =~= (a + b).subrange(i, i + n));
            assert(occurs_at(b, term, i - a.len()));
        } else {
            assert((a + b).subrange(i, i + n)[a.len() - 1 - i] == '\n');
            assert(term[a.len() - 1 - i] == '\n');
        }
    }
    if contains_text(a, term) {
        let i = choose|i: int| occurs_at(a, term, i);
        assert((a + b).subrange(i, i + n) =~= a.subrange(i, i + n));
        assert(occurs_at(a + b, term, i));
    }
    if contains_text(b, term) {
        let i = choose|i: int| occurs_at(b, term, i);
        assert((a + b).subrange(a.len() + i, a.len() + i + n) =~= b.subrange(i, i + n));
        assert(occurs_at(a + b, term, a.len() + i));
    }
}

/// A term on one line occurs in a line with its end where it occurs in the line.
proof fn lemma_line_end_adds_nothing(a: Seq<char>, term: Seq<char>)
    requires
        !term.contains('\n'),
    ensures
        contains_text(a + "\n"@, term) <==> contains_text(a, term),
{
    reveal_strlit("\n");
    let n = term.len() as int;
    let line = a + "\n"@;
    if contains_text(line, term) {
        let i = choose|i: int| occurs_at(line, term, i);
        if i + n <= a.len() {
            assert(a.subrange(i, i + n) =~= line.subrange(i, i + n));
            assert(occurs_at(a, term, i));
        } else if n == 0 {
            assert(a.subrange(0, 0) =~= term);
            assert(occurs_at(a, term, 0));
        } else {
            assert(line.subrange(i, i + n)[a.len() - i] == '\n');
            assert(term[a.len() - i] == '\n');
        }
    }
    if contains_text(a, term) {
        let i = choose|i: int| occurs_at(a, term, i);
        assert(line.subrange(i, i + n) =~= a.subrange(i, i + n));
        assert(occurs_at(line, term, i));
    }
}

/// A mailbox in the searchable text, without the end of its line.
pub open spec fn mailbox_text(a: AddressView) -> Seq<char> {
    (match a.name {
        Some(n) => lowercase(n) + " "@,
        None => Seq::empty(),
    }) + lowercase(a.address)
}

/// A term occurs in one of the mailboxes.
pub open spec fn in_a_mailbox(l: Seq<AddressView>, term: Seq<char>) -> bool {
    exists|i: int| 0 <= i < l.len() && contains_text(mailbox_text(#[trigger] l[i]), term)
}

proof fn lemma_term_in_lines(l: Seq<AddressView>, n: int, rest: Seq<char>, term: Seq<char>)
    requires
        0 <= n <= l.len(),
        !term.contains('\n'),
    ensures
        contains_text(mailbox_lines(l.take(n)) + rest, term) <==> in_a_mailbox(l.take(n), term)
            || contains_text(rest, term),
    decreases n,
{
    let f = |a: AddressView| mailbox_line(a);
    let part = l.take(n);
    if n == 0 {
        assert(part.flat_map(f) =~= Seq::<char>::empty());
        assert(mailbox_lines(part) + rest =~= rest);
    } else {
        let a = l[n - 1];
        let before = l.take(n - 1);
        reveal_strlit("\n");
        l.lemma_flat_map_take_append(f, n - 1);
        assert(mailbox_lines(part) + rest =~= mailbox_lines(before) + (mailbox_line(a) + rest));
        lemma_term_in_lines(l, n - 1, mailbox_line(a) + rest, term);
        assert(mailbox_line(a).last() == '\n');
        lemma_term_splits(mailbox_line(a), rest, term);
        lemma_line_end_adds_nothing(mailbox_text(a), term);
        assert(mailbox_line(a) =~= mailbox_text(a) + "\n"@);
        if in_a_mailbox(before, term) {
            let i = choose|i: int|
                0 <= i < before.len() && contains_text(mailbox_text(#[trigger] before[i]), term);
            assert(part[i] == before[i]);
        }
        if contains_text(mailbox_text(a), term) {
            assert(part[n - 1] == a);
        }
        if in_a_mailbox(part, term) {
            let i = choose|i: int|
                0 <= i < part.len() && contains_text(mailbox_text(#[trigger] part[i]), term);
            if i < n - 1 {
                assert(before[i] == part[i]);
            }
        }
    }
}

/// A term on one line matches a message exactly where it occurs in the subject,
/// in one mailbox or in the body; it never straddles two of them.
pub proof fn terms_match_within_one_field(e: EmailView, term: Seq<char>)
    requires
        !term.contains('\n'),
    ensures
        contains_text(haystack(e), term) <==> contains_text(lowercase(e.subject), term)
            || in_a_mailbox(searched_mailboxes(e), term) || contains_text(
            lowercase(e.body_text),
            term,
        ),
{
    reveal_strlit("\n");
    let l = searched_mailboxes(e);
    let body = lowercase(e.body_text);
    let subject = lowercase(e.subject) + "\n"@;
    assert(haystack(e) =~= subject + (mailbox_lines(l) + body));
    assert(subject.last() == '\n');
    lemma_term_splits(subject, mailbox_lines(l) + body, term);
    lemma_line_end_adds_nothing(lowercase(e.subject), term);
    assert(l.take(l.len() as int) =~= l);
    lemma_term_in_lines(l, l.len() as int, body, term);
}

/// A term stands in a mailbox: in its name, in its address, or across the two
/// with a space between them.
pub open spec fn stands_in_mailbox(a: AddressView, term: Seq<char>) -> bool {
    ||| contains_text(lowercase(a.address), term)
    ||| a.name matches Some(n) && contains_text(lowercase(n), term)
    ||| a.name matches Some(n) && contains_text(lowercase(n) + " "@ + lowercase(a.address), term)
}

proof fn lemma_in_the_mailbox(a: AddressView, term: Seq<char>)
    ensures
        contains_text(mailbox_text(a), term) <==> stands_in_mailbox(a, term),
{
    let address = lowercase(a.address);
    let n = term.len() as int;
    match a.name {
        None => {
            assert(mailbox_text(a) =~= address);
        },
        Some(name) => {
            let front = lowercase(name) + " "@;
            let whole = front + address;
            assert(mailbox_text(a) == whole);
            if contains_text(address, term) {
                let i = choose|i: int| occurs_at(address, term, i);
                assert(whole.subrange(front.len() + i, front.len() + i + n) =~= address.subrange(
                    i,
                    i + n,
                ));
                assert(occurs_at(whole, term, front.len() + i));
            }
            if contains_text(lowercase(name), term) {
                let i = choose|i: int| occurs_at(lowercase(name), term, i);
                assert(whole.subrange(i, i + n) =~= lowercase(name).subrange(i, i + n));
                assert(occurs_at(whole, term, i));
            }
        },
    }
}

/// A term on one line is sought in every part of a message, whatever its case
/// there: in the subject, in the body, and in the name and the address of the
/// sender and of each recipient, of the copies too; and nowhere else.
pub proof fn terms_are_sought_in_every_part(e: EmailView, term: Seq<char>)
    requires
        !term.contains('\n'),
    ensures
        contains_text(haystack(e), term) <==> {
            ||| contains_text(lowercase(e.subject), term)
            ||| contains_text(lowercase(e.body_text), term)
            ||| e.from matches Some(a) && stands_in_mailbox(a, term)
            ||| exists|i: int| 0 <= i < e.to.len() && stands_in_mailbox(#[trigger] e.to[i], term)
            ||| exists|i: int| 0 <= i < e.cc.len() && stands_in_mailbox(#[trigger] e.cc[i], term)
        },
{
    terms_match_within_one_field(e, term);
    let l = searched_mailboxes(e);
    let first: int = if e.from is Some {
        1
    } else {
        0
    };
    assert(l.len() == first + e.to.len() + e.cc.len());
    if in_a_mailbox(l, term) {
        let i = choose|i: int| 0 <= i < l.len() && contains_text(mailbox_text(#[trigger] l[i]), term);
        lemma_in_the_mailbox(l[i], term);
        if i < first {
            assert(l[i] == e.from->0);
        } else if i < first + e.to.len() {
            assert(l[i] == e.to[i - first]);
        } else {
            assert(l[i] == e.cc[i - first - e.to.len()]);
        }
    }
    if e.from is Some {
        assert(l[0] == e.from->0);
        lemma_in_the_mailbox(l[0], term);
    }
    assert forall|i: int|
        0 <= i < e.to.len() && stands_in_mailbox(#[trigger] e.to[i], term) implies in_a_mailbox(
        l,
        term,
    ) by {
        assert(l[first + i] == e.to[i]);
        lemma_in_the_mailbox(e.to[i], term);
    }
    assert forall|i: int|
        0 <= i < e.cc.len() && stands_in_mailbox(#[trigger] e.cc[i], term) implies in_a_mailbox(
        l,
        term,
    ) by {
        assert(l[first + e.to.len() + i] == e.cc[i]);
        lemma_in_the_mailbox(e.cc[i], term);
    }
}

/// Everything that is applied to a message after the server's search.
#[derive(Debug)]
pub struct PostFetchFilter {
    pub body: BodyTextFilter,
    /// Messages that arrived at or after this Unix second are kept.
    pub internal_since_unix: Option<i64>,
    /// Messages that arrived before this Unix second are kept.
    pub internal_before_unix: Option<i64>,
}

impl PostFetchFilter {
    /// The filter that accepts every message.
    pub fn empty() -> (f: PostFetchFilter)
        ensures
            f.body.all@.len() == 0,
            f.body.any@.len() == 0,
            f.internal_since_unix is None,
            f.internal_before_unix is None,
    {
        PostFetchFilter {
            body: BodyTextFilter::empty(),
            internal_since_unix: None,
            internal_before_unix: None,
        }
    }

    pub open spec fn nothing(self) -> bool {
        self.body.all@.len() == 0 && self.body.any@.len() == 0 && self.internal_since_unix is None
            && self.internal_before_unix is None
    }

    /// Whether there is nothing to apply.
    pub fn is_empty(&self) -> (yes: bool)
        ensures
            yes == self.nothing(),
    {
        self.body.is_empty() && self.internal_since_unix.is_none()
            && self.internal_before_unix.is_none()
    }

    pub open spec fn time_bounded(self) -> bool {
        self.internal_since_unix is Some || self.internal_before_unix is Some
    }

    /// Whether there is a bound on the time of arrival.
    pub fn has_time_bounds(&self) -> (yes: bool)
        ensures
            yes == self.time_bounded(),
    {
        self.internal_since_unix.is_some() || self.internal_before_unix.is_some()
    }

    /// A time of arrival lies within the bounds. A message whose time the server
    /// does not report is kept.
    pub open spec fn in_time(self, arrived: Option<i64>) -> bool {
        match arrived {
            None => true,
            Some(t) => (self.internal_since_unix matches Some(s) ==> t >= s) && (
            self.internal_before_unix matches Some(b) ==> t < b),
        }
    }

    /// Decides [`PostFetchFilter::in_time`].
    pub fn time_matches(&self, internal_unix: Option<i64>) -> (yes: bool)
        ensures
            yes == self.in_time(internal_unix),
    {
        let t: i64 = match internal_unix {
            Some(t) => t,
            None => {
                return true;
            },
        };
        if let Some(since) = self.internal_since_unix {
            if t < since {
                return false;
            }
        }
        if let Some(before) = self.internal_before_unix {
            if t >= before {
                return false;
            }
        }
        true
    }
}

} // verus!
