//! The tool that searches messages: which criteria the server takes, which are
//! applied to what it sends, and how the results of several folders become one
//! answer.

use vstd::prelude::*;
use vstd::utf8::is_ascii_chars;

use super::bounds::bound_result;
use super::bounds::is_bound_in;
use super::bounds::parse_time_bound;
use super::bounds::BoundView;
use super::bounds::TimeBound;
use super::read::collapse;
use super::read::cut_member;
use super::read::first_rows;
use super::read::page_rows;
use super::read::reaches_past;
use super::read::rows_json;
use super::read::summary_rows;
use super::read::threads_cut;
use crate::email::opt_address;
use crate::email::AddressView;
use crate::email::EmailSummary;
use crate::imap_client::filter::has_all;
use crate::imap_client::filter::has_all_terms;
use crate::imap_client::filter::term_occurs;
use crate::imap_client::filter::BodyTextFilter;
use crate::imap_client::filter::PostFetchFilter;
use crate::imap_client::order::distinct_rows;
use crate::imap_client::order::distinct_rows_are_distinct;
use crate::imap_client::order::is_newest_first;
use crate::imap_client::order::keep_distinct_rows;
use crate::imap_client::order::row_key;
use crate::imap_client::order::sort_newest_first;
use crate::imap_client::uids::count_of;
use crate::imap_client::uids::counted;
use crate::imap_client::util::astring;
use crate::imap_client::util::build_or_criteria;
use crate::imap_client::util::imap_astring;
use crate::imap_client::util::or_chain;
use crate::json::member_if;
use crate::json::Json;
use crate::json::JsonView;
use crate::json::Members;
use crate::text::chars_of;
use crate::text::contains_text;
use crate::text::copy_of;
use crate::text::decimal;
use crate::text::decimal_string;
use crate::text::eq_ignore_case;
use crate::text::join;
use crate::text::joined;
use crate::text::lowercase;
use crate::text::lowercase_of;
use crate::text::opt_text;
use crate::text::same_ignoring_case;
use crate::text::texts;
use crate::time::Zone;

verus! {

/// Asks for messages that meet every criterion given.
#[derive(Debug)]
pub struct SearchEmailsRequest {
    pub account: Option<String>,
    /// The folder; all folders where it is absent.
    pub folder: Option<String>,
    pub text: Option<String>,
    pub text_any: Option<Vec<String>>,
    pub text_all: Option<Vec<String>>,
    pub from: Option<String>,
    pub from_any: Option<Vec<String>>,
    pub from_all: Option<Vec<String>>,
    pub to: Option<String>,
    pub subject: Option<String>,
    pub subject_all: Option<Vec<String>>,
    pub since: Option<String>,
    pub before: Option<String>,
    pub is_read: Option<bool>,
    /// The opposite of `is_read`.
    pub unread_only: Option<bool>,
    pub group_by_thread: Option<bool>,
    pub is_flagged: Option<bool>,
    pub is_answered: Option<bool>,
    pub has_attachments: Option<bool>,
    pub min_size: Option<u32>,
    pub max_size: Option<u32>,
    pub limit: Option<u32>,
    pub offset: Option<u32>,
    pub compact: Option<bool>,
}

// ---------------------------------------------------------------------------
// What the server cannot take
// ---------------------------------------------------------------------------

/// The criteria that are applied to what the server sends. Every term is in
/// lower case.
#[derive(Debug)]
pub struct ClientFilter {
    pub subject: Vec<String>,
    pub from: Vec<String>,
    pub to: Vec<String>,
    pub from_any: Vec<Vec<String>>,
    /// The criteria on the whole message and its time of arrival.
    pub post: PostFetchFilter,
    pub has_attachments: Option<bool>,
}

/// Lists of texts.
pub open spec fn text_lists(l: Seq<Vec<String>>) -> Seq<Seq<Seq<char>>> {
    l.map_values(|v: Vec<String>| texts(v@))
}

/// The value of the criteria.
pub struct FilterView {
    pub subject: Seq<Seq<char>>,
    pub from: Seq<Seq<char>>,
    pub to: Seq<Seq<char>>,
    pub from_any: Seq<Seq<Seq<char>>>,
    pub text: Seq<Seq<char>>,
    pub text_any: Seq<Seq<Seq<char>>>,
    pub since: Option<i64>,
    pub before: Option<i64>,
    pub has_attachments: Option<bool>,
}

impl View for ClientFilter {
    type V = FilterView;

    open spec fn view(&self) -> FilterView {
        FilterView {
            subject: texts(self.subject@),
            from: texts(self.from@),
            to: texts(self.to@),
            from_any: text_lists(self.from_any@),
            text: texts(self.post.body.all@),
            text_any: text_lists(self.post.body.any@),
            since: self.post.internal_since_unix,
            before: self.post.internal_before_unix,
            has_attachments: self.has_attachments,
        }
    }
}

/// No criteria.
pub open spec fn no_criteria(f: FilterView) -> bool {
    &&& f.subject.len() == 0
    &&& f.from.len() == 0
    &&& f.to.len() == 0
    &&& f.from_any.len() == 0
    &&& f.text.len() == 0
    &&& f.text_any.len() == 0
    &&& f.since is None
    &&& f.before is None
    &&& f.has_attachments is None
}

/// The sender as it is searched: address and name in lower case.
pub open spec fn searched_sender(from: Option<AddressView>) -> Seq<char> {
    match from {
        Some(a) => lowercase(a.address) + " "@ + lowercase(
            match a.name {
                Some(n) => n,
                None => Seq::empty(),
            },
        ),
        None => Seq::empty(),
    }
}

/// A recipient's address contains a term.
pub open spec fn sent_to(s: EmailSummary, term: Seq<char>) -> bool {
    exists|i: int|
        0 <= i < s.to@.len() && contains_text(lowercase((#[trigger] s.to@[i]).address@), term)
}

/// A term of a group occurs, in lower case, in the sender.
pub open spec fn sent_by_some(sender: Seq<char>, group: Seq<Seq<char>>) -> bool {
    exists|i: int|
        0 <= i < group.len() && contains_text(sender, lowercase(#[trigger] group[i]))
}

/// A row meets the criteria that a row can be held to.
pub open spec fn selects(f: FilterView, s: EmailSummary) -> bool {
    let sender = searched_sender(opt_address(s.from));
    &&& has_all(lowercase(s.subject@), f.subject)
    &&& has_all(sender, f.from)
    &&& forall|i: int| 0 <= i < f.to.len() ==> sent_to(s, #[trigger] f.to[i])
    &&& forall|g: int| 0 <= g < f.from_any.len() ==> sent_by_some(sender, #[trigger] f.from_any[g])
    &&& (f.has_attachments matches Some(want) ==> s.has_attachments == want)
}

/// Where there are no criteria, every row meets them.
pub proof fn no_criteria_select_everything(f: FilterView, s: EmailSummary)
    requires
        no_criteria(f),
    ensures
        selects(f, s),
{
}

fn sender_text(s: &EmailSummary) -> (out: String)
    ensures
        out@ == searched_sender(opt_address(s.from)),
{
    match &s.from {
        Some(a) => {
            let mut out = lowercase_of(a.address.as_str());
            out.append(" ");
            let name = match &a.name {
                Some(n) => lowercase_of(n.as_str()),
                None => lowercase_of(""),
            };
            proof {
                reveal_strlit("");
                assert(""@ =~= Seq::<char>::empty());
            }
            out.append(name.as_str());
            out
        },
        None => String::new(),
    }
}

fn is_sent_to(s: &EmailSummary, term: &str) -> (yes: bool)
    ensures
        yes == sent_to(*s, term@),
{
    let mut i: usize = 0;
    while i < s.to.len()
        invariant
            i <= s.to@.len(),
            forall|j: int|
                0 <= j < i ==> !contains_text(lowercase((#[trigger] s.to@[j]).address@), term@),
        decreases s.to@.len() - i,
    {
        let lower = lowercase_of(s.to[i].address.as_str());
        let cs = chars_of(lower.as_str());
        if term_occurs(&cs, term) {
            assert(contains_text(lowercase(s.to@[i as int].address@), term@));
            return true;
        }
        i += 1;
    }
    false
}

fn is_sent_by_some(sender: &Vec<char>, group: &Vec<String>) -> (yes: bool)
    ensures
        yes == sent_by_some(sender@, texts(group@)),
{
    let ghost all = texts(group@);
    let mut i: usize = 0;
    while i < group.len()
        invariant
            i <= group@.len(),
            all == texts(group@),
            forall|j: int| 0 <= j < i ==> !contains_text(sender@, lowercase(#[trigger] all[j])),
        decreases group@.len() - i,
    {
        assert(all[i as int] == group@[i as int]@);
        let lower = lowercase_of(group[i].as_str());
        if term_occurs(sender, lower.as_str()) {
            return true;
        }
        i += 1;
    }
    false
}

impl ClientFilter {
    /// The filter without criteria.
    pub fn empty() -> (f: ClientFilter)
        ensures
            no_criteria(f@),
    {
        ClientFilter {
            subject: Vec::new(),
            from: Vec::new(),
            to: Vec::new(),
            from_any: Vec::new(),
            post: PostFetchFilter::empty(),
            has_attachments: None,
        }
    }

    /// Whether there are no criteria.
    pub fn is_empty(&self) -> (yes: bool)
        ensures
            yes == no_criteria(self@),
    {
        self.subject.len() == 0 && self.from.len() == 0 && self.to.len() == 0
            && self.from_any.len() == 0 && self.post.is_empty() && self.has_attachments.is_none()
    }

    /// Whether a row meets the criteria that a row can be held to.
    pub fn matches(&self, email: &EmailSummary) -> (yes: bool)
        ensures
            yes == selects(self@, *email),
    {
        let subject = lowercase_of(email.subject.as_str());
        let cs = chars_of(subject.as_str());
        if !has_all_terms(&cs, &self.subject) {
            return false;
        }
        let sender = sender_text(email);
        let sc = chars_of(sender.as_str());
        if !has_all_terms(&sc, &self.from) {
            return false;
        }
        let ghost f = self@;
        let mut i: usize = 0;
        while i < self.to.len()
            invariant
                i <= self.to@.len(),
                f == self@,
                f.to == texts(self.to@),
                forall|j: int| 0 <= j < i ==> sent_to(*email, #[trigger] f.to[j]),
            decreases self.to@.len() - i,
        {
            assert(f.to[i as int] == self.to@[i as int]@);
            if !is_sent_to(email, self.to[i].as_str()) {
                return false;
            }
            i += 1;
        }
        let mut g: usize = 0;
        while g < self.from_any.len()
            invariant
                g <= self.from_any@.len(),
                f == self@,
                sc@ == searched_sender(opt_address(email.from)),
                f.from_any == text_lists(self.from_any@),
                forall|j: int| 0 <= j < g ==> sent_by_some(sc@, #[trigger] f.from_any[j]),
            decreases self.from_any@.len() - g,
        {
            assert(f.from_any[g as int] == texts(self.from_any@[g as int]@));
            if !is_sent_by_some(&sc, &self.from_any[g]) {
                return false;
            }
            g += 1;
        }
        match self.has_attachments {
            Some(want) => email.has_attachments == want,
            None => true,
        }
    }
}

// ---------------------------------------------------------------------------
// Terms
// ---------------------------------------------------------------------------

/// The server takes a term: it is ASCII, or the server searches Unicode.
pub open spec fn server_takes(term: Seq<char>, unicode: bool) -> bool {
    unicode || is_ascii_chars(term)
}

/// A criterion with a term.
pub open spec fn criterion(key: Seq<char>, term: Seq<char>) -> Seq<char> {
    key + " "@ + astring(term)
}

/// The terms given singly and in a list of which all must occur.
pub open spec fn all_terms(one: Option<String>, all: Option<Vec<String>>) -> Seq<Seq<char>> {
    (match opt_text(one) {
        Some(t) => seq![t],
        None => Seq::empty(),
    }) + (match all {
        Some(l) => texts(l@),
        None => Seq::empty(),
    })
}

/// The criteria that the server gets for terms.
pub open spec fn server_terms(key: Seq<char>, terms: Seq<Seq<char>>, unicode: bool) -> Seq<Seq<char>>
    decreases terms.len(),
{
    if terms.len() == 0 {
        Seq::empty()
    } else {
        let head = server_terms(key, terms.drop_last(), unicode);
        if server_takes(terms.last(), unicode) {
            head.push(criterion(key, terms.last()))
        } else {
            head
        }
    }
}

/// The terms that are left for later, in lower case.
pub open spec fn kept_terms(terms: Seq<Seq<char>>, unicode: bool) -> Seq<Seq<char>>
    decreases terms.len(),
{
    if terms.len() == 0 {
        Seq::empty()
    } else {
        let head = kept_terms(terms.drop_last(), unicode);
        if server_takes(terms.last(), unicode) {
            head
        } else {
            head.push(lowercase(terms.last()))
        }
    }
}

/// The terms of which one must occur.
pub open spec fn any_terms(any: Option<Vec<String>>) -> Seq<Seq<char>> {
    match any {
        Some(l) => texts(l@),
        None => Seq::empty(),
    }
}

/// The server takes every term of a list.
pub open spec fn takes_all(terms: Seq<Seq<char>>, unicode: bool) -> bool {
    forall|i: int| 0 <= i < terms.len() ==> server_takes(#[trigger] terms[i], unicode)
}

/// The criterion that the server gets for terms of which one must occur: only
/// where it takes all of them.
pub open spec fn server_any(key: Seq<char>, terms: Seq<Seq<char>>, unicode: bool) -> Seq<Seq<char>> {
    if terms.len() > 0 && takes_all(terms, unicode) {
        seq![or_chain(terms.map_values(|t: Seq<char>| criterion(key, t)))]
    } else {
        Seq::empty()
    }
}

/// The group that is left for later: the terms of which one must occur, in lower
/// case, where the server does not take all of them.
pub open spec fn kept_any(terms: Seq<Seq<char>>, unicode: bool) -> Seq<Seq<Seq<char>>> {
    if terms.len() > 0 && !takes_all(terms, unicode) {
        seq![terms.map_values(|t: Seq<char>| lowercase(t))]
    } else {
        Seq::empty()
    }
}

fn write_criterion(key: &str, term: &str) -> (out: String)
    ensures
        out@ == criterion(key@, term@),
{
    let mut out = copy_of(key);
    out.append(" ");
    let arg = imap_astring(term);
    out.append(arg.as_str());
    out
}

/// Gives a term to the server, or keeps it for later.
pub fn push_search_term(
    parts: &mut Vec<String>,
    bucket: &mut Vec<String>,
    key: &str,
    term: &str,
    unicode: bool,
)
    ensures
        texts(final(parts)@) == if server_takes(term@, unicode) {
            texts(old(parts)@).push(criterion(key@, term@))
        } else {
            texts(old(parts)@)
        },
        texts(final(bucket)@) == if server_takes(term@, unicode) {
            texts(old(bucket)@)
        } else {
            texts(old(bucket)@).push(lowercase(term@))
        },
{
    let ghost p = parts@;
    let ghost b = bucket@;
    if unicode || term.is_ascii() {
        let c = write_criterion(key, term);
        proof {
            assert(texts(p.push(c)) =~= texts(p).push(c@));
        }
        parts.push(c);
    } else {
        let lower = lowercase_of(term);
        proof {
            assert(texts(b.push(lower)) =~= texts(b).push(lower@));
        }
        bucket.push(lower);
    }
}

fn push_terms(
    parts: &mut Vec<String>,
    bucket: &mut Vec<String>,
    key: &str,
    one: &Option<String>,
    all: &Option<Vec<String>>,
    unicode: bool,
)
    ensures
        texts(final(parts)@) == texts(old(parts)@) + server_terms(
            key@,
            all_terms(*one, *all),
            unicode,
        ),
        texts(final(bucket)@) == texts(old(bucket)@) + kept_terms(all_terms(*one, *all), unicode),
{
    let ghost p0 = texts(parts@);
    let ghost b0 = texts(bucket@);
    let ghost terms = all_terms(*one, *all);
    let ghost first: Seq<Seq<char>> = match opt_text(*one) {
        Some(t) => seq![t],
        None => Seq::empty(),
    };
    proof {
        assert(server_terms(key@, Seq::empty(), unicode) =~= Seq::empty());
        assert(kept_terms(Seq::empty(), unicode) =~= Seq::empty());
        assert(p0 + Seq::<Seq<char>>::empty() =~= p0);
        assert(b0 + Seq::<Seq<char>>::empty() =~= b0);
    }
    if let Some(t) = one {
        push_search_term(parts, bucket, key, t.as_str(), unicode);
        proof {
            assert(first.drop_last() =~= Seq::empty());
            assert(texts(parts@) =~= p0 + server_terms(key@, first, unicode));
            assert(texts(bucket@) =~= b0 + kept_terms(first, unicode));
        }
    }
    if let Some(l) = all {
        let ghost rest = texts(l@);
        proof {
            assert(terms == first + rest);
            assert(first + rest.take(0) =~= first);
        }
        let mut i: usize = 0;
        while i < l.len()
            invariant
                i <= l@.len(),
                rest == texts(l@),
                texts(parts@) == p0 + server_terms(key@, first + rest.take(i as int), unicode),
                texts(bucket@) == b0 + kept_terms(first + rest.take(i as int), unicode),
            decreases l@.len() - i,
        {
            let ghost now = first + rest.take(i as int);
            push_search_term(parts, bucket, key, l[i].as_str(), unicode);
            proof {
                let next = first + rest.take(i as int + 1);
                assert(next.drop_last() =~= now);
                assert(next.last() == l@[i as int]@);
                assert(texts(parts@) =~= p0 + server_terms(key@, next, unicode));
                assert(texts(bucket@) =~= b0 + kept_terms(next, unicode));
            }
            i += 1;
        }
        proof {
            assert(rest.take(rest.len() as int) =~= rest);
        }
    } else {
        proof {
            assert(terms =~= first);
        }
    }
}

fn all_taken(l: &Vec<String>, unicode: bool) -> (yes: bool)
    ensures
        yes == takes_all(texts(l@), unicode),
{
    let ghost all = texts(l@);
    let mut i: usize = 0;
    while i < l.len()
        invariant
            i <= l@.len(),
            all == texts(l@),
            forall|j: int| 0 <= j < i ==> server_takes(#[trigger] all[j], unicode),
        decreases l@.len() - i,
    {
        assert(all[i as int] == l@[i as int]@);
        if !unicode && !l[i].as_str().is_ascii() {
            assert(!server_takes(all[i as int], unicode));
            return false;
        }
        i += 1;
    }
    true
}

fn criteria_of(key: &str, l: &Vec<String>) -> (out: Vec<String>)
    ensures
        texts(out@) == texts(l@).map_values(|t: Seq<char>| criterion(key@, t)),
{
    let ghost want = texts(l@).map_values(|t: Seq<char>| criterion(key@, t));
    let mut out: Vec<String> = Vec::new();
    let mut i: usize = 0;
    while i < l.len()
        invariant
            i <= l@.len(),
            want == texts(l@).map_values(|t: Seq<char>| criterion(key@, t)),
            texts(out@) == want.take(i as int),
        decreases l@.len() - i,
    {
        let c = write_criterion(key, l[i].as_str());
        let ghost before = texts(out@);
        proof {
            assert(texts(l@)[i as int] == l@[i as int]@);
            assert(texts(out@.push(c)) =~= before.push(c@));
            assert(want.take(i as int + 1) =~= want.take(i as int).push(want[i as int]));
        }
        out.push(c);
        i += 1;
    }
    proof {
        assert(want.take(want.len() as int) =~= want);
    }
    out
}

fn lowercase_list(l: &Vec<String>) -> (out: Vec<String>)
    ensures
        texts(out@) == texts(l@).map_values(|t: Seq<char>| lowercase(t)),
{
    let ghost want = texts(l@).map_values(|t: Seq<char>| lowercase(t));
    let mut out: Vec<String> = Vec::new();
    let mut i: usize = 0;
    while i < l.len()
        invariant
            i <= l@.len(),
            want == texts(l@).map_values(|t: Seq<char>| lowercase(t)),
            texts(out@) == want.take(i as int),
        decreases l@.len() - i,
    {
        let c = lowercase_of(l[i].as_str());
        let ghost before = texts(out@);
        proof {
            assert(texts(l@)[i as int] == l@[i as int]@);
            assert(texts(out@.push(c)) =~= before.push(c@));
            assert(want.take(i as int + 1) =~= want.take(i as int).push(want[i as int]));
        }
        out.push(c);
        i += 1;
    }
    proof {
        assert(want.take(want.len() as int) =~= want);
    }
    out
}

fn push_any(
    parts: &mut Vec<String>,
    groups: &mut Vec<Vec<String>>,
    key: &str,
    any: &Option<Vec<String>>,
    unicode: bool,
)
    ensures
        texts(final(parts)@) == texts(old(parts)@) + server_any(key@, any_terms(*any), unicode),
        text_lists(final(groups)@) == text_lists(old(groups)@) + kept_any(any_terms(*any), unicode),
{
    let ghost p0 = parts@;
    let ghost g0 = groups@;
    let ghost terms = any_terms(*any);
    match any {
        Some(l) => {
            if l.len() > 0 {
                if all_taken(l, unicode) {
                    let ors = criteria_of(key, l);
                    if let Some(combined) = build_or_criteria(&ors) {
                        proof {
                            assert(texts(p0.push(combined)) =~= texts(p0).push(combined@));
                        }
                        parts.push(combined);
                    }
                } else {
                    let lower = lowercase_list(l);
                    proof {
                        assert(text_lists(g0.push(lower)) =~= text_lists(g0).push(texts(lower@)));
                    }
                    groups.push(lower);
                }
            }
        },
        None => {},
    }
    proof {
        assert(texts(parts@) =~= texts(p0) + server_any(key@, terms, unicode));
        assert(text_lists(groups@) =~= text_lists(g0) + kept_any(terms, unicode));
    }
}

// ---------------------------------------------------------------------------
// Criteria
// ---------------------------------------------------------------------------

/// Whether read or unread messages are asked for; the two spellings may not
/// contradict each other.
pub open spec fn read_state(req: SearchEmailsRequest) -> Result<Option<bool>, Seq<char>> {
    match (req.is_read, req.unread_only) {
        (Some(r), Some(u)) => if r == u {
            Err(
                "is_read: "@ + bool_text(r) + " and unread_only: "@ + bool_text(u)
                    + " contradict each other — pass only one"@,
            )
        } else {
            Ok(Some(r))
        },
        (Some(r), None) => Ok(Some(r)),
        (None, Some(u)) => Ok(Some(!u)),
        (None, None) => Ok(None),
    }
}

/// A truth value in words.
pub open spec fn bool_text(b: bool) -> Seq<char> {
    if b {
        "true"@
    } else {
        "false"@
    }
}

/// One of two words for a truth value that is given.
pub open spec fn state_word(o: Option<bool>, yes: Seq<char>, no: Seq<char>) -> Seq<Seq<char>> {
    match o {
        Some(b) => seq![
            if b {
                yes
            } else {
                no
            },
        ],
        None => Seq::empty(),
    }
}

/// A criterion with a number that is given.
pub open spec fn size_term(key: Seq<char>, n: Option<u32>) -> Seq<Seq<char>> {
    match n {
        Some(v) => seq![key + decimal(v as nat)],
        None => Seq::empty(),
    }
}

/// A criterion with a day that is given.
pub open spec fn day_term(key: Seq<char>, b: Option<BoundView>) -> Seq<Seq<char>> {
    match b {
        Some(v) => seq![key + v.imap_date],
        None => Seq::empty(),
    }
}

/// The criteria on the contents that the server gets.
pub open spec fn content_parts(req: SearchEmailsRequest, unicode: bool) -> Seq<Seq<char>> {
    server_terms("TEXT"@, all_terms(req.text, req.text_all), unicode) + server_any(
        "TEXT"@,
        any_terms(req.text_any),
        unicode,
    ) + server_terms("FROM"@, all_terms(req.from, req.from_all), unicode) + server_any(
        "FROM"@,
        any_terms(req.from_any),
        unicode,
    ) + server_terms("TO"@, all_terms(req.to, None), unicode) + server_terms(
        "SUBJECT"@,
        all_terms(req.subject, req.subject_all),
        unicode,
    )
}

/// The criteria on the state of a message that the server gets.
pub open spec fn state_parts(req: SearchEmailsRequest, is_read: Option<bool>) -> Seq<Seq<char>> {
    state_word(is_read, "SEEN"@, "UNSEEN"@) + state_word(
        req.is_flagged,
        "FLAGGED"@,
        "UNFLAGGED"@,
    ) + state_word(req.is_answered, "ANSWERED"@, "UNANSWERED"@) + size_term(
        "LARGER "@,
        req.min_size,
    ) + size_term("SMALLER "@, req.max_size)
}

/// The criteria that the server gets.
pub open spec fn server_parts(
    req: SearchEmailsRequest,
    unicode: bool,
    since: Option<BoundView>,
    before: Option<BoundView>,
    is_read: Option<bool>,
) -> Seq<Seq<char>> {
    content_parts(req, unicode) + day_term("SINCE "@, since) + day_term("BEFORE "@, before)
        + state_parts(req, is_read)
}

/// The second of a bound that is given.
pub open spec fn exact_second(b: Option<BoundView>) -> Option<i64> {
    match b {
        Some(v) => v.unix,
        None => None,
    }
}

/// The criteria that are left for later.
pub open spec fn later_criteria(
    req: SearchEmailsRequest,
    unicode: bool,
    since: Option<BoundView>,
    before: Option<BoundView>,
) -> FilterView {
    FilterView {
        subject: kept_terms(all_terms(req.subject, req.subject_all), unicode),
        from: kept_terms(all_terms(req.from, req.from_all), unicode),
        to: kept_terms(all_terms(req.to, None), unicode),
        from_any: kept_any(any_terms(req.from_any), unicode),
        text: kept_terms(all_terms(req.text, req.text_all), unicode),
        text_any: kept_any(any_terms(req.text_any), unicode),
        since: exact_second(since),
        before: exact_second(before),
        has_attachments: req.has_attachments,
    }
}

/// Terms are left for later.
pub open spec fn terms_are_kept(f: FilterView) -> bool {
    f.text.len() > 0 || f.text_any.len() > 0 || f.subject.len() > 0 || f.from.len() > 0
        || f.to.len() > 0 || f.from_any.len() > 0
}

/// What is said where the server gets no criterion but some are left for later.
pub open spec fn unbounded_text(f: FilterView) -> Seq<char> {
    joined(
        (if f.has_attachments is Some {
            seq!["`has_attachments`"@]
        } else {
            Seq::empty()
        }) + (if terms_are_kept(f) {
            seq!["the non-ASCII terms (this server's SEARCH cannot take them)"@]
        } else {
            Seq::empty()
        }),
        " and "@,
    )
        + " are matched client-side after fetching and need a server-side filter to bound the candidates — add since/before (a plain date is enough)"@
}

/// The criteria as the server gets them.
pub open spec fn criteria_text(parts: Seq<Seq<char>>) -> Seq<char> {
    if exists|i: int| 0 <= i < parts.len() && !is_ascii_chars(#[trigger] parts[i]) {
        "CHARSET UTF-8 "@ + joined(parts, " "@)
    } else {
        joined(parts, " "@)
    }
}

/// What a search asks the server and what is left for later, given its bounds;
/// or what is wrong with it.
pub open spec fn search_plan(
    req: SearchEmailsRequest,
    unicode: bool,
    since: Option<BoundView>,
    before: Option<BoundView>,
) -> Result<(Seq<char>, FilterView), Seq<char>> {
    match read_state(req) {
        Err(text) => Err(text),
        Ok(is_read) => {
            let parts = server_parts(req, unicode, since, before, is_read);
            let later = later_criteria(req, unicode, since, before);
            if parts.len() > 0 {
                Ok((criteria_text(parts), later))
            } else if no_criteria(later) {
                Err("At least one search criterion is required"@)
            } else {
                Err(unbounded_text(later))
            }
        },
    }
}

/// A bound that is given.
pub open spec fn opt_bound(b: Option<TimeBound>) -> Option<BoundView> {
    match b {
        Some(t) => Some(t@),
        None => None,
    }
}

/// The value of what a search asks.
pub open spec fn plan_result(r: Result<(String, ClientFilter), String>) -> Result<
    (Seq<char>, FilterView),
    Seq<char>,
> {
    match r {
        Ok(p) => Ok((p.0@, p.1@)),
        Err(text) => Err(text@),
    }
}

fn push_text(parts: &mut Vec<String>, s: &str)
    ensures
        texts(final(parts)@) == texts(old(parts)@).push(s@),
{
    let ghost p = parts@;
    let c = copy_of(s);
    proof {
        assert(texts(p.push(c)) =~= texts(p).push(c@));
    }
    parts.push(c);
}

fn push_state(parts: &mut Vec<String>, o: Option<bool>, yes: &str, no: &str)
    ensures
        texts(final(parts)@) == texts(old(parts)@) + state_word(o, yes@, no@),
{
    let ghost p = texts(parts@);
    if let Some(b) = o {
        push_text(
            parts,
            if b {
                yes
            } else {
                no
            },
        );
    }
    proof {
        assert(texts(parts@) =~= p + state_word(o, yes@, no@));
    }
}

fn push_size(parts: &mut Vec<String>, key: &str, n: Option<u32>)
    ensures
        texts(final(parts)@) == texts(old(parts)@) + size_term(key@, n),
{
    let ghost p = texts(parts@);
    if let Some(v) = n {
        let mut c = copy_of(key);
        let d = decimal_string(v as u64);
        c.append(d.as_str());
        push_text(parts, c.as_str());
    }
    proof {
        assert(texts(parts@) =~= p + size_term(key@, n));
    }
}

fn push_day(parts: &mut Vec<String>, key: &str, b: &Option<TimeBound>)
    ensures
        texts(final(parts)@) == texts(old(parts)@) + day_term(key@, opt_bound(*b)),
{
    let ghost p = texts(parts@);
    if let Some(v) = b {
        let mut c = copy_of(key);
        c.append(v.imap_date.as_str());
        push_text(parts, c.as_str());
    }
    proof {
        assert(texts(parts@) =~= p + day_term(key@, opt_bound(*b)));
    }
}

fn read_state_of(req: &SearchEmailsRequest) -> (r: Result<Option<bool>, String>)
    ensures
        match read_state(*req) {
            Ok(o) => r is Ok && r->Ok_0 == o,
            Err(text) => r is Err && r->Err_0@ == text,
        },
{
    match (req.is_read, req.unread_only) {
        (Some(r), Some(u)) => {
            if r == u {
                let word = if r {
                    "true"
                } else {
                    "false"
                };
                let mut text = copy_of("is_read: ");
                text.append(word);
                text.append(" and unread_only: ");
                text.append(word);
                text.append(" contradict each other — pass only one");
                Err(text)
            } else {
                Ok(Some(r))
            }
        },
        (Some(r), None) => Ok(Some(r)),
        (None, Some(u)) => Ok(Some(!u)),
        (None, None) => Ok(None),
    }
}

fn criteria_string(parts: &Vec<String>) -> (out: String)
    ensures
        out@ == criteria_text(texts(parts@)),
{
    let ghost all = texts(parts@);
    let list = join(parts, " ");
    let mut i: usize = 0;
    while i < parts.len()
        invariant
            i <= parts@.len(),
            all == texts(parts@),
            list@ == joined(all, " "@),
            forall|j: int| 0 <= j < i ==> is_ascii_chars(#[trigger] all[j]),
        decreases parts@.len() - i,
    {
        assert(all[i as int] == parts@[i as int]@);
        if !parts[i].as_str().is_ascii() {
            let mut out = copy_of("CHARSET UTF-8 ");
            out.append(list.as_str());
            assert(!is_ascii_chars(all[i as int]));
            return out;
        }
        i += 1;
    }
    list
}

fn unbounded(f: &ClientFilter) -> (out: String)
    ensures
        out@ == unbounded_text(f@),
{
    let mut named: Vec<String> = Vec::new();
    let ghost want = (if f@.has_attachments is Some {
        seq!["`has_attachments`"@]
    } else {
        Seq::empty()
    }) + (if terms_are_kept(f@) {
        seq!["the non-ASCII terms (this server's SEARCH cannot take them)"@]
    } else {
        Seq::empty()
    });
    if f.has_attachments.is_some() {
        push_text(&mut named, "`has_attachments`");
    }
    if !(f.post.body.is_empty() && f.subject.len() == 0 && f.from.len() == 0 && f.to.len() == 0
        && f.from_any.len() == 0) {
        push_text(&mut named, "the non-ASCII terms (this server's SEARCH cannot take them)");
    }
    proof {
        assert(texts(named@) =~= want);
    }
    let mut out = join(&named, " and ");
    out.append(
        " are matched client-side after fetching and need a server-side filter to bound the candidates — add since/before (a plain date is enough)",
    );
    out
}

fn divide_contents(req: &SearchEmailsRequest, unicode: bool) -> (out: (Vec<String>, ClientFilter))
    ensures
        texts(out.0@) == content_parts(*req, unicode),
        out.1@ == (FilterView {
            has_attachments: None,
            ..later_criteria(*req, unicode, None, None)
        }),
{
    let mut parts: Vec<String> = Vec::new();
    let mut text: Vec<String> = Vec::new();
    let mut text_any: Vec<Vec<String>> = Vec::new();
    let mut from: Vec<String> = Vec::new();
    let mut from_any: Vec<Vec<String>> = Vec::new();
    let mut to: Vec<String> = Vec::new();
    let mut subject: Vec<String> = Vec::new();
    proof {
        assert(texts(parts@) =~= Seq::<Seq<char>>::empty());
        assert(text_lists(text_any@) =~= Seq::<Seq<Seq<char>>>::empty());
    }
    push_terms(&mut parts, &mut text, "TEXT", &req.text, &req.text_all, unicode);
    push_any(&mut parts, &mut text_any, "TEXT", &req.text_any, unicode);
    push_terms(&mut parts, &mut from, "FROM", &req.from, &req.from_all, unicode);
    push_any(&mut parts, &mut from_any, "FROM", &req.from_any, unicode);
    push_terms(&mut parts, &mut to, "TO", &req.to, &None, unicode);
    push_terms(&mut parts, &mut subject, "SUBJECT", &req.subject, &req.subject_all, unicode);
    let filter = ClientFilter {
        subject,
        from,
        to,
        from_any,
        post: PostFetchFilter {
            body: BodyTextFilter { all: text, any: text_any },
            internal_since_unix: None,
            internal_before_unix: None,
        },
        has_attachments: None,
    };
    proof {
        let later = later_criteria(*req, unicode, None, None);
        assert(texts(parts@) =~= content_parts(*req, unicode));
        assert(filter@.subject =~= later.subject);
        assert(filter@.from =~= later.from);
        assert(filter@.to =~= later.to);
        assert(filter@.from_any =~= later.from_any);
        assert(filter@.text =~= later.text);
        assert(filter@.text_any =~= later.text_any);
    }
    (parts, filter)
}

fn push_states(parts: &mut Vec<String>, req: &SearchEmailsRequest, is_read: Option<bool>)
    ensures
        texts(final(parts)@) == texts(old(parts)@) + state_parts(*req, is_read),
{
    let ghost p = texts(parts@);
    push_state(parts, is_read, "SEEN", "UNSEEN");
    push_state(parts, req.is_flagged, "FLAGGED", "UNFLAGGED");
    push_state(parts, req.is_answered, "ANSWERED", "UNANSWERED");
    push_size(parts, "LARGER ", req.min_size);
    push_size(parts, "SMALLER ", req.max_size);
    proof {
        assert(texts(parts@) =~= p + state_parts(*req, is_read));
    }
}

fn add_exact(filter: &mut ClientFilter, since: &Option<TimeBound>, before: &Option<TimeBound>)
    requires
        old(filter)@.since is None,
        old(filter)@.before is None,
    ensures
        final(filter)@ == (FilterView {
            since: exact_second(opt_bound(*since)),
            before: exact_second(opt_bound(*before)),
            ..old(filter)@
        }),
{
    if let Some(t) = since {
        filter.post.internal_since_unix = t.unix;
    }
    if let Some(t) = before {
        filter.post.internal_before_unix = t.unix;
    }
}

/// Divides a search, whose bounds were read, into what the server is asked and
/// what is left for later.
pub fn plan_search(
    req: &SearchEmailsRequest,
    unicode_search: bool,
    since: &Option<TimeBound>,
    before: &Option<TimeBound>,
) -> (r: Result<(String, ClientFilter), String>)
    ensures
        plan_result(r) == search_plan(*req, unicode_search, opt_bound(*since), opt_bound(*before)),
{
    let ghost s = opt_bound(*since);
    let ghost b = opt_bound(*before);
    let is_read = match read_state_of(req) {
        Ok(o) => o,
        Err(text) => {
            return Err(text);
        },
    };
    let (mut parts, mut filter) = divide_contents(req, unicode_search);
    push_day(&mut parts, "SINCE ", since);
    push_day(&mut parts, "BEFORE ", before);
    push_states(&mut parts, req, is_read);
    add_exact(&mut filter, since, before);
    filter.has_attachments = req.has_attachments;
    proof {
        assert(texts(parts@) =~= server_parts(*req, unicode_search, s, b, is_read));
        assert(filter@ == later_criteria(*req, unicode_search, s, b));
    }
    if parts.len() > 0 {
        return Ok((criteria_string(&parts), filter));
    }
    if filter.is_empty() {
        return Err(copy_of("At least one search criterion is required"));
    }
    Err(unbounded(&filter))
}

/// A bound of a search is read in a zone, where it is given.
pub open spec fn is_asked_bound(
    raw: Option<String>,
    earlier: bool,
    zone: Zone,
    r: Result<Option<BoundView>, Seq<char>>,
) -> bool {
    match opt_text(raw) {
        None => r is Ok && r->Ok_0 is None,
        Some(t) => exists|b: Result<BoundView, Seq<char>>| #[trigger]
            is_bound_in(t, earlier, zone, b) && r == given_bound(b),
    }
}

/// A bound that is given, or what is wrong with it.
pub open spec fn given_bound(b: Result<BoundView, Seq<char>>) -> Result<Option<BoundView>, Seq<char>> {
    match b {
        Ok(v) => Ok(Some(v)),
        Err(text) => Err(text),
    }
}

/// What a search asks, given what reading its bounds gave.
pub open spec fn search_outcome(
    req: SearchEmailsRequest,
    unicode: bool,
    since: Result<Option<BoundView>, Seq<char>>,
    before: Result<Option<BoundView>, Seq<char>>,
) -> Result<(Seq<char>, FilterView), Seq<char>> {
    match (since, before) {
        (Err(text), _) => Err("Invalid 'since' date: "@ + text),
        (Ok(_), Err(text)) => Err("Invalid 'before' date: "@ + text),
        (Ok(s), Ok(b)) => search_plan(req, unicode, s, b),
    }
}

/// A search whose bounds cannot be read is refused, and is told which of the two is
/// wrong and why; otherwise it is planned with both.
pub proof fn unreadable_bounds_are_told(
    req: SearchEmailsRequest,
    unicode: bool,
    since: Result<Option<BoundView>, Seq<char>>,
    before: Result<Option<BoundView>, Seq<char>>,
)
    ensures
        since matches Err(text) ==> search_outcome(req, unicode, since, before) == Err::<
            (Seq<char>, FilterView),
            Seq<char>,
        >("Invalid 'since' date: "@ + text),
        since is Ok ==> (before matches Err(text) ==> search_outcome(req, unicode, since, before)
            == Err::<(Seq<char>, FilterView), Seq<char>>("Invalid 'before' date: "@ + text)),
        since matches Ok(s) ==> (before matches Ok(b) ==> search_outcome(
            req,
            unicode,
            since,
            before,
        ) == search_plan(req, unicode, s, b)),
{
}

fn read_asked(raw: &Option<String>, earlier: bool, zone: Zone) -> (r: Result<
    Option<TimeBound>,
    String,
>)
    ensures
        is_asked_bound(*raw, earlier, zone, asked_result(r)),
{
    match raw {
        None => Ok(None),
        Some(t) => {
            let b = parse_time_bound(t.as_str(), earlier, zone);
            let ghost v = bound_result(b);
            let out = match b {
                Ok(v) => Ok(Some(v)),
                Err(text) => Err(text),
            };
            proof {
                assert(asked_result(out) == given_bound(v));
                assert(is_bound_in(opt_text(*raw)->0, earlier, zone, v));
            }
            out
        },
    }
}

/// The value of a bound that was read.
pub open spec fn asked_result(r: Result<Option<TimeBound>, String>) -> Result<
    Option<BoundView>,
    Seq<char>,
> {
    match r {
        Ok(o) => Ok(opt_bound(o)),
        Err(text) => Err(text@),
    }
}

/// Divides a search into what the server is asked and what is left for later: a
/// term that is not ASCII is left for later where the server cannot search for
/// it, and so is a time of day.
pub fn build_search_criteria(req: &SearchEmailsRequest, unicode_search: bool, zone: Zone) -> (r: Result<
    (String, ClientFilter),
    String,
>)
    ensures
        exists|
            since: Result<Option<BoundView>, Seq<char>>,
            before: Result<Option<BoundView>, Seq<char>>,
        |
            #[trigger] is_asked_bound(req.since, true, zone, since) && #[trigger] is_asked_bound(
                req.before,
                false,
                zone,
                before,
            ) && plan_result(r) == search_outcome(*req, unicode_search, since, before),
{
    let s = read_asked(&req.since, true, zone);
    let b = read_asked(&req.before, false, zone);
    let ghost sv = asked_result(s);
    let ghost bv = asked_result(b);
    proof {
        assert(is_asked_bound(req.since, true, zone, sv));
        assert(is_asked_bound(req.before, false, zone, bv));
    }
    let since = match s {
        Ok(o) => o,
        Err(e) => {
            let mut text = copy_of("Invalid 'since' date: ");
            text.append(e.as_str());
            return Err(text);
        },
    };
    let before = match b {
        Ok(o) => o,
        Err(e) => {
            let mut text = copy_of("Invalid 'before' date: ");
            text.append(e.as_str());
            return Err(text);
        },
    };
    plan_search(req, unicode_search, &since, &before)
}

// ---------------------------------------------------------------------------
// The search
// ---------------------------------------------------------------------------

/// Whether a search may skip rows: only in one folder, since in several it would
/// skip rows in each of them.
pub fn check_offset(req: &SearchEmailsRequest) -> (r: Result<(), String>)
    ensures
        match r {
            Ok(_) => req.folder is Some || req.offset is None || req.offset == Some(0u32),
            Err(text) => req.folder is None && (req.offset matches Some(n) && n > 0) && text@
                == "offset requires a single `folder` — across all folders it would skip messages in each one instead of paging through the combined result; narrow the criteria (e.g. a date range) instead"@,
        },
{
    if let Some(n) = req.offset {
        if n > 0 && req.folder.is_none() {
            return Err(
                copy_of(
                    "offset requires a single `folder` — across all folders it would skip messages in each one instead of paging through the combined result; narrow the criteria (e.g. a date range) instead",
                ),
            );
        }
    }
    Ok(())
}

/// A folder is the inbox.
pub open spec fn is_inbox(name: Seq<char>) -> bool {
    eq_ignore_case(name, "INBOX"@)
}

/// The folders that are the inbox, or those that are not, in order.
pub open spec fn inboxes(l: Seq<Seq<char>>, yes: bool) -> Seq<Seq<char>> {
    l.filter(|n: Seq<char>| is_inbox(n) == yes)
}

/// Folders with the inbox first, so that of a message in several folders the one
/// in the inbox is kept.
pub open spec fn inbox_first(l: Seq<Seq<char>>) -> Seq<Seq<char>> {
    inboxes(l, true) + inboxes(l, false)
}

fn pick_inboxes(l: &Vec<String>, yes: bool) -> (out: Vec<String>)
    ensures
        texts(out@) == inboxes(texts(l@), yes),
{
    let ghost all = texts(l@);
    let mut out: Vec<String> = Vec::new();
    let mut i: usize = 0;
    proof {
        reveal_with_fuel(Seq::filter, 1);
        assert(texts(out@) =~= inboxes(all.take(0), yes));
    }
    while i < l.len()
        invariant
            i <= l@.len(),
            all == texts(l@),
            texts(out@) == inboxes(all.take(i as int), yes),
        decreases l@.len() - i,
    {
        proof {
            reveal_with_fuel(Seq::filter, 1);
            assert(all.take(i as int + 1).drop_last() =~= all.take(i as int));
            assert(all[i as int] == l@[i as int]@);
        }
        if same_ignoring_case(l[i].as_str(), "INBOX") == yes {
            push_text(&mut out, l[i].as_str());
        }
        i += 1;
    }
    proof {
        assert(all.take(all.len() as int) =~= all);
    }
    out
}

/// A search on its way through the folders.
#[derive(Debug)]
pub struct SearchRun {
    /// The folders, in the order in which they are searched.
    pub folders: Vec<String>,
    /// All folders are searched.
    pub everywhere: bool,
    /// How many were searched.
    pub done: usize,
    pub rows: Vec<EmailSummary>,
    /// How many messages matched.
    pub matched: u32,
    /// What went wrong, where only one folder is searched.
    pub failure: Option<String>,
}

/// The sum of two numbers, or the largest number where it is larger.
pub open spec fn capped_sum(a: u32, b: u32) -> u32 {
    if a + b > u32::MAX {
        u32::MAX
    } else {
        (a + b) as u32
    }
}

/// The rows of a search that are kept.
pub open spec fn kept_rows(rows: Seq<EmailSummary>, filter: FilterView, everywhere: bool) -> Seq<
    EmailSummary,
> {
    let selected = selected_rows(rows, filter);
    if everywhere {
        distinct_rows(selected)
    } else {
        selected
    }
}

/// The rows that meet the criteria that were left for later.
pub open spec fn selected_rows(rows: Seq<EmailSummary>, filter: FilterView) -> Seq<EmailSummary> {
    rows.filter(|s: EmailSummary| selects(filter, s))
}

fn select_rows(rows: Vec<EmailSummary>, filter: &ClientFilter) -> (out: Vec<EmailSummary>)
    ensures
        out@ == selected_rows(rows@, filter@),
{
    let ghost all = rows@;
    let ghost f = filter@;
    let mut out: Vec<EmailSummary> = Vec::new();
    proof {
        reveal_with_fuel(Seq::filter, 1);
        assert(out@ =~= selected_rows(all.take(0), f));
    }
    for s in it: rows
        invariant
            it.seq() == all,
            f == filter@,
            out@ == selected_rows(all.take(it.index() as int), f),
    {
        proof {
            let i = it.index() as int;
            reveal_with_fuel(Seq::filter, 1);
            assert(all.take(i + 1).drop_last() =~= all.take(i));
        }
        if filter.matches(&s) {
            out.push(s);
        }
    }
    proof {
        assert(all.take(all.len() as int) =~= all);
    }
    out
}

impl SearchRun {
    /// Begins a search in one folder, or in all of those given.
    pub fn start(folder: &Option<String>, names: &Vec<String>) -> (r: SearchRun)
        ensures
            texts(r.folders@) == match opt_text(*folder) {
                Some(f) => seq![f],
                None => inbox_first(texts(names@)),
            },
            r.everywhere == (folder is None),
            r.done == 0 && r.rows@.len() == 0 && r.matched == 0 && r.failure is None,
    {
        let mut folders: Vec<String> = Vec::new();
        match folder {
            Some(f) => {
                push_text(&mut folders, f.as_str());
                proof {
                    assert(texts(folders@) =~= seq![f@]);
                }
            },
            None => {
                folders = pick_inboxes(names, true);
                let mut rest = pick_inboxes(names, false);
                let ghost a = folders@;
                let ghost b = rest@;
                folders.append(&mut rest);
                proof {
                    assert(texts(a + b) =~= texts(a) + texts(b));
                }
            },
        }
        SearchRun {
            folders,
            everywhere: folder.is_none(),
            done: 0,
            rows: Vec::new(),
            matched: 0,
            failure: None,
        }
    }

    /// The folder to search next.
    pub fn next_folder(&self) -> (out: Option<&String>)
        ensures
            match out {
                Some(f) => self.done < self.folders@.len() && *f == self.folders@[self.done as int],
                None => self.done >= self.folders@.len(),
            },
    {
        if self.done < self.folders.len() {
            Some(&self.folders[self.done])
        } else {
            None
        }
    }

    /// Notes what the search of a folder gave.
    pub fn note_results(&mut self, results: Vec<EmailSummary>, matched: u32)
        requires
            old(self).done < old(self).folders@.len(),
        ensures
            final(self).folders == old(self).folders,
            final(self).everywhere == old(self).everywhere,
            final(self).done == old(self).done + 1,
            final(self).rows@ == old(self).rows@ + results@,
            final(self).matched == capped_sum(old(self).matched, matched),
            final(self).failure == old(self).failure,
    {
        let mut more = results;
        self.rows.append(&mut more);
        let folders: usize = self.folders.len();
        assert(self.done < folders);
        self.matched = if matched > u32::MAX - self.matched {
            u32::MAX
        } else {
            self.matched + matched
        };
        self.done = self.done + 1;
    }

    /// Notes that the search of a folder failed. Where several are searched, the
    /// others still count.
    pub fn note_failure(&mut self, text: String)
        requires
            old(self).done < old(self).folders@.len(),
        ensures
            final(self).folders == old(self).folders,
            final(self).everywhere == old(self).everywhere,
            final(self).done == old(self).done + 1,
            final(self).rows == old(self).rows,
            final(self).matched == old(self).matched,
            opt_text(final(self).failure) == if old(self).folders@.len() == 1 {
                Some(text@)
            } else {
                opt_text(old(self).failure)
            },
    {
        if self.folders.len() == 1 {
            self.failure = Some(text);
        }
        self.done = self.done + 1;
    }

    /// The rows that the search gives, each message once; or what went wrong.
    pub fn finish(self, filter: &ClientFilter) -> (r: Result<(Vec<EmailSummary>, u32), String>)
        ensures
            match opt_text(self.failure) {
                Some(text) => r is Err && r->Err_0@ == text,
                None => r is Ok && r->Ok_0.0@ == kept_rows(self.rows@, filter@, self.everywhere)
                    && r->Ok_0.1 == self.matched,
            },
    {
        if let Some(text) = self.failure {
            return Err(text);
        }
        let selected = select_rows(self.rows, filter);
        if self.everywhere {
            Ok((keep_distinct_rows(selected), self.matched))
        } else {
            Ok((selected, self.matched))
        }
    }
}

// ---------------------------------------------------------------------------
// The answer
// ---------------------------------------------------------------------------

/// What an answer is made of beside the rows.
#[derive(Debug)]
pub struct SearchPayload<'a> {
    pub account: &'a str,
    pub server_matched: u32,
    pub offset: u32,
    pub limit: u32,
    pub limit_capped: bool,
    pub group_by_thread: bool,
    pub compact: bool,
}

/// The rows of an answer: conversations where they are asked for, cut to the
/// page.
pub open spec fn answer_rows(sorted: Seq<EmailSummary>, p: SearchPayload) -> Seq<EmailSummary> {
    if p.group_by_thread {
        page_rows(sorted, true, p.limit as nat)
    } else {
        first_rows(sorted, p.limit as nat)
    }
}

/// What a search gives are the rows that meet what was left for later: all of them
/// and no others where one folder is searched, and of several folders no row that
/// was not found or does not meet it.
pub proof fn searches_keep_what_meets_the_criteria(
    rows: Seq<EmailSummary>,
    filter: FilterView,
    s: EmailSummary,
)
    ensures
        kept_rows(rows, filter, false).contains(s) <==> rows.contains(s) && selects(filter, s),
        kept_rows(rows, filter, true).contains(s) ==> rows.contains(s) && selects(filter, s),
        selects(filter, s) && rows.contains(s) ==> exists|t: EmailSummary| #[trigger]
            kept_rows(rows, filter, true).contains(t) && row_key(t) == row_key(s),
{
    lemma_selected(rows, filter, s);
    let selected = selected_rows(rows, filter);
    let kept = kept_rows(rows, filter, true);
    distinct_rows_are_distinct(selected);
    if kept.contains(s) {
        let k = choose|k: int| 0 <= k < kept.len() && kept[k] == s;
        assert(selected.contains(kept[k]));
    }
    if selected.contains(s) {
        let k = choose|k: int| 0 <= k < selected.len() && selected[k] == s;
        let i = choose|i: int|
            0 <= i < distinct_rows(selected).len() && row_key(#[trigger] distinct_rows(selected)[i])
                == row_key(selected[k]);
        assert(kept.contains(kept[i]));
    }
}

proof fn lemma_selected(rows: Seq<EmailSummary>, filter: FilterView, s: EmailSummary)
    ensures
        selected_rows(rows, filter).contains(s) <==> rows.contains(s) && selects(filter, s),
    decreases rows.len(),
{
    reveal_with_fuel(Seq::filter, 1);
    if rows.len() > 0 {
        let front = rows.drop_last();
        let last = rows.last();
        let head = selected_rows(front, filter);
        let all = selected_rows(rows, filter);
        lemma_selected(front, filter, s);
        if rows.contains(s) {
            let i = choose|i: int| 0 <= i < rows.len() && rows[i] == s;
            if i < front.len() {
                assert(front[i] == s);
            }
        }
        if front.contains(s) {
            let i = choose|i: int| 0 <= i < front.len() && front[i] == s;
            assert(rows[i] == s);
        }
        assert(rows[rows.len() - 1] == last);
        if selects(filter, last) {
            assert(all =~= head.push(last));
            assert(all[head.len() as int] == last);
        } else {
            assert(all =~= head);
        }
        if head.contains(s) {
            let i = choose|i: int| 0 <= i < head.len() && head[i] == s;
            assert(all[i] == s);
        }
        if all.contains(s) {
            let i = choose|i: int| 0 <= i < all.len() && all[i] == s;
            if i < head.len() {
                assert(head[i] == s);
            }
        }
    }
}

/// How many messages match, as far as is known: never fewer than are given.
pub open spec fn matched_count(server: u32, returned: nat) -> u32 {
    if counted(returned) > server {
        counted(returned)
    } else {
        server
    }
}

/// The answer to a search, given its rows with the newest first.
pub open spec fn search_answer(sorted: Seq<EmailSummary>, p: SearchPayload) -> JsonView {
    let rows = answer_rows(sorted, p);
    let cut = threads_cut(sorted, p.group_by_thread, p.limit as nat);
    let matched = matched_count(p.server_matched, rows.len());
    JsonView::Obj(
        seq![
            ("account"@, JsonView::Str(p.account@)),
            ("matched"@, JsonView::Num(matched as nat)),
            ("returned"@, JsonView::Num(rows.len())),
            ("offset"@, JsonView::Num(p.offset as nat)),
            ("limit"@, JsonView::Num(p.limit as nat)),
            (
                "has_more"@,
                JsonView::Bool(
                    matched > p.offset + sorted.len() || cut is Some || (!p.group_by_thread
                        && sorted.len() > p.limit),
                ),
            ),
            ("emails"@, rows_json(rows, p.compact)),
        ] + member_if(p.limit_capped, "limit_capped"@, JsonView::Bool(true)) + cut_member(cut),
    )
}

/// Makes the answer to a search of its rows.
pub fn render_search_payload(results: Vec<EmailSummary>, p: &SearchPayload) -> (j: Json)
    ensures
        exists|sorted: Seq<EmailSummary>| #[trigger]
            is_newest_first(results@, sorted) && j@ == search_answer(sorted, *p),
{
    let mut sorted = results;
    sort_newest_first(&mut sorted);
    let ghost all = sorted@;
    let fetched: usize = sorted.len();
    let (rows, cut, truncated) = if p.group_by_thread {
        let (grouped, cut) = collapse(sorted, true, p.limit);
        (grouped, cut, false)
    } else {
        let truncated = fetched > p.limit as usize;
        if truncated {
            sorted.truncate(p.limit as usize);
        }
        (sorted, None, truncated)
    };
    let returned: u32 = count_of(rows.len());
    let matched: u32 = if returned > p.server_matched {
        returned
    } else {
        p.server_matched
    };
    let has_more = reaches_past(matched, p.offset, fetched) || cut.is_some() || truncated;
    let mut m = Members::new();
    m.put_str("account", p.account);
    m.put_num("matched", matched as u64);
    m.put_num("returned", rows.len() as u64);
    m.put_num("offset", p.offset as u64);
    m.put_num("limit", p.limit as u64);
    m.put_bool("has_more", has_more);
    m.put("emails", summary_rows(&rows, p.compact));
    if p.limit_capped {
        m.put_bool("limit_capped", true);
    }
    if let Some(n) = cut {
        m.put_num("threads_truncated_from", n as u64);
    }
    proof {
        assert(rows@ == answer_rows(all, *p));
        assert(m@ =~= search_answer(all, *p)->Obj_0);
    }
    m.done()
}

// ---------------------------------------------------------------------------
// Laws
// ---------------------------------------------------------------------------

/// A server that searches Unicode gets every term: nothing but a time of day and
/// the presence of attachments is left for later.
pub proof fn unicode_servers_take_every_term(
    req: SearchEmailsRequest,
    since: Option<BoundView>,
    before: Option<BoundView>,
)
    ensures
        !terms_are_kept(later_criteria(req, true, since, before)),
{
    lemma_nothing_kept(all_terms(req.subject, req.subject_all));
    lemma_nothing_kept(all_terms(req.from, req.from_all));
    lemma_nothing_kept(all_terms(req.to, None));
    lemma_nothing_kept(all_terms(req.text, req.text_all));
}

proof fn lemma_nothing_kept(terms: Seq<Seq<char>>)
    ensures
        kept_terms(terms, true).len() == 0,
    decreases terms.len(),
{
    if terms.len() > 0 {
        lemma_nothing_kept(terms.drop_last());
    }
}

/// No term is lost: each is either given to the server or left for later.
pub proof fn no_term_is_lost(key: Seq<char>, terms: Seq<Seq<char>>, unicode: bool)
    ensures
        server_terms(key, terms, unicode).len() + kept_terms(terms, unicode).len() == terms.len(),
        forall|i: int|
            0 <= i < terms.len() ==> {
                ||| server_terms(key, terms, unicode).contains(criterion(key, #[trigger] terms[i]))
                ||| kept_terms(terms, unicode).contains(lowercase(terms[i]))
            },
    decreases terms.len(),
{
    if terms.len() > 0 {
        let front = terms.drop_last();
        let last = terms.last();
        no_term_is_lost(key, front, unicode);
        let s0 = server_terms(key, front, unicode);
        let k0 = kept_terms(front, unicode);
        let s = server_terms(key, terms, unicode);
        let k = kept_terms(terms, unicode);
        assert forall|i: int| 0 <= i < terms.len() implies {
            ||| s.contains(criterion(key, #[trigger] terms[i]))
            ||| k.contains(lowercase(terms[i]))
        } by {
            if i < front.len() {
                assert(terms[i] == front[i]);
                if s0.contains(criterion(key, front[i])) {
                    let j = choose|j: int| 0 <= j < s0.len() && s0[j] == criterion(key, front[i]);
                    assert(s[j] == s0[j]);
                } else {
                    let j = choose|j: int| 0 <= j < k0.len() && k0[j] == lowercase(front[i]);
                    assert(k[j] == k0[j]);
                }
            } else if server_takes(last, unicode) {
                assert(s[s0.len() as int] == criterion(key, last));
            } else {
                assert(k[k0.len() as int] == lowercase(last));
            }
        }
    }
}

/// The inbox comes first: no folder before an inbox is anything else.
pub proof fn inboxes_come_first(l: Seq<Seq<char>>, i: int, j: int)
    requires
        0 <= i < j < inbox_first(l).len(),
        is_inbox(inbox_first(l)[j]),
    ensures
        is_inbox(inbox_first(l)[i]),
{
    lemma_inboxes(l, true);
    lemma_inboxes(l, false);
}

proof fn lemma_inboxes(l: Seq<Seq<char>>, yes: bool)
    ensures
        forall|i: int| 0 <= i < inboxes(l, yes).len() ==> is_inbox(#[trigger] inboxes(l, yes)[i]) == yes,
    decreases l.len(),
{
    reveal_with_fuel(Seq::filter, 1);
    if l.len() > 0 {
        lemma_inboxes(l.drop_last(), yes);
    }
}

/// The number of matches that an answer gives is never smaller than the number of
/// rows in it.
pub proof fn matches_cover_the_rows(sorted: Seq<EmailSummary>, p: SearchPayload)
    ensures
        matched_count(p.server_matched, answer_rows(sorted, p).len()) >= answer_rows(sorted, p).len(),
{
}

} // verus!
