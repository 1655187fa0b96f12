//! What a search finds: the criteria that the server gets and those that are left
//! for later, taken together.

use vstd::prelude::*;
use vstd::utf8::is_ascii_chars;

use super::bounds::BoundView;
use super::search::all_terms;
use super::search::any_terms;
use super::search::content_parts;
use super::search::criteria_text;
use super::search::criterion;
use super::search::day_term;
use super::search::kept_any;
use super::search::kept_terms;
use super::search::later_criteria;
use super::search::read_state;
use super::search::search_plan;
use super::search::searched_sender;
use super::search::selects;
use super::search::sent_by_some;
use super::search::sent_to;
use super::search::server_any;
use super::search::server_parts;
use super::search::server_takes;
use super::search::server_terms;
use super::search::size_term;
use super::search::state_parts;
use super::search::state_word;
use super::search::takes_all;
use super::search::text_lists;
use super::search::ClientFilter;
use super::search::SearchEmailsRequest;
use crate::email::opt_address;
use crate::email::EmailSummary;
use crate::email::EmailView;
use crate::imap_client::filter::has_all;
use crate::imap_client::filter::has_any;
use crate::imap_client::filter::haystack;
use crate::imap_client::query::behind_word;
use crate::imap_client::query::finds;
use crate::imap_client::query::first_word;
use crate::imap_client::query::from_space;
use crate::imap_client::query::is_tail;
use crate::imap_client::query::is_word;
use crate::imap_client::query::judged;
use crate::imap_client::query::judged_all;
use crate::imap_client::query::lemma_charset;
use crate::imap_client::query::lemma_decimal_reads_back;
use crate::imap_client::query::lemma_joined;
use crate::imap_client::query::lemma_keys;
use crate::imap_client::query::lemma_no_charset;
use crate::imap_client::query::lemma_or_chain;
use crate::imap_client::query::lemma_text_criterion;
use crate::imap_client::query::lemma_words;
use crate::imap_client::query::says;
use crate::imap_client::query::Field;
use crate::imap_client::query::Stored;
use crate::imap_client::util::or_chain;
use crate::imap_client::util::without_controls;
use crate::text::contains_text;
use crate::text::decimal;
use crate::text::joined;
use crate::text::lowercase;
use crate::text::opt_text;
use crate::text::texts;

verus! {

// ---------------------------------------------------------------------------
// What is asked
// ---------------------------------------------------------------------------

/// A term occurs in a field of a message.
pub open spec fn occurs_in(m: Stored, field: Field, term: Seq<char>) -> bool {
    (m.has)(field, term)
}

/// A term that is given occurs.
pub open spec fn has_one(m: Stored, field: Field, o: Option<String>) -> bool {
    o matches Some(t) ==> occurs_in(m, field, t@)
}

/// Every term of a list that is given occurs.
pub open spec fn has_every(m: Stored, field: Field, o: Option<Vec<String>>) -> bool {
    o matches Some(l) ==> forall|i: int|
        0 <= i < l@.len() ==> occurs_in(m, field, (#[trigger] l@[i])@)
}

/// A term of a list that is given, and not empty, occurs.
pub open spec fn has_some(m: Stored, field: Field, o: Option<Vec<String>>) -> bool {
    o matches Some(l) ==> l@.len() == 0 || exists|i: int|
        0 <= i < l@.len() && occurs_in(m, field, (#[trigger] l@[i])@)
}

/// A message meets what a request asks of its contents.
pub open spec fn has_contents(req: SearchEmailsRequest, m: Stored) -> bool {
    &&& has_one(m, Field::Text, req.text)
    &&& has_every(m, Field::Text, req.text_all)
    &&& has_some(m, Field::Text, req.text_any)
    &&& has_one(m, Field::From, req.from)
    &&& has_every(m, Field::From, req.from_all)
    &&& has_some(m, Field::From, req.from_any)
    &&& has_one(m, Field::To, req.to)
    &&& has_one(m, Field::Subject, req.subject)
    &&& has_every(m, Field::Subject, req.subject_all)
}

/// A message meets what a request asks of its state.
pub open spec fn has_state(req: SearchEmailsRequest, m: Stored) -> bool {
    &&& req.is_read matches Some(yes) ==> m.seen == yes
    &&& req.unread_only matches Some(yes) ==> m.seen == !yes
    &&& req.is_flagged matches Some(yes) ==> m.flagged == yes
    &&& req.is_answered matches Some(yes) ==> m.answered == yes
    &&& req.min_size matches Some(n) ==> m.size > n
    &&& req.max_size matches Some(n) ==> m.size < n
}

/// A message arrived within the bounds of a request: on their days, and where
/// they have a time of day, and the time of arrival is known, at their seconds.
pub open spec fn has_arrived(
    since: Option<BoundView>,
    before: Option<BoundView>,
    m: Stored,
    arrived: Option<i64>,
) -> bool {
    &&& since matches Some(b) ==> (m.since)(b.imap_date) && (b.unix matches Some(s) ==> (
    arrived matches Some(t) ==> t >= s))
    &&& before matches Some(b) ==> (m.before)(b.imap_date) && (b.unix matches Some(s) ==> (
    arrived matches Some(t) ==> t < s))
}

/// A message is what a request asks for.
pub open spec fn is_asked_for(
    req: SearchEmailsRequest,
    since: Option<BoundView>,
    before: Option<BoundView>,
    m: Stored,
    row: EmailSummary,
    arrived: Option<i64>,
) -> bool {
    &&& has_contents(req, m)
    &&& has_state(req, m)
    &&& has_arrived(since, before, m, arrived)
    &&& req.has_attachments matches Some(yes) ==> row.has_attachments == yes
}

// ---------------------------------------------------------------------------
// What is found
// ---------------------------------------------------------------------------

/// A row and a message that was fetched agree with the message on the server on
/// which terms occur where: in the subject, in the sender's address and name, in
/// the address of a recipient, and anywhere.
pub open spec fn agrees(m: Stored, row: EmailSummary, e: EmailView) -> bool {
    &&& forall|t: Seq<char>| #[trigger]
        occurs_in(m, Field::Subject, t) == contains_text(lowercase(row.subject@), lowercase(t))
    &&& forall|t: Seq<char>| #[trigger]
        occurs_in(m, Field::From, t) == contains_text(sender_line(row), lowercase(t))
    &&& forall|t: Seq<char>| #[trigger]
        occurs_in(m, Field::To, t) == is_addressed(row, lowercase(t))
    &&& forall|t: Seq<char>| #[trigger]
        occurs_in(m, Field::Text, t) == contains_text(haystack(e), lowercase(t))
}

/// The sender's address and name in small letters, with a space between them.
pub open spec fn sender_line(row: EmailSummary) -> Seq<char> {
    match row.from {
        Some(a) => lowercase(a.address@) + seq![' '] + lowercase(
            match a.name {
                Some(n) => n@,
                None => Seq::empty(),
            },
        ),
        None => Seq::empty(),
    }
}

/// A term occurs in the address of a recipient.
pub open spec fn is_addressed(row: EmailSummary, term: Seq<char>) -> bool {
    exists|i: int|
        0 <= i < row.to@.len() && contains_text(lowercase((#[trigger] row.to@[i]).address@), term)
}

/// What is left for later keeps a message.
pub open spec fn is_kept(filter: ClientFilter, row: EmailSummary, e: EmailView, arrived: Option<i64>) -> bool {
    &&& selects(filter@, row)
    &&& filter.post.body.accepts(e)
    &&& filter.post.in_time(arrived)
}

/// A text without control characters.
pub open spec fn is_plain(t: Seq<char>) -> bool {
    without_controls(t) == t
}

/// A list of texts without control characters.
pub open spec fn are_plain(o: Option<Vec<String>>) -> bool {
    o matches Some(l) ==> forall|i: int| 0 <= i < l@.len() ==> is_plain((#[trigger] l@[i])@)
}

/// A text without control characters, where there is one.
pub open spec fn is_plain_one(o: Option<String>) -> bool {
    o matches Some(t) ==> is_plain(t@)
}

/// The terms of a request hold no control characters, and those of which one must
/// occur in the sender are in small letters once they are put into small letters.
pub open spec fn has_plain_terms(req: SearchEmailsRequest) -> bool {
    &&& is_plain_one(req.text) && are_plain(req.text_all) && are_plain(req.text_any)
    &&& is_plain_one(req.from) && are_plain(req.from_all) && are_plain(req.from_any)
    &&& is_plain_one(req.to)
    &&& is_plain_one(req.subject) && are_plain(req.subject_all)
    &&& req.from_any matches Some(l) ==> forall|i: int|
        0 <= i < l@.len() ==> lowercase(lowercase((#[trigger] l@[i])@)) == lowercase(l@[i]@)
}

/// The day of a bound is one word.
pub open spec fn is_day_word(b: Option<BoundView>) -> bool {
    b matches Some(v) ==> is_word(v.imap_date)
}

// ---------------------------------------------------------------------------
// Lists of truths
// ---------------------------------------------------------------------------

spec fn all_true(l: Seq<bool>) -> bool {
    forall|i: int| 0 <= i < l.len() ==> #[trigger] l[i]
}

/// The texts are criteria that a message meets as the truths say.
spec fn are_said(parts: Seq<Seq<char>>, m: Stored, truth: Seq<bool>) -> bool {
    parts.len() == truth.len() && forall|i: int|
        0 <= i < parts.len() ==> says(#[trigger] parts[i], m, truth[i])
}

proof fn lemma_both(a: Seq<Seq<char>>, b: Seq<Seq<char>>, m: Stored, x: Seq<bool>, y: Seq<bool>)
    requires
        are_said(a, m, x),
        are_said(b, m, y),
    ensures
        are_said(a + b, m, x + y),
        all_true(x + y) <==> all_true(x) && all_true(y),
{
    assert forall|i: int| 0 <= i < (a + b).len() implies says(#[trigger] (a + b)[i], m, (x + y)[i]) by {
        if i < a.len() {
            assert(says(a[i], m, x[i]));
        } else {
            assert(says(b[i - a.len()], m, y[i - a.len()]));
        }
    }
    if all_true(x + y) {
        assert forall|i: int| 0 <= i < x.len() implies #[trigger] x[i] by {
            assert((x + y)[i]);
        }
        assert forall|i: int| 0 <= i < y.len() implies #[trigger] y[i] by {
            assert((x + y)[x.len() + i]);
        }
    }
}

// ---------------------------------------------------------------------------
// Terms
// ---------------------------------------------------------------------------

spec fn is_key_of(key: Seq<char>, field: Field) -> bool {
    (key == "FROM"@ && field == Field::From) || (key == "TO"@ && field == Field::To) || (key
        == "SUBJECT"@ && field == Field::Subject) || (key == "TEXT"@ && field == Field::Text)
}

spec fn terms_truth(m: Stored, field: Field, terms: Seq<Seq<char>>, unicode: bool) -> Seq<bool>
    decreases terms.len(),
{
    if terms.len() == 0 {
        Seq::empty()
    } else {
        let head = terms_truth(m, field, terms.drop_last(), unicode);
        if server_takes(terms.last(), unicode) {
            head.push(occurs_in(m, field, without_controls(terms.last())))
        } else {
            head
        }
    }
}

proof fn lemma_server_terms(key: Seq<char>, field: Field, terms: Seq<Seq<char>>, unicode: bool, m: Stored)
    requires
        is_key_of(key, field),
    ensures
        are_said(server_terms(key, terms, unicode), m, terms_truth(m, field, terms, unicode)),
        all_true(terms_truth(m, field, terms, unicode)) <==> forall|i: int|
            0 <= i < terms.len() && server_takes(#[trigger] terms[i], unicode) ==> occurs_in(
                m,
                field,
                without_controls(terms[i]),
            ),
    decreases terms.len(),
{
    if terms.len() > 0 {
        let front = terms.drop_last();
        let last = terms.last();
        lemma_server_terms(key, field, front, unicode, m);
        let x = terms_truth(m, field, front, unicode);
        let y = terms_truth(m, field, terms, unicode);
        let a = server_terms(key, front, unicode);
        assert(forall|i: int| 0 <= i < front.len() ==> #[trigger] front[i] == terms[i]);
        if server_takes(last, unicode) {
            lemma_text_criterion(key, field, last, m);
            let truth = occurs_in(m, field, without_controls(last));
            assert(are_said(seq![criterion(key, last)], m, seq![truth]));
            lemma_both(a, seq![criterion(key, last)], m, x, seq![truth]);
            assert(a.push(criterion(key, last)) =~= a + seq![criterion(key, last)]);
            assert(y =~= x + seq![truth]);
            assert(all_true(seq![truth]) == truth) by {
                assert(seq![truth][0] == truth);
            }
        }
        if all_true(y) {
            assert forall|i: int| 0 <= i < terms.len() && server_takes(#[trigger] terms[i], unicode) implies occurs_in(
                m,
                field,
                without_controls(terms[i]),
            ) by {
                if i < front.len() {
                    assert(front[i] == terms[i]);
                }
            }
        }
        if forall|i: int|
            0 <= i < terms.len() && server_takes(#[trigger] terms[i], unicode) ==> occurs_in(
                m,
                field,
                without_controls(terms[i]),
            ) {
            assert forall|i: int| 0 <= i < front.len() && server_takes(#[trigger] front[i], unicode) implies occurs_in(
                m,
                field,
                without_controls(front[i]),
            ) by {
                assert(terms[i] == front[i]);
            }
            assert(terms[terms.len() - 1] == last);
        }
    }
}

proof fn lemma_kept_terms(terms: Seq<Seq<char>>, unicode: bool, p: spec_fn(Seq<char>) -> bool)
    ensures
        (forall|k: int| 0 <= k < kept_terms(terms, unicode).len() ==> p(
            #[trigger] kept_terms(terms, unicode)[k],
        )) <==> forall|i: int|
            0 <= i < terms.len() && !server_takes(#[trigger] terms[i], unicode) ==> p(
                lowercase(terms[i]),
            ),
    decreases terms.len(),
{
    let kept = kept_terms(terms, unicode);
    if terms.len() > 0 {
        let front = terms.drop_last();
        let last = terms.last();
        lemma_kept_terms(front, unicode, p);
        let head = kept_terms(front, unicode);
        let all_kept = forall|k: int| 0 <= k < kept.len() ==> p(#[trigger] kept[k]);
        let all_head = forall|k: int| 0 <= k < head.len() ==> p(#[trigger] head[k]);
        assert(all_kept == (all_head && (!server_takes(last, unicode) ==> p(lowercase(last))))) by {
            if all_kept {
                assert forall|k: int| 0 <= k < head.len() implies p(#[trigger] head[k]) by {
                    assert(kept[k] == head[k]);
                }
                if !server_takes(last, unicode) {
                    assert(kept[head.len() as int] == lowercase(last));
                }
            }
            if all_head && (!server_takes(last, unicode) ==> p(lowercase(last))) {
                assert forall|k: int| 0 <= k < kept.len() implies p(#[trigger] kept[k]) by {
                    if k < head.len() {
                        assert(kept[k] == head[k]);
                    }
                }
            }
        }
        if forall|i: int|
            0 <= i < terms.len() && !server_takes(#[trigger] terms[i], unicode) ==> p(
                lowercase(terms[i]),
            ) {
            assert forall|i: int| 0 <= i < front.len() && !server_takes(#[trigger] front[i], unicode) implies p(
                lowercase(front[i]),
            ) by {
                assert(terms[i] == front[i]);
            }
            assert(terms[terms.len() - 1] == last);
        }
        if all_kept {
            assert forall|i: int| 0 <= i < terms.len() && !server_takes(#[trigger] terms[i], unicode) implies p(
                lowercase(terms[i]),
            ) by {
                if i < front.len() {
                    assert(front[i] == terms[i]);
                }
            }
        }
    }
}

/// The terms given singly and in a list: those that the server takes and those
/// that are left for later make up what is asked.
proof fn lemma_terms(
    key: Seq<char>,
    field: Field,
    one: Option<String>,
    all: Option<Vec<String>>,
    unicode: bool,
    m: Stored,
    p: spec_fn(Seq<char>) -> bool,
)
    requires
        is_key_of(key, field),
        is_plain_one(one),
        are_plain(all),
        forall|t: Seq<char>| #[trigger] occurs_in(m, field, t) == p(lowercase(t)),
    ensures
        are_said(
            server_terms(key, all_terms(one, all), unicode),
            m,
            terms_truth(m, field, all_terms(one, all), unicode),
        ),
        all_true(terms_truth(m, field, all_terms(one, all), unicode)) && (forall|k: int|
            0 <= k < kept_terms(all_terms(one, all), unicode).len() ==> p(
                #[trigger] kept_terms(all_terms(one, all), unicode)[k],
            )) <==> has_one(m, field, one) && has_every(m, field, all),
{
    let terms = all_terms(one, all);
    lemma_server_terms(key, field, terms, unicode, m);
    lemma_kept_terms(terms, unicode, p);
    let offset: int = if one is Some {
        1
    } else {
        0
    };
    assert(one is Some ==> terms[0] == one->0@);
    assert forall|i: int| 0 <= i < terms.len() implies is_plain(#[trigger] terms[i]) by {
        if i >= offset {
            assert(terms[i] == texts(all->0@)[i - offset]);
            assert(terms[i] == all->0@[i - offset]@);
        }
    }
    let every = forall|i: int| 0 <= i < terms.len() ==> occurs_in(m, field, #[trigger] terms[i]);
    assert(every <==> has_one(m, field, one) && has_every(m, field, all)) by {
        if every {
            if let Some(t) = one {
                assert(occurs_in(m, field, terms[0]));
            }
            if let Some(l) = all {
                assert forall|i: int| 0 <= i < l@.len() implies occurs_in(m, field, (#[trigger] l@[i])@) by {
                    assert(terms[offset + i] == texts(l@)[i]);
                }
            }
        }
        if has_one(m, field, one) && has_every(m, field, all) {
            assert forall|i: int| 0 <= i < terms.len() implies occurs_in(m, field, #[trigger] terms[i]) by {
                if i >= offset {
                    assert(terms[i] == all->0@[i - offset]@);
                }
            }
        }
    }
    assert(every <==> (forall|i: int|
        0 <= i < terms.len() && server_takes(#[trigger] terms[i], unicode) ==> occurs_in(
            m,
            field,
            without_controls(terms[i]),
        )) && (forall|i: int|
        0 <= i < terms.len() && !server_takes(#[trigger] terms[i], unicode) ==> p(
            lowercase(terms[i]),
        )));
}

// ---------------------------------------------------------------------------
// Terms of which one must occur
// ---------------------------------------------------------------------------

spec fn any_truth(m: Stored, field: Field, terms: Seq<Seq<char>>, unicode: bool) -> Seq<bool> {
    if terms.len() > 0 && takes_all(terms, unicode) {
        seq![
            exists|i: int|
                0 <= i < terms.len() && occurs_in(
                    m,
                    field,
                    without_controls(#[trigger] terms[i]),
                ),
        ]
    } else {
        Seq::empty()
    }
}

/// Terms of which one must occur: the server takes all of them, or all are left
/// for later.
proof fn lemma_any(
    key: Seq<char>,
    field: Field,
    any: Option<Vec<String>>,
    unicode: bool,
    m: Stored,
    p: spec_fn(Seq<char>) -> bool,
)
    requires
        is_key_of(key, field),
        are_plain(any),
        any matches Some(l) ==> forall|i: int|
            0 <= i < l@.len() ==> occurs_in(m, field, (#[trigger] l@[i])@) == p(lowercase(l@[i]@)),
    ensures
        are_said(
            server_any(key, any_terms(any), unicode),
            m,
            any_truth(m, field, any_terms(any), unicode),
        ),
        all_true(any_truth(m, field, any_terms(any), unicode)) && (forall|g: int|
            0 <= g < kept_any(any_terms(any), unicode).len() ==> some_of(
                #[trigger] kept_any(any_terms(any), unicode)[g],
                p,
            )) <==> has_some(m, field, any),
{
    let terms = any_terms(any);
    let parts = server_any(key, terms, unicode);
    let truth = any_truth(m, field, terms, unicode);
    let groups = kept_any(terms, unicode);
    if terms.len() > 0 {
        let l = any->0@;
        assert forall|i: int| 0 <= i < terms.len() implies #[trigger] terms[i] == l[i]@ && is_plain(
            terms[i],
        ) by {}
        let some = exists|i: int| 0 <= i < l.len() && occurs_in(m, field, (#[trigger] l[i])@);
        if takes_all(terms, unicode) {
            let each = terms.map_values(|t: Seq<char>| criterion(key, t));
            let said = terms.map_values(|t: Seq<char>| occurs_in(m, field, without_controls(t)));
            assert forall|i: int| 0 <= i < each.len() implies says(#[trigger] each[i], m, said[i]) by {
                lemma_text_criterion(key, field, terms[i], m);
            }
            lemma_or_chain(each, m, said);
            let b = exists|i: int| 0 <= i < said.len() && #[trigger] said[i];
            let c = exists|i: int|
                0 <= i < terms.len() && occurs_in(m, field, without_controls(#[trigger] terms[i]));
            assert(b == c) by {
                if b {
                    let i = choose|i: int| 0 <= i < said.len() && #[trigger] said[i];
                    assert(occurs_in(m, field, without_controls(terms[i])));
                }
                if c {
                    let i = choose|i: int|
                        0 <= i < terms.len() && occurs_in(
                            m,
                            field,
                            without_controls(#[trigger] terms[i]),
                        );
                    assert(said[i]);
                }
            }
            assert(c == some) by {
                if c {
                    let i = choose|i: int|
                        0 <= i < terms.len() && occurs_in(
                            m,
                            field,
                            without_controls(#[trigger] terms[i]),
                        );
                    assert(occurs_in(m, field, l[i]@));
                }
                if some {
                    let i = choose|i: int| 0 <= i < l.len() && occurs_in(m, field, (#[trigger] l[i])@);
                    assert(terms[i] == l[i]@);
                }
            }
            assert(truth =~= seq![c]);
            assert(all_true(truth) == c) by {
                assert(truth[0] == c);
            }
            assert(parts =~= seq![or_chain(each)]);
        } else {
            let g = terms.map_values(|t: Seq<char>| lowercase(t));
            assert(groups =~= seq![g]);
            assert(groups[0] == g);
            assert(some_of(g, p) == some) by {
                if some_of(g, p) {
                    let i = choose|i: int| 0 <= i < g.len() && p(#[trigger] g[i]);
                    assert(g[i] == lowercase(l[i]@));
                    assert(occurs_in(m, field, l[i]@));
                }
                if some {
                    let i = choose|i: int| 0 <= i < l.len() && occurs_in(m, field, (#[trigger] l[i])@);
                    assert(g[i] == lowercase(l[i]@));
                    assert(p(g[i]));
                }
            }
            assert((forall|k: int| 0 <= k < groups.len() ==> some_of(#[trigger] groups[k], p)) == some_of(
                g,
                p,
            ));
        }
        assert(has_some(m, field, any) == some);
    }
}

/// One of the texts is as it should be.
spec fn some_of(l: Seq<Seq<char>>, p: spec_fn(Seq<char>) -> bool) -> bool {
    exists|i: int| 0 <= i < l.len() && p(#[trigger] l[i])
}

// ---------------------------------------------------------------------------
// States, sizes and days
// ---------------------------------------------------------------------------

proof fn lemma_state(o: Option<bool>, yes: Seq<char>, no: Seq<char>, m: Stored, is: bool) -> (truth:
    Seq<bool>)
    requires
        says(yes, m, is),
        says(no, m, !is),
    ensures
        are_said(state_word(o, yes, no), m, truth),
        all_true(truth) <==> (o matches Some(b) ==> is == b),
{
    match o {
        Some(b) => {
            let truth = seq![is == b];
            assert(truth[0] == (is == b));
            truth
        },
        None => Seq::empty(),
    }
}

proof fn lemma_state_keys(m: Stored)
    ensures
        says("SEEN"@, m, m.seen),
        says("UNSEEN"@, m, !m.seen),
        says("FLAGGED"@, m, m.flagged),
        says("UNFLAGGED"@, m, !m.flagged),
        says("ANSWERED"@, m, m.answered),
        says("UNANSWERED"@, m, !m.answered),
{
    lemma_keys();
    assert forall|r: Seq<char>| is_tail(r) implies #[trigger] judged("SEEN"@ + r, m) == Some(
        (m.seen, r),
    ) by {
        lemma_words("SEEN"@, r);
    }
    assert forall|r: Seq<char>| is_tail(r) implies #[trigger] judged("UNSEEN"@ + r, m) == Some(
        (!m.seen, r),
    ) by {
        lemma_words("UNSEEN"@, r);
    }
    assert forall|r: Seq<char>| is_tail(r) implies #[trigger] judged("FLAGGED"@ + r, m) == Some(
        (m.flagged, r),
    ) by {
        lemma_words("FLAGGED"@, r);
    }
    assert forall|r: Seq<char>| is_tail(r) implies #[trigger] judged("UNFLAGGED"@ + r, m) == Some(
        (!m.flagged, r),
    ) by {
        lemma_words("UNFLAGGED"@, r);
    }
    assert forall|r: Seq<char>| is_tail(r) implies #[trigger] judged("ANSWERED"@ + r, m) == Some(
        (m.answered, r),
    ) by {
        lemma_words("ANSWERED"@, r);
    }
    assert forall|r: Seq<char>| is_tail(r) implies #[trigger] judged("UNANSWERED"@ + r, m) == Some(
        (!m.answered, r),
    ) by {
        lemma_words("UNANSWERED"@, r);
    }
}

proof fn lemma_with_word(key: Seq<char>, word: Seq<char>, r: Seq<char>)
    requires
        is_word(key),
        is_word(word),
        is_tail(r),
    ensures
        ({
            let t = key + seq![' '] + word + r;
            &&& first_word(t) == key
            &&& behind_word(t) == word + r
            &&& first_word(behind_word(t)) == word
            &&& from_space(behind_word(t)) == r
        }),
{
    let tail = seq![' '] + word + r;
    assert(key + seq![' '] + word + r =~= key + tail);
    lemma_words(key, tail);
    assert(tail.skip(1) =~= word + r);
    lemma_words(word, r);
}

proof fn lemma_larger(n: u32, m: Stored)
    ensures
        says("LARGER "@ + decimal(n as nat), m, m.size > n),
{
    lemma_keys();
    lemma_decimal_reads_back(n as nat);
    reveal_strlit("LARGER ");
    assert("LARGER "@ =~= "LARGER"@ + seq![' ']) by {
        reveal_strlit("LARGER");
    }
    let p = "LARGER "@ + decimal(n as nat);
    assert forall|r: Seq<char>| is_tail(r) implies #[trigger] judged(p + r, m) == Some(
        (m.size > n, r),
    ) by {
        assert(p + r =~= "LARGER"@ + seq![' '] + decimal(n as nat) + r);
        lemma_with_word("LARGER"@, decimal(n as nat), r);
    }
}

proof fn lemma_smaller(n: u32, m: Stored)
    ensures
        says("SMALLER "@ + decimal(n as nat), m, m.size < n),
{
    lemma_keys();
    lemma_decimal_reads_back(n as nat);
    reveal_strlit("SMALLER ");
    assert("SMALLER "@ =~= "SMALLER"@ + seq![' ']) by {
        reveal_strlit("SMALLER");
    }
    let p = "SMALLER "@ + decimal(n as nat);
    assert forall|r: Seq<char>| is_tail(r) implies #[trigger] judged(p + r, m) == Some(
        (m.size < n, r),
    ) by {
        assert(p + r =~= "SMALLER"@ + seq![' '] + decimal(n as nat) + r);
        lemma_with_word("SMALLER"@, decimal(n as nat), r);
    }
}

proof fn lemma_since(day: Seq<char>, m: Stored)
    requires
        is_word(day),
    ensures
        says("SINCE "@ + day, m, (m.since)(day)),
{
    lemma_keys();
    reveal_strlit("SINCE ");
    assert("SINCE "@ =~= "SINCE"@ + seq![' ']) by {
        reveal_strlit("SINCE");
    }
    let p = "SINCE "@ + day;
    assert forall|r: Seq<char>| is_tail(r) implies #[trigger] judged(p + r, m) == Some(
        ((m.since)(day), r),
    ) by {
        assert(p + r =~= "SINCE"@ + seq![' '] + day + r);
        lemma_with_word("SINCE"@, day, r);
    }
}

proof fn lemma_before(day: Seq<char>, m: Stored)
    requires
        is_word(day),
    ensures
        says("BEFORE "@ + day, m, (m.before)(day)),
{
    lemma_keys();
    reveal_strlit("BEFORE ");
    assert("BEFORE "@ =~= "BEFORE"@ + seq![' ']) by {
        reveal_strlit("BEFORE");
    }
    let p = "BEFORE "@ + day;
    assert forall|r: Seq<char>| is_tail(r) implies #[trigger] judged(p + r, m) == Some(
        ((m.before)(day), r),
    ) by {
        assert(p + r =~= "BEFORE"@ + seq![' '] + day + r);
        lemma_with_word("BEFORE"@, day, r);
    }
}

/// A list that holds one criterion, where there is one.
proof fn lemma_at_most_one(parts: Seq<Seq<char>>, m: Stored, given: bool, is: bool) -> (truth: Seq<bool>)
    requires
        parts.len() == if given {
            1nat
        } else {
            0nat
        },
        given ==> says(parts[0], m, is),
    ensures
        are_said(parts, m, truth),
        all_true(truth) <==> (given ==> is),
{
    if given {
        let truth = seq![is];
        assert(truth[0] == is);
        truth
    } else {
        Seq::empty()
    }
}

// ---------------------------------------------------------------------------
// The whole search
// ---------------------------------------------------------------------------

proof fn lemma_states(req: SearchEmailsRequest, is_read: Option<bool>, m: Stored) -> (truth: Seq<bool>)
    requires
        read_state(req) == Ok::<Option<bool>, Seq<char>>(is_read),
    ensures
        are_said(state_parts(req, is_read), m, truth),
        all_true(truth) <==> has_state(req, m),
{
    lemma_state_keys(m);
    let a = lemma_state(is_read, "SEEN"@, "UNSEEN"@, m, m.seen);
    let b = lemma_state(req.is_flagged, "FLAGGED"@, "UNFLAGGED"@, m, m.flagged);
    let c = lemma_state(req.is_answered, "ANSWERED"@, "UNANSWERED"@, m, m.answered);
    if let Some(n) = req.min_size {
        lemma_larger(n, m);
    }
    if let Some(n) = req.max_size {
        lemma_smaller(n, m);
    }
    let min = size_term("LARGER "@, req.min_size);
    let max = size_term("SMALLER "@, req.max_size);
    let d = lemma_at_most_one(min, m, req.min_size is Some, m.size > req.min_size->0);
    let e = lemma_at_most_one(max, m, req.max_size is Some, m.size < req.max_size->0);
    let p = state_word(is_read, "SEEN"@, "UNSEEN"@);
    let q = state_word(req.is_flagged, "FLAGGED"@, "UNFLAGGED"@);
    let r = state_word(req.is_answered, "ANSWERED"@, "UNANSWERED"@);
    lemma_both(p, q, m, a, b);
    lemma_both(p + q, r, m, a + b, c);
    lemma_both(p + q + r, min, m, a + b + c, d);
    lemma_both(p + q + r + min, max, m, a + b + c + d, e);
    a + b + c + d + e
}

/// What is left for later, of the contents of a message.
spec fn keeps_contents(req: SearchEmailsRequest, unicode: bool, row: EmailSummary, e: EmailView) -> bool {
    let f = later_criteria(req, unicode, None, None);
    let sender = sender_line(row);
    &&& has_all(lowercase(row.subject@), f.subject)
    &&& has_all(sender, f.from)
    &&& forall|i: int| 0 <= i < f.to.len() ==> is_addressed(row, #[trigger] f.to[i])
    &&& forall|g: int| 0 <= g < f.from_any.len() ==> sent_by_some(sender, #[trigger] f.from_any[g])
    &&& has_all(haystack(e), f.text)
    &&& forall|g: int| 0 <= g < f.text_any.len() ==> has_any(haystack(e), #[trigger] f.text_any[g])
}

proof fn lemma_contents(
    req: SearchEmailsRequest,
    unicode: bool,
    m: Stored,
    row: EmailSummary,
    e: EmailView,
) -> (truth: Seq<bool>)
    requires
        has_plain_terms(req),
        agrees(m, row, e),
    ensures
        are_said(content_parts(req, unicode), m, truth),
        all_true(truth) && keeps_contents(req, unicode, row, e) <==> has_contents(req, m),
{
    let f = later_criteria(req, unicode, None, None);
    let sender = sender_line(row);
    let hay = haystack(e);
    let subject = lowercase(row.subject@);
    let in_text = |t: Seq<char>| contains_text(hay, t);
    let in_sender = |t: Seq<char>| contains_text(sender, t);
    let in_sender_again = |t: Seq<char>| contains_text(sender, lowercase(t));
    let in_to = |t: Seq<char>| is_addressed(row, t);
    let in_subject = |t: Seq<char>| contains_text(subject, t);
    lemma_terms("TEXT"@, Field::Text, req.text, req.text_all, unicode, m, in_text);
    lemma_any("TEXT"@, Field::Text, req.text_any, unicode, m, in_text);
    lemma_terms("FROM"@, Field::From, req.from, req.from_all, unicode, m, in_sender);
    lemma_any("FROM"@, Field::From, req.from_any, unicode, m, in_sender_again);
    lemma_terms("TO"@, Field::To, req.to, None, unicode, m, in_to);
    lemma_terms("SUBJECT"@, Field::Subject, req.subject, req.subject_all, unicode, m, in_subject);
    let ta = all_terms(req.text, req.text_all);
    let tb = any_terms(req.text_any);
    let fa = all_terms(req.from, req.from_all);
    let fb = any_terms(req.from_any);
    let to = all_terms(req.to, None);
    let sa = all_terms(req.subject, req.subject_all);
    let a = terms_truth(m, Field::Text, ta, unicode);
    let b = any_truth(m, Field::Text, tb, unicode);
    let c = terms_truth(m, Field::From, fa, unicode);
    let d = any_truth(m, Field::From, fb, unicode);
    let g = terms_truth(m, Field::To, to, unicode);
    let h = terms_truth(m, Field::Subject, sa, unicode);
    let p = server_terms("TEXT"@, ta, unicode);
    let q = server_any("TEXT"@, tb, unicode);
    let r = server_terms("FROM"@, fa, unicode);
    let s = server_any("FROM"@, fb, unicode);
    let u = server_terms("TO"@, to, unicode);
    let v = server_terms("SUBJECT"@, sa, unicode);
    lemma_both(p, q, m, a, b);
    lemma_both(p + q, r, m, a + b, c);
    lemma_both(p + q + r, s, m, a + b + c, d);
    lemma_both(p + q + r + s, u, m, a + b + c + d, g);
    lemma_both(p + q + r + s + u, v, m, a + b + c + d + g, h);
    assert(has_all(subject, f.subject) <==> forall|k: int|
        0 <= k < f.subject.len() ==> in_subject(#[trigger] f.subject[k]));
    assert(has_all(sender, f.from) <==> forall|k: int|
        0 <= k < f.from.len() ==> in_sender(#[trigger] f.from[k]));
    assert((forall|k: int| 0 <= k < f.to.len() ==> is_addressed(row, #[trigger] f.to[k])) <==> forall|
        k: int,
    | 0 <= k < f.to.len() ==> in_to(#[trigger] f.to[k]));
    assert(has_all(hay, f.text) <==> forall|k: int|
        0 <= k < f.text.len() ==> in_text(#[trigger] f.text[k]));
    assert forall|k: int| 0 <= k < f.from_any.len() implies sent_by_some(
        sender,
        #[trigger] f.from_any[k],
    ) == some_of(f.from_any[k], in_sender_again) by {
        lemma_some_sender(sender, f.from_any[k]);
    }
    assert forall|k: int| 0 <= k < f.text_any.len() implies has_any(hay, #[trigger] f.text_any[k])
        == some_of(f.text_any[k], in_text) by {
        lemma_some_text(hay, f.text_any[k]);
    }
    assert((forall|k: int| 0 <= k < f.from_any.len() ==> sent_by_some(sender, #[trigger] f.from_any[k]))
        <==> forall|k: int|
        0 <= k < f.from_any.len() ==> some_of(#[trigger] f.from_any[k], in_sender_again));
    assert((forall|k: int| 0 <= k < f.text_any.len() ==> has_any(hay, #[trigger] f.text_any[k]))
        <==> forall|k: int| 0 <= k < f.text_any.len() ==> some_of(#[trigger] f.text_any[k], in_text));
    a + b + c + d + g + h
}

proof fn lemma_some_sender(sender: Seq<char>, group: Seq<Seq<char>>)
    ensures
        sent_by_some(sender, group) == some_of(
            group,
            |t: Seq<char>| contains_text(sender, lowercase(t)),
        ),
{
    let p = |t: Seq<char>| contains_text(sender, lowercase(t));
    if sent_by_some(sender, group) {
        let i = choose|i: int|
            0 <= i < group.len() && contains_text(sender, lowercase(#[trigger] group[i]));
        assert(p(group[i]));
    }
    if some_of(group, p) {
        let i = choose|i: int| 0 <= i < group.len() && p(#[trigger] group[i]);
        assert(contains_text(sender, lowercase(group[i])));
    }
}

proof fn lemma_some_text(hay: Seq<char>, group: Seq<Seq<char>>)
    ensures
        has_any(hay, group) == some_of(group, |t: Seq<char>| contains_text(hay, t)),
{
    let p = |t: Seq<char>| contains_text(hay, t);
    if has_any(hay, group) {
        let i = choose|i: int| 0 <= i < group.len() && contains_text(hay, #[trigger] group[i]);
        assert(p(group[i]));
    }
    if some_of(group, p) {
        let i = choose|i: int| 0 <= i < group.len() && p(#[trigger] group[i]);
        assert(contains_text(hay, group[i]));
    }
}

/// A message that the server finds, and that what is left for later keeps, is one
/// that the request asks for; and every such message is found and kept. Each field
/// of the request is held against its own part of the message: the terms for the
/// sender against the sender, the subject against the subject, and so on.
pub proof fn searches_find_what_is_asked_for(
    req: SearchEmailsRequest,
    unicode: bool,
    since: Option<BoundView>,
    before: Option<BoundView>,
    criteria: Seq<char>,
    filter: ClientFilter,
    m: Stored,
    row: EmailSummary,
    e: EmailView,
    arrived: Option<i64>,
)
    requires
        search_plan(req, unicode, since, before) == Ok::<_, Seq<char>>((criteria, filter@)),
        has_plain_terms(req),
        is_day_word(since),
        is_day_word(before),
        agrees(m, row, e),
    ensures
        finds(criteria, m) is Some,
        finds(criteria, m)->0 && is_kept(filter, row, e, arrived) <==> is_asked_for(
            req,
            since,
            before,
            m,
            row,
            arrived,
        ),
{
    let is_read = read_state(req)->Ok_0;
    let parts = server_parts(req, unicode, since, before, is_read);
    let f = later_criteria(req, unicode, since, before);
    let contents = lemma_contents(req, unicode, m, row, e);
    if let Some(b) = since {
        lemma_since(b.imap_date, m);
    }
    if let Some(b) = before {
        lemma_before(b.imap_date, m);
    }
    let p = content_parts(req, unicode);
    let q = day_term("SINCE "@, since);
    let r = day_term("BEFORE "@, before);
    let s = state_parts(req, is_read);
    let x = lemma_at_most_one(q, m, since is Some, (m.since)(since->0.imap_date));
    let y = lemma_at_most_one(r, m, before is Some, (m.before)(before->0.imap_date));
    let z = lemma_states(req, is_read, m);
    lemma_both(p, q, m, contents, x);
    lemma_both(p + q, r, m, contents + x, y);
    lemma_both(p + q + r, s, m, contents + x + y, z);
    let truth = contents + x + y + z;
    lemma_joined(parts, m, truth);
    let list = joined(parts, " "@);
    lemma_charset(list, m);
    lemma_no_charset(list, m);
    assert(finds(criteria, m) == Some(all_true(truth)));
    assert(is_kept(filter, row, e, arrived) <==> keeps_contents(req, unicode, row, e) && (
    req.has_attachments matches Some(yes) ==> row.has_attachments == yes)
        && filter.post.in_time(arrived)) by {
        lemma_kept_is_kept(req, unicode, since, before, filter, row, e, arrived);
    }
}

proof fn lemma_kept_is_kept(
    req: SearchEmailsRequest,
    unicode: bool,
    since: Option<BoundView>,
    before: Option<BoundView>,
    filter: ClientFilter,
    row: EmailSummary,
    e: EmailView,
    arrived: Option<i64>,
)
    requires
        filter@ == later_criteria(req, unicode, since, before),
    ensures
        is_kept(filter, row, e, arrived) <==> keeps_contents(req, unicode, row, e) && (
        req.has_attachments matches Some(yes) ==> row.has_attachments == yes)
            && filter.post.in_time(arrived),
        filter.post.in_time(arrived) <==> {
            &&& since matches Some(b) ==> (b.unix matches Some(s) ==> (
            arrived matches Some(t) ==> t >= s))
            &&& before matches Some(b) ==> (b.unix matches Some(s) ==> (
            arrived matches Some(t) ==> t < s))
        },
{
    let f = later_criteria(req, unicode, None, None);
    reveal_strlit(" ");
    assert(" "@ =~= seq![' ']);
    assert(searched_sender(opt_address(row.from)) =~= sender_line(row));
    assert forall|t: Seq<char>| #[trigger] sent_to(row, t) == is_addressed(row, t) by {}
    let any = filter.post.body.any@;
    assert(f.text_any == text_lists(any));
    assert(f.text == texts(filter.post.body.all@));
    assert((forall|g: int| 0 <= g < any.len() ==> has_any(haystack(e), texts((#[trigger] any[g])@)))
        <==> forall|g: int| 0 <= g < f.text_any.len() ==> has_any(haystack(e), #[trigger] f.text_any[g])) by {
        assert forall|g: int| 0 <= g < any.len() implies f.text_any[g] == texts(
            (#[trigger] any[g])@,
        ) by {}
        if forall|g: int| 0 <= g < any.len() ==> has_any(haystack(e), texts((#[trigger] any[g])@)) {
            assert forall|g: int| 0 <= g < f.text_any.len() implies has_any(
                haystack(e),
                #[trigger] f.text_any[g],
            ) by {
                assert(has_any(haystack(e), texts(any[g]@)));
            }
        }
        if forall|g: int| 0 <= g < f.text_any.len() ==> has_any(haystack(e), #[trigger] f.text_any[g]) {
            assert forall|g: int| 0 <= g < any.len() implies has_any(
                haystack(e),
                texts((#[trigger] any[g])@),
            ) by {
                assert(has_any(haystack(e), f.text_any[g]));
            }
        }
    }
    assert((forall|i: int| 0 <= i < f.to.len() ==> sent_to(row, #[trigger] f.to[i])) <==> forall|i: int|
        0 <= i < f.to.len() ==> is_addressed(row, #[trigger] f.to[i]));
    let v = filter@;
    assert(v.subject == f.subject && v.from == f.from && v.to == f.to && v.from_any == f.from_any);
    let sender = sender_line(row);
    assert(selects(v, row) <==> {
        &&& has_all(lowercase(row.subject@), f.subject)
        &&& has_all(sender, f.from)
        &&& forall|i: int| 0 <= i < f.to.len() ==> is_addressed(row, #[trigger] f.to[i])
        &&& forall|g: int|
            0 <= g < f.from_any.len() ==> sent_by_some(sender, #[trigger] f.from_any[g])
        &&& req.has_attachments matches Some(yes) ==> row.has_attachments == yes
    });
    assert(filter.post.body.accepts(e) <==> {
        &&& has_all(haystack(e), f.text)
        &&& forall|g: int|
            0 <= g < f.text_any.len() ==> has_any(haystack(e), #[trigger] f.text_any[g])
    });
}

} // verus!
