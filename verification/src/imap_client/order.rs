//! Lists of messages: sorted by date, and each message once.

use std::cmp::Ordering;
use vstd::hash_set::StringHashSet;
use vstd::prelude::*;

use crate::email::EmailFull;
use crate::email::EmailSummary;
use crate::imap_client::query::lemma_decimal_reads_back;
use crate::text::copy_of;
use crate::text::decimal;
use crate::text::decimal_string;
use crate::text::opt_text;
use crate::text::same_text;
use crate::tools::threads::date_before;
use crate::tools::threads::date_is_before;
use crate::tools::threads::text_before;

verus! {

// ---------------------------------------------------------------------------
// By date
// ---------------------------------------------------------------------------

/// Compares two dates; no date comes before every date.
pub fn date_order(a: &Option<String>, b: &Option<String>) -> (o: Ordering)
    ensures
        match o {
            Ordering::Less => date_before(opt_text(*a), opt_text(*b)),
            Ordering::Greater => date_before(opt_text(*b), opt_text(*a)),
            Ordering::Equal => !date_before(opt_text(*a), opt_text(*b)) && !date_before(
                opt_text(*b),
                opt_text(*a),
            ),
        },
{
    if date_is_before(a, b) {
        Ordering::Less
    } else if date_is_before(b, a) {
        Ordering::Greater
    } else {
        Ordering::Equal
    }
}

/// The rows of one date, in order.
pub open spec fn rows_dated(l: Seq<EmailSummary>, d: Option<Seq<char>>) -> Seq<EmailSummary> {
    l.filter(|s: EmailSummary| opt_text(s.date) == d)
}

/// The rows with the newest first; rows of one date stay in the order in which
/// they were.
pub open spec fn is_newest_first(from: Seq<EmailSummary>, to: Seq<EmailSummary>) -> bool {
    &&& to.len() == from.len()
    &&& forall|i: int, j: int|
        0 <= i < j < to.len() ==> !date_before(
            opt_text((#[trigger] to[i]).date),
            opt_text((#[trigger] to[j]).date),
        )
    &&& forall|d: Option<Seq<char>>| #[trigger] rows_dated(to, d) == rows_dated(from, d)
}

/// `slice::sort_by` of rows with the later date first. It is stable: rows of one
/// date stay in order.
#[verifier::external_body]
pub(crate) fn sort_newest_first(l: &mut Vec<EmailSummary>)
    ensures
        is_newest_first(old(l)@, final(l)@),
{
    l.sort_by(|a, b| date_order(&b.date, &a.date));
}

/// The messages of one date, in order.
pub open spec fn messages_dated(l: Seq<EmailFull>, d: Option<Seq<char>>) -> Seq<EmailFull> {
    l.filter(|e: EmailFull| opt_text(e.date) == d)
}

/// The messages with the oldest first; messages of one date stay in the order in
/// which they were.
pub open spec fn is_oldest_first(from: Seq<EmailFull>, to: Seq<EmailFull>) -> bool {
    &&& to.len() == from.len()
    &&& forall|i: int, j: int|
        0 <= i < j < to.len() ==> !date_before(
            opt_text((#[trigger] to[j]).date),
            opt_text((#[trigger] to[i]).date),
        )
    &&& forall|d: Option<Seq<char>>| #[trigger] messages_dated(to, d) == messages_dated(from, d)
}

/// `slice::sort_by` of messages with the earlier date first. It is stable:
/// messages of one date stay in order.
#[verifier::external_body]
pub(crate) fn sort_oldest_first(l: &mut Vec<EmailFull>)
    ensures
        is_oldest_first(old(l)@, final(l)@),
{
    l.sort_by(|a, b| date_order(&a.date, &b.date));
}

// ---------------------------------------------------------------------------
// Each once
// ---------------------------------------------------------------------------

/// What tells a row from another across folders: its message id, or its place
/// where it has none.
pub open spec fn row_key(s: EmailSummary) -> Seq<char> {
    match opt_text(s.message_id) {
        Some(id) => id,
        None => s.folder@ + "\0"@ + decimal(s.uid as nat),
    }
}

/// An earlier row has the key of row `i`.
pub open spec fn repeats_row(l: Seq<EmailSummary>, i: int) -> bool {
    exists|j: int| 0 <= j < i && row_key(#[trigger] l[j]) == row_key(l[i])
}

/// The rows of which no earlier one has the key, in order.
pub open spec fn distinct_rows(l: Seq<EmailSummary>) -> Seq<EmailSummary>
    decreases l.len(),
{
    if l.len() == 0 {
        Seq::empty()
    } else {
        let head = distinct_rows(l.drop_last());
        if repeats_row(l, l.len() - 1) {
            head
        } else {
            head.push(l.last())
        }
    }
}

fn key_of_row(s: &EmailSummary) -> (k: String)
    ensures
        k@ == row_key(*s),
{
    match &s.message_id {
        Some(id) => copy_of(id.as_str()),
        None => {
            let mut k = copy_of(s.folder.as_str());
            k.append("\0");
            let n = decimal_string(s.uid as u64);
            k.append(n.as_str());
            k
        },
    }
}

/// Keeps each row once: the first of those with the same key.
pub fn keep_distinct_rows(rows: Vec<EmailSummary>) -> (out: Vec<EmailSummary>)
    ensures
        out@ == distinct_rows(rows@),
{
    let ghost all = rows@;
    let mut seen = StringHashSet::new();
    let mut out: Vec<EmailSummary> = Vec::new();
    for row in it: rows
        invariant
            it.seq() == all,
            out@ == distinct_rows(all.take(it.index() as int)),
            forall|k: Seq<char>| #[trigger]
                seen@.contains(k) <==> exists|j: int|
                    0 <= j < it.index() && row_key(#[trigger] all[j]) == k,
    {
        let ghost i = it.index() as int;
        let ghost was = seen@;
        let k = key_of_row(&row);
        let ghost key = k@;
        let fresh = seen.insert(k);
        proof {
            assert(all.take(i + 1).drop_last() =~= all.take(i));
            assert(all.take(i + 1).last() == row);
            assert(fresh == !repeats_row(all.take(i + 1), i)) by {
                if was.contains(key) {
                    let j = choose|j: int| 0 <= j < i && row_key(#[trigger] all[j]) == key;
                    assert(all.take(i + 1)[j] == all[j]);
                }
                if repeats_row(all.take(i + 1), i) {
                    let j = choose|j: int|
                        0 <= j < i && row_key(#[trigger] all.take(i + 1)[j]) == row_key(
                            all.take(i + 1)[i],
                        );
                    assert(row_key(all[j]) == key);
                }
            }
            assert forall|q: Seq<char>| #[trigger] seen@.contains(q) <==> exists|j: int|
                0 <= j < i + 1 && row_key(#[trigger] all[j]) == q by {
                if was.contains(q) {
                    let j = choose|j: int| 0 <= j < i && row_key(#[trigger] all[j]) == q;
                    assert(row_key(all[j]) == q);
                }
                assert(row_key(all[i]) == key);
            }
        }
        if fresh {
            out.push(row);
        }
    }
    proof {
        assert(all.take(all.len() as int) =~= all);
    }
    out
}

/// After deduplication no two rows have one key, and every key is still there.
pub proof fn distinct_rows_are_distinct(l: Seq<EmailSummary>)
    ensures
        forall|i: int, j: int|
            0 <= i < j < distinct_rows(l).len() ==> row_key(#[trigger] distinct_rows(l)[i])
                != row_key(#[trigger] distinct_rows(l)[j]),
        forall|i: int|
            0 <= i < distinct_rows(l).len() ==> l.contains(#[trigger] distinct_rows(l)[i]),
        forall|k: int|
            0 <= k < l.len() ==> exists|i: int|
                0 <= i < distinct_rows(l).len() && row_key(#[trigger] distinct_rows(l)[i])
                    == row_key(#[trigger] l[k]),
    decreases l.len(),
{
    if l.len() > 0 {
        let front = l.drop_last();
        let head = distinct_rows(front);
        let d = distinct_rows(l);
        let n = l.len() - 1;
        distinct_rows_are_distinct(front);
        assert forall|i: int| 0 <= i < d.len() implies l.contains(#[trigger] d[i]) by {
            if i < head.len() {
                assert(front.contains(head[i]));
                let k = choose|k: int| 0 <= k < front.len() && front[k] == head[i];
                assert(l[k] == d[i]);
            } else {
                assert(l[n] == d[i]);
            }
        }
        assert forall|k: int| 0 <= k < l.len() implies exists|i: int|
            0 <= i < d.len() && row_key(#[trigger] d[i]) == row_key(#[trigger] l[k]) by {
            if k < n {
                assert(front[k] == l[k]);
                let i = choose|i: int|
                    0 <= i < head.len() && row_key(#[trigger] head[i]) == row_key(front[k]);
                assert(d[i] == head[i]);
            } else if repeats_row(l, n) {
                let j = choose|j: int| 0 <= j < n && row_key(#[trigger] l[j]) == row_key(l[n]);
                assert(front[j] == l[j]);
                let i = choose|i: int|
                    0 <= i < head.len() && row_key(#[trigger] head[i]) == row_key(front[j]);
                assert(d[i] == head[i]);
            } else {
                assert(d[head.len() as int] == l[n]);
            }
        }
        if !repeats_row(l, n) {
            assert forall|i: int, j: int| 0 <= i < j < d.len() implies row_key(#[trigger] d[i])
                != row_key(#[trigger] d[j]) by {
                if j == head.len() {
                    assert(front.contains(head[i]));
                    let k = choose|k: int| 0 <= k < front.len() && front[k] == head[i];
                    assert(l[k] == head[i]);
                }
            }
        }
    }
}

/// What tells a message from another: its message id, or its place where it has
/// none.
pub enum MessageKey {
    Id(Seq<char>),
    Place(Seq<char>, u32),
}

/// The key of a message.
pub open spec fn message_key(e: EmailFull) -> MessageKey {
    match opt_text(e.message_id) {
        Some(id) => MessageKey::Id(id),
        None => MessageKey::Place(e.folder@, e.uid),
    }
}

/// An earlier message has the key of message `i`.
pub open spec fn repeats_message(l: Seq<EmailFull>, i: int) -> bool {
    exists|j: int| 0 <= j < i && message_key(#[trigger] l[j]) == message_key(l[i])
}

/// The messages of which no earlier one has the key, in order.
pub open spec fn distinct_messages(l: Seq<EmailFull>) -> Seq<EmailFull>
    decreases l.len(),
{
    if l.len() == 0 {
        Seq::empty()
    } else {
        let head = distinct_messages(l.drop_last());
        if repeats_message(l, l.len() - 1) {
            head
        } else {
            head.push(l.last())
        }
    }
}

fn same_key(a: &EmailFull, b: &EmailFull) -> (same: bool)
    ensures
        same == (message_key(*a) == message_key(*b)),
{
    match (&a.message_id, &b.message_id) {
        (Some(x), Some(y)) => same_text(x.as_str(), y.as_str()),
        (None, None) => a.uid == b.uid && same_text(a.folder.as_str(), b.folder.as_str()),
        _ => false,
    }
}

proof fn lemma_repeats_kept(l: Seq<EmailFull>, key: MessageKey)
    ensures
        (exists|j: int| 0 <= j < l.len() && message_key(#[trigger] l[j]) == key) <==> (exists|j: int|
            0 <= j < distinct_messages(l).len() && message_key(#[trigger] distinct_messages(l)[j])
                == key),
    decreases l.len(),
{
    if l.len() > 0 {
        let front = l.drop_last();
        let head = distinct_messages(front);
        let d = distinct_messages(l);
        let n = l.len() - 1;
        lemma_repeats_kept(front, key);
        if exists|j: int| 0 <= j < l.len() && message_key(#[trigger] l[j]) == key {
            let j = choose|j: int| 0 <= j < l.len() && message_key(#[trigger] l[j]) == key;
            let m = if j == n && repeats_message(l, n) {
                choose|m: int| 0 <= m < n && message_key(#[trigger] l[m]) == message_key(l[n])
            } else {
                j
            };
            if m < n {
                assert(message_key(front[m]) == key);
                let i = choose|i: int|
                    0 <= i < head.len() && message_key(#[trigger] head[i]) == key;
                assert(d[i] == head[i]);
            } else {
                assert(d[head.len() as int] == l[n]);
            }
        }
        if exists|j: int| 0 <= j < d.len() && message_key(#[trigger] d[j]) == key {
            let j = choose|j: int| 0 <= j < d.len() && message_key(#[trigger] d[j]) == key;
            if j < head.len() {
                assert(message_key(head[j]) == key);
                let i = choose|i: int|
                    0 <= i < front.len() && message_key(#[trigger] front[i]) == key;
                assert(l[i] == front[i]);
            } else {
                assert(message_key(l[n]) == key);
            }
        }
    }
}

/// Keeps each message once: the first of those with the same key.
pub fn keep_distinct_messages(messages: Vec<EmailFull>) -> (out: Vec<EmailFull>)
    ensures
        out@ == distinct_messages(messages@),
{
    let ghost all = messages@;
    let mut out: Vec<EmailFull> = Vec::new();
    for message in it: messages
        invariant
            it.seq() == all,
            out@ == distinct_messages(all.take(it.index() as int)),
    {
        let ghost i = it.index() as int;
        let ghost key = message_key(message);
        let mut k: usize = 0;
        let mut known: bool = false;
        while k < out.len() && !known
            invariant
                k <= out@.len(),
                key == message_key(message),
                known ==> exists|j: int| 0 <= j < out@.len() && message_key(#[trigger] out@[j]) == key,
                !known ==> forall|j: int|
                    0 <= j < k ==> message_key(#[trigger] out@[j]) != key,
            decreases out@.len() - k + if known {
                0int
            } else {
                1int
            },
        {
            if same_key(&out[k], &message) {
                known = true;
            } else {
                k += 1;
            }
        }
        proof {
            let now = all.take(i + 1);
            assert(now.drop_last() =~= all.take(i));
            assert(now.last() == message);
            lemma_repeats_kept(all.take(i), key);
            assert(known == repeats_message(now, i)) by {
                if known {
                    let j = choose|j: int|
                        0 <= j < all.take(i).len() && message_key(#[trigger] all.take(i)[j]) == key;
                    assert(now[j] == all.take(i)[j]);
                }
                if repeats_message(now, i) {
                    let j = choose|j: int|
                        0 <= j < i && message_key(#[trigger] now[j]) == message_key(now[i]);
                    assert(message_key(all.take(i)[j]) == key);
                }
            }
        }
        if !known {
            out.push(message);
        }
    }
    proof {
        assert(all.take(all.len() as int) =~= all);
    }
    out
}

/// After deduplication no two messages have one key, and every key is still
/// there.
pub proof fn distinct_messages_are_distinct(l: Seq<EmailFull>)
    ensures
        keys_differ(distinct_messages(l)),
        forall|i: int|
            0 <= i < distinct_messages(l).len() ==> l.contains(#[trigger] distinct_messages(l)[i]),
        forall|k: int|
            0 <= k < l.len() ==> exists|i: int|
                0 <= i < distinct_messages(l).len() && message_key(
                    #[trigger] distinct_messages(l)[i],
                ) == message_key(#[trigger] l[k]),
    decreases l.len(),
{
    let d = distinct_messages(l);
    assert forall|k: int| 0 <= k < l.len() implies exists|i: int|
        0 <= i < d.len() && message_key(#[trigger] d[i]) == message_key(#[trigger] l[k]) by {
        lemma_repeats_kept(l, message_key(l[k]));
    }
    if l.len() > 0 {
        let front = l.drop_last();
        let head = distinct_messages(front);
        let n = l.len() - 1;
        distinct_messages_are_distinct(front);
        assert forall|i: int| 0 <= i < d.len() implies l.contains(#[trigger] d[i]) by {
            if i < head.len() {
                assert(front.contains(head[i]));
                let k = choose|k: int| 0 <= k < front.len() && front[k] == head[i];
                assert(l[k] == d[i]);
            } else {
                assert(l[n] == d[i]);
            }
        }
        assert forall|i: int, j: int| 0 <= i < j < d.len() implies message_key(#[trigger] d[i])
            != message_key(#[trigger] d[j]) by {
            if j < head.len() {
                assert(d[i] == head[i] && d[j] == head[j]);
            } else {
                assert(d[i] == head[i] && d[j] == l[n]);
                assert(front.contains(head[i]));
                let k = choose|k: int| 0 <= k < front.len() && front[k] == head[i];
                assert(l[k] == head[i]);
            }
        }
    }
}

/// No two messages have one key.
pub open spec fn keys_differ(l: Seq<EmailFull>) -> bool {
    forall|i: int, j: int|
        0 <= i < j < l.len() ==> message_key(#[trigger] l[i]) != message_key(#[trigger] l[j])
}

proof fn lemma_kept_in_order(l: Seq<EmailFull>, keep: spec_fn(EmailFull) -> bool, i: int, j: int)
    requires
        0 <= i < j < l.len(),
        keep(l[i]),
        keep(l[j]),
    ensures
        exists|p: int, q: int|
            0 <= p < q < l.filter(keep).len() && #[trigger] l.filter(keep)[p] == l[i]
                && #[trigger] l.filter(keep)[q] == l[j],
    decreases l.len(),
{
    reveal_with_fuel(Seq::filter, 1);
    let front = l.drop_last();
    let f = front.filter(keep);
    let all = l.filter(keep);
    if j < l.len() - 1 {
        lemma_kept_in_order(front, keep, i, j);
        let (p, q) = choose|p: int, q: int|
            0 <= p < q < f.len() && #[trigger] f[p] == front[i] && #[trigger] f[q] == front[j];
        assert(all[p] == l[i] && all[q] == l[j]);
    } else {
        lemma_kept(front, keep, i);
        let p = choose|p: int| 0 <= p < f.len() && #[trigger] f[p] == front[i];
        assert(all[p] == l[i] && all[f.len() as int] == l[j]);
    }
}

proof fn lemma_kept(l: Seq<EmailFull>, keep: spec_fn(EmailFull) -> bool, i: int)
    requires
        0 <= i < l.len(),
        keep(l[i]),
    ensures
        exists|p: int| 0 <= p < l.filter(keep).len() && #[trigger] l.filter(keep)[p] == l[i],
    decreases l.len(),
{
    reveal_with_fuel(Seq::filter, 1);
    let front = l.drop_last();
    let f = front.filter(keep);
    if i < l.len() - 1 {
        lemma_kept(front, keep, i);
        let p = choose|p: int| 0 <= p < f.len() && #[trigger] f[p] == front[i];
        assert(l.filter(keep)[p] == l[i]);
    } else {
        assert(l.filter(keep)[f.len() as int] == l[i]);
    }
}

proof fn lemma_filter_comes_from(l: Seq<EmailFull>, keep: spec_fn(EmailFull) -> bool)
    ensures
        forall|p: int|
            0 <= p < l.filter(keep).len() ==> l.contains(#[trigger] l.filter(keep)[p]),
        keys_differ(l) ==> keys_differ(l.filter(keep)),
    decreases l.len(),
{
    reveal_with_fuel(Seq::filter, 1);
    if l.len() > 0 {
        let front = l.drop_last();
        let f = front.filter(keep);
        let all = l.filter(keep);
        lemma_filter_comes_from(front, keep);
        assert forall|p: int| 0 <= p < all.len() implies l.contains(#[trigger] all[p]) by {
            if p < f.len() {
                assert(front.contains(f[p]));
                let k = choose|k: int| 0 <= k < front.len() && front[k] == f[p];
                assert(l[k] == all[p]);
            } else {
                assert(l[l.len() - 1] == all[p]);
            }
        }
        if keys_differ(l) {
            assert(keys_differ(front)) by {
                assert forall|i: int, j: int| 0 <= i < j < front.len() implies message_key(
                    #[trigger] front[i],
                ) != message_key(#[trigger] front[j]) by {
                    assert(front[i] == l[i] && front[j] == l[j]);
                }
            }
            assert forall|i: int, j: int| 0 <= i < j < all.len() implies message_key(
                #[trigger] all[i],
            ) != message_key(#[trigger] all[j]) by {
                if j < f.len() {
                    assert(all[i] == f[i] && all[j] == f[j]);
                } else {
                    assert(front.contains(f[i]));
                    let k = choose|k: int| 0 <= k < front.len() && front[k] == f[i];
                    assert(l[k] == all[i] && l[l.len() - 1] == all[j]);
                }
            }
        }
    }
}

proof fn lemma_sorted_comes_from(from: Seq<EmailFull>, to: Seq<EmailFull>, i: int)
    requires
        forall|d: Option<Seq<char>>| #[trigger] messages_dated(to, d) == messages_dated(from, d),
        0 <= i < to.len(),
    ensures
        from.contains(to[i]),
{
    let d = opt_text(to[i].date);
    let keep = |e: EmailFull| opt_text(e.date) == d;
    lemma_kept(to, keep, i);
    assert(messages_dated(to, d) == messages_dated(from, d));
    lemma_filter_comes_from(from, keep);
    let p = choose|p: int| 0 <= p < to.filter(keep).len() && #[trigger] to.filter(keep)[p] == to[i];
    assert(from.contains(from.filter(keep)[p]));
}

/// Sorting by date keeps the messages: none is lost, none is added, and where no
/// two had one key, no two have.
pub proof fn sorted_messages_are_kept(from: Seq<EmailFull>, to: Seq<EmailFull>)
    requires
        is_oldest_first(from, to),
    ensures
        forall|e: EmailFull| #[trigger] to.contains(e) <==> from.contains(e),
        keys_differ(from) ==> keys_differ(to),
{
    assert forall|e: EmailFull| #[trigger] to.contains(e) <==> from.contains(e) by {
        if to.contains(e) {
            let i = choose|i: int| 0 <= i < to.len() && to[i] == e;
            lemma_sorted_comes_from(from, to, i);
        }
        if from.contains(e) {
            let i = choose|i: int| 0 <= i < from.len() && from[i] == e;
            assert forall|d: Option<Seq<char>>| #[trigger]
                messages_dated(from, d) == messages_dated(to, d) by {
                assert(messages_dated(to, d) == messages_dated(from, d));
            }
            lemma_sorted_comes_from(to, from, i);
        }
    }
    if keys_differ(from) {
        assert forall|i: int, j: int| 0 <= i < j < to.len() implies message_key(#[trigger] to[i])
            != message_key(#[trigger] to[j]) by {
            if message_key(to[i]) == message_key(to[j]) {
                lemma_sorted_comes_from(from, to, i);
                lemma_sorted_comes_from(from, to, j);
                let x = choose|x: int| 0 <= x < from.len() && from[x] == to[i];
                let y = choose|y: int| 0 <= y < from.len() && from[y] == to[j];
                assert(x == y);
                let d = opt_text(to[i].date);
                let keep = |e: EmailFull| opt_text(e.date) == d;
                lemma_kept_in_order(to, keep, i, j);
                lemma_filter_comes_from(from, keep);
                assert(messages_dated(to, d) == messages_dated(from, d));
                let f = from.filter(keep);
                let (p, q) = choose|p: int, q: int|
                    0 <= p < q < to.filter(keep).len() && #[trigger] to.filter(keep)[p] == to[i]
                        && #[trigger] to.filter(keep)[q] == to[j];
                assert(f[p] == to[i] && f[q] == to[j]);
                assert(message_key(f[p]) != message_key(f[q]));
            }
        }
    }
}

/// One text is not after another: where they part, the first has the smaller
/// character, or ends.
pub open spec fn comes_no_later(a: Seq<char>, b: Seq<char>) -> bool {
    forall|k: int|
        0 <= k < a.len() && k <= b.len() && #[trigger] a.take(k) == b.take(k) ==> k < b.len()
            && a[k] <= b[k]
}

proof fn lemma_comes_no_later(a: Seq<char>, b: Seq<char>)
    requires
        !text_before(b, a),
    ensures
        comes_no_later(a, b),
    decreases a.len(),
{
    assert forall|k: int|
        0 <= k < a.len() && k <= b.len() && #[trigger] a.take(k) == b.take(k) implies k < b.len()
        && a[k] <= b[k] by {
        if k > 0 {
            assert(a.take(k)[0] == b.take(k)[0]);
            assert(a[0] == b[0]);
            lemma_comes_no_later(a.drop_first(), b.drop_first());
            let x = a.drop_first();
            let y = b.drop_first();
            assert(x.take(k - 1) =~= a.take(k).drop_first());
            assert(y.take(k - 1) =~= b.take(k).drop_first());
            assert(x[k - 1] == a[k]);
            if k < b.len() {
                assert(y[k - 1] == b[k]);
            }
        }
    }
}

/// Sorted rows come newest first: of two rows with a date the later date stands
/// above the earlier one, rows without a date stand below all that have one, and
/// no row is lost or added.
pub proof fn rows_come_newest_first(from: Seq<EmailSummary>, to: Seq<EmailSummary>, i: int, j: int)
    requires
        is_newest_first(from, to),
        0 <= i < j < to.len(),
    ensures
        to[i].date is None ==> to[j].date is None,
        to[i].date is Some && to[j].date is Some ==> comes_no_later(
            (to[j].date->0)@,
            (to[i].date->0)@,
        ),
        to.len() == from.len(),
        forall|s: EmailSummary| #[trigger] to.contains(s) <==> from.contains(s),
{
    let above = opt_text(to[i].date);
    let below = opt_text(to[j].date);
    assert(!date_before(above, below));
    if to[i].date is Some && to[j].date is Some {
        lemma_comes_no_later(below->0, above->0);
    }
    assert forall|s: EmailSummary| #[trigger] to.contains(s) <==> from.contains(s) by {
        let d = opt_text(s.date);
        let keep = |x: EmailSummary| opt_text(x.date) == d;
        assert(rows_dated(to, d) == rows_dated(from, d));
        lemma_row_kept(to, keep, s);
        lemma_row_kept(from, keep, s);
    }
}

proof fn lemma_row_kept(l: Seq<EmailSummary>, keep: spec_fn(EmailSummary) -> bool, s: EmailSummary)
    requires
        keep(s),
    ensures
        l.filter(keep).contains(s) <==> l.contains(s),
    decreases l.len(),
{
    reveal_with_fuel(Seq::filter, 1);
    if l.len() > 0 {
        let front = l.drop_last();
        let f = front.filter(keep);
        lemma_row_kept(front, keep, s);
        assert(l =~= front.push(l.last()));
        if l.contains(s) {
            let i = choose|i: int| 0 <= i < l.len() && l[i] == s;
            if i < front.len() {
                assert(front[i] == s);
                let p = choose|p: int| 0 <= p < f.len() && f[p] == s;
                if keep(l.last()) {
                    assert(f.push(l.last())[p] == s);
                }
            } else {
                assert(f.push(s)[f.len() as int] == s);
            }
        }
        if l.filter(keep).contains(s) {
            let g = l.filter(keep);
            let p = choose|p: int| 0 <= p < g.len() && g[p] == s;
            if p < f.len() {
                assert(f[p] == s);
                let i = choose|i: int| 0 <= i < front.len() && front[i] == s;
                assert(l[i] == s);
            } else {
                assert(l[l.len() - 1] == s);
            }
        }
    }
}

/// Sorted messages come oldest first: of two messages with a date the earlier
/// date stands above the later one, and messages without a date stand above all
/// that have one.
pub proof fn messages_come_oldest_first(from: Seq<EmailFull>, to: Seq<EmailFull>, i: int, j: int)
    requires
        is_oldest_first(from, to),
        0 <= i < j < to.len(),
    ensures
        to[j].date is None ==> to[i].date is None,
        to[i].date is Some && to[j].date is Some ==> comes_no_later(
            (to[i].date->0)@,
            (to[j].date->0)@,
        ),
{
    let above = opt_text(to[i].date);
    let below = opt_text(to[j].date);
    assert(!date_before(below, above));
    if to[i].date is Some && to[j].date is Some {
        lemma_comes_no_later(above->0, below->0);
    }
}

proof fn lemma_row_is_kept(l: Seq<EmailSummary>, k: int)
    requires
        0 <= k < l.len(),
        !repeats_row(l, k),
    ensures
        distinct_rows(l).contains(l[k]),
    decreases l.len(),
{
    let n = l.len() - 1;
    let front = l.drop_last();
    let head = distinct_rows(front);
    if k < n {
        if repeats_row(front, k) {
            let j = choose|j: int| 0 <= j < k && row_key(#[trigger] front[j]) == row_key(front[k]);
            assert(row_key(l[j]) == row_key(l[k]));
        }
        lemma_row_is_kept(front, k);
        let p = choose|p: int| 0 <= p < head.len() && head[p] == front[k];
        assert(distinct_rows(l)[p] == l[k]);
    } else {
        assert(distinct_rows(l)[head.len() as int] == l[k]);
    }
}

/// A message that several folders hold is listed once, as its first row: no two
/// rows that are left share a Message-ID, rows without one share no place, and
/// the first row with a Message-ID is always left, as is every row without one
/// whose place no other has.
pub proof fn each_message_has_one_row(l: Seq<EmailSummary>, k: int)
    requires
        0 <= k < l.len(),
    ensures
        forall|i: int, j: int|
            0 <= i < j < distinct_rows(l).len() && (#[trigger] distinct_rows(l)[i]).message_id is Some
                && (#[trigger] distinct_rows(l)[j]).message_id is Some ==> (distinct_rows(
                l,
            )[i].message_id->0)@ != (distinct_rows(l)[j].message_id->0)@,
        forall|i: int, j: int|
            0 <= i < j < distinct_rows(l).len() && (#[trigger] distinct_rows(l)[i]).message_id is None
                && (#[trigger] distinct_rows(l)[j]).message_id is None ==> distinct_rows(
                l,
            )[i].folder@ != distinct_rows(l)[j].folder@ || distinct_rows(l)[i].uid != distinct_rows(
                l,
            )[j].uid,
        (l[k].message_id matches Some(id) && !id@.contains('\0') && forall|j: int|
            0 <= j < k && (#[trigger] l[j]).message_id is Some ==> (l[j].message_id->0)@ != id@)
            ==> distinct_rows(l).contains(l[k]),
        (l[k].message_id is None && forall|j: int|
            0 <= j < k ==> if (#[trigger] l[j]).message_id is Some {
                !(l[j].message_id->0)@.contains('\0')
            } else {
                l[j].folder@ != l[k].folder@ || l[j].uid != l[k].uid
            }) ==> distinct_rows(l).contains(l[k]),
{
    distinct_rows_are_distinct(l);
    reveal_strlit("\0");
    if l[k].message_id is Some && !(l[k].message_id->0)@.contains('\0') && forall|j: int|
        0 <= j < k && (#[trigger] l[j]).message_id is Some ==> (l[j].message_id->0)@ != (
        l[k].message_id->0)@ {
        if repeats_row(l, k) {
            let j = choose|j: int| 0 <= j < k && row_key(#[trigger] l[j]) == row_key(l[k]);
            if l[j].message_id is None {
                assert(row_key(l[j])[l[j].folder@.len() as int] == '\0');
            }
        }
        lemma_row_is_kept(l, k);
    }
    if l[k].message_id is None && forall|j: int|
        0 <= j < k ==> if (#[trigger] l[j]).message_id is Some {
            !(l[j].message_id->0)@.contains('\0')
        } else {
            l[j].folder@ != l[k].folder@ || l[j].uid != l[k].uid
        } {
        if repeats_row(l, k) {
            let j = choose|j: int| 0 <= j < k && row_key(#[trigger] l[j]) == row_key(l[k]);
            assert(row_key(l[k])[l[k].folder@.len() as int] == '\0');
            if l[j].message_id is None {
                lemma_places_differ(l[j], l[k]);
            }
        }
        lemma_row_is_kept(l, k);
    }
}

proof fn lemma_places_differ(a: EmailSummary, b: EmailSummary)
    requires
        a.folder@ != b.folder@ || a.uid != b.uid,
    ensures
        a.folder@ + "\0"@ + decimal(a.uid as nat) != b.folder@ + "\0"@ + decimal(b.uid as nat),
{
    reveal_strlit("\0");
    let d = decimal(a.uid as nat);
    let e = decimal(b.uid as nat);
    let x = a.folder@ + "\0"@ + d;
    let y = b.folder@ + "\0"@ + e;
    lemma_decimal_reads_back(a.uid as nat);
    lemma_decimal_reads_back(b.uid as nat);
    let p = a.folder@.len() as int;
    let q = b.folder@.len() as int;
    assert("\0"@.len() == 1);
    if x == y {
        assert(x.len() == p + 1 + d.len() && y.len() == q + 1 + e.len());
        assert(x[p] == '\0' && y[q] == '\0');
        if p < q {
            assert(x[q] == d[q - p - 1]);
            assert('0' <= d[q - p - 1]);
        } else if q < p {
            assert(y[p] == e[p - q - 1]);
            assert('0' <= e[p - q - 1]);
        } else {
            assert(a.folder@ =~= x.take(p));
            assert(b.folder@ =~= y.take(q));
            assert(d =~= x.skip(p + 1));
            assert(e =~= y.skip(q + 1));
        }
    }
}

} // verus!
