//! From what the server sends for a message to a row of a listing.

use vstd::prelude::*;
use vstd::seq_lib::to_multiset_build;
use vstd::seq_lib::to_multiset_insert;

use crate::email::address_views;
use crate::email::is_snippet;
use crate::email::opt_address;
use crate::email::parse_email;
use crate::email::parse_email_no_html;
use crate::email::reported_email;
use crate::email::summarize;
use crate::email::EmailFull;
use crate::email::EmailSummary;
use crate::email::EmailView;
use crate::email::SUMMARY_TO_PREVIEW;
use crate::imap_client::filter::PostFetchFilter;
use crate::imap_client::folders::display_name_of;
use crate::imap_client::folders::safe_display_name;
use crate::mail::is_message;
use crate::mail::parsed_mail;
use crate::text::copy_of;
use crate::text::copy_opt;
use crate::text::opt_text;
use crate::text::texts;
use crate::time::unix_to_utc_iso;
use crate::time::utc_civil;
use crate::time::utc_iso;

verus! {

/// The largest message that is read, in bytes.
pub const MAX_EMAIL_BYTES: usize = 104_857_600;

/// A flag of a message on the server.
#[derive(Debug)]
pub enum MailFlag {
    Seen,
    Answered,
    Flagged,
    Deleted,
    Draft,
    Recent,
    MayCreate,
    Custom(String),
}

/// What the server sends for one message.
#[derive(Debug)]
pub struct Fetched {
    pub uid: Option<u32>,
    pub body: Option<Vec<u8>>,
    pub flags: Vec<MailFlag>,
    /// The time of arrival in Unix seconds.
    pub internal_unix: Option<i64>,
}

/// A flag as text.
pub open spec fn flag_text(f: MailFlag) -> Seq<char> {
    match f {
        MailFlag::Seen => "\\Seen"@,
        MailFlag::Answered => "\\Answered"@,
        MailFlag::Flagged => "\\Flagged"@,
        MailFlag::Deleted => "\\Deleted"@,
        MailFlag::Draft => "\\Draft"@,
        MailFlag::Recent => "\\Recent"@,
        MailFlag::MayCreate => "\\MayCreate"@,
        MailFlag::Custom(c) => c@,
    }
}

/// The flags that are reported: all but the one that is about the connection
/// and not about the message.
pub open spec fn flag_texts(l: Seq<MailFlag>) -> Seq<Seq<char>> {
    l.filter(|f: MailFlag| !(f is Recent)).map_values(|f: MailFlag| flag_text(f))
}

fn flag_string(f: &MailFlag) -> (out: String)
    ensures
        out@ == flag_text(*f),
{
    match f {
        MailFlag::Seen => copy_of("\\Seen"),
        MailFlag::Answered => copy_of("\\Answered"),
        MailFlag::Flagged => copy_of("\\Flagged"),
        MailFlag::Deleted => copy_of("\\Deleted"),
        MailFlag::Draft => copy_of("\\Draft"),
        MailFlag::Recent => copy_of("\\Recent"),
        MailFlag::MayCreate => copy_of("\\MayCreate"),
        MailFlag::Custom(c) => copy_of(c.as_str()),
    }
}

/// The reported flags of a message.
pub fn parse_flags(fetch: &Fetched) -> (out: Vec<String>)
    ensures
        texts(out@) == flag_texts(fetch.flags@),
{
    let ghost all = fetch.flags@;
    let ghost keep = |f: MailFlag| !(f is Recent);
    let mut out: Vec<String> = Vec::new();
    let mut i: usize = 0;
    proof {
        reveal_with_fuel(Seq::filter, 1);
        assert(texts(out@) =~= flag_texts(all.take(0)));
    }
    while i < fetch.flags.len()
        invariant
            i <= fetch.flags@.len(),
            all == fetch.flags@,
            keep == |f: MailFlag| !(f is Recent),
            texts(out@) == flag_texts(all.take(i as int)),
        decreases fetch.flags@.len() - i,
    {
        let ghost before = texts(out@);
        let ghost kept = all.take(i as int).filter(keep);
        proof {
            assert(all.take(i as int + 1).drop_last() =~= all.take(i as int));
            reveal_with_fuel(Seq::filter, 1);
        }
        let recent = match &fetch.flags[i] {
            MailFlag::Recent => true,
            _ => false,
        };
        if !recent {
            let t = flag_string(&fetch.flags[i]);
            proof {
                assert(keep(all[i as int]));
                assert(texts(out@.push(t)) =~= before.push(t@));
                assert(kept.push(all[i as int]).map_values(|f: MailFlag| flag_text(f))
                    =~= kept.map_values(|f: MailFlag| flag_text(f)).push(t@));
            }
            out.push(t);
        }
        i += 1;
    }
    proof {
        assert(all.take(all.len() as int) =~= all);
    }
    out
}

/// A message has a flag, or a keyword of the same name.
pub open spec fn carries(l: Seq<MailFlag>, flag: MailFlag, name: Seq<char>) -> bool {
    exists|i: int|
        0 <= i < l.len() && (#[trigger] l[i] == flag || (l[i] matches MailFlag::Custom(c) && c@
            == name))
}

proof fn lemma_flag_told(l: Seq<MailFlag>, t: Seq<char>)
    ensures
        flag_texts(l).contains(t) <==> exists|i: int|
            0 <= i < l.len() && !(#[trigger] l[i] is Recent) && flag_text(l[i]) == t,
    decreases l.len(),
{
    reveal_with_fuel(Seq::filter, 1);
    let keep = |f: MailFlag| !(f is Recent);
    let shown = |f: MailFlag| flag_text(f);
    if l.len() > 0 {
        let front = l.drop_last();
        let last = l.last();
        let head = flag_texts(front);
        let all = flag_texts(l);
        lemma_flag_told(front, t);
        if keep(last) {
            assert(front.filter(keep).push(last).map_values(shown) =~= head.push(flag_text(last)));
            assert(all =~= head.push(flag_text(last)));
        } else {
            assert(all =~= head);
        }
        if head.contains(t) {
            let p = choose|p: int| 0 <= p < head.len() && head[p] == t;
            assert(all[p] == t);
            let i = choose|i: int|
                0 <= i < front.len() && !(#[trigger] front[i] is Recent) && flag_text(front[i])
                    == t;
            assert(l[i] == front[i]);
        }
        if keep(last) && flag_text(last) == t {
            assert(all[head.len() as int] == t);
            assert(l[l.len() - 1] == last);
        }
        if all.contains(t) {
            let p = choose|p: int| 0 <= p < all.len() && all[p] == t;
            if p < head.len() {
                assert(head[p] == t);
            }
        }
        if exists|i: int| 0 <= i < l.len() && !(#[trigger] l[i] is Recent) && flag_text(l[i]) == t {
            let i = choose|i: int|
                0 <= i < l.len() && !(#[trigger] l[i] is Recent) && flag_text(l[i]) == t;
            if i < front.len() {
                assert(front[i] == l[i]);
            }
        }
    }
}

proof fn lemma_flag_names()
    ensures
        "\\Seen"@.len() == 5,
        "\\Draft"@.len() == 6,
        "\\Recent"@.len() == 7,
        "\\Flagged"@.len() == 8,
        "\\Deleted"@.len() == 8,
        "\\Answered"@.len() == 9,
        "\\MayCreate"@.len() == 10,
        "\\Flagged"@[1] == 'F',
        "\\Deleted"@[1] == 'D',
{
    reveal_strlit("\\Seen");
    reveal_strlit("\\Draft");
    reveal_strlit("\\Recent");
    reveal_strlit("\\Flagged");
    reveal_strlit("\\Deleted");
    reveal_strlit("\\Answered");
    reveal_strlit("\\MayCreate");
}

/// Each flag of a message is reported by its own name, and only where the
/// message has it or a keyword of that name; that a message is recent is not
/// reported.
pub proof fn flags_are_told_by_their_names(l: Seq<MailFlag>)
    ensures
        flag_texts(l).contains("\\Seen"@) <==> carries(l, MailFlag::Seen, "\\Seen"@),
        flag_texts(l).contains("\\Answered"@) <==> carries(l, MailFlag::Answered, "\\Answered"@),
        flag_texts(l).contains("\\Flagged"@) <==> carries(l, MailFlag::Flagged, "\\Flagged"@),
        flag_texts(l).contains("\\Deleted"@) <==> carries(l, MailFlag::Deleted, "\\Deleted"@),
        flag_texts(l).contains("\\Draft"@) <==> carries(l, MailFlag::Draft, "\\Draft"@),
        flag_texts(l).contains("\\Recent"@) <==> exists|i: int|
            0 <= i < l.len() && (#[trigger] l[i] matches MailFlag::Custom(c) && c@ == "\\Recent"@),
        forall|i: int|
            0 <= i < l.len() ==> (#[trigger] l[i] matches MailFlag::Custom(c) ==> flag_texts(
                l,
            ).contains(c@)),
{
    lemma_flag_names();
    lemma_flag_told(l, "\\Seen"@);
    lemma_flag_told(l, "\\Answered"@);
    lemma_flag_told(l, "\\Flagged"@);
    lemma_flag_told(l, "\\Deleted"@);
    lemma_flag_told(l, "\\Draft"@);
    lemma_flag_told(l, "\\Recent"@);
    assert forall|i: int| 0 <= i < l.len() implies (#[trigger] l[i] matches MailFlag::Custom(c)
        ==> flag_texts(l).contains(c@)) by {
        lemma_flag_told(l, flag_text(l[i]));
    }
}

/// The body that a message has, if it is there and not too large.
pub open spec fn usable_body(f: Fetched) -> Option<Seq<u8>> {
    match f.body {
        Some(b) => if b@.len() <= MAX_EMAIL_BYTES {
            Some(b@)
        } else {
            None
        },
        None => None,
    }
}

/// The body that a message has, if it is there and not too large.
pub fn bounded_body(fetch: &Fetched) -> (b: Option<&Vec<u8>>)
    ensures
        match b {
            Some(v) => usable_body(*fetch) == Some(v@),
            None => usable_body(*fetch) is None,
        },
{
    match &fetch.body {
        Some(b) => if b.len() <= MAX_EMAIL_BYTES {
            Some(b)
        } else {
            None
        },
        None => None,
    }
}

/// The message that the server sent, as it is reported.
pub open spec fn mail_in(f: Fetched, uid: u32, folder: Seq<char>, html: bool) -> EmailView {
    let raw = usable_body(f)->0;
    reported_email(
        uid,
        folder,
        if is_message(raw) {
            Some(parsed_mail(raw))
        } else {
            None
        },
        flag_texts(f.flags@),
        html,
    )
}

/// A row has the contents of a message, its body cut to a snippet; its folder's
/// readable name and its time of arrival aside.
pub open spec fn summarizes(s: EmailSummary, e: EmailView) -> bool {
    &&& s.uid == e.uid
    &&& s.folder@ == e.folder
    &&& opt_text(s.message_id) == e.message_id
    &&& opt_text(s.in_reply_to) == e.in_reply_to
    &&& texts(s.references@) == e.references
    &&& opt_address(s.from) == e.from
    &&& address_views(s.to@) == (if e.to.len() > SUMMARY_TO_PREVIEW {
        e.to.take(SUMMARY_TO_PREVIEW as int)
    } else {
        e.to
    })
    &&& s.to_count == e.to.len()
    &&& s.cc_count == e.cc.len()
    &&& s.subject@ == e.subject
    &&& opt_text(s.date) == e.date
    &&& opt_text(s.date_original) == e.date_original
    &&& texts(s.flags@) == e.flags
    &&& s.has_attachments == (e.attachments.len() > 0)
    &&& is_snippet(e.body_text, 200, s.snippet@)
    &&& s.thread_message_count is None
}

/// A message becomes a row: it has a number and a usable body, arrived in time,
/// and has the terms.
pub open spec fn is_listed(f: Fetched, folder: Seq<char>, post: PostFetchFilter) -> bool {
    &&& f.uid is Some
    &&& usable_body(f) is Some
    &&& post.in_time(f.internal_unix)
    &&& post.body.accepts(mail_in(f, f.uid->0, folder, false))
}

/// The time of arrival that a row shows: only where the listing is cut by it.
pub open spec fn shown_arrival(f: Fetched, post: PostFetchFilter) -> Option<Seq<char>> {
    if post.time_bounded() && f.internal_unix is Some {
        match utc_civil(f.internal_unix->0) {
            Some(c) => Some(utc_iso(c)),
            None => None,
        }
    } else {
        None
    }
}

/// A row stands for what the server sent.
pub open spec fn is_row(s: EmailSummary, f: Fetched, folder: Seq<char>, post: PostFetchFilter) -> bool {
    &&& summarizes(s, mail_in(f, f.uid->0, folder, false))
    &&& opt_text(s.folder_display) == display_name_of(folder)
    &&& opt_text(s.internal_date) == shown_arrival(f, post)
}

/// A row tells the message that it stands for: its number, folder and ids, its
/// sender and the first three of its recipients, how many recipients and copies it
/// has, its subject, dates and flags, and whether anything is attached.
pub proof fn rows_tell_their_message(
    s: EmailSummary,
    f: Fetched,
    folder: Seq<char>,
    post: PostFetchFilter,
)
    requires
        f.uid is Some,
        is_row(s, f, folder, post),
    ensures
        ({
            let e = mail_in(f, f.uid->0, folder, false);
            &&& Some(s.uid) == f.uid
            &&& s.folder@ == folder
            &&& texts(s.flags@) == flag_texts(f.flags@)
            &&& opt_text(s.message_id) == e.message_id
            &&& opt_text(s.in_reply_to) == e.in_reply_to
            &&& texts(s.references@) == e.references
            &&& s.from is Some <==> e.from is Some
            &&& s.from matches Some(a) ==> Some(a@) == e.from
            &&& s.to@.len() == (if e.to.len() > 3 {
                3
            } else {
                e.to.len()
            })
            &&& forall|i: int| 0 <= i < s.to@.len() ==> (#[trigger] s.to@[i])@ == e.to[i]
            &&& s.to_count == e.to.len()
            &&& s.cc_count == e.cc.len()
            &&& s.subject@ == e.subject
            &&& opt_text(s.date) == e.date
            &&& opt_text(s.date_original) == e.date_original
            &&& s.has_attachments <==> e.attachments.len() > 0
        }),
{
    let e = mail_in(f, f.uid->0, folder, false);
    let views = address_views(s.to@);
    assert(views.len() == s.to@.len());
    assert forall|i: int| 0 <= i < s.to@.len() implies (#[trigger] s.to@[i])@ == e.to[i] by {
        assert(views[i] == s.to@[i]@);
    }
}

/// Turns what the server sent into rows: one for each message that is listed, in
/// order.
pub fn summarize_fetches(fetches: &Vec<Fetched>, folder: &str, post_filter: &PostFetchFilter) -> (out:
    Vec<EmailSummary>)
    ensures
        ({
            let listed = fetches@.filter(|f: Fetched| is_listed(f, folder@, *post_filter));
            &&& out@.len() == listed.len()
            &&& forall|i: int|
                0 <= i < out@.len() ==> is_row(
                    #[trigger] out@[i],
                    listed[i],
                    folder@,
                    *post_filter,
                )
        }),
{
    let display = safe_display_name(folder);
    let ghost all = fetches@;
    let ghost keep = |f: Fetched| is_listed(f, folder@, *post_filter);
    let mut out: Vec<EmailSummary> = Vec::new();
    let mut k: usize = 0;
    proof {
        reveal_with_fuel(Seq::filter, 1);
        assert(all.take(0).filter(keep) =~= Seq::empty());
    }
    while k < fetches.len()
        invariant
            k <= fetches@.len(),
            all == fetches@,
            keep == |f: Fetched| is_listed(f, folder@, *post_filter),
            opt_text(display) == display_name_of(folder@),
            out@.len() == all.take(k as int).filter(keep).len(),
            forall|i: int|
                0 <= i < out@.len() ==> is_row(
                    #[trigger] out@[i],
                    all.take(k as int).filter(keep)[i],
                    folder@,
                    *post_filter,
                ),
        decreases fetches@.len() - k,
    {
        let fetch = &fetches[k];
        let ghost kept = all.take(k as int).filter(keep);
        proof {
            assert(all.take(k as int + 1).drop_last() =~= all.take(k as int));
            assert(all.take(k as int + 1).last() == *fetch);
            reveal_with_fuel(Seq::filter, 1);
        }
        k += 1;
        let uid: u32 = match fetch.uid {
            Some(u) => u,
            None => {
                assert(!keep(*fetch));
                continue;
            },
        };
        let body = match bounded_body(fetch) {
            Some(b) => b,
            None => {
                assert(!keep(*fetch));
                continue;
            },
        };
        if !post_filter.time_matches(fetch.internal_unix) {
            assert(!keep(*fetch));
            continue;
        }
        let flags = parse_flags(fetch);
        let full = parse_email_no_html(uid, folder, body.as_slice(), flags);
        assert(full@ == mail_in(*fetch, uid, folder@, false));
        if !post_filter.body.matches(&full) {
            assert(!keep(*fetch));
            continue;
        }
        assert(keep(*fetch));
        let mut summary = row_of(full);
        summary.folder_display = copy_opt(&display);
        if post_filter.has_time_bounds() {
            summary.internal_date = match fetch.internal_unix {
                Some(t) => unix_to_utc_iso(t),
                None => None,
            };
        }
        proof {
            assert(is_row(summary, *fetch, folder@, *post_filter));
            assert(all.take(k as int).filter(keep) == kept.push(*fetch));
        }
        out.push(summary);
    }
    proof {
        assert(all.take(all.len() as int) =~= all);
    }
    out
}

/// The row of a message, without a readable folder name or a time of arrival.
fn row_of(full: EmailFull) -> (s: EmailSummary)
    ensures
        summarizes(s, full@),
        s.folder_display is None,
        s.internal_date is None,
{
    let ghost view = full@;
    let ghost to = full.to@;
    let s = summarize(full, 200);
    proof {
        assert(view.to.len() == to.len());
        if to.len() > SUMMARY_TO_PREVIEW {
            assert(address_views(s.to@) =~= view.to.take(SUMMARY_TO_PREVIEW as int));
        }
        assert(view.cc.len() == full.cc@.len());
        assert(view.attachments.len() == full.attachments@.len());
    }
    s
}

/// A listing without filters has a row for every message with a number and a
/// usable body.
pub proof fn plain_listings_keep_everything(f: Fetched, folder: Seq<char>, post: PostFetchFilter)
    requires
        post.nothing(),
        f.uid is Some,
        usable_body(f) is Some,
    ensures
        is_listed(f, folder, post),
        shown_arrival(f, post) is None,
{
    let e = mail_in(f, f.uid->0, folder, false);
    assert(texts(post.body.all@).len() == 0);
    assert(post.body.accepts(e));
}

/// The messages among those that the server sent that have a number and a usable
/// body, whole.
pub open spec fn readable(l: Seq<Fetched>) -> Seq<Fetched> {
    l.filter(|f: Fetched| f.uid is Some && usable_body(f) is Some)
}

/// Reads the whole messages that the server sent, with their HTML, and appends
/// them to a list.
pub fn append_full_messages(out: &mut Vec<EmailFull>, fetches: &Vec<Fetched>, folder: &str)
    ensures
        final(out)@.len() == old(out)@.len() + readable(fetches@).len(),
        forall|i: int| 0 <= i < old(out)@.len() ==> #[trigger] final(out)@[i] == old(out)@[i],
        forall|i: int|
            0 <= i < readable(fetches@).len() ==> (#[trigger] final(out)@[old(out)@.len() + i])@
                == mail_in(readable(fetches@)[i], readable(fetches@)[i].uid->0, folder@, true),
{
    let ghost start = out@;
    let ghost all = fetches@;
    let ghost keep = |f: Fetched| f.uid is Some && usable_body(f) is Some;
    let mut k: usize = 0;
    proof {
        reveal_with_fuel(Seq::filter, 1);
        assert(all.take(0).filter(keep) =~= Seq::empty());
    }
    while k < fetches.len()
        invariant
            k <= fetches@.len(),
            all == fetches@,
            keep == |f: Fetched| f.uid is Some && usable_body(f) is Some,
            out@.len() == start.len() + readable(all.take(k as int)).len(),
            forall|i: int| 0 <= i < start.len() ==> #[trigger] out@[i] == start[i],
            forall|i: int|
                0 <= i < readable(all.take(k as int)).len() ==> (#[trigger] out@[start.len()
                    + i])@ == mail_in(
                    readable(all.take(k as int))[i],
                    readable(all.take(k as int))[i].uid->0,
                    folder@,
                    true,
                ),
        decreases fetches@.len() - k,
    {
        let fetch = &fetches[k];
        let ghost kept = readable(all.take(k as int));
        let ghost before = out@;
        proof {
            assert(all.take(k as int + 1).drop_last() =~= all.take(k as int));
            assert(all.take(k as int + 1).last() == *fetch);
            reveal_with_fuel(Seq::filter, 1);
        }
        k += 1;
        let uid: u32 = match fetch.uid {
            Some(u) => u,
            None => {
                assert(!keep(*fetch));
                continue;
            },
        };
        let body = match bounded_body(fetch) {
            Some(b) => b,
            None => {
                assert(!keep(*fetch));
                continue;
            },
        };
        let flags = parse_flags(fetch);
        let full = parse_email(uid, folder, body.as_slice(), flags);
        proof {
            assert(keep(*fetch));
            assert(readable(all.take(k as int)) == kept.push(*fetch));
            assert(full@ == mail_in(*fetch, uid, folder@, true));
        }
        out.push(full);
        proof {
            assert forall|i: int|
                0 <= i < kept.push(*fetch).len() implies (#[trigger] out@[start.len() + i])@
                == mail_in(
                kept.push(*fetch)[i],
                kept.push(*fetch)[i].uid->0,
                folder@,
                true,
            ) by {
                if i < kept.len() {
                    assert(out@[start.len() + i] == before[start.len() + i]);
                }
            }
        }
    }
    proof {
        assert(all.take(all.len() as int) =~= all);
    }
}

/// The whole message that a request for one is answered with.
pub fn single_message(fetches: &Vec<Fetched>, folder: &str, uid: u32) -> (r: Result<
    Option<EmailFull>,
    String,
>)
    ensures
        fetches@.len() == 0 ==> r matches Ok(None),
        fetches@.len() > 0 && usable_body(fetches@[0]) is Some ==> (r matches Ok(Some(e)) && e@
            == mail_in(fetches@[0], uid, folder@, true)),
        fetches@.len() > 0 && usable_body(fetches@[0]) is None ==> (r matches Err(text) && text@
            == "Email has no body (or exceeds size cap)"@),
{
    if fetches.len() == 0 {
        return Ok(None);
    }
    let fetch = &fetches[0];
    match bounded_body(fetch) {
        Some(body) => {
            let flags = parse_flags(fetch);
            Ok(Some(parse_email(uid, folder, body.as_slice(), flags)))
        },
        None => Err(copy_of("Email has no body (or exceeds size cap)")),
    }
}

// ---------------------------------------------------------------------------
// Order
// ---------------------------------------------------------------------------

/// The place of a message with a sequence number among messages in descending
/// order: behind all whose number is not smaller.
pub open spec fn place_of(l: Seq<(u32, Fetched)>, number: u32) -> int
    decreases l.len(),
{
    if l.len() == 0 || l.last().0 >= number {
        l.len() as int
    } else {
        place_of(l.drop_last(), number)
    }
}

/// Messages by descending sequence number. Of one number, the first that was
/// sent comes first.
pub open spec fn by_sequence(l: Seq<(u32, Fetched)>) -> Seq<(u32, Fetched)>
    decreases l.len(),
{
    if l.len() == 0 {
        Seq::empty()
    } else {
        let head = by_sequence(l.drop_last());
        head.insert(place_of(head, l.last().0), l.last())
    }
}

proof fn lemma_place(l: Seq<(u32, Fetched)>, number: u32)
    ensures
        0 <= place_of(l, number) <= l.len(),
        place_of(l, number) > 0 ==> l[place_of(l, number) - 1].0 >= number,
        forall|i: int| place_of(l, number) <= i < l.len() ==> (#[trigger] l[i]).0 < number,
    decreases l.len(),
{
    if l.len() > 0 && l.last().0 < number {
        lemma_place(l.drop_last(), number);
        assert forall|i: int| place_of(l, number) <= i < l.len() implies (#[trigger] l[i]).0
            < number by {
            if i < l.len() - 1 {
                assert(l.drop_last()[i] == l[i]);
            }
        }
    }
}

/// Puts the messages of a page, each with its sequence number, into the order in
/// which they are reported: the newest first, since a server may send them in any
/// order.
pub fn newest_in_sequence(l: Vec<(u32, Fetched)>) -> (out: Vec<Fetched>)
    ensures
        out@ == by_sequence(l@).map_values(|p: (u32, Fetched)| p.1),
{
    let ghost all = l@;
    let ghost pick = |p: (u32, Fetched)| p.1;
    let ghost mut ordered: Seq<(u32, Fetched)> = Seq::empty();
    let mut numbers: Vec<u32> = Vec::new();
    let mut out: Vec<Fetched> = Vec::new();
    let ghost mut done: int = 0;
    proof {
        assert(by_sequence(all.take(0)) =~= Seq::<(u32, Fetched)>::empty());
        assert(out@ =~= ordered.map_values(pick));
    }
    for p in iter: l
        invariant
            done == iter.index(),
            iter.seq() == all,
            pick == |p: (u32, Fetched)| p.1,
            0 <= done <= all.len(),
            ordered == by_sequence(all.take(done)),
            numbers@.len() == ordered.len(),
            forall|i: int| 0 <= i < ordered.len() ==> numbers@[i] == (#[trigger] ordered[i]).0,
            out@ == ordered.map_values(pick),
    {
        let (number, fetched) = p;
        let mut k: usize = numbers.len();
        proof {
            assert(ordered.take(ordered.len() as int) =~= ordered);
        }
        while k > 0 && numbers[k - 1] < number
            invariant
                k <= numbers@.len() == ordered.len(),
                forall|i: int| 0 <= i < ordered.len() ==> numbers@[i] == (#[trigger] ordered[i]).0,
                place_of(ordered, number) == place_of(ordered.take(k as int), number),
            decreases k,
        {
            proof {
                assert(ordered.take(k as int).drop_last() =~= ordered.take(k - 1));
                assert(ordered.take(k as int).last() == ordered[k - 1]);
            }
            k -= 1;
        }
        proof {
            if k > 0 {
                assert(ordered.take(k as int).last() == ordered[k - 1]);
            }
            assert(place_of(ordered, number) == k);
            assert(all.take(done + 1).drop_last() =~= all.take(done));
            assert(all.take(done + 1).last() == (number, fetched));
        }
        let ghost next = ordered.insert(k as int, (number, fetched));
        numbers.insert(k, number);
        out.insert(k, fetched);
        proof {
            assert(out@ =~= next.map_values(pick));
            ordered = next;
            done = done + 1;
        }
    }
    proof {
        assert(all.take(all.len() as int) =~= all);
    }
    out
}

/// A page comes newest first, and holds what the server sent.
pub proof fn pages_come_newest_first(l: Seq<(u32, Fetched)>)
    ensures
        by_sequence(l).len() == l.len(),
        by_sequence(l).to_multiset() == l.to_multiset(),
        forall|i: int, j: int|
            0 <= i < j < l.len() ==> (#[trigger] by_sequence(l)[i]).0 >= (
            #[trigger] by_sequence(l)[j]).0,
    decreases l.len(),
{
    if l.len() > 0 {
        let head = by_sequence(l.drop_last());
        let x = l.last();
        pages_come_newest_first(l.drop_last());
        lemma_place(head, x.0);
        let k = place_of(head, x.0);
        let all = by_sequence(l);
        assert forall|i: int, j: int| 0 <= i < j < l.len() implies (#[trigger] all[i]).0 >= (
        #[trigger] all[j]).0 by {
            if i < k {
                assert(all[i] == head[i]);
                assert(head[i].0 >= head[k - 1].0);
            }
            if j > k {
                assert(all[j] == head[j - 1]);
            }
            if i > k {
                assert(all[i] == head[i - 1]);
            }
            if j < k {
                assert(all[j] == head[j]);
            }
        }
        assert(l =~= l.drop_last().push(x));
        to_multiset_build(l.drop_last(), x);
        to_multiset_insert(head, k, x);
    } else {
        assert(by_sequence(l) =~= l);
    }
}

} // verus!
