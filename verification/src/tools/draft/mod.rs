//! Drafts: replies, forwarded messages and new messages.
//!
//! Each is made in the same steps. The request and the account are checked; for
//! a reply or a forwarded message the original is fetched; files are collected;
//! the message is composed and written; the server appends it to the drafts;
//! and the answer reports what was saved. The functions here are the steps that
//! decide and compute. The program around the library fetches, reads and saves
//! between them.

pub mod attachments;
pub mod compose;
pub mod dates;
pub mod markers;
pub mod message;
pub mod quotes;
pub mod render;
pub mod saving;
pub mod signature;

use vstd::prelude::*;

use crate::email::EmailFull;
use crate::email::sanitize_external_str;
use crate::email::sanitized;
use crate::json::Json;
use crate::json::JsonView;
use crate::json::Members;
use crate::json::json_numbers;
use crate::json::json_str;
use crate::json::json_strings;
use crate::json::json_text;
use crate::json::numbers_view;
use crate::json::opt_member;
use crate::json::strings_view;
use crate::json::with_member;
use crate::text::append_range;
use crate::text::byte_len;
use crate::text::byte_len_of;
use crate::text::chars_of;
use crate::text::copy_of;
use crate::text::decimal;
use crate::text::decimal_string;
use crate::text::lemma_byte_len_push;
use crate::text::opt_str;
use crate::text::opt_text;
use crate::text::texts;
use crate::text::width_of;
use crate::tools::draft::attachments::AttachmentSpec;
use crate::tools::draft::compose::Composed;
use crate::tools::draft::compose::DraftAccount;
use crate::tools::draft::compose::addresses;
use crate::tools::draft::compose::addresses_only;
use crate::tools::draft::compose::build_reply_recipients;
use crate::tools::draft::compose::has_sender;
use crate::tools::draft::compose::reply_cc_list;
use crate::tools::draft::compose::reply_subject;
use crate::tools::draft::compose::reply_to_list;
use crate::tools::draft::compose::subject_of_reply;
use crate::tools::draft::message::Recipient;
use crate::tools::draft::message::held;
use crate::tools::draft::message::is_form_of;
use crate::tools::draft::message::recipient_views;
use crate::tools::draft::message::write_message;

verus! {

// ---------------------------------------------------------------------------
// Requests
// ---------------------------------------------------------------------------

/// A request for a reply.
pub struct DraftReplyRequest {
    /// The account; the first one where it is absent.
    pub account: Option<String>,
    /// The folder of the message to reply to.
    pub folder: String,
    /// The message to reply to.
    pub uid: u32,
    /// The text of the reply.
    pub body: String,
    /// The reply goes to all recipients.
    pub reply_all: Option<bool>,
    /// Further addresses that the reply is copied to.
    pub cc: Option<Vec<String>>,
    pub attachments: Option<Vec<AttachmentSpec>>,
    /// The draft that this one replaces.
    pub replaces_uid: Option<u32>,
}

/// A request for a forwarded message.
pub struct DraftForwardRequest {
    /// The account; the first one where it is absent.
    pub account: Option<String>,
    /// The folder of the message to forward.
    pub folder: String,
    /// The message to forward.
    pub uid: u32,
    pub to: Vec<String>,
    /// A text above the forwarded message.
    pub body: Option<String>,
    pub cc: Option<Vec<String>>,
    pub attachments: Option<Vec<AttachmentSpec>>,
    /// The draft that this one replaces.
    pub replaces_uid: Option<u32>,
}

/// A request for a new message.
pub struct DraftEmailRequest {
    /// The account; the first one where it is absent.
    pub account: Option<String>,
    pub to: Vec<String>,
    pub subject: String,
    pub body: String,
    pub cc: Option<Vec<String>>,
    pub bcc: Option<Vec<String>>,
    pub attachments: Option<Vec<AttachmentSpec>>,
    /// The draft that this one replaces.
    pub replaces_uid: Option<u32>,
}

/// A request to delete drafts.
pub struct DeleteDraftRequest {
    /// The account; the first one where it is absent.
    pub account: Option<String>,
    pub uids: Vec<u32>,
}

// ---------------------------------------------------------------------------
// Checks
// ---------------------------------------------------------------------------

/// The largest body that a draft takes, in bytes.
pub const MAX_BODY_BYTES: usize = 10_485_760;

/// The most drafts that one request deletes.
pub const MAX_DRAFT_UIDS_PER_CALL: usize = 25;

/// The three kinds of drafts.
#[derive(Clone, Copy, Debug, PartialEq, Eq, Structural)]
pub enum DraftKind {
    Reply,
    Forward,
    Fresh,
}

/// Why a draft is refused before anything is fetched, where it is.
pub open spec fn draft_refusal(kind: DraftKind, read_only: bool, body: Option<Seq<char>>) -> Option<
    Seq<char>,
> {
    if read_only {
        Some("Account is configured as read-only"@)
    } else if body matches Some(b) && byte_len(b) > MAX_BODY_BYTES {
        Some(
            (match kind {
                DraftKind::Reply => "Reply"@,
                DraftKind::Forward => "Forward"@,
                DraftKind::Fresh => "Draft"@,
            }) + " body exceeds 10485760-byte cap"@,
        )
    } else {
        None
    }
}

/// Checks a draft before anything is fetched.
pub fn check_draft(kind: DraftKind, read_only: bool, body: Option<&str>) -> (r: Result<(), String>)
    ensures
        match draft_refusal(kind, read_only, opt_str(body)) {
            Some(text) => r is Err && r->Err_0@ == text,
            None => r is Ok,
        },
{
    if read_only {
        return Err(copy_of("Account is configured as read-only"));
    }
    if let Some(b) = body {
        if byte_len_of(b) > MAX_BODY_BYTES {
            let mut text = match kind {
                DraftKind::Reply => copy_of("Reply"),
                DraftKind::Forward => copy_of("Forward"),
                DraftKind::Fresh => copy_of("Draft"),
            };
            text.append(" body exceeds 10485760-byte cap");
            return Err(text);
        }
    }
    Ok(())
}

/// What a message without recipients is answered.
pub open spec fn no_recipients() -> Seq<char> {
    "At least one recipient is required"@
}

/// Checks the recipients that a message is to have: nobody is chosen on the
/// sender's behalf.
pub fn check_recipients(to: &Vec<String>) -> (r: Result<(), String>)
    ensures
        r is Err <==> to@.len() == 0,
        r matches Err(text) ==> text@ == no_recipients(),
{
    if to.len() == 0 {
        return Err(copy_of("At least one recipient is required"));
    }
    Ok(())
}

/// Why a forwarded or a new message is refused before anything is fetched, where
/// it is.
pub open spec fn addressed_refusal(
    kind: DraftKind,
    read_only: bool,
    body: Option<Seq<char>>,
    to: Seq<Seq<char>>,
) -> Option<Seq<char>> {
    match draft_refusal(kind, read_only, body) {
        Some(text) => Some(text),
        None => if to.len() == 0 {
            Some(no_recipients())
        } else {
            None
        },
    }
}

/// A draft is refused before anything is fetched exactly where the account is
/// read-only, its body is too large, or it goes to nobody though it is no reply; and
/// a read-only account is told as such, whatever else is wrong.
pub proof fn drafts_are_refused_for_a_reason(
    kind: DraftKind,
    read_only: bool,
    body: Option<Seq<char>>,
    to: Seq<Seq<char>>,
)
    ensures
        draft_refusal(kind, read_only, body) is Some <==> read_only || (body matches Some(b)
            && byte_len(b) > 10_485_760),
        addressed_refusal(kind, read_only, body, to) is Some <==> read_only || (body matches Some(b)
            && byte_len(b) > 10_485_760) || to.len() == 0,
        read_only ==> draft_refusal(kind, read_only, body) == Some(
            "Account is configured as read-only"@,
        ) && addressed_refusal(kind, read_only, body, to) == draft_refusal(kind, read_only, body),
{
}

/// Checks a request for a forwarded message before anything is fetched.
pub fn check_forward(read_only: bool, req: &DraftForwardRequest) -> (r: Result<(), String>)
    ensures
        match addressed_refusal(DraftKind::Forward, read_only, opt_text(req.body), texts(req.to@)) {
            Some(text) => r is Err && r->Err_0@ == text,
            None => r is Ok,
        },
{
    let body: Option<&str> = match &req.body {
        Some(b) => Some(b.as_str()),
        None => None,
    };
    match check_draft(DraftKind::Forward, read_only, body) {
        Ok(()) => check_recipients(&req.to),
        Err(text) => Err(text),
    }
}

/// Checks a request for a new message before anything is read.
pub fn check_email(read_only: bool, req: &DraftEmailRequest) -> (r: Result<(), String>)
    ensures
        match addressed_refusal(DraftKind::Fresh, read_only, Some(req.body@), texts(req.to@)) {
            Some(text) => r is Err && r->Err_0@ == text,
            None => r is Ok,
        },
{
    match check_draft(DraftKind::Fresh, read_only, Some(req.body.as_str())) {
        Ok(()) => check_recipients(&req.to),
        Err(text) => Err(text),
    }
}

/// Checks a request to delete drafts before its account is looked up: drafts
/// are expunged and cannot be recovered, so that few go at a time.
pub fn check_draft_deletion(uids: &Vec<u32>) -> (r: Result<(), String>)
    ensures
        r is Ok <==> uids@.len() <= MAX_DRAFT_UIDS_PER_CALL,
        r matches Err(text) ==> text@
            == "uids list exceeds 25-item cap for draft deletion — delete in smaller batches (drafts are expunged, not moved to Trash)"@,
{
    if uids.len() > MAX_DRAFT_UIDS_PER_CALL {
        return Err(
            copy_of(
                "uids list exceeds 25-item cap for draft deletion — delete in smaller batches (drafts are expunged, not moved to Trash)",
            ),
        );
    }
    Ok(())
}

/// What a request for a message that is not there is answered.
pub fn email_not_found_text(uid: u32, folder: &str) -> (out: String)
    ensures
        out@ == "Email "@ + decimal(uid as nat) + " not found in "@ + sanitized(folder@),
{
    let mut text = copy_of("Email ");
    let n = decimal_string(uid as u64);
    text.append(n.as_str());
    text.append(" not found in ");
    let clean = sanitize_external_str(folder);
    text.append(clean.as_str());
    text
}

/// What a draft that could not be saved is answered.
pub fn save_failed_text(reason: &str) -> (out: String)
    ensures
        out@ == "Failed to save draft: "@ + reason@,
{
    let mut text = copy_of("Failed to save draft: ");
    text.append(reason);
    text
}

// ---------------------------------------------------------------------------
// Planning and writing
// ---------------------------------------------------------------------------

/// Whom a reply goes to, and under which subject.
pub struct ReplyPlan {
    pub to: Vec<Recipient>,
    pub cc: Vec<Recipient>,
    pub subject: String,
}

/// The addresses of a list that may be absent.
pub open spec fn listed(l: Option<Vec<String>>) -> Seq<Seq<char>> {
    match l {
        Some(v) => texts(v@),
        None => Seq::empty(),
    }
}

/// Plans a reply to a message that was fetched.
pub fn plan_reply(
    original: &EmailFull,
    account: &DraftAccount,
    reply_all: Option<bool>,
    cc: &Option<Vec<String>>,
) -> (r: Result<ReplyPlan, String>)
    ensures
        match r {
            Ok(p) => has_sender(original@) && recipient_views(p.to@) == reply_to_list(
                original@,
                reply_all == Some(true),
                account.from@,
            ) && recipient_views(p.cc@) == reply_cc_list(
                original@,
                reply_all == Some(true),
                account.from@,
                listed(*cc),
            ) && p.subject@ == reply_subject(original@.subject, account.locale),
            Err(text) => !has_sender(original@) && text@
                == "Cannot reply: original email has no sender address"@,
        },
{
    let all = match reply_all {
        Some(b) => b,
        None => false,
    };
    let extra: Option<&[String]> = match cc {
        Some(v) => Some(v.as_slice()),
        None => None,
    };
    match build_reply_recipients(original, all, account.from.as_str(), extra) {
        Ok((to, cc)) => {
            let subject = subject_of_reply(original.subject.as_str(), account.locale);
            Ok(ReplyPlan { to, cc, subject })
        },
        Err(text) => Err(copy_of(text)),
    }
}

/// Writes a message that was composed.
pub fn write_draft(composed: Composed) -> (r: Result<Vec<u8>, String>)
    ensures
        r matches Ok(bytes) && is_form_of(bytes@, held(composed.message)),
{
    match write_message(composed.message) {
        Ok(bytes) => Ok(bytes),
        Err(reason) => {
            let mut text = copy_of("Failed to build MIME message: ");
            text.append(reason.as_str());
            Err(text)
        },
    }
}

// ---------------------------------------------------------------------------
// Answers
// ---------------------------------------------------------------------------

/// `k` is the number of characters in the longest beginning of a text that has
/// at most `max` bytes.
pub open spec fn longest_within(s: Seq<char>, max: nat, k: int) -> bool {
    &&& 0 <= k <= s.len()
    &&& byte_len(s.take(k)) <= max
    &&& k < s.len() ==> byte_len(s.take(k + 1)) > max
}

/// A text cut to a number of bytes, with three dots where something is cut off.
pub open spec fn is_truncated(s: Seq<char>, max: nat, out: Seq<char>) -> bool {
    if byte_len(s) <= max {
        out == s
    } else {
        exists|k: int| #[trigger] longest_within(s, max, k) && out == s.take(k) + "..."@
    }
}

proof fn lemma_byte_len_mono(s: Seq<char>, a: int, b: int)
    requires
        0 <= a <= b <= s.len(),
    ensures
        byte_len(s.take(a)) <= byte_len(s.take(b)),
    decreases b - a,
{
    if a < b {
        lemma_byte_len_mono(s, a, b - 1);
        assert(s.take(b) =~= s.take(b - 1).push(s[b - 1]));
        lemma_byte_len_push(s.take(b - 1), s[b - 1]);
    }
}

/// The length in [`longest_within`] is unique, so that a text is cut in one way
/// only.
pub proof fn truncation_is_unique(s: Seq<char>, max: nat, a: Seq<char>, b: Seq<char>)
    requires
        is_truncated(s, max, a),
        is_truncated(s, max, b),
    ensures
        a == b,
{
    if byte_len(s) > max {
        let i = choose|k: int| #[trigger] longest_within(s, max, k) && a == s.take(k) + "..."@;
        let j = choose|k: int| #[trigger] longest_within(s, max, k) && b == s.take(k) + "..."@;
        if i < j {
            lemma_byte_len_mono(s, i + 1, j);
        }
        if j < i {
            lemma_byte_len_mono(s, j + 1, i);
        }
    }
}

/// Cuts a text to a number of bytes, between characters.
pub fn truncate(s: &str, max_len: usize) -> (out: String)
    ensures
        is_truncated(s@, max_len as nat, out@),
{
    if byte_len_of(s) <= max_len {
        return copy_of(s);
    }
    let cs = chars_of(s);
    let n: usize = cs.len();
    let mut k: usize = 0;
    let mut used: usize = 0;
    proof {
        assert(s@.take(0) =~= Seq::<char>::empty());
        assert(byte_len(s@.take(0)) == 0);
    }
    while k < n
        invariant_except_break
            byte_len(s@) > max_len,
        invariant
            cs@ == s@,
            n == cs@.len(),
            k <= n,
            used == byte_len(s@.take(k as int)),
            used <= max_len,
        ensures
            longest_within(s@, max_len as nat, k as int),
        decreases n - k,
    {
        let w: usize = width_of(cs[k]);
        proof {
            assert(s@.take(k as int + 1) =~= s@.take(k as int).push(s@[k as int]));
            lemma_byte_len_push(s@.take(k as int), s@[k as int]);
        }
        if w > max_len - used {
            break;
        }
        used += w;
        k += 1;
        proof {
            if k == n {
                assert(s@.take(n as int) =~= s@);
            }
        }
    }
    let mut out = String::new();
    append_range(&mut out, &cs, 0, k);
    out.append("...");
    proof {
        assert(out@ =~= s@.take(k as int) + "..."@);
    }
    out
}

/// The members that the answers of all drafts begin with.
pub open spec fn draft_answer(
    account: DraftAccount,
    lists: Seq<(Seq<char>, JsonView)>,
    subject: Seq<char>,
    preview: Seq<char>,
    notice: Option<Seq<char>>,
) -> Seq<(Seq<char>, JsonView)> {
    seq![
        ("status"@, JsonView::Str("ok"@)),
        ("account"@, JsonView::Str(account.name@)),
        ("from"@, JsonView::Str(account.from@)),
    ] + lists + seq![
        ("subject"@, JsonView::Str(subject)),
        ("body_preview"@, JsonView::Str(preview)),
    ] + opt_member("inline_warning"@, notice)
}

/// The lists of addresses in an answer.
pub open spec fn address_lists(to: Seq<Seq<char>>, cc: Seq<Seq<char>>) -> Seq<
    (Seq<char>, JsonView),
> {
    seq![("to"@, strings_view(to)), ("cc"@, strings_view(cc))]
}

fn open_answer(account: &DraftAccount) -> (m: Members)
    ensures
        m@ == seq![
            ("status"@, JsonView::Str("ok"@)),
            ("account"@, JsonView::Str(account.name@)),
            ("from"@, JsonView::Str(account.from@)),
        ],
{
    let mut m = Members::new();
    m.put_str("status", "ok");
    m.put_str("account", account.name.as_str());
    m.put_str("from", account.from.as_str());
    proof {
        assert(m@ =~= seq![
            ("status"@, JsonView::Str("ok"@)),
            ("account"@, JsonView::Str(account.name@)),
            ("from"@, JsonView::Str(account.from@)),
        ]);
    }
    m
}

/// What a reply into no thread is answered beside.
pub open spec fn threading_notice() -> Seq<char> {
    "Original email has no Message-ID. Reply was created without threading headers (In-Reply-To/References) — it may not appear in the same thread in the recipient's mail client."@
}

/// Reports a reply that was saved.
pub fn reply_answer(
    account: &DraftAccount,
    plan: &ReplyPlan,
    plain: &str,
    threaded: bool,
    notice: &Option<String>,
) -> (j: Json)
    ensures
        exists|preview: Seq<char>| #[trigger]
            is_truncated(plain@, 500, preview) && j@ == JsonView::Obj(
                if threaded {
                    draft_answer(
                        *account,
                        address_lists(
                            addresses(recipient_views(plan.to@)),
                            addresses(recipient_views(plan.cc@)),
                        ),
                        plan.subject@,
                        preview,
                        opt_text(*notice),
                    )
                } else {
                    draft_answer(
                        *account,
                        address_lists(
                            addresses(recipient_views(plan.to@)),
                            addresses(recipient_views(plan.cc@)),
                        ),
                        plan.subject@,
                        preview,
                        opt_text(*notice),
                    ).push(("threading_warning"@, JsonView::Str(threading_notice())))
                },
            ),
{
    let to = addresses_only(&plan.to);
    let cc = addresses_only(&plan.cc);
    let preview = truncate(plain, 500);
    let mut m = open_answer(account);
    m.put("to", json_strings(&to));
    m.put("cc", json_strings(&cc));
    m.put_str("subject", plan.subject.as_str());
    m.put_str("body_preview", preview.as_str());
    m.put_opt_str("inline_warning", notice);
    proof {
        assert(m@ =~= draft_answer(
            *account,
            address_lists(
                addresses(recipient_views(plan.to@)),
                addresses(recipient_views(plan.cc@)),
            ),
            plan.subject@,
            preview@,
            opt_text(*notice),
        ));
    }
    if !threaded {
        m.put_str(
            "threading_warning",
            "Original email has no Message-ID. Reply was created without threading headers (In-Reply-To/References) — it may not appear in the same thread in the recipient's mail client.",
        );
    }
    m.done()
}

fn list_or_empty(l: &Option<Vec<String>>) -> (j: Json)
    ensures
        j@ == strings_view(listed(*l)),
{
    match l {
        Some(v) => json_strings(v),
        None => {
            let none: Vec<String> = Vec::new();
            proof {
                assert(texts(none@) =~= Seq::<Seq<char>>::empty());
            }
            json_strings(&none)
        },
    }
}

/// Reports a forwarded message that was saved.
pub fn forward_answer(
    account: &DraftAccount,
    to: &Vec<String>,
    cc: &Option<Vec<String>>,
    subject: &str,
    plain: &str,
    notice: &Option<String>,
) -> (j: Json)
    ensures
        exists|preview: Seq<char>| #[trigger]
            is_truncated(plain@, 500, preview) && j@ == JsonView::Obj(
                draft_answer(
                    *account,
                    address_lists(texts(to@), listed(*cc)),
                    subject@,
                    preview,
                    opt_text(*notice),
                ),
            ),
{
    let preview = truncate(plain, 500);
    let mut m = open_answer(account);
    m.put("to", json_strings(to));
    m.put("cc", list_or_empty(cc));
    m.put_str("subject", subject);
    m.put_str("body_preview", preview.as_str());
    m.put_opt_str("inline_warning", notice);
    proof {
        assert(m@ =~= draft_answer(
            *account,
            address_lists(texts(to@), listed(*cc)),
            subject@,
            preview@,
            opt_text(*notice),
        ));
    }
    m.done()
}

/// Reports a new message that was saved.
pub fn email_answer(
    account: &DraftAccount,
    req: &DraftEmailRequest,
    plain: &str,
    notice: &Option<String>,
) -> (j: Json)
    ensures
        exists|preview: Seq<char>| #[trigger]
            is_truncated(plain@, 500, preview) && j@ == JsonView::Obj(
                draft_answer(
                    *account,
                    address_lists(texts(req.to@), listed(req.cc)).push(
                        ("bcc"@, strings_view(listed(req.bcc))),
                    ),
                    req.subject@,
                    preview,
                    opt_text(*notice),
                ),
            ),
{
    let preview = truncate(plain, 500);
    let mut m = open_answer(account);
    m.put("to", json_strings(&req.to));
    m.put("cc", list_or_empty(&req.cc));
    m.put("bcc", list_or_empty(&req.bcc));
    m.put_str("subject", req.subject.as_str());
    m.put_str("body_preview", preview.as_str());
    m.put_opt_str("inline_warning", notice);
    proof {
        assert(m@ =~= draft_answer(
            *account,
            address_lists(texts(req.to@), listed(req.cc)).push(
                ("bcc"@, strings_view(listed(req.bcc))),
            ),
            req.subject@,
            preview@,
            opt_text(*notice),
        ));
    }
    m.done()
}

/// What became of the draft that a new one replaces.
pub open spec fn replacement_member(uid: u32, outcome: Result<Seq<u32>, Seq<char>>) -> (
    Seq<char>,
    JsonView,
) {
    match outcome {
        Ok(gone) => if gone.contains(uid) {
            ("replaced_uid"@, JsonView::Num(uid as nat))
        } else {
            (
                "replace_warning"@,
                JsonView::Str(
                    "New draft saved, but draft "@ + decimal(uid as nat)
                        + " was not deleted (already gone or unknown UID) — check list_drafts for leftovers"@,
                ),
            )
        },
        Err(msg) => (
            "replace_warning"@,
            JsonView::Str(
                "New draft saved, but deleting draft "@ + decimal(uid as nat) + " failed: "@ + msg
                    + " — the old version is still in the Drafts folder"@,
            ),
        ),
    }
}

/// The value of what became of a draft.
pub open spec fn outcome_view(outcome: Result<&[u32], &String>) -> Result<Seq<u32>, Seq<char>> {
    match outcome {
        Ok(gone) => Ok(gone@),
        Err(msg) => Err(msg@),
    }
}

fn contains_uid(l: &[u32], uid: u32) -> (yes: bool)
    ensures
        yes == l@.contains(uid),
{
    let mut i: usize = 0;
    while i < l.len()
        invariant
            i <= l@.len(),
            forall|j: int| 0 <= j < i ==> l@[j] != uid,
        decreases l@.len() - i,
    {
        if l[i] == uid {
            assert(l@[i as int] == uid);
            return true;
        }
        i += 1;
    }
    false
}

/// Records in an answer what became of the draft that the new one replaces:
/// removed, silently absent, or refused.
pub fn note_replacement(response: &mut Json, replaces_uid: u32, outcome: Result<&[u32], &String>)
    ensures
        final(response)@ == match old(response)@ {
            JsonView::Obj(m) => JsonView::Obj(
                with_member(
                    m,
                    replacement_member(replaces_uid, outcome_view(outcome)).0,
                    replacement_member(replaces_uid, outcome_view(outcome)).1,
                ),
            ),
            other => other,
        },
{
    let digits = decimal_string(replaces_uid as u64);
    match outcome {
        Ok(gone) => {
            if contains_uid(gone, replaces_uid) {
                response.set("replaced_uid", Json::Num(replaces_uid as u64));
            } else {
                let mut text = copy_of("New draft saved, but draft ");
                text.append(digits.as_str());
                text.append(
                    " was not deleted (already gone or unknown UID) — check list_drafts for leftovers",
                );
                response.set("replace_warning", json_str(text.as_str()));
            }
        },
        Err(msg) => {
            let mut text = copy_of("New draft saved, but deleting draft ");
            text.append(digits.as_str());
            text.append(" failed: ");
            text.append(msg.as_str());
            text.append(" — the old version is still in the Drafts folder");
            response.set("replace_warning", json_str(text.as_str()));
        },
    }
}

/// An answer with the number of the new draft, where it is known, and with what
/// became of the one it replaces, where it replaces one.
pub open spec fn finished(
    m: Seq<(Seq<char>, JsonView)>,
    uid: Option<u32>,
    replaced: Option<(u32, Result<Seq<u32>, Seq<char>>)>,
) -> Seq<(Seq<char>, JsonView)> {
    let m = match uid {
        Some(u) => with_member(m, "uid"@, JsonView::Num(u as nat)),
        None => m,
    };
    match replaced {
        Some((u, outcome)) => with_member(
            m,
            replacement_member(u, outcome).0,
            replacement_member(u, outcome).1,
        ),
        None => m,
    }
}

/// The value of what became of a replaced draft.
pub open spec fn replaced_view(r: Option<(u32, Result<Vec<u32>, String>)>) -> Option<
    (u32, Result<Seq<u32>, Seq<char>>),
> {
    match r {
        Some((u, Ok(gone))) => Some((u, Ok(gone@))),
        Some((u, Err(msg))) => Some((u, Err(msg@))),
        None => None,
    }
}

/// Finishes the answer of a draft that was saved.
pub fn finish_draft(
    response: Json,
    uid: Option<u32>,
    replaced: &Option<(u32, Result<Vec<u32>, String>)>,
) -> (out: String)
    ensures
        out@ == json_text(
            match response@ {
                JsonView::Obj(m) => JsonView::Obj(finished(m, uid, replaced_view(*replaced))),
                other => other,
            },
        ),
{
    let mut answer = response;
    if let Some(u) = uid {
        answer.set("uid", Json::Num(u as u64));
    }
    if let Some((u, outcome)) = replaced {
        match outcome {
            Ok(gone) => {
                note_replacement(&mut answer, *u, Ok(gone.as_slice()));
            },
            Err(msg) => {
                note_replacement(&mut answer, *u, Err(msg));
            },
        }
    }
    answer.to_text()
}

/// Reports which drafts were deleted.
pub fn deletion_answer(account: &str, succeeded: &Vec<u32>) -> (out: String)
    ensures
        out@ == json_text(
            JsonView::Obj(
                seq![
                    ("account"@, JsonView::Str(account@)),
                    ("succeeded"@, numbers_view(succeeded@)),
                ],
            ),
        ),
{
    let mut m = Members::new();
    m.put_str("account", account);
    m.put("succeeded", json_numbers(succeeded.as_slice()));
    proof {
        assert(m@ =~= seq![
            ("account"@, JsonView::Str(account@)),
            ("succeeded"@, numbers_view(succeeded@)),
        ]);
    }
    m.done().to_text()
}

} // verus!
