//! What the answers of the tools tell: each thing under its own name.

use vstd::prelude::*;

use super::account_json;
use super::accounts_answer;
use super::download::saved_answer;
use super::download::PickedAttachment;
use super::draft::address_lists;
use super::draft::compose::DraftAccount;
use super::draft::draft_answer;
use super::draft::finished;
use super::draft::replacement_member;
use super::error_view;
use super::read::are_summaries;
use super::read::diverging_uids;
use super::read::drafts_answer;
use super::read::emails_answer;
use super::read::folder_json;
use super::read::folder_wanted;
use super::read::folders_answer;
use super::read::folders_wanted;
use super::read::grouped_rows;
use super::read::is_capped;
use super::read::is_messages_json;
use super::read::message_answer;
use super::read::message_limit;
use super::read::newest_messages;
use super::read::row_limit;
use super::read::rows_json;
use super::read::shown_message;
use super::read::thread_answer;
use super::read::with_notices;
use super::read::GetThreadRequest;
use super::read::ListDraftsRequest;
use super::read::ListEmailsRequest;
use super::read::DIVERGENCE_NOTICE;
use super::read::UNTRUSTED_BODY_NOTICE;
use super::search::search_answer;
use super::search::SearchPayload;
use super::write::changed_answer;
use super::write::delete_preview;
use super::write::move_preview;
use super::write::write_refusal;
use super::write::DeleteEmailRequest;
use super::write::MoveEmailRequest;
use super::write::WriteKind;
use crate::config::AccountConfig;
use crate::email::address_views;
use crate::email::opt_address;
use crate::email::EmailFull;
use crate::email::EmailSummary;
use crate::imap_client::fetch::summarizes;
use crate::imap_client::folders::FolderInfo;
use crate::imap_client::util::retryable_error;
use crate::imap_client::util::server_message;
use crate::json::items_under;
use crate::json::lemma_numbers_read;
use crate::json::member_if;
use crate::json::member_index;
use crate::json::number_under;
use crate::json::numbers_under;
use crate::json::numbers_view;
use crate::json::strings_view;
use crate::json::text_under;
use crate::json::truth_under;
use crate::json::value_under;
use crate::json::with_member;
use crate::json::JsonView;
use crate::lookup::count_below;
use crate::lookup::count_in;
use crate::lookup::last_below;
use crate::lookup::lemma_absent;
use crate::lookup::only_in;
use crate::report::answers_tell_the_message;
use crate::report::compact_row;
use crate::report::email_json;
use crate::report::full_row;
use crate::report::mailbox_under;
use crate::report::mailboxes_under;
use crate::report::rows_tell_the_summary;
use crate::text::begins_with;
use crate::text::lowercase;
use crate::text::opt_str;
use crate::text::opt_text;

verus! {

/// The names of the members of the answers, told apart by their lengths and
/// characters.
proof fn lemma_names()
    ensures
        "account"@.len() == 7 && "account"@[0] == 'a',
        "total"@.len() == 5 && "total"@[0] == 't',
        "returned"@.len() == 8 && "returned"@[0] == 'r',
        "folders"@.len() == 7 && "folders"@[0] == 'f',
        "name"@.len() == 4 && "name"@[0] == 'n',
        "unread"@.len() == 6 && "unread"@[0] == 'u',
        "role"@.len() == 4 && "role"@[0] == 'r',
        "display_name"@.len() == 12 && "display_name"@[0] == 'd',
        "folder"@.len() == 6 && "folder"@[0] == 'f',
        "matched"@.len() == 7 && "matched"@[0] == 'm',
        "offset"@.len() == 6 && "offset"@[0] == 'o',
        "limit"@.len() == 5 && "limit"@[0] == 'l',
        "has_more"@.len() == 8 && "has_more"@[0] == 'h',
        "emails"@.len() == 6 && "emails"@[0] == 'e',
        "limit_capped"@.len() == 12 && "limit_capped"@[0] == 'l',
        "threads_truncated_from"@.len() == 22,
        "drafts"@.len() == 6 && "drafts"@[0] == 'd',
        "email"@.len() == 5 && "email"@[0] == 'e' && "email"@[1] == 'm',
        "content_warning"@.len() == 15 && "content_warning"@[0] == 'c',
        "body_parts_diverge"@.len() == 18,
        "body_parts_diverge_note"@.len() == 23,
        "subject"@.len() == 7 && "subject"@[0] == 's',
        "message_count"@.len() == 13 && "message_count"@[0] == 'm',
        "truncated_from"@.len() == 14 && "truncated_from"@[0] == 't',
        "error"@.len() == 5 && "error"@[0] == 'e' && "error"@[1] == 'r',
        "retryable"@.len() == 9 && "retryable"@[0] == 'r' && "retryable"@[2] == 't',
        "read_only"@.len() == 9 && "read_only"@[0] == 'r' && "read_only"@[2] == 'a',
        "succeeded"@.len() == 9 && "succeeded"@[0] == 's',
        "dry_run"@.len() == 7 && "dry_run"@[0] == 'd',
        "target_folder"@.len() == 13 && "target_folder"@[0] == 't',
        "uids"@.len() == 4 && "uids"@[0] == 'u',
        "would_move"@.len() == 10,
        "permanent"@.len() == 9 && "permanent"@[0] == 'p',
        "would_expunge_permanently"@.len() == 25,
        "would_move_to_trash"@.len() == 19,
        "status"@.len() == 6 && "status"@[0] == 's',
        "from"@.len() == 4 && "from"@[0] == 'f',
        "to"@.len() == 2 && "to"@[0] == 't',
        "cc"@.len() == 2 && "cc"@[0] == 'c',
        "bcc"@.len() == 3 && "bcc"@[0] == 'b',
        "body_preview"@.len() == 12 && "body_preview"@[0] == 'b',
        "inline_warning"@.len() == 14 && "inline_warning"@[0] == 'i',
        "threading_warning"@.len() == 17,
        "uid"@.len() == 3 && "uid"@[0] == 'u',
        "replaced_uid"@.len() == 12 && "replaced_uid"@[0] == 'r',
        "replace_warning"@.len() == 15 && "replace_warning"@[0] == 'r',
        "saved_to"@.len() == 8 && "saved_to"@[0] == 's',
        "filename"@.len() == 8 && "filename"@[0] == 'f',
        "index"@.len() == 5 && "index"@[0] == 'i',
        "size"@.len() == 4 && "size"@[0] == 's',
        "content_type"@.len() == 12 && "content_type"@[0] == 'c',
{
    reveal_strlit("account");
    reveal_strlit("total");
    reveal_strlit("returned");
    reveal_strlit("folders");
    reveal_strlit("name");
    reveal_strlit("unread");
    reveal_strlit("role");
    reveal_strlit("display_name");
    reveal_strlit("folder");
    reveal_strlit("matched");
    reveal_strlit("offset");
    reveal_strlit("limit");
    reveal_strlit("has_more");
    reveal_strlit("emails");
    reveal_strlit("limit_capped");
    reveal_strlit("threads_truncated_from");
    reveal_strlit("drafts");
    reveal_strlit("email");
    reveal_strlit("content_warning");
    reveal_strlit("body_parts_diverge");
    reveal_strlit("body_parts_diverge_note");
    reveal_strlit("subject");
    reveal_strlit("message_count");
    reveal_strlit("truncated_from");
    reveal_strlit("error");
    reveal_strlit("retryable");
    reveal_strlit("read_only");
    reveal_strlit("succeeded");
    reveal_strlit("dry_run");
    reveal_strlit("target_folder");
    reveal_strlit("uids");
    reveal_strlit("would_move");
    reveal_strlit("permanent");
    reveal_strlit("would_expunge_permanently");
    reveal_strlit("would_move_to_trash");
    reveal_strlit("status");
    reveal_strlit("from");
    reveal_strlit("to");
    reveal_strlit("cc");
    reveal_strlit("bcc");
    reveal_strlit("body_preview");
    reveal_strlit("inline_warning");
    reveal_strlit("threading_warning");
    reveal_strlit("uid");
    reveal_strlit("replaced_uid");
    reveal_strlit("replace_warning");
    reveal_strlit("saved_to");
    reveal_strlit("filename");
    reveal_strlit("index");
    reveal_strlit("size");
    reveal_strlit("content_type");
}

// ---------------------------------------------------------------------------
// Failures and accounts
// ---------------------------------------------------------------------------

/// A failure tells what the server or the tool said, and whether the same call may
/// succeed later.
pub proof fn failures_tell_the_reason(msg: Seq<char>)
    ensures
        text_under(error_view(msg), "error"@) == Some(server_message(msg)),
        truth_under(error_view(msg), "retryable"@) == Some(retryable_error(msg)),
{
    broadcast use crate::lookup::group_members;

    lemma_names();
    reveal_with_fuel(count_below, 3);
    reveal_with_fuel(last_below, 3);
}

/// An account is told by its own name, the address that it writes from, and
/// whether it may only read.
pub proof fn accounts_tell_themselves(a: AccountConfig)
    ensures
        text_under(account_json(a), "name"@) == Some(a.name@),
        text_under(account_json(a), "email"@) == Some(a.sender()),
        truth_under(account_json(a), "read_only"@) == Some(a.read_only),
{
    broadcast use crate::lookup::group_members;

    lemma_names();
    reveal_with_fuel(count_below, 4);
    reveal_with_fuel(last_below, 4);
}

/// The accounts are told one by one, in the order of the settings.
pub proof fn account_listings_tell_every_account(l: Seq<AccountConfig>)
    ensures
        accounts_answer(l) matches JsonView::Arr(items) && items.len() == l.len() && forall|i: int|
            0 <= i < l.len() ==> text_under(#[trigger] items[i], "name"@) == Some(l[i].name@)
                && text_under(items[i], "email"@) == Some(l[i].sender()) && truth_under(
                items[i],
                "read_only"@,
            ) == Some(l[i].read_only),
{
    let items = accounts_answer(l)->Arr_0;
    assert forall|i: int| 0 <= i < l.len() implies text_under(#[trigger] items[i], "name"@) == Some(
        l[i].name@,
    ) && text_under(items[i], "email"@) == Some(l[i].sender()) && truth_under(
        items[i],
        "read_only"@,
    ) == Some(l[i].read_only) by {
        accounts_tell_themselves(l[i]);
    }
}

// ---------------------------------------------------------------------------
// Folders
// ---------------------------------------------------------------------------

/// A folder is told by its name, the number of its messages and the number of
/// those that are unread; and by its role and its readable name where it has
/// them.
pub proof fn folders_tell_themselves(f: FolderInfo)
    ensures
        text_under(folder_json(f), "name"@) == Some(f.name@),
        number_under(folder_json(f), "total"@) == Some(f.total as nat),
        number_under(folder_json(f), "unread"@) == Some(f.unread as nat),
        text_under(folder_json(f), "role"@) == opt_str(f.role),
        text_under(folder_json(f), "display_name"@) == opt_text(f.display_name),
{
    broadcast use crate::lookup::group_members;
    broadcast use crate::json::group_answers;

    lemma_names();
    reveal_with_fuel(count_below, 4);
    reveal_with_fuel(last_below, 4);
}

/// A folder is listed exactly where it is one of the account's, its name or its
/// readable name begins with what was asked for, whatever the case, and it has
/// unread messages where only such folders were asked for.
pub proof fn folders_are_listed_as_asked(
    l: Seq<FolderInfo>,
    prefix: Option<Seq<char>>,
    unread_only: bool,
    f: FolderInfo,
)
    ensures
        folders_wanted(l, prefix, unread_only).contains(f) <==> {
            &&& l.contains(f)
            &&& prefix matches Some(p) ==> begins_with(lowercase(f.name@), lowercase(p)) || (
            f.display_name matches Some(d) && begins_with(lowercase(d@), lowercase(p)))
            &&& unread_only ==> f.unread > 0
        },
    decreases l.len(),
{
    reveal_with_fuel(Seq::filter, 1);
    let out = folders_wanted(l, prefix, unread_only);
    if l.len() > 0 {
        let front = l.drop_last();
        let last = l.last();
        folders_are_listed_as_asked(front, prefix, unread_only, f);
        let head = folders_wanted(front, prefix, unread_only);
        if out.contains(f) {
            let k = choose|k: int| 0 <= k < out.len() && out[k] == f;
            if k < head.len() {
                assert(head[k] == f);
                let i = choose|i: int| 0 <= i < front.len() && front[i] == f;
                assert(l[i] == f);
            } else {
                assert(l[l.len() - 1] == f);
            }
        }
        if l.contains(f) && folder_wanted(f, prefix, unread_only) {
            let i = choose|i: int| 0 <= i < l.len() && l[i] == f;
            if i < front.len() {
                assert(front[i] == f);
                let k = choose|k: int| 0 <= k < head.len() && head[k] == f;
                assert(out[k] == f);
            } else {
                assert(out[head.len() as int] == f);
            }
        }
    }
}

/// A listing of folders tells whose they are, how many there are in all and how
/// many are listed, and each of those, in order.
pub proof fn folder_listings_tell_their_folders(
    account: Seq<char>,
    all: Seq<FolderInfo>,
    prefix: Option<Seq<char>>,
    unread_only: bool,
)
    ensures
        ({
            let j = folders_answer(account, all, prefix, unread_only);
            let wanted = folders_wanted(all, prefix, unread_only);
            &&& text_under(j, "account"@) == Some(account)
            &&& number_under(j, "total"@) == Some(all.len())
            &&& number_under(j, "returned"@) == Some(wanted.len())
            &&& items_under(j, "folders"@) matches Some(l) && l.len() == wanted.len() && forall|i: int|
                0 <= i < l.len() ==> #[trigger] l[i] == folder_json(wanted[i])
        }),
{
    broadcast use crate::lookup::group_members;

    lemma_names();
    reveal_with_fuel(count_below, 5);
    reveal_with_fuel(last_below, 5);
}

// ---------------------------------------------------------------------------
// Listings
// ---------------------------------------------------------------------------

/// The list under a key tells rows, in full or reduced, in order.
pub open spec fn tells_rows(j: JsonView, key: Seq<char>, rows: Seq<EmailSummary>, compact: bool) -> bool {
    items_under(j, key) matches Some(l) && l.len() == rows.len() && forall|i: int|
        0 <= i < rows.len() ==> l[i] == if compact {
            compact_row(#[trigger] rows[i])
        } else {
            full_row(rows[i])
        }
}

/// A page holds as many rows as were asked for, but at least one and at most five
/// hundred; twenty where no number was asked for. That it was cut is told where
/// more than five hundred were asked for.
pub proof fn pages_hold_what_was_asked(asked: Option<u32>)
    ensures
        asked is None ==> row_limit(asked) == 20 && !is_capped(asked),
        asked matches Some(n) ==> (1 <= n <= 500 ==> row_limit(asked) == n && !is_capped(asked)) && (n
            == 0 ==> row_limit(asked) == 1 && !is_capped(asked)) && (n > 500 ==> row_limit(asked)
            == 500 && is_capped(asked)),
{
}

/// A listing tells whose messages they are and of which folder, how many the
/// folder holds and how many match, where the page begins and how long it may be,
/// how many rows it has, whether there is more, and the rows themselves.
#[verifier::rlimit(40)]
pub proof fn listings_tell_their_page(
    account: Seq<char>,
    req: ListEmailsRequest,
    emails: Seq<EmailSummary>,
    total: u32,
    matched: u32,
)
    ensures
        ({
            let j = emails_answer(account, req, emails, total, matched);
            let limit = row_limit(req.limit);
            let skipped: nat = match req.offset {
                Some(o) => o as nat,
                None => 0,
            };
            let threads = if req.group_by_thread == Some(true) {
                grouped_rows(emails)
            } else {
                emails
            };
            let cut = req.group_by_thread == Some(true) && threads.len() > limit;
            let rows = if cut {
                threads.take(limit as int)
            } else {
                threads
            };
            &&& text_under(j, "account"@) == Some(account)
            &&& text_under(j, "folder"@) == Some(req.folder@)
            &&& number_under(j, "total"@) == Some(total as nat)
            &&& number_under(j, "matched"@) == Some(matched as nat)
            &&& number_under(j, "offset"@) == Some(skipped)
            &&& number_under(j, "limit"@) == Some(limit as nat)
            &&& number_under(j, "returned"@) == Some(rows.len())
            &&& truth_under(j, "has_more"@) == Some(matched > skipped + emails.len() || cut)
            &&& tells_rows(j, "emails"@, rows, req.compact == Some(true))
            &&& truth_under(j, "limit_capped"@) == if is_capped(req.limit) {
                Some(true)
            } else {
                None
            }
            &&& number_under(j, "threads_truncated_from"@) == if cut {
                Some(threads.len())
            } else {
                None
            }
        }),
{
    broadcast use crate::lookup::group_members;
    broadcast use crate::json::group_answers;

    lemma_names();
    reveal_with_fuel(count_below, 10);
    reveal_with_fuel(last_below, 10);
}

/// A listing of drafts tells the same of the drafts.
#[verifier::rlimit(40)]
pub proof fn draft_listings_tell_their_page(
    account: Seq<char>,
    folder: Seq<char>,
    req: ListDraftsRequest,
    emails: Seq<EmailSummary>,
    total: u32,
)
    ensures
        ({
            let j = drafts_answer(account, folder, req, emails, total);
            let skipped: nat = match req.offset {
                Some(o) => o as nat,
                None => 0,
            };
            &&& text_under(j, "account"@) == Some(account)
            &&& text_under(j, "folder"@) == Some(folder)
            &&& number_under(j, "total"@) == Some(total as nat)
            &&& number_under(j, "offset"@) == Some(skipped)
            &&& number_under(j, "limit"@) == Some(row_limit(req.limit) as nat)
            &&& number_under(j, "returned"@) == Some(emails.len())
            &&& truth_under(j, "has_more"@) == Some(total > skipped + emails.len())
            &&& tells_rows(j, "drafts"@, emails, req.compact == Some(true))
            &&& truth_under(j, "limit_capped"@) == if is_capped(req.limit) {
                Some(true)
            } else {
                None
            }
        }),
{
    broadcast use crate::lookup::group_members;
    broadcast use crate::json::group_answers;

    lemma_names();
    reveal_with_fuel(count_below, 9);
    reveal_with_fuel(last_below, 9);
}

/// A search tells whose messages they are, how many match, how many rows there
/// are, where the page begins and how long it may be, whether there is more, and
/// the rows themselves: at most as many as the page may hold.
#[verifier::rlimit(40)]
pub proof fn searches_tell_their_page(sorted: Seq<EmailSummary>, p: SearchPayload)
    requires
        sorted.len() <= u32::MAX,
    ensures
        ({
            let j = search_answer(sorted, p);
            let threads = if p.group_by_thread {
                grouped_rows(sorted)
            } else {
                sorted
            };
            let cut = threads.len() > p.limit;
            let rows = if cut {
                threads.take(p.limit as int)
            } else {
                threads
            };
            let matched = if rows.len() > p.server_matched {
                rows.len()
            } else {
                p.server_matched as nat
            };
            &&& rows.len() <= p.limit
            &&& text_under(j, "account"@) == Some(p.account@)
            &&& number_under(j, "matched"@) == Some(matched)
            &&& number_under(j, "returned"@) == Some(rows.len())
            &&& number_under(j, "offset"@) == Some(p.offset as nat)
            &&& number_under(j, "limit"@) == Some(p.limit as nat)
            &&& truth_under(j, "has_more"@) == Some(matched > p.offset + sorted.len() || cut)
            &&& tells_rows(j, "emails"@, rows, p.compact)
            &&& truth_under(j, "limit_capped"@) == if p.limit_capped {
                Some(true)
            } else {
                None
            }
            &&& number_under(j, "threads_truncated_from"@) == if cut && p.group_by_thread {
                Some(threads.len())
            } else {
                None
            }
        }),
{
    broadcast use crate::lookup::group_members;
    broadcast use crate::json::group_answers;

    lemma_names();
    reveal_with_fuel(count_below, 8);
    reveal_with_fuel(last_below, 8);
}

// ---------------------------------------------------------------------------
// Messages and conversations
// ---------------------------------------------------------------------------

/// A member that is not there yet is added behind the others.
proof fn lemma_new_member(m: Seq<(Seq<char>, JsonView)>, key: Seq<char>, v: JsonView)
    requires
        count_in(m, key) == 0,
    ensures
        with_member(m, key, v) == m.push((key, v)),
{
    reveal(count_in);
    lemma_absent(m, key, m.len());
    lemma_no_index(m, key);
}

proof fn lemma_no_index(m: Seq<(Seq<char>, JsonView)>, key: Seq<char>)
    requires
        forall|k: int| 0 <= k < m.len() ==> (#[trigger] m[k]).0 != key,
    ensures
        member_index(m, key) is None,
    decreases m.len(),
{
    if m.len() > 0 {
        let front = m.drop_last();
        assert forall|k: int| 0 <= k < front.len() implies (#[trigger] front[k]).0 != key by {
            assert(m[k].0 != key);
        }
        lemma_no_index(front, key);
        assert(m[m.len() - 1].0 != key);
    }
}

/// The notices on the bodies stand beside the members of an answer: that they come
/// from outside, and, where the parts of some of them disagree, of which messages.
pub proof fn notices_stand_beside_the_answer(
    m: Seq<(Seq<char>, JsonView)>,
    diverging: Seq<u32>,
    key: Seq<char>,
)
    requires
        count_in(m, "content_warning"@) == 0,
        count_in(m, "body_parts_diverge"@) == 0,
        count_in(m, "body_parts_diverge_note"@) == 0,
    ensures
        ({
            let j = with_notices(JsonView::Obj(m), diverging);
            &&& text_under(j, "content_warning"@) == Some(UNTRUSTED_BODY_NOTICE@)
            &&& numbers_under(j, "body_parts_diverge"@) == if diverging.len() > 0 {
                Some(diverging.map_values(|n: u32| n as nat))
            } else {
                None
            }
            &&& text_under(j, "body_parts_diverge_note"@) == if diverging.len() > 0 {
                Some(DIVERGENCE_NOTICE@)
            } else {
                None
            }
            &&& key != "content_warning"@ && key != "body_parts_diverge"@ && key
                != "body_parts_diverge_note"@ ==> value_under(j, key) == only_in(m, key)
        }),
{
    broadcast use crate::lookup::group_members;

    lemma_names();
    let warning = JsonView::Str(UNTRUSTED_BODY_NOTICE@);
    let a = m.push(("content_warning"@, warning));
    lemma_new_member(m, "content_warning"@, warning);
    lemma_numbers_read(diverging);
    if diverging.len() > 0 {
        let b = a.push(("body_parts_diverge"@, numbers_view(diverging)));
        lemma_new_member(a, "body_parts_diverge"@, numbers_view(diverging));
        lemma_new_member(b, "body_parts_diverge_note"@, JsonView::Str(DIVERGENCE_NOTICE@));
    }
}

/// The answer with a message tells whose it is and the message itself, without its
/// HTML body unless that is asked for, and warns of its body.
pub proof fn message_answers_tell_the_message(account: Seq<char>, e: EmailFull, include_html: bool)
    ensures
        ({
            let j = message_answer(account, e, include_html);
            &&& text_under(j, "account"@) == Some(account)
            &&& text_under(j, "content_warning"@) == Some(UNTRUSTED_BODY_NOTICE@)
            &&& numbers_under(j, "body_parts_diverge"@) == if e.body_parts_diverge {
                Some(seq![e.uid as nat])
            } else {
                None
            }
            &&& value_under(j, "email"@) matches Some(v) && {
                &&& include_html ==> v == email_json(e)
                &&& !include_html ==> v == email_json(EmailFull { body_html: None, ..e })
            }
        }),
{
    broadcast use crate::lookup::group_members;

    lemma_names();
    reveal_with_fuel(count_below, 3);
    reveal_with_fuel(last_below, 3);
    let m = seq![
        ("account"@, JsonView::Str(account)),
        ("email"@, email_json(shown_message(e, include_html))),
    ];
    let diverging = if e.body_parts_diverge {
        seq![e.uid]
    } else {
        Seq::empty()
    };
    notices_stand_beside_the_answer(m, diverging, "account"@);
    notices_stand_beside_the_answer(m, diverging, "email"@);
    assert(seq![e.uid].map_values(|n: u32| n as nat) =~= seq![e.uid as nat]);
}

/// As many messages of a conversation are shown as are asked for, but at least one
/// and at most two hundred; fifty where no number is asked for. They are the last
/// ones.
pub proof fn conversations_show_their_newest_messages(l: Seq<EmailFull>, asked: Option<u32>)
    ensures
        asked is None ==> message_limit(asked) == 50,
        asked matches Some(n) ==> (1 <= n <= 200 ==> message_limit(asked) == n) && (n == 0
            ==> message_limit(asked) == 1) && (n > 200 ==> message_limit(asked) == 200),
        ({
            let kept = newest_messages(l, message_limit(asked));
            &&& kept.len() <= message_limit(asked)
            &&& kept.len() == l.len() || kept.len() == message_limit(asked)
            &&& forall|i: int|
                0 <= i < kept.len() ==> #[trigger] kept[i] == l[l.len() - kept.len() + i]
        }),
{
}

/// The messages of a conversation stand in the answer one by one, in order: in full
/// with their text, and with their HTML only where that is asked for; or as rows
/// without either.
pub proof fn conversations_show_each_message(
    l: Seq<EmailFull>,
    include_body: bool,
    include_html: bool,
    v: JsonView,
    i: int,
)
    requires
        is_messages_json(l, include_body, include_html, v),
        0 <= i < l.len(),
    ensures
        v matches JsonView::Arr(items) && items.len() == l.len() && {
            &&& number_under(items[i], "uid"@) == Some(l[i].uid as nat)
            &&& text_under(items[i], "folder"@) == Some(l[i].folder@)
            &&& text_under(items[i], "subject"@) == Some(l[i].subject@)
            &&& text_under(items[i], "date"@) == opt_text(l[i].date)
            &&& text_under(items[i], "message_id"@) == opt_text(l[i].message_id)
            &&& mailbox_under(items[i], "from"@) == opt_address(l[i].from)
            &&& include_body ==> text_under(items[i], "body_text"@) == Some(l[i].body_text@)
            &&& include_body ==> mailboxes_under(items[i], "to"@) == Some(address_views(l[i].to@))
            &&& include_body ==> mailboxes_under(items[i], "cc"@) == Some(address_views(l[i].cc@))
            &&& include_body && include_html ==> text_under(items[i], "body_html"@) == opt_text(
                l[i].body_html,
            )
            &&& include_body && !include_html ==> text_under(items[i], "body_html"@) is None
        },
{
    let items = v->Arr_0;
    if include_body {
        let shown = shown_message(l[i], include_html);
        assert(items[i] == email_json(shown));
        answers_tell_the_message(shown);
    } else {
        let rows = choose|rows: Seq<EmailSummary>| #[trigger]
            are_summaries(rows, l) && v == rows_json(rows, false);
        assert(summarizes(rows[i], l[i]@));
        assert(items[i] == full_row(rows[i]));
        rows_tell_the_summary(rows[i]);
    }
}

/// The answer with a conversation tells whose it is, the subject of the first
/// message that is shown, how many are shown, of how many where some are left out,
/// and the messages; where it has bodies, it warns of them.
pub proof fn conversations_tell_their_messages(
    account: Seq<char>,
    all: Seq<EmailFull>,
    req: GetThreadRequest,
    messages: JsonView,
)
    ensures
        ({
            let j = thread_answer(account, all, req, messages);
            let kept = newest_messages(all, message_limit(req.max_messages));
            &&& text_under(j, "account"@) == Some(account)
            &&& text_under(j, "subject"@) == Some(
                if kept.len() > 0 {
                    kept[0].subject@
                } else {
                    Seq::empty()
                },
            )
            &&& number_under(j, "message_count"@) == Some(kept.len())
            &&& number_under(j, "truncated_from"@) == if all.len() > kept.len() {
                Some(all.len())
            } else {
                None
            }
            &&& value_under(j, "emails"@) == Some(messages)
            &&& text_under(j, "content_warning"@) == if req.include_body == Some(false) {
                None
            } else {
                Some(UNTRUSTED_BODY_NOTICE@)
            }
        }),
{
    broadcast use crate::lookup::group_members;
    broadcast use crate::json::group_answers;

    lemma_names();
    reveal_with_fuel(count_below, 4);
    reveal_with_fuel(last_below, 4);
    let kept = newest_messages(all, message_limit(req.max_messages));
    let m = seq![
        ("account"@, JsonView::Str(account)),
        (
            "subject"@,
            JsonView::Str(
                if kept.len() > 0 {
                    kept[0].subject@
                } else {
                    Seq::empty()
                },
            ),
        ),
        ("message_count"@, JsonView::Num(kept.len())),
    ] + member_if(all.len() > kept.len(), "truncated_from"@, JsonView::Num(all.len())) + seq![
        ("emails"@, messages),
    ];
    let uids = diverging_uids(kept);
    notices_stand_beside_the_answer(m, uids, "account"@);
    notices_stand_beside_the_answer(m, uids, "subject"@);
    notices_stand_beside_the_answer(m, uids, "message_count"@);
    notices_stand_beside_the_answer(m, uids, "truncated_from"@);
    notices_stand_beside_the_answer(m, uids, "emails"@);
}

/// The messages whose parts disagree are exactly those that are told of.
pub proof fn disagreeing_messages_are_told(l: Seq<EmailFull>, uid: u32)
    ensures
        diverging_uids(l).contains(uid) <==> exists|i: int|
            0 <= i < l.len() && (#[trigger] l[i]).body_parts_diverge && l[i].uid == uid,
    decreases l.len(),
{
    reveal_with_fuel(Seq::filter, 1);
    let told = diverging_uids(l);
    if l.len() > 0 {
        let front = l.drop_last();
        let head = diverging_uids(front);
        disagreeing_messages_are_told(front, uid);
        assert(told =~= if l.last().body_parts_diverge {
            head.push(l.last().uid)
        } else {
            head
        });
        if told.contains(uid) {
            let k = choose|k: int| 0 <= k < told.len() && told[k] == uid;
            if k < head.len() {
                assert(head[k] == uid);
                let i = choose|i: int|
                    0 <= i < front.len() && (#[trigger] front[i]).body_parts_diverge && front[i].uid
                        == uid;
                assert(l[i] == front[i]);
            } else {
                assert(l[l.len() - 1].uid == uid);
            }
        }
        if exists|i: int| 0 <= i < l.len() && (#[trigger] l[i]).body_parts_diverge && l[i].uid == uid {
            let i = choose|i: int|
                0 <= i < l.len() && (#[trigger] l[i]).body_parts_diverge && l[i].uid == uid;
            if i < front.len() {
                assert(front[i] == l[i]);
                let k = choose|k: int| 0 <= k < head.len() && head[k] == uid;
                assert(told[k] == uid);
            } else {
                assert(told[head.len() as int] == uid);
            }
        }
    }
}

// ---------------------------------------------------------------------------
// Changes
// ---------------------------------------------------------------------------

/// A change is refused by a read-only account, a move by one that allows none, and
/// a deletion by one that allows none; nothing else is refused.
pub proof fn changes_are_refused_by_their_own_setting(config: AccountConfig)
    ensures
        write_refusal(config, WriteKind::Flag) is Some <==> config.read_only,
        write_refusal(config, WriteKind::Move) is Some <==> config.read_only || !config.allow_move,
        write_refusal(config, WriteKind::Delete) is Some <==> config.read_only
            || !config.allow_delete,
{
}

/// The numbers under a key are these.
pub open spec fn tells_numbers(j: JsonView, key: Seq<char>, l: Seq<u32>) -> bool {
    numbers_under(j, key) == Some(l.map_values(|n: u32| n as nat))
}

/// A change tells whose messages were changed, and which.
pub proof fn changes_tell_what_was_changed(account: Seq<char>, succeeded: Seq<u32>)
    ensures
        text_under(changed_answer(account, succeeded), "account"@) == Some(account),
        tells_numbers(changed_answer(account, succeeded), "succeeded"@, succeeded),
{
    broadcast use crate::lookup::group_members;

    lemma_names();
    reveal_with_fuel(count_below, 3);
    reveal_with_fuel(last_below, 3);
    lemma_numbers_read(succeeded);
}

/// A preview of a move tells which messages would be moved, from which folder and
/// into which, and that nothing was done.
pub proof fn move_previews_tell_the_move(account: Seq<char>, req: MoveEmailRequest)
    ensures
        text_under(move_preview(account, req), "account"@) == Some(account),
        truth_under(move_preview(account, req), "dry_run"@) == Some(true),
        text_under(move_preview(account, req), "folder"@) == Some(req.folder@),
        text_under(move_preview(account, req), "target_folder"@) == Some(req.target_folder@),
        tells_numbers(move_preview(account, req), "uids"@, req.uids@),
        number_under(move_preview(account, req), "would_move"@) == Some(req.uids@.len()),
{
    broadcast use crate::lookup::group_members;

    lemma_names();
    reveal_with_fuel(count_below, 7);
    reveal_with_fuel(last_below, 7);
    lemma_numbers_read(req.uids@);
}

/// A preview of a deletion tells which messages would be deleted, from which
/// folder, and whether they would be gone for good or go to the trash.
pub proof fn deletion_previews_tell_the_deletion(account: Seq<char>, req: DeleteEmailRequest)
    ensures
        text_under(delete_preview(account, req), "account"@) == Some(account),
        truth_under(delete_preview(account, req), "dry_run"@) == Some(true),
        text_under(delete_preview(account, req), "folder"@) == Some(req.folder@),
        tells_numbers(delete_preview(account, req), "uids"@, req.uids@),
        truth_under(delete_preview(account, req), "permanent"@) == Some(req.permanent == Some(true)),
        number_under(delete_preview(account, req), "would_expunge_permanently"@) == if req.permanent
            == Some(true) {
            Some(req.uids@.len())
        } else {
            None
        },
        number_under(delete_preview(account, req), "would_move_to_trash"@) == if req.permanent
            == Some(true) {
            None
        } else {
            Some(req.uids@.len())
        },
{
    broadcast use crate::lookup::group_members;

    lemma_names();
    reveal_with_fuel(count_below, 7);
    reveal_with_fuel(last_below, 7);
    lemma_numbers_read(req.uids@);
}

/// A saved attachment is told by its path, its name, its position, its size and
/// its type.
pub proof fn downloads_tell_the_attachment(account: Seq<char>, path: Seq<char>, a: PickedAttachment)
    ensures
        text_under(saved_answer(account, path, a), "account"@) == Some(account),
        text_under(saved_answer(account, path, a), "saved_to"@) == Some(path),
        text_under(saved_answer(account, path, a), "filename"@) == Some(a.name@),
        number_under(saved_answer(account, path, a), "index"@) == Some(a.index as nat),
        number_under(saved_answer(account, path, a), "size"@) == Some(a.contents@.len()),
        text_under(saved_answer(account, path, a), "content_type"@) == Some(a.content_type@),
{
    broadcast use crate::lookup::group_members;

    lemma_names();
    reveal_with_fuel(count_below, 7);
    reveal_with_fuel(last_below, 7);
}

// ---------------------------------------------------------------------------
// Drafts
// ---------------------------------------------------------------------------

/// The answer of a draft tells the account, the address that it is from, the
/// subject, how the body begins and what is to be noted of it; and what its lists
/// tell.
pub proof fn draft_answers_tell_the_draft(
    account: DraftAccount,
    lists: Seq<(Seq<char>, JsonView)>,
    subject: Seq<char>,
    preview: Seq<char>,
    notice: Option<Seq<char>>,
    key: Seq<char>,
)
    requires
        forall|k: int|
            0 <= k < lists.len() ==> (#[trigger] lists[k]).0 == "to"@ || lists[k].0 == "cc"@
                || lists[k].0 == "bcc"@,
        key == "to"@ || key == "cc"@ || key == "bcc"@,
    ensures
        ({
            let j = JsonView::Obj(draft_answer(account, lists, subject, preview, notice));
            &&& text_under(j, "account"@) == Some(account.name@)
            &&& text_under(j, "from"@) == Some(account.from@)
            &&& text_under(j, "subject"@) == Some(subject)
            &&& text_under(j, "body_preview"@) == Some(preview)
            &&& text_under(j, "inline_warning"@) == notice
            &&& value_under(j, key) == only_in(lists, key)
        }),
{
    broadcast use crate::lookup::group_members;
    broadcast use crate::json::group_answers;

    lemma_names();
    reveal_with_fuel(count_below, 4);
    reveal_with_fuel(last_below, 4);
    lemma_not_listed(lists, "status"@);
    lemma_not_listed(lists, "account"@);
    lemma_not_listed(lists, "from"@);
    lemma_not_listed(lists, "subject"@);
    lemma_not_listed(lists, "body_preview"@);
    lemma_not_listed(lists, "inline_warning"@);
}

proof fn lemma_not_listed(lists: Seq<(Seq<char>, JsonView)>, key: Seq<char>)
    requires
        forall|k: int|
            0 <= k < lists.len() ==> (#[trigger] lists[k]).0 == "to"@ || lists[k].0 == "cc"@
                || lists[k].0 == "bcc"@,
        key != "to"@ && key != "cc"@ && key != "bcc"@,
    ensures
        count_in(lists, key) == 0,
{
    reveal(count_in);
    lemma_absent(lists, key, lists.len());
}

/// The texts of a list, as JSON, tell the texts.
pub open spec fn tells_texts(v: Option<JsonView>, l: Seq<Seq<char>>) -> bool {
    v matches Some(JsonView::Arr(items)) && items.len() == l.len() && forall|i: int|
        0 <= i < l.len() ==> items[i] == JsonView::Str(#[trigger] l[i])
}

/// The lists of a draft's answer tell each recipient under the name of the list
/// that it is in.
pub proof fn draft_answers_tell_their_recipients(
    to: Seq<Seq<char>>,
    cc: Seq<Seq<char>>,
    bcc: Seq<Seq<char>>,
)
    ensures
        tells_texts(only_in(address_lists(to, cc), "to"@), to),
        tells_texts(only_in(address_lists(to, cc), "cc"@), cc),
        count_in(address_lists(to, cc), "bcc"@) == 0,
        ({
            let all = address_lists(to, cc).push(("bcc"@, strings_view(bcc)));
            &&& tells_texts(only_in(all, "to"@), to)
            &&& tells_texts(only_in(all, "cc"@), cc)
            &&& tells_texts(only_in(all, "bcc"@), bcc)
        }),
{
    broadcast use crate::lookup::group_members;

    lemma_names();
    reveal_with_fuel(count_below, 3);
    reveal_with_fuel(last_below, 3);
}

/// The answer of a draft that was saved tells its number where it is known. Of the
/// draft that it replaces it tells the number where that draft is gone, and a
/// warning where it is not or its deletion failed.
pub proof fn savings_tell_what_became_of_the_drafts(
    m: Seq<(Seq<char>, JsonView)>,
    uid: Option<u32>,
    replaced: Option<(u32, Result<Seq<u32>, Seq<char>>)>,
)
    requires
        count_in(m, "uid"@) == 0,
        count_in(m, "replaced_uid"@) == 0,
        count_in(m, "replace_warning"@) == 0,
    ensures
        ({
            let j = JsonView::Obj(finished(m, uid, replaced));
            &&& number_under(j, "uid"@) == match uid {
                Some(n) => Some(n as nat),
                None => None,
            }
            &&& number_under(j, "replaced_uid"@) == match replaced {
                Some((old, Ok(gone))) => if gone.contains(old) {
                    Some(old as nat)
                } else {
                    None
                },
                _ => None,
            }
            &&& text_under(j, "replace_warning"@) is Some <==> match replaced {
                Some((old, Ok(gone))) => !gone.contains(old),
                Some((_, Err(_))) => true,
                None => false,
            }
        }),
{
    broadcast use crate::lookup::group_members;

    lemma_names();
    let a = match uid {
        Some(u) => m.push(("uid"@, JsonView::Num(u as nat))),
        None => m,
    };
    if let Some(u) = uid {
        lemma_new_member(m, "uid"@, JsonView::Num(u as nat));
    }
    if let Some((u, outcome)) = replaced {
        let r = replacement_member(u, outcome);
        lemma_new_member(a, r.0, r.1);
    }
}

} // verus!
