//! The tools that change messages: flags, moves and deletions.

use vstd::prelude::*;

use crate::config::AccountConfig;
use crate::json::json_numbers;
use crate::json::numbers_view;
use crate::json::Json;
use crate::json::JsonView;
use crate::json::Members;
use crate::text::copy_of;

verus! {

/// Asks for messages to be moved.
#[derive(Debug)]
pub struct MoveEmailRequest {
    pub account: Option<String>,
    pub folder: String,
    pub uids: Vec<u32>,
    pub target_folder: String,
    /// Only tell what would happen.
    pub dry_run: Option<bool>,
}

/// Asks for messages to be marked as read.
#[derive(Debug)]
pub struct MarkReadRequest {
    pub account: Option<String>,
    pub folder: String,
    pub uids: Vec<u32>,
}

/// Asks for messages to be marked as unread.
#[derive(Debug)]
pub struct MarkUnreadRequest {
    pub account: Option<String>,
    pub folder: String,
    pub uids: Vec<u32>,
}

/// Asks for messages to be flagged.
#[derive(Debug)]
pub struct FlagEmailRequest {
    pub account: Option<String>,
    pub folder: String,
    pub uids: Vec<u32>,
}

/// Asks for the flag to be taken from messages.
#[derive(Debug)]
pub struct UnflagEmailRequest {
    pub account: Option<String>,
    pub folder: String,
    pub uids: Vec<u32>,
}

/// Asks for messages to be deleted.
#[derive(Debug)]
pub struct DeleteEmailRequest {
    pub account: Option<String>,
    pub folder: String,
    pub uids: Vec<u32>,
    /// For good, rather than into the trash.
    pub permanent: Option<bool>,
    /// Only tell what would happen.
    pub dry_run: Option<bool>,
}

/// The most messages that one call may change.
pub const MAX_UIDS_PER_CALL: usize = 1000;

/// How a call changes messages.
#[derive(Debug, Clone, Copy, PartialEq, Eq, Structural)]
pub enum WriteKind {
    Flag,
    Move,
    Delete,
}

/// A call asks for too many messages, which is told before the account is looked
/// at.
pub open spec fn too_many(uids: nat) -> bool {
    uids > MAX_UIDS_PER_CALL
}

/// What is said of too many messages.
pub open spec fn too_many_text() -> Seq<char> {
    "uids list exceeds 1000-item cap — batch into smaller calls"@
}

/// A call may ask for a thousand messages and for no more.
pub proof fn calls_ask_for_a_thousand_at_most(uids: nat)
    ensures
        too_many(uids) <==> uids >= 1001,
{
}

/// Whether a call may ask for so many messages.
pub fn check_count(uids: &Vec<u32>) -> (r: Result<(), String>)
    ensures
        match r {
            Ok(_) => !too_many(uids@.len()),
            Err(text) => too_many(uids@.len()) && text@ == too_many_text(),
        },
{
    if uids.len() > MAX_UIDS_PER_CALL {
        Err(copy_of("uids list exceeds 1000-item cap — batch into smaller calls"))
    } else {
        Ok(())
    }
}

/// Why an account does not allow a change.
pub open spec fn write_refusal(config: AccountConfig, kind: WriteKind) -> Option<Seq<char>> {
    if config.read_only {
        Some("Account is configured as read-only"@)
    } else if kind == WriteKind::Move && !config.allow_move {
        Some("Moving emails is disabled for this account (allow_move = false)"@)
    } else if kind == WriteKind::Delete && !config.allow_delete {
        Some("Deleting emails is disabled for this account (allow_delete = false)"@)
    } else {
        None
    }
}

/// Whether an account allows a change.
pub fn check_write(config: &AccountConfig, kind: WriteKind) -> (r: Result<(), String>)
    ensures
        match write_refusal(*config, kind) {
            Some(text) => r is Err && r->Err_0@ == text,
            None => r is Ok,
        },
{
    if config.read_only {
        return Err(copy_of("Account is configured as read-only"));
    }
    if kind == WriteKind::Move && !config.allow_move {
        return Err(copy_of("Moving emails is disabled for this account (allow_move = false)"));
    }
    if kind == WriteKind::Delete && !config.allow_delete {
        return Err(copy_of("Deleting emails is disabled for this account (allow_delete = false)"));
    }
    Ok(())
}

/// A read-only account allows no change at all.
pub proof fn read_only_accounts_are_not_changed(config: AccountConfig, kind: WriteKind)
    requires
        config.read_only,
    ensures
        write_refusal(config, kind) is Some,
{
}

/// The answer for messages that were changed.
pub open spec fn changed_answer(account: Seq<char>, succeeded: Seq<u32>) -> JsonView {
    JsonView::Obj(
        seq![("account"@, JsonView::Str(account)), ("succeeded"@, numbers_view(succeeded))],
    )
}

/// Reports the messages that were changed.
pub fn write_ok(account: &str, succeeded: &[u32]) -> (j: Json)
    ensures
        j@ == changed_answer(account@, succeeded@),
{
    let mut m = Members::new();
    m.put_str("account", account);
    m.put("succeeded", json_numbers(succeeded));
    proof {
        assert(m@ =~= changed_answer(account@, succeeded@)->Obj_0);
    }
    m.done()
}

/// The answer that tells what a move would do.
pub open spec fn move_preview(account: Seq<char>, req: MoveEmailRequest) -> JsonView {
    JsonView::Obj(
        seq![
            ("account"@, JsonView::Str(account)),
            ("dry_run"@, JsonView::Bool(true)),
            ("folder"@, JsonView::Str(req.folder@)),
            ("target_folder"@, JsonView::Str(req.target_folder@)),
            ("uids"@, numbers_view(req.uids@)),
            ("would_move"@, JsonView::Num(req.uids@.len())),
        ],
    )
}

/// Tells what a move would do, where only that is asked for.
pub fn preview_move(account: &str, req: &MoveEmailRequest) -> (j: Option<Json>)
    ensures
        match j {
            Some(v) => req.dry_run == Some(true) && v@ == move_preview(account@, *req),
            None => req.dry_run != Some(true),
        },
{
    match req.dry_run {
        Some(true) => {},
        _ => {
            return None;
        },
    }
    let mut m = Members::new();
    m.put_str("account", account);
    m.put_bool("dry_run", true);
    m.put_str("folder", req.folder.as_str());
    m.put_str("target_folder", req.target_folder.as_str());
    m.put("uids", json_numbers(req.uids.as_slice()));
    m.put_num("would_move", req.uids.len() as u64);
    proof {
        assert(m@ =~= move_preview(account@, *req)->Obj_0);
    }
    Some(m.done())
}

/// The answer that tells what a deletion would do.
pub open spec fn delete_preview(account: Seq<char>, req: DeleteEmailRequest) -> JsonView {
    let permanent = req.permanent == Some(true);
    JsonView::Obj(
        seq![
            ("account"@, JsonView::Str(account)),
            ("dry_run"@, JsonView::Bool(true)),
            ("folder"@, JsonView::Str(req.folder@)),
            ("uids"@, numbers_view(req.uids@)),
            ("permanent"@, JsonView::Bool(permanent)),
            (
                if permanent {
                    "would_expunge_permanently"@
                } else {
                    "would_move_to_trash"@
                },
                JsonView::Num(req.uids@.len()),
            ),
        ],
    )
}

/// Tells what a deletion would do, where only that is asked for.
pub fn preview_delete(account: &str, req: &DeleteEmailRequest) -> (j: Option<Json>)
    ensures
        match j {
            Some(v) => req.dry_run == Some(true) && v@ == delete_preview(account@, *req),
            None => req.dry_run != Some(true),
        },
{
    match req.dry_run {
        Some(true) => {},
        _ => {
            return None;
        },
    }
    let permanent = match req.permanent {
        Some(p) => p,
        None => false,
    };
    let mut m = Members::new();
    m.put_str("account", account);
    m.put_bool("dry_run", true);
    m.put_str("folder", req.folder.as_str());
    m.put("uids", json_numbers(req.uids.as_slice()));
    m.put_bool("permanent", permanent);
    m.put_num(
        if permanent {
            "would_expunge_permanently"
        } else {
            "would_move_to_trash"
        },
        req.uids.len() as u64,
    );
    proof {
        assert(m@ =~= delete_preview(account@, *req)->Obj_0);
    }
    Some(m.done())
}

/// What precedes a change: whether it is refused, only told of, or made.
#[derive(Debug)]
pub enum WriteStep {
    Refused(String),
    Preview(Json),
    Proceed,
}

/// Decides on a move of messages of an account.
pub fn plan_move(config: &AccountConfig, req: &MoveEmailRequest) -> (s: WriteStep)
    ensures
        too_many(req.uids@.len()) ==> (s matches WriteStep::Refused(t) && t@ == too_many_text()),
        !too_many(req.uids@.len()) ==> match write_refusal(*config, WriteKind::Move) {
            Some(text) => s matches WriteStep::Refused(t) && t@ == text,
            None => if req.dry_run == Some(true) {
                s matches WriteStep::Preview(v) && v@ == move_preview(config.name@, *req)
            } else {
                s is Proceed
            },
        },
{
    if let Err(text) = check_count(&req.uids) {
        return WriteStep::Refused(text);
    }
    if let Err(text) = check_write(config, WriteKind::Move) {
        return WriteStep::Refused(text);
    }
    match preview_move(config.name.as_str(), req) {
        Some(v) => WriteStep::Preview(v),
        None => WriteStep::Proceed,
    }
}

/// Decides on a deletion of messages of an account.
pub fn plan_delete(config: &AccountConfig, req: &DeleteEmailRequest) -> (s: WriteStep)
    ensures
        too_many(req.uids@.len()) ==> (s matches WriteStep::Refused(t) && t@ == too_many_text()),
        !too_many(req.uids@.len()) ==> match write_refusal(*config, WriteKind::Delete) {
            Some(text) => s matches WriteStep::Refused(t) && t@ == text,
            None => if req.dry_run == Some(true) {
                s matches WriteStep::Preview(v) && v@ == delete_preview(config.name@, *req)
            } else {
                s is Proceed
            },
        },
{
    if let Err(text) = check_count(&req.uids) {
        return WriteStep::Refused(text);
    }
    if let Err(text) = check_write(config, WriteKind::Delete) {
        return WriteStep::Refused(text);
    }
    match preview_delete(config.name.as_str(), req) {
        Some(v) => WriteStep::Preview(v),
        None => WriteStep::Proceed,
    }
}

/// Decides on a change of the flags of messages of an account.
pub fn plan_flagging(config: &AccountConfig, uids: &Vec<u32>) -> (s: WriteStep)
    ensures
        too_many(uids@.len()) ==> (s matches WriteStep::Refused(t) && t@ == too_many_text()),
        !too_many(uids@.len()) ==> match write_refusal(*config, WriteKind::Flag) {
            Some(text) => s matches WriteStep::Refused(t) && t@ == text,
            None => s is Proceed,
        },
{
    if let Err(text) = check_count(uids) {
        return WriteStep::Refused(text);
    }
    match check_write(config, WriteKind::Flag) {
        Err(text) => WriteStep::Refused(text),
        Ok(_) => WriteStep::Proceed,
    }
}

} // verus!
