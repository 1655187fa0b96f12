//! Moving and deleting messages: what is asked of the server, in which order,
//! and what a failure on the way means.

use vstd::prelude::*;

use super::session::caused_by;
use super::session::plain_error;
use super::session::ClientError;
use super::session::ErrorView;
use super::thread::header_criterion;
use super::thread::header_term;
use super::uids::confirmed_uids;
use super::uids::is_confirmed;
use super::uids::rising;
use super::uids::set_names;
use super::uids::uid_set;
use super::uids::uid_set_string;
use super::uids::uid_sets_read_back;
use super::util::connection_error;
use super::util::extract_message_id;
use super::util::is_connection_error;
use super::util::message_id_from;
use crate::email::sanitize_external_str;
use crate::email::sanitized;
use crate::text::copy_of;
use crate::text::opt_text;

verus! {

// ---------------------------------------------------------------------------
// Folders and flags
// ---------------------------------------------------------------------------

/// The folder for drafts: the one that was found, or the usual one.
pub fn drafts_or_default(found: Option<String>) -> (out: String)
    ensures
        out@ == match opt_text(found) {
            Some(f) => f,
            None => "Drafts"@,
        },
{
    match found {
        Some(f) => f,
        None => copy_of("Drafts"),
    }
}

/// The folder for what was deleted: the one that was found, or the usual one.
pub fn trash_or_default(found: Option<String>) -> (out: String)
    ensures
        out@ == match opt_text(found) {
            Some(f) => f,
            None => "Trash"@,
        },
{
    match found {
        Some(f) => f,
        None => copy_of("Trash"),
    }
}

/// Where deleted messages go: to the folder for what was deleted, and nowhere
/// where they are to be gone for good.
pub fn deletion_target(permanent: bool, found: Option<String>) -> (target: Option<String>)
    ensures
        opt_text(target) == if permanent {
            None
        } else {
            Some(
                match opt_text(found) {
                    Some(f) => f,
                    None => "Trash"@,
                },
            )
        },
{
    if permanent {
        None
    } else {
        Some(trash_or_default(found))
    }
}

/// The change that sets or clears a flag.
pub fn flag_change(flag: &str, set: bool) -> (out: String)
    ensures
        out@ == (if set {
            "+FLAGS ("@
        } else {
            "-FLAGS ("@
        }) + flag@ + ")"@,
{
    let mut out = if set {
        copy_of("+FLAGS (")
    } else {
        copy_of("-FLAGS (")
    };
    out.append(flag);
    out.append(")");
    out
}

/// The search for a draft that was just stored; nothing where it has no message
/// id.
pub fn draft_query(message: &[u8]) -> (out: Option<String>)
    ensures
        opt_text(out) == match message_id_from(message@, 0) {
            Some(id) => Some(header_term("Message-ID"@, id)),
            None => None,
        },
{
    match extract_message_id(message) {
        Some(id) => Some(header_criterion("Message-ID", id.as_str())),
        None => None,
    }
}

// ---------------------------------------------------------------------------
// Removals
// ---------------------------------------------------------------------------

/// How far a removal is.
#[derive(Debug, Clone, Copy, PartialEq, Eq, Structural)]
pub enum RemovalPhase {
    /// Which of the messages exist is asked for.
    Confirm,
    /// They are copied to the target.
    Copy,
    /// They are flagged as deleted.
    Flag,
    /// They, and nothing else, are expunged.
    Expunge,
    /// Everything that is flagged as deleted is expunged.
    Sweep,
    Finished,
}

/// The removal of messages from the selected folder: a move where there is a
/// target, a deletion where there is none.
#[derive(Debug)]
pub struct Removal {
    pub asked: Vec<u32>,
    pub target: Option<String>,
    /// A plain expunge is allowed where the server has no other.
    pub sweeps: bool,
    /// The messages that exist.
    pub existing: Vec<u32>,
    pub phase: RemovalPhase,
}

/// The value of a removal.
pub struct RemovalView {
    pub asked: Seq<u32>,
    pub target: Option<Seq<char>>,
    pub sweeps: bool,
    pub existing: Seq<u32>,
    pub phase: RemovalPhase,
}

impl View for Removal {
    type V = RemovalView;

    open spec fn view(&self) -> RemovalView {
        RemovalView {
            asked: self.asked@,
            target: opt_text(self.target),
            sweeps: self.sweeps,
            existing: self.existing@,
            phase: self.phase,
        }
    }
}

/// What is asked of the server.
#[derive(Debug)]
pub enum RemovalAction {
    Search(String),
    Copy { set: String, target: String },
    /// Flag as deleted.
    Flag(String),
    /// Expunge by UID.
    Expunge(String),
    /// Expunge everything that is flagged.
    Sweep,
    Finished,
}

/// The value of an action.
pub enum RemovalActionView {
    Search(Seq<char>),
    Copy { set: Seq<char>, target: Seq<char> },
    Flag(Seq<char>),
    Expunge(Seq<char>),
    Sweep,
    Finished,
}

impl View for RemovalAction {
    type V = RemovalActionView;

    open spec fn view(&self) -> RemovalActionView {
        match self {
            RemovalAction::Search(q) => RemovalActionView::Search(q@),
            RemovalAction::Copy { set, target } => RemovalActionView::Copy {
                set: set@,
                target: target@,
            },
            RemovalAction::Flag(s) => RemovalActionView::Flag(s@),
            RemovalAction::Expunge(s) => RemovalActionView::Expunge(s@),
            RemovalAction::Sweep => RemovalActionView::Sweep,
            RemovalAction::Finished => RemovalActionView::Finished,
        }
    }
}

/// What the server answered.
#[derive(Debug)]
pub enum RemovalEvent {
    /// The messages that a search found.
    Found(Vec<u32>),
    /// It did what was asked.
    Done,
    /// It refused, or could not be asked.
    Failed(ClientError),
    /// It began to answer and stopped.
    Broken(ClientError),
}

/// What a failure to flag means for a move.
pub open spec fn copied_text() -> Seq<char> {
    "COPY to target succeeded but \\Deleted-flag STORE on source failed — messages now exist in both folders; do NOT retry this move without re-listing the source folder"@
}

/// What a broken answer to the flagging means for a move.
pub open spec fn flagging_text() -> Seq<char> {
    "COPY + STORE submitted but response stream errored — source likely flagged \\Deleted; re-list source before retrying"@
}

/// What a failure to expunge means for a move.
pub open spec fn flagged_text() -> Seq<char> {
    "COPY + STORE succeeded but EXPUNGE failed — source messages are flagged \\Deleted; retry would duplicate in target. Investigate server state"@
}

/// What is said where only a plain expunge would do and is not allowed.
pub open spec fn refusal_text(error: Seq<char>) -> Seq<char> {
    "UID EXPUNGE rejected by server ("@ + sanitized(error)
        + ") and allow_unsafe_expunge is false — refusing plain EXPUNGE to avoid collateral removal of concurrent clients' \\Deleted messages. Set `allow_unsafe_expunge = true` for this account if you trust the single-client assumption"@
}

/// A failure with what it means for a move.
pub open spec fn for_move(r: RemovalView, text: Seq<char>, e: ErrorView) -> ErrorView {
    if r.target is Some {
        caused_by(text, e)
    } else {
        e
    }
}

/// The phase after the search.
pub open spec fn after_search(r: RemovalView, existing: Seq<u32>) -> RemovalPhase {
    if existing.len() == 0 {
        RemovalPhase::Finished
    } else if r.target is Some {
        RemovalPhase::Copy
    } else {
        RemovalPhase::Flag
    }
}

/// What is asked of the server next.
pub open spec fn removal_action(r: RemovalView) -> RemovalActionView {
    match r.phase {
        RemovalPhase::Confirm => RemovalActionView::Search("UID "@ + uid_set(r.asked)),
        RemovalPhase::Copy => match r.target {
            Some(target) => RemovalActionView::Copy { set: uid_set(r.existing), target },
            None => RemovalActionView::Finished,
        },
        RemovalPhase::Flag => RemovalActionView::Flag(uid_set(r.existing)),
        RemovalPhase::Expunge => RemovalActionView::Expunge(uid_set(r.existing)),
        RemovalPhase::Sweep => RemovalActionView::Sweep,
        RemovalPhase::Finished => RemovalActionView::Finished,
    }
}

/// A removal goes from one value to another, or fails, with an answer of the
/// server. Answers to what was not asked change nothing.
pub open spec fn removal_step(
    from: RemovalView,
    event: RemovalEvent,
    to: RemovalView,
    r: Result<(), ErrorView>,
) -> bool {
    match (from.phase, event) {
        (RemovalPhase::Confirm, RemovalEvent::Found(found)) => {
            &&& r is Ok
            &&& is_confirmed(found@, from.asked, to.existing)
            &&& to == RemovalView {
                existing: to.existing,
                phase: after_search(from, to.existing),
                ..from
            }
        },
        (RemovalPhase::Copy, RemovalEvent::Done) => r is Ok && to == RemovalView {
            phase: RemovalPhase::Flag,
            ..from
        },
        (RemovalPhase::Flag, RemovalEvent::Done) => r is Ok && to == RemovalView {
            phase: RemovalPhase::Expunge,
            ..from
        },
        (RemovalPhase::Expunge, RemovalEvent::Done) => r is Ok && to == RemovalView {
            phase: RemovalPhase::Finished,
            ..from
        },
        (RemovalPhase::Sweep, RemovalEvent::Done) => r is Ok && to == RemovalView {
            phase: RemovalPhase::Finished,
            ..from
        },
        (RemovalPhase::Flag, RemovalEvent::Failed(e)) => to == from && r == Err::<(), ErrorView>(
            for_move(from, copied_text(), e@),
        ),
        (RemovalPhase::Flag, RemovalEvent::Broken(e)) => to == from && r == Err::<(), ErrorView>(
            for_move(from, flagging_text(), e@),
        ),
        (RemovalPhase::Expunge, RemovalEvent::Failed(e)) => expunge_failed(from, e@, to, r),
        (RemovalPhase::Expunge, RemovalEvent::Broken(e)) => expunge_failed(from, e@, to, r),
        (RemovalPhase::Sweep, RemovalEvent::Failed(e)) => to == from && r == Err::<(), ErrorView>(
            for_move(from, flagged_text(), e@),
        ),
        (RemovalPhase::Sweep, RemovalEvent::Broken(e)) => to == from && r == Err::<(), ErrorView>(
            for_move(from, flagged_text(), e@),
        ),
        (RemovalPhase::Finished, _) => r is Ok && to == from,
        (_, RemovalEvent::Failed(e)) => to == from && r == Err::<(), ErrorView>(e@),
        (_, RemovalEvent::Broken(e)) => to == from && r == Err::<(), ErrorView>(e@),
        _ => r is Ok && to == from,
    }
}

/// An expunge by UID failed: a lost connection is a failure; otherwise a plain
/// one follows where it is allowed.
pub open spec fn expunge_failed(
    from: RemovalView,
    e: ErrorView,
    to: RemovalView,
    r: Result<(), ErrorView>,
) -> bool {
    if connection_error(e.text) {
        to == from && r == Err::<(), ErrorView>(for_move(from, flagged_text(), e))
    } else if !from.sweeps {
        to == from && r == Err::<(), ErrorView>(
            for_move(from, flagged_text(), plain_error(refusal_text(e.text))),
        )
    } else {
        r is Ok && to == RemovalView { phase: RemovalPhase::Sweep, ..from }
    }
}

/// The value of a result.
pub open spec fn result_view(r: Result<(), ClientError>) -> Result<(), ErrorView> {
    match r {
        Ok(_) => Ok(()),
        Err(e) => Err(e@),
    }
}

impl Removal {
    /// Begins a removal.
    pub fn start(asked: Vec<u32>, target: Option<String>, sweeps: bool) -> (r: Removal)
        ensures
            r@ == (RemovalView {
                asked: asked@,
                target: opt_text(target),
                sweeps,
                existing: Seq::empty(),
                phase: if asked@.len() == 0 {
                    RemovalPhase::Finished
                } else {
                    RemovalPhase::Confirm
                },
            }),
    {
        let phase = if asked.len() == 0 {
            RemovalPhase::Finished
        } else {
            RemovalPhase::Confirm
        };
        Removal { asked, target, sweeps, existing: Vec::new(), phase }
    }

    /// What is asked of the server next.
    pub fn action(&self) -> (a: RemovalAction)
        ensures
            a@ == removal_action(self@),
    {
        match self.phase {
            RemovalPhase::Confirm => {
                let mut query = copy_of("UID ");
                let set = uid_set_string(self.asked.as_slice());
                query.append(set.as_str());
                RemovalAction::Search(query)
            },
            RemovalPhase::Copy => match &self.target {
                Some(target) => RemovalAction::Copy {
                    set: uid_set_string(self.existing.as_slice()),
                    target: copy_of(target.as_str()),
                },
                None => RemovalAction::Finished,
            },
            RemovalPhase::Flag => RemovalAction::Flag(uid_set_string(self.existing.as_slice())),
            RemovalPhase::Expunge => RemovalAction::Expunge(
                uid_set_string(self.existing.as_slice()),
            ),
            RemovalPhase::Sweep => RemovalAction::Sweep,
            RemovalPhase::Finished => RemovalAction::Finished,
        }
    }

    fn explained(&self, text: &str, e: ClientError) -> (out: ClientError)
        ensures
            out@ == for_move(self@, text@, e@),
    {
        if self.target.is_some() {
            e.context(copy_of(text))
        } else {
            e
        }
    }

    fn expunge_refused(&mut self, e: ClientError) -> (r: Result<(), ClientError>)
        requires
            old(self).phase == RemovalPhase::Expunge,
        ensures
            expunge_failed(old(self)@, e@, final(self)@, result_view(r)),
    {
        let text =
            "COPY + STORE succeeded but EXPUNGE failed — source messages are flagged \\Deleted; retry would duplicate in target. Investigate server state";
        if is_connection_error(e.text.as_str()) {
            return Err(self.explained(text, e));
        }
        if !self.sweeps {
            let clean = sanitize_external_str(e.text.as_str());
            let mut refusal = copy_of("UID EXPUNGE rejected by server (");
            refusal.append(clean.as_str());
            refusal.append(
                ") and allow_unsafe_expunge is false — refusing plain EXPUNGE to avoid collateral removal of concurrent clients' \\Deleted messages. Set `allow_unsafe_expunge = true` for this account if you trust the single-client assumption",
            );
            return Err(self.explained(text, ClientError::new(refusal)));
        }
        self.phase = RemovalPhase::Sweep;
        Ok(())
    }

    /// Takes an answer of the server.
    pub fn advance(&mut self, event: RemovalEvent) -> (r: Result<(), ClientError>)
        ensures
            removal_step(old(self)@, event, final(self)@, result_view(r)),
    {
        match (self.phase, event) {
            (RemovalPhase::Finished, _) => Ok(()),
            (RemovalPhase::Confirm, RemovalEvent::Found(found)) => {
                self.existing = confirmed_uids(found.as_slice(), self.asked.as_slice());
                self.phase = if self.existing.len() == 0 {
                    RemovalPhase::Finished
                } else if self.target.is_some() {
                    RemovalPhase::Copy
                } else {
                    RemovalPhase::Flag
                };
                Ok(())
            },
            (RemovalPhase::Copy, RemovalEvent::Done) => {
                self.phase = RemovalPhase::Flag;
                Ok(())
            },
            (RemovalPhase::Flag, RemovalEvent::Done) => {
                self.phase = RemovalPhase::Expunge;
                Ok(())
            },
            (RemovalPhase::Expunge, RemovalEvent::Done) => {
                self.phase = RemovalPhase::Finished;
                Ok(())
            },
            (RemovalPhase::Sweep, RemovalEvent::Done) => {
                self.phase = RemovalPhase::Finished;
                Ok(())
            },
            (RemovalPhase::Flag, RemovalEvent::Failed(e)) => Err(
                self.explained(
                    "COPY to target succeeded but \\Deleted-flag STORE on source failed — messages now exist in both folders; do NOT retry this move without re-listing the source folder",
                    e,
                ),
            ),
            (RemovalPhase::Flag, RemovalEvent::Broken(e)) => Err(
                self.explained(
                    "COPY + STORE submitted but response stream errored — source likely flagged \\Deleted; re-list source before retrying",
                    e,
                ),
            ),
            (RemovalPhase::Expunge, RemovalEvent::Failed(e)) => self.expunge_refused(e),
            (RemovalPhase::Expunge, RemovalEvent::Broken(e)) => self.expunge_refused(e),
            (RemovalPhase::Sweep, RemovalEvent::Failed(e)) => Err(
                self.explained(
                    "COPY + STORE succeeded but EXPUNGE failed — source messages are flagged \\Deleted; retry would duplicate in target. Investigate server state",
                    e,
                ),
            ),
            (RemovalPhase::Sweep, RemovalEvent::Broken(e)) => Err(
                self.explained(
                    "COPY + STORE succeeded but EXPUNGE failed — source messages are flagged \\Deleted; retry would duplicate in target. Investigate server state",
                    e,
                ),
            ),
            (_, RemovalEvent::Failed(e)) => Err(e),
            (_, RemovalEvent::Broken(e)) => Err(e),
            _ => Ok(()),
        }
    }
}

// ---------------------------------------------------------------------------
// Laws
// ---------------------------------------------------------------------------

/// What every removal keeps: from the copying on, there are messages to remove,
/// and they are among those that were asked for; and only a move copies.
pub open spec fn on_course(r: RemovalView) -> bool {
    &&& r.phase != RemovalPhase::Confirm && r.phase != RemovalPhase::Finished ==> r.existing.len()
        > 0
    &&& r.phase == RemovalPhase::Copy ==> r.target is Some
    &&& r.phase == RemovalPhase::Sweep ==> r.sweeps
    &&& rising(r.existing)
    &&& forall|u: u32| #[trigger] r.existing.contains(u) ==> r.asked.contains(u)
}

/// A removal stays on course, whatever the server answers: only messages that
/// were asked for and exist are touched, and nothing else is expunged unless the
/// account allows it.
pub proof fn removals_stay_on_course(
    from: RemovalView,
    event: RemovalEvent,
    to: RemovalView,
    r: Result<(), ErrorView>,
)
    requires
        on_course(from),
        removal_step(from, event, to, r),
    ensures
        on_course(to),
        to.asked == from.asked && to.target == from.target && to.sweeps == from.sweeps,
{
}

/// A move flags nothing as deleted that it has not copied: flagging follows the
/// copying alone.
pub proof fn moves_copy_before_they_delete(
    from: RemovalView,
    event: RemovalEvent,
    to: RemovalView,
    r: Result<(), ErrorView>,
)
    requires
        from.target is Some,
        from.phase != RemovalPhase::Flag,
        to.phase == RemovalPhase::Flag,
        removal_step(from, event, to, r),
    ensures
        from.phase == RemovalPhase::Copy,
        event is Done,
        to.existing == from.existing,
{
}

/// What is copied, flagged and expunged by number are exactly the messages that
/// were asked for and exist, and the copies go to the target of the move; only
/// the search names all that were asked for, and only where the account allows it
/// is anything expunged that was not named.
pub proof fn removals_touch_what_was_asked_for(r: RemovalView, u: u32)
    requires
        on_course(r),
        r.asked.len() > 0,
    ensures
        match removal_action(r) {
            RemovalActionView::Search(query) => {
                &&& r.phase == RemovalPhase::Confirm
                &&& exists|set: Seq<char>|
                    query == "UID "@ + set && (#[trigger] set_names(set, u) <==> r.asked.contains(u))
            },
            RemovalActionView::Copy { set, target } => {
                &&& r.target == Some(target)
                &&& set_names(set, u) <==> r.existing.contains(u)
                &&& set_names(set, u) ==> r.asked.contains(u)
            },
            RemovalActionView::Flag(set) => {
                &&& set_names(set, u) <==> r.existing.contains(u)
                &&& set_names(set, u) ==> r.asked.contains(u)
            },
            RemovalActionView::Expunge(set) => {
                &&& set_names(set, u) <==> r.existing.contains(u)
                &&& set_names(set, u) ==> r.asked.contains(u)
            },
            RemovalActionView::Sweep => r.sweeps,
            RemovalActionView::Finished => r.phase == RemovalPhase::Finished,
        },
{
    if r.phase == RemovalPhase::Confirm {
        uid_sets_read_back(r.asked, u);
        assert(set_names(uid_set(r.asked), u) <==> r.asked.contains(u));
    } else if r.existing.len() > 0 {
        uid_sets_read_back(r.existing, u);
    }
}

/// The steps that a phase is from the end.
pub open spec fn steps_left(p: RemovalPhase) -> nat {
    match p {
        RemovalPhase::Confirm => 5,
        RemovalPhase::Copy => 4,
        RemovalPhase::Flag => 3,
        RemovalPhase::Expunge => 2,
        RemovalPhase::Sweep => 1,
        RemovalPhase::Finished => 0,
    }
}

/// An answer to what was asked ends a removal, fails it or brings it nearer to
/// its end.
pub proof fn removals_end(
    from: RemovalView,
    event: RemovalEvent,
    to: RemovalView,
    r: Result<(), ErrorView>,
)
    requires
        from.phase != RemovalPhase::Finished,
        removal_step(from, event, to, r),
        from.phase == RemovalPhase::Confirm ==> !(event is Done),
        from.phase != RemovalPhase::Confirm ==> !(event is Found),
    ensures
        r is Err || steps_left(to.phase) < steps_left(from.phase),
{
}

} // verus!
