//! Saving a draft in place of another: the new version is stored first, and the
//! old one is deleted only afterwards.

use vstd::prelude::*;

use crate::imap_client::query::finds;
use crate::imap_client::query::Stored;
use crate::imap_client::removal::draft_query;
use crate::imap_client::thread::has_id;
use crate::imap_client::thread::header_term;
use crate::imap_client::thread::lemma_header_term;
use crate::imap_client::thread::lemma_lone_criterion;
use crate::imap_client::uids::newest_uid;
use crate::imap_client::util::message_id_from;
use crate::json::Json;
use crate::json::JsonView;
use crate::json::json_text;
use crate::text::copy_of;
use crate::text::opt_text;
use crate::tools::draft::finish_draft;
use crate::tools::draft::finished;
use crate::tools::draft::save_failed_text;
use crate::tools::error_json;
use crate::tools::error_view;

verus! {

/// Where the saving of a draft stands.
#[derive(Clone, Copy, Debug, PartialEq, Eq, Structural)]
pub enum SavingPhase {
    /// The new draft is to be stored.
    Store,
    /// The new draft is stored, and its number is looked for.
    Locate,
    /// The new draft is stored, and the old one is to be deleted.
    Delete,
    Finished,
}

/// The saving of a draft.
pub struct DraftSaving {
    /// The search for the new draft, where it has a message id.
    pub query: Option<String>,
    /// The draft that the new one replaces.
    pub replaces: Option<u32>,
    pub phase: SavingPhase,
    /// The new draft is stored.
    pub stored: bool,
    /// The number of the new draft, where it was found.
    pub uid: Option<u32>,
    /// Why the new draft could not be stored, where it could not.
    pub failure: Option<String>,
    /// What became of the old draft, where its deletion was tried.
    pub outcome: Option<Result<Vec<u32>, String>>,
}

/// The value of what became of an old draft.
pub open spec fn deletion_view(o: Option<Result<Vec<u32>, String>>) -> Option<
    Result<Seq<u32>, Seq<char>>,
> {
    match o {
        Some(Ok(gone)) => Some(Ok(gone@)),
        Some(Err(text)) => Some(Err(text@)),
        None => None,
    }
}

/// The value of the saving of a draft.
pub struct SavingView {
    pub query: Option<Seq<char>>,
    pub replaces: Option<u32>,
    pub phase: SavingPhase,
    pub stored: bool,
    pub uid: Option<u32>,
    pub failure: Option<Seq<char>>,
    pub outcome: Option<Result<Seq<u32>, Seq<char>>>,
}

impl View for DraftSaving {
    type V = SavingView;

    open spec fn view(&self) -> SavingView {
        SavingView {
            query: opt_text(self.query),
            replaces: self.replaces,
            phase: self.phase,
            stored: self.stored,
            uid: self.uid,
            failure: opt_text(self.failure),
            outcome: deletion_view(self.outcome),
        }
    }
}

/// What is asked of the server.
pub enum SavingAction {
    /// Store the message among the drafts.
    Store,
    /// Search the drafts.
    Locate(String),
    /// Delete a draft.
    Delete(u32),
    Finish,
}

/// The value of what is asked of the server.
pub enum SavingActionView {
    Store,
    Locate(Seq<char>),
    Delete(u32),
    Finish,
}

impl View for SavingAction {
    type V = SavingActionView;

    open spec fn view(&self) -> SavingActionView {
        match self {
            SavingAction::Store => SavingActionView::Store,
            SavingAction::Locate(query) => SavingActionView::Locate(query@),
            SavingAction::Delete(uid) => SavingActionView::Delete(*uid),
            SavingAction::Finish => SavingActionView::Finish,
        }
    }
}

/// What the server answers.
pub enum SavingEvent {
    Stored,
    /// The drafts that a search found.
    Found(Vec<u32>),
    /// The drafts that were deleted.
    Deleted(Vec<u32>),
    Failed(String),
}

/// The value of what the server answers.
pub enum SavingEventView {
    Stored,
    Found(Seq<u32>),
    Deleted(Seq<u32>),
    Failed(Seq<char>),
}

impl View for SavingEvent {
    type V = SavingEventView;

    open spec fn view(&self) -> SavingEventView {
        match self {
            SavingEvent::Stored => SavingEventView::Stored,
            SavingEvent::Found(l) => SavingEventView::Found(l@),
            SavingEvent::Deleted(l) => SavingEventView::Deleted(l@),
            SavingEvent::Failed(text) => SavingEventView::Failed(text@),
        }
    }
}

/// The saving of a message before anything is asked.
pub open spec fn saving_of(message: Seq<u8>, replaces: Option<u32>) -> SavingView {
    SavingView {
        query: match message_id_from(message, 0) {
            Some(id) => Some(header_term("Message-ID"@, id)),
            None => None,
        },
        replaces,
        phase: SavingPhase::Store,
        stored: false,
        uid: None,
        failure: None,
        outcome: None,
    }
}

/// What a saving asks next.
pub open spec fn saving_action(t: SavingView) -> SavingActionView {
    match (t.phase, t.query, t.replaces) {
        (SavingPhase::Store, _, _) => SavingActionView::Store,
        (SavingPhase::Locate, Some(query), _) => SavingActionView::Locate(query),
        (SavingPhase::Delete, _, Some(uid)) => SavingActionView::Delete(uid),
        _ => SavingActionView::Finish,
    }
}

/// What follows once nothing more can be learned of the new draft.
pub open spec fn after_locating(t: SavingView) -> SavingPhase {
    if t.replaces is Some {
        SavingPhase::Delete
    } else {
        SavingPhase::Finished
    }
}

/// What follows the storing.
pub open spec fn after_storing(t: SavingView) -> SavingPhase {
    if t.query is Some {
        SavingPhase::Locate
    } else {
        after_locating(t)
    }
}

/// The largest of the numbers, where there are any.
pub open spec fn is_newest(l: Seq<u32>, newest: Option<u32>) -> bool {
    match newest {
        Some(u) => l.contains(u) && forall|i: int| 0 <= i < l.len() ==> #[trigger] l[i] <= u,
        None => l.len() == 0,
    }
}

/// An answer of the server leads from one state to another. A draft that is
/// stored counts as saved, whether or not its number is found and whatever
/// becomes of the old one; an answer to something else changes nothing.
pub open spec fn saving_step(from: SavingView, event: SavingEventView, to: SavingView) -> bool {
    match (from.phase, event) {
        (SavingPhase::Store, SavingEventView::Stored) => to == (SavingView {
            stored: true,
            phase: after_storing(from),
            ..from
        }),
        (SavingPhase::Store, SavingEventView::Failed(text)) => to == (SavingView {
            failure: Some(text),
            phase: SavingPhase::Finished,
            ..from
        }),
        (SavingPhase::Locate, SavingEventView::Found(l)) => is_newest(l, to.uid) && to == (
        SavingView { uid: to.uid, phase: after_locating(from), ..from }),
        (SavingPhase::Locate, SavingEventView::Failed(_)) => to == (SavingView {
            phase: after_locating(from),
            ..from
        }),
        (SavingPhase::Delete, SavingEventView::Deleted(l)) => to == (SavingView {
            outcome: Some(Ok(l)),
            phase: SavingPhase::Finished,
            ..from
        }),
        (SavingPhase::Delete, SavingEventView::Failed(text)) => to == (SavingView {
            outcome: Some(Err(text)),
            phase: SavingPhase::Finished,
            ..from
        }),
        _ => to == from,
    }
}

/// What a saving that has come to its end is answered.
pub open spec fn saving_answer(t: SavingView, response: JsonView) -> JsonView {
    match t.failure {
        Some(reason) => error_view("Failed to save draft: "@ + reason),
        None => match response {
            JsonView::Obj(m) => JsonView::Obj(
                finished(
                    m,
                    t.uid,
                    match (t.replaces, t.outcome) {
                        (Some(uid), Some(outcome)) => Some((uid, outcome)),
                        _ => None,
                    },
                ),
            ),
            other => other,
        },
    }
}

impl DraftSaving {
    /// Begins to save a message.
    pub fn start(message: &[u8], replaces: Option<u32>) -> (t: DraftSaving)
        ensures
            t@ == saving_of(message@, replaces),
    {
        DraftSaving {
            query: draft_query(message),
            replaces,
            phase: SavingPhase::Store,
            stored: false,
            uid: None,
            failure: None,
            outcome: None,
        }
    }

    /// What is asked of the server next.
    pub fn action(&self) -> (a: SavingAction)
        ensures
            a@ == saving_action(self@),
    {
        match (self.phase, &self.query, self.replaces) {
            (SavingPhase::Store, _, _) => SavingAction::Store,
            (SavingPhase::Locate, Some(query), _) => SavingAction::Locate(copy_of(query.as_str())),
            (SavingPhase::Delete, _, Some(uid)) => SavingAction::Delete(uid),
            _ => SavingAction::Finish,
        }
    }

    fn go_on(&mut self)
        ensures
            final(self)@ == (SavingView { phase: after_locating(old(self)@), ..old(self)@ }),
    {
        self.phase = if self.replaces.is_some() {
            SavingPhase::Delete
        } else {
            SavingPhase::Finished
        };
    }

    /// Takes an answer of the server.
    pub fn advance(&mut self, event: SavingEvent)
        ensures
            saving_step(old(self)@, event@, final(self)@),
    {
        match (self.phase, event) {
            (SavingPhase::Store, SavingEvent::Stored) => {
                self.stored = true;
                if self.query.is_some() {
                    self.phase = SavingPhase::Locate;
                } else {
                    self.go_on();
                }
            },
            (SavingPhase::Store, SavingEvent::Failed(text)) => {
                self.failure = Some(text);
                self.phase = SavingPhase::Finished;
            },
            (SavingPhase::Locate, SavingEvent::Found(found)) => {
                self.uid = newest_uid(&found);
                self.go_on();
            },
            (SavingPhase::Locate, SavingEvent::Failed(_)) => {
                self.go_on();
            },
            (SavingPhase::Delete, SavingEvent::Deleted(gone)) => {
                self.outcome = Some(Ok(gone));
                self.phase = SavingPhase::Finished;
            },
            (SavingPhase::Delete, SavingEvent::Failed(text)) => {
                self.outcome = Some(Err(text));
                self.phase = SavingPhase::Finished;
            },
            _ => {},
        }
    }

    /// The answer: the error where the draft could not be stored, else the
    /// given response with the draft's number and what became of the old one.
    pub fn finish(self, response: Json) -> (out: String)
        ensures
            out@ == json_text(saving_answer(self@, response@)),
    {
        match self.failure {
            Some(reason) => error_json(save_failed_text(reason.as_str()).as_str()),
            None => {
                let replaced = match (self.replaces, self.outcome) {
                    (Some(uid), Some(outcome)) => Some((uid, outcome)),
                    _ => None,
                };
                finish_draft(response, self.uid, &replaced)
            },
        }
    }
}

// ---------------------------------------------------------------------------
// Laws
// ---------------------------------------------------------------------------

/// The number of a new draft is looked for by its own id: the server finds exactly
/// the messages that have it. A draft without an id is not looked for.
pub proof fn drafts_are_looked_for_by_their_id(
    message: Seq<u8>,
    replaces: Option<u32>,
    m: Stored,
)
    ensures
        match message_id_from(message, 0) {
            Some(id) => saving_of(message, replaces).query matches Some(query) && finds(query, m)
                == Some(has_id(m, id)),
            None => saving_of(message, replaces).query is None,
        },
        saving_of(message, replaces).replaces == replaces,
        saving_action(saving_of(message, replaces)) is Store,
{
    if let Some(id) = message_id_from(message, 0) {
        lemma_header_term("Message-ID"@, id, m);
        lemma_lone_criterion(header_term("Message-ID"@, id), m, has_id(m, id));
    }
}

/// What every saving keeps: nothing is looked for or deleted before the new
/// draft is stored, and a draft that is stored is no failure.
pub open spec fn saving_in_order(t: SavingView) -> bool {
    &&& t.phase == SavingPhase::Store ==> !t.stored
    &&& t.phase == SavingPhase::Locate || t.phase == SavingPhase::Delete ==> t.stored
    &&& t.phase == SavingPhase::Finished ==> t.stored == (t.failure is None)
    &&& t.stored ==> t.failure is None
    &&& t.failure is Some ==> t.phase == SavingPhase::Finished
    &&& t.outcome is Some ==> t.stored
}

/// A saving begins in order and stays so.
pub proof fn savings_stay_in_order(
    message: Seq<u8>,
    replaces: Option<u32>,
    from: SavingView,
    event: SavingEventView,
    to: SavingView,
)
    requires
        saving_in_order(from),
        saving_step(from, event, to),
    ensures
        saving_in_order(saving_of(message, replaces)),
        saving_in_order(to),
        to.replaces == from.replaces && to.query == from.query,
        from.stored ==> to.stored,
{
}

/// The states that a message goes through while it is saved, and the answers
/// that lead from each to the next.
pub open spec fn is_saving(
    message: Seq<u8>,
    replaces: Option<u32>,
    states: Seq<SavingView>,
    events: Seq<SavingEventView>,
) -> bool {
    &&& states.len() == events.len() + 1
    &&& states[0] == saving_of(message, replaces)
    &&& forall|k: int|
        0 <= k < events.len() ==> saving_step(states[k], #[trigger] events[k], states[k + 1])
}

proof fn lemma_stored_means_answered(
    message: Seq<u8>,
    replaces: Option<u32>,
    states: Seq<SavingView>,
    events: Seq<SavingEventView>,
    k: int,
)
    requires
        is_saving(message, replaces, states, events),
        0 <= k < states.len(),
    ensures
        saving_in_order(states[k]),
        states[k].replaces == replaces,
        states[k].stored ==> exists|j: int| 0 <= j < k && #[trigger] events[j] is Stored,
    decreases k,
{
    if k > 0 {
        lemma_stored_means_answered(message, replaces, states, events, k - 1);
        let event = events[k - 1];
        assert(saving_step(states[k - 1], event, states[k - 1 + 1]));
        savings_stay_in_order(message, replaces, states[k - 1], event, states[k]);
        if states[k - 1].stored {
            let j = choose|j: int| 0 <= j < k - 1 && #[trigger] events[j] is Stored;
            assert(events[j] is Stored);
        }
    }
}

/// The old draft is deleted only after the server has stored the new one: a
/// failure never leaves the user with neither version. Only the draft that was
/// to be replaced is deleted.
pub proof fn old_drafts_are_deleted_last(
    message: Seq<u8>,
    replaces: Option<u32>,
    states: Seq<SavingView>,
    events: Seq<SavingEventView>,
    k: int,
    uid: u32,
)
    requires
        is_saving(message, replaces, states, events),
        0 <= k < states.len(),
        saving_action(states[k]) == SavingActionView::Delete(uid),
    ensures
        exists|j: int| 0 <= j < k && #[trigger] events[j] is Stored,
        replaces == Some(uid),
{
    lemma_stored_means_answered(message, replaces, states, events, k);
}

/// Where the new draft cannot be stored, nothing more is asked, and the answer
/// is the error.
pub proof fn failed_saves_delete_nothing(
    from: SavingView,
    text: Seq<char>,
    to: SavingView,
    response: JsonView,
)
    requires
        from.phase == SavingPhase::Store,
        saving_step(from, SavingEventView::Failed(text), to),
    ensures
        saving_action(to) is Finish,
        saving_answer(to, response) == error_view("Failed to save draft: "@ + text),
{
}

/// A draft that is stored is answered as saved, though its number is not found
/// or the old draft cannot be deleted.
pub proof fn stored_drafts_are_successes(t: SavingView, m: Seq<(Seq<char>, JsonView)>)
    requires
        saving_in_order(t),
        t.stored,
    ensures
        saving_answer(t, JsonView::Obj(m)) == JsonView::Obj(
            finished(
                m,
                t.uid,
                match (t.replaces, t.outcome) {
                    (Some(uid), Some(outcome)) => Some((uid, outcome)),
                    _ => None,
                },
            ),
        ),
{
}

/// The steps that a phase is from the end.
pub open spec fn saving_steps_left(p: SavingPhase) -> nat {
    match p {
        SavingPhase::Store => 3,
        SavingPhase::Locate => 2,
        SavingPhase::Delete => 1,
        SavingPhase::Finished => 0,
    }
}

/// An answer to what was asked brings a saving nearer to its end.
pub proof fn savings_end(from: SavingView, event: SavingEventView, to: SavingView)
    requires
        from.phase != SavingPhase::Finished,
        saving_step(from, event, to),
        event is Failed || match from.phase {
            SavingPhase::Store => event is Stored,
            SavingPhase::Locate => event is Found,
            _ => event is Deleted,
        },
    ensures
        saving_steps_left(to.phase) < saving_steps_left(from.phase),
{
}

} // verus!
