//! Collecting a conversation: which searches are made, which messages are
//! fetched, and in which order they come out.

use vstd::prelude::*;
use vstd::utf8::is_ascii_chars;

use crate::email::EmailFull;
use crate::email::EmailView;
use crate::imap_client::fetch::Fetched;
use crate::imap_client::fetch::append_full_messages;
use crate::imap_client::fetch::flag_texts;
use crate::imap_client::fetch::mail_in;
use crate::imap_client::fetch::readable;
use crate::imap_client::folders::FolderRole;
use crate::imap_client::folders::find_folder_by_role;
use crate::imap_client::folders::has_role;
use crate::imap_client::order::distinct_messages;
use crate::imap_client::order::is_oldest_first;
use crate::imap_client::order::keep_distinct_messages;
use crate::imap_client::order::sort_oldest_first;
use crate::imap_client::query::finds;
use crate::imap_client::query::is_word;
use crate::imap_client::query::judged;
use crate::imap_client::query::judged_all;
use crate::imap_client::query::lemma_charset;
use crate::imap_client::query::lemma_header_criterion;
use crate::imap_client::query::lemma_keys;
use crate::imap_client::query::lemma_no_charset;
use crate::imap_client::query::lemma_or_chain;
use crate::imap_client::query::lemma_text_criterion;
use crate::imap_client::query::says;
use crate::imap_client::query::Field;
use crate::imap_client::query::Stored;
use crate::imap_client::uids::ascending;
use crate::imap_client::uids::lemma_sorted_length;
use crate::imap_client::uids::lemma_sorted_contains;
use crate::imap_client::uids::set_names;
use crate::imap_client::uids::sorted;
use crate::imap_client::uids::uid_set;
use crate::imap_client::uids::uid_set_string;
use crate::imap_client::uids::uid_sets_read_back;
use crate::imap_client::util::astring;
use crate::imap_client::util::build_or_criteria;
use crate::imap_client::util::clean_message_id;
use crate::imap_client::util::connection_error;
use crate::imap_client::util::imap_astring;
use crate::imap_client::util::imap_escaped;
use crate::imap_client::util::is_connection_error;
use crate::imap_client::util::or_chain;
use crate::imap_client::util::strip_email_prefixes;
use crate::imap_client::util::subject_kernel;
use crate::imap_client::util::trim_angles;
use crate::imap_client::util::without_controls;
use crate::text::copy_of;
use crate::text::opt_text;
use crate::text::same_text;
use crate::text::texts;

verus! {

/// The most references of a message that are searched for.
pub const MAX_REFERENCES: usize = 50;

/// The most messages of a conversation that are fetched from one folder.
pub const MAX_THREAD_UIDS: usize = 200;

/// A search by subject that finds as many messages is too broad.
pub const MAX_SUBJECT_MATCHES: usize = 20;

// ---------------------------------------------------------------------------
// Searches
// ---------------------------------------------------------------------------

/// A criterion on a header that holds a message id.
pub open spec fn header_term(header: Seq<char>, id: Seq<char>) -> Seq<char> {
    "HEADER "@ + header + " \""@ + imap_escaped(trim_angles(id)) + "\""@
}

/// Computes [`header_term`].
pub fn header_criterion(header: &str, id: &str) -> (out: String)
    ensures
        out@ == header_term(header@, id@),
{
    let clean = clean_message_id(id);
    let mut out = copy_of("HEADER ");
    out.append(header);
    out.append(" \"");
    out.append(clean.as_str());
    out.append("\"");
    out
}

/// The criteria for messages that answer a message.
pub open spec fn answers_terms(id: Seq<char>) -> Seq<Seq<char>> {
    seq![header_term("References"@, id), header_term("In-Reply-To"@, id)]
}

/// At most the first `n` of a list.
pub open spec fn at_most_first(l: Seq<Seq<char>>, n: nat) -> Seq<Seq<char>> {
    if l.len() > n {
        l.take(n as int)
    } else {
        l
    }
}

/// The criteria for messages that are related to a message: those that answer
/// it, those that it refers to, and the one that it answers.
pub open spec fn related_terms(e: EmailView) -> Seq<Seq<char>> {
    (match e.message_id {
        Some(id) => answers_terms(id),
        None => Seq::empty(),
    }) + at_most_first(e.references, MAX_REFERENCES as nat).map_values(
        |id: Seq<char>| header_term("Message-ID"@, id),
    ) + (match e.in_reply_to {
        Some(id) => seq![header_term("Message-ID"@, id)],
        None => Seq::empty(),
    })
}

/// The criteria for messages that answer one of several messages.
pub open spec fn sent_terms(initial: EmailView, messages: Seq<EmailView>) -> Seq<Seq<char>>
    decreases messages.len(),
{
    if messages.len() == 0 {
        match initial.message_id {
            Some(id) => answers_terms(id),
            None => Seq::empty(),
        }
    } else {
        sent_terms(initial, messages.drop_last()) + (match messages.last().message_id {
            Some(id) => answers_terms(id),
            None => Seq::empty(),
        })
    }
}

fn push_answers(parts: &mut Vec<String>, id: &Option<String>)
    ensures
        texts(final(parts)@) == texts(old(parts)@) + (match opt_text(*id) {
            Some(t) => answers_terms(t),
            None => Seq::empty(),
        }),
{
    let ghost before = texts(parts@);
    if let Some(t) = id {
        parts.push(header_criterion("References", t.as_str()));
        parts.push(header_criterion("In-Reply-To", t.as_str()));
    }
    proof {
        assert(texts(parts@) =~= before + (match opt_text(*id) {
            Some(t) => answers_terms(t),
            None => Seq::empty(),
        }));
    }
}

fn related_criteria(initial: &EmailFull) -> (parts: Vec<String>)
    ensures
        texts(parts@) == related_terms(initial@),
{
    let mut parts: Vec<String> = Vec::new();
    proof {
        assert(texts(parts@) =~= Seq::<Seq<char>>::empty());
    }
    push_answers(&mut parts, &initial.message_id);
    let ghost head = texts(parts@);
    let ghost all = initial@.references;
    let n: usize = if initial.references.len() > MAX_REFERENCES {
        MAX_REFERENCES
    } else {
        initial.references.len()
    };
    let ghost f = |id: Seq<char>| header_term("Message-ID"@, id);
    let mut i: usize = 0;
    proof {
        assert(head + all.take(0).map_values(f) =~= head);
        assert(at_most_first(all, MAX_REFERENCES as nat) =~= all.take(n as int));
    }
    while i < n
        invariant
            i <= n <= initial.references@.len(),
            all == initial@.references,
            f == |id: Seq<char>| header_term("Message-ID"@, id),
            texts(parts@) == head + all.take(i as int).map_values(f),
        decreases n - i,
    {
        let one = header_criterion("Message-ID", initial.references[i].as_str());
        let ghost before = texts(parts@);
        proof {
            assert(texts(parts@.push(one)) =~= before.push(one@));
            assert(all.take(i as int + 1).map_values(f) =~= all.take(i as int).map_values(f).push(
                one@,
            ));
            assert(before.push(one@) =~= head + all.take(i as int + 1).map_values(f));
        }
        parts.push(one);
        i += 1;
    }
    let ghost middle = texts(parts@);
    if let Some(id) = &initial.in_reply_to {
        let one = header_criterion("Message-ID", id.as_str());
        proof {
            assert(texts(parts@.push(one)) =~= middle + seq![one@]);
        }
        parts.push(one);
    } else {
        proof {
            assert(middle + Seq::<Seq<char>>::empty() =~= middle);
        }
    }
    parts
}

fn sent_criteria(initial: &EmailFull, messages: &Vec<EmailFull>) -> (parts: Vec<String>)
    ensures
        texts(parts@) == sent_terms(initial@, message_views(messages@)),
{
    let mut parts: Vec<String> = Vec::new();
    let ghost all = message_views(messages@);
    proof {
        assert(texts(parts@) =~= Seq::<Seq<char>>::empty());
    }
    push_answers(&mut parts, &initial.message_id);
    proof {
        assert(Seq::<Seq<char>>::empty() + sent_terms(initial@, all.take(0)) =~= sent_terms(
            initial@,
            all.take(0),
        ));
    }
    let mut i: usize = 0;
    while i < messages.len()
        invariant
            i <= messages@.len(),
            all == message_views(messages@),
            texts(parts@) == sent_terms(initial@, all.take(i as int)),
        decreases messages@.len() - i,
    {
        proof {
            assert(all.take(i as int + 1).drop_last() =~= all.take(i as int));
            assert(all.take(i as int + 1).last() == messages@[i as int]@);
        }
        push_answers(&mut parts, &messages[i].message_id);
        i += 1;
    }
    proof {
        assert(all.take(all.len() as int) =~= all);
    }
    parts
}

/// The search by subject, for mailers that leave out references; nothing where
/// nothing is left of the subject.
pub open spec fn subject_query(subject: Seq<char>) -> Option<Seq<char>> {
    let kernel = subject_kernel(subject);
    if kernel.len() == 0 {
        None
    } else if is_ascii_chars(kernel) {
        Some("SUBJECT "@ + astring(kernel))
    } else {
        Some("CHARSET UTF-8 SUBJECT "@ + astring(kernel))
    }
}

fn subject_criteria(subject: &str) -> (out: Option<String>)
    ensures
        opt_text(out) == subject_query(subject@),
{
    let kernel = strip_email_prefixes(subject);
    if kernel.as_str().is_empty() {
        return None;
    }
    let arg = imap_astring(kernel.as_str());
    let mut out = if kernel.as_str().is_ascii() {
        copy_of("SUBJECT ")
    } else {
        copy_of("CHARSET UTF-8 SUBJECT ")
    };
    out.append(arg.as_str());
    Some(out)
}

// ---------------------------------------------------------------------------
// Numbers
// ---------------------------------------------------------------------------

/// An ascending list without repeats of neighbours.
pub open spec fn deduped(s: Seq<u32>) -> Seq<u32>
    decreases s.len(),
{
    if s.len() == 0 {
        Seq::empty()
    } else {
        let head = deduped(s.drop_last());
        if head.len() > 0 && head.last() == s.last() {
            head
        } else {
            head.push(s.last())
        }
    }
}

/// The distinct numbers of two lists, in ascending order.
pub open spec fn joined_uids(a: Seq<u32>, b: Seq<u32>) -> Seq<u32> {
    deduped(ascending(a + b))
}

fn join_uids(a: &Vec<u32>, b: &Vec<u32>) -> (out: Vec<u32>)
    ensures
        out@ == joined_uids(a@, b@),
{
    let mut all: Vec<u32> = Vec::new();
    let mut i: usize = 0;
    while i < a.len()
        invariant
            i <= a@.len(),
            all@ == a@.take(i as int),
        decreases a@.len() - i,
    {
        all.push(a[i]);
        i += 1;
    }
    assert(a@.take(a@.len() as int) =~= a@);
    let mut i: usize = 0;
    while i < b.len()
        invariant
            i <= b@.len(),
            all@ == a@ + b@.take(i as int),
        decreases b@.len() - i,
    {
        proof {
            assert((a@ + b@.take(i as int)).push(b@[i as int]) =~= a@ + b@.take(i as int + 1));
        }
        all.push(b[i]);
        i += 1;
    }
    assert(b@.take(b@.len() as int) =~= b@);
    let up = sorted(all.as_slice());
    let mut out: Vec<u32> = Vec::new();
    let mut i: usize = 0;
    while i < up.len()
        invariant
            i <= up@.len(),
            out@ == deduped(up@.take(i as int)),
        decreases up@.len() - i,
    {
        proof {
            assert(up@.take(i as int + 1).drop_last() =~= up@.take(i as int));
            assert(up@.take(i as int + 1).last() == up@[i as int]);
        }
        let n: usize = out.len();
        if n == 0 || out[n - 1] != up[i] {
            out.push(up[i]);
        }
        i += 1;
    }
    assert(up@.take(up@.len() as int) =~= up@);
    out
}

/// At most the last `n` of a list.
pub open spec fn at_most_last(s: Seq<u32>, n: nat) -> Seq<u32> {
    if s.len() > n {
        s.skip(s.len() - n)
    } else {
        s
    }
}

fn newest_of(up: &Vec<u32>) -> (out: Vec<u32>)
    ensures
        out@ == at_most_last(up@, MAX_THREAD_UIDS as nat),
{
    let n: usize = up.len();
    let from: usize = if n > MAX_THREAD_UIDS {
        n - MAX_THREAD_UIDS
    } else {
        0
    };
    let mut out: Vec<u32> = Vec::new();
    let mut i: usize = from;
    while i < n
        invariant
            n == up@.len(),
            from <= i <= n,
            out@ == up@.subrange(from as int, i as int),
        decreases n - i,
    {
        proof {
            assert(up@.subrange(from as int, i + 1) =~= up@.subrange(from as int, i as int).push(
                up@[i as int],
            ));
        }
        out.push(up[i]);
        i += 1;
    }
    proof {
        assert(up@.subrange(from as int, n as int) =~= at_most_last(up@, MAX_THREAD_UIDS as nat));
    }
    out
}

// ---------------------------------------------------------------------------
// The collection
// ---------------------------------------------------------------------------

/// What is done next.
#[derive(Clone, Copy, Debug, PartialEq, Eq, Structural)]
pub enum ThreadPhase {
    /// Search the folder for related messages.
    Related,
    /// Search the folder by subject.
    Subject,
    /// Fetch the messages that were found.
    Messages,
    /// List the folders, to find the one for sent mail.
    Folders,
    /// Search sent mail for answers.
    SentSearch,
    /// Fetch the answers that were found.
    SentMessages,
    Done,
}

/// A conversation that is being collected.
pub struct ThreadSearch {
    pub folder: String,
    pub strict: bool,
    /// The message that the request names.
    pub initial: EmailFull,
    /// The messages of the folder that belong to the conversation.
    pub uids: Vec<u32>,
    /// The folder for sent mail.
    pub sent: String,
    pub sent_uids: Vec<u32>,
    /// The messages that were fetched.
    pub messages: Vec<EmailFull>,
    pub phase: ThreadPhase,
}

/// The values of a list of messages.
pub open spec fn message_views(l: Seq<EmailFull>) -> Seq<EmailView> {
    l.map_values(|e: EmailFull| e@)
}

/// The value of a conversation that is being collected.
pub struct ThreadView {
    pub folder: Seq<char>,
    pub strict: bool,
    pub initial: EmailView,
    pub uids: Seq<u32>,
    pub sent: Seq<char>,
    pub sent_uids: Seq<u32>,
    pub messages: Seq<EmailView>,
    pub phase: ThreadPhase,
}

impl View for ThreadSearch {
    type V = ThreadView;

    open spec fn view(&self) -> ThreadView {
        ThreadView {
            folder: self.folder@,
            strict: self.strict,
            initial: self.initial@,
            uids: self.uids@,
            sent: self.sent@,
            sent_uids: self.sent_uids@,
            messages: message_views(self.messages@),
            phase: self.phase,
        }
    }
}

/// What the server is asked.
pub enum ThreadAction {
    Search { folder: String, criteria: String },
    Fetch { folder: String, set: String },
    ListFolders,
    Finish,
}

/// The value of what the server is asked.
pub enum ActionView {
    Search { folder: Seq<char>, criteria: Seq<char> },
    Fetch { folder: Seq<char>, set: Seq<char> },
    ListFolders,
    Finish,
}

impl View for ThreadAction {
    type V = ActionView;

    open spec fn view(&self) -> ActionView {
        match self {
            ThreadAction::Search { folder, criteria } => ActionView::Search {
                folder: folder@,
                criteria: criteria@,
            },
            ThreadAction::Fetch { folder, set } => ActionView::Fetch { folder: folder@, set: set@ },
            ThreadAction::ListFolders => ActionView::ListFolders,
            ThreadAction::Finish => ActionView::Finish,
        }
    }
}

/// What the server answers.
pub enum ThreadEvent {
    /// A search found these messages.
    Found(Vec<u32>),
    /// These messages were sent.
    Sent(Vec<Fetched>),
    /// These folders may be used.
    Folders(Vec<String>),
    /// The request failed.
    Failed(String),
}

/// The value of what the server answers.
pub enum EventView {
    Found(Seq<u32>),
    Sent(Seq<Fetched>),
    Folders(Seq<Seq<char>>),
    Failed(Seq<char>),
}

impl View for ThreadEvent {
    type V = EventView;

    open spec fn view(&self) -> EventView {
        match self {
            ThreadEvent::Found(l) => EventView::Found(l@),
            ThreadEvent::Sent(l) => EventView::Sent(l@),
            ThreadEvent::Folders(l) => EventView::Folders(texts(l@)),
            ThreadEvent::Failed(m) => EventView::Failed(m@),
        }
    }
}

/// The conversation is also searched by subject: only where that is asked for,
/// little was found, and something is left of the subject.
pub open spec fn wants_subject(t: ThreadView) -> bool {
    !t.strict && t.uids.len() <= 2 && subject_query(t.initial.subject) is Some
}

/// The phase that follows the search for related messages.
pub open spec fn after_related(t: ThreadView) -> ThreadPhase {
    if wants_subject(t) {
        ThreadPhase::Subject
    } else {
        ThreadPhase::Messages
    }
}

/// A collection at its beginning: with the message that the request names, and
/// at the first phase that there is something to do in.
pub open spec fn started(folder: Seq<char>, uid: u32, strict: bool, initial: EmailView) -> ThreadView {
    let t = ThreadView {
        folder,
        strict,
        initial,
        uids: seq![uid],
        sent: Seq::empty(),
        sent_uids: Seq::empty(),
        messages: Seq::empty(),
        phase: ThreadPhase::Related,
    };
    if related_terms(initial).len() == 0 {
        ThreadView { phase: after_related(t), ..t }
    } else {
        t
    }
}

/// What is asked in a phase.
pub open spec fn action_of(t: ThreadView) -> ActionView {
    match t.phase {
        ThreadPhase::Related => ActionView::Search {
            folder: t.folder,
            criteria: or_chain(related_terms(t.initial)),
        },
        ThreadPhase::Subject => ActionView::Search {
            folder: t.folder,
            criteria: match subject_query(t.initial.subject) {
                Some(q) => q,
                None => Seq::empty(),
            },
        },
        ThreadPhase::Messages => ActionView::Fetch {
            folder: t.folder,
            set: uid_set(at_most_last(t.uids, MAX_THREAD_UIDS as nat)),
        },
        ThreadPhase::Folders => ActionView::ListFolders,
        ThreadPhase::SentSearch => ActionView::Search {
            folder: t.sent,
            criteria: or_chain(sent_terms(t.initial, t.messages)),
        },
        ThreadPhase::SentMessages => ActionView::Fetch {
            folder: t.sent,
            set: uid_set(t.sent_uids),
        },
        ThreadPhase::Done => ActionView::Finish,
    }
}

/// The messages that the server sent, as they are reported.
pub open spec fn fetched_messages(l: Seq<Fetched>, folder: Seq<char>) -> Seq<EmailView> {
    readable(l).map_values(|f: Fetched| mail_in(f, f.uid->0, folder, true))
}

/// The first folder for sent mail, where there is one.
pub open spec fn sent_folder(names: Seq<Seq<char>>, i: int) -> Option<Seq<char>>
    decreases names.len() - i,
{
    if i < 0 || i >= names.len() {
        None
    } else if has_role(names[i], FolderRole::Sent) {
        Some(names[i])
    } else {
        sent_folder(names, i + 1)
    }
}

/// The collection after an answer, or the failure that ends it. A broken
/// connection always ends it. Otherwise a failed search, and a failure in sent
/// mail, leave the collection with what it has. An answer to something that was
/// not asked changes nothing.
pub open spec fn advanced(t: ThreadView, e: EventView) -> Result<ThreadView, Seq<char>> {
    match (t.phase, e) {
        (ThreadPhase::Related, EventView::Found(l)) => {
            let next = ThreadView { uids: joined_uids(t.uids, l), ..t };
            Ok(ThreadView { phase: after_related(next), ..next })
        },
        (ThreadPhase::Related, EventView::Failed(m)) => if connection_error(m) {
            Err(m)
        } else {
            Ok(ThreadView { phase: after_related(t), ..t })
        },
        (ThreadPhase::Subject, EventView::Found(l)) => if l.len() < MAX_SUBJECT_MATCHES {
            Ok(
                ThreadView {
                    uids: joined_uids(t.uids, l),
                    phase: ThreadPhase::Messages,
                    ..t
                },
            )
        } else {
            Ok(ThreadView { phase: ThreadPhase::Messages, ..t })
        },
        (ThreadPhase::Subject, EventView::Failed(m)) => if connection_error(m) {
            Err(m)
        } else {
            Ok(ThreadView { phase: ThreadPhase::Messages, ..t })
        },
        (ThreadPhase::Messages, EventView::Sent(l)) => Ok(
            ThreadView {
                messages: t.messages + fetched_messages(l, t.folder),
                phase: ThreadPhase::Folders,
                ..t
            },
        ),
        (ThreadPhase::Messages, EventView::Failed(m)) => Err(m),
        (ThreadPhase::Folders, EventView::Folders(names)) => match sent_folder(names, 0) {
            Some(s) => if s != t.folder && sent_terms(t.initial, t.messages).len() > 0 {
                Ok(ThreadView { sent: s, phase: ThreadPhase::SentSearch, ..t })
            } else {
                Ok(ThreadView { phase: ThreadPhase::Done, ..t })
            },
            None => Ok(ThreadView { phase: ThreadPhase::Done, ..t }),
        },
        (ThreadPhase::Folders, EventView::Failed(m)) => Err(m),
        (ThreadPhase::SentSearch, EventView::Found(l)) => if l.len() == 0 {
            Ok(ThreadView { phase: ThreadPhase::Done, ..t })
        } else {
            Ok(
                ThreadView {
                    sent_uids: at_most_last(ascending(l), MAX_THREAD_UIDS as nat),
                    phase: ThreadPhase::SentMessages,
                    ..t
                },
            )
        },
        (ThreadPhase::SentSearch, EventView::Failed(m)) => if connection_error(m) {
            Err(m)
        } else {
            Ok(ThreadView { phase: ThreadPhase::Done, ..t })
        },
        (ThreadPhase::SentMessages, EventView::Sent(l)) => Ok(
            ThreadView {
                messages: t.messages + fetched_messages(l, t.sent),
                phase: ThreadPhase::Done,
                ..t
            },
        ),
        (ThreadPhase::SentMessages, EventView::Failed(m)) => if connection_error(m) {
            Err(m)
        } else {
            Ok(ThreadView { phase: ThreadPhase::Done, ..t })
        },
        _ => Ok(t),
    }
}

fn append_fetched(messages: &mut Vec<EmailFull>, l: &Vec<Fetched>, folder: &str)
    ensures
        message_views(final(messages)@) == message_views(old(messages)@) + fetched_messages(
            l@,
            folder@,
        ),
{
    let ghost before = messages@;
    append_full_messages(messages, l, folder);
    proof {
        let after = messages@;
        assert forall|i: int| 0 <= i < after.len() implies message_views(after)[i] == (
        message_views(before) + fetched_messages(l@, folder@))[i] by {
            if i < before.len() {
                assert(after[i] == before[i]);
            } else {
                assert(after[before.len() + (i - before.len())] == after[i]);
            }
        }
        assert(message_views(after) =~= message_views(before) + fetched_messages(l@, folder@));
    }
}

proof fn lemma_sent_folder(names: Seq<Seq<char>>, from: int, i: int)
    requires
        0 <= from <= i < names.len(),
        has_role(names[i], FolderRole::Sent),
        forall|j: int| from <= j < i ==> !has_role(#[trigger] names[j], FolderRole::Sent),
    ensures
        sent_folder(names, from) == Some(names[i]),
    decreases i - from,
{
    if from < i {
        lemma_sent_folder(names, from + 1, i);
    }
}

proof fn lemma_no_sent_folder(names: Seq<Seq<char>>, from: int)
    requires
        0 <= from,
        forall|j: int| from <= j < names.len() ==> !has_role(#[trigger] names[j], FolderRole::Sent),
    ensures
        sent_folder(names, from) is None,
    decreases names.len() - from,
{
    if from < names.len() {
        lemma_no_sent_folder(names, from + 1);
    }
}

fn find_sent(names: &Vec<String>) -> (out: Option<String>)
    ensures
        opt_text(out) == sent_folder(texts(names@), 0),
{
    let out = find_folder_by_role(names, FolderRole::Sent);
    proof {
        let all = texts(names@);
        match &out {
            Some(f) => {
                let i = choose|i: int|
                    {
                        &&& 0 <= i < names@.len()
                        &&& (#[trigger] names@[i])@ == f@
                        &&& has_role(f@, FolderRole::Sent)
                        &&& forall|j: int|
                            0 <= j < i ==> !has_role((#[trigger] names@[j])@, FolderRole::Sent)
                    };
                assert forall|j: int| 0 <= j < i implies !has_role(
                    #[trigger] all[j],
                    FolderRole::Sent,
                ) by {
                    assert(all[j] == names@[j]@);
                }
                lemma_sent_folder(all, 0, i);
            },
            None => {
                assert forall|j: int| 0 <= j < all.len() implies !has_role(
                    #[trigger] all[j],
                    FolderRole::Sent,
                ) by {
                    assert(all[j] == names@[j]@);
                }
                lemma_no_sent_folder(all, 0);
            },
        }
    }
    out
}

impl ThreadSearch {
    fn phase_after_related(&self) -> (p: ThreadPhase)
        ensures
            p == after_related(self@),
    {
        if !self.strict && self.uids.len() <= 2 && subject_criteria(
            self.initial.subject.as_str(),
        ).is_some() {
            ThreadPhase::Subject
        } else {
            ThreadPhase::Messages
        }
    }

    /// Begins to collect the conversation of a message that was fetched.
    pub fn start(folder: &str, uid: u32, strict: bool, initial: EmailFull) -> (t: ThreadSearch)
        ensures
            t@ == started(folder@, uid, strict, initial@),
    {
        let related = related_criteria(&initial);
        let mut uids: Vec<u32> = Vec::new();
        uids.push(uid);
        let none: Vec<EmailFull> = Vec::new();
        let mut t = ThreadSearch {
            folder: copy_of(folder),
            strict,
            initial,
            uids,
            sent: String::new(),
            sent_uids: Vec::new(),
            messages: none,
            phase: ThreadPhase::Related,
        };
        proof {
            assert(message_views(none@) =~= Seq::<EmailView>::empty());
            assert(uids@ =~= seq![uid]);
            assert(t.sent@ =~= Seq::<char>::empty());
            assert(t.sent_uids@ =~= Seq::<u32>::empty());
            assert(texts(related@).len() == related@.len());
        }
        if related.len() == 0 {
            t.phase = t.phase_after_related();
        }
        t
    }

    /// What the server is asked next.
    pub fn action(&self) -> (a: ThreadAction)
        ensures
            a@ == action_of(self@),
    {
        match self.phase {
            ThreadPhase::Related => {
                let parts = related_criteria(&self.initial);
                ThreadAction::Search {
                    folder: copy_of(self.folder.as_str()),
                    criteria: any_of(&parts),
                }
            },
            ThreadPhase::Subject => ThreadAction::Search {
                folder: copy_of(self.folder.as_str()),
                criteria: match subject_criteria(self.initial.subject.as_str()) {
                    Some(q) => q,
                    None => String::new(),
                },
            },
            ThreadPhase::Messages => {
                let newest = newest_of(&self.uids);
                ThreadAction::Fetch {
                    folder: copy_of(self.folder.as_str()),
                    set: uid_set_string(newest.as_slice()),
                }
            },
            ThreadPhase::Folders => ThreadAction::ListFolders,
            ThreadPhase::SentSearch => {
                let parts = sent_criteria(&self.initial, &self.messages);
                ThreadAction::Search {
                    folder: copy_of(self.sent.as_str()),
                    criteria: any_of(&parts),
                }
            },
            ThreadPhase::SentMessages => ThreadAction::Fetch {
                folder: copy_of(self.sent.as_str()),
                set: uid_set_string(self.sent_uids.as_slice()),
            },
            ThreadPhase::Done => ThreadAction::Finish,
        }
    }

    /// Goes on with what the server answered.
    pub fn advance(&mut self, event: ThreadEvent) -> (r: Result<(), String>)
        ensures
            match advanced(old(self)@, event@) {
                Ok(next) => r is Ok && final(self)@ == next,
                Err(m) => r is Err && r->Err_0@ == m && final(self)@ == old(self)@,
            },
    {
        match (self.phase, event) {
            (ThreadPhase::Related, ThreadEvent::Found(l)) => {
                self.uids = join_uids(&self.uids, &l);
                self.phase = self.phase_after_related();
            },
            (ThreadPhase::Related, ThreadEvent::Failed(m)) => {
                if is_connection_error(m.as_str()) {
                    return Err(m);
                }
                self.phase = self.phase_after_related();
            },
            (ThreadPhase::Subject, ThreadEvent::Found(l)) => {
                if l.len() < MAX_SUBJECT_MATCHES {
                    self.uids = join_uids(&self.uids, &l);
                }
                self.phase = ThreadPhase::Messages;
            },
            (ThreadPhase::Subject, ThreadEvent::Failed(m)) => {
                if is_connection_error(m.as_str()) {
                    return Err(m);
                }
                self.phase = ThreadPhase::Messages;
            },
            (ThreadPhase::Messages, ThreadEvent::Sent(l)) => {
                append_fetched(&mut self.messages, &l, self.folder.as_str());
                self.phase = ThreadPhase::Folders;
            },
            (ThreadPhase::Messages, ThreadEvent::Failed(m)) => {
                return Err(m);
            },
            (ThreadPhase::Folders, ThreadEvent::Folders(names)) => {
                self.phase = ThreadPhase::Done;
                if let Some(s) = find_sent(&names) {
                    let parts = sent_criteria(&self.initial, &self.messages);
                    proof {
                        assert(texts(parts@).len() == parts@.len());
                    }
                    if !same_text(s.as_str(), self.folder.as_str()) && parts.len() > 0 {
                        self.sent = s;
                        self.phase = ThreadPhase::SentSearch;
                    }
                }
            },
            (ThreadPhase::Folders, ThreadEvent::Failed(m)) => {
                return Err(m);
            },
            (ThreadPhase::SentSearch, ThreadEvent::Found(l)) => {
                if l.len() == 0 {
                    self.phase = ThreadPhase::Done;
                } else {
                    let up = sorted(l.as_slice());
                    self.sent_uids = newest_of(&up);
                    self.phase = ThreadPhase::SentMessages;
                }
            },
            (ThreadPhase::SentSearch, ThreadEvent::Failed(m)) => {
                if is_connection_error(m.as_str()) {
                    return Err(m);
                }
                self.phase = ThreadPhase::Done;
            },
            (ThreadPhase::SentMessages, ThreadEvent::Sent(l)) => {
                append_fetched(&mut self.messages, &l, self.sent.as_str());
                self.phase = ThreadPhase::Done;
            },
            (ThreadPhase::SentMessages, ThreadEvent::Failed(m)) => {
                if is_connection_error(m.as_str()) {
                    return Err(m);
                }
                self.phase = ThreadPhase::Done;
            },
            _ => {},
        }
        Ok(())
    }

    /// The conversation: each message once, the oldest first.
    pub fn finish(self) -> (out: Vec<EmailFull>)
        ensures
            is_oldest_first(distinct_messages(self.messages@), out@),
    {
        let mut out = keep_distinct_messages(self.messages);
        sort_oldest_first(&mut out);
        out
    }
}

fn any_of(parts: &Vec<String>) -> (out: String)
    ensures
        out@ == or_chain(texts(parts@)),
{
    proof {
        assert(texts(parts@).len() == parts@.len());
    }
    match build_or_criteria(parts) {
        Some(c) => c,
        None => String::new(),
    }
}

// ---------------------------------------------------------------------------
// Laws
// ---------------------------------------------------------------------------

/// How many phases lie ahead at most.
pub open spec fn phases_left(p: ThreadPhase) -> nat {
    match p {
        ThreadPhase::Related => 6,
        ThreadPhase::Subject => 5,
        ThreadPhase::Messages => 4,
        ThreadPhase::Folders => 3,
        ThreadPhase::SentSearch => 2,
        ThreadPhase::SentMessages => 1,
        ThreadPhase::Done => 0,
    }
}

/// An answer to what was asked: the kind that the action expects, or a failure.
pub open spec fn answers(t: ThreadView, e: EventView) -> bool {
    match (action_of(t), e) {
        (ActionView::Finish, _) => false,
        (_, EventView::Failed(_)) => true,
        (ActionView::Search { .. }, EventView::Found(_)) => true,
        (ActionView::Fetch { .. }, EventView::Sent(_)) => true,
        (ActionView::ListFolders, EventView::Folders(_)) => true,
        _ => false,
    }
}

/// Every answer brings the collection nearer to its end, so that it takes at
/// most six requests; what was fetched is never lost on the way, and the
/// conversation keeps to the folder, the message and the mode that it began
/// with.
pub proof fn collections_end(t: ThreadView, e: EventView)
    requires
        answers(t, e),
    ensures
        advanced(t, e) matches Ok(next) ==> phases_left(next.phase) < phases_left(t.phase)
            && t.messages.is_prefix_of(next.messages) && next.folder == t.folder && next.initial
            == t.initial && next.strict == t.strict,
{
    if let Ok(next) = advanced(t, e) {
        assert(next.messages.take(t.messages.len() as int) =~= t.messages);
    }
}

/// A strict collection never searches by subject.
pub proof fn strict_collections_ignore_subjects(t: ThreadView, e: EventView)
    requires
        t.strict,
        t.phase != ThreadPhase::Subject,
    ensures
        advanced(t, e) matches Ok(next) ==> next.phase != ThreadPhase::Subject,
{
}

proof fn lemma_deduped_subset(s: Seq<u32>, u: u32)
    ensures
        deduped(s).contains(u) <==> s.contains(u),
    decreases s.len(),
{
    if s.len() > 0 {
        let front = s.drop_last();
        let head = deduped(front);
        let d = deduped(s);
        lemma_deduped_subset(front, u);
        if s.contains(u) {
            let k = choose|k: int| 0 <= k < s.len() && s[k] == u;
            if k < front.len() {
                assert(front[k] == u);
                let i = choose|i: int| 0 <= i < head.len() && head[i] == u;
                assert(d[i] == u);
            } else if head.len() > 0 && head.last() == s.last() {
                assert(d[head.len() - 1] == u);
            } else {
                assert(d[head.len() as int] == u);
            }
        }
        if d.contains(u) {
            let k = choose|k: int| 0 <= k < d.len() && d[k] == u;
            if k < head.len() {
                assert(head[k] == u);
                let i = choose|i: int| 0 <= i < front.len() && front[i] == u;
                assert(s[i] == u);
            } else {
                assert(s[s.len() - 1] == u);
            }
        }
    }
}

/// The message that the request names stays in the conversation, whatever the
/// searches find.
pub proof fn joining_keeps_everything(a: Seq<u32>, b: Seq<u32>, u: u32)
    ensures
        joined_uids(a, b).contains(u) <==> a.contains(u) || b.contains(u),
{
    lemma_sorted_contains(a + b);
    lemma_deduped_subset(ascending(a + b), u);
    assert(ascending(a + b).contains(u) <==> (a + b).contains(u));
    if a.contains(u) {
        let k = choose|k: int| 0 <= k < a.len() && a[k] == u;
        assert((a + b)[k] == u);
    }
    if b.contains(u) {
        let k = choose|k: int| 0 <= k < b.len() && b[k] == u;
        assert((a + b)[a.len() + k] == u);
    }
    if (a + b).contains(u) {
        let k = choose|k: int| 0 <= k < (a + b).len() && (a + b)[k] == u;
        if k < a.len() {
            assert(a[k] == u);
        } else {
            assert(b[k - a.len()] == u);
        }
    }
}

/// What a search finds joins the conversation, and nothing else does: related
/// messages always, messages of the same subject only where they are few. A search
/// that fails adds nothing, and ends the collection only with the connection.
pub proof fn found_messages_join_the_conversation(t: ThreadView, e: EventView, u: u32)
    requires
        t.phase == ThreadPhase::Related || t.phase == ThreadPhase::Subject,
    ensures
        e matches EventView::Found(l) ==> (advanced(t, e) matches Ok(next) && (
        next.uids.contains(u) <==> t.uids.contains(u) || (l.contains(u) && (t.phase
            == ThreadPhase::Related || l.len() < 20)))),
        e matches EventView::Failed(m) ==> match advanced(t, e) {
            Ok(next) => !connection_error(m) && next.uids == t.uids && next.phase != t.phase,
            Err(text) => connection_error(m) && text == m,
        },
{
    if let EventView::Found(l) = e {
        joining_keeps_everything(t.uids, l, u);
    }
}

/// What is fetched are the messages of the conversation, from its own folder, and
/// the answers that were found in the folder for sent mail, from there; of very
/// many, the newest.
pub proof fn found_messages_are_fetched(t: ThreadView, u: u32)
    ensures
        t.phase == ThreadPhase::Messages && t.uids.len() > 0 ==> (action_of(
            t,
        ) matches ActionView::Fetch { folder, set } && folder == t.folder && (set_names(set, u)
            ==> t.uids.contains(u)) && (t.uids.len() <= 200 ==> (t.uids.contains(u)
            ==> set_names(set, u))) && set_names(set, t.uids.last())),
        t.phase == ThreadPhase::SentMessages && t.sent_uids.len() > 0 ==> (action_of(
            t,
        ) matches ActionView::Fetch { folder, set } && folder == t.sent && (set_names(set, u)
            <==> t.sent_uids.contains(u))),
{
    if t.phase == ThreadPhase::Messages && t.uids.len() > 0 {
        let part = at_most_last(t.uids, MAX_THREAD_UIDS as nat);
        uid_sets_read_back(part, u);
        uid_sets_read_back(part, t.uids.last());
        assert(part[part.len() - 1] == t.uids.last());
        if part.contains(u) {
            let k = choose|k: int| 0 <= k < part.len() && part[k] == u;
            assert(t.uids[t.uids.len() - part.len() + k] == u);
        }
    }
    if t.phase == ThreadPhase::SentMessages && t.sent_uids.len() > 0 {
        uid_sets_read_back(t.sent_uids, u);
    }
}

/// The folder for sent mail is one that the server lists, the first with that
/// role, and another than the conversation's own. What a search in it finds is
/// fetched from there.
pub proof fn answers_are_looked_for_in_sent_mail(
    t: ThreadView,
    names: Seq<Seq<char>>,
    l: Seq<u32>,
    u: u32,
)
    ensures
        t.phase == ThreadPhase::Folders ==> (advanced(t, EventView::Folders(names)) matches Ok(
            next,
        ) && (next.phase == ThreadPhase::SentSearch ==> names.contains(next.sent) && has_role(
            next.sent,
            FolderRole::Sent,
        ) && next.sent != t.folder && action_of(next)->Search_folder == next.sent) && (next.phase
            != ThreadPhase::SentSearch ==> next.phase == ThreadPhase::Done)),
        t.phase == ThreadPhase::SentSearch ==> (advanced(t, EventView::Found(l)) matches Ok(next)
            && next.sent == t.sent && (next.phase == ThreadPhase::SentMessages <==> l.len() > 0) && (
        l.len() > 0 && next.sent_uids.contains(u) ==> l.contains(u)) && (0 < l.len() <= 200
            && l.contains(u) ==> next.sent_uids.contains(u))),
{
    if t.phase == ThreadPhase::Folders {
        lemma_sent_folder_is_listed(names, 0);
    }
    if t.phase == ThreadPhase::SentSearch && l.len() > 0 {
        let up = ascending(l);
        let part = at_most_last(up, MAX_THREAD_UIDS as nat);
        lemma_sorted_contains(l);
        lemma_sorted_length(l);
        if part.contains(u) {
            let k = choose|k: int| 0 <= k < part.len() && part[k] == u;
            assert(up[up.len() - part.len() + k] == u);
            assert(up.contains(u));
        }
        if l.contains(u) {
            assert(up.contains(u));
        }
    }
}

proof fn lemma_sent_folder_is_listed(names: Seq<Seq<char>>, i: int)
    requires
        0 <= i,
    ensures
        sent_folder(names, i) matches Some(s) ==> names.contains(s) && has_role(s, FolderRole::Sent),
    decreases names.len() - i,
{
    if i < names.len() && !has_role(names[i], FolderRole::Sent) {
        lemma_sent_folder_is_listed(names, i + 1);
    }
}

/// The messages that the server sends are added to the conversation in order,
/// under their own numbers and the folder that they were fetched from.
pub proof fn fetched_messages_are_added(t: ThreadView, l: Seq<Fetched>, k: int)
    requires
        t.phase == ThreadPhase::Messages || t.phase == ThreadPhase::SentMessages,
        0 <= k < readable(l).len(),
    ensures
        advanced(t, EventView::Sent(l)) matches Ok(next) && next.messages.len() == t.messages.len()
            + readable(l).len() && next.messages[t.messages.len() + k].folder == (if t.phase
            == ThreadPhase::Messages {
            t.folder
        } else {
            t.sent
        }) && next.messages[t.messages.len() + k].uid == readable(l)[k].uid->0
            && next.messages[t.messages.len() + k].flags == flag_texts(readable(l)[k].flags@),
{
}

// ---------------------------------------------------------------------------
// What the searches find
// ---------------------------------------------------------------------------

/// What a search for a message id looks for: the id without its angle brackets
/// and without control characters.
pub open spec fn sought_id(id: Seq<char>) -> Seq<char> {
    without_controls(trim_angles(id))
}

/// A message on the server answers a message with an id: it refers to the id, or
/// replies to it.
pub open spec fn answers_id(m: Stored, id: Seq<char>) -> bool {
    ||| (m.has)(Field::Header("References"@), sought_id(id))
    ||| (m.has)(Field::Header("In-Reply-To"@), sought_id(id))
}

/// A message on the server has an id.
pub open spec fn has_id(m: Stored, id: Seq<char>) -> bool {
    (m.has)(Field::Header("Message-ID"@), sought_id(id))
}

/// A message on the server is related to a message: it answers it, it is one of
/// the first fifty that the message refers to, or it is the one that the message
/// answers.
pub open spec fn is_related(e: EmailView, m: Stored) -> bool {
    ||| e.message_id matches Some(id) && answers_id(m, id)
    ||| exists|k: int|
        0 <= k < e.references.len() && k < 50 && has_id(m, #[trigger] e.references[k])
    ||| e.in_reply_to matches Some(id) && has_id(m, id)
}

/// A message names another one, or can be named by one.
pub open spec fn is_threaded(e: EmailView) -> bool {
    e.message_id is Some || e.references.len() > 0 || e.in_reply_to is Some
}

/// A search for a header finds the messages with the id in it.
pub proof fn lemma_header_term(header: Seq<char>, id: Seq<char>, m: Stored)
    requires
        header == "References"@ || header == "In-Reply-To"@ || header == "Message-ID"@,
    ensures
        says(header_term(header, id), m, (m.has)(Field::Header(header), sought_id(id))),
{
    reveal_strlit("References");
    reveal_strlit("In-Reply-To");
    reveal_strlit("Message-ID");
    assert(is_word(header));
    lemma_header_criterion(header, trim_angles(id), m);
}

/// The search for related messages is made in the folder of the conversation, and
/// the server finds exactly the related messages by it: those that refer or reply
/// to the message, and those whose own id the message refers or replies to.
pub proof fn related_searches_find_the_conversation(t: ThreadView, m: Stored)
    requires
        t.phase == ThreadPhase::Related,
        is_threaded(t.initial),
    ensures
        action_of(t) matches ActionView::Search { folder, criteria } && folder == t.folder && finds(
            criteria,
            m,
        ) == Some(is_related(t.initial, m)),
{
    let e = t.initial;
    let parts = related_terms(e);
    let refs = at_most_first(e.references, MAX_REFERENCES as nat);
    let head: Seq<bool> = match e.message_id {
        Some(id) => seq![
            (m.has)(Field::Header("References"@), sought_id(id)),
            (m.has)(Field::Header("In-Reply-To"@), sought_id(id)),
        ],
        None => Seq::empty(),
    };
    let middle: Seq<bool> = refs.map_values(|id: Seq<char>| has_id(m, id));
    let end: Seq<bool> = match e.in_reply_to {
        Some(id) => seq![has_id(m, id)],
        None => Seq::empty(),
    };
    let truth = head + middle + end;
    let a = head.len() as int;
    let b = a + middle.len();
    assert forall|i: int| 0 <= i < parts.len() implies says(#[trigger] parts[i], m, truth[i]) by {
        if i < a {
            lemma_header_term("References"@, e.message_id->0, m);
            lemma_header_term("In-Reply-To"@, e.message_id->0, m);
        } else if i < b {
            lemma_header_term("Message-ID"@, refs[i - a], m);
        } else {
            lemma_header_term("Message-ID"@, e.in_reply_to->0, m);
        }
    }
    lemma_or_chain(parts, m, truth);
    let some = exists|i: int| 0 <= i < truth.len() && #[trigger] truth[i];
    assert(some == is_related(e, m)) by {
        if some {
            let i = choose|i: int| 0 <= i < truth.len() && #[trigger] truth[i];
            if a <= i < b {
                assert(refs[i - a] == e.references[i - a]);
                assert(has_id(m, e.references[i - a]));
            }
        }
        if e.message_id is Some && answers_id(m, e.message_id->0) {
            assert(truth[0] || truth[1]);
        }
        if exists|k: int| 0 <= k < e.references.len() && k < 50 && has_id(m, #[trigger] e.references[k]) {
            let k = choose|k: int|
                0 <= k < e.references.len() && k < 50 && has_id(m, #[trigger] e.references[k]);
            assert(refs[k] == e.references[k]);
            assert(truth[a + k]);
        }
        if e.in_reply_to is Some && has_id(m, e.in_reply_to->0) {
            assert(truth[b]);
        }
    }
    lemma_lone_criterion(or_chain(parts), m, some);
}

/// A search with one criterion finds the messages that meet it.
pub proof fn lemma_lone_criterion(p: Seq<char>, m: Stored, b: bool)
    requires
        says(p, m, b),
    ensures
        finds(p, m) == Some(b),
        judged_all(p, m) == Some(b),
{
    let none = Seq::<char>::empty();
    assert(p + none =~= p);
    assert(judged(p + none, m) == Some((b, none)));
    lemma_no_charset(p, m);
}

/// The collection begins with the search for related messages exactly where the
/// message names another one or has an id.
pub proof fn threaded_messages_are_searched_for(
    folder: Seq<char>,
    uid: u32,
    strict: bool,
    initial: EmailView,
)
    ensures
        started(folder, uid, strict, initial).phase == ThreadPhase::Related <==> is_threaded(initial),
        started(folder, uid, strict, initial).folder == folder,
        started(folder, uid, strict, initial).initial == initial,
        started(folder, uid, strict, initial).uids == seq![uid],
{
}

/// The search by subject finds the messages with the bare subject of the message
/// in theirs, in the same folder.
pub proof fn subject_searches_find_the_subject(t: ThreadView, m: Stored)
    requires
        t.phase == ThreadPhase::Subject,
        subject_kernel(t.initial.subject).len() > 0,
    ensures
        action_of(t) matches ActionView::Search { folder, criteria } && folder == t.folder && finds(
            criteria,
            m,
        ) == Some(
            (m.has)(Field::Subject, without_controls(subject_kernel(t.initial.subject))),
        ),
{
    let kernel = subject_kernel(t.initial.subject);
    let plain = "SUBJECT"@ + " "@ + astring(kernel);
    let b = (m.has)(Field::Subject, without_controls(kernel));
    lemma_keys();
    reveal_strlit("SUBJECT ");
    reveal_strlit("CHARSET UTF-8 SUBJECT ");
    reveal_strlit("CHARSET UTF-8 ");
    assert("SUBJECT "@ =~= "SUBJECT"@ + " "@) by {
        reveal_strlit("SUBJECT");
    }
    assert("CHARSET UTF-8 SUBJECT "@ =~= "CHARSET UTF-8 "@ + "SUBJECT "@);
    lemma_text_criterion("SUBJECT"@, Field::Subject, kernel, m);
    lemma_lone_criterion(plain, m, b);
    assert("SUBJECT "@ + astring(kernel) =~= plain);
    assert("CHARSET UTF-8 SUBJECT "@ + astring(kernel) =~= "CHARSET UTF-8 "@ + plain);
    lemma_charset(plain, m);
}

/// A message on the server answers one of the messages of a conversation.
pub open spec fn answers_one(initial: EmailView, messages: Seq<EmailView>, m: Stored) -> bool {
    ||| initial.message_id matches Some(id) && answers_id(m, id)
    ||| exists|k: int|
        0 <= k < messages.len() && (#[trigger] messages[k]).message_id is Some && answers_id(
            m,
            messages[k].message_id->0,
        )
}

spec fn sent_truth(initial: EmailView, messages: Seq<EmailView>, m: Stored) -> Seq<bool>
    decreases messages.len(),
{
    let id = if messages.len() == 0 {
        initial.message_id
    } else {
        messages.last().message_id
    };
    let own = match id {
        Some(id) => seq![
            (m.has)(Field::Header("References"@), sought_id(id)),
            (m.has)(Field::Header("In-Reply-To"@), sought_id(id)),
        ],
        None => Seq::empty(),
    };
    if messages.len() == 0 {
        own
    } else {
        sent_truth(initial, messages.drop_last(), m) + own
    }
}

proof fn lemma_sent_terms(initial: EmailView, messages: Seq<EmailView>, m: Stored)
    ensures
        sent_truth(initial, messages, m).len() == sent_terms(initial, messages).len(),
        forall|i: int|
            0 <= i < sent_terms(initial, messages).len() ==> says(
                #[trigger] sent_terms(initial, messages)[i],
                m,
                sent_truth(initial, messages, m)[i],
            ),
        answers_one(initial, messages, m) <==> exists|i: int|
            0 <= i < sent_truth(initial, messages, m).len() && #[trigger] sent_truth(
                initial,
                messages,
                m,
            )[i],
    decreases messages.len(),
{
    let id = if messages.len() == 0 {
        initial.message_id
    } else {
        messages.last().message_id
    };
    if let Some(id) = id {
        lemma_header_term("References"@, id, m);
        lemma_header_term("In-Reply-To"@, id, m);
    }
    let terms = sent_terms(initial, messages);
    let truth = sent_truth(initial, messages, m);
    if messages.len() == 0 {
        if answers_one(initial, messages, m) {
            assert(truth[0] || truth[1]);
        }
    } else {
        let front = messages.drop_last();
        lemma_sent_terms(initial, front, m);
        let before = sent_truth(initial, front, m);
        let n = before.len() as int;
        assert forall|i: int| 0 <= i < terms.len() implies says(#[trigger] terms[i], m, truth[i]) by {
            if i < n {
                assert(says(sent_terms(initial, front)[i], m, before[i]));
            }
        }
        if answers_one(initial, messages, m) {
            if answers_one(initial, front, m) {
                let i = choose|i: int| 0 <= i < before.len() && #[trigger] before[i];
                assert(truth[i]);
            } else {
                let k = choose|k: int|
                    0 <= k < messages.len() && (#[trigger] messages[k]).message_id is Some && answers_id(
                        m,
                        messages[k].message_id->0,
                    );
                if k < front.len() {
                    assert(front[k] == messages[k]);
                }
                assert(truth[n] || truth[n + 1]);
            }
        }
        if exists|i: int| 0 <= i < truth.len() && #[trigger] truth[i] {
            let i = choose|i: int| 0 <= i < truth.len() && #[trigger] truth[i];
            if i < n {
                assert(before[i]);
                assert(answers_one(initial, front, m));
                if !(initial.message_id is Some && answers_id(m, initial.message_id->0)) {
                    let k = choose|k: int|
                        0 <= k < front.len() && (#[trigger] front[k]).message_id is Some && answers_id(
                            m,
                            front[k].message_id->0,
                        );
                    assert(messages[k] == front[k]);
                }
            } else {
                assert(messages[messages.len() - 1].message_id is Some);
            }
        }
    }
}

/// The search in sent mail finds exactly the messages that answer one of the
/// messages of the conversation.
pub proof fn sent_searches_find_the_answers(t: ThreadView, m: Stored)
    requires
        t.phase == ThreadPhase::SentSearch,
        t.initial.message_id is Some || exists|k: int|
            0 <= k < t.messages.len() && (#[trigger] t.messages[k]).message_id is Some,
    ensures
        action_of(t) matches ActionView::Search { folder, criteria } && folder == t.sent && finds(
            criteria,
            m,
        ) == Some(answers_one(t.initial, t.messages, m)),
{
    let parts = sent_terms(t.initial, t.messages);
    let truth = sent_truth(t.initial, t.messages, m);
    lemma_sent_terms(t.initial, t.messages, m);
    lemma_sent_terms_are_there(t.initial, t.messages);
    lemma_or_chain(parts, m, truth);
    lemma_lone_criterion(or_chain(parts), m, answers_one(t.initial, t.messages, m));
}

proof fn lemma_sent_terms_are_there(initial: EmailView, messages: Seq<EmailView>)
    ensures
        sent_terms(initial, messages).len() > 0 <==> initial.message_id is Some || exists|k: int|
            0 <= k < messages.len() && (#[trigger] messages[k]).message_id is Some,
    decreases messages.len(),
{
    if messages.len() > 0 {
        let front = messages.drop_last();
        lemma_sent_terms_are_there(initial, front);
        if exists|k: int| 0 <= k < messages.len() && (#[trigger] messages[k]).message_id is Some {
            let k = choose|k: int|
                0 <= k < messages.len() && (#[trigger] messages[k]).message_id is Some;
            if k < front.len() {
                assert(front[k].message_id is Some);
            }
        }
        if sent_terms(initial, front).len() > 0 && initial.message_id is None {
            let k = choose|k: int| 0 <= k < front.len() && (#[trigger] front[k]).message_id is Some;
            assert(messages[k].message_id is Some);
        }
        if messages.last().message_id is Some {
            assert(messages[messages.len() - 1].message_id is Some);
        }
    }
}

} // verus!
