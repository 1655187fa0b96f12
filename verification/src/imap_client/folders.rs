//! Folders: which may be used, what they are for and how they are shown.

use vstd::prelude::*;

use crate::email::is_dangerous;
use crate::email::sanitize_external_str;
use crate::email::sanitized;
use crate::email::sanitized_is_clean;
use crate::imap_client::util::connection_error;
use crate::imap_client::util::decode_modified_utf7;
use crate::imap_client::util::is_connection_error;
use crate::imap_client::util::readable_folder;
use crate::imap_client::util::slice_texts;
use crate::text::copy_of;
use crate::text::eq_ignore_case;
use crate::text::opt_str;
use crate::text::opt_text;
use crate::text::same_ignoring_case;
use crate::text::same_text;
use crate::text::texts;

verus! {

/// The most folders that are listed.
pub const MAX_FOLDER_COUNT: usize = 10_000;

/// The names that folders for sent mail go by.
pub open spec fn sent_names() -> Seq<Seq<char>> {
    seq![
        "Sent"@,
        "Sent Items"@,
        "Sent Mail"@,
        "[Gmail]/Sent Mail"@,
        "[Google Mail]/Sent Mail"@,
        "[Google Mail]/Gesendet"@,
        "INBOX.Sent"@,
        "Gesendete Elemente"@,
        "Gesendete Objekte"@,
    ]
}

/// The names that folders for deleted mail go by.
pub open spec fn trash_names() -> Seq<Seq<char>> {
    seq![
        "Trash"@,
        "[Gmail]/Trash"@,
        "[Google Mail]/Trash"@,
        "[Google Mail]/Papierkorb"@,
        "Deleted Items"@,
        "INBOX.Trash"@,
        "Papierkorb"@,
        "Gelöschte Elemente"@,
        "Gel&APY-schte Elemente"@,
    ]
}

/// The names that folders for drafts go by.
pub open spec fn drafts_names() -> Seq<Seq<char>> {
    seq![
        "Drafts"@,
        "[Gmail]/Drafts"@,
        "[Google Mail]/Drafts"@,
        "[Google Mail]/Entwürfe"@,
        "[Google Mail]/Entw&APw-rfe"@,
        "Draft"@,
        "INBOX.Drafts"@,
        "Entwürfe"@,
        "Entw&APw-rfe"@,
    ]
}

/// What a folder is for, by its name.
#[derive(Clone, Copy, Debug, PartialEq, Eq, Structural)]
pub enum FolderRole {
    Drafts,
    Sent,
    Trash,
}

/// The names that folders with a role go by.
pub open spec fn role_names(role: FolderRole) -> Seq<Seq<char>> {
    match role {
        FolderRole::Drafts => drafts_names(),
        FolderRole::Sent => sent_names(),
        FolderRole::Trash => trash_names(),
    }
}

/// A name is one of a list, whatever its case.
pub open spec fn named_in(name: Seq<char>, names: Seq<Seq<char>>) -> bool {
    exists|i: int| 0 <= i < names.len() && eq_ignore_case(name, #[trigger] names[i])
}

/// A folder has a role.
pub open spec fn has_role(name: Seq<char>, role: FolderRole) -> bool {
    named_in(name, role_names(role))
}

fn is_named_in(name: &str, names: &[&str]) -> (yes: bool)
    ensures
        yes == named_in(name@, slice_texts(names@)),
{
    let ghost all = slice_texts(names@);
    let mut i: usize = 0;
    while i < names.len()
        invariant
            i <= names@.len(),
            all == slice_texts(names@),
            forall|j: int| 0 <= j < i ==> !eq_ignore_case(name@, #[trigger] all[j]),
        decreases names@.len() - i,
    {
        proof {
            assert(all[i as int] == names@[i as int]@);
        }
        if same_ignoring_case(name, names[i]) {
            return true;
        }
        i += 1;
    }
    false
}

/// Decides [`has_role`].
pub fn folder_has_role(name: &str, role: FolderRole) -> (yes: bool)
    ensures
        yes == has_role(name@, role),
{
    match role {
        FolderRole::Drafts => {
            let names: [&str; 9] = [
                "Drafts",
                "[Gmail]/Drafts",
                "[Google Mail]/Drafts",
                "[Google Mail]/Entwürfe",
                "[Google Mail]/Entw&APw-rfe",
                "Draft",
                "INBOX.Drafts",
                "Entwürfe",
                "Entw&APw-rfe",
            ];
            assert(slice_texts(names@) =~= drafts_names());
            is_named_in(name, names.as_slice())
        },
        FolderRole::Sent => {
            let names: [&str; 9] = [
                "Sent",
                "Sent Items",
                "Sent Mail",
                "[Gmail]/Sent Mail",
                "[Google Mail]/Sent Mail",
                "[Google Mail]/Gesendet",
                "INBOX.Sent",
                "Gesendete Elemente",
                "Gesendete Objekte",
            ];
            assert(slice_texts(names@) =~= sent_names());
            is_named_in(name, names.as_slice())
        },
        FolderRole::Trash => {
            let names: [&str; 9] = [
                "Trash",
                "[Gmail]/Trash",
                "[Google Mail]/Trash",
                "[Google Mail]/Papierkorb",
                "Deleted Items",
                "INBOX.Trash",
                "Papierkorb",
                "Gelöschte Elemente",
                "Gel&APY-schte Elemente",
            ];
            assert(slice_texts(names@) =~= trash_names());
            is_named_in(name, names.as_slice())
        },
    }
}

/// The role of a folder as a word, where it has one.
pub open spec fn role_word(name: Seq<char>) -> Option<Seq<char>> {
    if has_role(name, FolderRole::Drafts) {
        Some("drafts"@)
    } else if has_role(name, FolderRole::Sent) {
        Some("sent"@)
    } else if has_role(name, FolderRole::Trash) {
        Some("trash"@)
    } else {
        None
    }
}

/// Classifies a folder by its name.
pub fn detect_folder_role(name: &str) -> (role: Option<&'static str>)
    ensures
        opt_str(role) == role_word(name@),
{
    if folder_has_role(name, FolderRole::Drafts) {
        Some("drafts")
    } else if folder_has_role(name, FolderRole::Sent) {
        Some("sent")
    } else if folder_has_role(name, FolderRole::Trash) {
        Some("trash")
    } else {
        None
    }
}

/// The first folder with a role.
pub fn find_folder_by_role(folders: &Vec<String>, role: FolderRole) -> (found: Option<String>)
    ensures
        match found {
            Some(f) => exists|i: int|
                {
                    &&& 0 <= i < folders@.len()
                    &&& (#[trigger] folders@[i])@ == f@
                    &&& has_role(f@, role)
                    &&& forall|j: int| 0 <= j < i ==> !has_role((#[trigger] folders@[j])@, role)
                },
            None => forall|j: int|
                0 <= j < folders@.len() ==> !has_role((#[trigger] folders@[j])@, role),
        },
{
    let mut i: usize = 0;
    while i < folders.len()
        invariant
            i <= folders@.len(),
            forall|j: int| 0 <= j < i ==> !has_role((#[trigger] folders@[j])@, role),
        decreases folders@.len() - i,
    {
        if folder_has_role(folders[i].as_str(), role) {
            let f = copy_of(folders[i].as_str());
            assert(folders@[i as int]@ == f@);
            return Some(f);
        }
        i += 1;
    }
    None
}

/// The readable form of a folder's name, where it has another one that is safe
/// to show. The encoding hides characters that could make one folder look like
/// another, so that the decoded form is checked as the name itself is.
pub open spec fn display_name_of(name: Seq<char>) -> Option<Seq<char>> {
    match readable_folder(name) {
        Some(decoded) => if sanitized(decoded) == decoded {
            Some(decoded)
        } else {
            None
        },
        None => None,
    }
}

/// Computes [`display_name_of`].
pub fn safe_display_name(name: &str) -> (out: Option<String>)
    ensures
        opt_text(out) == display_name_of(name@),
{
    match decode_modified_utf7(name) {
        Some(decoded) => {
            let clean = sanitize_external_str(decoded.as_str());
            if same_text(clean.as_str(), decoded.as_str()) {
                Some(decoded)
            } else {
                None
            }
        },
        None => None,
    }
}

/// A readable folder name never holds a character that could deceive.
pub proof fn shown_names_are_clean(name: Seq<char>)
    ensures
        display_name_of(name) matches Some(shown) ==> forall|i: int|
            0 <= i < shown.len() ==> !is_dangerous(#[trigger] shown[i]),
{
    if let Some(decoded) = readable_folder(name) {
        sanitized_is_clean(decoded);
    }
}

// ---------------------------------------------------------------------------
// Allowed folders
// ---------------------------------------------------------------------------

/// A folder may be used: all may where no list is given.
pub open spec fn allows(allowed: Option<Seq<Seq<char>>>, folder: Seq<char>) -> bool {
    allowed matches Some(l) ==> named_in(folder, l)
}

/// The value of a list of folders that may be absent.
pub open spec fn allowed_view(allowed: Option<Vec<String>>) -> Option<Seq<Seq<char>>> {
    match allowed {
        Some(l) => Some(texts(l@)),
        None => None,
    }
}

/// Decides [`allows`].
pub fn is_folder_allowed(allowed: &Option<Vec<String>>, folder: &str) -> (yes: bool)
    ensures
        yes == allows(allowed_view(*allowed), folder@),
{
    match allowed {
        None => true,
        Some(l) => {
            let ghost all = texts(l@);
            let mut i: usize = 0;
            while i < l.len()
                invariant
                    i <= l@.len(),
                    all == texts(l@),
                    allowed_view(*allowed) == Some(all),
                    forall|j: int| 0 <= j < i ==> !eq_ignore_case(folder@, #[trigger] all[j]),
                decreases l@.len() - i,
            {
                proof {
                    assert(all[i as int] == l@[i as int]@);
                }
                if same_ignoring_case(folder, l[i].as_str()) {
                    return true;
                }
                i += 1;
            }
            false
        },
    }
}

/// A folder of the server is offered: its name is what it seems, and it may be
/// used.
pub open spec fn is_offered(allowed: Option<Seq<Seq<char>>>, name: Seq<char>) -> bool {
    sanitized(name) == name && allows(allowed, name)
}

/// The folders that are offered.
pub open spec fn offered(allowed: Option<Seq<Seq<char>>>, names: Seq<Seq<char>>) -> Seq<Seq<char>> {
    names.filter(|n: Seq<char>| is_offered(allowed, n))
}

/// Leaves out the folders that may not be used, and those whose names hold
/// characters that could deceive.
pub fn filter_folder_names(allowed: &Option<Vec<String>>, names: &Vec<String>) -> (out: Vec<String>)
    ensures
        texts(out@) == offered(allowed_view(*allowed), texts(names@)),
{
    let ghost all = texts(names@);
    let ghost may = allowed_view(*allowed);
    let mut out: Vec<String> = Vec::new();
    let mut i: usize = 0;
    proof {
        reveal_with_fuel(Seq::filter, 1);
        assert(texts(out@) =~= offered(may, all.take(0)));
    }
    while i < names.len()
        invariant
            i <= names@.len(),
            all == texts(names@),
            may == allowed_view(*allowed),
            texts(out@) == offered(may, all.take(i as int)),
        decreases names@.len() - i,
    {
        let ghost before = texts(out@);
        proof {
            assert(all.take(i as int + 1).drop_last() =~= all.take(i as int));
            assert(all[i as int] == names@[i as int]@);
            reveal_with_fuel(Seq::filter, 1);
        }
        let clean = sanitize_external_str(names[i].as_str());
        if same_text(clean.as_str(), names[i].as_str()) && is_folder_allowed(
            allowed,
            names[i].as_str(),
        ) {
            let name = copy_of(names[i].as_str());
            proof {
                assert(texts(out@.push(name)) =~= before.push(name@));
            }
            out.push(name);
        }
        i += 1;
    }
    proof {
        assert(all.take(all.len() as int) =~= all);
    }
    out
}

/// No folder is offered that may not be used.
pub proof fn only_allowed_folders_are_offered(
    allowed: Option<Seq<Seq<char>>>,
    names: Seq<Seq<char>>,
)
    ensures
        forall|i: int|
            0 <= i < offered(allowed, names).len() ==> is_offered(
                allowed,
                #[trigger] offered(allowed, names)[i],
            ),
    decreases names.len(),
{
    reveal_with_fuel(Seq::filter, 1);
    if names.len() > 0 {
        only_allowed_folders_are_offered(allowed, names.drop_last());
    }
}

/// Exactly those folders of the server are offered whose names hold nothing that
/// could deceive and which the account lists, whatever their case; without a list
/// all of them.
pub proof fn folders_are_offered_as_allowed(
    allowed: Option<Seq<Seq<char>>>,
    names: Seq<Seq<char>>,
    name: Seq<char>,
)
    ensures
        offered(allowed, names).contains(name) <==> {
            &&& names.contains(name)
            &&& sanitized(name) == name
            &&& allowed matches Some(l) ==> exists|i: int|
                0 <= i < l.len() && eq_ignore_case(name, #[trigger] l[i])
        },
    decreases names.len(),
{
    reveal_with_fuel(Seq::filter, 1);
    if names.len() > 0 {
        let front = names.drop_last();
        let last = names.last();
        let head = offered(allowed, front);
        let all = offered(allowed, names);
        folders_are_offered_as_allowed(allowed, front, name);
        if names.contains(name) {
            let i = choose|i: int| 0 <= i < names.len() && names[i] == name;
            if i < front.len() {
                assert(front[i] == name);
            }
        }
        if front.contains(name) {
            let i = choose|i: int| 0 <= i < front.len() && front[i] == name;
            assert(names[i] == name);
        }
        assert(names[names.len() - 1] == last);
        if is_offered(allowed, last) {
            assert(all =~= head.push(last));
            assert(all[head.len() as int] == last);
        } else {
            assert(all =~= head);
        }
        if head.contains(name) {
            let i = choose|i: int| 0 <= i < head.len() && head[i] == name;
            assert(all[i] == name);
        }
        if all.contains(name) {
            let i = choose|i: int| 0 <= i < all.len() && all[i] == name;
            if i < head.len() {
                assert(head[i] == name);
            }
        }
    }
}

/// The word for a folder's role names a role that the folder has; a folder without
/// a word has none.
pub proof fn roles_are_told_by_their_words(name: Seq<char>)
    ensures
        match role_word(name) {
            Some(w) => {
                ||| w == "drafts"@ && has_role(name, FolderRole::Drafts)
                ||| w == "sent"@ && has_role(name, FolderRole::Sent)
                ||| w == "trash"@ && has_role(name, FolderRole::Trash)
            },
            None => forall|role: FolderRole| !#[trigger] has_role(name, role),
        },
{
}

// ---------------------------------------------------------------------------
// Listings
// ---------------------------------------------------------------------------

/// A folder in a listing.
#[derive(Debug, Clone)]
pub struct FolderInfo {
    /// The name that the server goes by.
    pub name: String,
    pub total: u32,
    pub unread: u32,
    /// `drafts`, `sent` or `trash`, where the folder has such a role.
    pub role: Option<&'static str>,
    /// The readable name, where it differs.
    pub display_name: Option<String>,
}

/// Describes a folder whose message counts are known.
pub fn describe_folder(name: &str, total: u32, unread: u32) -> (f: FolderInfo)
    ensures
        f.name@ == name@,
        f.total == total,
        f.unread == unread,
        opt_str(f.role) == role_word(name@),
        opt_text(f.display_name) == display_name_of(name@),
{
    FolderInfo {
        name: copy_of(name),
        total,
        unread,
        role: detect_folder_role(name),
        display_name: safe_display_name(name),
    }
}

/// A folder in a listing has this name and these counts, and what follows from
/// the name.
pub open spec fn describes(f: FolderInfo, name: Seq<char>, counts: (u32, u32)) -> bool {
    &&& f.name@ == name
    &&& f.total == counts.0
    &&& f.unread == counts.1
    &&& opt_str(f.role) == role_word(name)
    &&& opt_text(f.display_name) == display_name_of(name)
}

/// What the server answers to a question for the counts of a folder.
#[derive(Debug)]
pub enum StatusAnswer {
    Counted { total: u32, unseen: Option<u32> },
    Failed(String),
    TimedOut,
}

/// The counts that are shown: none where they are not known.
pub open spec fn counts_of(answer: StatusAnswer) -> (u32, u32) {
    match answer {
        StatusAnswer::Counted { total, unseen } => (
            total,
            match unseen {
                Some(n) => n,
                None => 0,
            },
        ),
        _ => (0, 0),
    }
}

/// The answer means that the connection is lost.
pub open spec fn lost_connection(answer: StatusAnswer) -> bool {
    answer matches StatusAnswer::Failed(text) && connection_error(text@)
}

/// The folders that are listed: the first of them, up to a limit.
pub open spec fn listed_names(names: Seq<Seq<char>>) -> Seq<Seq<char>> {
    if names.len() > MAX_FOLDER_COUNT {
        names.take(MAX_FOLDER_COUNT as int)
    } else {
        names
    }
}

/// A folder in a listing has the counts that the server gave, each under its own
/// name; counts that the server did not give are zero.
pub proof fn folders_tell_their_counts(f: FolderInfo, name: Seq<char>, answer: StatusAnswer)
    requires
        describes(f, name, counts_of(answer)),
    ensures
        f.name@ == name,
        answer matches StatusAnswer::Counted { total, unseen } ==> f.total == total && (
        unseen matches Some(n) ==> f.unread == n) && (unseen is None ==> f.unread == 0),
        !(answer is Counted) ==> f.total == 0 && f.unread == 0,
        f.role is Some <==> has_role(name, FolderRole::Drafts) || has_role(name, FolderRole::Sent)
            || has_role(name, FolderRole::Trash),
        lost_connection(answer) ==> answer is Failed,
{
}

/// A listing of folders that is being made: their names, and the first of them
/// described.
#[derive(Debug)]
pub struct FolderListing {
    pub names: Vec<String>,
    pub listed: Vec<FolderInfo>,
}

impl FolderListing {
    pub open spec fn wf(self) -> bool {
        &&& self.listed@.len() <= self.names@.len()
        &&& forall|i: int|
            0 <= i < self.listed@.len() ==> (#[trigger] self.listed@[i]).name@ == self.names@[i]@
    }

    /// Begins a listing.
    pub fn start(names: &Vec<String>) -> (l: FolderListing)
        ensures
            l.wf(),
            texts(l.names@) == listed_names(texts(names@)),
            l.listed@.len() == 0,
    {
        let ghost all = texts(names@);
        let n: usize = if names.len() > MAX_FOLDER_COUNT {
            MAX_FOLDER_COUNT
        } else {
            names.len()
        };
        let mut kept: Vec<String> = Vec::new();
        let mut i: usize = 0;
        proof {
            assert(texts(kept@) =~= all.take(0));
        }
        while i < n
            invariant
                i <= n <= names@.len(),
                all == texts(names@),
                texts(kept@) == all.take(i as int),
            decreases n - i,
        {
            let ghost before = texts(kept@);
            let name = copy_of(names[i].as_str());
            proof {
                assert(texts(kept@.push(name)) =~= before.push(name@));
                assert(all.take(i as int + 1) =~= before.push(name@));
            }
            kept.push(name);
            i += 1;
        }
        proof {
            assert(all.take(all.len() as int) =~= all);
        }
        FolderListing { names: kept, listed: Vec::new() }
    }

    /// The folder whose counts are asked for next.
    pub fn next_folder(&self) -> (out: Option<&String>)
        ensures
            match out {
                Some(name) => self.listed@.len() < self.names@.len() && *name
                    == self.names@[self.listed@.len() as int],
                None => self.listed@.len() >= self.names@.len(),
            },
    {
        if self.listed.len() < self.names.len() {
            Some(&self.names[self.listed.len()])
        } else {
            None
        }
    }

    /// Takes the answer for the next folder. A lost connection ends the listing;
    /// any other failure leaves one folder without its counts.
    pub fn note_status(&mut self, answer: StatusAnswer) -> (r: Result<(), String>)
        requires
            old(self).wf(),
        ensures
            final(self).wf(),
            final(self).names == old(self).names,
            lost_connection(answer) ==> (r matches Err(text) && text@ == answer->Failed_0@
                && final(self).listed == old(self).listed),
            !lost_connection(answer) ==> r is Ok,
            !lost_connection(answer) && old(self).listed@.len() >= old(self).names@.len()
                ==> final(self).listed == old(self).listed,
            !lost_connection(answer) && old(self).listed@.len() < old(self).names@.len() ==> {
                &&& final(self).listed@.len() == old(self).listed@.len() + 1
                &&& final(self).listed@.drop_last() == old(self).listed@
                &&& describes(
                    final(self).listed@.last(),
                    old(self).names@[old(self).listed@.len() as int]@,
                    counts_of(answer),
                )
            },
    {
        let (total, unread): (u32, u32) = match answer {
            StatusAnswer::Counted { total, unseen } => (
                total,
                match unseen {
                    Some(n) => n,
                    None => 0,
                },
            ),
            StatusAnswer::Failed(text) => {
                if is_connection_error(text.as_str()) {
                    return Err(text);
                }
                (0, 0)
            },
            StatusAnswer::TimedOut => (0, 0),
        };
        let n: usize = self.listed.len();
        if n < self.names.len() {
            let ghost before = self.listed@;
            let folder = describe_folder(self.names[n].as_str(), total, unread);
            self.listed.push(folder);
            proof {
                assert(self.listed@.drop_last() =~= before);
            }
        }
        Ok(())
    }

    /// The folders that were described.
    pub fn finish(self) -> (out: Vec<FolderInfo>)
        ensures
            out == self.listed,
    {
        self.listed
    }
}

} // verus!
