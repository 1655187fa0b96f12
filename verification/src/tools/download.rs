//! The tool that saves an attachment.

use vstd::prelude::*;

use crate::email::attachment_name;
use crate::email::content_type_text;
use crate::email::format_content_type;
use crate::email::sanitize_external_str;
use crate::email::sanitized;
use crate::email::shown_attachment_name;
use crate::json::Json;
use crate::json::JsonView;
use crate::json::Members;
use crate::mail::attachment_bytes_of;
use crate::mail::attachments_of;
use crate::mail::is_message;
use crate::mail::part_views;
use crate::mail::read_attachment;
use crate::mail::read_mail;
use crate::mail::MailPart;
use crate::mail::MailPartView;
use crate::text::chars_of;
use crate::text::copy_of;
use crate::text::decimal;
use crate::text::decimal_string;
use crate::text::is_white_space;
use crate::text::join;
use crate::text::joined;
use crate::text::opt_str;
use crate::text::opt_text;
use crate::text::same_text;
use crate::text::texts;
use crate::text::trim;
use crate::text::trim_end;
use crate::text::trim_start;
use crate::text::trimmed;

verus! {

/// Asks for an attachment to be saved.
#[derive(Debug)]
pub struct DownloadAttachmentRequest {
    pub account: Option<String>,
    pub folder: String,
    pub uid: u32,
    /// The name under which the attachment is shown.
    pub filename: Option<String>,
    /// Its position, which wins over the name.
    pub index: Option<usize>,
}

/// The largest attachment that is saved, in bytes.
pub const MAX_ATTACHMENT_SIZE: usize = 52_428_800;

// ---------------------------------------------------------------------------
// Names of files
// ---------------------------------------------------------------------------

/// A character of the name of a file: what separates directories is replaced.
pub open spec fn file_char(c: char) -> char {
    if c == '/' || c == '\\' || c == '\0' {
        '_'
    } else {
        c
    }
}

/// A text with no separator of directories in it.
pub open spec fn one_component(s: Seq<char>) -> Seq<char> {
    s.map_values(|c: char| file_char(c))
}

/// The name that a file is saved under.
pub open spec fn saved_name(raw: Seq<char>) -> Seq<char> {
    let name = trim(one_component(sanitized(raw)));
    if name.len() == 0 || name == "."@ || name == ".."@ {
        "attachment"@
    } else {
        name
    }
}

/// Makes a name for a file of the name of an attachment: always a single
/// component of a path.
pub fn filesystem_safe_filename(raw: &str) -> (out: String)
    ensures
        out@ == saved_name(raw@),
{
    let clean = sanitize_external_str(raw);
    let cs = chars_of(clean.as_str());
    let ghost want = one_component(sanitized(raw@));
    let mut safe = String::new();
    let mut i: usize = 0;
    while i < cs.len()
        invariant
            i <= cs@.len(),
            cs@ == sanitized(raw@),
            want == one_component(cs@),
            safe@ == want.take(i as int),
        decreases cs@.len() - i,
    {
        let c: char = cs[i];
        proof {
            assert(want.take(i as int + 1) =~= want.take(i as int).push(file_char(c)));
        }
        if c == '/' || c == '\\' || c == '\0' {
            safe.push('_');
        } else {
            safe.push(c);
        }
        i += 1;
    }
    proof {
        assert(want.take(want.len() as int) =~= want);
        reveal_strlit("");
    }
    let name = trimmed(safe.as_str());
    proof {
        assert(name@.len() == 0 ==> name@ =~= ""@);
    }
    if same_text(name.as_str(), "") || same_text(name.as_str(), ".") || same_text(
        name.as_str(),
        "..",
    ) {
        copy_of("attachment")
    } else {
        name
    }
}

proof fn lemma_trim_start_keeps(s: Seq<char>)
    ensures
        forall|c: char| trim_start(s).contains(c) ==> s.contains(c),
    decreases s.len(),
{
    let t = trim_start(s);
    if t != s && s.len() > 0 {
        let rest = s.drop_first();
        lemma_trim_start_keeps(rest);
        assert forall|c: char| t.contains(c) implies s.contains(c) by {
            assert(rest.contains(c));
            let k = choose|k: int| 0 <= k < rest.len() && rest[k] == c;
            assert(s[k + 1] == c);
        }
    }
}

proof fn lemma_trim_end_keeps(s: Seq<char>)
    ensures
        forall|c: char| trim_end(s).contains(c) ==> s.contains(c),
    decreases s.len(),
{
    let t = trim_end(s);
    if t != s && s.len() > 0 {
        let rest = s.drop_last();
        lemma_trim_end_keeps(rest);
        assert forall|c: char| t.contains(c) implies s.contains(c) by {
            assert(rest.contains(c));
            let k = choose|k: int| 0 <= k < rest.len() && rest[k] == c;
            assert(s[k] == c);
        }
    }
}

/// The name that a file is saved under leads nowhere else: it is neither blank
/// nor one of the two that stand for a directory, and it holds no separator.
pub proof fn saved_names_are_single_components(raw: Seq<char>)
    ensures
        saved_name(raw).len() > 0,
        saved_name(raw) != "."@,
        saved_name(raw) != ".."@,
        !saved_name(raw).contains('/'),
        !saved_name(raw).contains('\\'),
        !saved_name(raw).contains('\0'),
{
    reveal_strlit("attachment");
    reveal_strlit(".");
    reveal_strlit("..");
    let s = one_component(sanitized(raw));
    let name = trim(s);
    lemma_trim_start_keeps(s);
    lemma_trim_end_keeps(trim_start(s));
    lemma_trim_end_keeps(s);
    lemma_trim_start_keeps(trim_end(s));
    assert forall|c: char| name.contains(c) implies c != '/' && c != '\\' && c != '\0' by {
        assert(s.contains(c));
        let k = choose|k: int| 0 <= k < s.len() && s[k] == c;
        assert(s[k] == file_char(sanitized(raw)[k]));
    }
    assert("attachment"@.len() == 10);
    assert("."@.len() == 1);
    assert(".."@.len() == 2);
}

/// A name that is harmless already is the one that the file is saved under.
pub proof fn harmless_names_are_kept(raw: Seq<char>)
    requires
        sanitized(raw) == raw,
        raw.len() > 0,
        !raw.contains('/') && !raw.contains('\\') && !raw.contains('\0'),
        !is_white_space(raw[0]),
        !is_white_space(raw.last()),
        raw != "."@,
        raw != ".."@,
    ensures
        saved_name(raw) == raw,
{
    assert(one_component(raw) =~= raw) by {
        assert forall|i: int| 0 <= i < raw.len() implies file_char(#[trigger] raw[i]) == raw[i] by {
            assert(raw.contains(raw[i]));
        }
    }
    assert(trim_start(raw) == raw);
    assert(trim_end(raw) == raw);
}

// ---------------------------------------------------------------------------
// Choice
// ---------------------------------------------------------------------------

/// The positions, from `i` on, of a name in a list.
pub open spec fn positions(names: Seq<Seq<char>>, name: Seq<char>, i: int) -> Seq<nat>
    decreases names.len() - i,
{
    if i < 0 || i >= names.len() {
        Seq::empty()
    } else if names[i] == name {
        seq![i as nat] + positions(names, name, i + 1)
    } else {
        positions(names, name, i + 1)
    }
}

/// An attachment with its position.
pub open spec fn listed_name(i: nat, name: Seq<char>) -> Seq<char> {
    "index "@ + decimal(i) + ": \""@ + name + "\""@
}

/// The attachments with their positions.
pub open spec fn listing(names: Seq<Seq<char>>) -> Seq<char> {
    joined(Seq::new(names.len(), |i: int| listed_name(i as nat, names[i])), ", "@)
}

/// Numbers in words.
pub open spec fn number_texts(l: Seq<nat>) -> Seq<Seq<char>> {
    l.map_values(|n: nat| decimal(n))
}

/// The attachment that is chosen by its position or its name; or why none is.
pub open spec fn chosen(
    names: Seq<Seq<char>>,
    index: Option<usize>,
    filename: Option<Seq<char>>,
) -> Result<nat, Seq<char>> {
    match (index, filename) {
        (Some(i), _) => if i < names.len() {
            Ok(i as nat)
        } else {
            Err(
                "Attachment index "@ + decimal(i as nat) + " is out of range — the message has "@
                    + decimal(names.len()) + " attachment(s): "@ + listing(names),
            )
        },
        (None, None) => Err("Pass `filename` or `index` to pick an attachment"@),
        (None, Some(f)) => {
            let found = positions(names, f, 0);
            if found.len() == 0 {
                Err("Attachment \""@ + f + "\" not found. Available: "@ + listing(names))
            } else if found.len() == 1 {
                Ok(found[0])
            } else {
                Err(
                    "Attachment name \""@ + f + "\" is ambiguous — it matches indices ["@ + joined(
                        number_texts(found),
                        ", "@,
                    ) + "]; pass `index` to pick one"@,
                )
            }
        },
    }
}

fn write_listing(names: &Vec<String>) -> (out: String)
    ensures
        out@ == listing(texts(names@)),
{
    let ghost all = texts(names@);
    let ghost want = Seq::new(all.len(), |i: int| listed_name(i as nat, all[i]));
    let mut lines: Vec<String> = Vec::new();
    let mut i: usize = 0;
    while i < names.len()
        invariant
            i <= names@.len(),
            all == texts(names@),
            want == Seq::new(all.len(), |i: int| listed_name(i as nat, all[i])),
            texts(lines@) == want.take(i as int),
        decreases names@.len() - i,
    {
        let mut line = copy_of("index ");
        let n = decimal_string(i as u64);
        line.append(n.as_str());
        line.append(": \"");
        line.append(names[i].as_str());
        line.append("\"");
        let ghost before = texts(lines@);
        proof {
            assert(all[i as int] == names@[i as int]@);
            assert(line@ == want[i as int]);
            assert(texts(lines@.push(line)) =~= before.push(line@));
            assert(want.take(i as int + 1) =~= want.take(i as int).push(want[i as int]));
        }
        lines.push(line);
        i += 1;
    }
    proof {
        assert(want.take(want.len() as int) =~= want);
    }
    join(&lines, ", ")
}

/// Positions as natural numbers.
pub open spec fn as_nats(l: Seq<usize>) -> Seq<nat> {
    l.map_values(|n: usize| n as nat)
}

fn find_positions(names: &Vec<String>, name: &str) -> (out: Vec<usize>)
    ensures
        as_nats(out@) == positions(texts(names@), name@, 0),
{
    let ghost all = texts(names@);
    let mut out: Vec<usize> = Vec::new();
    let mut i: usize = 0;
    proof {
        assert(as_nats(out@) + positions(all, name@, 0) =~= positions(all, name@, 0));
    }
    while i < names.len()
        invariant
            i <= names@.len(),
            all == texts(names@),
            as_nats(out@) + positions(all, name@, i as int) == positions(all, name@, 0),
        decreases names@.len() - i,
    {
        let ghost before = as_nats(out@);
        let ghost rest = positions(all, name@, i + 1);
        assert(all[i as int] == names@[i as int]@);
        if same_text(names[i].as_str(), name) {
            out.push(i);
            proof {
                assert(as_nats(out@) =~= before.push(i as nat));
                assert(before + (seq![i as nat] + rest) =~= as_nats(out@) + rest);
            }
        }
        i += 1;
    }
    proof {
        assert(as_nats(out@) + Seq::<nat>::empty() =~= as_nats(out@));
    }
    out
}

fn write_numbers(l: &Vec<usize>) -> (out: String)
    ensures
        out@ == joined(number_texts(as_nats(l@)), ", "@),
{
    let ghost want = number_texts(as_nats(l@));
    let mut words: Vec<String> = Vec::new();
    let mut i: usize = 0;
    while i < l.len()
        invariant
            i <= l@.len(),
            want == number_texts(as_nats(l@)),
            texts(words@) == want.take(i as int),
        decreases l@.len() - i,
    {
        let word = decimal_string(l[i] as u64);
        let ghost before = texts(words@);
        proof {
            assert(as_nats(l@)[i as int] == l@[i as int] as nat);
            assert(texts(words@.push(word)) =~= before.push(word@));
            assert(want.take(i as int + 1) =~= want.take(i as int).push(want[i as int]));
        }
        words.push(word);
        i += 1;
    }
    proof {
        assert(want.take(want.len() as int) =~= want);
    }
    join(&words, ", ")
}

/// Chooses an attachment by its position or its name.
pub fn resolve_attachment_selection(
    names: &Vec<String>,
    index: Option<usize>,
    filename: Option<&str>,
) -> (r: Result<usize, String>)
    ensures
        match chosen(texts(names@), index, opt_str(filename)) {
            Ok(i) => r is Ok && r->Ok_0 == i,
            Err(text) => r is Err && r->Err_0@ == text,
        },
        r matches Ok(i) ==> i < names@.len(),
{
    if let Some(i) = index {
        if i < names.len() {
            return Ok(i);
        }
        let mut text = copy_of("Attachment index ");
        let n = decimal_string(i as u64);
        text.append(n.as_str());
        text.append(" is out of range — the message has ");
        let count = decimal_string(names.len() as u64);
        text.append(count.as_str());
        text.append(" attachment(s): ");
        let list = write_listing(names);
        text.append(list.as_str());
        return Err(text);
    }
    let f = match filename {
        Some(f) => f,
        None => {
            return Err(copy_of("Pass `filename` or `index` to pick an attachment"));
        },
    };
    let found = find_positions(names, f);
    let ghost all = texts(names@);
    proof {
        lemma_positions(all, f@, 0);
        assert(found@.len() == positions(all, f@, 0).len());
    }
    if found.len() == 0 {
        let mut text = copy_of("Attachment \"");
        text.append(f);
        text.append("\" not found. Available: ");
        let list = write_listing(names);
        text.append(list.as_str());
        Err(text)
    } else if found.len() == 1 {
        proof {
            assert(as_nats(found@)[0] == found@[0] as nat);
        }
        Ok(found[0])
    } else {
        let mut text = copy_of("Attachment name \"");
        text.append(f);
        text.append("\" is ambiguous — it matches indices [");
        let list = write_numbers(&found);
        text.append(list.as_str());
        text.append("]; pass `index` to pick one");
        Err(text)
    }
}

proof fn lemma_positions(names: Seq<Seq<char>>, name: Seq<char>, i: int)
    requires
        0 <= i,
    ensures
        forall|k: int|
            0 <= k < positions(names, name, i).len() ==> i <= #[trigger] positions(names, name, i)[k]
                < names.len() && names[positions(names, name, i)[k] as int] == name,
        forall|j: int|
            i <= j < names.len() && names[j] == name ==> positions(names, name, i).contains(j as nat),
    decreases names.len() - i,
{
    if i < names.len() {
        lemma_positions(names, name, i + 1);
        let rest = positions(names, name, i + 1);
        let p = positions(names, name, i);
        assert forall|j: int| i <= j < names.len() && names[j] == name implies p.contains(
            j as nat,
        ) by {
            if j == i {
                assert(p[0] == i as nat);
            } else {
                assert(rest.contains(j as nat));
                let k = choose|k: int| 0 <= k < rest.len() && rest[k] == j as nat;
                if names[i] == name {
                    assert(p[k + 1] == rest[k]);
                } else {
                    assert(p[k] == rest[k]);
                }
            }
        }
    }
}

/// A name chooses an attachment only where it is the name of that one and of no
/// other.
pub proof fn names_choose_without_doubt(names: Seq<Seq<char>>, name: Seq<char>, j: int)
    requires
        chosen(names, None, Some(name)) is Ok,
        0 <= j < names.len(),
        names[j] == name,
    ensures
        chosen(names, None, Some(name))->Ok_0 == j,
{
    lemma_positions(names, name, 0);
    let p = positions(names, name, 0);
    assert(p.contains(j as nat));
    let k = choose|k: int| 0 <= k < p.len() && p[k] == j as nat;
    assert(k == 0);
}

// ---------------------------------------------------------------------------
// The attachment
// ---------------------------------------------------------------------------

/// An attachment that is to be saved.
#[derive(Debug)]
pub struct PickedAttachment {
    pub index: usize,
    pub name: String,
    pub content_type: String,
    pub contents: Vec<u8>,
}

/// The names under which attachments are shown.
pub open spec fn shown_names(l: Seq<MailPartView>) -> Seq<Seq<char>> {
    l.map_values(|p: MailPartView| attachment_name(p.name))
}

/// The name that an attachment is asked for by.
pub open spec fn asked_name(filename: Option<Seq<char>>) -> Option<Seq<char>> {
    match filename {
        Some(f) => Some(sanitized(f)),
        None => None,
    }
}

/// The position of the attachment that is asked for, given those of the message;
/// or why none is.
pub open spec fn picked(parts: Seq<MailPartView>, req: DownloadAttachmentRequest) -> Result<
    nat,
    Seq<char>,
> {
    match chosen(shown_names(parts), req.index, asked_name(opt_text(req.filename))) {
        Ok(i) => Ok(i),
        Err(text) => Err(text + " (email UID "@ + decimal(req.uid as nat) + ")"@),
    }
}

/// The attachment that is picked is the one that was asked for: the one at the
/// given position, or else the only one that is shown under the given name. None
/// is picked exactly where the position is beyond the last one, no attachment or
/// more than one has the name, or neither is given.
pub proof fn attachments_are_picked_as_asked(
    parts: Seq<MailPartView>,
    req: DownloadAttachmentRequest,
)
    ensures
        match picked(parts, req) {
            Ok(k) => {
                &&& k < parts.len()
                &&& req.index matches Some(i) ==> k == i
                &&& req.index is None ==> {
                    &&& req.filename matches Some(f)
                    &&& forall|j: int|
                        0 <= j < parts.len() ==> (attachment_name((#[trigger] parts[j]).name)
                            == sanitized(f@) <==> j == k)
                }
            },
            Err(_) => match req.index {
                Some(i) => i >= parts.len(),
                None => req.filename matches Some(f) ==> forall|j: int|
                    0 <= j < parts.len() && attachment_name((#[trigger] parts[j]).name)
                        == sanitized(f@) ==> exists|k: int|
                        0 <= k < parts.len() && k != j && attachment_name(
                            (#[trigger] parts[k]).name,
                        ) == sanitized(f@),
            },
        },
{
    let names = shown_names(parts);
    assert(names.len() == parts.len());
    if req.index is None && req.filename is Some {
        let name = sanitized((req.filename->0)@);
        let p = positions(names, name, 0);
        lemma_positions(names, name, 0);
        lemma_positions_rise(names, name, 0);
        assert forall|j: int| 0 <= j < parts.len() implies names[j] == attachment_name(
            (#[trigger] parts[j]).name,
        ) by {}
        if p.len() == 1 {
            assert forall|j: int| 0 <= j < parts.len() implies (attachment_name(
                (#[trigger] parts[j]).name,
            ) == name <==> j == p[0]) by {
                if names[j] == name {
                    assert(p.contains(j as nat));
                }
                assert(names[p[0] as int] == name);
            }
        } else {
            assert forall|j: int|
                0 <= j < parts.len() && attachment_name((#[trigger] parts[j]).name)
                    == name implies exists|k: int|
                0 <= k < parts.len() && k != j && attachment_name((#[trigger] parts[k]).name)
                    == name by {
                assert(p.contains(j as nat));
                assert(p[0] < p[1]);
                let k = if p[0] == j {
                    p[1] as int
                } else {
                    p[0] as int
                };
                assert(names[k] == name);
                assert(attachment_name(parts[k].name) == name);
            }
        }
    }
}

proof fn lemma_positions_rise(names: Seq<Seq<char>>, name: Seq<char>, i: int)
    requires
        0 <= i,
    ensures
        forall|a: int, b: int|
            0 <= a < b < positions(names, name, i).len() ==> #[trigger] positions(names, name, i)[a]
                < #[trigger] positions(names, name, i)[b],
    decreases names.len() - i,
{
    if i < names.len() {
        lemma_positions_rise(names, name, i + 1);
        lemma_positions(names, name, i + 1);
        let rest = positions(names, name, i + 1);
        let p = positions(names, name, i);
        if names[i] == name {
            assert forall|a: int, b: int| 0 <= a < b < p.len() implies #[trigger] p[a]
                < #[trigger] p[b] by {
                assert(p[b] == rest[b - 1]);
                if a > 0 {
                    assert(p[a] == rest[a - 1]);
                }
            }
        }
    }
}

/// What is said of an attachment that is too large.
pub open spec fn too_large_text(name: Seq<char>, size: nat) -> Seq<char> {
    "Attachment \""@ + name + "\" is "@ + decimal(size) + " bytes — exceeds the "@ + decimal(
        MAX_ATTACHMENT_SIZE as nat,
    ) + "-byte cap"@
}

fn names_of(parts: &Vec<MailPart>) -> (out: Vec<String>)
    ensures
        texts(out@) == shown_names(part_views(parts@)),
{
    let ghost want = shown_names(part_views(parts@));
    let mut out: Vec<String> = Vec::new();
    let mut i: usize = 0;
    while i < parts.len()
        invariant
            i <= parts@.len(),
            want == shown_names(part_views(parts@)),
            texts(out@) == want.take(i as int),
        decreases parts@.len() - i,
    {
        let name = shown_attachment_name(&parts[i].name);
        let ghost before = texts(out@);
        proof {
            assert(part_views(parts@)[i as int] == parts@[i as int]@);
            assert(texts(out@.push(name)) =~= before.push(name@));
            assert(want.take(i as int + 1) =~= want.take(i as int).push(want[i as int]));
        }
        out.push(name);
        i += 1;
    }
    proof {
        assert(want.take(want.len() as int) =~= want);
    }
    out
}

/// Chooses the attachment that is asked for.
pub fn choose_attachment(parts: &Vec<MailPart>, req: &DownloadAttachmentRequest) -> (r: Result<
    usize,
    String,
>)
    ensures
        match picked(part_views(parts@), *req) {
            Ok(i) => r is Ok && r->Ok_0 == i,
            Err(text) => r is Err && r->Err_0@ == text,
        },
        r matches Ok(i) ==> i < parts@.len(),
{
    let names = names_of(parts);
    proof {
        assert(texts(names@).len() == names@.len());
    }
    let requested: Option<String> = match &req.filename {
        Some(f) => Some(sanitize_external_str(f.as_str())),
        None => None,
    };
    let wanted: Option<&str> = match &requested {
        Some(f) => Some(f.as_str()),
        None => None,
    };
    match resolve_attachment_selection(&names, req.index, wanted) {
        Ok(i) => Ok(i),
        Err(e) => {
            let mut text = e;
            text.append(" (email UID ");
            let n = decimal_string(req.uid as u64);
            text.append(n.as_str());
            text.append(")");
            Err(text)
        },
    }
}

/// Takes the attachment that is asked for out of a raw message.
pub fn pick_attachment(raw: &[u8], req: &DownloadAttachmentRequest) -> (r: Result<
    PickedAttachment,
    String,
>)
    ensures
        !is_message(raw@) ==> (r matches Err(text) && text@ == "Failed to parse email"@),
        is_message(raw@) ==> match picked(attachments_of(raw@), *req) {
            Err(text) => r is Err && r->Err_0@ == text,
            Ok(i) => {
                let part = attachments_of(raw@)[i as int];
                let bytes = attachment_bytes_of(raw@, i);
                if bytes.len() > MAX_ATTACHMENT_SIZE {
                    r matches Err(text) && text@ == too_large_text(
                        attachment_name(part.name),
                        bytes.len(),
                    )
                } else {
                    &&& r is Ok
                    &&& r->Ok_0.index == i
                    &&& r->Ok_0.name@ == attachment_name(part.name)
                    &&& r->Ok_0.content_type@ == content_type_text(part.content_type)
                    &&& r->Ok_0.contents@ == bytes
                }
            },
        },
{
    let mail = match read_mail(raw, false) {
        Some(m) => m,
        None => {
            return Err(copy_of("Failed to parse email"));
        },
    };
    let ghost parts = attachments_of(raw@);
    assert(part_views(mail.attachments@) == parts);
    assert(parts.len() == mail.attachments@.len());
    let i = match choose_attachment(&mail.attachments, req) {
        Ok(i) => i,
        Err(text) => {
            return Err(text);
        },
    };
    assert(parts[i as int] == mail.attachments@[i as int]@);
    let name = shown_attachment_name(&mail.attachments[i].name);
    let content_type = format_content_type(&mail.attachments[i].content_type);
    let contents = match read_attachment(raw, i) {
        Some(b) => b,
        None => {
            assert(false);
            Vec::new()
        },
    };
    if contents.len() > MAX_ATTACHMENT_SIZE {
        let mut text = copy_of("Attachment \"");
        text.append(name.as_str());
        text.append("\" is ");
        let n = decimal_string(contents.len() as u64);
        text.append(n.as_str());
        text.append(" bytes — exceeds the ");
        let cap = decimal_string(MAX_ATTACHMENT_SIZE as u64);
        text.append(cap.as_str());
        text.append("-byte cap");
        return Err(text);
    }
    Ok(PickedAttachment { index: i, name, content_type, contents })
}

/// The answer for an attachment that was saved.
pub open spec fn saved_answer(account: Seq<char>, path: Seq<char>, a: PickedAttachment) -> JsonView {
    JsonView::Obj(
        seq![
            ("account"@, JsonView::Str(account)),
            ("saved_to"@, JsonView::Str(path)),
            ("filename"@, JsonView::Str(a.name@)),
            ("index"@, JsonView::Num(a.index as nat)),
            ("size"@, JsonView::Num(a.contents@.len())),
            ("content_type"@, JsonView::Str(a.content_type@)),
        ],
    )
}

/// Reports an attachment that was saved.
pub fn download_answer(account: &str, saved_to: &str, a: &PickedAttachment) -> (j: Json)
    ensures
        j@ == saved_answer(account@, saved_to@, *a),
{
    let mut m = Members::new();
    m.put_str("account", account);
    m.put_str("saved_to", saved_to);
    m.put_str("filename", a.name.as_str());
    m.put_num("index", a.index as u64);
    m.put_num("size", a.contents.len() as u64);
    m.put_str("content_type", a.content_type.as_str());
    proof {
        assert(m@ =~= saved_answer(account@, saved_to@, *a)->Obj_0);
    }
    m.done()
}

/// How long a saved attachment is kept, in nanoseconds: a week.
pub const MAX_DOWNLOAD_AGE_NANOS: u128 = 604_800_000_000_000;

/// Whether something in the directory of saved attachments is removed: it is no
/// link, and was last changed more than a week ago.
pub fn is_stale_download(is_link: bool, age_nanos: u128) -> (yes: bool)
    ensures
        yes == (!is_link && age_nanos > MAX_DOWNLOAD_AGE_NANOS),
{
    !is_link && age_nanos > MAX_DOWNLOAD_AGE_NANOS
}

} // verus!
