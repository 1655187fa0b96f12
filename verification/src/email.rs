//! Messages as tools report them: [`EmailFull`] with its body, and
//! [`EmailSummary`] for listings.

use vstd::prelude::*;

use crate::divergence::diverges;
use crate::divergence::parts_diverge;
use crate::divergence::significant_set;
use crate::html::html_as_text;
use crate::html::strip_html;
use crate::mail::MailAddr;
use crate::mail::MailAddrView;
use crate::mail::MailDate;
use crate::mail::MailPart;
use crate::mail::MailPartView;
use crate::mail::MimeType;
use crate::mail::MimeTypeView;
use crate::mail::ParsedMail;
use crate::mail::ParsedMailView;
use crate::mail::addr_views;
use crate::mail::attachments_of;
use crate::mail::cc_of;
use crate::mail::date_of;
use crate::mail::date_timestamp;
use crate::mail::from_of;
use crate::mail::html_of;
use crate::mail::in_reply_to_of;
use crate::mail::is_message;
use crate::mail::mail_timestamp;
use crate::mail::message_id_of;
use crate::mail::opt_mime;
use crate::mail::parsed_mail;
use crate::mail::part_views;
use crate::mail::read_mail;
use crate::mail::references_of;
use crate::mail::subject_of;
use crate::mail::text_of;
use crate::mail::to_of;
use crate::text::byte_len;
use crate::text::chars_of;
use crate::text::control_char;
use crate::text::copy_of;
use crate::text::copy_opt;
use crate::text::digits_value;
use crate::text::is_control;
use crate::text::lemma_byte_len_bounds;
use crate::text::lemma_byte_len_push;
use crate::text::lemma_encode_concat;
use crate::text::opt_text;
use crate::text::padded;
use crate::text::padded_string;
use crate::text::same_text;
use crate::text::texts;
use crate::text::width_of;
use crate::time::lemma_padded_reads_back;
use crate::time::stamp_string;
use crate::time::stamp_text;
use crate::time::stamps_tell_their_fields;
use crate::time::unix_to_utc_iso;
use crate::time::utc_civil;
use crate::time::utc_iso;

verus! {

// ---------------------------------------------------------------------------
// Sanitizing
// ---------------------------------------------------------------------------

/// Characters that may not reach a reader from outside: controls, line and
/// paragraph separators, the byte order mark, the soft hyphen, zero-width
/// characters, invisible operators, and bidirectional overrides and isolates.
pub open spec fn is_dangerous(c: char) -> bool {
    let n = c as u32;
    is_control(c) || n == 0xad || n == 0x2028 || n == 0x2029 || n == 0xfeff || 0x200b <= n <= 0x200f
        || 0x202a <= n <= 0x202e || 0x2060 <= n <= 0x2064 || 0x2066 <= n <= 0x2069
}

/// Decides [`is_dangerous`].
pub fn dangerous_char(c: char) -> (yes: bool)
    ensures
        yes == is_dangerous(c),
{
    let n: u32 = c as u32;
    control_char(c) || n == 0xad || n == 0x2028 || n == 0x2029 || n == 0xfeff || (0x200b <= n && n
        <= 0x200f) || (0x202a <= n && n <= 0x202e) || (0x2060 <= n && n <= 0x2064) || (0x2066 <= n
        && n <= 0x2069)
}

/// A text without its dangerous characters.
pub open spec fn sanitized(s: Seq<char>) -> Seq<char> {
    s.filter(|c: char| !is_dangerous(c))
}

/// Sanitizes a text that came from untrusted headers or metadata.
pub fn sanitize_external_str(s: &str) -> (out: String)
    ensures
        out@ == sanitized(s@),
{
    let cs = chars_of(s);
    let mut out = String::new();
    let mut i: usize = 0;
    while i < cs.len()
        invariant
            cs@ == s@,
            i <= cs@.len(),
            out@ == sanitized(s@.take(i as int)),
        decreases cs@.len() - i,
    {
        proof {
            assert(s@.take(i as int + 1).drop_last() =~= s@.take(i as int));
            reveal_with_fuel(Seq::filter, 1);
        }
        if !dangerous_char(cs[i]) {
            out.push(cs[i]);
        }
        i += 1;
    }
    proof {
        assert(s@.take(s@.len() as int) =~= s@);
    }
    out
}

/// Sanitizing leaves no dangerous character, and changes nothing in a text
/// that has none; so it changes nothing the second time.
pub proof fn sanitized_is_clean(s: Seq<char>)
    ensures
        forall|i: int| 0 <= i < sanitized(s).len() ==> !is_dangerous(#[trigger] sanitized(s)[i]),
        (forall|i: int| 0 <= i < s.len() ==> !is_dangerous(#[trigger] s[i])) ==> sanitized(s) == s,
        sanitized(sanitized(s)) == sanitized(s),
{
    lemma_sanitized_clean(s);
    lemma_clean_stays(s);
    lemma_clean_stays(sanitized(s));
}

proof fn lemma_sanitized_clean(s: Seq<char>)
    ensures
        forall|i: int| 0 <= i < sanitized(s).len() ==> !is_dangerous(#[trigger] sanitized(s)[i]),
    decreases s.len(),
{
    reveal_with_fuel(Seq::filter, 1);
    if s.len() > 0 {
        lemma_sanitized_clean(s.drop_last());
    }
}

proof fn lemma_clean_stays(s: Seq<char>)
    ensures
        (forall|i: int| 0 <= i < s.len() ==> !is_dangerous(#[trigger] s[i])) ==> sanitized(s) == s,
    decreases s.len(),
{
    reveal_with_fuel(Seq::filter, 1);
    if s.len() > 0 {
        lemma_clean_stays(s.drop_last());
        if forall|i: int| 0 <= i < s.len() ==> !is_dangerous(#[trigger] s[i]) {
            assert forall|i: int| 0 <= i < s.drop_last().len() implies !is_dangerous(
                #[trigger] s.drop_last()[i],
            ) by {
                assert(s.drop_last()[i] == s[i]);
            }
            assert(sanitized(s) =~= s);
        }
    } else {
        assert(sanitized(s) =~= s);
    }
}

// ---------------------------------------------------------------------------
// Types
// ---------------------------------------------------------------------------

/// A mailbox: an address and, where the header gave one, a display name.
#[derive(Debug, Clone)]
pub struct EmailAddress {
    pub name: Option<String>,
    pub address: String,
}

/// The value of a mailbox.
pub struct AddressView {
    pub name: Option<Seq<char>>,
    pub address: Seq<char>,
}

impl View for EmailAddress {
    type V = AddressView;

    open spec fn view(&self) -> AddressView {
        AddressView { name: opt_text(self.name), address: self.address@ }
    }
}

/// The values of a list of mailboxes.
pub open spec fn address_views(v: Seq<EmailAddress>) -> Seq<AddressView> {
    v.map_values(|a: EmailAddress| a@)
}

/// The value of a mailbox that may be absent.
pub open spec fn opt_address(o: Option<EmailAddress>) -> Option<AddressView> {
    match o {
        Some(a) => Some(a@),
        None => None,
    }
}

/// What is told of an attachment.
#[derive(Debug, Clone)]
pub struct AttachmentInfo {
    /// The position among the attachments, from zero.
    pub index: usize,
    pub filename: String,
    pub content_type: String,
    pub size: usize,
}

/// The value of an attachment's description.
pub struct AttachmentView {
    pub index: nat,
    pub filename: Seq<char>,
    pub content_type: Seq<char>,
    pub size: nat,
}

impl View for AttachmentInfo {
    type V = AttachmentView;

    open spec fn view(&self) -> AttachmentView {
        AttachmentView {
            index: self.index as nat,
            filename: self.filename@,
            content_type: self.content_type@,
            size: self.size as nat,
        }
    }
}

/// The values of a list of attachments.
pub open spec fn attachment_views(v: Seq<AttachmentInfo>) -> Seq<AttachmentView> {
    v.map_values(|a: AttachmentInfo| a@)
}

/// A message with its body.
#[derive(Debug, Clone)]
pub struct EmailFull {
    pub uid: u32,
    pub folder: String,
    pub from: Option<EmailAddress>,
    pub to: Vec<EmailAddress>,
    pub cc: Vec<EmailAddress>,
    pub subject: String,
    /// The date in UTC, so that dates compare as texts.
    pub date: Option<String>,
    /// The date with the sender's own offset, where that differs.
    pub date_original: Option<String>,
    pub message_id: Option<String>,
    pub in_reply_to: Option<String>,
    pub references: Vec<String>,
    pub flags: Vec<String>,
    pub body_text: String,
    pub body_html: Option<String>,
    pub attachments: Vec<AttachmentInfo>,
    /// The plain text carries substantial content that the HTML does not. A
    /// hint, not a verdict.
    pub body_parts_diverge: bool,
}

/// The value of a message.
#[verifier::ext_equal]
pub struct EmailView {
    pub uid: u32,
    pub folder: Seq<char>,
    pub from: Option<AddressView>,
    pub to: Seq<AddressView>,
    pub cc: Seq<AddressView>,
    pub subject: Seq<char>,
    pub date: Option<Seq<char>>,
    pub date_original: Option<Seq<char>>,
    pub message_id: Option<Seq<char>>,
    pub in_reply_to: Option<Seq<char>>,
    pub references: Seq<Seq<char>>,
    pub flags: Seq<Seq<char>>,
    pub body_text: Seq<char>,
    pub body_html: Option<Seq<char>>,
    pub attachments: Seq<AttachmentView>,
    pub body_parts_diverge: bool,
}

impl View for EmailFull {
    type V = EmailView;

    open spec fn view(&self) -> EmailView {
        EmailView {
            uid: self.uid,
            folder: self.folder@,
            from: opt_address(self.from),
            to: address_views(self.to@),
            cc: address_views(self.cc@),
            subject: self.subject@,
            date: opt_text(self.date),
            date_original: opt_text(self.date_original),
            message_id: opt_text(self.message_id),
            in_reply_to: opt_text(self.in_reply_to),
            references: texts(self.references@),
            flags: texts(self.flags@),
            body_text: self.body_text@,
            body_html: opt_text(self.body_html),
            attachments: attachment_views(self.attachments@),
            body_parts_diverge: self.body_parts_diverge,
        }
    }
}

/// How many recipients a summary names; the full list is in the message.
pub const SUMMARY_TO_PREVIEW: usize = 3;

/// One row of a listing.
#[derive(Debug, Clone)]
pub struct EmailSummary {
    pub uid: u32,
    pub folder: String,
    /// The readable name of the folder, where it differs from the wire name.
    pub folder_display: Option<String>,
    pub message_id: Option<String>,
    pub in_reply_to: Option<String>,
    pub references: Vec<String>,
    pub from: Option<EmailAddress>,
    /// At most [`SUMMARY_TO_PREVIEW`] recipients; `to_count` has their number.
    pub to: Vec<EmailAddress>,
    pub to_count: usize,
    pub cc_count: usize,
    pub subject: String,
    pub date: Option<String>,
    pub date_original: Option<String>,
    /// The time of arrival, where a search was cut by it.
    pub internal_date: Option<String>,
    pub flags: Vec<String>,
    pub has_attachments: bool,
    pub snippet: String,
    /// The number of messages in the thread, where rows stand for threads.
    pub thread_message_count: Option<usize>,
}

// ---------------------------------------------------------------------------
// Parsing
// ---------------------------------------------------------------------------

/// A MIME type as text, `application/octet-stream` where there is none.
pub open spec fn content_type_text(ct: Option<MimeTypeView>) -> Seq<char> {
    sanitized(
        match ct {
            None => "application/octet-stream"@,
            Some(m) => match m.subtype {
                None => m.ctype,
                Some(sub) => m.ctype + "/"@ + sub,
            },
        },
    )
}

/// Formats a MIME type as `type/subtype`, sanitized.
pub fn format_content_type(ct: &Option<MimeType>) -> (out: String)
    ensures
        out@ == content_type_text(opt_mime(*ct)),
{
    let raw = match ct {
        None => copy_of("application/octet-stream"),
        Some(m) => match &m.subtype {
            None => copy_of(m.ctype.as_str()),
            Some(sub) => {
                let mut t = copy_of(m.ctype.as_str());
                t.append("/");
                t.append(sub.as_str());
                t
            },
        },
    };
    sanitize_external_str(raw.as_str())
}

/// A parsed mailbox as it is reported: an empty name counts as none, a missing
/// address as empty, and both are sanitized.
pub open spec fn reported_addr(a: MailAddrView) -> AddressView {
    AddressView {
        name: match a.name {
            Some(n) => if n.len() > 0 {
                Some(sanitized(n))
            } else {
                None
            },
            None => None,
        },
        address: match a.address {
            Some(x) => sanitized(x),
            None => sanitized(""@),
        },
    }
}

/// A list of parsed mailboxes as it is reported.
pub open spec fn reported_addrs(l: Seq<MailAddrView>) -> Seq<AddressView> {
    l.map_values(|a: MailAddrView| reported_addr(a))
}

impl EmailAddress {
    /// The report of one parsed mailbox.
    pub fn parse_addr(addr: &MailAddr) -> (out: EmailAddress)
        ensures
            out@ == reported_addr(addr@),
    {
        let name = match &addr.name {
            Some(n) => if n.as_str().is_empty() {
                None
            } else {
                Some(sanitize_external_str(n.as_str()))
            },
            None => None,
        };
        let address = match &addr.address {
            Some(a) => sanitize_external_str(a.as_str()),
            None => sanitize_external_str(""),
        };
        EmailAddress { name, address }
    }

    /// The report of a list of parsed mailboxes.
    pub fn list_from_address(list: &Vec<MailAddr>) -> (out: Vec<EmailAddress>)
        ensures
            address_views(out@) == reported_addrs(addr_views(list@)),
    {
        let mut out: Vec<EmailAddress> = Vec::new();
        let mut i: usize = 0;
        while i < list.len()
            invariant
                i <= list@.len(),
                address_views(out@) =~= reported_addrs(addr_views(list@)).take(i as int),
            decreases list@.len() - i,
        {
            let ghost before = address_views(out@);
            let a = EmailAddress::parse_addr(&list[i]);
            out.push(a);
            proof {
                assert(address_views(out@) =~= before.push(a@));
                assert(addr_views(list@)[i as int] == list@[i as int]@);
            }
            i += 1;
        }
        proof {
            let all = reported_addrs(addr_views(list@));
            assert(all.take(all.len() as int) =~= all);
        }
        out
    }
}

/// A date in ISO 8601 with the offset that it was given in.
pub open spec fn datetime_text(d: MailDate) -> Seq<char> {
    let stamp = stamp_text(
        padded(d.year as nat, 4),
        d.month as nat,
        d.day as nat,
        d.hour as nat,
        d.minute as nat,
        d.second as nat,
    );
    if d.tz_hour == 0 && d.tz_minute == 0 && !d.tz_before_gmt {
        stamp + "Z"@
    } else {
        stamp + (if d.tz_before_gmt {
            "-"@
        } else {
            "+"@
        }) + padded(d.tz_hour as nat, 2) + ":"@ + padded(d.tz_minute as nat, 2)
    }
}

/// Formats a date as ISO 8601 with its own offset.
pub fn format_datetime(d: &MailDate) -> (out: String)
    ensures
        out@ == datetime_text(*d),
{
    let year = padded_string(d.year as u64, 4);
    let mut out = stamp_string(year.as_str(), d.month, d.day, d.hour, d.minute, d.second);
    if d.tz_hour == 0 && d.tz_minute == 0 && !d.tz_before_gmt {
        out.append("Z");
    } else {
        if d.tz_before_gmt {
            out.append("-");
        } else {
            out.append("+");
        }
        let t = padded_string(d.tz_hour as u64, 2);
        out.append(t.as_str());
        out.append(":");
        let t = padded_string(d.tz_minute as u64, 2);
        out.append(t.as_str());
    }
    out
}

/// A date as it is reported: in UTC, or as it was given where its year is out
/// of range.
pub open spec fn reported_date(d: MailDate) -> Seq<char> {
    match utc_civil(mail_timestamp(d)) {
        Some(c) => utc_iso(c),
        None => datetime_text(d),
    }
}

/// Computes [`reported_date`], and the date as it was given.
fn report_date(d: &MailDate) -> (out: (String, String))
    ensures
        out.0@ == reported_date(*d),
        out.1@ == datetime_text(*d),
{
    let given = format_datetime(d);
    let second: i64 = date_timestamp(*d);
    let utc = match unix_to_utc_iso(second) {
        Some(iso) => iso,
        None => copy_of(given.as_str()),
    };
    (utc, given)
}

/// An id in angle brackets, sanitized.
pub open spec fn bracketed(id: Seq<char>) -> Seq<char> {
    "<"@ + sanitized(id) + ">"@
}

fn bracket_id(id: &str) -> (out: String)
    ensures
        out@ == bracketed(id@),
{
    let mut out = copy_of("<");
    let clean = sanitize_external_str(id);
    out.append(clean.as_str());
    out.append(">");
    out
}

fn bracket_ids(ids: &Vec<String>) -> (out: Vec<String>)
    ensures
        texts(out@) == texts(ids@).map_values(|t: Seq<char>| bracketed(t)),
{
    let mut out: Vec<String> = Vec::new();
    let mut i: usize = 0;
    let ghost want = texts(ids@).map_values(|t: Seq<char>| bracketed(t));
    while i < ids.len()
        invariant
            i <= ids@.len(),
            want == texts(ids@).map_values(|t: Seq<char>| bracketed(t)),
            texts(out@) =~= want.take(i as int),
        decreases ids@.len() - i,
    {
        let ghost before = texts(out@);
        let id = bracket_id(ids[i].as_str());
        out.push(id);
        proof {
            assert(texts(out@) =~= before.push(id@));
        }
        i += 1;
    }
    proof {
        assert(want.take(want.len() as int) =~= want);
    }
    out
}

/// The attachments of a message as they are reported.
pub open spec fn reported_attachments(l: Seq<MailPartView>) -> Seq<AttachmentView> {
    Seq::new(
        l.len(),
        |i: int|
            AttachmentView {
                index: i as nat,
                filename: attachment_name(l[i].name),
                content_type: content_type_text(l[i].content_type),
                size: l[i].size,
            },
    )
}

/// The name that an attachment is shown under.
pub open spec fn attachment_name(name: Option<Seq<char>>) -> Seq<char> {
    sanitized(
        match name {
            Some(n) => n,
            None => "attachment"@,
        },
    )
}

/// Computes [`attachment_name`].
pub fn shown_attachment_name(name: &Option<String>) -> (out: String)
    ensures
        out@ == attachment_name(opt_text(*name)),
{
    match name {
        Some(n) => sanitize_external_str(n.as_str()),
        None => sanitize_external_str("attachment"),
    }
}

fn report_attachments(list: &Vec<MailPart>) -> (out: Vec<AttachmentInfo>)
    ensures
        attachment_views(out@) == reported_attachments(part_views(list@)),
{
    let mut out: Vec<AttachmentInfo> = Vec::new();
    let mut i: usize = 0;
    let ghost want = reported_attachments(part_views(list@));
    while i < list.len()
        invariant
            i <= list@.len(),
            want == reported_attachments(part_views(list@)),
            attachment_views(out@) =~= want.take(i as int),
        decreases list@.len() - i,
    {
        let ghost before = attachment_views(out@);
        let info = AttachmentInfo {
            index: i,
            filename: shown_attachment_name(&list[i].name),
            content_type: format_content_type(&list[i].content_type),
            size: list[i].size,
        };
        out.push(info);
        proof {
            assert(part_views(list@)[i as int] == list@[i as int]@);
            assert(attachment_views(out@) =~= before.push(info@));
        }
        i += 1;
    }
    proof {
        assert(want.take(want.len() as int) =~= want);
    }
    out
}

/// The text body of a message: its text part, else its HTML read as text.
pub open spec fn body_text_of(m: ParsedMailView) -> Seq<char> {
    match m.text {
        Some(t) => t,
        None => match m.html {
            Some(h) => html_as_text(h),
            None => Seq::empty(),
        },
    }
}

/// A message as it is reported, given what the parser found. Bytes that are no
/// message give an empty report.
pub open spec fn reported_email(
    uid: u32,
    folder: Seq<char>,
    mail: Option<ParsedMailView>,
    flags: Seq<Seq<char>>,
    include_html: bool,
) -> EmailView {
    match mail {
        None => EmailView {
            uid,
            folder,
            from: None,
            to: Seq::empty(),
            cc: Seq::empty(),
            subject: Seq::empty(),
            date: None,
            date_original: None,
            message_id: None,
            in_reply_to: None,
            references: Seq::empty(),
            flags,
            body_text: Seq::empty(),
            body_html: None,
            attachments: Seq::empty(),
            body_parts_diverge: false,
        },
        Some(m) => EmailView {
            uid,
            folder,
            from: if m.from.len() > 0 {
                Some(reported_addr(m.from[0]))
            } else {
                None
            },
            to: reported_addrs(m.to),
            cc: reported_addrs(m.cc),
            subject: sanitized(
                match m.subject {
                    Some(s) => s,
                    None => ""@,
                },
            ),
            date: match m.date {
                Some(d) => Some(reported_date(d)),
                None => None,
            },
            date_original: match m.date {
                Some(d) => if datetime_text(d) == reported_date(d) {
                    None
                } else {
                    Some(datetime_text(d))
                },
                None => None,
            },
            message_id: match m.message_id {
                Some(id) => Some(bracketed(id)),
                None => None,
            },
            in_reply_to: if m.in_reply_to.len() > 0 {
                Some(bracketed(m.in_reply_to[0]))
            } else {
                None
            },
            references: m.references.map_values(|t: Seq<char>| bracketed(t)),
            flags,
            body_text: body_text_of(m),
            body_html: if include_html {
                m.html
            } else {
                None
            },
            attachments: reported_attachments(m.attachments),
            body_parts_diverge: include_html && m.text is Some && m.html is Some && diverges(
                significant_set(m.text->0),
                significant_set(html_as_text(m.html->0)),
            ),
        },
    }
}

/// The value of a parsed message that may be absent.
pub open spec fn opt_mail(o: Option<ParsedMail>) -> Option<ParsedMailView> {
    match o {
        Some(m) => Some(m@),
        None => None,
    }
}

/// Builds the report of a message from what the parser found.
pub fn email_from_mail(
    uid: u32,
    folder: &str,
    mail: Option<ParsedMail>,
    flags: Vec<String>,
    include_html: bool,
) -> (out: EmailFull)
    ensures
        out@ == reported_email(uid, folder@, opt_mail(mail), texts(flags@), include_html),
{
    let m = match mail {
        Some(m) => m,
        None => {
            let out = EmailFull {
                uid,
                folder: copy_of(folder),
                from: None,
                to: Vec::new(),
                cc: Vec::new(),
                subject: String::new(),
                date: None,
                date_original: None,
                message_id: None,
                in_reply_to: None,
                references: Vec::new(),
                flags,
                body_text: String::new(),
                body_html: None,
                attachments: Vec::new(),
                body_parts_diverge: false,
            };
            proof {
                assert(out@ =~= reported_email(uid, folder@, None, texts(flags@), include_html));
            }
            return out;
        },
    };
    let from = if m.from.len() > 0 {
        proof {
            assert(addr_views(m.from@)[0] == m.from@[0]@);
        }
        Some(EmailAddress::parse_addr(&m.from[0]))
    } else {
        None
    };
    let to = EmailAddress::list_from_address(&m.to);
    let cc = EmailAddress::list_from_address(&m.cc);
    let subject = match &m.subject {
        Some(s) => sanitize_external_str(s.as_str()),
        None => sanitize_external_str(""),
    };
    let mut date: Option<String> = None;
    let mut date_original: Option<String> = None;
    if let Some(d) = m.date {
        let (utc, given) = report_date(&d);
        if !same_text(given.as_str(), utc.as_str()) {
            date_original = Some(given);
        }
        date = Some(utc);
    }
    let message_id = match &m.message_id {
        Some(id) => Some(bracket_id(id.as_str())),
        None => None,
    };
    let in_reply_to = if m.in_reply_to.len() > 0 {
        Some(bracket_id(m.in_reply_to[0].as_str()))
    } else {
        None
    };
    let references = bracket_ids(&m.references);
    let body_text = match &m.text {
        Some(t) => copy_of(t.as_str()),
        None => match &m.html {
            Some(h) => strip_html(h.as_str()),
            None => String::new(),
        },
    };
    let mut body_parts_diverge = false;
    if include_html {
        if let (Some(plain), Some(html)) = (&m.text, &m.html) {
            let stripped = strip_html(html.as_str());
            body_parts_diverge = parts_diverge(plain.as_str(), stripped.as_str());
        }
    }
    let attachments = report_attachments(&m.attachments);
    let body_html = if include_html {
        copy_opt(&m.html)
    } else {
        None
    };
    let out = EmailFull {
        uid,
        folder: copy_of(folder),
        from,
        to,
        cc,
        subject,
        date,
        date_original,
        message_id,
        in_reply_to,
        references,
        flags,
        body_text,
        body_html,
        attachments,
        body_parts_diverge,
    };
    proof {
        assert(out@ =~= reported_email(uid, folder@, Some(m@), texts(flags@), include_html));
    }
    out
}

fn parse_email_inner(
    uid: u32,
    folder: &str,
    raw: &[u8],
    flags: Vec<String>,
    include_html: bool,
) -> (out: EmailFull)
    ensures
        out@ == reported_email(
            uid,
            folder@,
            if is_message(raw@) {
                Some(parsed_mail(raw@))
            } else {
                None
            },
            texts(flags@),
            include_html,
        ),
{
    let mail = read_mail(raw, include_html);
    email_from_mail(uid, folder, mail, flags, include_html)
}

/// Parses raw bytes into a message with its HTML body.
pub fn parse_email(uid: u32, folder: &str, raw: &[u8], flags: Vec<String>) -> (out: EmailFull)
    ensures
        out@ == reported_email(
            uid,
            folder@,
            if is_message(raw@) {
                Some(parsed_mail(raw@))
            } else {
                None
            },
            texts(flags@),
            true,
        ),
{
    parse_email_inner(uid, folder, raw, flags, true)
}

/// Parses raw bytes into a message without its HTML body, for listings.
pub fn parse_email_no_html(uid: u32, folder: &str, raw: &[u8], flags: Vec<String>) -> (out:
    EmailFull)
    ensures
        out@ == reported_email(
            uid,
            folder@,
            if is_message(raw@) {
                Some(parsed_mail(raw@))
            } else {
                None
            },
            texts(flags@),
            false,
        ),
{
    parse_email_inner(uid, folder, raw, flags, false)
}

// ---------------------------------------------------------------------------
// Summaries
// ---------------------------------------------------------------------------

/// The longest beginning of a text that takes at most `budget` bytes, and
/// whether anything was left out.
pub open spec fn is_snippet(body: Seq<char>, budget: nat, out: Seq<char>) -> bool {
    let kept = sanitized(body);
    if byte_len(kept) <= budget {
        out == kept
    } else {
        exists|k: int|
            #![trigger kept.take(k)]
            {
                &&& 0 <= k < kept.len()
                &&& byte_len(kept.take(k)) <= budget < byte_len(kept.take(k + 1))
                &&& out == kept.take(k) + "..."@
            }
    }
}

proof fn lemma_sanitized_split(s: Seq<char>, i: int)
    requires
        0 <= i <= s.len(),
    ensures
        sanitized(s) == sanitized(s.take(i)) + sanitized(s.skip(i)),
{
    assert(s.take(i) + s.skip(i) =~= s);
    Seq::filter_distributes_over_add(s.take(i), s.skip(i), |c: char| !is_dangerous(c));
}

/// Builds a snippet: sanitizes, keeps as much as fits into `snippet_len` bytes
/// and marks a cut with an ellipsis.
pub fn build_snippet(body: &str, snippet_len: usize) -> (out: String)
    ensures
        is_snippet(body@, snippet_len as nat, out@),
{
    let cs = chars_of(body);
    let mut out = String::new();
    let mut used: usize = 0;
    let mut i: usize = 0;
    let ghost kept = sanitized(body@);
    proof {
        lemma_byte_len_bounds(Seq::<char>::empty());
    }
    while i < cs.len()
        invariant
            cs@ == body@,
            i <= cs@.len(),
            kept == sanitized(body@),
            out@ == sanitized(body@.take(i as int)),
            used == byte_len(out@),
            used <= snippet_len,
        decreases cs@.len() - i,
    {
        let c: char = cs[i];
        proof {
            assert(body@.take(i as int + 1).drop_last() =~= body@.take(i as int));
            reveal_with_fuel(Seq::filter, 1);
            lemma_byte_len_push(out@, c);
        }
        if !dangerous_char(c) {
            let w: usize = width_of(c);
            if w > snippet_len - used {
                proof {
                    let k = out@.len() as int;
                    lemma_sanitized_split(body@, i as int + 1);
                    assert(sanitized(body@.take(i as int + 1)) == out@.push(c));
                    assert(kept.take(k) =~= out@);
                    assert(kept.take(k + 1) =~= out@.push(c));
                    let rest = sanitized(body@.skip(i as int + 1));
                    assert(kept =~= out@.push(c) + rest);
                    lemma_encode_concat(out@.push(c), rest);
                    assert(byte_len(kept) > snippet_len);
                }
                out.append("...");
                return out;
            }
            out.push(c);
            used += w;
        }
        i += 1;
    }
    proof {
        assert(body@.take(body@.len() as int) =~= body@);
    }
    out
}

/// Turns a message into its summary.
pub fn summarize(email: EmailFull, snippet_len: usize) -> (out: EmailSummary)
    ensures
        is_snippet(email.body_text@, snippet_len as nat, out.snippet@),
        out == (EmailSummary {
            uid: email.uid,
            folder: email.folder,
            folder_display: None,
            message_id: email.message_id,
            in_reply_to: email.in_reply_to,
            references: email.references,
            from: email.from,
            to: out.to,
            to_count: email.to.len(),
            cc_count: email.cc.len(),
            subject: email.subject,
            date: email.date,
            date_original: email.date_original,
            internal_date: None,
            flags: email.flags,
            has_attachments: email.attachments.len() > 0,
            snippet: out.snippet,
            thread_message_count: None,
        }),
        out.to@ == if email.to@.len() > SUMMARY_TO_PREVIEW {
            email.to@.take(SUMMARY_TO_PREVIEW as int)
        } else {
            email.to@
        },
{
    let snippet = build_snippet(email.body_text.as_str(), snippet_len);
    let to_count: usize = email.to.len();
    let cc_count: usize = email.cc.len();
    let has_attachments = email.attachments.len() > 0;
    let mut to = email.to;
    if to.len() > SUMMARY_TO_PREVIEW {
        to.truncate(SUMMARY_TO_PREVIEW);
    }
    EmailSummary {
        uid: email.uid,
        folder: email.folder,
        folder_display: None,
        message_id: email.message_id,
        in_reply_to: email.in_reply_to,
        references: email.references,
        from: email.from,
        to,
        to_count,
        cc_count,
        subject: email.subject,
        date: email.date,
        date_original: email.date_original,
        internal_date: None,
        flags: email.flags,
        has_attachments,
        snippet,
        thread_message_count: None,
    }
}

// ---------------------------------------------------------------------------
// Laws
// ---------------------------------------------------------------------------

/// Each field of a message goes into the field of the report that is named for it
/// and into no other: messages that differ in one field have reports that differ
/// in that field alone.
pub proof fn reports_keep_fields_apart(
    uid: u32,
    folder: Seq<char>,
    m: ParsedMailView,
    other: ParsedMailView,
    flags: Seq<Seq<char>>,
    html: bool,
)
    ensures
        ({
            let r = reported_email(uid, folder, Some(m), flags, html);
            let o = reported_email(uid, folder, Some(other), flags, html);
            &&& reported_email(
                uid,
                folder,
                Some(ParsedMailView { from: other.from, ..m }),
                flags,
                html,
            ) == EmailView { from: o.from, ..r }
            &&& reported_email(
                uid,
                folder,
                Some(ParsedMailView { to: other.to, ..m }),
                flags,
                html,
            ) == EmailView { to: o.to, ..r }
            &&& reported_email(
                uid,
                folder,
                Some(ParsedMailView { cc: other.cc, ..m }),
                flags,
                html,
            ) == EmailView { cc: o.cc, ..r }
            &&& reported_email(
                uid,
                folder,
                Some(ParsedMailView { subject: other.subject, ..m }),
                flags,
                html,
            ) == EmailView { subject: o.subject, ..r }
            &&& reported_email(
                uid,
                folder,
                Some(ParsedMailView { date: other.date, ..m }),
                flags,
                html,
            ) == EmailView { date: o.date, date_original: o.date_original, ..r }
            &&& reported_email(
                uid,
                folder,
                Some(ParsedMailView { message_id: other.message_id, ..m }),
                flags,
                html,
            ) == EmailView { message_id: o.message_id, ..r }
            &&& reported_email(
                uid,
                folder,
                Some(ParsedMailView { in_reply_to: other.in_reply_to, ..m }),
                flags,
                html,
            ) == EmailView { in_reply_to: o.in_reply_to, ..r }
            &&& reported_email(
                uid,
                folder,
                Some(ParsedMailView { references: other.references, ..m }),
                flags,
                html,
            ) == EmailView { references: o.references, ..r }
            &&& reported_email(
                uid,
                folder,
                Some(ParsedMailView { attachments: other.attachments, ..m }),
                flags,
                html,
            ) == EmailView { attachments: o.attachments, ..r }
        }),
{
}

/// A mailbox that is clean already is reported as it is.
pub open spec fn is_reported_as(a: MailAddrView, r: AddressView) -> bool {
    &&& a.address matches Some(x) ==> (clean_text(x) ==> r.address == x)
    &&& a.name matches Some(n) ==> (clean_text(n) && n.len() > 0 ==> r.name == Some(n))
    &&& a.name is None ==> r.name is None
}

/// A text without dangerous characters.
pub open spec fn clean_text(s: Seq<char>) -> bool {
    forall|i: int| 0 <= i < s.len() ==> !is_dangerous(#[trigger] s[i])
}

proof fn lemma_clean_text(s: Seq<char>)
    requires
        clean_text(s),
    ensures
        sanitized(s) == s,
{
    lemma_clean_stays(s);
}

/// A message is reported as it is: under the number and the folder that it was
/// fetched by, with the flags that the server gave, the first of its senders, its
/// recipients and those it was copied to in order, its text, its HTML where that
/// is asked for, and its ids in angle brackets. What holds no dangerous characters
/// is not changed.
pub proof fn reports_tell_the_message(
    uid: u32,
    folder: Seq<char>,
    m: ParsedMailView,
    flags: Seq<Seq<char>>,
    html: bool,
)
    ensures
        ({
            let r = reported_email(uid, folder, Some(m), flags, html);
            &&& r.uid == uid && r.folder == folder && r.flags == flags
            &&& m.from.len() == 0 ==> r.from is None
            &&& m.from.len() > 0 ==> r.from is Some && is_reported_as(m.from[0], r.from->0)
            &&& r.to.len() == m.to.len() && forall|i: int|
                0 <= i < m.to.len() ==> is_reported_as(#[trigger] m.to[i], r.to[i])
            &&& r.cc.len() == m.cc.len() && forall|i: int|
                0 <= i < m.cc.len() ==> is_reported_as(#[trigger] m.cc[i], r.cc[i])
            &&& m.subject matches Some(s) ==> (clean_text(s) ==> r.subject == s)
            &&& r.date is Some <==> m.date is Some
            &&& r.message_id is Some <==> m.message_id is Some
            &&& m.message_id matches Some(id) ==> (clean_text(id) ==> r.message_id == Some(
                seq!['<'] + id + seq!['>'],
            ))
            &&& r.in_reply_to is Some <==> m.in_reply_to.len() > 0
            &&& m.in_reply_to.len() > 0 && clean_text(m.in_reply_to[0]) ==> r.in_reply_to == Some(
                seq!['<'] + m.in_reply_to[0] + seq!['>'],
            )
            &&& r.references.len() == m.references.len() && forall|i: int|
                0 <= i < m.references.len() && clean_text(#[trigger] m.references[i])
                    ==> r.references[i] == seq!['<'] + m.references[i] + seq!['>']
            &&& m.text matches Some(t) ==> r.body_text == t
            &&& r.body_html == if html {
                m.html
            } else {
                None
            }
            &&& r.attachments.len() == m.attachments.len() && forall|i: int|
                0 <= i < m.attachments.len() ==> (#[trigger] r.attachments[i]).index == i
                    && r.attachments[i].size == m.attachments[i].size && (
                m.attachments[i].name matches Some(n) ==> (clean_text(n)
                    ==> r.attachments[i].filename == n))
        }),
{
    let r = reported_email(uid, folder, Some(m), flags, html);
    reveal_strlit("<");
    reveal_strlit(">");
    assert("<"@ =~= seq!['<']);
    assert(">"@ =~= seq!['>']);
    assert forall|a: MailAddrView| is_reported_as(a, #[trigger] reported_addr(a)) by {
        if let Some(x) = a.address {
            if clean_text(x) {
                lemma_clean_text(x);
            }
        }
        if let Some(n) = a.name {
            if clean_text(n) {
                lemma_clean_text(n);
            }
        }
    }
    if let Some(s) = m.subject {
        if clean_text(s) {
            lemma_clean_text(s);
        }
    }
    if let Some(id) = m.message_id {
        if clean_text(id) {
            lemma_clean_text(id);
        }
    }
    if m.in_reply_to.len() > 0 && clean_text(m.in_reply_to[0]) {
        lemma_clean_text(m.in_reply_to[0]);
    }
    assert forall|i: int|
        0 <= i < m.references.len() && clean_text(
            #[trigger] m.references[i],
        ) implies r.references[i] == seq!['<'] + m.references[i] + seq!['>'] by {
        lemma_clean_text(m.references[i]);
    }
    assert forall|i: int|
        0 <= i < m.attachments.len() implies (#[trigger] r.attachments[i]).index == i
        && r.attachments[i].size == m.attachments[i].size && (m.attachments[i].name matches Some(n) ==> (
    clean_text(n) ==> r.attachments[i].filename == n)) by {
        if let Some(n) = m.attachments[i].name {
            if clean_text(n) {
                lemma_clean_text(n);
            }
        }
    }
}

/// A message is reported with its date in UTC, and with the date as it was given
/// only where that reads otherwise; without a text part, its HTML is read as text;
/// and its two bodies are compared only where the HTML is asked for and both are
/// there.
pub proof fn reports_tell_dates_and_bodies(
    uid: u32,
    folder: Seq<char>,
    m: ParsedMailView,
    flags: Seq<Seq<char>>,
    html: bool,
)
    ensures
        ({
            let r = reported_email(uid, folder, Some(m), flags, html);
            &&& m.date matches Some(d) ==> match utc_civil(mail_timestamp(d)) {
                Some(c) => r.date == Some(utc_iso(c)) && r.date_original == (if datetime_text(d)
                    == utc_iso(c) {
                    None
                } else {
                    Some(datetime_text(d))
                }),
                None => r.date == Some(datetime_text(d)) && r.date_original is None,
            }
            &&& m.date is None ==> r.date_original is None
            &&& m.text is None ==> r.body_text == match m.html {
                Some(h) => html_as_text(h),
                None => Seq::empty(),
            }
            &&& r.body_parts_diverge ==> html && m.text is Some && m.html is Some
            &&& html ==> (m.text matches Some(t) ==> (m.html matches Some(h) ==> (
            r.body_parts_diverge <==> diverges(
                significant_set(t),
                significant_set(html_as_text(h)),
            ))))
        }),
{
}

/// A date with its own offset reads back: the year, month, day, hour, minute and
/// second in their places, and behind them a `Z` for UTC or the sign, hours and
/// minutes of the offset.
pub proof fn dates_tell_their_fields(d: MailDate)
    requires
        d.year < 10000,
        d.month < 100 && d.day < 100 && d.hour < 100 && d.minute < 100 && d.second < 100,
        d.tz_hour < 100 && d.tz_minute < 100,
    ensures
        ({
            let s = datetime_text(d);
            let at_utc = d.tz_hour == 0 && d.tz_minute == 0 && !d.tz_before_gmt;
            &&& digits_value(s.subrange(0, 4), 10) == Some(d.year as nat)
            &&& digits_value(s.subrange(5, 7), 10) == Some(d.month as nat)
            &&& digits_value(s.subrange(8, 10), 10) == Some(d.day as nat)
            &&& digits_value(s.subrange(11, 13), 10) == Some(d.hour as nat)
            &&& digits_value(s.subrange(14, 16), 10) == Some(d.minute as nat)
            &&& digits_value(s.subrange(17, 19), 10) == Some(d.second as nat)
            &&& at_utc ==> s.len() == 20 && s[19] == 'Z'
            &&& !at_utc ==> {
                &&& s.len() == 25
                &&& s[19] == if d.tz_before_gmt {
                    '-'
                } else {
                    '+'
                }
                &&& digits_value(s.subrange(20, 22), 10) == Some(d.tz_hour as nat)
                &&& s[22] == ':'
                &&& digits_value(s.subrange(23, 25), 10) == Some(d.tz_minute as nat)
            }
        }),
{
    reveal_strlit("Z");
    reveal_strlit("-");
    reveal_strlit("+");
    reveal_strlit(":");
    assert("Z"@.len() == 1 && "-"@.len() == 1 && "+"@.len() == 1 && ":"@.len() == 1);
    let year = padded(d.year as nat, 4);
    let stamp = stamp_text(
        year,
        d.month as nat,
        d.day as nat,
        d.hour as nat,
        d.minute as nat,
        d.second as nat,
    );
    let s = datetime_text(d);
    lemma_padded_reads_back(d.year as nat, 4);
    stamps_tell_their_fields(
        year,
        d.month as nat,
        d.day as nat,
        d.hour as nat,
        d.minute as nat,
        d.second as nat,
    );
    lemma_padded_reads_back(d.tz_hour as nat, 2);
    lemma_padded_reads_back(d.tz_minute as nat, 2);
    assert(s.subrange(0, 4) =~= stamp.subrange(0, 4));
    assert(s.subrange(5, 7) =~= stamp.subrange(5, 7));
    assert(s.subrange(8, 10) =~= stamp.subrange(8, 10));
    assert(s.subrange(11, 13) =~= stamp.subrange(11, 13));
    assert(s.subrange(14, 16) =~= stamp.subrange(14, 16));
    assert(s.subrange(17, 19) =~= stamp.subrange(17, 19));
    if !(d.tz_hour == 0 && d.tz_minute == 0 && !d.tz_before_gmt) {
        assert(s.subrange(20, 22) =~= padded(d.tz_hour as nat, 2));
        assert(s.subrange(23, 25) =~= padded(d.tz_minute as nat, 2));
    }
}

/// What the parser finds stands under the name of what it is.
pub proof fn parsed_fields_keep_their_names(raw: Seq<u8>)
    ensures
        parsed_mail(raw).from == from_of(raw),
        parsed_mail(raw).to == to_of(raw),
        parsed_mail(raw).cc == cc_of(raw),
        parsed_mail(raw).subject == subject_of(raw),
        parsed_mail(raw).date == date_of(raw),
        parsed_mail(raw).message_id == message_id_of(raw),
        parsed_mail(raw).in_reply_to == in_reply_to_of(raw),
        parsed_mail(raw).references == references_of(raw),
        parsed_mail(raw).text == text_of(raw),
        parsed_mail(raw).html == html_of(raw),
        parsed_mail(raw).attachments == attachments_of(raw),
{
}

} // verus!
