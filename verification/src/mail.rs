//! A received message as plain values: what the MIME parser finds in the raw
//! bytes.

use vstd::prelude::*;

use crate::text::opt_text;
use crate::text::texts;

verus! {

/// One mailbox of an address header.
#[derive(Debug, Clone)]
pub struct MailAddr {
    pub name: Option<String>,
    pub address: Option<String>,
}

/// The calendar fields of a `Date` header, with the sender's own offset.
#[derive(Debug, Clone, Copy, PartialEq, Eq, Structural)]
pub struct MailDate {
    pub year: u16,
    pub month: u8,
    pub day: u8,
    pub hour: u8,
    pub minute: u8,
    pub second: u8,
    pub tz_before_gmt: bool,
    pub tz_hour: u8,
    pub tz_minute: u8,
}

/// A MIME type: the type and, mostly, a subtype.
#[derive(Debug, Clone)]
pub struct MimeType {
    pub ctype: String,
    pub subtype: Option<String>,
}

/// One attachment, without its contents.
#[derive(Debug, Clone)]
pub struct MailPart {
    pub name: Option<String>,
    pub content_type: Option<MimeType>,
    pub size: usize,
}

/// What the parser finds in a message.
#[derive(Debug, Clone)]
pub struct ParsedMail {
    pub from: Vec<MailAddr>,
    pub to: Vec<MailAddr>,
    pub cc: Vec<MailAddr>,
    pub subject: Option<String>,
    pub date: Option<MailDate>,
    pub message_id: Option<String>,
    pub in_reply_to: Vec<String>,
    pub references: Vec<String>,
    pub text: Option<String>,
    pub html: Option<String>,
    pub attachments: Vec<MailPart>,
}

/// The value of one mailbox.
pub struct MailAddrView {
    pub name: Option<Seq<char>>,
    pub address: Option<Seq<char>>,
}

/// The value of a MIME type.
pub struct MimeTypeView {
    pub ctype: Seq<char>,
    pub subtype: Option<Seq<char>>,
}

/// The value of an attachment.
pub struct MailPartView {
    pub name: Option<Seq<char>>,
    pub content_type: Option<MimeTypeView>,
    pub size: nat,
}

impl View for MailAddr {
    type V = MailAddrView;

    open spec fn view(&self) -> MailAddrView {
        MailAddrView { name: opt_text(self.name), address: opt_text(self.address) }
    }
}

impl View for MimeType {
    type V = MimeTypeView;

    open spec fn view(&self) -> MimeTypeView {
        MimeTypeView { ctype: self.ctype@, subtype: opt_text(self.subtype) }
    }
}

/// The value of a MIME type that may be absent.
pub open spec fn opt_mime(o: Option<MimeType>) -> Option<MimeTypeView> {
    match o {
        Some(m) => Some(m@),
        None => None,
    }
}

impl View for MailPart {
    type V = MailPartView;

    open spec fn view(&self) -> MailPartView {
        MailPartView {
            name: opt_text(self.name),
            content_type: opt_mime(self.content_type),
            size: self.size as nat,
        }
    }
}

/// The values of a list of mailboxes.
pub open spec fn addr_views(v: Seq<MailAddr>) -> Seq<MailAddrView> {
    v.map_values(|a: MailAddr| a@)
}

/// The values of a list of attachments.
pub open spec fn part_views(v: Seq<MailPart>) -> Seq<MailPartView> {
    v.map_values(|p: MailPart| p@)
}

/// The value of a parsed message.
pub struct ParsedMailView {
    pub from: Seq<MailAddrView>,
    pub to: Seq<MailAddrView>,
    pub cc: Seq<MailAddrView>,
    pub subject: Option<Seq<char>>,
    pub date: Option<MailDate>,
    pub message_id: Option<Seq<char>>,
    pub in_reply_to: Seq<Seq<char>>,
    pub references: Seq<Seq<char>>,
    pub text: Option<Seq<char>>,
    pub html: Option<Seq<char>>,
    pub attachments: Seq<MailPartView>,
}

impl View for ParsedMail {
    type V = ParsedMailView;

    open spec fn view(&self) -> ParsedMailView {
        ParsedMailView {
            from: addr_views(self.from@),
            to: addr_views(self.to@),
            cc: addr_views(self.cc@),
            subject: opt_text(self.subject),
            date: self.date,
            message_id: opt_text(self.message_id),
            in_reply_to: texts(self.in_reply_to@),
            references: texts(self.references@),
            text: opt_text(self.text),
            html: opt_text(self.html),
            attachments: part_views(self.attachments@),
        }
    }
}

// ---------------------------------------------------------------------------
// The parser
// ---------------------------------------------------------------------------

/// A message as `mail_parser` holds it.
#[verifier::external_type_specification]
#[verifier::external_body]
pub struct ExMessage<'x>(mail_parser::Message<'x>);

/// The raw bytes that a parsed message was read from.
pub uninterp spec fn message_source(m: mail_parser::Message<'_>) -> Seq<u8>;

/// Whether `mail_parser` reads the bytes as a message.
pub uninterp spec fn is_message(raw: Seq<u8>) -> bool;

/// `mail_parser::MessageParser::parse` with its default settings: a message
/// over exactly these bytes, or nothing; which of the two depends on the bytes
/// alone.
#[verifier::external_body]
fn parse_message<'x>(raw: &'x [u8]) -> (m: Option<mail_parser::Message<'x>>)
    ensures
        m is Some == is_message(raw@),
        m is Some ==> message_source(m->0) == raw@,
{
    mail_parser::MessageParser::default().parse(raw)
}

/// The mailboxes of the `From` header of a raw message.
pub uninterp spec fn from_of(raw: Seq<u8>) -> Seq<MailAddrView>;

/// `mail_parser::Message::from`, each mailbox with its name and its address in
/// order, those of groups included; none where the header is missing. They
/// depend on the bytes of the message alone.
#[verifier::external_body]
fn mail_from(m: &mail_parser::Message<'_>) -> (r: Vec<MailAddr>)
    ensures
        addr_views(r@) == from_of(message_source(*m)),
{
    let list = m.from();
    list.map_or_else(Vec::new, |l| {
        let one = |a: &mail_parser::Addr<'_>| MailAddr {
            name: a.name().map(String::from),
            address: a.address().map(String::from),
        };
        l.iter().map(one).collect()
    })
}

/// The mailboxes of the `To` header of a raw message.
pub uninterp spec fn to_of(raw: Seq<u8>) -> Seq<MailAddrView>;

/// `mail_parser::Message::to`, each mailbox with its name and its address in
/// order, those of groups included; none where the header is missing. They
/// depend on the bytes of the message alone.
#[verifier::external_body]
fn mail_to(m: &mail_parser::Message<'_>) -> (r: Vec<MailAddr>)
    ensures
        addr_views(r@) == to_of(message_source(*m)),
{
    let list = m.to();
    list.map_or_else(Vec::new, |l| {
        let one = |a: &mail_parser::Addr<'_>| MailAddr {
            name: a.name().map(String::from),
            address: a.address().map(String::from),
        };
        l.iter().map(one).collect()
    })
}

/// The mailboxes of the `Cc` header of a raw message.
pub uninterp spec fn cc_of(raw: Seq<u8>) -> Seq<MailAddrView>;

/// `mail_parser::Message::cc`, each mailbox with its name and its address in
/// order, those of groups included; none where the header is missing. They
/// depend on the bytes of the message alone.
#[verifier::external_body]
fn mail_cc(m: &mail_parser::Message<'_>) -> (r: Vec<MailAddr>)
    ensures
        addr_views(r@) == cc_of(message_source(*m)),
{
    let list = m.cc();
    list.map_or_else(Vec::new, |l| {
        let one = |a: &mail_parser::Addr<'_>| MailAddr {
            name: a.name().map(String::from),
            address: a.address().map(String::from),
        };
        l.iter().map(one).collect()
    })
}

/// The subject of a raw message.
pub uninterp spec fn subject_of(raw: Seq<u8>) -> Option<Seq<char>>;

/// `mail_parser::Message::subject`: the decoded subject, a function of the
/// bytes of the message.
#[verifier::external_body]
fn mail_subject(m: &mail_parser::Message<'_>) -> (r: Option<String>)
    ensures
        opt_text(r) == subject_of(message_source(*m)),
{
    m.subject().map(String::from)
}

/// The date of a raw message.
pub uninterp spec fn date_of(raw: Seq<u8>) -> Option<MailDate>;

/// `mail_parser::Message::date`: the fields of the `Date` header, a function of
/// the bytes of the message.
#[verifier::external_body]
fn mail_date(m: &mail_parser::Message<'_>) -> (r: Option<MailDate>)
    ensures
        r == date_of(message_source(*m)),
{
    m.date().map(|d| MailDate {
        year: d.year,
        month: d.month,
        day: d.day,
        hour: d.hour,
        minute: d.minute,
        second: d.second,
        tz_before_gmt: d.tz_before_gmt,
        tz_hour: d.tz_hour,
        tz_minute: d.tz_minute,
    })
}

/// The `Message-ID` of a raw message.
pub uninterp spec fn message_id_of(raw: Seq<u8>) -> Option<Seq<char>>;

/// `mail_parser::Message::message_id`: the id without its brackets, a function
/// of the bytes of the message.
#[verifier::external_body]
fn mail_message_id(m: &mail_parser::Message<'_>) -> (r: Option<String>)
    ensures
        opt_text(r) == message_id_of(message_source(*m)),
{
    m.message_id().map(String::from)
}

/// The ids of the `In-Reply-To` header of a raw message.
pub uninterp spec fn in_reply_to_of(raw: Seq<u8>) -> Seq<Seq<char>>;

/// `mail_parser::Message::in_reply_to` as a list of ids without brackets, empty
/// where the header is missing; a function of the bytes of the message.
#[verifier::external_body]
fn mail_in_reply_to(m: &mail_parser::Message<'_>) -> (r: Vec<String>)
    ensures
        texts(r@) == in_reply_to_of(message_source(*m)),
{
    let list = m.in_reply_to().as_text_list();
    list.map_or_else(Vec::new, |l| l.iter().map(|s| s.to_string()).collect())
}

/// The ids of the `References` header of a raw message.
pub uninterp spec fn references_of(raw: Seq<u8>) -> Seq<Seq<char>>;

/// `mail_parser::Message::references` as a list of ids without brackets, empty
/// where the header is missing; a function of the bytes of the message.
#[verifier::external_body]
fn mail_references(m: &mail_parser::Message<'_>) -> (r: Vec<String>)
    ensures
        texts(r@) == references_of(message_source(*m)),
{
    let list = m.references().as_text_list();
    list.map_or_else(Vec::new, |l| l.iter().map(|s| s.to_string()).collect())
}

/// The first text body of a raw message.
pub uninterp spec fn text_of(raw: Seq<u8>) -> Option<Seq<char>>;

/// `mail_parser::Message::body_text` of the first text part, a function of the
/// bytes of the message.
#[verifier::external_body]
fn mail_text(m: &mail_parser::Message<'_>) -> (r: Option<String>)
    ensures
        opt_text(r) == text_of(message_source(*m)),
{
    m.body_text(0).map(|t| t.into_owned())
}

/// The first HTML body of a raw message.
pub uninterp spec fn html_of(raw: Seq<u8>) -> Option<Seq<char>>;

/// `mail_parser::Message::body_html` of the first HTML part, a function of the
/// bytes of the message.
#[verifier::external_body]
fn mail_html(m: &mail_parser::Message<'_>) -> (r: Option<String>)
    ensures
        opt_text(r) == html_of(message_source(*m)),
{
    m.body_html(0).map(|t| t.into_owned())
}

/// The attachments of a raw message.
pub uninterp spec fn attachments_of(raw: Seq<u8>) -> Seq<MailPartView>;

/// `mail_parser::Message::attachments`: the name, the MIME type and the length
/// of each attachment in order, a function of the bytes of the message.
#[verifier::external_body]
fn mail_attachments(m: &mail_parser::Message<'_>) -> (r: Vec<MailPart>)
    ensures
        part_views(r@) == attachments_of(message_source(*m)),
{
    let part = |a: &mail_parser::MessagePart<'_>| MailPart {
        name: mail_parser::MimeHeaders::attachment_name(a).map(String::from),
        content_type: mail_parser::MimeHeaders::content_type(a).map(|c| MimeType {
            ctype: c.ctype().to_string(),
            subtype: c.subtype().map(String::from),
        }),
        size: a.len(),
    };
    m.attachments().map(part).collect()
}

/// The contents of one attachment of a raw message.
pub uninterp spec fn attachment_bytes_of(raw: Seq<u8>, index: nat) -> Seq<u8>;

/// `mail_parser::MessagePart::contents` of the attachment at a position: the
/// decoded bytes, a function of the bytes of the message and the position;
/// nothing where the message has no such attachment.
#[verifier::external_body]
fn mail_attachment_bytes(m: &mail_parser::Message<'_>, index: usize) -> (r: Option<Vec<u8>>)
    ensures
        r is Some == (index < attachments_of(message_source(*m)).len()),
        r is Some ==> r->0@ == attachment_bytes_of(message_source(*m), index as nat),
{
    m.attachments().nth(index).map(|a| a.contents().to_vec())
}

/// The Unix second of a date with its offset.
pub uninterp spec fn mail_timestamp(d: MailDate) -> i64;

/// `mail_parser::DateTime::to_timestamp`: the Unix second of a date with its
/// offset, a function of the fields.
#[verifier::external_body]
pub(crate) fn date_timestamp(d: MailDate) -> (second: i64)
    ensures
        second == mail_timestamp(d),
{
    let (year, month, day) = (d.year, d.month, d.day);
    let (hour, minute, second) = (d.hour, d.minute, d.second);
    let (tz_before_gmt, tz_hour, tz_minute) = (d.tz_before_gmt, d.tz_hour, d.tz_minute);
    mail_parser::DateTime { year, month, day, hour, minute, second, tz_before_gmt, tz_hour, tz_minute }
        .to_timestamp()
}

// ---------------------------------------------------------------------------
// Reading
// ---------------------------------------------------------------------------

/// What the parser finds in raw bytes that are a message.
pub open spec fn parsed_mail(raw: Seq<u8>) -> ParsedMailView {
    ParsedMailView {
        from: from_of(raw),
        to: to_of(raw),
        cc: cc_of(raw),
        subject: subject_of(raw),
        date: date_of(raw),
        message_id: message_id_of(raw),
        in_reply_to: in_reply_to_of(raw),
        references: references_of(raw),
        text: text_of(raw),
        html: html_of(raw),
        attachments: attachments_of(raw),
    }
}

/// Parses raw bytes into plain values; nothing where they are no message. The
/// HTML body is read only on request.
pub fn read_mail(raw: &[u8], include_html: bool) -> (mail: Option<ParsedMail>)
    ensures
        mail is Some == is_message(raw@),
        mail is Some && include_html ==> mail->0@ == parsed_mail(raw@),
        mail is Some && !include_html ==> mail->0@ == (ParsedMailView {
            html: if text_of(raw@) is Some { None } else { html_of(raw@) },
            ..parsed_mail(raw@)
        }),
{
    let m = match parse_message(raw) {
        Some(m) => m,
        None => {
            return None;
        },
    };
    let text = mail_text(&m);
    let html = if include_html || text.is_none() {
        mail_html(&m)
    } else {
        None
    };
    Some(
        ParsedMail {
            from: mail_from(&m),
            to: mail_to(&m),
            cc: mail_cc(&m),
            subject: mail_subject(&m),
            date: mail_date(&m),
            message_id: mail_message_id(&m),
            in_reply_to: mail_in_reply_to(&m),
            references: mail_references(&m),
            text,
            html,
            attachments: mail_attachments(&m),
        },
    )
}

/// The attachments of raw bytes that are a message, and the contents of the
/// one at a position.
pub fn read_attachment(raw: &[u8], index: usize) -> (bytes: Option<Vec<u8>>)
    ensures
        bytes is Some == (is_message(raw@) && index < attachments_of(raw@).len()),
        bytes is Some ==> bytes->0@ == attachment_bytes_of(raw@, index as nat),
{
    match parse_message(raw) {
        Some(m) => mail_attachment_bytes(&m, index),
        None => None,
    }
}

} // verus!
