//! Messages under construction: headers, recipients and the tree of parts.

use mail_builder::headers::address::Address;
use mail_builder::headers::content_type::ContentType;
use mail_builder::headers::message_id::MessageId;
use mail_builder::headers::raw::Raw;
use mail_builder::headers::text::Text;
use mail_builder::mime::MimePart;
use mail_builder::MessageBuilder;
use vstd::prelude::*;

use crate::text::opt_text;

verus! {

/// A draft's recipient: a display name where there is one, and the address.
pub type Recipient = (Option<String>, String);

/// The value of a recipient.
pub type RecipientView = (Option<Seq<char>>, Seq<char>);

/// The value of a recipient.
pub open spec fn recipient_view(r: Recipient) -> RecipientView {
    (opt_text(r.0), r.1@)
}

/// The values of a list of recipients.
pub open spec fn recipient_views(l: Seq<Recipient>) -> Seq<RecipientView> {
    l.map_values(|r: Recipient| recipient_view(r))
}

/// What a header of a message holds.
pub enum HeaderValue {
    /// Words, which are encoded where they need it.
    Text(String),
    /// A text that is written as it is.
    Raw(String),
    /// A message id, which is written in angle brackets.
    Id(String),
    /// One mailbox.
    Mailbox(Recipient),
    /// Several mailboxes.
    Mailboxes(Vec<Recipient>),
}

/// The value of a header.
pub enum HeaderView {
    Text(Seq<char>),
    Raw(Seq<char>),
    Id(Seq<char>),
    Mailbox(RecipientView),
    Mailboxes(Seq<RecipientView>),
}

impl View for HeaderValue {
    type V = HeaderView;

    open spec fn view(&self) -> HeaderView {
        match self {
            HeaderValue::Text(t) => HeaderView::Text(t@),
            HeaderValue::Raw(t) => HeaderView::Raw(t@),
            HeaderValue::Id(t) => HeaderView::Id(t@),
            HeaderValue::Mailbox(r) => HeaderView::Mailbox(recipient_view(*r)),
            HeaderValue::Mailboxes(l) => HeaderView::Mailboxes(recipient_views(l@)),
        }
    }
}

/// What a part of a message holds.
pub enum ContentsView {
    Text(Seq<char>),
    Binary(Seq<u8>),
    Parts(Seq<PartView>),
}

/// A part of a message: its type, its content id, its disposition with a file
/// name, and its contents.
pub struct PartView {
    pub content_type: Seq<char>,
    pub cid: Option<Seq<char>>,
    pub disposition: Option<(Seq<char>, Seq<char>)>,
    pub contents: ContentsView,
}

/// A message under construction: its headers in order, the two bodies and the
/// files of the usual layout, and a layout of its own where it has one.
pub struct MessageView {
    pub headers: Seq<(Seq<char>, HeaderView)>,
    pub plain: Option<Seq<char>>,
    pub html: Option<Seq<char>>,
    pub files: Seq<PartView>,
    pub body: Option<PartView>,
}

/// A part with nothing but its type and contents.
pub open spec fn bare_part(content_type: Seq<char>, contents: ContentsView) -> PartView {
    PartView { content_type, cid: None, disposition: None, contents }
}

/// A file that is appended to a message.
pub open spec fn file_part(content_type: Seq<char>, filename: Seq<char>, bytes: Seq<u8>) -> PartView {
    PartView {
        content_type,
        cid: None,
        disposition: Some(("attachment"@, filename)),
        contents: ContentsView::Binary(bytes),
    }
}

/// A message under construction.
#[verifier::external_type_specification]
#[verifier::external_body]
pub struct ExMessageBuilder<'x>(mail_builder::MessageBuilder<'x>);

/// A part of a message.
#[verifier::external_type_specification]
#[verifier::external_body]
pub struct ExMimePart<'x>(mail_builder::mime::MimePart<'x>);

/// What a message under construction holds.
pub uninterp spec fn held(b: MessageBuilder<'static>) -> MessageView;

/// What a part holds.
pub uninterp spec fn part_of(p: MimePart<'static>) -> PartView;

/// The bytes are a form of the message: one of those that differ in the
/// boundaries between parts.
pub uninterp spec fn is_form_of(bytes: Seq<u8>, message: MessageView) -> bool;

/// The parts of a list.
pub open spec fn parts_of(l: Seq<MimePart<'static>>) -> Seq<PartView> {
    l.map_values(|p: MimePart<'static>| part_of(p))
}

/// `mail_builder::MessageBuilder::new`: an empty message.
#[verifier::external_body]
pub(crate) fn new_message() -> (b: MessageBuilder<'static>)
    ensures
        held(b) == (MessageView {
            headers: Seq::empty(),
            plain: None,
            html: None,
            files: Seq::empty(),
            body: None,
        }),
{
    MessageBuilder::new()
}

/// `mail_builder::MessageBuilder::header`: appends a header under a name, with
/// the value as one of mail-builder's text, raw, message id and address headers.
#[verifier::external_body]
pub(crate) fn put_header(b: MessageBuilder<'static>, name: &'static str, value: HeaderValue) -> (out:
    MessageBuilder<'static>)
    ensures
        held(out) == (MessageView {
            headers: held(b).headers.push((name@, value@)),
            ..held(b)
        }),
{
    let one = |r: Recipient| Address::new_address(r.0, r.1);
    match value {
        HeaderValue::Text(t) => b.header(name, Text::new(t)),
        HeaderValue::Raw(t) => b.header(name, Raw::new(t)),
        HeaderValue::Id(t) => b.header(name, MessageId::new(t)),
        HeaderValue::Mailbox(r) => b.header(name, one(r)),
        HeaderValue::Mailboxes(l) => b.header(name, Address::new_list(l.into_iter().map(one).collect())),
    }
}

/// `mail_builder::MessageBuilder::text_body`: sets the plain-text body.
#[verifier::external_body]
pub(crate) fn put_plain(b: MessageBuilder<'static>, text: String) -> (out: MessageBuilder<'static>)
    ensures
        held(out) == (MessageView { plain: Some(text@), ..held(b) }),
{
    b.text_body(text)
}

/// `mail_builder::MessageBuilder::html_body`: sets the HTML body.
#[verifier::external_body]
pub(crate) fn put_html(b: MessageBuilder<'static>, text: String) -> (out: MessageBuilder<'static>)
    ensures
        held(out) == (MessageView { html: Some(text@), ..held(b) }),
{
    b.html_body(text)
}

/// `mail_builder::MessageBuilder::attachment`: appends a file.
#[verifier::external_body]
pub(crate) fn put_file(
    b: MessageBuilder<'static>,
    content_type: &'static str,
    filename: String,
    bytes: Vec<u8>,
) -> (out: MessageBuilder<'static>)
    ensures
        held(out) == (MessageView {
            files: held(b).files.push(file_part(content_type@, filename@, bytes@)),
            ..held(b)
        }),
{
    b.attachment(content_type, filename, bytes)
}

/// `mail_builder::MessageBuilder::body`: sets a layout of its own, which stands
/// in place of the two bodies and the files.
#[verifier::external_body]
pub(crate) fn put_body(b: MessageBuilder<'static>, part: MimePart<'static>) -> (out: MessageBuilder<
    'static,
>)
    ensures
        held(out) == (MessageView { body: Some(part_of(part)), ..held(b) }),
{
    b.body(part)
}

/// `mail_builder::mime::MimePart::new` with a text.
#[verifier::external_body]
pub(crate) fn text_part(content_type: &'static str, text: String) -> (p: MimePart<'static>)
    ensures
        part_of(p) == bare_part(content_type@, ContentsView::Text(text@)),
{
    MimePart::new(content_type, text)
}

/// `mail_builder::mime::MimePart::new` with bytes.
#[verifier::external_body]
pub(crate) fn binary_part(content_type: &'static str, bytes: Vec<u8>) -> (p: MimePart<'static>)
    ensures
        part_of(p) == bare_part(content_type@, ContentsView::Binary(bytes@)),
{
    MimePart::new(content_type, bytes)
}

/// `mail_builder::mime::MimePart::new` with further parts.
#[verifier::external_body]
pub(crate) fn multi_part(content_type: &'static str, parts: Vec<MimePart<'static>>) -> (p: MimePart<
    'static,
>)
    ensures
        part_of(p) == bare_part(content_type@, ContentsView::Parts(parts_of(parts@))),
{
    MimePart::new(content_type, parts)
}

/// `mail_builder::mime::MimePart::cid`: gives a part its content id.
#[verifier::external_body]
pub(crate) fn with_cid(p: MimePart<'static>, cid: String) -> (out: MimePart<'static>)
    requires
        part_of(p).cid is None,
    ensures
        part_of(out) == (PartView { cid: Some(cid@), ..part_of(p) }),
{
    p.cid(cid)
}

/// `mail_builder::mime::MimePart::header` with a content disposition and a file
/// name.
#[verifier::external_body]
pub(crate) fn with_disposition(p: MimePart<'static>, kind: &'static str, filename: String) -> (out:
    MimePart<'static>)
    requires
        part_of(p).disposition is None,
    ensures
        part_of(out) == (PartView { disposition: Some((kind@, filename@)), ..part_of(p) }),
{
    p.header("Content-Disposition", ContentType::new(kind).attribute("filename", filename))
}

/// `mail_builder::MessageBuilder::write_to_vec`: the message as bytes, in one of
/// its forms. The boundaries between parts come from the clock and the thread,
/// so the bytes differ from call to call. Writing fails only where the writer
/// does, which a vector never does.
#[verifier::external_body]
pub(crate) fn write_message(b: MessageBuilder<'static>) -> (r: Result<Vec<u8>, String>)
    ensures
        r is Ok,
        is_form_of(r->Ok_0@, held(b)),
{
    b.write_to_vec().map_err(|e| e.to_string())
}

} // verus!
