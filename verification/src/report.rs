//! Messages as JSON.

use vstd::prelude::*;

use crate::email::address_views;
use crate::email::attachment_views;
use crate::email::opt_address;
use crate::email::AddressView;
use crate::email::AttachmentInfo;
use crate::email::AttachmentView;
use crate::email::EmailAddress;
use crate::email::EmailFull;
use crate::email::EmailSummary;
use crate::json::item_views;
use crate::json::items_under;
use crate::json::json_strings;
use crate::json::lemma_arr_view;
use crate::json::lemma_texts_read;
use crate::json::member_if;
use crate::json::number_under;
use crate::json::opt_member;
use crate::json::str_or_null;
use crate::json::strings_view;
use crate::json::text_under;
use crate::json::texts_under;
use crate::json::truth_under;
use crate::json::value_under;
use crate::json::Json;
use crate::json::JsonView;
use crate::json::Members;
use crate::lookup::count_below;
use crate::lookup::last_below;
use crate::text::opt_text;
use crate::text::texts;

verus! {

/// A mailbox as JSON; the name is there only where one is known.
pub open spec fn address_json(a: AddressView) -> JsonView {
    JsonView::Obj(opt_member("name"@, a.name).push(("address"@, JsonView::Str(a.address))))
}

/// Mailboxes as a JSON array.
pub open spec fn addresses_json(l: Seq<AddressView>) -> JsonView {
    JsonView::Arr(l.map_values(|a: AddressView| address_json(a)))
}

/// A mailbox as JSON, null where there is none.
pub open spec fn opt_address_json(o: Option<AddressView>) -> JsonView {
    match o {
        Some(a) => address_json(a),
        None => JsonView::Null,
    }
}

fn address_value(a: &EmailAddress) -> (j: Json)
    ensures
        j@ == address_json(a@),
{
    let mut m = Members::new();
    m.put_opt_str("name", &a.name);
    m.put_str("address", a.address.as_str());
    proof {
        assert(m@ =~= opt_member("name"@, opt_text(a.name)).push(
            ("address"@, JsonView::Str(a.address@)),
        ));
    }
    m.done()
}

fn addresses_value(v: &Vec<EmailAddress>) -> (j: Json)
    ensures
        j@ == addresses_json(address_views(v@)),
{
    let mut items: Vec<Json> = Vec::new();
    let mut i: usize = 0;
    let ghost want = address_views(v@).map_values(|a: AddressView| address_json(a));
    while i < v.len()
        invariant
            i <= v@.len(),
            want == address_views(v@).map_values(|a: AddressView| address_json(a)),
            item_views(items@) =~= want.take(i as int),
        decreases v@.len() - i,
    {
        let ghost before = item_views(items@);
        let item = address_value(&v[i]);
        items.push(item);
        proof {
            assert(item_views(items@) =~= before.push(item@));
        }
        i += 1;
    }
    proof {
        assert(want.take(want.len() as int) =~= want);
        lemma_arr_view(items);
    }
    Json::Arr(items)
}

fn opt_address_value(o: &Option<EmailAddress>) -> (j: Json)
    ensures
        j@ == opt_address_json(opt_address(*o)),
{
    match o {
        Some(a) => address_value(a),
        None => Json::Null,
    }
}

/// An attachment as JSON.
pub open spec fn attachment_json(a: AttachmentView) -> JsonView {
    JsonView::Obj(
        seq![
            ("index"@, JsonView::Num(a.index)),
            ("filename"@, JsonView::Str(a.filename)),
            ("content_type"@, JsonView::Str(a.content_type)),
            ("size"@, JsonView::Num(a.size)),
        ],
    )
}

fn attachments_value(v: &Vec<AttachmentInfo>) -> (j: Json)
    ensures
        j@ == JsonView::Arr(
            attachment_views(v@).map_values(|a: AttachmentView| attachment_json(a)),
        ),
{
    let mut items: Vec<Json> = Vec::new();
    let mut i: usize = 0;
    let ghost want = attachment_views(v@).map_values(|a: AttachmentView| attachment_json(a));
    while i < v.len()
        invariant
            i <= v@.len(),
            want == attachment_views(v@).map_values(|a: AttachmentView| attachment_json(a)),
            item_views(items@) =~= want.take(i as int),
        decreases v@.len() - i,
    {
        let ghost before = item_views(items@);
        let mut m = Members::new();
        m.put_num("index", v[i].index as u64);
        m.put_str("filename", v[i].filename.as_str());
        m.put_str("content_type", v[i].content_type.as_str());
        m.put_num("size", v[i].size as u64);
        proof {
            assert(JsonView::Obj(m@) == attachment_json(v@[i as int]@)) by {
                assert(m@ =~= attachment_json(v@[i as int]@)->Obj_0);
            }
        }
        let item = m.done();
        items.push(item);
        proof {
            assert(item_views(items@) =~= before.push(item@));
        }
        i += 1;
    }
    proof {
        assert(want.take(want.len() as int) =~= want);
        lemma_arr_view(items);
    }
    Json::Arr(items)
}

/// A row reduced to what triage needs.
pub open spec fn compact_row(s: EmailSummary) -> JsonView {
    JsonView::Obj(
        seq![
            ("uid"@, JsonView::Num(s.uid as nat)),
            ("folder"@, JsonView::Str(s.folder@)),
            ("subject"@, JsonView::Str(s.subject@)),
            ("has_attachments"@, JsonView::Bool(s.has_attachments)),
        ] + (match opt_address(s.from) {
            Some(a) => seq![("from"@, JsonView::Str(a.address))],
            None => Seq::empty(),
        }) + opt_member("date"@, opt_text(s.date)) + opt_member(
            "internal_date"@,
            opt_text(s.internal_date),
        ) + member_if(s.flags@.len() > 0, "flags"@, strings_view(texts(s.flags@))) + (
        match s.thread_message_count {
            Some(n) => seq![("thread_message_count"@, JsonView::Num(n as nat))],
            None => Seq::empty(),
        }),
    )
}

/// What identifies a row, and how it is threaded.
pub open spec fn row_identity(s: EmailSummary) -> Seq<(Seq<char>, JsonView)> {
    seq![("uid"@, JsonView::Num(s.uid as nat)), ("folder"@, JsonView::Str(s.folder@))]
        + opt_member("folder_display"@, opt_text(s.folder_display)) + opt_member(
        "message_id"@,
        opt_text(s.message_id),
    ) + opt_member("in_reply_to"@, opt_text(s.in_reply_to)) + member_if(
        s.references@.len() > 0,
        "references"@,
        strings_view(texts(s.references@)),
    )
}

/// Who wrote to whom, about what and when.
pub open spec fn row_envelope(s: EmailSummary) -> Seq<(Seq<char>, JsonView)> {
    seq![
        ("from"@, opt_address_json(opt_address(s.from))),
        ("to"@, addresses_json(address_views(s.to@))),
        ("to_count"@, JsonView::Num(s.to_count as nat)),
        ("cc_count"@, JsonView::Num(s.cc_count as nat)),
        ("subject"@, JsonView::Str(s.subject@)),
        ("date"@, str_or_null(opt_text(s.date))),
    ] + opt_member("date_original"@, opt_text(s.date_original)) + opt_member(
        "internal_date"@,
        opt_text(s.internal_date),
    )
}

/// The state and the contents of a row.
pub open spec fn row_state(s: EmailSummary) -> Seq<(Seq<char>, JsonView)> {
    seq![
        ("flags"@, strings_view(texts(s.flags@))),
        ("has_attachments"@, JsonView::Bool(s.has_attachments)),
        ("snippet"@, JsonView::Str(s.snippet@)),
    ] + (match s.thread_message_count {
        Some(n) => seq![("thread_message_count"@, JsonView::Num(n as nat))],
        None => Seq::empty(),
    })
}

/// A row with everything that a summary holds.
pub open spec fn full_row(s: EmailSummary) -> JsonView {
    JsonView::Obj(row_identity(s) + row_envelope(s) + row_state(s))
}

impl EmailSummary {
    /// The row reduced to what triage needs. What is left out can be had per
    /// message; optional members are absent rather than null.
    pub fn compact(&self) -> (j: Json)
        ensures
            j@ == compact_row(*self),
    {
        let mut m = Members::new();
        m.put_num("uid", self.uid as u64);
        m.put_str("folder", self.folder.as_str());
        m.put_str("subject", self.subject.as_str());
        m.put_bool("has_attachments", self.has_attachments);
        if let Some(from) = &self.from {
            m.put_str("from", from.address.as_str());
        }
        m.put_opt_str("date", &self.date);
        m.put_opt_str("internal_date", &self.internal_date);
        if self.flags.len() > 0 {
            m.put("flags", json_strings(&self.flags));
        }
        if let Some(n) = self.thread_message_count {
            m.put_num("thread_message_count", n as u64);
        }
        proof {
            assert(m@ =~= compact_row(*self)->Obj_0);
        }
        m.done()
    }

    fn put_identity(&self, m: &mut Members)
        ensures
            final(m)@ == old(m)@ + row_identity(*self),
    {
        let ghost start = m@;
        m.put_num("uid", self.uid as u64);
        m.put_str("folder", self.folder.as_str());
        m.put_opt_str("folder_display", &self.folder_display);
        m.put_opt_str("message_id", &self.message_id);
        m.put_opt_str("in_reply_to", &self.in_reply_to);
        if self.references.len() > 0 {
            m.put("references", json_strings(&self.references));
        }
        proof {
            assert(m@ =~= start + row_identity(*self));
        }
    }

    fn put_envelope(&self, m: &mut Members)
        ensures
            final(m)@ == old(m)@ + row_envelope(*self),
    {
        let ghost start = m@;
        m.put("from", opt_address_value(&self.from));
        m.put("to", addresses_value(&self.to));
        m.put_num("to_count", self.to_count as u64);
        m.put_num("cc_count", self.cc_count as u64);
        m.put_str("subject", self.subject.as_str());
        m.put_str_or_null("date", &self.date);
        m.put_opt_str("date_original", &self.date_original);
        m.put_opt_str("internal_date", &self.internal_date);
        proof {
            assert(m@ =~= start + row_envelope(*self));
        }
    }

    fn put_state(&self, m: &mut Members)
        ensures
            final(m)@ == old(m)@ + row_state(*self),
    {
        let ghost start = m@;
        m.put("flags", json_strings(&self.flags));
        m.put_bool("has_attachments", self.has_attachments);
        m.put_str("snippet", self.snippet.as_str());
        if let Some(n) = self.thread_message_count {
            m.put_num("thread_message_count", n as u64);
        }
        proof {
            assert(m@ =~= start + row_state(*self));
        }
    }

    /// The row with everything that the summary holds.
    pub fn full(&self) -> (j: Json)
        ensures
            j@ == full_row(*self),
    {
        let mut m = Members::new();
        self.put_identity(&mut m);
        self.put_envelope(&mut m);
        self.put_state(&mut m);
        proof {
            assert(m@ =~= row_identity(*self) + row_envelope(*self) + row_state(*self));
        }
        m.done()
    }
}

/// A message with its body as JSON.
pub open spec fn email_json(e: EmailFull) -> JsonView {
    JsonView::Obj(
        seq![
            ("uid"@, JsonView::Num(e.uid as nat)),
            ("folder"@, JsonView::Str(e.folder@)),
            ("from"@, opt_address_json(opt_address(e.from))),
            ("to"@, addresses_json(address_views(e.to@))),
            ("cc"@, addresses_json(address_views(e.cc@))),
            ("subject"@, JsonView::Str(e.subject@)),
            ("date"@, str_or_null(opt_text(e.date))),
        ] + opt_member("date_original"@, opt_text(e.date_original)) + seq![
            ("message_id"@, str_or_null(opt_text(e.message_id))),
            ("in_reply_to"@, str_or_null(opt_text(e.in_reply_to))),
            ("references"@, strings_view(texts(e.references@))),
            ("flags"@, strings_view(texts(e.flags@))),
            ("body_text"@, JsonView::Str(e.body_text@)),
            ("body_html"@, str_or_null(opt_text(e.body_html))),
            (
                "attachments"@,
                JsonView::Arr(
                    attachment_views(e.attachments@).map_values(
                        |a: AttachmentView| attachment_json(a),
                    ),
                ),
            ),
        ] + member_if(e.body_parts_diverge, "body_parts_diverge"@, JsonView::Bool(true)),
    )
}

impl EmailFull {
    /// The message with its body as JSON.
    pub fn to_json(&self) -> (j: Json)
        ensures
            j@ == email_json(*self),
    {
        let mut m = Members::new();
        m.put_num("uid", self.uid as u64);
        m.put_str("folder", self.folder.as_str());
        m.put("from", opt_address_value(&self.from));
        m.put("to", addresses_value(&self.to));
        m.put("cc", addresses_value(&self.cc));
        m.put_str("subject", self.subject.as_str());
        m.put_str_or_null("date", &self.date);
        m.put_opt_str("date_original", &self.date_original);
        m.put_str_or_null("message_id", &self.message_id);
        m.put_str_or_null("in_reply_to", &self.in_reply_to);
        m.put("references", json_strings(&self.references));
        m.put("flags", json_strings(&self.flags));
        m.put_str("body_text", self.body_text.as_str());
        m.put_str_or_null("body_html", &self.body_html);
        m.put("attachments", attachments_value(&self.attachments));
        if self.body_parts_diverge {
            m.put_bool("body_parts_diverge", true);
        }
        proof {
            assert(m@ =~= email_json(*self)->Obj_0);
        }
        m.done()
    }
}

// ---------------------------------------------------------------------------
// Laws
// ---------------------------------------------------------------------------

/// The mailbox that an object tells.
pub open spec fn mailbox_read(j: JsonView) -> AddressView {
    AddressView {
        name: text_under(j, "name"@),
        address: match text_under(j, "address"@) {
            Some(t) => t,
            None => Seq::empty(),
        },
    }
}

/// The mailboxes that the list under a key tells.
pub open spec fn mailboxes_under(j: JsonView, key: Seq<char>) -> Option<Seq<AddressView>> {
    match items_under(j, key) {
        Some(l) => Some(l.map_values(|i: JsonView| mailbox_read(i))),
        None => None,
    }
}

/// The mailbox that the object under a key tells; nothing where there is null.
pub open spec fn mailbox_under(j: JsonView, key: Seq<char>) -> Option<AddressView> {
    match value_under(j, key) {
        Some(JsonView::Obj(m)) => Some(mailbox_read(JsonView::Obj(m))),
        _ => None,
    }
}

/// An object tells the attachment: its number, its file name, its type and its
/// size, each under its own key.
pub open spec fn tells_attachment(j: JsonView, a: AttachmentView) -> bool {
    &&& number_under(j, "index"@) == Some(a.index)
    &&& text_under(j, "filename"@) == Some(a.filename)
    &&& text_under(j, "content_type"@) == Some(a.content_type)
    &&& number_under(j, "size"@) == Some(a.size)
}

/// The list under a key tells the attachments, in order.
pub open spec fn tells_attachments(j: JsonView, key: Seq<char>, l: Seq<AttachmentView>) -> bool {
    items_under(j, key) matches Some(items) && items.len() == l.len() && forall|i: int|
        0 <= i < l.len() ==> tells_attachment(items[i], #[trigger] l[i])
}

proof fn lemma_mailbox_reads_back(a: AddressView)
    ensures
        mailbox_read(address_json(a)) == a,
        address_json(a) is Obj,
{
    broadcast use crate::lookup::group_members;
    broadcast use crate::json::group_answers;

    reveal_strlit("name");
    reveal_strlit("address");
    assert("name"@.len() == 4 && "address"@.len() == 7);
    reveal_with_fuel(count_below, 2);
    reveal_with_fuel(last_below, 2);
}

proof fn lemma_mailboxes_read_back(l: Seq<AddressView>)
    ensures
        addresses_json(l)->Arr_0.map_values(|i: JsonView| mailbox_read(i)) == l,
{
    assert forall|i: int| 0 <= i < l.len() implies mailbox_read(
        #[trigger] addresses_json(l)->Arr_0[i],
    ) == l[i] by {
        lemma_mailbox_reads_back(l[i]);
    }
    assert(addresses_json(l)->Arr_0.map_values(|i: JsonView| mailbox_read(i)) =~= l);
}

proof fn lemma_attachment_reads_back(a: AttachmentView)
    ensures
        tells_attachment(attachment_json(a), a),
{
    broadcast use crate::lookup::group_members;
    broadcast use crate::json::group_answers;

    reveal_strlit("index");
    reveal_strlit("filename");
    reveal_strlit("content_type");
    reveal_strlit("size");
    assert("index"@.len() == 5 && "filename"@.len() == 8 && "content_type"@.len() == 12
        && "size"@.len() == 4);
    reveal_with_fuel(count_below, 5);
    reveal_with_fuel(last_below, 5);
}

/// The names of the members of a message.
proof fn lemma_message_keys()
    ensures
        "uid"@.len() == 3,
        "folder"@.len() == 6 && "folder"@[1] == 'o',
        "from"@.len() == 4 && "from"@[0] == 'f',
        "to"@.len() == 2 && "to"@[0] == 't',
        "cc"@.len() == 2 && "cc"@[0] == 'c',
        "subject"@.len() == 7 && "subject"@[0] == 's',
        "date"@.len() == 4 && "date"@[0] == 'd',
        "date_original"@.len() == 13 && "date_original"@[0] == 'd',
        "message_id"@.len() == 10 && "message_id"@[0] == 'm',
        "in_reply_to"@.len() == 11 && "in_reply_to"@[0] == 'i',
        "references"@.len() == 10 && "references"@[0] == 'r',
        "flags"@.len() == 5,
        "body_text"@.len() == 9 && "body_text"@[5] == 't',
        "body_html"@.len() == 9 && "body_html"@[5] == 'h',
        "attachments"@.len() == 11 && "attachments"@[0] == 'a',
        "body_parts_diverge"@.len() == 18,
{
    reveal_strlit("uid");
    reveal_strlit("folder");
    reveal_strlit("from");
    reveal_strlit("to");
    reveal_strlit("cc");
    reveal_strlit("subject");
    reveal_strlit("date");
    reveal_strlit("date_original");
    reveal_strlit("message_id");
    reveal_strlit("in_reply_to");
    reveal_strlit("references");
    reveal_strlit("flags");
    reveal_strlit("body_text");
    reveal_strlit("body_html");
    reveal_strlit("attachments");
    reveal_strlit("body_parts_diverge");
}

/// The member of the answer that is named for a field of the message holds that
/// field: each can be read back under its name, and under its name alone.
pub proof fn answers_tell_the_message(e: EmailFull)
    ensures
        number_under(email_json(e), "uid"@) == Some(e.uid as nat),
        text_under(email_json(e), "folder"@) == Some(e.folder@),
        mailbox_under(email_json(e), "from"@) == opt_address(e.from),
        mailboxes_under(email_json(e), "to"@) == Some(address_views(e.to@)),
        mailboxes_under(email_json(e), "cc"@) == Some(address_views(e.cc@)),
        text_under(email_json(e), "subject"@) == Some(e.subject@),
        text_under(email_json(e), "date"@) == opt_text(e.date),
        text_under(email_json(e), "date_original"@) == opt_text(e.date_original),
        text_under(email_json(e), "message_id"@) == opt_text(e.message_id),
        text_under(email_json(e), "in_reply_to"@) == opt_text(e.in_reply_to),
        texts_under(email_json(e), "references"@) == Some(texts(e.references@)),
        texts_under(email_json(e), "flags"@) == Some(texts(e.flags@)),
        text_under(email_json(e), "body_text"@) == Some(e.body_text@),
        text_under(email_json(e), "body_html"@) == opt_text(e.body_html),
        tells_attachments(email_json(e), "attachments"@, attachment_views(e.attachments@)),
        truth_under(email_json(e), "body_parts_diverge"@) == if e.body_parts_diverge {
            Some(true)
        } else {
            None
        },
{
    broadcast use crate::lookup::group_members;
    broadcast use crate::json::group_answers;

    lemma_message_keys();
    reveal_with_fuel(count_below, 9);
    reveal_with_fuel(last_below, 9);
    if let Some(a) = opt_address(e.from) {
        lemma_mailbox_reads_back(a);
    }
    lemma_mailboxes_read_back(address_views(e.to@));
    lemma_mailboxes_read_back(address_views(e.cc@));
    lemma_texts_read(texts(e.references@));
    lemma_texts_read(texts(e.flags@));
    let files = attachment_views(e.attachments@);
    assert forall|i: int| 0 <= i < files.len() implies tells_attachment(
        attachment_json(files[i]),
        #[trigger] files[i],
    ) by {
        lemma_attachment_reads_back(files[i]);
    }
}

/// Two messages that differ in a field that is reported have different answers.
pub proof fn answers_tell_messages_apart(a: EmailFull, b: EmailFull)
    requires
        email_json(a) == email_json(b),
    ensures
        a@ == b@,
{
    answers_tell_the_message(a);
    answers_tell_the_message(b);
    let x = attachment_views(a.attachments@);
    let y = attachment_views(b.attachments@);
    assert forall|i: int| 0 <= i < x.len() implies x[i] == y[i] by {
        let j = items_under(email_json(a), "attachments"@)->0[i];
        assert(tells_attachment(j, x[i]) && tells_attachment(j, y[i]));
    }
    assert(x =~= y);
}

/// The names of the members of a row.
proof fn lemma_row_keys()
    ensures
        "folder_display"@.len() == 14,
        "to_count"@.len() == 8 && "to_count"@[0] == 't',
        "cc_count"@.len() == 8 && "cc_count"@[0] == 'c',
        "subject"@.len() == 7 && "subject"@[1] == 'u',
        "date_original"@.len() == 13 && "date_original"@[0] == 'd',
        "internal_date"@.len() == 13 && "internal_date"@[0] == 'i',
        "has_attachments"@.len() == 15,
        "snippet"@.len() == 7 && "snippet"@[1] == 'n',
        "thread_message_count"@.len() == 20,
{
    reveal_strlit("folder_display");
    reveal_strlit("to_count");
    reveal_strlit("cc_count");
    reveal_strlit("subject");
    reveal_strlit("date_original");
    reveal_strlit("internal_date");
    reveal_strlit("has_attachments");
    reveal_strlit("snippet");
    reveal_strlit("thread_message_count");
}

/// The number of messages that a row stands for, as a number of any size.
pub open spec fn count_told(o: Option<usize>) -> Option<nat> {
    match o {
        Some(n) => Some(n as nat),
        None => None,
    }
}

#[verifier::rlimit(30)]
#[verifier::spinoff_prover]
proof fn lemma_rows_tell_identity(s: EmailSummary)
    ensures
        number_under(full_row(s), "uid"@) == Some(s.uid as nat),
        text_under(full_row(s), "folder"@) == Some(s.folder@),
        text_under(full_row(s), "folder_display"@) == opt_text(s.folder_display),
        text_under(full_row(s), "message_id"@) == opt_text(s.message_id),
        text_under(full_row(s), "in_reply_to"@) == opt_text(s.in_reply_to),
        texts_under(full_row(s), "references"@) == if s.references@.len() > 0 {
            Some(texts(s.references@))
        } else {
            None
        },
{
    broadcast use crate::lookup::group_members;
    broadcast use crate::json::group_answers;

    lemma_message_keys();
    lemma_row_keys();
    reveal_with_fuel(count_below, 8);
    reveal_with_fuel(last_below, 8);
    lemma_texts_read(texts(s.references@));
}

#[verifier::rlimit(30)]
#[verifier::spinoff_prover]
proof fn lemma_rows_tell_people(s: EmailSummary)
    ensures
        mailbox_under(full_row(s), "from"@) == opt_address(s.from),
        mailboxes_under(full_row(s), "to"@) == Some(address_views(s.to@)),
        number_under(full_row(s), "to_count"@) == Some(s.to_count as nat),
        number_under(full_row(s), "cc_count"@) == Some(s.cc_count as nat),
{
    broadcast use crate::lookup::group_members;
    broadcast use crate::json::group_answers;

    lemma_message_keys();
    lemma_row_keys();
    reveal_with_fuel(count_below, 8);
    reveal_with_fuel(last_below, 8);
    if let Some(a) = opt_address(s.from) {
        lemma_mailbox_reads_back(a);
    }
    lemma_mailboxes_read_back(address_views(s.to@));
}

#[verifier::rlimit(30)]
#[verifier::spinoff_prover]
proof fn lemma_rows_tell_envelope(s: EmailSummary)
    ensures
        text_under(full_row(s), "subject"@) == Some(s.subject@),
        text_under(full_row(s), "date"@) == opt_text(s.date),
        text_under(full_row(s), "date_original"@) == opt_text(s.date_original),
        text_under(full_row(s), "internal_date"@) == opt_text(s.internal_date),
{
    broadcast use crate::lookup::group_members;
    broadcast use crate::json::group_answers;

    lemma_message_keys();
    lemma_row_keys();
    reveal_with_fuel(count_below, 8);
    reveal_with_fuel(last_below, 8);
}

#[verifier::rlimit(30)]
#[verifier::spinoff_prover]
proof fn lemma_rows_tell_state(s: EmailSummary)
    ensures
        texts_under(full_row(s), "flags"@) == Some(texts(s.flags@)),
        truth_under(full_row(s), "has_attachments"@) == Some(s.has_attachments),
        text_under(full_row(s), "snippet"@) == Some(s.snippet@),
        number_under(full_row(s), "thread_message_count"@) == count_told(s.thread_message_count),
{
    broadcast use crate::lookup::group_members;
    broadcast use crate::json::group_answers;

    lemma_message_keys();
    lemma_row_keys();
    reveal_with_fuel(count_below, 8);
    reveal_with_fuel(last_below, 8);
    lemma_texts_read(texts(s.flags@));
}

/// The member of a row that is named for a field of the summary holds that field:
/// each can be read back under its name, and under its name alone.
pub proof fn rows_tell_the_summary(s: EmailSummary)
    ensures
        number_under(full_row(s), "uid"@) == Some(s.uid as nat),
        text_under(full_row(s), "folder"@) == Some(s.folder@),
        text_under(full_row(s), "folder_display"@) == opt_text(s.folder_display),
        text_under(full_row(s), "message_id"@) == opt_text(s.message_id),
        text_under(full_row(s), "in_reply_to"@) == opt_text(s.in_reply_to),
        texts_under(full_row(s), "references"@) == if s.references@.len() > 0 {
            Some(texts(s.references@))
        } else {
            None
        },
        mailbox_under(full_row(s), "from"@) == opt_address(s.from),
        mailboxes_under(full_row(s), "to"@) == Some(address_views(s.to@)),
        number_under(full_row(s), "to_count"@) == Some(s.to_count as nat),
        number_under(full_row(s), "cc_count"@) == Some(s.cc_count as nat),
        text_under(full_row(s), "subject"@) == Some(s.subject@),
        text_under(full_row(s), "date"@) == opt_text(s.date),
        text_under(full_row(s), "date_original"@) == opt_text(s.date_original),
        text_under(full_row(s), "internal_date"@) == opt_text(s.internal_date),
        texts_under(full_row(s), "flags"@) == Some(texts(s.flags@)),
        truth_under(full_row(s), "has_attachments"@) == Some(s.has_attachments),
        text_under(full_row(s), "snippet"@) == Some(s.snippet@),
        number_under(full_row(s), "thread_message_count"@) == count_told(s.thread_message_count),
{
    lemma_rows_tell_identity(s);
    lemma_rows_tell_people(s);
    lemma_rows_tell_envelope(s);
    lemma_rows_tell_state(s);
}

/// The member of a reduced row that is named for a field of the summary holds
/// that field, too; of the sender it holds the address.
#[verifier::rlimit(40)]
pub proof fn reduced_rows_tell_the_summary(s: EmailSummary)
    ensures
        number_under(compact_row(s), "uid"@) == Some(s.uid as nat),
        text_under(compact_row(s), "folder"@) == Some(s.folder@),
        text_under(compact_row(s), "subject"@) == Some(s.subject@),
        truth_under(compact_row(s), "has_attachments"@) == Some(s.has_attachments),
        text_under(compact_row(s), "from"@) == match s.from {
            Some(a) => Some(a.address@),
            None => None,
        },
        text_under(compact_row(s), "date"@) == opt_text(s.date),
        text_under(compact_row(s), "internal_date"@) == opt_text(s.internal_date),
        texts_under(compact_row(s), "flags"@) == if s.flags@.len() > 0 {
            Some(texts(s.flags@))
        } else {
            None
        },
        number_under(compact_row(s), "thread_message_count"@) == count_told(s.thread_message_count),
{
    broadcast use crate::lookup::group_members;
    broadcast use crate::json::group_answers;

    lemma_message_keys();
    lemma_row_keys();
    reveal_with_fuel(count_below, 6);
    reveal_with_fuel(last_below, 6);
    lemma_texts_read(texts(s.flags@));
}

} // verus!
