//! Drafts as messages: recipients, subjects, threading and the layout of parts.

use mail_builder::mime::MimePart;
use mail_builder::MessageBuilder;
use vstd::prelude::*;

use crate::config::AccountConfig;
use crate::email::address_views;
use crate::email::AddressView;
use crate::email::EmailAddress;
use crate::email::EmailFull;
use crate::email::EmailView;
use crate::imap_client::util::begins_ignoring_case;
use crate::imap_client::util::begins_with_mark;
use crate::imap_client::util::forward_marks;
use crate::imap_client::util::has_forward_prefix;
use crate::imap_client::util::has_reply_prefix;
use crate::imap_client::util::reply_marks;
use crate::imap_client::util::trim_angles;
use crate::imap_client::util::without_angles;
use crate::lookup::count_below;
use crate::lookup::count_in;
use crate::lookup::last_below;
use crate::lookup::last_in;
use crate::lookup::only_in;
use crate::text::ascii_lower;
use crate::text::ascii_lower_text;
use crate::text::copy_of;
use crate::text::copy_opt;
use crate::text::eq_ignore_case;
use crate::text::is_white_space;
use crate::text::join;
use crate::text::joined;
use crate::text::opt_str;
use crate::text::opt_text;
use crate::text::padded;
use crate::text::same_ignoring_case;
use crate::text::texts;
use crate::text::trim_start;
use crate::time::is_calendar_day;
use crate::time::of_zone;
use crate::time::year_text;
use crate::time::Zone;
use crate::tools::draft::attachments::breaks_header;
use crate::tools::draft::attachments::clean_header_values_are_kept;
use crate::tools::draft::attachments::file_view;
use crate::tools::draft::attachments::header_value;
use crate::tools::draft::attachments::header_values_stay_on_their_line;
use crate::tools::draft::attachments::image_refs;
use crate::tools::draft::attachments::inline_refs;
use crate::tools::draft::attachments::one_line;
use crate::tools::draft::attachments::sanitize_header_value;
use crate::tools::draft::attachments::ImageView;
use crate::tools::draft::attachments::InlineImage;
use crate::tools::draft::attachments::PreparedAttachments;
use crate::tools::draft::attachments::PreparedView;
use crate::tools::draft::attachments::RegularFile;
use crate::tools::draft::dates::weekday;
use crate::tools::draft::message::bare_part;
use crate::tools::draft::message::binary_part;
use crate::tools::draft::message::file_part;
use crate::tools::draft::message::held;
use crate::tools::draft::message::multi_part;
use crate::tools::draft::message::new_message;
use crate::tools::draft::message::part_of;
use crate::tools::draft::message::parts_of;
use crate::tools::draft::message::put_body;
use crate::tools::draft::message::put_file;
use crate::tools::draft::message::put_header;
use crate::tools::draft::message::put_html;
use crate::tools::draft::message::put_plain;
use crate::tools::draft::message::recipient_view;
use crate::tools::draft::message::recipient_views;
use crate::tools::draft::message::text_part;
use crate::tools::draft::message::with_cid;
use crate::tools::draft::message::with_disposition;
use crate::tools::draft::message::ContentsView;
use crate::tools::draft::message::HeaderValue;
use crate::tools::draft::message::HeaderView;
use crate::tools::draft::message::MessageView;
use crate::tools::draft::message::PartView;
use crate::tools::draft::message::Recipient;
use crate::tools::draft::message::RecipientView;
use crate::tools::draft::render::build_compose_bodies;
use crate::tools::draft::render::build_forward_bodies;
use crate::tools::draft::render::build_reply_bodies;
use crate::tools::draft::render::compose_bodies;
use crate::tools::draft::render::forward_bodies;
use crate::tools::draft::render::locale_of;
use crate::tools::draft::render::reply_bodies;
use crate::tools::draft::render::BodiesView;
use crate::tools::draft::render::Locale;
use crate::tools::draft::signature::resolved_text;
use crate::tools::draft::signature::Signatures;

verus! {

// ---------------------------------------------------------------------------
// The account
// ---------------------------------------------------------------------------

/// What a draft takes from its account.
pub struct DraftAccount {
    pub from: String,
    pub name: String,
    pub display_name: Option<String>,
    pub message_id_domain: String,
    pub signatures: Signatures,
    pub locale: Locale,
}

impl DraftAccount {
    /// What a draft takes from the settings of an account.
    pub fn from_config(config: &AccountConfig) -> (a: DraftAccount)
        ensures
            a.from@ == config.sender(),
            a.name@ == config.name@,
            opt_text(a.display_name) == opt_text(config.display_name),
            a.message_id_domain@ == config.id_domain(),
            a.signatures.html@ == match opt_text(config.signature_html) {
                Some(h) => h,
                None => Seq::empty(),
            },
            a.signatures.text@ == resolved_text(
                opt_text(config.signature_html),
                opt_text(config.signature_text),
            ),
            a.locale == locale_of(opt_text(config.locale)),
    {
        let html: Option<&str> = match &config.signature_html {
            Some(s) => Some(s.as_str()),
            None => None,
        };
        let text: Option<&str> = match &config.signature_text {
            Some(s) => Some(s.as_str()),
            None => None,
        };
        let locale: Option<&str> = match &config.locale {
            Some(s) => Some(s.as_str()),
            None => None,
        };
        DraftAccount {
            from: copy_of(config.sender_address()),
            name: copy_of(config.name.as_str()),
            display_name: copy_opt(&config.display_name),
            message_id_domain: config.message_id_domain(),
            signatures: Signatures::resolve(html, text),
            locale: Locale::from_config(locale),
        }
    }
}

// ---------------------------------------------------------------------------
// Recipients
// ---------------------------------------------------------------------------

/// A recipient made from a mailbox of a message: both texts without what could
/// end a header line, and no display name where none is left.
pub open spec fn recipient_of(a: AddressView) -> RecipientView {
    let name = match a.name {
        Some(n) => header_value(n),
        None => Seq::empty(),
    };
    (
        if name.len() == 0 {
            None
        } else {
            Some(name)
        },
        header_value(a.address),
    )
}

/// Computes [`recipient_of`].
pub fn recipient_from(addr: &EmailAddress) -> (r: Recipient)
    ensures
        recipient_view(r) == recipient_of(addr@),
{
    let name = match &addr.name {
        Some(n) => {
            let clean = sanitize_header_value(n.as_str());
            if clean.as_str().is_empty() {
                None
            } else {
                Some(clean)
            }
        },
        None => None,
    };
    (name, sanitize_header_value(addr.address.as_str()))
}

/// A recipient made from an address that a request gives.
pub open spec fn bare_recipient(address: Seq<char>) -> RecipientView {
    (None, header_value(address))
}

/// The recipients that a request gives.
pub open spec fn bare_recipients(l: Seq<Seq<char>>) -> Seq<RecipientView> {
    l.map_values(|a: Seq<char>| bare_recipient(a))
}

/// The texts of a list that may be absent.
pub open spec fn opt_texts(l: Option<&[String]>) -> Seq<Seq<char>> {
    match l {
        Some(v) => texts(v@),
        None => Seq::empty(),
    }
}

/// Makes recipients of the addresses that a request gives.
pub fn clean_recipients(addrs: Option<&[String]>) -> (out: Vec<Recipient>)
    ensures
        recipient_views(out@) == bare_recipients(opt_texts(addrs)),
{
    let mut out: Vec<Recipient> = Vec::new();
    if let Some(list) = addrs {
        let ghost all = texts(list@);
        let mut i: usize = 0;
        while i < list.len()
            invariant
                i <= list@.len(),
                all == texts(list@),
                recipient_views(out@) == bare_recipients(all.take(i as int)),
            decreases list@.len() - i,
        {
            let r: Recipient = (None, sanitize_header_value(list[i].as_str()));
            let ghost before = recipient_views(out@);
            proof {
                assert(recipient_views(out@.push(r)) =~= before.push(recipient_view(r)));
                assert(all[i as int] == list@[i as int]@);
                assert(bare_recipients(all.take(i as int + 1)) =~= bare_recipients(
                    all.take(i as int),
                ).push(bare_recipient(all[i as int])));
            }
            out.push(r);
            i += 1;
        }
        proof {
            assert(all.take(all.len() as int) =~= all);
        }
    }
    proof {
        assert(recipient_views(out@) =~= bare_recipients(opt_texts(addrs)));
    }
    out
}

/// The mailboxes of a list with another address than one's own.
pub open spec fn foreign(l: Seq<AddressView>, own: Seq<char>) -> Seq<AddressView> {
    l.filter(|a: AddressView| !eq_ignore_case(a.address, own))
}

/// The recipients among the mailboxes of a message, but for one's own address.
pub open spec fn others(l: Seq<AddressView>, own: Seq<char>) -> Seq<RecipientView> {
    foreign(l, own).map_values(|a: AddressView| recipient_of(a))
}

fn append_others(out: &mut Vec<Recipient>, l: &Vec<EmailAddress>, own: &str)
    ensures
        recipient_views(final(out)@) == recipient_views(old(out)@) + others(
            address_views(l@),
            own@,
        ),
{
    let ghost start = recipient_views(out@);
    let ghost all = address_views(l@);
    let mut i: usize = 0;
    proof {
        reveal_with_fuel(Seq::filter, 1);
        assert(others(all.take(0), own@) =~= Seq::empty());
        assert(start + Seq::<RecipientView>::empty() =~= start);
    }
    while i < l.len()
        invariant
            i <= l@.len(),
            all == address_views(l@),
            recipient_views(out@) == start + others(all.take(i as int), own@),
        decreases l@.len() - i,
    {
        let ghost before = recipient_views(out@);
        let ghost keep = |a: AddressView| !eq_ignore_case(a.address, own@);
        proof {
            assert(all.take(i as int + 1).drop_last() =~= all.take(i as int));
            assert(all[i as int] == l@[i as int]@);
            reveal_with_fuel(Seq::filter, 1);
        }
        if !same_ignoring_case(l[i].address.as_str(), own) {
            let r = recipient_from(&l[i]);
            proof {
                assert(keep(all[i as int]));
                assert(recipient_views(out@.push(r)) =~= before.push(recipient_view(r)));
                let kept = all.take(i as int).filter(keep);
                assert(kept.push(all[i as int]).map_values(|a: AddressView| recipient_of(a))
                    =~= kept.map_values(|a: AddressView| recipient_of(a)).push(
                    recipient_of(all[i as int]),
                ));
                assert(start + others(all.take(i as int), own@).push(recipient_view(r)) =~= (start
                    + others(all.take(i as int), own@)).push(recipient_view(r)));
            }
            out.push(r);
        }
        i += 1;
    }
    proof {
        assert(all.take(all.len() as int) =~= all);
    }
}

/// Whom a reply is addressed to: the sender; when replying to all, also the
/// other recipients.
pub open spec fn reply_to_list(original: EmailView, reply_all: bool, own: Seq<char>) -> Seq<
    RecipientView,
> {
    seq![recipient_of(original.from->0)] + (if reply_all {
        others(original.to, own)
    } else {
        Seq::empty()
    })
}

/// Whom a reply is copied to: when replying to all, the others that the message
/// was copied to; and the addresses that the request adds.
pub open spec fn reply_cc_list(
    original: EmailView,
    reply_all: bool,
    own: Seq<char>,
    extra: Seq<Seq<char>>,
) -> Seq<RecipientView> {
    (if reply_all {
        others(original.cc, own)
    } else {
        Seq::empty()
    }) + bare_recipients(extra)
}

/// A message that can be replied to: it has a sender with an address.
pub open spec fn has_sender(original: EmailView) -> bool {
    original.from matches Some(a) && a.address.len() > 0
}

/// Whom a reply goes to. One's own address is left out of both lists when
/// replying to all.
pub fn build_reply_recipients(
    original: &EmailFull,
    reply_all: bool,
    from: &str,
    extra_cc: Option<&[String]>,
) -> (r: Result<(Vec<Recipient>, Vec<Recipient>), &'static str>)
    ensures
        match r {
            Ok(lists) => has_sender(original@) && recipient_views(lists.0@) == reply_to_list(
                original@,
                reply_all,
                from@,
            ) && recipient_views(lists.1@) == reply_cc_list(
                original@,
                reply_all,
                from@,
                opt_texts(extra_cc),
            ),
            Err(text) => !has_sender(original@) && text@
                == "Cannot reply: original email has no sender address"@,
        },
{
    let sender = match &original.from {
        Some(a) => {
            if a.address.as_str().is_empty() {
                return Err("Cannot reply: original email has no sender address");
            }
            recipient_from(a)
        },
        None => {
            return Err("Cannot reply: original email has no sender address");
        },
    };
    let mut to: Vec<Recipient> = Vec::new();
    let mut cc: Vec<Recipient> = Vec::new();
    proof {
        assert(recipient_views(to@.push(sender)) =~= seq![recipient_of(original@.from->0)]);
        assert(recipient_views(cc@) =~= Seq::<RecipientView>::empty());
        assert(seq![recipient_of(original@.from->0)] + Seq::<RecipientView>::empty()
            =~= seq![recipient_of(original@.from->0)]);
    }
    to.push(sender);
    if reply_all {
        append_others(&mut to, &original.to, from);
        append_others(&mut cc, &original.cc, from);
        proof {
            assert(Seq::<RecipientView>::empty() + others(original@.cc, from@) =~= others(
                original@.cc,
                from@,
            ));
        }
    }
    let mut extra = clean_recipients(extra_cc);
    let ghost head = recipient_views(cc@);
    let ghost tail = recipient_views(extra@);
    let ghost both = cc@ + extra@;
    proof {
        assert(recipient_views(both) =~= head + tail);
    }
    cc.append(&mut extra);
    Ok((to, cc))
}

/// A reply to all adds everyone but oneself: no mailbox with one's own address,
/// whatever its case, and every other one.
pub proof fn replies_leave_oneself_out(l: Seq<AddressView>, own: Seq<char>)
    ensures
        forall|i: int|
            0 <= i < foreign(l, own).len() ==> !eq_ignore_case(
                (#[trigger] foreign(l, own)[i]).address,
                own,
            ),
        forall|i: int|
            0 <= i < l.len() && !eq_ignore_case((#[trigger] l[i]).address, own) ==> foreign(
                l,
                own,
            ).contains(l[i]),
    decreases l.len(),
{
    reveal_with_fuel(Seq::filter, 1);
    if l.len() > 0 {
        let head = foreign(l.drop_last(), own);
        replies_leave_oneself_out(l.drop_last(), own);
        assert forall|i: int|
            0 <= i < l.len() && !eq_ignore_case(
                (#[trigger] l[i]).address,
                own,
            ) implies foreign(l, own).contains(l[i]) by {
            if i < l.len() - 1 {
                assert(l.drop_last()[i] == l[i]);
                let j = choose|j: int| 0 <= j < head.len() && head[j] == l[i];
                assert(foreign(l, own)[j] == l[i]);
            } else {
                assert(foreign(l, own)[head.len() as int] == l[i]);
            }
        }
    }
}

/// The addresses of recipients.
pub open spec fn addresses(l: Seq<RecipientView>) -> Seq<Seq<char>> {
    l.map_values(|r: RecipientView| r.1)
}

/// Computes [`addresses`].
pub fn addresses_only(list: &Vec<Recipient>) -> (out: Vec<String>)
    ensures
        texts(out@) == addresses(recipient_views(list@)),
{
    let ghost all = addresses(recipient_views(list@));
    let mut out: Vec<String> = Vec::new();
    let mut i: usize = 0;
    while i < list.len()
        invariant
            i <= list@.len(),
            all == addresses(recipient_views(list@)),
            texts(out@) == all.take(i as int),
        decreases list@.len() - i,
    {
        let a = copy_of(list[i].1.as_str());
        let ghost before = texts(out@);
        proof {
            assert(texts(out@.push(a)) =~= before.push(a@));
            assert(all[i as int] == a@);
            assert(all.take(i as int + 1) =~= all.take(i as int).push(a@));
        }
        out.push(a);
        i += 1;
    }
    proof {
        assert(all.take(all.len() as int) =~= all);
    }
    out
}

fn copy_recipients(list: &Vec<Recipient>) -> (out: Vec<Recipient>)
    ensures
        recipient_views(out@) == recipient_views(list@),
{
    let ghost all = recipient_views(list@);
    let mut out: Vec<Recipient> = Vec::new();
    let mut i: usize = 0;
    while i < list.len()
        invariant
            i <= list@.len(),
            all == recipient_views(list@),
            recipient_views(out@) == all.take(i as int),
        decreases list@.len() - i,
    {
        let r: Recipient = (copy_opt(&list[i].0), copy_of(list[i].1.as_str()));
        let ghost before = recipient_views(out@);
        proof {
            assert(recipient_views(out@.push(r)) =~= before.push(recipient_view(r)));
            assert(all[i as int] == recipient_view(r));
            assert(all.take(i as int + 1) =~= all.take(i as int).push(all[i as int]));
        }
        out.push(r);
        i += 1;
    }
    proof {
        assert(all.take(all.len() as int) =~= all);
    }
    out
}

// ---------------------------------------------------------------------------
// Subjects
// ---------------------------------------------------------------------------

/// The subject of a reply: the message's, behind the locale's mark unless it
/// already begins with one.
pub open spec fn reply_subject(subject: Seq<char>, locale: Locale) -> Seq<char> {
    header_value(
        if begins_with_mark(trim_start(subject), reply_marks()) {
            subject
        } else {
            locale.reply_prefix_text() + subject
        },
    )
}

/// Computes [`reply_subject`].
pub fn subject_of_reply(subject: &str, locale: Locale) -> (out: String)
    ensures
        out@ == reply_subject(subject@, locale),
{
    if has_reply_prefix(subject) {
        sanitize_header_value(subject)
    } else {
        let mut s = copy_of(locale.reply_prefix());
        s.append(subject);
        sanitize_header_value(s.as_str())
    }
}

/// The subject of a forwarded message: the message's, behind the locale's mark
/// unless it already begins with one.
pub open spec fn forward_subject(subject: Seq<char>, locale: Locale) -> Seq<char> {
    header_value(
        if begins_with_mark(trim_start(subject), forward_marks()) {
            subject
        } else {
            locale.forward_prefix_text() + subject
        },
    )
}

/// Computes [`forward_subject`].
pub fn subject_of_forward(subject: &str, locale: Locale) -> (out: String)
    ensures
        out@ == forward_subject(subject@, locale),
{
    if has_forward_prefix(subject) {
        sanitize_header_value(subject)
    } else {
        let mut s = copy_of(locale.forward_prefix());
        s.append(subject);
        sanitize_header_value(s.as_str())
    }
}

// ---------------------------------------------------------------------------
// Headers
// ---------------------------------------------------------------------------

/// The headers of a message.
pub type Headers = Seq<(Seq<char>, HeaderView)>;

/// The mailbox that a draft is from.
pub open spec fn from_header(address: Seq<char>, display_name: Option<Seq<char>>) -> (
    Seq<char>,
    HeaderView,
) {
    (
        "From"@,
        HeaderView::Mailbox(
            (
                match display_name {
                    Some(n) => Some(header_value(n)),
                    None => None,
                },
                header_value(address),
            ),
        ),
    )
}

/// Puts the sender on a message, without what could end a header line.
pub fn apply_from(
    builder: MessageBuilder<'static>,
    address: &str,
    display_name: &Option<String>,
) -> (out: MessageBuilder<'static>)
    ensures
        held(out) == (MessageView {
            headers: held(builder).headers.push(from_header(address@, opt_text(*display_name))),
            ..held(builder)
        }),
{
    let name = match display_name {
        Some(n) => Some(sanitize_header_value(n.as_str())),
        None => None,
    };
    let clean = sanitize_header_value(address);
    put_header(builder, "From", HeaderValue::Mailbox((name, clean)))
}

/// The headers that identify a draft: a message id in the sender's domain, and
/// the date.
pub open spec fn identity_headers(token: Seq<char>, domain: Seq<char>, date: Seq<char>) -> Headers {
    seq![
        ("Message-ID"@, HeaderView::Id(token + "@"@ + header_value(domain))),
        ("Date"@, HeaderView::Raw(date)),
    ]
}

/// What makes a draft's identity: a token that no other draft has, and the
/// present time.
pub struct Stamp {
    pub token: String,
    pub date: String,
}

/// A token: 32 digits of base 16, of which one tells the version and one the
/// variant of a random UUID.
pub open spec fn is_token(t: Seq<char>) -> bool {
    &&& t.len() == 32
    &&& forall|i: int| 0 <= i < 32 ==> ('0' <= #[trigger] t[i] <= '9' || 'a' <= t[i] <= 'f')
    &&& t[12] == '4'
    &&& t[16] == '8' || t[16] == '9' || t[16] == 'a' || t[16] == 'b'
}

/// `uuid::Uuid::new_v4` in its simple form: the digits of a random UUID. Which
/// ones is a matter of chance.
#[verifier::external_body]
fn fresh_token() -> (out: String)
    ensures
        is_token(out@),
{
    uuid::Uuid::new_v4().simple().to_string()
}

/// What a date line tells.
pub struct DateLine {
    pub day: nat,
    pub month: nat,
    pub year: int,
    pub hour: nat,
    pub minute: nat,
    pub second: nat,
    /// The local time is behind UTC.
    pub behind: bool,
    pub offset_hours: nat,
    pub offset_minutes: nat,
    pub offset_seconds: nat,
}

/// The fields of a date line are within their ranges.
pub open spec fn is_date(f: DateLine) -> bool {
    &&& is_calendar_day(f.year, f.month as int, f.day as int)
    &&& f.hour < 24 && f.minute < 60 && f.second < 60
    &&& f.offset_hours < 26 && f.offset_minutes < 60 && f.offset_seconds < 60
}

/// The short name of a day of the week, counted from Sunday.
pub open spec fn short_day(day: int) -> Seq<char> {
    if day == 0 {
        "Sun"@
    } else if day == 1 {
        "Mon"@
    } else if day == 2 {
        "Tue"@
    } else if day == 3 {
        "Wed"@
    } else if day == 4 {
        "Thu"@
    } else if day == 5 {
        "Fri"@
    } else {
        "Sat"@
    }
}

/// The short name of a month.
pub open spec fn short_month(month: nat) -> Seq<char> {
    if month == 1 {
        "Jan"@
    } else if month == 2 {
        "Feb"@
    } else if month == 3 {
        "Mar"@
    } else if month == 4 {
        "Apr"@
    } else if month == 5 {
        "May"@
    } else if month == 6 {
        "Jun"@
    } else if month == 7 {
        "Jul"@
    } else if month == 8 {
        "Aug"@
    } else if month == 9 {
        "Sep"@
    } else if month == 10 {
        "Oct"@
    } else if month == 11 {
        "Nov"@
    } else {
        "Dec"@
    }
}

/// A date line: `Thu, 01 Jan 1970 00:00:00 +0000`. The seconds of an offset are
/// there only where it has some.
pub open spec fn date_line(f: DateLine) -> Seq<char> {
    short_day(weekday(f.year, f.month as int, f.day as int)) + ", "@ + padded(f.day, 2) + " "@ + short_month(f.month) + " "@ + year_text(
        f.year,
    ) + " "@ + padded(f.hour, 2) + ":"@ + padded(f.minute, 2) + ":"@ + padded(f.second, 2) + " "@
        + (if f.behind {
        "-"@
    } else {
        "+"@
    }) + padded(f.offset_hours, 2) + padded(f.offset_minutes, 2) + (if f.offset_seconds == 0 {
        Seq::empty()
    } else {
        padded(f.offset_seconds, 2)
    })
}

/// A text is a date line.
pub open spec fn is_date_line(d: Seq<char>) -> bool {
    exists|f: DateLine| #[trigger] is_date(f) && d == date_line(f)
}

/// `jiff::Zoned::now` with the format `%a, %d %b %Y %H:%M:%S %z`: a date line, in
/// printable ASCII. Which one depends on the clock and the zone of the machine.
#[verifier::external_body]
fn present_date() -> (out: String)
    ensures
        is_date_line(out@),
        forall|i: int| 0 <= i < out@.len() ==> ' ' <= #[trigger] out@[i] <= '~',
{
    jiff::Zoned::now().strftime("%a, %d %b %Y %H:%M:%S %z").to_string()
}

impl Stamp {
    /// A new identity.
    pub fn now() -> (s: Stamp)
        ensures
            is_token(s.token@),
            one_line(s.token@),
            one_line(s.date@),
            is_date_line(s.date@),
    {
        Stamp { token: fresh_token(), date: present_date() }
    }
}

/// Puts an identity on a message.
pub fn stamp_identity_headers(
    builder: MessageBuilder<'static>,
    message_id_domain: &str,
    stamp: &Stamp,
) -> (out: MessageBuilder<'static>)
    ensures
        held(out) == (MessageView {
            headers: held(builder).headers + identity_headers(
                stamp.token@,
                message_id_domain@,
                stamp.date@,
            ),
            ..held(builder)
        }),
{
    let mut id = copy_of(stamp.token.as_str());
    id.append("@");
    let domain = sanitize_header_value(message_id_domain);
    id.append(domain.as_str());
    let b = put_header(builder, "Message-ID", HeaderValue::Id(id));
    let out = put_header(b, "Date", HeaderValue::Raw(copy_of(stamp.date.as_str())));
    proof {
        assert(held(out).headers =~= held(builder).headers + identity_headers(
            stamp.token@,
            message_id_domain@,
            stamp.date@,
        ));
    }
    out
}

/// A header with several mailboxes, where there are any.
pub open spec fn list_header(name: Seq<char>, l: Seq<RecipientView>) -> Headers {
    if l.len() == 0 {
        Seq::empty()
    } else {
        seq![(name, HeaderView::Mailboxes(l))]
    }
}

fn put_recipients(builder: MessageBuilder<'static>, name: &'static str, list: Vec<Recipient>) -> (out:
    MessageBuilder<'static>)
    ensures
        held(out) == (MessageView {
            headers: held(builder).headers + list_header(name@, recipient_views(list@)),
            ..held(builder)
        }),
{
    proof {
        assert(recipient_views(list@).len() == list@.len());
    }
    if list.len() == 0 {
        proof {
            assert(held(builder).headers + list_header(name@, recipient_views(list@))
                =~= held(builder).headers);
        }
        return builder;
    }
    let ghost views = recipient_views(list@);
    let out = put_header(builder, name, HeaderValue::Mailboxes(list));
    proof {
        assert(held(out).headers =~= held(builder).headers + list_header(name@, views));
    }
    out
}

/// A message id without brackets, and without what could end a header line.
pub open spec fn bare_id(id: Seq<char>) -> Seq<char> {
    header_value(trim_angles(id))
}

/// A message id in brackets.
pub open spec fn in_brackets(id: Seq<char>) -> Seq<char> {
    "<"@ + bare_id(id) + ">"@
}

/// The chain of ids that a reply to a message refers to: the message's own
/// chain, then the message.
pub open spec fn reference_chain(original: EmailView) -> Seq<Seq<char>> {
    original.references.map_values(|id: Seq<char>| in_brackets(id)).push(
        in_brackets(original.message_id->0),
    )
}

/// The headers that put a reply into its thread, where the message has an id.
pub open spec fn threading_headers(original: EmailView) -> Headers {
    match original.message_id {
        Some(id) => seq![
            ("In-Reply-To"@, HeaderView::Id(bare_id(id))),
            ("References"@, HeaderView::Raw(joined(reference_chain(original), " "@))),
        ],
        None => Seq::empty(),
    }
}

fn bracketed_id(id: &str) -> (out: String)
    ensures
        out@ == in_brackets(id@),
{
    let bare = without_angles(id);
    let clean = sanitize_header_value(bare.as_str());
    let mut out = copy_of("<");
    out.append(clean.as_str());
    out.append(">");
    out
}

/// Puts the threading headers on a reply, and tells whether there are any.
pub fn apply_threading_headers(builder: MessageBuilder<'static>, original: &EmailFull) -> (out: (
    MessageBuilder<'static>,
    bool,
))
    ensures
        held(out.0) == (MessageView {
            headers: held(builder).headers + threading_headers(original@),
            ..held(builder)
        }),
        out.1 == (original@.message_id is Some),
{
    let id = match &original.message_id {
        Some(id) => id,
        None => {
            proof {
                assert(held(builder).headers + threading_headers(original@) =~= held(
                    builder,
                ).headers);
            }
            return (builder, false);
        },
    };
    let bare = without_angles(id.as_str());
    let clean = sanitize_header_value(bare.as_str());
    let b = put_header(builder, "In-Reply-To", HeaderValue::Id(clean));
    let mut chain: Vec<String> = Vec::new();
    let ghost all = original@.references.map_values(|id: Seq<char>| in_brackets(id));
    let mut i: usize = 0;
    while i < original.references.len()
        invariant
            i <= original.references@.len(),
            all == original@.references.map_values(|id: Seq<char>| in_brackets(id)),
            texts(chain@) == all.take(i as int),
        decreases original.references@.len() - i,
    {
        let one = bracketed_id(original.references[i].as_str());
        let ghost before = texts(chain@);
        proof {
            assert(texts(chain@.push(one)) =~= before.push(one@));
            assert(all[i as int] == one@);
            assert(all.take(i as int + 1) =~= all.take(i as int).push(one@));
        }
        chain.push(one);
        i += 1;
    }
    let last = bracketed_id(id.as_str());
    proof {
        assert(all.take(all.len() as int) =~= all);
        assert(texts(chain@.push(last)) =~= texts(chain@).push(last@));
    }
    chain.push(last);
    assert(texts(chain@) == reference_chain(original@));
    let out = put_header(b, "References", HeaderValue::Raw(join(&chain, " ")));
    proof {
        assert(held(out).headers =~= held(builder).headers + threading_headers(original@));
    }
    (out, true)
}

// ---------------------------------------------------------------------------
// Layout
// ---------------------------------------------------------------------------

/// An embedded image as a part.
pub open spec fn image_part(i: ImageView) -> PartView {
    PartView {
        content_type: i.content_type,
        cid: Some(i.cid),
        disposition: Some(("inline"@, i.filename)),
        contents: ContentsView::Binary(i.bytes),
    }
}

/// The appended files as parts.
pub open spec fn file_parts(l: Seq<(Seq<char>, Seq<char>, Seq<u8>)>) -> Seq<PartView> {
    l.map_values(|f: (Seq<char>, Seq<char>, Seq<u8>)| file_part(f.0, f.1, f.2))
}

/// The HTML and its images, so that references between them resolve: the two
/// bodies as alternatives, beside the images.
pub open spec fn related_part(plain: Seq<char>, html: Seq<char>, inline: Seq<ImageView>) -> PartView {
    bare_part(
        "multipart/related"@,
        ContentsView::Parts(
            seq![
                bare_part(
                    "multipart/alternative"@,
                    ContentsView::Parts(
                        seq![
                            bare_part("text/plain"@, ContentsView::Text(plain)),
                            bare_part("text/html"@, ContentsView::Text(html)),
                        ],
                    ),
                ),
            ] + inline.map_values(|i: ImageView| image_part(i)),
        ),
    )
}

/// A message with its bodies and files: in the usual layout without embedded
/// images; else the bodies and the images in one part, and the appended files
/// behind it.
pub open spec fn laid_out(
    m: MessageView,
    plain: Seq<char>,
    html: Seq<char>,
    files: PreparedView,
) -> MessageView {
    if files.inline.len() == 0 {
        MessageView {
            plain: Some(plain),
            html: Some(html),
            files: m.files + file_parts(files.regular),
            ..m
        }
    } else if files.regular.len() == 0 {
        MessageView { body: Some(related_part(plain, html, files.inline)), ..m }
    } else {
        MessageView {
            body: Some(
                bare_part(
                    "multipart/mixed"@,
                    ContentsView::Parts(
                        seq![related_part(plain, html, files.inline)] + file_parts(files.regular),
                    ),
                ),
            ),
            ..m
        }
    }
}

spec fn file_views(l: Seq<RegularFile>) -> Seq<(Seq<char>, Seq<char>, Seq<u8>)> {
    l.map_values(|f: RegularFile| file_view(f))
}

spec fn image_views(l: Seq<InlineImage>) -> Seq<ImageView> {
    l.map_values(|i: InlineImage| i@)
}

fn put_files(builder: MessageBuilder<'static>, files: Vec<RegularFile>) -> (out: MessageBuilder<
    'static,
>)
    ensures
        held(out) == (MessageView {
            files: held(builder).files + file_parts(file_views(files@)),
            ..held(builder)
        }),
{
    let ghost all = file_parts(file_views(files@));
    let ghost start = held(builder);
    let mut left = files;
    let mut b = builder;
    while left.len() > 0
        invariant
            held(b) == (MessageView { files: held(b).files, ..start }),
            held(b).files + file_parts(file_views(left@)) == start.files + all,
        decreases left@.len(),
    {
        let ghost views = file_parts(file_views(left@));
        let ghost before = held(b).files;
        let f = left.remove(0);
        let ghost part = file_part(f.0@, f.1@, f.2@);
        proof {
            assert(views =~= seq![part] + file_parts(file_views(left@)));
            assert(before + views =~= before.push(part) + file_parts(file_views(left@)));
        }
        b = put_file(b, f.0, f.1, f.2);
    }
    proof {
        assert(held(b).files + file_parts(file_views(left@)) =~= held(b).files);
    }
    b
}

fn append_images(parts: &mut Vec<MimePart<'static>>, images: Vec<InlineImage>)
    ensures
        parts_of(final(parts)@) == parts_of(old(parts)@) + image_views(images@).map_values(
            |i: ImageView| image_part(i),
        ),
{
    let ghost all = image_views(images@).map_values(|i: ImageView| image_part(i));
    let ghost start = parts_of(parts@);
    let mut left = images;
    while left.len() > 0
        invariant
            parts_of(parts@) + image_views(left@).map_values(|i: ImageView| image_part(i)) == start
                + all,
        decreases left@.len(),
    {
        let ghost views = image_views(left@).map_values(|i: ImageView| image_part(i));
        let ghost before = parts_of(parts@);
        let image = left.remove(0);
        let ghost view = image@;
        let bare = binary_part(image.content_type, image.bytes);
        let named = with_cid(bare, image.cid);
        let part = with_disposition(named, "inline", image.filename);
        proof {
            let rest = image_views(left@).map_values(|i: ImageView| image_part(i));
            assert(part_of(part) == image_part(view));
            assert(views =~= seq![image_part(view)] + rest);
            assert(parts_of(parts@.push(part)) =~= before.push(image_part(view)));
            assert(before + views =~= before.push(image_part(view)) + rest);
        }
        parts.push(part);
    }
    proof {
        assert(parts_of(parts@) + image_views(left@).map_values(|i: ImageView| image_part(i))
            =~= parts_of(parts@));
    }
}

fn append_files(parts: &mut Vec<MimePart<'static>>, files: Vec<RegularFile>)
    ensures
        parts_of(final(parts)@) == parts_of(old(parts)@) + file_parts(file_views(files@)),
{
    let ghost all = file_parts(file_views(files@));
    let ghost start = parts_of(parts@);
    let mut left = files;
    while left.len() > 0
        invariant
            parts_of(parts@) + file_parts(file_views(left@)) == start + all,
        decreases left@.len(),
    {
        let ghost views = file_parts(file_views(left@));
        let ghost before = parts_of(parts@);
        let f = left.remove(0);
        let ghost view = file_part(f.0@, f.1@, f.2@);
        let bare = binary_part(f.0, f.2);
        let part = with_disposition(bare, "attachment", f.1);
        proof {
            let rest = file_parts(file_views(left@));
            assert(part_of(part) == view);
            assert(views =~= seq![view] + rest);
            assert(parts_of(parts@.push(part)) =~= before.push(view));
            assert(before + views =~= before.push(view) + rest);
        }
        parts.push(part);
    }
    proof {
        assert(parts_of(parts@) + file_parts(file_views(left@)) =~= parts_of(parts@));
    }
}

/// Puts bodies and files on a message, in the layout that fits what it holds.
pub fn apply_bodies_and_attachments(
    builder: MessageBuilder<'static>,
    plain_body: &str,
    html_body: &str,
    prepared: PreparedAttachments,
) -> (out: MessageBuilder<'static>)
    ensures
        held(out) == laid_out(held(builder), plain_body@, html_body@, prepared@),
{
    let ghost files = prepared@;
    proof {
        assert(files.inline == image_views(prepared.inline@));
        assert(files.regular == file_views(prepared.regular@));
        assert(files.inline.len() == prepared.inline@.len());
        assert(files.regular.len() == prepared.regular@.len());
    }
    if prepared.inline.len() == 0 {
        let b = put_plain(builder, copy_of(plain_body));
        let b = put_html(b, copy_of(html_body));
        return put_files(b, prepared.regular);
    }
    let text = text_part("text/plain", copy_of(plain_body));
    let html = text_part("text/html", copy_of(html_body));
    let mut both: Vec<MimePart<'static>> = Vec::new();
    both.push(text);
    both.push(html);
    proof {
        assert(parts_of(both@) =~= seq![
            bare_part("text/plain"@, ContentsView::Text(plain_body@)),
            bare_part("text/html"@, ContentsView::Text(html_body@)),
        ]);
    }
    let alternative = multi_part("multipart/alternative", both);
    let mut parts: Vec<MimePart<'static>> = Vec::new();
    parts.push(alternative);
    proof {
        assert(parts_of(parts@) =~= seq![part_of(alternative)]);
    }
    append_images(&mut parts, prepared.inline);
    let related = multi_part("multipart/related", parts);
    assert(part_of(related) == related_part(plain_body@, html_body@, files.inline));
    if prepared.regular.len() == 0 {
        return put_body(builder, related);
    }
    let mut parts: Vec<MimePart<'static>> = Vec::new();
    parts.push(related);
    proof {
        assert(parts_of(parts@) =~= seq![part_of(related)]);
    }
    append_files(&mut parts, prepared.regular);
    put_body(builder, multi_part("multipart/mixed", parts))
}

// ---------------------------------------------------------------------------
// Messages
// ---------------------------------------------------------------------------

/// A message without a header, a body or a file.
pub open spec fn empty_message() -> MessageView {
    MessageView {
        headers: Seq::empty(),
        plain: None,
        html: None,
        files: Seq::empty(),
        body: None,
    }
}

/// The headers that every draft begins with.
pub open spec fn opening_headers(subject: Seq<char>, account: DraftAccount, stamp: Stamp) -> Headers {
    seq![
        ("Subject"@, HeaderView::Text(subject)),
        from_header(account.from@, opt_text(account.display_name)),
    ] + identity_headers(stamp.token@, account.message_id_domain@, stamp.date@)
}

fn open_message(subject: &str, account: &DraftAccount, stamp: &Stamp) -> (b: MessageBuilder<'static>)
    ensures
        held(b) == (MessageView {
            headers: opening_headers(subject@, *account, *stamp),
            ..empty_message()
        }),
{
    let b = put_header(new_message(), "Subject", HeaderValue::Text(copy_of(subject)));
    let b = apply_from(b, account.from.as_str(), &account.display_name);
    let b = stamp_identity_headers(b, account.message_id_domain.as_str(), stamp);
    proof {
        assert(held(b).headers =~= opening_headers(subject@, *account, *stamp));
    }
    b
}

/// A message that was composed, and its plain-text body.
pub struct Composed {
    pub message: MessageBuilder<'static>,
    pub plain: String,
}

/// A message with headers, bodies and files.
pub open spec fn drafted(headers: Headers, bodies: BodiesView, files: PreparedView) -> MessageView {
    laid_out(
        MessageView { headers, ..empty_message() },
        bodies.plain,
        bodies.html,
        files,
    )
}

/// The headers of a reply.
pub open spec fn reply_headers(
    original: EmailView,
    account: DraftAccount,
    to: Seq<RecipientView>,
    cc: Seq<RecipientView>,
    subject: Seq<char>,
    stamp: Stamp,
) -> Headers {
    opening_headers(subject, account, stamp) + list_header("To"@, to) + list_header("Cc"@, cc)
        + threading_headers(original)
}

/// Composes a reply.
pub fn compose_reply(
    original: &EmailFull,
    body: &str,
    account: &DraftAccount,
    to: &Vec<Recipient>,
    cc: &Vec<Recipient>,
    subject: &str,
    prepared: PreparedAttachments,
    stamp: &Stamp,
    zone: Zone,
) -> (c: Composed)
    ensures
        exists|offset: i32|
            {
                &&& of_zone(zone, offset)
                &&& c.plain@ == (#[trigger] reply_bodies(
                    original@,
                    body@,
                    account.locale,
                    account.signatures,
                    image_refs(prepared@.inline),
                    offset,
                )).plain
                &&& held(c.message) == drafted(
                    reply_headers(
                        original@,
                        *account,
                        recipient_views(to@),
                        recipient_views(cc@),
                        subject@,
                        *stamp,
                    ),
                    reply_bodies(
                        original@,
                        body@,
                        account.locale,
                        account.signatures,
                        image_refs(prepared@.inline),
                        offset,
                    ),
                    prepared@,
                )
            },
        recipients_stand_under(held(c.message).headers, "To"@, recipient_views(to@)),
        recipients_stand_under(held(c.message).headers, "Cc"@, recipient_views(cc@)),
        count_in(held(c.message).headers, "Bcc"@) == 0,
{
    proof {
        replies_answer_the_message(
            original@,
            *account,
            recipient_views(to@),
            recipient_views(cc@),
            subject@,
            *stamp,
        );
    }
    let refs = inline_refs(&prepared.inline);
    let bodies = build_reply_bodies(
        original,
        body,
        account.locale,
        &account.signatures,
        refs.as_slice(),
        zone,
    );
    let ghost offset = choose|offset: i32|
        of_zone(zone, offset) && bodies@ == #[trigger] reply_bodies(
            original@,
            body@,
            account.locale,
            account.signatures,
            image_refs(prepared@.inline),
            offset,
        );
    let b = open_message(subject, account, stamp);
    let b = put_recipients(b, "To", copy_recipients(to));
    let b = put_recipients(b, "Cc", copy_recipients(cc));
    let (b, _threaded) = apply_threading_headers(b, original);
    proof {
        assert(held(b) == MessageView {
            headers: reply_headers(
                original@,
                *account,
                recipient_views(to@),
                recipient_views(cc@),
                subject@,
                *stamp,
            ),
            ..empty_message()
        });
    }
    let message = apply_bodies_and_attachments(
        b,
        bodies.plain.as_str(),
        bodies.html.as_str(),
        prepared,
    );
    let c = Composed { message, plain: bodies.plain };
    assert(bodies@ == reply_bodies(
        original@,
        body@,
        account.locale,
        account.signatures,
        image_refs(prepared@.inline),
        offset,
    ));
    c
}

/// The headers of a forwarded message, or of one that quotes nothing.
pub open spec fn addressed_headers(
    account: DraftAccount,
    to: Seq<Seq<char>>,
    cc: Seq<Seq<char>>,
    bcc: Seq<Seq<char>>,
    subject: Seq<char>,
    stamp: Stamp,
) -> Headers {
    opening_headers(subject, account, stamp) + list_header("To"@, bare_recipients(to))
        + list_header("Cc"@, bare_recipients(cc)) + list_header("Bcc"@, bare_recipients(bcc))
}

fn address_message(
    account: &DraftAccount,
    to: &[String],
    cc: Option<&[String]>,
    bcc: Option<&[String]>,
    subject: &str,
    stamp: &Stamp,
) -> (b: MessageBuilder<'static>)
    ensures
        held(b) == (MessageView {
            headers: addressed_headers(
                *account,
                texts(to@),
                opt_texts(cc),
                opt_texts(bcc),
                subject@,
                *stamp,
            ),
            ..empty_message()
        }),
{
    let b = open_message(subject, account, stamp);
    let b = put_recipients(b, "To", clean_recipients(Some(to)));
    let b = put_recipients(b, "Cc", clean_recipients(cc));
    put_recipients(b, "Bcc", clean_recipients(bcc))
}

/// Composes a forwarded message.
pub fn compose_forward(
    original: &EmailFull,
    body: Option<&str>,
    account: &DraftAccount,
    to: &[String],
    cc: Option<&[String]>,
    subject: &str,
    prepared: PreparedAttachments,
    stamp: &Stamp,
    zone: Zone,
) -> (c: Composed)
    ensures
        exists|offset: i32|
            {
                &&& of_zone(zone, offset)
                &&& c.plain@ == (#[trigger] forward_bodies(
                    original@,
                    opt_str(body),
                    account.locale,
                    account.signatures,
                    image_refs(prepared@.inline),
                    offset,
                )).plain
                &&& held(c.message) == drafted(
                    addressed_headers(
                        *account,
                        texts(to@),
                        opt_texts(cc),
                        Seq::empty(),
                        subject@,
                        *stamp,
                    ),
                    forward_bodies(
                        original@,
                        opt_str(body),
                        account.locale,
                        account.signatures,
                        image_refs(prepared@.inline),
                        offset,
                    ),
                    prepared@,
                )
            },
        addresses_stand_under(held(c.message).headers, "To"@, texts(to@)),
        addresses_stand_under(held(c.message).headers, "Cc"@, opt_texts(cc)),
        count_in(held(c.message).headers, "Bcc"@) == 0,
{
    proof {
        recipients_stand_under_their_own_names(
            *account,
            texts(to@),
            opt_texts(cc),
            Seq::empty(),
            subject@,
            *stamp,
        );
    }
    let refs = inline_refs(&prepared.inline);
    let bodies = build_forward_bodies(
        original,
        body,
        account.locale,
        &account.signatures,
        refs.as_slice(),
        zone,
    );
    let ghost offset = choose|offset: i32|
        of_zone(zone, offset) && bodies@ == #[trigger] forward_bodies(
            original@,
            opt_str(body),
            account.locale,
            account.signatures,
            image_refs(prepared@.inline),
            offset,
        );
    let b = address_message(account, to, cc, None, subject, stamp);
    let message = apply_bodies_and_attachments(
        b,
        bodies.plain.as_str(),
        bodies.html.as_str(),
        prepared,
    );
    let c = Composed { message, plain: bodies.plain };
    assert(bodies@ == forward_bodies(
        original@,
        opt_str(body),
        account.locale,
        account.signatures,
        image_refs(prepared@.inline),
        offset,
    ));
    c
}

/// Composes a message that quotes nothing.
pub fn compose_email(
    body: &str,
    account: &DraftAccount,
    to: &[String],
    cc: Option<&[String]>,
    bcc: Option<&[String]>,
    subject: &str,
    prepared: PreparedAttachments,
    stamp: &Stamp,
) -> (c: Composed)
    ensures
        c.plain@ == compose_bodies(
            body@,
            account.locale,
            account.signatures,
            image_refs(prepared@.inline),
        ).plain,
        held(c.message) == drafted(
            addressed_headers(
                *account,
                texts(to@),
                opt_texts(cc),
                opt_texts(bcc),
                header_value(subject@),
                *stamp,
            ),
            compose_bodies(
                body@,
                account.locale,
                account.signatures,
                image_refs(prepared@.inline),
            ),
            prepared@,
        ),
        addresses_stand_under(held(c.message).headers, "To"@, texts(to@)),
        addresses_stand_under(held(c.message).headers, "Cc"@, opt_texts(cc)),
        addresses_stand_under(held(c.message).headers, "Bcc"@, opt_texts(bcc)),
{
    proof {
        recipients_stand_under_their_own_names(
            *account,
            texts(to@),
            opt_texts(cc),
            opt_texts(bcc),
            header_value(subject@),
            *stamp,
        );
    }
    let refs = inline_refs(&prepared.inline);
    let bodies = build_compose_bodies(
        body,
        account.locale,
        &account.signatures,
        refs.as_slice(),
    );
    let clean = sanitize_header_value(subject);
    let b = address_message(account, to, cc, bcc, clean.as_str(), stamp);
    let message = apply_bodies_and_attachments(
        b,
        bodies.plain.as_str(),
        bodies.html.as_str(),
        prepared,
    );
    Composed { message, plain: bodies.plain }
}

// ---------------------------------------------------------------------------
// Subjects
// ---------------------------------------------------------------------------

/// A mark in small letters, with nothing in it that could end a header line.
spec fn plain_mark(m: Seq<char>) -> bool {
    m.len() > 0 && forall|i: int|
        0 <= i < m.len() ==> !breaks_header(#[trigger] m[i]) && ascii_lower(m[i]) == m[i]
}

proof fn lemma_header_concat(a: Seq<char>, b: Seq<char>)
    ensures
        header_value(a + b) == header_value(a) + header_value(b),
{
    Seq::filter_distributes_over_add(a, b, |c: char| !breaks_header(c));
}

proof fn lemma_mark_is_kept(s: Seq<char>, m: Seq<char>)
    requires
        plain_mark(m),
        begins_ignoring_case(s, m),
    ensures
        begins_ignoring_case(header_value(s), m),
        header_value(s).len() > 0,
        header_value(s)[0] == s[0],
{
    let k = m.len() as int;
    let head = s.take(k);
    let rest = s.skip(k);
    assert(s =~= head + rest);
    lemma_header_concat(head, rest);
    assert(one_line(head)) by {
        assert forall|i: int| 0 <= i < head.len() implies !breaks_header(#[trigger] head[i]) by {
            assert(ascii_lower_text(head)[i] == ascii_lower_text(m)[i]);
            assert(ascii_lower(head[i]) == ascii_lower(m[i]));
            assert(!breaks_header(m[i]));
        }
    }
    clean_header_values_are_kept(head);
    assert(header_value(s).take(k) =~= head);
}

proof fn lemma_leading_mark_is_kept(s: Seq<char>, m: Seq<char>)
    requires
        plain_mark(m),
        begins_ignoring_case(trim_start(s), m),
    ensures
        begins_ignoring_case(trim_start(header_value(s)), m),
    decreases s.len(),
{
    if s.len() > 0 && is_white_space(s[0]) {
        let rest = s.drop_first();
        let first = seq![s[0]];
        lemma_leading_mark_is_kept(rest, m);
        assert(s =~= first + rest);
        lemma_header_concat(first, rest);
        reveal_with_fuel(Seq::filter, 2);
        assert(first.drop_last() =~= Seq::<char>::empty());
        let h = header_value(s);
        if breaks_header(s[0]) {
            assert(h =~= header_value(rest));
        } else {
            assert(h =~= first + header_value(rest));
            assert(h.drop_first() =~= header_value(rest));
        }
    } else {
        lemma_mark_is_kept(s, m);
    }
}

proof fn lemma_marks_are_plain()
    ensures
        forall|i: int| 0 <= i < reply_marks().len() ==> plain_mark(#[trigger] reply_marks()[i]),
        forall|i: int| 0 <= i < forward_marks().len() ==> plain_mark(#[trigger] forward_marks()[i]),
{
    reveal_strlit("re:");
    reveal_strlit("aw:");
    reveal_strlit("antw:");
    reveal_strlit("antwort:");
    reveal_strlit("fwd:");
    reveal_strlit("fw:");
    reveal_strlit("wg:");
    reveal_strlit("weitergeleitet:");
}

proof fn lemma_prefixed(prefix: Seq<char>, subject: Seq<char>, m: Seq<char>)
    requires
        plain_mark(m),
        begins_ignoring_case(prefix, m),
        !is_white_space(prefix[0]),
    ensures
        begins_ignoring_case(trim_start(prefix + subject), m),
{
    let x = prefix + subject;
    assert(x[0] == prefix[0]);
    assert(x.take(m.len() as int) =~= prefix.take(m.len() as int));
}

/// A reply to a reply gets no second mark, whatever language either is in.
pub proof fn reply_marks_do_not_stack(subject: Seq<char>, first: Locale, second: Locale)
    ensures
        reply_subject(reply_subject(subject, first), second) == reply_subject(subject, first),
{
    lemma_marks_are_plain();
    let marks = reply_marks();
    let prefix = first.reply_prefix_text();
    let marked = begins_with_mark(trim_start(subject), marks);
    let x = if marked {
        subject
    } else {
        prefix + subject
    };
    let out = header_value(x);
    assert(begins_with_mark(trim_start(x), marks)) by {
        if !marked {
            reveal_strlit("Re: ");
            reveal_strlit("AW: ");
            reveal_strlit("re:");
            reveal_strlit("aw:");
            let i = if first == Locale::De {
                1int
            } else {
                0int
            };
            assert(ascii_lower_text(prefix.take(3)) =~= ascii_lower_text(marks[i]));
            lemma_prefixed(prefix, subject, marks[i]);
        }
    }
    let i = choose|i: int| 0 <= i < marks.len() && begins_ignoring_case(trim_start(x), #[trigger] marks[i]);
    lemma_leading_mark_is_kept(x, marks[i]);
    assert(begins_with_mark(trim_start(out), marks));
    header_values_stay_on_their_line(x);
    clean_header_values_are_kept(out);
}

/// A message that was forwarded before gets no second mark, whatever language
/// either is in.
pub proof fn forward_marks_do_not_stack(subject: Seq<char>, first: Locale, second: Locale)
    ensures
        forward_subject(forward_subject(subject, first), second) == forward_subject(subject, first),
{
    lemma_marks_are_plain();
    let marks = forward_marks();
    let prefix = first.forward_prefix_text();
    let marked = begins_with_mark(trim_start(subject), marks);
    let x = if marked {
        subject
    } else {
        prefix + subject
    };
    let out = header_value(x);
    assert(begins_with_mark(trim_start(x), marks)) by {
        if !marked {
            reveal_strlit("Fwd: ");
            reveal_strlit("WG: ");
            reveal_strlit("fwd:");
            reveal_strlit("wg:");
            if first == Locale::De {
                assert(ascii_lower_text(prefix.take(3)) =~= ascii_lower_text(marks[2]));
                lemma_prefixed(prefix, subject, marks[2]);
            } else {
                assert(ascii_lower_text(prefix.take(4)) =~= ascii_lower_text(marks[0]));
                lemma_prefixed(prefix, subject, marks[0]);
            }
        }
    }
    let i = choose|i: int| 0 <= i < marks.len() && begins_ignoring_case(trim_start(x), #[trigger] marks[i]);
    lemma_leading_mark_is_kept(x, marks[i]);
    assert(begins_with_mark(trim_start(out), marks));
    header_values_stay_on_their_line(x);
    clean_header_values_are_kept(out);
}

proof fn lemma_marks_hold_a_colon(s: Seq<char>, marks: Seq<Seq<char>>)
    requires
        forall|i: int|
            0 <= i < marks.len() ==> (#[trigger] marks[i]).len() > 0 && marks[i].last() == ':',
        begins_with_mark(trim_start(s), marks),
    ensures
        s.contains(':'),
    decreases s.len(),
{
    if s.len() > 0 && is_white_space(s[0]) {
        let rest = s.drop_first();
        lemma_marks_hold_a_colon(rest, marks);
        let k = choose|k: int| 0 <= k < rest.len() && rest[k] == ':';
        assert(s[k + 1] == ':');
    } else {
        let i = choose|i: int|
            0 <= i < marks.len() && begins_ignoring_case(trim_start(s), #[trigger] marks[i]);
        let m = marks[i];
        let k = m.len() - 1;
        let head = s.take(m.len() as int);
        assert(ascii_lower_text(head)[k] == ascii_lower_text(m)[k]);
        assert(ascii_lower(head[k]) == ':');
        assert(s[k] == ':');
    }
}

/// The subject of a reply is the message's behind `Re: ` in English and `AW: ` in
/// German, that of a forwarded message behind `Fwd: ` or `WG: `. A subject that
/// begins with such a mark already, in either language, is left as it is.
pub proof fn subjects_tell_what_a_draft_is(subject: Seq<char>)
    requires
        one_line(subject),
    ensures
        !subject.contains(':') ==> {
            &&& reply_subject(subject, Locale::En) == "Re: "@ + subject
            &&& reply_subject(subject, Locale::De) == "AW: "@ + subject
            &&& forward_subject(subject, Locale::En) == "Fwd: "@ + subject
            &&& forward_subject(subject, Locale::De) == "WG: "@ + subject
        },
        forall|locale: Locale|
            begins_ignoring_case(subject, "re:"@) || begins_ignoring_case(subject, "aw:"@)
                ==> #[trigger] reply_subject(subject, locale) == subject,
        forall|locale: Locale|
            begins_ignoring_case(subject, "fwd:"@) || begins_ignoring_case(subject, "fw:"@)
                || begins_ignoring_case(subject, "wg:"@) ==> #[trigger] forward_subject(
                subject,
                locale,
            ) == subject,
{
    reveal_strlit("re:");
    reveal_strlit("aw:");
    reveal_strlit("antw:");
    reveal_strlit("antwort:");
    reveal_strlit("fwd:");
    reveal_strlit("fw:");
    reveal_strlit("wg:");
    reveal_strlit("weitergeleitet:");
    reveal_strlit("Re: ");
    reveal_strlit("AW: ");
    reveal_strlit("Fwd: ");
    reveal_strlit("WG: ");
    clean_header_values_are_kept(subject);
    if !subject.contains(':') {
        if begins_with_mark(trim_start(subject), reply_marks()) {
            lemma_marks_hold_a_colon(subject, reply_marks());
        }
        if begins_with_mark(trim_start(subject), forward_marks()) {
            lemma_marks_hold_a_colon(subject, forward_marks());
        }
        assert(one_line("Re: "@) && one_line("AW: "@) && one_line("Fwd: "@) && one_line("WG: "@));
        clean_header_values_are_kept("Re: "@ + subject);
        clean_header_values_are_kept("AW: "@ + subject);
        clean_header_values_are_kept("Fwd: "@ + subject);
        clean_header_values_are_kept("WG: "@ + subject);
    }
    let r = reply_marks();
    let f = forward_marks();
    assert(r[0] == "re:"@ && r[1] == "aw:"@);
    assert(f[0] == "fwd:"@ && f[1] == "fw:"@ && f[2] == "wg:"@);
    if begins_ignoring_case(subject, "re:"@) {
        lemma_mark_leads(subject, r, 0);
    }
    if begins_ignoring_case(subject, "aw:"@) {
        lemma_mark_leads(subject, r, 1);
    }
    if begins_ignoring_case(subject, "fwd:"@) {
        lemma_mark_leads(subject, f, 0);
    }
    if begins_ignoring_case(subject, "fw:"@) {
        lemma_mark_leads(subject, f, 1);
    }
    if begins_ignoring_case(subject, "wg:"@) {
        lemma_mark_leads(subject, f, 2);
    }
}

proof fn lemma_mark_leads(s: Seq<char>, marks: Seq<Seq<char>>, i: int)
    requires
        0 <= i < marks.len(),
        marks[i].len() > 0,
        'a' <= marks[i][0] <= 'z',
        begins_ignoring_case(s, marks[i]),
    ensures
        begins_with_mark(trim_start(s), marks),
{
    let head = s.take(marks[i].len() as int);
    assert(ascii_lower_text(head)[0] == ascii_lower_text(marks[i])[0]);
    assert(ascii_lower(s[0]) == marks[i][0]);
    assert(!is_white_space(s[0]));
    assert(trim_start(s) == s);
}

/// The subject of a reply or of a forwarded message cannot end its header line.
pub proof fn subjects_stay_on_their_line(subject: Seq<char>, locale: Locale)
    ensures
        one_line(reply_subject(subject, locale)),
        one_line(forward_subject(subject, locale)),
{
    header_values_stay_on_their_line(
        if begins_with_mark(trim_start(subject), reply_marks()) {
            subject
        } else {
            locale.reply_prefix_text() + subject
        },
    );
    header_values_stay_on_their_line(
        if begins_with_mark(trim_start(subject), forward_marks()) {
            subject
        } else {
            locale.forward_prefix_text() + subject
        },
    );
}

// ---------------------------------------------------------------------------
// Header lines
// ---------------------------------------------------------------------------

/// A recipient that cannot end a header line.
pub open spec fn recipient_stays(r: RecipientView) -> bool {
    one_line(r.1) && (r.0 matches Some(n) ==> one_line(n))
}

/// A header that cannot end its line.
pub open spec fn header_stays(h: HeaderView) -> bool {
    match h {
        HeaderView::Text(t) => one_line(t),
        HeaderView::Raw(t) => one_line(t),
        HeaderView::Id(t) => one_line(t),
        HeaderView::Mailbox(r) => recipient_stays(r),
        HeaderView::Mailboxes(l) => forall|i: int|
            0 <= i < l.len() ==> recipient_stays(#[trigger] l[i]),
    }
}

/// Headers none of which can end its line.
pub open spec fn headers_stay(h: Headers) -> bool {
    forall|i: int| 0 <= i < h.len() ==> header_stays((#[trigger] h[i]).1)
}

proof fn lemma_recipients_stay(l: Seq<AddressView>, own: Seq<char>, extra: Seq<Seq<char>>)
    ensures
        forall|a: AddressView| recipient_stays(#[trigger] recipient_of(a)),
        header_stays(HeaderView::Mailboxes(others(l, own))),
        header_stays(HeaderView::Mailboxes(bare_recipients(extra))),
{
    assert forall|a: AddressView| recipient_stays(#[trigger] recipient_of(a)) by {
        header_values_stay_on_their_line(a.address);
        if let Some(n) = a.name {
            header_values_stay_on_their_line(n);
        }
    }
    let o = others(l, own);
    assert forall|i: int| 0 <= i < o.len() implies recipient_stays(#[trigger] o[i]) by {
        assert(o[i] == recipient_of(foreign(l, own)[i]));
    }
    let b = bare_recipients(extra);
    assert forall|i: int| 0 <= i < b.len() implies recipient_stays(#[trigger] b[i]) by {
        header_values_stay_on_their_line(extra[i]);
    }
}

proof fn lemma_opening_stays(subject: Seq<char>, account: DraftAccount, stamp: Stamp)
    requires
        one_line(subject),
        one_line(stamp.token@),
        one_line(stamp.date@),
    ensures
        headers_stay(opening_headers(subject, account, stamp)),
{
    header_values_stay_on_their_line(account.from@);
    header_values_stay_on_their_line(account.message_id_domain@);
    if let Some(n) = opt_text(account.display_name) {
        header_values_stay_on_their_line(n);
    }
    reveal_strlit("@");
    let id = stamp.token@ + "@"@ + header_value(account.message_id_domain@);
    assert(one_line(id));
}

proof fn lemma_joined_stays(parts: Seq<Seq<char>>)
    requires
        forall|i: int| 0 <= i < parts.len() ==> one_line(#[trigger] parts[i]),
    ensures
        one_line(joined(parts, " "@)),
    decreases parts.len(),
{
    reveal_strlit(" ");
    if parts.len() > 1 {
        assert forall|i: int| 0 <= i < parts.drop_last().len() implies one_line(
            #[trigger] parts.drop_last()[i],
        ) by {
            assert(parts.drop_last()[i] == parts[i]);
        }
        lemma_joined_stays(parts.drop_last());
        assert(one_line(parts[parts.len() - 1]));
    } else if parts.len() == 1 {
        assert(one_line(parts[0]));
        assert(parts.drop_last() =~= Seq::empty());
        lemma_joined_stays(parts.drop_last());
    }
}

proof fn lemma_threading_stays(original: EmailView)
    ensures
        headers_stay(threading_headers(original)),
{
    if original.message_id is Some {
        reveal_strlit("<");
        reveal_strlit(">");
        let chain = reference_chain(original);
        assert forall|i: int| 0 <= i < chain.len() implies one_line(#[trigger] chain[i]) by {
            let id = if i < original.references.len() {
                original.references[i]
            } else {
                original.message_id->0
            };
            assert(chain[i] == in_brackets(id));
            header_values_stay_on_their_line(trim_angles(id));
        }
        lemma_joined_stays(chain);
        header_values_stay_on_their_line(trim_angles(original.message_id->0));
    }
}

/// No header of a reply can end its line, whatever the message that is replied to
/// and the request hold.
pub proof fn reply_headers_stay_on_their_lines(
    original: EmailView,
    account: DraftAccount,
    reply_all: bool,
    own: Seq<char>,
    extra: Seq<Seq<char>>,
    locale: Locale,
    stamp: Stamp,
)
    requires
        one_line(stamp.token@),
        one_line(stamp.date@),
    ensures
        headers_stay(
            reply_headers(
                original,
                account,
                reply_to_list(original, reply_all, own),
                reply_cc_list(original, reply_all, own, extra),
                reply_subject(original.subject, locale),
                stamp,
            ),
        ),
{
    subjects_stay_on_their_line(original.subject, locale);
    lemma_opening_stays(reply_subject(original.subject, locale), account, stamp);
    lemma_recipients_stay(original.to, own, extra);
    lemma_recipients_stay(original.cc, own, extra);
    lemma_threading_stays(original);
    let to = reply_to_list(original, reply_all, own);
    let cc = reply_cc_list(original, reply_all, own, extra);
    assert(recipient_stays(recipient_of(original.from->0)));
    assert(header_stays(HeaderView::Mailboxes(to)));
    assert(header_stays(HeaderView::Mailboxes(cc)));
}

/// No header of a new or a forwarded message can end its line, whatever the
/// request holds.
pub proof fn addressed_headers_stay_on_their_lines(
    account: DraftAccount,
    to: Seq<Seq<char>>,
    cc: Seq<Seq<char>>,
    bcc: Seq<Seq<char>>,
    subject: Seq<char>,
    stamp: Stamp,
)
    requires
        one_line(subject),
        one_line(stamp.token@),
        one_line(stamp.date@),
    ensures
        headers_stay(addressed_headers(account, to, cc, bcc, subject, stamp)),
{
    lemma_opening_stays(subject, account, stamp);
    lemma_recipients_stay(Seq::empty(), subject, to);
    lemma_recipients_stay(Seq::empty(), subject, cc);
    lemma_recipients_stay(Seq::empty(), subject, bcc);
}

// ---------------------------------------------------------------------------
// Who stands where
// ---------------------------------------------------------------------------

/// The addresses stand under a name, each as a mailbox without a display name and
/// without what could end the line; where there are none, nothing stands there.
pub open spec fn addresses_stand_under(h: Headers, name: Seq<char>, l: Seq<Seq<char>>) -> bool {
    if l.len() == 0 {
        count_in(h, name) == 0
    } else {
        only_in(h, name) matches Some(HeaderView::Mailboxes(r)) && r.len() == l.len() && forall|i: int|
            0 <= i < l.len() ==> (#[trigger] r[i]).0 is None && r[i].1 == header_value(l[i])
    }
}

/// The recipients stand under a name; where there are none, nothing stands there.
pub open spec fn recipients_stand_under(h: Headers, name: Seq<char>, l: Seq<RecipientView>) -> bool {
    if l.len() == 0 {
        count_in(h, name) == 0
    } else {
        only_in(h, name) == Some(HeaderView::Mailboxes(l))
    }
}

/// The headers begin with the subject, the account's own mailbox, an id made of
/// the token and the account's domain, and the date.
pub open spec fn tells_origin(h: Headers, account: DraftAccount, subject: Seq<char>, stamp: Stamp) -> bool {
    &&& only_in(h, "Subject"@) == Some(HeaderView::Text(subject))
    &&& only_in(h, "From"@) matches Some(HeaderView::Mailbox(r)) && r.1 == header_value(account.from@)
        && r.0 == match account.display_name {
        Some(n) => Some(header_value(n@)),
        None => None,
    }
    &&& only_in(h, "Message-ID"@) == Some(
        HeaderView::Id(stamp.token@ + seq!['@'] + header_value(account.message_id_domain@)),
    )
    &&& only_in(h, "Date"@) == Some(HeaderView::Raw(stamp.date@))
}

/// The names of the headers of a draft.
proof fn lemma_header_names()
    ensures
        "Subject"@.len() == 7,
        "From"@.len() == 4 && "From"@[0] == 'F',
        "Message-ID"@.len() == 10 && "Message-ID"@[0] == 'M',
        "Date"@.len() == 4 && "Date"@[0] == 'D',
        "To"@.len() == 2 && "To"@[0] == 'T',
        "Cc"@.len() == 2 && "Cc"@[0] == 'C',
        "Bcc"@.len() == 3,
        "In-Reply-To"@.len() == 11,
        "References"@.len() == 10 && "References"@[0] == 'R',
        "@"@ =~= seq!['@'],
        "<"@ =~= seq!['<'],
        ">"@ =~= seq!['>'],
{
    reveal_strlit("Subject");
    reveal_strlit("From");
    reveal_strlit("Message-ID");
    reveal_strlit("Date");
    reveal_strlit("To");
    reveal_strlit("Cc");
    reveal_strlit("Bcc");
    reveal_strlit("In-Reply-To");
    reveal_strlit("References");
    reveal_strlit("@");
    reveal_strlit("<");
    reveal_strlit(">");
}

proof fn lemma_list_header(name: Seq<char>, l: Seq<RecipientView>, key: Seq<char>)
    ensures
        count_in(list_header(name, l), key) == if name == key && l.len() > 0 {
            1nat
        } else {
            0nat
        },
        name == key && l.len() > 0 ==> last_in(list_header(name, l), key) == Some(
            HeaderView::Mailboxes(l),
        ),
{
    broadcast use crate::lookup::group_members;

}

proof fn lemma_opening(subject: Seq<char>, account: DraftAccount, stamp: Stamp, key: Seq<char>)
    ensures
        tells_origin(opening_headers(subject, account, stamp), account, subject, stamp),
        key != "Subject"@ && key != "From"@ && key != "Message-ID"@ && key != "Date"@ ==> count_in(
            opening_headers(subject, account, stamp),
            key,
        ) == 0,
        forall|k: int|
            0 <= k < opening_headers(subject, account, stamp).len() ==> !((
            #[trigger] opening_headers(subject, account, stamp)[k]).1 is Mailboxes),
{
    broadcast use crate::lookup::group_members;

    lemma_header_names();
    reveal_with_fuel(count_below, 3);
    reveal_with_fuel(last_below, 3);
}

/// The recipients of a request stand in the headers that are named for them and in
/// no others: those of `to` in `To`, those of `cc` in `Cc`, those of `bcc` in
/// `Bcc`. A list without recipients has no header. The other headers tell where
/// the draft comes from.
pub proof fn recipients_stand_under_their_own_names(
    account: DraftAccount,
    to: Seq<Seq<char>>,
    cc: Seq<Seq<char>>,
    bcc: Seq<Seq<char>>,
    subject: Seq<char>,
    stamp: Stamp,
)
    ensures
        addresses_stand_under(addressed_headers(account, to, cc, bcc, subject, stamp), "To"@, to),
        addresses_stand_under(addressed_headers(account, to, cc, bcc, subject, stamp), "Cc"@, cc),
        addresses_stand_under(addressed_headers(account, to, cc, bcc, subject, stamp), "Bcc"@, bcc),
        forall|k: int|
            0 <= k < addressed_headers(account, to, cc, bcc, subject, stamp).len() && (
            #[trigger] addressed_headers(account, to, cc, bcc, subject, stamp)[k]).1 is Mailboxes ==> {
                let name = addressed_headers(account, to, cc, bcc, subject, stamp)[k].0;
                name == "To"@ || name == "Cc"@ || name == "Bcc"@
            },
        tells_origin(
            addressed_headers(account, to, cc, bcc, subject, stamp),
            account,
            subject,
            stamp,
        ),
{
    broadcast use crate::lookup::group_members;

    lemma_header_names();
    let h = addressed_headers(account, to, cc, bcc, subject, stamp);
    let t = bare_recipients(to);
    let c = bare_recipients(cc);
    let b = bare_recipients(bcc);
    lemma_recipients_found(opening_headers(subject, account, stamp), t, c, b, "To"@);
    lemma_recipients_found(opening_headers(subject, account, stamp), t, c, b, "Cc"@);
    lemma_recipients_found(opening_headers(subject, account, stamp), t, c, b, "Bcc"@);
    lemma_recipients_found(opening_headers(subject, account, stamp), t, c, b, "Subject"@);
    lemma_recipients_found(opening_headers(subject, account, stamp), t, c, b, "From"@);
    lemma_recipients_found(opening_headers(subject, account, stamp), t, c, b, "Message-ID"@);
    lemma_recipients_found(opening_headers(subject, account, stamp), t, c, b, "Date"@);
    lemma_opening(subject, account, stamp, "To"@);
    lemma_opening(subject, account, stamp, "Cc"@);
    lemma_opening(subject, account, stamp, "Bcc"@);
}

proof fn lemma_recipients_found(
    head: Headers,
    to: Seq<RecipientView>,
    cc: Seq<RecipientView>,
    bcc: Seq<RecipientView>,
    key: Seq<char>,
)
    ensures
        ({
            let h = head + list_header("To"@, to) + list_header("Cc"@, cc) + list_header("Bcc"@, bcc);
            &&& key == "To"@ && count_in(head, key) == 0 ==> recipients_stand_under(h, key, to)
            &&& key == "Cc"@ && count_in(head, key) == 0 ==> recipients_stand_under(h, key, cc)
            &&& key == "Bcc"@ && count_in(head, key) == 0 ==> recipients_stand_under(h, key, bcc)
            &&& key != "To"@ && key != "Cc"@ && key != "Bcc"@ ==> only_in(h, key) == only_in(
                head,
                key,
            )
        }),
{
    broadcast use crate::lookup::group_members;

    lemma_header_names();
    lemma_list_header("To"@, to, key);
    lemma_list_header("Cc"@, cc, key);
    lemma_list_header("Bcc"@, bcc, key);
}

/// A reply goes to the recipients that it is given, under the names `To` and `Cc`
/// and nowhere else, tells where it comes from, and answers the message: its
/// `In-Reply-To` is the message's id, and its `References` end with that id, behind
/// every id that the message itself refers to.
pub proof fn replies_answer_the_message(
    original: EmailView,
    account: DraftAccount,
    to: Seq<RecipientView>,
    cc: Seq<RecipientView>,
    subject: Seq<char>,
    stamp: Stamp,
)
    ensures
        recipients_stand_under(
            reply_headers(original, account, to, cc, subject, stamp),
            "To"@,
            to,
        ),
        recipients_stand_under(
            reply_headers(original, account, to, cc, subject, stamp),
            "Cc"@,
            cc,
        ),
        count_in(reply_headers(original, account, to, cc, subject, stamp), "Bcc"@) == 0,
        tells_origin(
            reply_headers(original, account, to, cc, subject, stamp),
            account,
            subject,
            stamp,
        ),
        match original.message_id {
            Some(id) => {
                let h = reply_headers(original, account, to, cc, subject, stamp);
                &&& only_in(h, "In-Reply-To"@) == Some(
                    HeaderView::Id(header_value(trim_angles(id))),
                )
                &&& only_in(h, "References"@) matches Some(HeaderView::Raw(chain)) && refers_to_all(
                    chain,
                    original.references.push(id),
                )
            },
            None => {
                let h = reply_headers(original, account, to, cc, subject, stamp);
                count_in(h, "In-Reply-To"@) == 0 && count_in(h, "References"@) == 0
            },
        },
{
    broadcast use crate::lookup::group_members;

    lemma_header_names();
    let open = opening_headers(subject, account, stamp);
    let none: Seq<RecipientView> = Seq::empty();
    let tail = threading_headers(original);
    let named = open + list_header("To"@, to) + list_header("Cc"@, cc);
    assert(named + list_header("Bcc"@, none) =~= named);
    reveal_with_fuel(count_below, 3);
    reveal_with_fuel(last_below, 3);
    lemma_recipients_found(open, to, cc, none, "To"@);
    lemma_recipients_found(open, to, cc, none, "Cc"@);
    lemma_recipients_found(open, to, cc, none, "Bcc"@);
    lemma_recipients_found(open, to, cc, none, "Subject"@);
    lemma_recipients_found(open, to, cc, none, "From"@);
    lemma_recipients_found(open, to, cc, none, "Message-ID"@);
    lemma_recipients_found(open, to, cc, none, "Date"@);
    lemma_list_header("To"@, to, "In-Reply-To"@);
    lemma_list_header("Cc"@, cc, "In-Reply-To"@);
    lemma_list_header("To"@, to, "References"@);
    lemma_list_header("Cc"@, cc, "References"@);
    lemma_opening(subject, account, stamp, "To"@);
    lemma_opening(subject, account, stamp, "Cc"@);
    lemma_opening(subject, account, stamp, "Bcc"@);
    lemma_opening(subject, account, stamp, "In-Reply-To"@);
    lemma_opening(subject, account, stamp, "References"@);
    if let Some(id) = original.message_id {
        let ids = original.references.push(id);
        assert(reference_chain(original) =~= ids.map_values(|i: Seq<char>| in_brackets(i)));
        lemma_chain(ids);
    }
}

/// A chain of ids: each in angle brackets, without what could end the line, and
/// one space between two of them.
pub open spec fn refers_to_all(chain: Seq<char>, ids: Seq<Seq<char>>) -> bool
    decreases ids.len(),
{
    if ids.len() == 0 {
        chain.len() == 0
    } else {
        let last = seq!['<'] + header_value(trim_angles(ids.last())) + seq!['>'];
        if ids.len() == 1 {
            chain == last
        } else {
            let at = chain.len() - last.len();
            at > 0 && chain.skip(at) == last && chain[at - 1] == ' ' && refers_to_all(
                chain.take(at - 1),
                ids.drop_last(),
            )
        }
    }
}

proof fn lemma_chain(ids: Seq<Seq<char>>)
    ensures
        refers_to_all(joined(ids.map_values(|i: Seq<char>| in_brackets(i)), " "@), ids),
    decreases ids.len(),
{
    lemma_header_names();
    reveal_strlit(" ");
    let parts = ids.map_values(|i: Seq<char>| in_brackets(i));
    if ids.len() > 0 {
        lemma_chain(ids.drop_last());
        let front = ids.drop_last().map_values(|i: Seq<char>| in_brackets(i));
        assert(parts.drop_last() =~= front);
        assert(parts.last() == in_brackets(ids.last()));
        assert(" "@ =~= seq![' ']);
        assert(refers_to_all(joined(front, " "@), ids.drop_last()));
        let last = seq!['<'] + header_value(trim_angles(ids.last())) + seq!['>'];
        assert(in_brackets(ids.last()) =~= last);
        if ids.len() > 1 {
            let chain = joined(parts, " "@);
            let at = chain.len() - last.len();
            assert(chain =~= joined(front, " "@) + seq![' '] + last);
            assert(chain.skip(at) =~= last);
            assert(chain.take(at - 1) =~= joined(front, " "@));
        } else {
            assert(joined(parts, " "@) == parts[0]);
            assert(parts[0] == last);
        }
    }
}

/// A reply goes to the sender first. A reply to all also goes to everyone else
/// that the message went to, and is copied to everyone else that the message was
/// copied to; the addresses that a request adds are copied. It goes to nobody
/// else.
pub proof fn replies_go_to_those_who_wrote_and_read(
    original: EmailView,
    reply_all: bool,
    own: Seq<char>,
    extra: Seq<Seq<char>>,
)
    requires
        original.from is Some,
    ensures
        reply_to_list(original, reply_all, own).len() > 0,
        reply_to_list(original, reply_all, own)[0].1 == header_value(original.from->0.address),
        !reply_all ==> reply_to_list(original, reply_all, own).len() == 1,
        reply_all ==> forall|i: int|
            0 <= i < original.to.len() && !eq_ignore_case((#[trigger] original.to[i]).address, own)
                ==> addresses(reply_to_list(original, reply_all, own)).contains(
                header_value(original.to[i].address),
            ),
        forall|k: int|
            0 < k < reply_to_list(original, reply_all, own).len() ==> comes_from(
                #[trigger] reply_to_list(original, reply_all, own)[k],
                original.to,
                own,
            ),
        reply_all ==> forall|i: int|
            0 <= i < original.cc.len() && !eq_ignore_case((#[trigger] original.cc[i]).address, own)
                ==> addresses(reply_cc_list(original, reply_all, own, extra)).contains(
                header_value(original.cc[i].address),
            ),
        forall|i: int|
            0 <= i < extra.len() ==> addresses(
                reply_cc_list(original, reply_all, own, extra),
            ).contains(header_value(#[trigger] extra[i])),
        forall|k: int|
            0 <= k < reply_cc_list(original, reply_all, own, extra).len() ==> {
                ||| reply_all && comes_from(
                    #[trigger] reply_cc_list(original, reply_all, own, extra)[k],
                    original.cc,
                    own,
                )
                ||| is_one_of(reply_cc_list(original, reply_all, own, extra)[k], extra)
            },
{
    let to = reply_to_list(original, reply_all, own);
    let cc = reply_cc_list(original, reply_all, own, extra);
    lemma_others(original.to, own);
    lemma_others(original.cc, own);
    let o = others(original.to, own);
    let p = others(original.cc, own);
    let b = bare_recipients(extra);
    assert(to[0] == recipient_of(original.from->0));
    if reply_all {
        assert forall|i: int|
            0 <= i < original.to.len() && !eq_ignore_case(
                (#[trigger] original.to[i]).address,
                own,
            ) implies addresses(to).contains(header_value(original.to[i].address)) by {
            let r = recipient_of(original.to[i]);
            let k = choose|k: int| 0 <= k < o.len() && o[k] == r;
            assert(to[k + 1] == r);
            assert(addresses(to)[k + 1] == r.1);
        }
        assert forall|i: int|
            0 <= i < original.cc.len() && !eq_ignore_case(
                (#[trigger] original.cc[i]).address,
                own,
            ) implies addresses(cc).contains(header_value(original.cc[i].address)) by {
            let r = recipient_of(original.cc[i]);
            let k = choose|k: int| 0 <= k < p.len() && p[k] == r;
            assert(cc[k] == r);
            assert(addresses(cc)[k] == r.1);
        }
        assert forall|k: int| 0 < k < to.len() implies comes_from(#[trigger] to[k], original.to, own) by {
            assert(to[k] == o[k - 1]);
        }
    }
    let offset: int = if reply_all {
        p.len() as int
    } else {
        0
    };
    assert forall|i: int| 0 <= i < extra.len() implies addresses(cc).contains(
        header_value(#[trigger] extra[i]),
    ) by {
        assert(cc[offset + i] == b[i]);
        assert(addresses(cc)[offset + i] == header_value(extra[i]));
    }
    assert forall|k: int| 0 <= k < cc.len() implies {
        ||| reply_all && comes_from(#[trigger] cc[k], original.cc, own)
        ||| is_one_of(cc[k], extra)
    } by {
        if k < offset {
            assert(cc[k] == p[k]);
        } else {
            assert(cc[k] == b[k - offset]);
            assert(cc[k].1 == header_value(extra[k - offset]));
        }
    }
}

/// A recipient has one of the addresses of a list.
pub open spec fn is_one_of(r: RecipientView, l: Seq<Seq<char>>) -> bool {
    exists|i: int| 0 <= i < l.len() && r.1 == header_value(#[trigger] l[i])
}

/// A recipient is one of the mailboxes of a message, and not oneself: the same
/// address, and the same display name where it has one.
pub open spec fn comes_from(r: RecipientView, l: Seq<AddressView>, own: Seq<char>) -> bool {
    exists|i: int|
        0 <= i < l.len() && r.1 == header_value((#[trigger] l[i]).address) && !eq_ignore_case(
            l[i].address,
            own,
        ) && (r.0 matches Some(n) ==> l[i].name matches Some(m) && n == header_value(m)) && (l[i].name
            is None ==> r.0 is None)
}

proof fn lemma_others(l: Seq<AddressView>, own: Seq<char>)
    ensures
        forall|i: int|
            0 <= i < l.len() && !eq_ignore_case((#[trigger] l[i]).address, own) ==> others(
                l,
                own,
            ).contains(recipient_of(l[i])),
        forall|k: int| 0 <= k < others(l, own).len() ==> comes_from(#[trigger] others(l, own)[k], l, own),
{
    replies_leave_oneself_out(l, own);
    let f = foreign(l, own);
    let o = others(l, own);
    assert forall|i: int| 0 <= i < l.len() && !eq_ignore_case((#[trigger] l[i]).address, own) implies o.contains(
        recipient_of(l[i]),
    ) by {
        let k = choose|k: int| 0 <= k < f.len() && f[k] == l[i];
        assert(o[k] == recipient_of(l[i]));
    }
    assert forall|k: int| 0 <= k < o.len() implies comes_from(#[trigger] o[k], l, own) by {
        lemma_foreign_is_there(l, own, k);
        let i = choose|i: int| 0 <= i < l.len() && #[trigger] l[i] == f[k];
        assert(l[i] == f[k]);
    }
}

proof fn lemma_foreign_is_there(l: Seq<AddressView>, own: Seq<char>, k: int)
    requires
        0 <= k < foreign(l, own).len(),
    ensures
        exists|i: int| 0 <= i < l.len() && #[trigger] l[i] == foreign(l, own)[k],
    decreases l.len(),
{
    reveal_with_fuel(Seq::filter, 1);
    if l.len() > 0 {
        let front = l.drop_last();
        let head = foreign(front, own);
        if k < head.len() {
            lemma_foreign_is_there(front, own, k);
            let i = choose|i: int| 0 <= i < front.len() && #[trigger] front[i] == head[k];
            assert(l[i] == foreign(l, own)[k]);
        } else {
            assert(l[l.len() - 1] == foreign(l, own)[k]);
        }
    }
}

// ---------------------------------------------------------------------------
// What a message holds
// ---------------------------------------------------------------------------

/// A part is an appended file.
pub open spec fn is_file(q: PartView, f: (Seq<char>, Seq<char>, Seq<u8>)) -> bool {
    &&& q.content_type == f.0
    &&& q.disposition == Some(("attachment"@, f.1))
    &&& q.contents == ContentsView::Binary(f.2)
    &&& q.cid is None
}

/// A part is an image that the HTML refers to by its id.
pub open spec fn is_image(q: PartView, i: ImageView) -> bool {
    &&& q.content_type == i.content_type
    &&& q.cid == Some(i.cid)
    &&& q.disposition == Some(("inline"@, i.filename))
    &&& q.contents == ContentsView::Binary(i.bytes)
}

/// A part offers the two bodies, the plain text first.
pub open spec fn offers_bodies(q: PartView, plain: Seq<char>, html: Seq<char>) -> bool {
    &&& q.content_type == "multipart/alternative"@
    &&& q.contents matches ContentsView::Parts(l) && l.len() == 2 && l[0].content_type
        == "text/plain"@ && l[0].contents == ContentsView::Text(plain) && l[1].content_type
        == "text/html"@ && l[1].contents == ContentsView::Text(html)
}

/// A message without embedded images has its two bodies and all files, in order.
/// With images, the two bodies are alternatives of one part, which stands with all
/// images in a part of related ones, and all files stand beside that. Its headers
/// are not touched.
pub proof fn messages_hold_their_bodies_and_files(
    m: MessageView,
    plain: Seq<char>,
    html: Seq<char>,
    files: PreparedView,
) -> (related: PartView)
    requires
        m.files.len() == 0,
        m.body is None,
    ensures
        laid_out(m, plain, html, files).headers == m.headers,
        files.inline.len() == 0 ==> {
            let r = laid_out(m, plain, html, files);
            &&& r.plain == Some(plain)
            &&& r.html == Some(html)
            &&& r.body is None
            &&& r.files.len() == files.regular.len()
            &&& forall|i: int|
                0 <= i < files.regular.len() ==> is_file(r.files[i], #[trigger] files.regular[i])
        },
        files.inline.len() > 0 ==> {
            let r = laid_out(m, plain, html, files);
            &&& r.body is Some
            &&& related.content_type == "multipart/related"@
            &&& related.contents matches ContentsView::Parts(l) && l.len() == files.inline.len() + 1
                && offers_bodies(l[0], plain, html) && forall|i: int|
                0 <= i < files.inline.len() ==> is_image(l[i + 1], #[trigger] files.inline[i])
            &&& files.regular.len() == 0 ==> r.body == Some(related)
            &&& files.regular.len() > 0 ==> r.body->0.content_type == "multipart/mixed"@ && (
            r.body->0.contents matches ContentsView::Parts(l) && l.len() == files.regular.len() + 1
                && l[0] == related && forall|i: int|
                0 <= i < files.regular.len() ==> is_file(l[i + 1], #[trigger] files.regular[i]))
        },
{
    let related = related_part(plain, html, files.inline);
    let parts = file_parts(files.regular);
    assert(m.files + parts =~= parts);
    assert forall|i: int| 0 <= i < files.regular.len() implies is_file(
        parts[i],
        #[trigger] files.regular[i],
    ) by {}
    related
}

/// A draft has the headers that were made for it, and its own bodies and files: the
/// plain text as text, the HTML as HTML.
pub proof fn drafts_hold_what_was_made(headers: Headers, bodies: BodiesView, files: PreparedView)
    ensures
        drafted(headers, bodies, files).headers == headers,
        files.inline.len() == 0 ==> {
            let d = drafted(headers, bodies, files);
            &&& d.plain == Some(bodies.plain) && d.html == Some(bodies.html) && d.body is None
            &&& d.files.len() == files.regular.len()
        },
        files.inline.len() > 0 && files.regular.len() == 0 ==> (
        drafted(headers, bodies, files).body matches Some(part) && (
        part.contents matches ContentsView::Parts(l) && l.len() == files.inline.len() + 1
            && offers_bodies(l[0], bodies.plain, bodies.html))),
{
    let related = messages_hold_their_bodies_and_files(
        MessageView { headers, ..empty_message() },
        bodies.plain,
        bodies.html,
        files,
    );
}

} // verus!
