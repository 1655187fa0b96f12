//! What a draft that quotes a message shows of it.

use vstd::prelude::*;

use super::attachments::image_refs;
use super::attachments::ImageView;
use super::dates::shown_date;
use super::markers::markers;
use super::markers::MarkerView;
use super::render::body_block;
use super::render::body_html;
use super::render::body_plain;
use super::render::body_style;
use super::render::compose_bodies;
use super::render::forward_bodies;
use super::render::html_body_from;
use super::render::html_quote;
use super::render::html_text;
use super::render::image_tag;
use super::render::mailbox_text;
use super::render::marker_label;
use super::render::metablock;
use super::render::plain_body_from;
use super::render::quote_header;
use super::render::quoted_block;
use super::render::quoting_bodies;
use super::render::recipients_text;
use super::render::ref_of;
use super::render::reply_bodies;
use super::render::sender_text;
use super::render::signature_html;
use super::render::unknown_markers_stay_text;
use super::render::Locale;
use super::render::RefView;
use super::signature::Signatures;
use crate::email::AddressView;
use crate::email::EmailView;
use crate::text::contains_text;
use crate::text::lemma_next_char;
use crate::text::lemma_split_behind;
use crate::text::next_char;
use crate::text::occurs_at;
use crate::text::split;

verus! {

/// A text on one line.
pub open spec fn on_one_line(t: Seq<char>) -> bool {
    forall|i: int| 0 <= i < t.len() ==> #[trigger] t[i] != '\n'
}

/// A mailbox shows its name, and its address in angle brackets behind it; the
/// address stands for a name that is missing.
pub proof fn mailboxes_show_name_and_address(a: AddressView)
    ensures
        a.name matches Some(n) ==> mailbox_text(a) == n + seq![' ', '<'] + a.address + seq!['>'],
        a.name is None ==> mailbox_text(a) == a.address + seq![' ', '<'] + a.address + seq!['>'],
{
    reveal_strlit(" <");
    reveal_strlit(">");
    assert(" <"@ =~= seq![' ', '<']);
    assert(">"@ =~= seq!['>']);
}

/// The lines above a quoted message: in English `From`, `Sent`, `To` and
/// `Subject`, in German `Von`, `Gesendet`, `An` and `Betreff`.
pub open spec fn quote_lines(
    locale: Locale,
    from: Seq<char>,
    sent: Seq<char>,
    to: Seq<char>,
    subject: Seq<char>,
) -> Seq<Seq<char>> {
    match locale {
        Locale::En => seq!["From: "@ + from].push("Sent: "@ + sent).push("To: "@ + to).push(
            "Subject: "@ + subject,
        ),
        Locale::De => seq!["Von: "@ + from].push("Gesendet: "@ + sent).push("An: "@ + to).push(
            "Betreff: "@ + subject,
        ),
    }
}

proof fn lemma_lone_line(a: Seq<char>)
    requires
        on_one_line(a),
    ensures
        split(a, '\n') == seq![a],
{
    lemma_next_char(a, '\n', 0);
    let e = next_char(a, '\n', 0);
    if e < a.len() {
        assert(a[e] != '\n');
    }
    assert(a.subrange(0, a.len() as int) =~= a);
    assert(split(a, '\n') =~= seq![a]);
}

proof fn lemma_labels()
    ensures
        "From"@ + ": "@ =~= "From: "@ && on_one_line("From: "@),
        "Sent"@ + ": "@ =~= "Sent: "@ && on_one_line("Sent: "@),
        "To"@ + ": "@ =~= "To: "@ && on_one_line("To: "@),
        "Subject"@ + ": "@ =~= "Subject: "@ && on_one_line("Subject: "@),
        "Von"@ + ": "@ =~= "Von: "@ && on_one_line("Von: "@),
        "Gesendet"@ + ": "@ =~= "Gesendet: "@ && on_one_line("Gesendet: "@),
        "An"@ + ": "@ =~= "An: "@ && on_one_line("An: "@),
        "Betreff"@ + ": "@ =~= "Betreff: "@ && on_one_line("Betreff: "@),
        "\n"@ =~= seq!['\n'],
{
    reveal_strlit(": ");
    reveal_strlit("\n");
    reveal_strlit("From");
    reveal_strlit("From: ");
    reveal_strlit("Sent");
    reveal_strlit("Sent: ");
    reveal_strlit("To");
    reveal_strlit("To: ");
    reveal_strlit("Subject");
    reveal_strlit("Subject: ");
    reveal_strlit("Von");
    reveal_strlit("Von: ");
    reveal_strlit("Gesendet");
    reveal_strlit("Gesendet: ");
    reveal_strlit("An");
    reveal_strlit("An: ");
    reveal_strlit("Betreff");
    reveal_strlit("Betreff: ");
}

/// The header block above a quoted message has four lines: who wrote it, when, to
/// whom, and about what, each behind its own label.
pub proof fn quote_headers_tell_the_message(
    locale: Locale,
    from: Seq<char>,
    sent: Seq<char>,
    to: Seq<char>,
    subject: Seq<char>,
)
    requires
        on_one_line(from),
        on_one_line(sent),
        on_one_line(to),
        on_one_line(subject),
    ensures
        split(quote_header(locale, from, sent, to, subject), '\n') == quote_lines(
            locale,
            from,
            sent,
            to,
            subject,
        ),
{
    lemma_labels();
    let l = quote_lines(locale, from, sent, to, subject);
    let a = l[0];
    let b = a + seq!['\n'] + l[1];
    let c = b + seq!['\n'] + l[2];
    let d = c + seq!['\n'] + l[3];
    assert(on_one_line(l[0]) && on_one_line(l[1]) && on_one_line(l[2]) && on_one_line(l[3]));
    lemma_lone_line(a);
    lemma_split_behind(a, l[1], '\n', 0);
    lemma_split_behind(b, l[2], '\n', 0);
    lemma_split_behind(c, l[3], '\n', 0);
    assert(quote_header(locale, from, sent, to, subject) =~= d);
    assert(split(d, '\n') =~= l);
}

/// A draft that quotes a message begins, in plain text, with what the author wrote
/// and the signature, and ends with the text of the message; between them stands
/// the header block with the message's own sender, date, recipients and subject.
pub proof fn plain_quotes_tell_the_message(
    original: EmailView,
    sent: Seq<char>,
    plain: Seq<char>,
    html: Seq<char>,
    locale: Locale,
    signatures: Signatures,
) -> (header: Seq<char>)
    requires
        on_one_line(sender_text(original.from)),
        on_one_line(sent),
        on_one_line(recipients_text(original.to)),
        on_one_line(original.subject),
    ensures
        quoting_bodies(original, sent, plain, html, locale, signatures).plain == (
        if signatures.text@.len() == 0 {
            plain
        } else {
            plain + seq!['\n'] + signatures.text@
        }) + seq!['\n', '\n'] + header + seq!['\n', '\n'] + original.body_text,
        split(header, '\n') == quote_lines(
            locale,
            sender_text(original.from),
            sent,
            recipients_text(original.to),
            original.subject,
        ),
{
    lemma_labels();
    reveal_strlit("\n\n");
    assert("\n\n"@ =~= seq!['\n', '\n']);
    let header = quote_header(
        locale,
        sender_text(original.from),
        sent,
        recipients_text(original.to),
        original.subject,
    );
    quote_headers_tell_the_message(
        locale,
        sender_text(original.from),
        sent,
        recipients_text(original.to),
        original.subject,
    );
    assert(quoting_bodies(original, sent, plain, html, locale, signatures).plain =~= (
    if signatures.text@.len() == 0 {
        plain
    } else {
        plain + seq!['\n'] + signatures.text@
    }) + seq!['\n', '\n'] + header + seq!['\n', '\n'] + original.body_text);
    header
}

/// A label in bold with its value, in HTML.
pub open spec fn bold_line(label: Seq<char>, value: Seq<char>) -> Seq<char> {
    "<b>"@ + label + ":</b> "@ + value
}

/// The HTML below what the author wrote shows the message's own sender, date,
/// recipients and subject, each behind its own label, and the message itself.
pub proof fn quoted_blocks_tell_the_message(original: EmailView, sent: Seq<char>, locale: Locale)
    ensures
        ({
            let shown = html_quote(original, sent, locale);
            let english = locale == Locale::En;
            &&& contains_text(
                shown,
                bold_line(
                    if english {
                        "From"@
                    } else {
                        "Von"@
                    },
                    html_text(sender_text(original.from)),
                ),
            )
            &&& contains_text(
                shown,
                bold_line(
                    if english {
                        "Sent"@
                    } else {
                        "Gesendet"@
                    },
                    sent,
                ),
            )
            &&& contains_text(
                shown,
                bold_line(
                    if english {
                        "To"@
                    } else {
                        "An"@
                    },
                    html_text(recipients_text(original.to)),
                ),
            )
            &&& contains_text(
                shown,
                bold_line(
                    if english {
                        "Subject"@
                    } else {
                        "Betreff"@
                    },
                    html_text(original.subject),
                ),
            )
            &&& contains_text(shown, quoted_block(original.body_html, original.body_text))
        }),
{
    let gap = "<div id=\"appendonsend\"></div>\n"@;
    let rule = "<hr style=\"display:inline-block;width:98%\" tabindex=\"-1\"><div id=\"divRplyFwdMsg\" dir=\"ltr\"><font face=\"Calibri, sans-serif\" style=\"font-size:11pt\" color=\"#000000\">"@;
    let br = "<br>\n"@;
    let after = "</font>\n<div>&nbsp;</div>\n</div>\n"@;
    let labels = locale.label_texts();
    let from = bold_line(labels.0, html_text(sender_text(original.from)));
    let date = bold_line(labels.1, sent);
    let to = bold_line(labels.2, html_text(recipients_text(original.to)));
    let subject = bold_line(labels.3, html_text(original.subject));
    let quoted = quoted_block(original.body_html, original.body_text);
    let shown = html_quote(original, sent, locale);
    let m = metablock(
        locale,
        sender_text(original.from),
        sent,
        recipients_text(original.to),
        original.subject,
        quoted,
    );
    assert(m == rule + from + br + date + br + to + br + subject + after + quoted);
    let a = rule + from;
    let b = a + br + date;
    let c = b + br + to;
    let d = c + br + subject;
    lemma_occurs_at_end(rule, from);
    lemma_occurs_before(a, from, br);
    lemma_occurs_before(a + br, from, date);
    lemma_occurs_before(b, from, br);
    lemma_occurs_before(b + br, from, to);
    lemma_occurs_before(c, from, br);
    lemma_occurs_before(c + br, from, subject);
    lemma_occurs_before(d, from, after);
    lemma_occurs_before(d + after, from, quoted);
    lemma_occurs_at_end(a + br, date);
    lemma_occurs_before(b, date, br);
    lemma_occurs_before(b + br, date, to);
    lemma_occurs_before(c, date, br);
    lemma_occurs_before(c + br, date, subject);
    lemma_occurs_before(d, date, after);
    lemma_occurs_before(d + after, date, quoted);
    lemma_occurs_at_end(b + br, to);
    lemma_occurs_before(c, to, br);
    lemma_occurs_before(c + br, to, subject);
    lemma_occurs_before(d, to, after);
    lemma_occurs_before(d + after, to, quoted);
    lemma_occurs_at_end(c + br, subject);
    lemma_occurs_before(d, subject, after);
    lemma_occurs_before(d + after, subject, quoted);
    lemma_occurs_at_end(d + after, quoted);
    lemma_occurs_behind(gap, m, from);
    lemma_occurs_behind(gap, m, date);
    lemma_occurs_behind(gap, m, to);
    lemma_occurs_behind(gap, m, subject);
    lemma_occurs_behind(gap, m, quoted);
}

proof fn lemma_occurs_at_end(a: Seq<char>, needle: Seq<char>)
    ensures
        contains_text(a + needle, needle),
{
    let s = a + needle;
    assert(s.subrange(a.len() as int, a.len() as int + needle.len()) =~= needle);
    assert(occurs_at(s, needle, a.len() as int));
}

proof fn lemma_occurs_before(a: Seq<char>, needle: Seq<char>, b: Seq<char>)
    requires
        contains_text(a, needle),
    ensures
        contains_text(a + b, needle),
{
    let i = choose|i: int| occurs_at(a, needle, i);
    assert((a + b).subrange(i, i + needle.len()) =~= a.subrange(i, i + needle.len()));
    assert(occurs_at(a + b, needle, i));
}

proof fn lemma_occurs_behind(a: Seq<char>, b: Seq<char>, needle: Seq<char>)
    requires
        contains_text(b, needle),
    ensures
        contains_text(a + b, needle),
{
    let i = choose|i: int| occurs_at(b, needle, i);
    let k = a.len() + i;
    assert((a + b).subrange(k, k + needle.len()) =~= b.subrange(i, i + needle.len()));
    assert(occurs_at(a + b, needle, k));
}

/// The HTML of a draft that quotes a message shows what the author wrote, the
/// signature, and the block with the message below them.
pub proof fn html_quotes_tell_the_message(
    original: EmailView,
    sent: Seq<char>,
    plain: Seq<char>,
    html: Seq<char>,
    locale: Locale,
    signatures: Signatures,
)
    ensures
        ({
            let shown = quoting_bodies(original, sent, plain, html, locale, signatures).html;
            &&& contains_text(shown, html)
            &&& contains_text(shown, signatures.html@)
            &&& contains_text(shown, html_quote(original, sent, locale))
        }),
{
    let open = "<html>\n<head>\n<meta http-equiv=\"Content-Type\" content=\"text/html; charset=utf-8\">\n<style type=\"text/css\" style=\"display:none;\"> P {margin-top:0;margin-bottom:0;} </style>\n</head>\n<body dir=\"ltr\">\n"@;
    let close = "</body>\n</html>\n"@;
    let style = body_style(locale) + ";\" class=\"elementToProof\">\n"@;
    let end = "</div>\n"@;
    let sig = signature_html(signatures.html@, locale);
    let block = body_block(html, locale);
    let quote = html_quote(original, sent, locale);
    let shown = quoting_bodies(original, sent, plain, html, locale, signatures).html;
    let content = block + sig + quote;
    assert(shown == open + content + close);
    lemma_occurs_at_end(style, html);
    lemma_occurs_before(style + html, html, end);
    assert(block == style + html + end);
    lemma_occurs_before(block, html, sig);
    lemma_occurs_before(block + sig, html, quote);
    lemma_occurs_behind(open, content, html);
    lemma_occurs_before(open + content, html, close);
    lemma_signature_shown(signatures, locale);
    lemma_occurs_behind(block, sig, signatures.html@);
    lemma_occurs_before(block + sig, signatures.html@, quote);
    lemma_occurs_behind(open, content, signatures.html@);
    lemma_occurs_before(open + content, signatures.html@, close);
    lemma_occurs_at_end(block + sig, quote);
    lemma_occurs_behind(open, content, quote);
    lemma_occurs_before(open + content, quote, close);
}

/// Every draft without images shows what the author wrote, word for word: a new
/// message with the signature below it, a reply and a forwarded message with the
/// signature and the message below it, under the date that the message has.
pub proof fn drafts_show_what_was_written(
    original: EmailView,
    body: Seq<char>,
    locale: Locale,
    signatures: Signatures,
    offset: i32,
)
    requires
        body.len() > 0,
    ensures
        ({
            let none = Seq::<RefView>::empty();
            let sent = shown_date(original.date, locale, offset);
            let draft = compose_bodies(body, locale, signatures, none);
            &&& draft.plain == if signatures.text@.len() == 0 {
                body
            } else {
                body + seq!['\n'] + signatures.text@
            }
            &&& contains_text(draft.html, html_text(body))
            &&& contains_text(draft.html, signatures.html@)
            &&& reply_bodies(original, body, locale, signatures, none, offset) == quoting_bodies(
                original,
                sent,
                body,
                html_text(body),
                locale,
                signatures,
            )
            &&& forward_bodies(original, Some(body), locale, signatures, none, offset)
                == quoting_bodies(original, sent, body, html_text(body), locale, signatures)
            &&& forward_bodies(original, None, locale, signatures, none, offset).plain
                == quoting_bodies(
                original,
                sent,
                Seq::empty(),
                Seq::empty(),
                locale,
                signatures,
            ).plain
        }),
{
    let none = Seq::<RefView>::empty();
    let written = html_text(body);
    reveal_strlit("\n");
    assert("\n"@ =~= seq!['\n']);
    unknown_markers_stay_text(body, none);
    unknown_markers_stay_text(Seq::empty(), none);
    let open = "<html>\n<head>\n<meta http-equiv=\"Content-Type\" content=\"text/html; charset=utf-8\">\n<style type=\"text/css\" style=\"display:none;\"> P {margin-top:0;margin-bottom:0;} </style>\n</head>\n<body dir=\"ltr\">\n"@;
    let close = "</body>\n</html>\n"@;
    let style = body_style(locale) + ";\" class=\"elementToProof\">\n"@;
    let end = "</div>\n"@;
    let sig = signature_html(signatures.html@, locale);
    let block = body_block(written, locale);
    let content = block + sig;
    assert(compose_bodies(body, locale, signatures, none).html == open + content + close);
    lemma_occurs_at_end(style, written);
    lemma_occurs_before(style + written, written, end);
    lemma_occurs_before(block, written, sig);
    lemma_occurs_behind(open, content, written);
    lemma_occurs_before(open + content, written, close);
    lemma_signature_shown(signatures, locale);
    lemma_occurs_behind(block, sig, signatures.html@);
    lemma_occurs_behind(open, content, signatures.html@);
    lemma_occurs_before(open + content, signatures.html@, close);
}

proof fn lemma_image_shown(
    raw: Seq<char>,
    ms: Seq<MarkerView>,
    refs: Seq<RefView>,
    j: int,
    last: int,
    k: int,
    i: int,
)
    requires
        0 <= j <= k < ms.len(),
        ref_of(refs, ms[k].cid) == Some(i),
    ensures
        contains_text(html_body_from(raw, ms, refs, j, last), image_tag(ms[k], refs[i])),
        contains_text(
            plain_body_from(raw, ms, refs, j, last),
            "["@ + marker_label(ms[k], refs[i]) + "]"@,
        ),
    decreases ms.len() - j,
{
    let tag = image_tag(ms[k], refs[i]);
    let label = "["@ + marker_label(ms[k], refs[i]) + "]"@;
    match ref_of(refs, ms[j].cid) {
        None => {
            lemma_image_shown(raw, ms, refs, j + 1, last, k, i);
        },
        Some(n) => {
            let head = html_text(raw.subrange(last, ms[j].start));
            let rest = html_body_from(raw, ms, refs, j + 1, ms[j].end);
            let before = raw.subrange(last, ms[j].start);
            let after = plain_body_from(raw, ms, refs, j + 1, ms[j].end);
            let own = "["@ + marker_label(ms[j], refs[n]) + "]"@;
            if j == k {
                lemma_occurs_at_end(head, tag);
                lemma_occurs_before(head + tag, tag, rest);
                lemma_occurs_at_end(before, label);
                lemma_occurs_before(before + label, label, after);
            } else {
                lemma_image_shown(raw, ms, refs, j + 1, ms[j].end, k, i);
                lemma_occurs_behind(head + image_tag(ms[j], refs[n]), rest, tag);
                lemma_occurs_behind(before + own, after, label);
            }
        },
    }
}

proof fn lemma_ref_found(refs: Seq<RefView>, cid: Seq<char>)
    ensures
        ref_of(refs, cid) matches Some(i) ==> 0 <= i < refs.len() && refs[i].cid == cid,
        (exists|i: int| 0 <= i < refs.len() && (#[trigger] refs[i]).cid == cid) ==> ref_of(
            refs,
            cid,
        ) is Some,
    decreases refs.len(),
{
    if refs.len() > 0 {
        let front = refs.drop_last();
        lemma_ref_found(front, cid);
        if exists|i: int| 0 <= i < refs.len() && (#[trigger] refs[i]).cid == cid {
            let i = choose|i: int| 0 <= i < refs.len() && (#[trigger] refs[i]).cid == cid;
            if i < front.len() {
                assert(front[i].cid == cid);
            }
        }
    }
}

/// A marker in a body shows the image that it names: in HTML as an image with the
/// id of that file and the text of the marker, in plain text as that text in square
/// brackets. A marker without a text shows the name of the file.
pub proof fn markers_show_their_image(raw: Seq<char>, images: Seq<ImageView>, k: int)
    requires
        0 <= k < markers(raw).len(),
        exists|i: int| 0 <= i < images.len() && (#[trigger] images[i]).cid == markers(raw)[k].cid,
    ensures
        exists|i: int|
            {
                &&& 0 <= i < images.len()
                &&& (#[trigger] images[i]).cid == markers(raw)[k].cid
                &&& ({
                    let m = markers(raw)[k];
                    let label = if m.alt.len() == 0 {
                        images[i].filename
                    } else {
                        m.alt
                    };
                    &&& contains_text(
                        body_html(raw, image_refs(images)),
                        "<img src=\"cid:"@ + html_text(m.cid) + "\" alt=\""@ + html_text(label)
                            + "\""@,
                    )
                    &&& contains_text(
                        body_plain(raw, image_refs(images)),
                        seq!['['] + label + seq![']'],
                    )
                })
            },
{
    let refs = image_refs(images);
    let m = markers(raw)[k];
    let known = choose|i: int| 0 <= i < images.len() && (#[trigger] images[i]).cid == m.cid;
    assert(refs[known].cid == m.cid);
    lemma_ref_found(refs, m.cid);
    let i = ref_of(refs, m.cid)->0;
    assert(refs[i].cid == images[i].cid);
    let label = marker_label(m, refs[i]);
    reveal_strlit("[");
    reveal_strlit("]");
    assert("["@ =~= seq!['[']);
    assert("]"@ =~= seq![']']);
    lemma_image_shown(raw, markers(raw), refs, 0, 0, k, i);
    let html = body_html(raw, refs);
    let tag = image_tag(m, refs[i]);
    let wanted = "<img src=\"cid:"@ + html_text(m.cid) + "\" alt=\""@ + html_text(label) + "\""@;
    reveal_strlit("\"");
    reveal_strlit("\" style=\"max-width:100%; height:auto;\">");
    assert(tag.subrange(0, wanted.len() as int) =~= wanted);
    let at = choose|at: int| occurs_at(html, tag, at);
    assert(html.subrange(at, at + wanted.len()) =~= html.subrange(at, at + tag.len()).subrange(
        0,
        wanted.len() as int,
    ));
    assert(occurs_at(html, wanted, at));
    assert(images[i].cid == m.cid);
}

proof fn lemma_signature_shown(signatures: Signatures, locale: Locale)
    ensures
        contains_text(signature_html(signatures.html@, locale), signatures.html@),
{
    let s = signatures.html@;
    let shown = signature_html(s, locale);
    if s.len() == 0 {
        assert(shown.subrange(0, 0) =~= s);
        assert(occurs_at(shown, s, 0));
    } else {
        let x = "<div id=\"Signature\" class=\"elementToProof\">\n"@ + body_style(locale)
            + ";\">\n<br>\n</div>\n<div id=\"divtagdefaultwrapper\">\n"@;
        lemma_occurs_at_end(x, s);
        lemma_occurs_before(x + s, s, "\n</div>\n</div>\n"@);
    }
}

} // verus!
