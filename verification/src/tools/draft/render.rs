//! Locale presets, and the plain-text and HTML bodies of drafts in the style of
//! Outlook.

use vstd::hash_map::StringHashMap;
use vstd::prelude::*;

use crate::email::AddressView;
use crate::email::EmailAddress;
use crate::email::EmailFull;
use crate::email::EmailView;
use crate::email::address_views;
use crate::email::opt_address;
use crate::html::decoded;
use crate::html::decoded_from;
use crate::html::entity_stop;
use crate::imap_client::util::slice_texts;
use crate::text::append_range;
use crate::text::ascii_lower_string;
use crate::text::ascii_lower_text;
use crate::text::byte_len;
use crate::text::chars_of;
use crate::text::copy_of;
use crate::text::eq_ignore_case;
use crate::text::joined;
use crate::text::lemma_byte_len_bounds;
use crate::text::lemma_byte_len_push;
use crate::text::occurs_at;
use crate::text::opt_str;
use crate::text::same_text;
use crate::text::trim;
use crate::text::trimmed;
use crate::time::of_zone;
use crate::time::Zone;
use crate::tools::draft::dates::format_date_outlook_in;
use crate::tools::draft::dates::shown_date;
use crate::tools::draft::markers::MarkerView;
use crate::tools::draft::markers::cid_char;
use crate::tools::draft::markers::lemma_markers_in_order;
use crate::tools::draft::markers::marker_views;
use crate::tools::draft::markers::markers;
use crate::tools::draft::markers::markers_stand_in_the_body;
use crate::tools::draft::markers::scan_cid_markers;
use crate::tools::draft::markers::valid_cid;
use crate::tools::draft::signature::Signatures;

verus! {

// ---------------------------------------------------------------------------
// Locale presets
// ---------------------------------------------------------------------------

/// The language that a draft's furniture is written in.
#[derive(Debug, Clone, Copy, PartialEq, Eq, Structural)]
pub enum Locale {
    En,
    De,
}

/// The locale that a setting names: German by one of four names, whatever the
/// case; English otherwise.
pub open spec fn locale_of(s: Option<Seq<char>>) -> Locale {
    match s {
        Some(t) => {
            let low = ascii_lower_text(t);
            if low == "de"@ || low == "de-de"@ || low == "de_de"@ || low == "german"@ {
                Locale::De
            } else {
                Locale::En
            }
        },
        None => Locale::En,
    }
}

/// Drafts are German exactly where the account's setting is a name of German,
/// whatever its case, and English otherwise.
pub proof fn drafts_are_in_the_language_of_the_account(s: Seq<char>)
    ensures
        locale_of(Some(s)) == Locale::De <==> eq_ignore_case(s, "de"@) || eq_ignore_case(
            s,
            "de-DE"@,
        ) || eq_ignore_case(s, "de_DE"@) || eq_ignore_case(s, "german"@),
        locale_of(None) == Locale::En,
{
    reveal_strlit("de");
    reveal_strlit("de-de");
    reveal_strlit("de_de");
    reveal_strlit("german");
    reveal_strlit("de-DE");
    reveal_strlit("de_DE");
    assert(ascii_lower_text("de"@) =~= "de"@);
    assert(ascii_lower_text("german"@) =~= "german"@);
    assert(ascii_lower_text("de-DE"@) =~= "de-de"@);
    assert(ascii_lower_text("de_DE"@) =~= "de_de"@);
}

impl Locale {
    /// Computes [`locale_of`].
    pub fn from_config(s: Option<&str>) -> (l: Locale)
        ensures
            l == locale_of(opt_str(s)),
    {
        match s {
            Some(t) => {
                let low = ascii_lower_string(t);
                if same_text(low.as_str(), "de") || same_text(low.as_str(), "de-de") || same_text(
                    low.as_str(),
                    "de_de",
                ) || same_text(low.as_str(), "german") {
                    Locale::De
                } else {
                    Locale::En
                }
            },
            None => Locale::En,
        }
    }

    pub open spec fn font_text(self) -> Seq<char> {
        match self {
            Locale::De => "&quot;Tahoma&quot;, &quot;Geneva&quot;, sans-serif"@,
            Locale::En =>
                "Aptos, Aptos_MSFontService, -apple-system, Roboto, Arial, Helvetica, sans-serif"@,
        }
    }

    /// The font list of the body.
    pub fn font(self) -> (s: &'static str)
        ensures
            s@ == self.font_text(),
    {
        match self {
            Locale::De => "&quot;Tahoma&quot;, &quot;Geneva&quot;, sans-serif",
            Locale::En =>
                "Aptos, Aptos_MSFontService, -apple-system, Roboto, Arial, Helvetica, sans-serif",
        }
    }

    pub open spec fn color_text(self) -> Seq<char> {
        match self {
            Locale::De => "rgb(0, 0, 0)"@,
            Locale::En => "rgb(33, 33, 33)"@,
        }
    }

    /// The text color of the body.
    pub fn color(self) -> (s: &'static str)
        ensures
            s@ == self.color_text(),
    {
        match self {
            Locale::De => "rgb(0, 0, 0)",
            Locale::En => "rgb(33, 33, 33)",
        }
    }

    /// The four labels above a quoted message.
    pub open spec fn label_texts(self) -> (Seq<char>, Seq<char>, Seq<char>, Seq<char>) {
        match self {
            Locale::De => ("Von"@, "Gesendet"@, "An"@, "Betreff"@),
            Locale::En => ("From"@, "Sent"@, "To"@, "Subject"@),
        }
    }

    /// The four labels above a quoted message: sender, date, recipients,
    /// subject.
    pub fn quote_labels(self) -> (l: (&'static str, &'static str, &'static str, &'static str))
        ensures
            l.0@ == self.label_texts().0,
            l.1@ == self.label_texts().1,
            l.2@ == self.label_texts().2,
            l.3@ == self.label_texts().3,
    {
        match self {
            Locale::De => ("Von", "Gesendet", "An", "Betreff"),
            Locale::En => ("From", "Sent", "To", "Subject"),
        }
    }

    pub open spec fn reply_prefix_text(self) -> Seq<char> {
        match self {
            Locale::De => "AW: "@,
            Locale::En => "Re: "@,
        }
    }

    /// What is put before the subject of a reply.
    pub fn reply_prefix(self) -> (s: &'static str)
        ensures
            s@ == self.reply_prefix_text(),
    {
        match self {
            Locale::De => "AW: ",
            Locale::En => "Re: ",
        }
    }

    pub open spec fn forward_prefix_text(self) -> Seq<char> {
        match self {
            Locale::De => "WG: "@,
            Locale::En => "Fwd: "@,
        }
    }

    /// What is put before the subject of a forwarded message.
    pub fn forward_prefix(self) -> (s: &'static str)
        ensures
            s@ == self.forward_prefix_text(),
    {
        match self {
            Locale::De => "WG: ",
            Locale::En => "Fwd: ",
        }
    }

    pub open spec fn unknown_date_text(self) -> Seq<char> {
        match self {
            Locale::De => "unbekanntes Datum"@,
            Locale::En => "unknown date"@,
        }
    }

    /// What stands for a missing date.
    pub fn unknown_date(self) -> (s: &'static str)
        ensures
            s@ == self.unknown_date_text(),
    {
        match self {
            Locale::De => "unbekanntes Datum",
            Locale::En => "unknown date",
        }
    }
}

// ---------------------------------------------------------------------------
// Escaping
// ---------------------------------------------------------------------------

/// A character in HTML text; a line feed also breaks the line. The apostrophe
/// stays: it is safe in text and inside double quotes.
pub open spec fn html_char(c: char) -> Seq<char> {
    if c == '&' {
        "&amp;"@
    } else if c == '<' {
        "&lt;"@
    } else if c == '>' {
        "&gt;"@
    } else if c == '"' {
        "&quot;"@
    } else if c == '\n' {
        "<br>\n"@
    } else {
        seq![c]
    }
}

/// A text in HTML.
pub open spec fn html_text(s: Seq<char>) -> Seq<char> {
    s.flat_map(|c: char| html_char(c))
}

/// Appends the characters at `from..to`, escaped for HTML.
fn append_escaped(out: &mut String, cs: &[char], from: usize, to: usize)
    requires
        from <= to <= cs@.len(),
    ensures
        final(out)@ == old(out)@ + html_text(cs@.subrange(from as int, to as int)),
{
    let ghost start = out@;
    let ghost s = cs@.subrange(from as int, to as int);
    let ghost f = |c: char| html_char(c);
    let mut i: usize = from;
    proof {
        assert(s.take(0).flat_map(f) =~= Seq::<char>::empty());
        assert(start + Seq::<char>::empty() =~= start);
    }
    while i < to
        invariant
            from <= i <= to <= cs@.len(),
            s == cs@.subrange(from as int, to as int),
            f == |c: char| html_char(c),
            out@ == start + s.take(i - from).flat_map(f),
        decreases to - i,
    {
        let c: char = cs[i];
        let ghost before = out@;
        proof {
            s.lemma_flat_map_take_append(f, i - from);
            assert(f(s[i - from]) == html_char(c));
        }
        if c == '&' {
            out.append("&amp;");
        } else if c == '<' {
            out.append("&lt;");
        } else if c == '>' {
            out.append("&gt;");
        } else if c == '"' {
            out.append("&quot;");
        } else if c == '\n' {
            out.append("<br>\n");
        } else {
            out.push(c);
        }
        proof {
            assert(out@ =~= before + html_char(c));
            assert(out@ =~= start + (s.take(i - from).flat_map(f) + html_char(c)));
        }
        i += 1;
    }
    proof {
        assert(s.take(to - from) =~= s);
    }
}

/// Escapes HTML special characters and breaks lines.
pub fn html_escape(s: &str) -> (out: String)
    ensures
        out@ == html_text(s@),
{
    let cs = chars_of(s);
    let n: usize = cs.len();
    let mut out = String::new();
    append_escaped(&mut out, &cs, 0, n);
    proof {
        assert(cs@.subrange(0, n as int) =~= s@);
        assert(Seq::<char>::empty() + html_text(s@) =~= html_text(s@));
    }
    out
}

/// The character at `i` of a text in HTML is no markup of the text's own: an
/// angle bracket belongs to a line break, an ampersand begins one of the four
/// references, and there is no quote.
pub open spec fn is_inert_at(h: Seq<char>, i: int) -> bool {
    &&& h[i] != '"'
    &&& h[i] == '<' ==> occurs_at(h, "<br>\n"@, i)
    &&& h[i] == '>' ==> occurs_at(h, "<br>\n"@, i - 3)
    &&& h[i] == '&' ==> occurs_at(h, "&amp;"@, i) || occurs_at(h, "&lt;"@, i) || occurs_at(
        h,
        "&gt;"@,
        i,
    ) || occurs_at(h, "&quot;"@, i)
}

proof fn lemma_occurs_in_front(a: Seq<char>, b: Seq<char>, needle: Seq<char>, i: int)
    requires
        occurs_at(a, needle, i),
    ensures
        occurs_at(a + b, needle, i),
{
    assert((a + b).subrange(i, i + needle.len()) =~= a.subrange(i, i + needle.len()));
}

proof fn lemma_inert_in_front(a: Seq<char>, b: Seq<char>, i: int)
    requires
        0 <= i < a.len(),
        is_inert_at(a, i),
    ensures
        is_inert_at(a + b, i),
{
    if a[i] == '<' {
        lemma_occurs_in_front(a, b, "<br>\n"@, i);
    } else if a[i] == '>' {
        lemma_occurs_in_front(a, b, "<br>\n"@, i - 3);
    } else if a[i] == '&' {
        if occurs_at(a, "&amp;"@, i) {
            lemma_occurs_in_front(a, b, "&amp;"@, i);
        } else if occurs_at(a, "&lt;"@, i) {
            lemma_occurs_in_front(a, b, "&lt;"@, i);
        } else if occurs_at(a, "&gt;"@, i) {
            lemma_occurs_in_front(a, b, "&gt;"@, i);
        } else {
            lemma_occurs_in_front(a, b, "&quot;"@, i);
        }
    }
}

proof fn lemma_inert_char(a: Seq<char>, c: char, i: int)
    requires
        a.len() <= i < a.len() + html_char(c).len(),
    ensures
        is_inert_at(a + html_char(c), i),
{
    reveal_strlit("&amp;");
    reveal_strlit("&lt;");
    reveal_strlit("&gt;");
    reveal_strlit("&quot;");
    reveal_strlit("<br>\n");
    let e = html_char(c);
    let h = a + e;
    assert(h.subrange(a.len() as int, h.len() as int) =~= e);
    assert(h[i] == e[i - a.len()]);
}

proof fn lemma_inert_text(s: Seq<char>, n: int)
    requires
        0 <= n <= s.len(),
    ensures
        forall|i: int|
            0 <= i < html_text(s.take(n)).len() ==> #[trigger] is_inert_at(html_text(s.take(n)), i),
    decreases n,
{
    let f = |c: char| html_char(c);
    if n == 0 {
        assert(s.take(0).flat_map(f) =~= Seq::<char>::empty());
    } else {
        lemma_inert_text(s, n - 1);
        s.lemma_flat_map_take_append(f, n - 1);
        let head = html_text(s.take(n - 1));
        let e = html_char(s[n - 1]);
        let h = html_text(s.take(n));
        assert(h == head + e);
        assert forall|i: int| 0 <= i < h.len() implies #[trigger] is_inert_at(h, i) by {
            if i < head.len() {
                assert(is_inert_at(head, i));
                lemma_inert_in_front(head, e, i);
            } else {
                lemma_inert_char(head, s[n - 1], i);
            }
        }
    }
}

/// An escaped text brings no markup of its own into a page, neither between tags
/// nor inside a quoted attribute.
pub proof fn escaped_text_is_inert(s: Seq<char>)
    ensures
        forall|i: int| 0 <= i < html_text(s).len() ==> #[trigger] is_inert_at(html_text(s), i),
{
    lemma_inert_text(s, s.len() as int);
    assert(s.take(s.len() as int) =~= s);
}

/// A character of a text whose lines end in tags.
pub open spec fn line_broken_char(c: char) -> Seq<char> {
    if c == '\n' {
        "<br>\n"@
    } else {
        seq![c]
    }
}

/// A text with a line break tag before each line feed.
pub open spec fn line_broken(s: Seq<char>) -> Seq<char> {
    s.flat_map(|c: char| line_broken_char(c))
}

proof fn lemma_html_prefix(s: Seq<char>, k: int, n: int)
    requires
        0 <= k <= n <= s.len(),
    ensures
        html_text(s.take(k)).is_prefix_of(html_text(s.take(n))),
    decreases n - k,
{
    let f = |c: char| html_char(c);
    if k < n {
        lemma_html_prefix(s, k, n - 1);
        s.lemma_flat_map_take_append(f, n - 1);
    }
}

/// Decoding the character reference that stands for `c` at `p`.
proof fn lemma_decode_reference(h: Seq<char>, p: int, c: char)
    requires
        c == '&' || c == '<' || c == '>' || c == '"',
        occurs_at(h, html_char(c), p),
    ensures
        decoded_from(h, p) == seq![c] + decoded_from(h, p + html_char(c).len()),
{
    reveal_strlit("&amp;");
    reveal_strlit("&lt;");
    reveal_strlit("&gt;");
    reveal_strlit("&quot;");
    reveal_strlit("amp");
    reveal_strlit("lt");
    reveal_strlit("gt");
    reveal_strlit("quot");
    let e = html_char(c);
    let stop = p + e.len() - 1;
    assert forall|j: int| p <= j <= stop implies #[trigger] h[j] == e[j - p] by {
        assert(h.subrange(p, p + e.len())[j - p] == e[j - p]);
    }
    lemma_reference_stop(h, p + 1, p + 1, stop);
    let name = h.subrange(p + 1, stop);
    if c == '&' {
        assert(name =~= "amp"@);
    } else if c == '<' {
        assert(name =~= "lt"@);
        assert(name.len() != "amp"@.len());
    } else if c == '>' {
        assert(name =~= "gt"@);
        assert(name[0] == 'g' && "lt"@[0] == 'l');
        assert(name.len() != "amp"@.len());
    } else {
        assert(name =~= "quot"@);
        assert(name.len() == 4);
    }
}

/// A short name in ASCII stops at its semicolon.
proof fn lemma_reference_stop(h: Seq<char>, start: int, k: int, stop: int)
    requires
        0 <= start <= k <= stop < h.len(),
        stop - start <= 10,
        h[stop] == ';',
        forall|i: int| start <= i < stop ==> h[i] != ';' && (#[trigger] h[i]) as u32 <= 0x7f,
    ensures
        entity_stop(h, start, k) == stop,
    decreases stop - k,
{
    if k < stop {
        lemma_ascii_byte_len(h.subrange(start, k + 1));
        lemma_reference_stop(h, start, k + 1, stop);
    }
}

proof fn lemma_ascii_byte_len(s: Seq<char>)
    requires
        forall|i: int| 0 <= i < s.len() ==> (#[trigger] s[i]) as u32 <= 0x7f,
    ensures
        byte_len(s) == s.len(),
    decreases s.len(),
{
    if s.len() == 0 {
        lemma_byte_len_bounds(s);
    } else {
        lemma_ascii_byte_len(s.drop_last());
        lemma_byte_len_push(s.drop_last(), s.last());
        assert(s.drop_last().push(s.last()) =~= s);
    }
}

proof fn lemma_decode_escaped(s: Seq<char>, k: int)
    requires
        0 <= k <= s.len(),
    ensures
        decoded(html_text(s)) == line_broken(s.take(k)) + decoded_from(
            html_text(s),
            html_text(s.take(k)).len() as int,
        ),
    decreases k,
{
    let f = |c: char| html_char(c);
    let g = |c: char| line_broken_char(c);
    let h = html_text(s);
    if k == 0 {
        assert(s.take(0).flat_map(f) =~= Seq::<char>::empty());
        assert(s.take(0).flat_map(g) =~= Seq::<char>::empty());
        assert(Seq::<char>::empty() + decoded(h) =~= decoded(h));
    } else {
        lemma_decode_escaped(s, k - 1);
        s.lemma_flat_map_take_append(f, k - 1);
        s.lemma_flat_map_take_append(g, k - 1);
        lemma_html_prefix(s, k, s.len() as int);
        assert(s.take(s.len() as int) =~= s);
        let c = s[k - 1];
        let e = html_char(c);
        let p = html_text(s.take(k - 1)).len() as int;
        let q = html_text(s.take(k)).len() as int;
        assert(q == p + e.len());
        assert forall|i: int| 0 <= i < e.len() implies #[trigger] h.subrange(p, q)[i] == e[i] by {
            assert(html_text(s.take(k))[p + i] == e[i]);
            assert(h.subrange(0, q)[p + i] == e[i]);
        }
        assert(h.subrange(p, q) =~= e);
        let done = line_broken(s.take(k - 1));
        assert(line_broken(s.take(k)) == done + line_broken_char(c));
        if c == '&' || c == '<' || c == '>' || c == '"' {
            lemma_decode_reference(h, p, c);
            assert(done + (seq![c] + decoded_from(h, q)) =~= done + seq![c] + decoded_from(h, q));
        } else if c == '\n' {
            reveal_strlit("<br>\n");
            lemma_decode_line_break(h, p);
            assert(done + ("<br>\n"@ + decoded_from(h, q)) =~= done + "<br>\n"@ + decoded_from(
                h,
                q,
            ));
        } else {
            assert(h[p] == h.subrange(p, q)[0]);
            assert(done + (seq![c] + decoded_from(h, q)) =~= done + seq![c] + decoded_from(h, q));
        }
    }
}

proof fn lemma_decode_line_break(h: Seq<char>, p: int)
    requires
        occurs_at(h, "<br>\n"@, p),
    ensures
        decoded_from(h, p) == "<br>\n"@ + decoded_from(h, p + 5),
{
    reveal_strlit("<br>\n");
    let e = "<br>\n"@;
    assert forall|j: int| p <= j < p + 5 implies #[trigger] h[j] == e[j - p] by {
        assert(h.subrange(p, p + 5)[j - p] == e[j - p]);
    }
    reveal_with_fuel(decoded_from, 6);
    let tail = decoded_from(h, p + 5);
    assert(h[p] == '<' && h[p + 1] == 'b' && h[p + 2] == 'r' && h[p + 3] == '>' && h[p + 4]
        == '\n');
    assert(decoded_from(h, p) =~= seq!['<'] + (seq!['b'] + (seq!['r'] + (seq!['>'] + (seq!['\n']
        + tail)))));
    assert(decoded_from(h, p) =~= e + tail);
}

/// Decoding undoes escaping, but for the line breaks, which stay as tags.
pub proof fn decoding_undoes_escaping(s: Seq<char>)
    ensures
        decoded(html_text(s)) == line_broken(s),
{
    lemma_decode_escaped(s, s.len() as int);
    assert(s.take(s.len() as int) =~= s);
    assert(line_broken(s) + Seq::<char>::empty() =~= line_broken(s));
}

// ---------------------------------------------------------------------------
// Markers in bodies
// ---------------------------------------------------------------------------

/// An inline image that a body may refer to.
#[derive(Clone, Copy)]
pub struct InlineRef<'a> {
    /// The id that markers use.
    pub cid: &'a str,
    /// The id of the message part, which the HTML refers to.
    pub content_id: &'a str,
    pub filename: &'a str,
}

/// The value of an inline image that a body may refer to.
pub struct RefView {
    pub cid: Seq<char>,
    pub content_id: Seq<char>,
    pub filename: Seq<char>,
}

impl<'a> View for InlineRef<'a> {
    type V = RefView;

    open spec fn view(&self) -> RefView {
        RefView { cid: self.cid@, content_id: self.content_id@, filename: self.filename@ }
    }
}

/// The values of a list of images.
pub open spec fn ref_views(refs: Seq<InlineRef>) -> Seq<RefView> {
    refs.map_values(|r: InlineRef| r@)
}

/// The position of the last image with an id.
pub open spec fn ref_of(refs: Seq<RefView>, cid: Seq<char>) -> Option<int>
    decreases refs.len(),
{
    if refs.len() == 0 {
        None
    } else if refs.last().cid == cid {
        Some(refs.len() - 1)
    } else {
        ref_of(refs.drop_last(), cid)
    }
}

/// An index of images by id.
fn index_refs(refs: &[InlineRef]) -> (map: StringHashMap<usize>)
    ensures
        forall|cid: Seq<char>| #[trigger]
            map@.contains_key(cid) == (ref_of(ref_views(refs@), cid) is Some),
        forall|cid: Seq<char>| #[trigger]
            map@.contains_key(cid) ==> ref_of(ref_views(refs@), cid) == Some(map@[cid] as int)
                && map@[cid] < refs@.len(),
{
    let mut map: StringHashMap<usize> = StringHashMap::new();
    let ghost all = ref_views(refs@);
    let mut i: usize = 0;
    while i < refs.len()
        invariant
            i <= refs@.len(),
            all == ref_views(refs@),
            forall|cid: Seq<char>| #[trigger]
                map@.contains_key(cid) == (ref_of(all.take(i as int), cid) is Some),
            forall|cid: Seq<char>| #[trigger]
                map@.contains_key(cid) ==> ref_of(all.take(i as int), cid) == Some(
                    map@[cid] as int,
                ) && map@[cid] < i,
        decreases refs@.len() - i,
    {
        map.insert(copy_of(refs[i].cid), i);
        proof {
            assert(all.take(i as int + 1).drop_last() =~= all.take(i as int));
            assert(all.take(i as int + 1).last() == refs@[i as int]@);
        }
        i += 1;
    }
    proof {
        assert(all.take(all.len() as int) =~= all);
    }
    map
}

/// What a marker shows: its alt text, or the file name where that is empty.
pub open spec fn marker_label(m: MarkerView, r: RefView) -> Seq<char> {
    if m.alt.len() == 0 {
        r.filename
    } else {
        m.alt
    }
}

/// The image tag that a marker becomes.
pub open spec fn image_tag(m: MarkerView, r: RefView) -> Seq<char> {
    "<img src=\"cid:"@ + html_text(r.content_id) + "\" alt=\""@ + html_text(marker_label(m, r))
        + "\" style=\"max-width:100%; height:auto;\">"@
}

/// The HTML of a body from position `last` on, with the markers from `k` on
/// made into images. A marker with an unknown id stays text.
pub open spec fn html_body_from(
    raw: Seq<char>,
    ms: Seq<MarkerView>,
    refs: Seq<RefView>,
    k: int,
    last: int,
) -> Seq<char>
    decreases ms.len() - k,
{
    if k < 0 || k >= ms.len() {
        html_text(raw.subrange(last, raw.len() as int))
    } else {
        match ref_of(refs, ms[k].cid) {
            None => html_body_from(raw, ms, refs, k + 1, last),
            Some(i) => html_text(raw.subrange(last, ms[k].start)) + image_tag(ms[k], refs[i])
                + html_body_from(raw, ms, refs, k + 1, ms[k].end),
        }
    }
}

/// The HTML of a body.
pub open spec fn body_html(raw: Seq<char>, refs: Seq<RefView>) -> Seq<char> {
    html_body_from(raw, markers(raw), refs, 0, 0)
}

/// Renders a body to HTML: markers become images, everything around them is
/// escaped. The markers are those of the raw text, the same that validation
/// sees.
pub fn render_body_html(raw: &str, refs: &[InlineRef]) -> (out: String)
    ensures
        out@ == body_html(raw@, ref_views(refs@)),
{
    let ghost all = ref_views(refs@);
    let ms = scan_cid_markers(raw);
    let cs = chars_of(raw);
    let n: usize = cs.len();
    let map = index_refs(refs);
    let ghost views = markers(raw@);
    let mut out = String::new();
    let mut last: usize = 0;
    let mut k: usize = 0;
    proof {
        lemma_markers_in_order(raw@);
        assert(Seq::<char>::empty() + body_html(raw@, all) =~= body_html(raw@, all));
    }
    while k < ms.len()
        invariant
            cs@ == raw@,
            n == cs@.len(),
            all == ref_views(refs@),
            views == markers(raw@),
            marker_views(ms@) == views,
            k <= ms@.len(),
            last <= n,
            k < ms@.len() ==> last <= views[k as int].start,
            forall|j: int|
                0 <= j < views.len() ==> 0 <= (#[trigger] views[j]).start < views[j].end <= n,
            forall|a: int, b: int|
                0 <= a < b < views.len() ==> (#[trigger] views[a]).end <= (#[trigger] views[b]).start,
            forall|cid: Seq<char>| #[trigger]
                map@.contains_key(cid) == (ref_of(all, cid) is Some),
            forall|cid: Seq<char>| #[trigger]
                map@.contains_key(cid) ==> ref_of(all, cid) == Some(map@[cid] as int) && map@[cid]
                    < refs@.len(),
            out@ + html_body_from(raw@, views, all, k as int, last as int) == body_html(raw@, all),
        decreases ms@.len() - k,
    {
        let marker = &ms[k];
        let ghost before = out@;
        proof {
            assert(views[k as int] == marker@);
            if k + 1 < views.len() {
                assert(views[k as int].end <= views[k + 1].start);
                assert(views[k as int].start < views[k as int].end);
            }
        }
        if let Some(at) = map.get(marker.cid.as_str()) {
            let found = refs[*at];
            assert(all[*at as int] == found@);
            append_escaped(&mut out, &cs, last, marker.start);
            out.append("<img src=\"cid:");
            let src = html_escape(found.content_id);
            out.append(src.as_str());
            out.append("\" alt=\"");
            let alt = if marker.alt.as_str().is_empty() {
                html_escape(found.filename)
            } else {
                html_escape(marker.alt.as_str())
            };
            out.append(alt.as_str());
            out.append("\" style=\"max-width:100%; height:auto;\">");
            proof {
                let tail = html_body_from(raw@, views, all, k + 1, marker.end as int);
                let head = html_text(raw@.subrange(last as int, marker.start as int));
                assert(out@ =~= before + head + image_tag(marker@, found@));
                assert(before + (head + image_tag(marker@, found@) + tail) =~= out@ + tail);
            }
            last = marker.end;
        }
        k += 1;
    }
    append_escaped(&mut out, &cs, last, n);
    out
}

/// The plain text of a body from position `last` on, with the markers from `k`
/// on made into labels.
pub open spec fn plain_body_from(
    raw: Seq<char>,
    ms: Seq<MarkerView>,
    refs: Seq<RefView>,
    k: int,
    last: int,
) -> Seq<char>
    decreases ms.len() - k,
{
    if k < 0 || k >= ms.len() {
        raw.subrange(last, raw.len() as int)
    } else {
        match ref_of(refs, ms[k].cid) {
            None => plain_body_from(raw, ms, refs, k + 1, last),
            Some(i) => raw.subrange(last, ms[k].start) + ("["@ + marker_label(ms[k], refs[i]) + "]"@)
                + plain_body_from(raw, ms, refs, k + 1, ms[k].end),
        }
    }
}

/// The plain text of a body.
pub open spec fn body_plain(raw: Seq<char>, refs: Seq<RefView>) -> Seq<char> {
    plain_body_from(raw, markers(raw), refs, 0, 0)
}

/// Replaces markers with a readable label for the plain-text part.
pub fn apply_cid_markers_plain(body: &str, refs: &[InlineRef]) -> (out: String)
    ensures
        out@ == body_plain(body@, ref_views(refs@)),
{
    let ghost all = ref_views(refs@);
    let ms = scan_cid_markers(body);
    let cs = chars_of(body);
    let n: usize = cs.len();
    let map = index_refs(refs);
    let ghost views = markers(body@);
    let mut out = String::new();
    let mut last: usize = 0;
    let mut k: usize = 0;
    proof {
        lemma_markers_in_order(body@);
        assert(Seq::<char>::empty() + body_plain(body@, all) =~= body_plain(body@, all));
    }
    while k < ms.len()
        invariant
            cs@ == body@,
            n == cs@.len(),
            all == ref_views(refs@),
            views == markers(body@),
            marker_views(ms@) == views,
            k <= ms@.len(),
            last <= n,
            k < ms@.len() ==> last <= views[k as int].start,
            forall|j: int|
                0 <= j < views.len() ==> 0 <= (#[trigger] views[j]).start < views[j].end <= n,
            forall|a: int, b: int|
                0 <= a < b < views.len() ==> (#[trigger] views[a]).end <= (#[trigger] views[b]).start,
            forall|cid: Seq<char>| #[trigger]
                map@.contains_key(cid) == (ref_of(all, cid) is Some),
            forall|cid: Seq<char>| #[trigger]
                map@.contains_key(cid) ==> ref_of(all, cid) == Some(map@[cid] as int) && map@[cid]
                    < refs@.len(),
            out@ + plain_body_from(body@, views, all, k as int, last as int) == body_plain(body@, all),
        decreases ms@.len() - k,
    {
        let marker = &ms[k];
        let ghost before = out@;
        proof {
            assert(views[k as int] == marker@);
            if k + 1 < views.len() {
                assert(views[k as int].end <= views[k + 1].start);
                assert(views[k as int].start < views[k as int].end);
            }
        }
        if let Some(at) = map.get(marker.cid.as_str()) {
            let found = refs[*at];
            assert(all[*at as int] == found@);
            append_range(&mut out, &cs, last, marker.start);
            out.append("[");
            if marker.alt.as_str().is_empty() {
                out.append(found.filename);
            } else {
                out.append(marker.alt.as_str());
            }
            out.append("]");
            proof {
                let tail = plain_body_from(body@, views, all, k + 1, marker.end as int);
                let head = body@.subrange(last as int, marker.start as int);
                let label = "["@ + marker_label(marker@, found@) + "]"@;
                assert(out@ =~= before + head + label);
                assert(before + (head + label + tail) =~= out@ + tail);
            }
            last = marker.end;
        }
        k += 1;
    }
    append_range(&mut out, &cs, last, n);
    out
}

proof fn lemma_plain_characters_stay(s: Seq<char>, n: int)
    requires
        0 <= n <= s.len(),
        forall|i: int| 0 <= i < s.len() ==> html_char(#[trigger] s[i]) == seq![s[i]],
    ensures
        html_text(s.take(n)) == s.take(n),
    decreases n,
{
    let f = |c: char| html_char(c);
    if n == 0 {
        assert(s.take(0).flat_map(f) =~= s.take(0));
    } else {
        lemma_plain_characters_stay(s, n - 1);
        s.lemma_flat_map_take_append(f, n - 1);
        assert(s.take(n) =~= s.take(n - 1) + seq![s[n - 1]]);
    }
}

/// Escaping leaves a valid content id as it is, so a body has the same markers
/// for validation and for rendering.
pub proof fn content_ids_escape_to_themselves(id: Seq<char>)
    requires
        valid_cid(id),
    ensures
        html_text(id) == id,
{
    assert forall|i: int| 0 <= i < id.len() implies html_char(#[trigger] id[i]) == seq![id[i]] by {
        assert(cid_char(id[i]));
    }
    lemma_plain_characters_stay(id, id.len() as int);
    assert(id.take(id.len() as int) =~= id);
}

proof fn lemma_no_tags(s: Seq<char>, n: int)
    requires
        0 <= n <= s.len(),
        !s.contains('\n'),
    ensures
        forall|i: int|
            0 <= i < html_text(s.take(n)).len() ==> {
                let c = #[trigger] html_text(s.take(n))[i];
                c != '<' && c != '>' && c != '"'
            },
    decreases n,
{
    let f = |c: char| html_char(c);
    if n == 0 {
        assert(s.take(0).flat_map(f) =~= Seq::<char>::empty());
    } else {
        reveal_strlit("&amp;");
        reveal_strlit("&lt;");
        reveal_strlit("&gt;");
        reveal_strlit("&quot;");
        lemma_no_tags(s, n - 1);
        s.lemma_flat_map_take_append(f, n - 1);
        let head = html_text(s.take(n - 1));
        let e = html_char(s[n - 1]);
        let h = html_text(s.take(n));
        assert(h == head + e);
        assert(s[n - 1] != '\n');
        assert forall|i: int| 0 <= i < h.len() implies {
            let c = #[trigger] h[i];
            c != '<' && c != '>' && c != '"'
        } by {
            if i < head.len() {
                assert(h[i] == head[i]);
            } else {
                assert(h[i] == e[i - head.len()]);
            }
        }
    }
}

/// The alt text of a marker fits into a quoted attribute: escaped, it holds no
/// tag, not even a line break, and no quote.
pub proof fn alt_texts_fit_into_attributes(raw: Seq<char>, k: int)
    requires
        0 <= k < markers(raw).len(),
    ensures
        forall|i: int|
            0 <= i < html_text(markers(raw)[k].alt).len() ==> {
                let c = #[trigger] html_text(markers(raw)[k].alt)[i];
                c != '<' && c != '>' && c != '"'
            },
{
    let alt = markers(raw)[k].alt;
    markers_stand_in_the_body(raw, k);
    lemma_no_tags(alt, alt.len() as int);
    assert(alt.take(alt.len() as int) =~= alt);
}

proof fn lemma_unknown_markers_stay(
    raw: Seq<char>,
    ms: Seq<MarkerView>,
    refs: Seq<RefView>,
    k: int,
    last: int,
)
    requires
        0 <= k,
        forall|j: int| 0 <= j < ms.len() ==> ref_of(refs, (#[trigger] ms[j]).cid) is None,
    ensures
        html_body_from(raw, ms, refs, k, last) == html_text(
            raw.subrange(last, raw.len() as int),
        ),
        plain_body_from(raw, ms, refs, k, last) == raw.subrange(last, raw.len() as int),
    decreases ms.len() - k,
{
    if k < ms.len() {
        lemma_unknown_markers_stay(raw, ms, refs, k + 1, last);
    }
}

/// A body whose markers name no image is kept word for word: the plain text is
/// the body itself, and the HTML is the body escaped.
pub proof fn unknown_markers_stay_text(raw: Seq<char>, refs: Seq<RefView>)
    requires
        forall|k: int|
            0 <= k < markers(raw).len() ==> ref_of(refs, (#[trigger] markers(raw)[k]).cid) is None,
    ensures
        body_html(raw, refs) == html_text(raw),
        body_plain(raw, refs) == raw,
{
    lemma_unknown_markers_stay(raw, markers(raw), refs, 0, 0);
    assert(raw.subrange(0, raw.len() as int) =~= raw);
}

// ---------------------------------------------------------------------------
// Names and addresses
// ---------------------------------------------------------------------------

/// An address with its display name before it, or itself where it has none.
pub open spec fn mailbox_text(a: AddressView) -> Seq<char> {
    (match a.name {
        Some(n) => n,
        None => a.address,
    }) + " <"@ + a.address + ">"@
}

fn mailbox_string(a: &EmailAddress) -> (out: String)
    ensures
        out@ == mailbox_text(a@),
{
    let mut out = match &a.name {
        Some(n) => copy_of(n.as_str()),
        None => copy_of(a.address.as_str()),
    };
    out.append(" <");
    out.append(a.address.as_str());
    out.append(">");
    out
}

/// The sender above a quoted message.
pub open spec fn sender_text(from: Option<AddressView>) -> Seq<char> {
    match from {
        Some(a) => mailbox_text(a),
        None => "unknown"@,
    }
}

/// Formats a sender for display.
pub fn format_sender(from: &Option<EmailAddress>) -> (out: String)
    ensures
        out@ == sender_text(opt_address(*from)),
{
    match from {
        Some(a) => mailbox_string(a),
        None => copy_of("unknown"),
    }
}

/// The recipients above a quoted message.
pub open spec fn recipients_text(to: Seq<AddressView>) -> Seq<char> {
    joined(to.map_values(|a: AddressView| mailbox_text(a)), "; "@)
}

/// Formats a list of recipients for display.
pub fn format_recipients(addrs: &Vec<EmailAddress>) -> (out: String)
    ensures
        out@ == recipients_text(address_views(addrs@)),
{
    let ghost all = address_views(addrs@).map_values(|a: AddressView| mailbox_text(a));
    let mut out = String::new();
    let mut i: usize = 0;
    while i < addrs.len()
        invariant
            i <= addrs@.len(),
            all == address_views(addrs@).map_values(|a: AddressView| mailbox_text(a)),
            out@ == joined(all.take(i as int), "; "@),
        decreases addrs@.len() - i,
    {
        let one = mailbox_string(&addrs[i]);
        proof {
            assert(all.take(i as int + 1).drop_last() =~= all.take(i as int));
            assert(all[i as int] == one@);
            assert(Seq::<char>::empty() + all[0] =~= all[0]);
        }
        if i > 0 {
            out.append("; ");
        }
        out.append(one.as_str());
        i += 1;
    }
    proof {
        assert(all.take(all.len() as int) =~= all);
    }
    out
}

// ---------------------------------------------------------------------------
// Quoting
// ---------------------------------------------------------------------------

/// HTML that an allow-list of tags, attributes and URL schemes leaves.
pub uninterp spec fn cleaned_html(
    html: Seq<char>,
    tags: Seq<Seq<char>>,
    attributes: Seq<Seq<char>>,
    schemes: Seq<Seq<char>>,
) -> Seq<char>;

/// `ammonia::Builder::clean` with ammonia's own lists of tags and attributes
/// extended, the given URL schemes alone, and no `rel` added to links: the
/// result depends on the markup and the three lists alone. ammonia refuses a
/// tag that it drops together with its content, `script` and `style`, in the
/// list of allowed tags.
#[verifier::external_body]
fn clean_html(html: &str, tags: &[&str], attributes: &[&str], schemes: &[&str]) -> (out: String)
    requires
        forall|i: int|
            0 <= i < tags@.len() ==> (#[trigger] tags@[i])@ != "script"@ && tags@[i]@ != "style"@,
    ensures
        out@ == cleaned_html(
            html@,
            slice_texts(tags@),
            slice_texts(attributes@),
            slice_texts(schemes@),
        ),
{
    let mut builder = ammonia::Builder::default();
    builder
        .add_tags(tags.iter().copied())
        .add_generic_attributes(attributes.iter().copied())
        .url_schemes(schemes.iter().copied().collect())
        .link_rel(None);
    builder.clean(html).to_string()
}

/// The tags that quoted mail keeps beside the usual ones.
pub open spec fn quoted_tags() -> Seq<Seq<char>> {
    seq!["div"@, "span"@, "font"@, "center"@, "u"@, "big"@, "small"@]
}

/// The attributes that quoted mail keeps on any tag.
pub open spec fn quoted_attributes() -> Seq<Seq<char>> {
    seq![
        "style"@,
        "class"@,
        "dir"@,
        "align"@,
        "valign"@,
        "width"@,
        "height"@,
        "border"@,
        "cellpadding"@,
        "cellspacing"@,
        "bgcolor"@,
        "color"@,
        "face"@,
        "size"@,
        "lang"@,
    ]
}

/// The URL schemes that quoted mail keeps.
pub open spec fn quoted_schemes() -> Seq<Seq<char>> {
    seq!["http"@, "https"@, "mailto"@, "tel"@, "cid"@]
}

/// Quoted HTML with everything active removed and its formatting kept.
pub open spec fn quotable_html(html: Seq<char>) -> Seq<char> {
    cleaned_html(html, quoted_tags(), quoted_attributes(), quoted_schemes())
}

proof fn lemma_quoted_tags_are_kept()
    ensures
        forall|i: int|
            0 <= i < quoted_tags().len() ==> #[trigger] quoted_tags()[i] != "script"@
                && quoted_tags()[i] != "style"@,
{
    reveal_strlit("div");
    reveal_strlit("span");
    reveal_strlit("font");
    reveal_strlit("center");
    reveal_strlit("u");
    reveal_strlit("big");
    reveal_strlit("small");
    reveal_strlit("script");
    reveal_strlit("style");
    let tags = quoted_tags();
    assert forall|i: int| 0 <= i < tags.len() implies #[trigger] quoted_tags()[i] != "script"@
        && quoted_tags()[i] != "style"@ by {
        assert("center"@[0] == 'c' && "script"@[0] == 's');
        assert("small"@[1] == 'm' && "style"@[1] == 't');
        assert(i == 0 || i == 1 || i == 2 || i == 3 || i == 4 || i == 5 || i == 6);
        assert("div"@.len() == 3 && "span"@.len() == 4 && "font"@.len() == 4 && "u"@.len() == 1
            && "big"@.len() == 3);
    }
}

/// Sanitizes the HTML of a message for embedding it in a draft.
pub fn sanitize_quoted_html(html: &str) -> (out: String)
    ensures
        out@ == quotable_html(html@),
{
    let tags: [&str; 7] = ["div", "span", "font", "center", "u", "big", "small"];
    let attributes: [&str; 15] = [
        "style",
        "class",
        "dir",
        "align",
        "valign",
        "width",
        "height",
        "border",
        "cellpadding",
        "cellspacing",
        "bgcolor",
        "color",
        "face",
        "size",
        "lang",
    ];
    let schemes: [&str; 5] = ["http", "https", "mailto", "tel", "cid"];
    proof {
        assert(slice_texts(tags@) =~= quoted_tags());
        assert(slice_texts(attributes@) =~= quoted_attributes());
        assert(slice_texts(schemes@) =~= quoted_schemes());
        lemma_quoted_tags_are_kept();
        assert forall|i: int| 0 <= i < tags@.len() implies (#[trigger] tags@[i])@ != "script"@
            && tags@[i]@ != "style"@ by {
            assert(slice_texts(tags@)[i] == tags@[i]@);
            assert(quoted_tags()[i] == tags@[i]@);
        }
    }
    clean_html(html, tags.as_slice(), attributes.as_slice(), schemes.as_slice())
}

/// What a quote holds: cleaned HTML, or escaped text.
pub enum QuotedContent {
    Html(String),
    Plain(String),
}

/// A message is quoted as HTML: it has an HTML body that is not blank.
pub open spec fn quotes_html(body_html: Option<Seq<char>>) -> bool {
    body_html matches Some(h) && trim(h).len() > 0
}

/// Prepares the content of a message for quoting: its cleaned HTML, or its
/// escaped text where it has no HTML.
pub fn prepare_quoted_content(body_html: Option<&str>, body_text: &str) -> (q: QuotedContent)
    ensures
        quotes_html(opt_str(body_html)) ==> (q matches QuotedContent::Html(s) && s@
            == quotable_html(body_html->0@)),
        !quotes_html(opt_str(body_html)) ==> (q matches QuotedContent::Plain(s) && s@ == html_text(
            body_text@,
        )),
{
    match body_html {
        Some(html) => {
            let core = trimmed(html);
            if core.as_str().is_empty() {
                QuotedContent::Plain(html_escape(body_text))
            } else {
                QuotedContent::Html(sanitize_quoted_html(html))
            }
        },
        None => QuotedContent::Plain(html_escape(body_text)),
    }
}

/// The quoted content as a block.
pub open spec fn quoted_block(body_html: Option<Seq<char>>, body_text: Seq<char>) -> Seq<char> {
    if quotes_html(body_html) {
        "<div>\n"@ + quotable_html(body_html->0) + "\n</div>\n"@
    } else {
        "<div class=\"BodyFragment\"><font size=\"2\"><span style=\"font-size:11pt;\">\n<div class=\"PlainText\">"@
            + html_text(body_text) + "</div>\n</span></font></div>\n"@
    }
}

fn quoted_block_of(body_html: Option<&str>, body_text: &str) -> (out: String)
    ensures
        out@ == quoted_block(opt_str(body_html), body_text@),
{
    match prepare_quoted_content(body_html, body_text) {
        QuotedContent::Html(html) => {
            let mut out = copy_of("<div>\n");
            out.append(html.as_str());
            out.append("\n</div>\n");
            out
        },
        QuotedContent::Plain(text) => {
            let mut out = copy_of(
                "<div class=\"BodyFragment\"><font size=\"2\"><span style=\"font-size:11pt;\">\n<div class=\"PlainText\">",
            );
            out.append(text.as_str());
            out.append("</div>\n</span></font></div>\n");
            out
        },
    }
}

/// The four lines above a quoted message in plain text.
pub open spec fn quote_header(
    locale: Locale,
    from: Seq<char>,
    sent: Seq<char>,
    to: Seq<char>,
    subject: Seq<char>,
) -> Seq<char> {
    let labels = locale.label_texts();
    labels.0 + ": "@ + from + "\n"@ + labels.1 + ": "@ + sent + "\n"@ + labels.2 + ": "@ + to
        + "\n"@ + labels.3 + ": "@ + subject
}

/// Computes [`quote_header`].
pub fn plain_quote_header(locale: Locale, from: &str, sent: &str, to: &str, subject: &str) -> (out:
    String)
    ensures
        out@ == quote_header(locale, from@, sent@, to@, subject@),
{
    let labels = locale.quote_labels();
    let mut out = copy_of(labels.0);
    out.append(": ");
    out.append(from);
    out.append("\n");
    out.append(labels.1);
    out.append(": ");
    out.append(sent);
    out.append("\n");
    out.append(labels.2);
    out.append(": ");
    out.append(to);
    out.append("\n");
    out.append(labels.3);
    out.append(": ");
    out.append(subject);
    out
}

/// A label and its value in the block above a quoted message.
pub open spec fn labelled(label: Seq<char>, value: Seq<char>) -> Seq<char> {
    "<b>"@ + label + ":</b> "@ + value
}

fn append_labelled(out: &mut String, label: &str, value: &str)
    ensures
        final(out)@ == old(out)@ + labelled(label@, value@),
{
    let ghost before = out@;
    out.append("<b>");
    out.append(label);
    out.append(":</b> ");
    out.append(value);
    proof {
        assert(out@ =~= before + labelled(label@, value@));
    }
}

/// The block above a quoted message in HTML, and the quote.
pub open spec fn metablock(
    locale: Locale,
    from: Seq<char>,
    sent: Seq<char>,
    to: Seq<char>,
    subject: Seq<char>,
    quoted: Seq<char>,
) -> Seq<char> {
    let labels = locale.label_texts();
    "<hr style=\"display:inline-block;width:98%\" tabindex=\"-1\"><div id=\"divRplyFwdMsg\" dir=\"ltr\"><font face=\"Calibri, sans-serif\" style=\"font-size:11pt\" color=\"#000000\">"@
        + labelled(labels.0, html_text(from)) + "<br>\n"@ + labelled(labels.1, sent) + "<br>\n"@
        + labelled(labels.2, html_text(to)) + "<br>\n"@ + labelled(labels.3, html_text(subject))
        + "</font>\n<div>&nbsp;</div>\n</div>\n"@ + quoted
}

/// Computes [`metablock`].
pub fn quote_metablock_html(
    locale: Locale,
    from: &str,
    sent: &str,
    to: &str,
    subject: &str,
    quoted: &str,
) -> (out: String)
    ensures
        out@ == metablock(locale, from@, sent@, to@, subject@, quoted@),
{
    let labels = locale.quote_labels();
    let from = html_escape(from);
    let to = html_escape(to);
    let subject = html_escape(subject);
    let mut out = copy_of(
        "<hr style=\"display:inline-block;width:98%\" tabindex=\"-1\"><div id=\"divRplyFwdMsg\" dir=\"ltr\"><font face=\"Calibri, sans-serif\" style=\"font-size:11pt\" color=\"#000000\">",
    );
    append_labelled(&mut out, labels.0, from.as_str());
    out.append("<br>\n");
    append_labelled(&mut out, labels.1, sent);
    out.append("<br>\n");
    append_labelled(&mut out, labels.2, to.as_str());
    out.append("<br>\n");
    append_labelled(&mut out, labels.3, subject.as_str());
    out.append("</font>\n<div>&nbsp;</div>\n</div>\n");
    out.append(quoted);
    out
}

// ---------------------------------------------------------------------------
// Documents
// ---------------------------------------------------------------------------

/// A body made into a whole HTML document.
pub open spec fn html_document(content: Seq<char>) -> Seq<char> {
    "<html>\n<head>\n<meta http-equiv=\"Content-Type\" content=\"text/html; charset=utf-8\">\n<style type=\"text/css\" style=\"display:none;\"> P {margin-top:0;margin-bottom:0;} </style>\n</head>\n<body dir=\"ltr\">\n"@
        + content + "</body>\n</html>\n"@
}

/// Computes [`html_document`].
pub fn wrap_html_document(content: &str) -> (out: String)
    ensures
        out@ == html_document(content@),
{
    let mut out = copy_of(
        "<html>\n<head>\n<meta http-equiv=\"Content-Type\" content=\"text/html; charset=utf-8\">\n<style type=\"text/css\" style=\"display:none;\"> P {margin-top:0;margin-bottom:0;} </style>\n</head>\n<body dir=\"ltr\">\n",
    );
    out.append(content);
    out.append("</body>\n</html>\n");
    out
}

/// The style of a body in a locale.
pub open spec fn body_style(locale: Locale) -> Seq<char> {
    "<div style=\"font-family: "@ + locale.font_text() + "; font-size: 12pt; color: "@
        + locale.color_text()
}

fn append_body_style(out: &mut String, locale: Locale)
    ensures
        final(out)@ == old(out)@ + body_style(locale),
{
    let ghost before = out@;
    out.append("<div style=\"font-family: ");
    out.append(locale.font());
    out.append("; font-size: 12pt; color: ");
    out.append(locale.color());
    proof {
        assert(out@ =~= before + body_style(locale));
    }
}

/// The block that holds what the author wrote.
pub open spec fn body_block(content: Seq<char>, locale: Locale) -> Seq<char> {
    body_style(locale) + ";\" class=\"elementToProof\">\n"@ + content + "</div>\n"@
}

/// Computes [`body_block`].
pub fn body_div(content: &str, locale: Locale) -> (out: String)
    ensures
        out@ == body_block(content@, locale),
{
    let mut out = String::new();
    append_body_style(&mut out, locale);
    out.append(";\" class=\"elementToProof\">\n");
    out.append(content);
    out.append("</div>\n");
    proof {
        assert(out@ =~= body_block(content@, locale));
    }
    out
}

/// The block that holds the HTML signature, where there is one.
pub open spec fn signature_html(signature: Seq<char>, locale: Locale) -> Seq<char> {
    if signature.len() == 0 {
        Seq::empty()
    } else {
        "<div id=\"Signature\" class=\"elementToProof\">\n"@ + body_style(locale)
            + ";\">\n<br>\n</div>\n<div id=\"divtagdefaultwrapper\">\n"@ + signature
            + "\n</div>\n</div>\n"@
    }
}

/// Computes [`signature_html`].
pub fn signature_block(signature: &str, locale: Locale) -> (out: String)
    ensures
        out@ == signature_html(signature@, locale),
{
    if signature.is_empty() {
        return String::new();
    }
    let mut out = copy_of("<div id=\"Signature\" class=\"elementToProof\">\n");
    append_body_style(&mut out, locale);
    out.append(";\">\n<br>\n</div>\n<div id=\"divtagdefaultwrapper\">\n");
    out.append(signature);
    out.append("\n</div>\n</div>\n");
    out
}

// ---------------------------------------------------------------------------
// Bodies
// ---------------------------------------------------------------------------

/// The two bodies of a draft.
pub struct Bodies {
    pub plain: String,
    pub html: String,
}

/// The two bodies of a draft as texts.
#[verifier::ext_equal]
pub struct BodiesView {
    pub plain: Seq<char>,
    pub html: Seq<char>,
}

impl View for Bodies {
    type V = BodiesView;

    open spec fn view(&self) -> BodiesView {
        BodiesView { plain: self.plain@, html: self.html@ }
    }
}

/// The plain text below what the author wrote: the header block and the
/// message's text, without marks at the beginning of lines.
pub open spec fn plain_quote(original: EmailView, sent: Seq<char>, locale: Locale) -> Seq<char> {
    "\n\n"@ + quote_header(
        locale,
        sender_text(original.from),
        sent,
        recipients_text(original.to),
        original.subject,
    ) + "\n\n"@ + original.body_text
}

/// The HTML below what the author wrote.
pub open spec fn html_quote(original: EmailView, sent: Seq<char>, locale: Locale) -> Seq<char> {
    "<div id=\"appendonsend\"></div>\n"@ + metablock(
        locale,
        sender_text(original.from),
        sent,
        recipients_text(original.to),
        original.subject,
        quoted_block(original.body_html, original.body_text),
    )
}

/// The bodies of a draft that quotes a message.
pub open spec fn quoting_bodies(
    original: EmailView,
    sent: Seq<char>,
    plain: Seq<char>,
    html: Seq<char>,
    locale: Locale,
    signatures: Signatures,
) -> BodiesView {
    BodiesView {
        plain: signatures.signed(plain) + plain_quote(original, sent, locale),
        html: html_document(
            body_block(html, locale) + signature_html(signatures.html@, locale) + html_quote(
                original,
                sent,
                locale,
            ),
        ),
    }
}

/// Puts a quoted message below an author's plain text and HTML, with the date
/// as it is shown.
fn quote_below(
    original: &EmailFull,
    sent: &str,
    plain: &str,
    html: &str,
    locale: Locale,
    signatures: &Signatures,
) -> (b: Bodies)
    ensures
        b@ == quoting_bodies(original@, sent@, plain@, html@, locale, *signatures),
{
    let from = format_sender(&original.from);
    let to = format_recipients(&original.to);
    let header = plain_quote_header(
        locale,
        from.as_str(),
        sent,
        to.as_str(),
        original.subject.as_str(),
    );
    let mut text = signatures.apply_plain(plain);
    let ghost signed = text@;
    text.append("\n\n");
    text.append(header.as_str());
    text.append("\n\n");
    text.append(original.body_text.as_str());
    let body_html: Option<&str> = match &original.body_html {
        Some(h) => Some(h.as_str()),
        None => None,
    };
    let quoted = quoted_block_of(body_html, original.body_text.as_str());
    let block = quote_metablock_html(
        locale,
        from.as_str(),
        sent,
        to.as_str(),
        original.subject.as_str(),
        quoted.as_str(),
    );
    let mut content = body_div(html, locale);
    let ghost written = content@;
    let signature = signature_block(signatures.html.as_str(), locale);
    content.append(signature.as_str());
    content.append("<div id=\"appendonsend\"></div>\n");
    content.append(block.as_str());
    proof {
        assert(text@ =~= signed + plain_quote(original@, sent@, locale));
        assert(content@ =~= written + signature@ + html_quote(original@, sent@, locale));
    }
    Bodies { plain: text, html: wrap_html_document(content.as_str()) }
}

fn shown_stamp(original: &EmailFull, locale: Locale, zone: Zone) -> (out: String)
    ensures
        exists|offset: i32|
            of_zone(zone, offset) && out@ == #[trigger] shown_date(original@.date, locale, offset),
{
    let date: Option<&str> = match &original.date {
        Some(d) => Some(d.as_str()),
        None => None,
    };
    format_date_outlook_in(date, locale, zone)
}

/// The bodies of a reply, with the date shown at an offset.
pub open spec fn reply_bodies(
    original: EmailView,
    body: Seq<char>,
    locale: Locale,
    signatures: Signatures,
    inline: Seq<RefView>,
    offset: i32,
) -> BodiesView {
    quoting_bodies(
        original,
        shown_date(original.date, locale, offset),
        body_plain(body, inline),
        body_html(body, inline),
        locale,
        signatures,
    )
}

/// Builds both bodies of a reply: what the author wrote, the signature, and the
/// message below the header block.
pub fn build_reply_bodies(
    original: &EmailFull,
    user_body: &str,
    locale: Locale,
    signatures: &Signatures,
    inline: &[InlineRef],
    zone: Zone,
) -> (b: Bodies)
    ensures
        exists|offset: i32|
            of_zone(zone, offset) && b@ == #[trigger] reply_bodies(
                original@,
                user_body@,
                locale,
                *signatures,
                ref_views(inline@),
                offset,
            ),
{
    let sent = shown_stamp(original, locale, zone);
    let ghost offset = choose|offset: i32|
        of_zone(zone, offset) && sent@ == #[trigger] shown_date(original@.date, locale, offset);
    let plain = apply_cid_markers_plain(user_body, inline);
    let html = render_body_html(user_body, inline);
    let b = quote_below(
        original,
        sent.as_str(),
        plain.as_str(),
        html.as_str(),
        locale,
        signatures,
    );
    assert(b@ == reply_bodies(original@, user_body@, locale, *signatures, ref_views(inline@), offset));
    b
}

/// The bodies of a forwarded message, with the date shown at an offset. Where
/// the author wrote nothing, a blank line stands in the HTML.
pub open spec fn forward_bodies(
    original: EmailView,
    body: Option<Seq<char>>,
    locale: Locale,
    signatures: Signatures,
    inline: Seq<RefView>,
    offset: i32,
) -> BodiesView {
    let text = match body {
        Some(b) => b,
        None => Seq::empty(),
    };
    quoting_bodies(
        original,
        shown_date(original.date, locale, offset),
        body_plain(text, inline),
        if text.len() == 0 {
            "<br>"@
        } else {
            body_html(text, inline)
        },
        locale,
        signatures,
    )
}

/// Builds both bodies of a forwarded message, in the layout of replies.
pub fn build_forward_bodies(
    original: &EmailFull,
    user_body: Option<&str>,
    locale: Locale,
    signatures: &Signatures,
    inline: &[InlineRef],
    zone: Zone,
) -> (b: Bodies)
    ensures
        exists|offset: i32|
            of_zone(zone, offset) && b@ == #[trigger] forward_bodies(
                original@,
                opt_str(user_body),
                locale,
                *signatures,
                ref_views(inline@),
                offset,
            ),
{
    let sent = shown_stamp(original, locale, zone);
    let ghost offset = choose|offset: i32|
        of_zone(zone, offset) && sent@ == #[trigger] shown_date(original@.date, locale, offset);
    let text = match user_body {
        Some(t) => copy_of(t),
        None => String::new(),
    };
    let plain = apply_cid_markers_plain(text.as_str(), inline);
    let html = if text.as_str().is_empty() {
        copy_of("<br>")
    } else {
        render_body_html(text.as_str(), inline)
    };
    let b = quote_below(
        original,
        sent.as_str(),
        plain.as_str(),
        html.as_str(),
        locale,
        signatures,
    );
    assert(b@ == forward_bodies(
        original@,
        opt_str(user_body),
        locale,
        *signatures,
        ref_views(inline@),
        offset,
    ));
    b
}

/// The bodies of a message that quotes nothing.
pub open spec fn compose_bodies(
    body: Seq<char>,
    locale: Locale,
    signatures: Signatures,
    inline: Seq<RefView>,
) -> BodiesView {
    BodiesView {
        plain: signatures.signed(body_plain(body, inline)),
        html: html_document(
            body_block(body_html(body, inline), locale) + signature_html(signatures.html@, locale),
        ),
    }
}

/// Builds both bodies of a message that quotes nothing.
pub fn build_compose_bodies(
    body: &str,
    locale: Locale,
    signatures: &Signatures,
    inline: &[InlineRef],
) -> (b: Bodies)
    ensures
        b@ == compose_bodies(body@, locale, *signatures, ref_views(inline@)),
{
    let text = apply_cid_markers_plain(body, inline);
    let plain = signatures.apply_plain(text.as_str());
    let html = render_body_html(body, inline);
    let mut content = body_div(html.as_str(), locale);
    let signature = signature_block(signatures.html.as_str(), locale);
    content.append(signature.as_str());
    Bodies { plain, html: wrap_html_document(content.as_str()) }
}

} // verus!
