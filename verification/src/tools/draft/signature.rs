//! Signatures for both parts of a draft.

use vstd::prelude::*;

use crate::text::append_range;
use crate::text::ascii_lower_string;
use crate::text::ascii_lower_text;
use crate::text::begins_with;
use crate::text::chars_of;
use crate::text::copy_of;
use crate::text::is_white_space;
use crate::text::join;
use crate::text::joined;
use crate::text::joined_texts_are_split_again;
use crate::text::lemma_next_char;
use crate::text::next_char;
use crate::text::next_char_at;
use crate::text::opt_str;
use crate::text::ranges_text;
use crate::text::replace_text;
use crate::text::replaced;
use crate::text::runs_of;
use crate::text::same_text;
use crate::text::split;
use crate::text::split_ranges;
use crate::text::string_of_range;
use crate::text::texts;
use crate::text::texts_without_the_pattern_are_kept;
use crate::text::trim;
use crate::text::trim_bounds;
use crate::text::trimming_takes_the_ends;
use crate::text::unbroken_texts_are_one_word;
use crate::text::words;
use crate::text::CharClass;

verus! {

/// A text without the slashes it begins with.
pub open spec fn after_slashes(s: Seq<char>) -> Seq<char>
    decreases s.len(),
{
    if s.len() > 0 && s[0] == '/' {
        after_slashes(s.drop_first())
    } else {
        s
    }
}

/// The length of what stands before the first blank, tab or slash.
pub open spec fn name_len(s: Seq<char>, i: int) -> int
    decreases s.len() - i,
{
    if i < 0 || i >= s.len() || s[i] == ' ' || s[i] == '\t' || s[i] == '/' {
        i
    } else {
        name_len(s, i + 1)
    }
}

/// The name of a tag: what stands behind its leading slashes, up to a blank, a
/// tab or a slash.
pub open spec fn tag_name(tag: Seq<char>) -> Seq<char> {
    let rest = after_slashes(tag);
    rest.take(name_len(rest, 0))
}

/// A tag breaks the line: a `br`, or the end of a block.
pub open spec fn breaks_line(inner: Seq<char>) -> bool {
    let tag = ascii_lower_text(trim(inner));
    let name = tag_name(tag);
    name == "br"@ || (begins_with(tag, "/"@) && (name == "p"@ || name == "div"@ || name == "tr"@
        || name == "li"@))
}

proof fn lemma_name_len(s: Seq<char>, i: int)
    requires
        0 <= i <= s.len(),
    ensures
        i <= name_len(s, i) <= s.len(),
    decreases s.len() - i,
{
    if i < s.len() && s[i] != ' ' && s[i] != '\t' && s[i] != '/' {
        lemma_name_len(s, i + 1);
    }
}

/// Decides [`breaks_line`] of the characters at `from..to`.
fn tag_breaks_line(cs: &[char], from: usize, to: usize) -> (yes: bool)
    requires
        from <= to <= cs@.len(),
    ensures
        yes == breaks_line(cs@.subrange(from as int, to as int)),
{
    let (a, z) = trim_bounds(cs, from, to);
    let inner = string_of_range(cs, a, z);
    let tag = ascii_lower_string(inner.as_str());
    let t = chars_of(tag.as_str());
    let n: usize = t.len();
    let mut i: usize = 0;
    proof {
        assert(t@.subrange(0, n as int) =~= t@);
        reveal_strlit("/");
    }
    while i < n && t[i] == '/'
        invariant
            n == t@.len(),
            i <= n,
            after_slashes(t@) == after_slashes(t@.subrange(i as int, n as int)),
        decreases n - i,
    {
        proof {
            assert(t@.subrange(i as int, n as int).drop_first() =~= t@.subrange(i + 1, n as int));
        }
        i += 1;
    }
    let ghost rest = t@.subrange(i as int, n as int);
    let mut j: usize = i;
    while j < n && t[j] != ' ' && t[j] != '\t' && t[j] != '/'
        invariant
            n == t@.len(),
            i <= j <= n,
            rest == t@.subrange(i as int, n as int),
            name_len(rest, 0) == name_len(rest, j - i),
        decreases n - j,
    {
        j += 1;
    }
    let name = string_of_range(&t, i, j);
    proof {
        assert(after_slashes(t@) == rest);
        assert(name@ =~= rest.take(j - i));
        assert("/"@ =~= seq!['/']);
        assert(begins_with(t@, "/"@) == (n > 0 && t@[0] == '/')) by {
            if n > 0 {
                assert(t@.subrange(0, 1) =~= seq![t@[0]]);
            }
        }
    }
    same_text(name.as_str(), "br") || (n > 0 && t[0] == '/' && (same_text(name.as_str(), "p")
        || same_text(name.as_str(), "div") || same_text(name.as_str(), "tr") || same_text(
        name.as_str(),
        "li",
    )))
}

/// Markup from position `i` on, with each tag dropped or made into a line
/// break. A tag without an end is text.
pub open spec fn untagged_from(s: Seq<char>, i: int) -> Seq<char>
    decreases s.len() - i,
    via untagged_from_decreases
{
    let open = next_char(s, '<', i);
    let close = next_char(s, '>', open + 1);
    if i < 0 || i >= s.len() {
        Seq::empty()
    } else if open >= s.len() || close >= s.len() {
        s.subrange(i, s.len() as int)
    } else {
        s.subrange(i, open) + (if breaks_line(s.subrange(open + 1, close)) {
            seq!['\n']
        } else {
            Seq::empty()
        }) + untagged_from(s, close + 1)
    }
}

#[via_fn]
proof fn untagged_from_decreases(s: Seq<char>, i: int) {
    if 0 <= i < s.len() {
        lemma_next_char(s, '<', i);
        let open = next_char(s, '<', i);
        if open < s.len() {
            lemma_next_char(s, '>', open + 1);
        }
    }
}

/// Computes [`untagged_from`] of the whole text.
fn untagged(s: &str) -> (out: String)
    ensures
        out@ == untagged_from(s@, 0),
{
    let cs = chars_of(s);
    let n: usize = cs.len();
    let mut out = String::new();
    let mut i: usize = 0;
    proof {
        assert(Seq::<char>::empty() + untagged_from(s@, 0) =~= untagged_from(s@, 0));
    }
    while i < n
        invariant
            cs@ == s@,
            n == cs@.len(),
            i <= n,
            out@ + untagged_from(s@, i as int) == untagged_from(s@, 0),
        decreases n - i,
    {
        let ghost before = out@;
        let open = next_char_at(&cs, '<', i);
        let close = if open < n {
            next_char_at(&cs, '>', open + 1)
        } else {
            n
        };
        if close >= n {
            append_range(&mut out, &cs, i, n);
            return out;
        }
        append_range(&mut out, &cs, i, open);
        let breaks = tag_breaks_line(&cs, open + 1, close);
        if breaks {
            out.push('\n');
        }
        proof {
            let text = s@.subrange(i as int, open as int);
            let mark: Seq<char> = if breaks {
                seq!['\n']
            } else {
                Seq::empty()
            };
            let rest = untagged_from(s@, close + 1);
            assert(out@ =~= before + text + mark);
            assert(before + (text + mark + rest) =~= out@ + rest);
        }
        i = close + 1;
    }
    proof {
        assert(out@ + Seq::<char>::empty() =~= out@);
    }
    out
}

/// The six entities of signature markup decoded, one after the other.
pub open spec fn plain_entities(s: Seq<char>) -> Seq<char> {
    let s = replaced(s, "&nbsp;"@, " "@);
    let s = replaced(s, "&lt;"@, "<"@);
    let s = replaced(s, "&gt;"@, ">"@);
    let s = replaced(s, "&quot;"@, "\""@);
    let s = replaced(s, "&#39;"@, "'"@);
    replaced(s, "&amp;"@, "&"@)
}

/// Computes [`plain_entities`].
fn decode_plain_entities(s: &str) -> (out: String)
    ensures
        out@ == plain_entities(s@),
{
    proof {
        reveal_strlit("&nbsp;");
        reveal_strlit("&lt;");
        reveal_strlit("&gt;");
        reveal_strlit("&quot;");
        reveal_strlit("&#39;");
        reveal_strlit("&amp;");
    }
    let s = replace_text(s, "&nbsp;", " ");
    let s = replace_text(s.as_str(), "&lt;", "<");
    let s = replace_text(s.as_str(), "&gt;", ">");
    let s = replace_text(s.as_str(), "&quot;", "\"");
    let s = replace_text(s.as_str(), "&#39;", "'");
    replace_text(s.as_str(), "&amp;", "&")
}

/// Lines without the blank ones at either end, and with a run of blank lines
/// made into one: a blank line stands only before a line that follows it.
pub open spec fn tidy(lines: Seq<Seq<char>>) -> Seq<Seq<char>>
    decreases lines.len(),
{
    if lines.len() == 0 {
        Seq::empty()
    } else {
        let head = tidy(lines.drop_last());
        let last = lines.last();
        if last.len() == 0 {
            head
        } else if head.len() > 0 && lines[lines.len() - 2].len() == 0 {
            head.push(Seq::empty()).push(last)
        } else {
            head.push(last)
        }
    }
}

/// A line as a signature shows it: the separator gets its trailing blank back.
pub open spec fn signature_line(line: Seq<char>) -> Seq<char> {
    if line == "--"@ {
        "-- "@
    } else {
        line
    }
}

/// The trimmed lines of a text.
pub open spec fn trimmed_lines(s: Seq<char>) -> Seq<Seq<char>> {
    split(s, '\n').map_values(|line: Seq<char>| trim(line))
}

/// The lines of the plain-text signature that an HTML signature stands for:
/// white space of the markup collapses, tags break lines or vanish, entities
/// are decoded, lines are trimmed and blank lines tidied.
pub open spec fn signature_lines(html: Seq<char>) -> Seq<Seq<char>> {
    let collapsed = joined(words(html), " "@);
    tidy(trimmed_lines(plain_entities(untagged_from(collapsed, 0))))
}

/// The plain-text signature that an HTML signature stands for.
pub open spec fn signature_text(html: Seq<char>) -> Seq<char> {
    joined(signature_lines(html).map_values(|l: Seq<char>| signature_line(l)), "\n"@)
}

/// A text with each run of white space made into one blank, and none at either
/// end.
fn collapse(s: &str) -> (out: String)
    ensures
        out@ == joined(words(s@), " "@),
{
    let cs = chars_of(s);
    let rs = runs_of(&cs, CharClass::NonSpace);
    let mut parts: Vec<String> = Vec::new();
    let ghost all = words(s@);
    let mut k: usize = 0;
    while k < rs.len()
        invariant
            cs@ == s@,
            all == words(s@),
            ranges_text(cs@, rs@) == all,
            forall|k: int| 0 <= k < rs@.len() ==> (#[trigger] rs@[k]).0 < rs@[k].1 <= cs@.len(),
            k <= rs@.len(),
            texts(parts@) == all.take(k as int),
        decreases rs@.len() - k,
    {
        let (a, z) = rs[k];
        let part = string_of_range(&cs, a, z);
        let ghost before = texts(parts@);
        parts.push(part);
        proof {
            assert(all[k as int] == part@);
            assert(texts(parts@) =~= before.push(part@));
            assert(all.take(k as int + 1) =~= all.take(k as int).push(all[k as int]));
        }
        k += 1;
    }
    proof {
        assert(all.take(all.len() as int) =~= all);
    }
    join(&parts, " ")
}

/// Derives a plain-text signature from an HTML signature.
pub fn signature_text_from_html(html: &str) -> (out: String)
    ensures
        out@ == signature_text(html@),
{
    let collapsed = collapse(html);
    let text = untagged(collapsed.as_str());
    let decoded = decode_plain_entities(text.as_str());
    let cs = chars_of(decoded.as_str());
    let rs = split_ranges(&cs, '\n');
    let ghost lines = trimmed_lines(decoded@);
    let mut kept: Vec<String> = Vec::new();
    let ghost show = |l: Seq<char>| signature_line(l);
    let mut after_blank: bool = false;
    let mut k: usize = 0;
    proof {
        assert(lines.take(0) =~= Seq::<Seq<char>>::empty());
        assert(texts(kept@) =~= tidy(lines.take(0)).map_values(show));
    }
    while k < rs.len()
        invariant
            cs@ == decoded@,
            show == |l: Seq<char>| signature_line(l),
            lines == trimmed_lines(decoded@),
            ranges_text(cs@, rs@) == split(decoded@, '\n'),
            forall|k: int| 0 <= k < rs@.len() ==> (#[trigger] rs@[k]).0 <= rs@[k].1 <= cs@.len(),
            k <= rs@.len(),
            texts(kept@) == tidy(lines.take(k as int)).map_values(show),
            after_blank == (k > 0 && lines[k - 1].len() == 0),
        decreases rs@.len() - k,
    {
        let (from, to) = rs[k];
        let (a, z) = trim_bounds(&cs, from, to);
        let line = string_of_range(&cs, a, z);
        let ghost before = texts(kept@);
        let ghost head = tidy(lines.take(k as int));
        proof {
            assert(lines.len() == rs@.len());
            assert(lines[k as int] == line@) by {
                assert(ranges_text(cs@, rs@)[k as int] == cs@.subrange(from as int, to as int));
            }
            assert(lines.take(k as int + 1).drop_last() =~= lines.take(k as int));
            assert(lines.take(k as int + 1).last() == line@);
            reveal_strlit("--");
            reveal_strlit("-- ");
            assert(show(Seq::empty()) =~= Seq::<char>::empty());
        }
        if a < z {
            if kept.len() > 0 && after_blank {
                let blank = String::new();
                proof {
                    assert(blank@ =~= Seq::<char>::empty());
                    assert(texts(kept@.push(blank)) =~= before.push(blank@));
                    assert(before.len() == head.len());
                    assert(head.push(Seq::empty()).map_values(show) =~= head.map_values(show).push(
                        Seq::empty(),
                    ));
                }
                kept.push(blank);
            }
            let ghost middle = texts(kept@);
            let shown = if same_text(line.as_str(), "--") {
                copy_of("-- ")
            } else {
                copy_of(line.as_str())
            };
            let ghost now = if head.len() > 0 && after_blank {
                head.push(Seq::empty())
            } else {
                head
            };
            proof {
                assert(before.len() == head.len());
                assert(middle == now.map_values(show));
                assert(texts(kept@.push(shown)) =~= middle.push(shown@));
                assert(now.push(line@).map_values(show) =~= now.map_values(show).push(
                    show(line@),
                ));
                assert(tidy(lines.take(k as int + 1)) == now.push(line@));
            }
            kept.push(shown);
            after_blank = false;
        } else {
            proof {
                assert(tidy(lines.take(k as int + 1)) == head);
            }
            after_blank = true;
        }
        k += 1;
    }
    proof {
        assert(lines.len() == rs@.len()) by {
            assert(ranges_text(cs@, rs@).len() == rs@.len());
        }
        assert(lines.take(lines.len() as int) =~= lines);
    }
    join(&kept, "\n")
}

/// Tidied lines neither begin nor end with a blank line, and no two blank lines
/// stand beside each other.
pub proof fn tidy_lines_are_tidy(lines: Seq<Seq<char>>)
    ensures
        tidy(lines).len() > 0 ==> tidy(lines)[0].len() > 0 && tidy(lines).last().len() > 0,
        forall|i: int|
            0 <= i < tidy(lines).len() - 1 ==> (#[trigger] tidy(lines)[i]).len() > 0 || tidy(
                lines,
            )[i + 1].len() > 0,
    decreases lines.len(),
{
    if lines.len() > 0 {
        tidy_lines_are_tidy(lines.drop_last());
        let head = tidy(lines.drop_last());
        assert forall|i: int| 0 <= i < tidy(lines).len() - 1 implies (#[trigger] tidy(
            lines,
        )[i]).len() > 0 || tidy(lines)[i + 1].len() > 0 by {
            if i < head.len() - 1 {
                assert(tidy(lines)[i] == head[i]);
                assert(tidy(lines)[i + 1] == head[i + 1]);
            }
        }
    }
}

/// Tidying changes no tidy list of lines.
pub proof fn tidying_twice_changes_nothing(lines: Seq<Seq<char>>)
    ensures
        tidy(tidy(lines)) == tidy(lines),
    decreases lines.len(),
{
    if lines.len() > 0 {
        let head = tidy(lines.drop_last());
        let last = lines.last();
        tidying_twice_changes_nothing(lines.drop_last());
        tidy_lines_are_tidy(lines.drop_last());
        if last.len() == 0 {
        } else if head.len() > 0 && lines[lines.len() - 2].len() == 0 {
            let gap = head.push(Seq::empty());
            assert(gap.drop_last() =~= head);
            assert(tidy(gap) == head);
            assert(gap.push(last).drop_last() =~= gap);
            assert(gap.push(last)[gap.push(last).len() - 2].len() == 0);
        } else {
            assert(head.push(last).drop_last() =~= head);
            if head.len() > 0 {
                assert(head.push(last)[head.push(last).len() - 2] == head.last());
            }
        }
    }
}

/// Signatures for both parts of a draft.
pub struct Signatures {
    pub html: String,
    pub text: String,
}

/// A word of a signature without markup.
pub open spec fn is_plain_word(w: Seq<char>) -> bool {
    &&& w.len() > 0
    &&& forall|i: int| 0 <= i < w.len() ==> !is_white_space(#[trigger] w[i]) && w[i] != '<' && w[i]
        != '&'
}

proof fn lemma_no_entities(s: Seq<char>)
    requires
        !s.contains('&'),
    ensures
        plain_entities(s) == s,
{
    reveal_strlit("&nbsp;");
    reveal_strlit("&lt;");
    reveal_strlit("&gt;");
    reveal_strlit("&quot;");
    reveal_strlit("&#39;");
    reveal_strlit("&amp;");
    texts_without_the_pattern_are_kept(s, "&nbsp;"@, " "@);
    texts_without_the_pattern_are_kept(s, "&lt;"@, "<"@);
    texts_without_the_pattern_are_kept(s, "&gt;"@, ">"@);
    texts_without_the_pattern_are_kept(s, "&quot;"@, "\""@);
    texts_without_the_pattern_are_kept(s, "&#39;"@, "'"@);
    texts_without_the_pattern_are_kept(s, "&amp;"@, "&"@);
}

proof fn lemma_break_tag()
    ensures
        breaks_line(seq!['b', 'r']),
{
    reveal_strlit("br");
    let tag = seq!['b', 'r'];
    assert("br"@ =~= tag);
    trimming_takes_the_ends(Seq::empty(), tag, Seq::empty());
    assert(Seq::<char>::empty() + tag + Seq::<char>::empty() =~= tag);
    assert(ascii_lower_text(tag) =~= tag);
    assert(after_slashes(tag) == tag);
    reveal_with_fuel(name_len, 3);
    assert(name_len(tag, 0) == 2);
    assert(tag.take(2) =~= tag);
}

proof fn lemma_untagged_break(a: Seq<char>, b: Seq<char>)
    requires
        is_plain_word(a),
        is_plain_word(b),
        !b.contains('>'),
    ensures
        untagged_from(a + seq!['<', 'b', 'r', '>'] + b, 0) == a + seq!['\n'] + b,
{
    let s = a + seq!['<', 'b', 'r', '>'] + b;
    let n = a.len() as int;
    lemma_next_char(s, '<', 0);
    assert(next_char(s, '<', 0) == n) by {
        let x = next_char(s, '<', 0);
        assert(s[n] == '<');
        if x < n {
            assert(s[x] == a[x]);
        }
    }
    lemma_next_char(s, '>', n + 1);
    assert(next_char(s, '>', n + 1) == n + 3) by {
        assert(s[n + 1] == 'b' && s[n + 2] == 'r' && s[n + 3] == '>');
    }
    assert(s.subrange(n + 1, n + 3) =~= seq!['b', 'r']);
    lemma_break_tag();
    assert(s.subrange(0, n) =~= a);
    lemma_next_char(s, '<', n + 4);
    assert(next_char(s, '<', n + 4) == s.len()) by {
        let x = next_char(s, '<', n + 4);
        if x < s.len() {
            assert(s[x] == b[x - n - 4]);
        }
    }
    assert(s.subrange(n + 4, s.len() as int) =~= b);
    assert(untagged_from(s, n + 4) == b);
}

proof fn lemma_two_lines(a: Seq<char>, b: Seq<char>)
    requires
        is_plain_word(a),
        is_plain_word(b),
    ensures
        tidy(trimmed_lines(a + seq!['\n'] + b)) == seq![a, b],
{
    let t = a + seq!['\n'] + b;
    let parts = seq![a, b];
    assert forall|k: int| 0 <= k < parts.len() implies !(#[trigger] parts[k]).contains('\n') by {
        if k == 0 {
            if a.contains('\n') {
                let i = choose|i: int| 0 <= i < a.len() && a[i] == '\n';
                assert(!is_white_space(a[i]));
            }
        } else {
            if b.contains('\n') {
                let i = choose|i: int| 0 <= i < b.len() && b[i] == '\n';
                assert(!is_white_space(b[i]));
            }
        }
    }
    assert(parts.drop_last() =~= seq![a]);
    reveal_with_fuel(joined, 2);
    assert(joined(parts, seq!['\n']) =~= t);
    joined_texts_are_split_again(parts, '\n');
    let none = Seq::<char>::empty();
    assert(!is_white_space(a[0]) && !is_white_space(a[a.len() - 1]));
    assert(!is_white_space(b[0]) && !is_white_space(b[b.len() - 1]));
    trimming_takes_the_ends(none, a, none);
    trimming_takes_the_ends(none, b, none);
    assert(none + a + none =~= a);
    assert(none + b + none =~= b);
    let lines = trimmed_lines(t);
    assert(lines =~= parts);
    reveal_with_fuel(tidy, 3);
    assert(lines.drop_last() =~= seq![a]);
    assert(seq![a].drop_last() =~= Seq::<Seq<char>>::empty());
    assert(tidy(seq![a]) =~= seq![a]);
    assert(tidy(lines) =~= seq![a].push(b));
    assert(seq![a].push(b) =~= parts);
}

/// The plain text of an HTML signature has its words, and a line for each break:
/// two words with a break between them are two lines.
pub proof fn breaks_become_lines(a: Seq<char>, b: Seq<char>)
    requires
        is_plain_word(a),
        is_plain_word(b),
        !b.contains('>'),
        a != "--"@,
        b != "--"@,
    ensures
        signature_text(a + seq!['<', 'b', 'r', '>'] + b) == a + seq!['\n'] + b,
{
    let s = a + seq!['<', 'b', 'r', '>'] + b;
    let t = a + seq!['\n'] + b;
    let n = a.len() as int;
    assert forall|k: int| 0 <= k < s.len() implies !is_white_space(#[trigger] s[k]) by {
        if k < n {
            assert(s[k] == a[k]);
        } else if k >= n + 4 {
            assert(s[k] == b[k - n - 4]);
        }
    }
    unbroken_texts_are_one_word(s);
    assert(joined(words(s), " "@) == s);
    lemma_untagged_break(a, b);
    assert(!t.contains('&')) by {
        if t.contains('&') {
            let k = choose|k: int| 0 <= k < t.len() && t[k] == '&';
            if k < n {
                assert(t[k] == a[k]);
            } else if k > n {
                assert(t[k] == b[k - n - 1]);
            }
        }
    }
    lemma_no_entities(t);
    lemma_two_lines(a, b);
    let lines = signature_lines(s);
    assert(lines == seq![a, b]);
    let shown = lines.map_values(|l: Seq<char>| signature_line(l));
    assert(shown =~= seq![a, b]);
    reveal_strlit("\n");
    assert("\n"@ =~= seq!['\n']);
    reveal_with_fuel(joined, 2);
    assert(shown.drop_last() =~= seq![a]);
    assert(joined(shown, "\n"@) =~= t);
}

/// The plain-text signature is the one that the settings give; where they give
/// none, it is made of the HTML signature.
pub proof fn given_signatures_win(html: Option<Seq<char>>, text: Option<Seq<char>>)
    ensures
        text matches Some(t) ==> resolved_text(html, text) == t,
        text is None ==> (html matches Some(h) ==> resolved_text(html, text) == signature_text(h)),
{
}

/// The plain-text signature that settings give: the explicit one, or the one
/// derived from the HTML signature.
pub open spec fn resolved_text(html: Option<Seq<char>>, text: Option<Seq<char>>) -> Seq<char> {
    match text {
        Some(t) => t,
        None => signature_text(
            match html {
                Some(h) => h,
                None => Seq::empty(),
            },
        ),
    }
}

impl Signatures {
    /// The signatures that the settings give: an explicit text wins, otherwise
    /// one is derived from the HTML.
    pub fn resolve(signature_html: Option<&str>, signature_text: Option<&str>) -> (s: Signatures)
        ensures
            s.html@ == match opt_str(signature_html) {
                Some(h) => h,
                None => Seq::empty(),
            },
            s.text@ == resolved_text(opt_str(signature_html), opt_str(signature_text)),
    {
        let html = match signature_html {
            Some(h) => copy_of(h),
            None => String::new(),
        };
        let text = match signature_text {
            Some(t) => copy_of(t),
            None => signature_text_from_html(html.as_str()),
        };
        Signatures { html, text }
    }

    /// A body with the text signature on a line of its own, where there is one.
    pub open spec fn signed(self, body: Seq<char>) -> Seq<char> {
        if self.text@.len() == 0 {
            body
        } else {
            body + "\n"@ + self.text@
        }
    }

    /// Computes [`Signatures::signed`].
    pub fn apply_plain(&self, body: &str) -> (out: String)
        ensures
            out@ == self.signed(body@),
    {
        let mut out = copy_of(body);
        if !self.text.as_str().is_empty() {
            out.append("\n");
            out.append(self.text.as_str());
        }
        out
    }
}

} // verus!
