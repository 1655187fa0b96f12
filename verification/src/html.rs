//! Reading HTML as text: dropping tags and decoding character references.

use vstd::prelude::*;

use crate::text::append_range;
use crate::text::byte_len;
use crate::text::chars_of;
use crate::text::is_white_space;
use crate::text::lemma_byte_len_bounds;
use crate::text::lemma_byte_len_push;
use crate::text::parse_number;
use crate::text::parsed_number;
use crate::text::same_text;
use crate::text::string_of_range;
use crate::text::trim;
use crate::text::trim_end;
use crate::text::trim_start;
use crate::text::trimmed;
use crate::text::white_space_char;
use crate::text::width_of;

verus! {

/// Whether a number is a Unicode scalar value.
pub open spec fn is_scalar_value(n: int) -> bool {
    0 <= n <= 0xd7ff || 0xe000 <= n <= 0x10ffff
}

/// `char::from_u32` gives the character with the given code, and nothing for a
/// number that is no Unicode scalar value.
pub assume_specification[ char::from_u32 ](n: u32) -> (c: Option<char>)
    ensures
        match c {
            Some(ch) => is_scalar_value(n as int) && ch as u32 == n,
            None => !is_scalar_value(n as int),
        },
;

// ---------------------------------------------------------------------------
// Character references
// ---------------------------------------------------------------------------

/// The longest name of a character reference, in bytes.
pub const MAX_ENTITY_BYTES: usize = 10;

/// Where the name that starts at `start` stops: at the first `;`, at the first
/// character that makes it longer than [`MAX_ENTITY_BYTES`], or at the end.
pub open spec fn entity_stop(s: Seq<char>, start: int, k: int) -> int
    decreases s.len() - k,
{
    if k < start || k >= s.len() || s[k] == ';' || byte_len(s.subrange(start, k + 1))
        > MAX_ENTITY_BYTES {
        k
    } else {
        entity_stop(s, start, k + 1)
    }
}

/// The number in a numeric character reference, given its text after `#`.
pub open spec fn reference_number(digits: Seq<char>) -> Option<nat> {
    if digits.len() > 0 && digits[0] == 'x' {
        parsed_number(digits.drop_first(), 16, 0xffff_ffff)
    } else {
        parsed_number(digits, 10, 0xffff_ffff)
    }
}

/// What a reference stands for; one that is not known stands for itself.
pub open spec fn reference_text(name: Seq<char>) -> Seq<char> {
    if name == "amp"@ {
        seq!['&']
    } else if name == "lt"@ {
        seq!['<']
    } else if name == "gt"@ {
        seq!['>']
    } else if name == "quot"@ {
        seq!['"']
    } else if name == "apos"@ {
        seq!['\'']
    } else if name == "nbsp"@ {
        seq![' ']
    } else if name.len() == 0 {
        Seq::empty()
    } else if name[0] == '#' && reference_number(name.drop_first()) is Some && is_scalar_value(
        reference_number(name.drop_first())->0 as int,
    ) {
        seq![reference_number(name.drop_first())->0 as u32 as char]
    } else {
        seq!['&'] + name + seq![';']
    }
}

/// A text with its character references decoded, from position `i` on. A run
/// that is too long for a reference, or that the text ends in, stays as it is.
pub open spec fn decoded_from(s: Seq<char>, i: int) -> Seq<char>
    decreases s.len() - i,
    via decoded_from_decreases
{
    if i < 0 || i >= s.len() {
        Seq::empty()
    } else if s[i] != '&' {
        seq![s[i]] + decoded_from(s, i + 1)
    } else {
        let stop = entity_stop(s, i + 1, i + 1);
        if stop >= s.len() {
            s.subrange(i, s.len() as int)
        } else if s[stop] == ';' {
            reference_text(s.subrange(i + 1, stop)) + decoded_from(s, stop + 1)
        } else {
            s.subrange(i, stop + 1) + decoded_from(s, stop + 1)
        }
    }
}

#[via_fn]
proof fn decoded_from_decreases(s: Seq<char>, i: int) {
    if 0 <= i < s.len() {
        lemma_entity_stop(s, i + 1, i + 1);
    }
}

proof fn lemma_entity_stop(s: Seq<char>, start: int, k: int)
    requires
        0 <= start <= k <= s.len(),
    ensures
        k <= entity_stop(s, start, k) <= s.len(),
    decreases s.len() - k,
{
    if k < s.len() && s[k] != ';' && byte_len(s.subrange(start, k + 1)) <= MAX_ENTITY_BYTES {
        lemma_entity_stop(s, start, k + 1);
    }
}

/// A text with its character references decoded.
pub open spec fn decoded(s: Seq<char>) -> Seq<char> {
    decoded_from(s, 0)
}

/// Computes [`entity_stop`].
fn find_entity_stop(cs: &[char], start: usize) -> (stop: usize)
    requires
        start <= cs@.len(),
    ensures
        stop == entity_stop(cs@, start as int, start as int),
        start <= stop <= cs@.len(),
{
    let n: usize = cs.len();
    let mut k: usize = start;
    let mut used: usize = 0;
    proof {
        lemma_byte_len_bounds(cs@.subrange(start as int, start as int));
    }
    while k < n && cs[k] != ';'
        invariant
            n == cs@.len(),
            start <= k <= n,
            used == byte_len(cs@.subrange(start as int, k as int)),
            used <= MAX_ENTITY_BYTES,
            entity_stop(cs@, start as int, start as int) == entity_stop(
                cs@,
                start as int,
                k as int,
            ),
        decreases n - k,
    {
        proof {
            lemma_byte_len_push(cs@.subrange(start as int, k as int), cs@[k as int]);
            assert(cs@.subrange(start as int, k + 1) =~= cs@.subrange(start as int, k as int).push(
                cs@[k as int],
            ));
        }
        let w: usize = width_of(cs[k]);
        if used + w > MAX_ENTITY_BYTES {
            return k;
        }
        used += w;
        k += 1;
    }
    k
}

/// Appends what the reference with the given name stands for.
fn push_reference(out: &mut String, cs: &[char], from: usize, to: usize)
    requires
        from <= to <= cs@.len(),
    ensures
        final(out)@ == old(out)@ + reference_text(cs@.subrange(from as int, to as int)),
{
    let ghost start = out@;
    let ghost name_text = cs@.subrange(from as int, to as int);
    let name = string_of_range(cs, from, to);
    let name_str = name.as_str();
    let mut single: Option<char> = None;
    if same_text(name_str, "amp") {
        single = Some('&');
    } else if same_text(name_str, "lt") {
        single = Some('<');
    } else if same_text(name_str, "gt") {
        single = Some('>');
    } else if same_text(name_str, "quot") {
        single = Some('"');
    } else if same_text(name_str, "apos") {
        single = Some('\'');
    } else if same_text(name_str, "nbsp") {
        single = Some(' ');
    } else if from == to {
        proof {
            assert(start + Seq::<char>::empty() =~= start);
        }
        return ;
    } else if cs[from] == '#' {
        let code: Option<u64> = if from + 1 < to && cs[from + 1] == 'x' {
            proof {
                assert(name_text.drop_first().drop_first() =~= cs@.subrange(from + 2, to as int));
            }
            parse_number(cs, from + 2, to, 16, 0xffff_ffff)
        } else {
            proof {
                assert(name_text.drop_first() =~= cs@.subrange(from + 1, to as int));
            }
            parse_number(cs, from + 1, to, 10, 0xffff_ffff)
        };
        assert(match code {
            Some(v) => reference_number(name_text.drop_first()) == Some(v as nat),
            None => reference_number(name_text.drop_first()) is None,
        });
        if let Some(v) = code {
            single = char::from_u32(v as u32);
            if let Some(c) = single {
                proof {
                    vstd::utf8::char_u32_cast(c, v as u32);
                }
            }
        }
    }
    match single {
        Some(c) => {
            proof {
                assert(start + seq![c] =~= start.push(c));
            }
            out.push(c);
        },
        None => {
            out.push('&');
            append_range(out, cs, from, to);
            out.push(';');
            proof {
                assert(out@ =~= start + (seq!['&'] + name_text + seq![';']));
            }
        },
    }
}

/// Decodes the common character references.
pub fn decode_html_entities(s: &str) -> (out: String)
    ensures
        out@ == decoded(s@),
{
    let cs = chars_of(s);
    let n: usize = cs.len();
    let mut out = String::new();
    let mut i: usize = 0;
    proof {
        assert(Seq::<char>::empty() + decoded(s@) =~= decoded(s@));
    }
    while i < n
        invariant
            cs@ == s@,
            n == cs@.len(),
            i <= n,
            out@ + decoded_from(s@, i as int) == decoded(s@),
        decreases n - i,
    {
        let ghost before = out@;
        if cs[i] != '&' {
            proof {
                assert(before + (seq![s@[i as int]] + decoded_from(s@, i + 1)) =~= before.push(
                    s@[i as int],
                ) + decoded_from(s@, i + 1));
            }
            out.push(cs[i]);
            i += 1;
        } else {
            let stop = find_entity_stop(&cs, i + 1);
            if stop >= n {
                append_range(&mut out, &cs, i, n);
                proof {
                    assert(out@ + Seq::<char>::empty() =~= out@);
                }
                i = n;
            } else if cs[stop] == ';' {
                let ghost tail = decoded_from(s@, stop + 1);
                push_reference(&mut out, &cs, i + 1, stop);
                proof {
                    let r = reference_text(s@.subrange(i + 1, stop as int));
                    assert(before + (r + tail) =~= before + r + tail);
                }
                i = stop + 1;
            } else {
                let ghost tail = decoded_from(s@, stop + 1);
                append_range(&mut out, &cs, i, stop + 1);
                proof {
                    let r = s@.subrange(i as int, stop + 1);
                    assert(before + (r + tail) =~= before + r + tail);
                }
                i = stop + 1;
            }
        }
    }
    proof {
        assert(out@ + Seq::<char>::empty() =~= out@);
    }
    out
}

proof fn lemma_plain_text_stays(s: Seq<char>, i: int)
    requires
        0 <= i <= s.len(),
        !s.contains('&'),
    ensures
        decoded_from(s, i) == s.skip(i),
    decreases s.len() - i,
{
    if i < s.len() {
        assert(s[i] != '&');
        lemma_plain_text_stays(s, i + 1);
        assert(s.skip(i) =~= seq![s[i]] + s.skip(i + 1));
    } else {
        assert(s.skip(i) =~= Seq::<char>::empty());
    }
}

/// Decoding leaves a text without ampersands as it is.
pub proof fn plain_text_decodes_to_itself(s: Seq<char>)
    requires
        !s.contains('&'),
    ensures
        decoded(s) == s,
{
    lemma_plain_text_stays(s, 0);
    assert(s.skip(0) =~= s);
}

// ---------------------------------------------------------------------------
// Tags
// ---------------------------------------------------------------------------

/// The text outside the tags from position `i` on. Each run of tags and white
/// space gives one space; `spaced` says that one has just been given.
pub open spec fn untagged_from(s: Seq<char>, i: int, in_tag: bool, spaced: bool) -> Seq<char>
    decreases s.len() - i,
{
    if i < 0 || i >= s.len() {
        Seq::empty()
    } else if s[i] == '<' {
        untagged_from(s, i + 1, true, spaced)
    } else if s[i] == '>' || (!in_tag && is_white_space(s[i])) {
        let tail = untagged_from(s, i + 1, if s[i] == '>' { false } else { in_tag }, true);
        if spaced {
            tail
        } else {
            seq![' '] + tail
        }
    } else if in_tag {
        untagged_from(s, i + 1, true, spaced)
    } else {
        seq![s[i]] + untagged_from(s, i + 1, false, false)
    }
}

/// An HTML text read as plain text.
pub open spec fn html_as_text(html: Seq<char>) -> Seq<char> {
    decoded(trim(untagged_from(html, 0, false, false)))
}

/// Strips HTML tags, collapses white space and decodes the common character
/// references.
pub fn strip_html(html: &str) -> (out: String)
    ensures
        out@ == html_as_text(html@),
{
    let cs = chars_of(html);
    let n: usize = cs.len();
    let mut result = String::new();
    let mut in_tag: bool = false;
    let mut spaced: bool = false;
    let mut i: usize = 0;
    proof {
        assert(Seq::<char>::empty() + untagged_from(html@, 0, false, false) =~= untagged_from(
            html@,
            0,
            false,
            false,
        ));
    }
    while i < n
        invariant
            cs@ == html@,
            n == cs@.len(),
            i <= n,
            result@ + untagged_from(html@, i as int, in_tag, spaced) == untagged_from(
                html@,
                0,
                false,
                false,
            ),
        decreases n - i,
    {
        let c: char = cs[i];
        let ghost before = result@;
        let ghost tail_plain = untagged_from(html@, i + 1, false, false);
        let ghost tail_open = untagged_from(html@, i + 1, false, true);
        proof {
            assert(before + (seq![c] + tail_plain) =~= before.push(c) + tail_plain);
            assert(before + (seq![' '] + tail_open) =~= before.push(' ') + tail_open);
        }
        if c == '<' {
            in_tag = true;
        } else if c == '>' {
            in_tag = false;
            if !spaced {
                result.push(' ');
                spaced = true;
            }
        } else if !in_tag {
            if white_space_char(c) {
                if !spaced {
                    result.push(' ');
                    spaced = true;
                }
            } else {
                result.push(c);
                spaced = false;
            }
        }
        i += 1;
    }
    proof {
        assert(result@ + Seq::<char>::empty() =~= result@);
    }
    let core = trimmed(result.as_str());
    decode_html_entities(core.as_str())
}

// ---------------------------------------------------------------------------
// Laws
// ---------------------------------------------------------------------------

/// A text with no angle bracket, in which all white space is single spaces.
pub open spec fn is_collapsed(t: Seq<char>) -> bool {
    &&& forall|k: int|
        0 <= k < t.len() ==> (#[trigger] t[k]) != '<' && t[k] != '>' && (is_white_space(t[k])
            ==> t[k] == ' ')
    &&& forall|k: int, l: int|
        0 <= k && l == k + 1 && l < t.len() && (#[trigger] t[k]) == ' ' ==> (#[trigger] t[l])
            != ' '
}

/// A collapsed text with no space at either end.
pub open spec fn is_stripped(t: Seq<char>) -> bool {
    &&& is_collapsed(t)
    &&& t.len() > 0 ==> t[0] != ' ' && t.last() != ' '
}

/// The characters of a text outside its tags from position `i` on, without white
/// space.
pub open spec fn visible_from(s: Seq<char>, i: int, in_tag: bool) -> Seq<char>
    decreases s.len() - i,
{
    if i < 0 || i >= s.len() {
        Seq::empty()
    } else if s[i] == '<' {
        visible_from(s, i + 1, true)
    } else if s[i] == '>' {
        visible_from(s, i + 1, false)
    } else if in_tag || is_white_space(s[i]) {
        visible_from(s, i + 1, in_tag)
    } else {
        seq![s[i]] + visible_from(s, i + 1, false)
    }
}

/// A text without its spaces.
pub open spec fn without_spaces(t: Seq<char>) -> Seq<char> {
    t.filter(|c: char| c != ' ')
}

proof fn lemma_spaces_in_front(c: char, t: Seq<char>)
    ensures
        without_spaces(seq![c] + t) == if c == ' ' {
            without_spaces(t)
        } else {
            seq![c] + without_spaces(t)
        },
{
    let keep = |c: char| c != ' ';
    Seq::filter_distributes_over_add(seq![c], t, keep);
    reveal_with_fuel(Seq::filter, 2);
    assert(seq![c].drop_last() =~= Seq::<char>::empty());
    assert(Seq::<char>::empty().push(c) =~= seq![c]);
    assert(Seq::<char>::empty() + without_spaces(t) =~= without_spaces(t));
}

proof fn lemma_collapsed_in_front(c: char, t: Seq<char>)
    requires
        is_collapsed(t),
        c != '<' && c != '>',
        is_white_space(c) ==> c == ' ',
        c == ' ' && t.len() > 0 ==> t[0] != ' ',
    ensures
        is_collapsed(seq![c] + t),
{
    let whole = seq![c] + t;
    assert forall|k: int| 0 <= k < whole.len() implies (#[trigger] whole[k]) != '<' && whole[k]
        != '>' && (is_white_space(whole[k]) ==> whole[k] == ' ') by {
        if k > 0 {
            assert(whole[k] == t[k - 1]);
        }
    }
    assert forall|k: int, l: int|
        0 <= k && l == k + 1 && l < whole.len() && (#[trigger] whole[k]) == ' ' implies (
    #[trigger] whole[l]) != ' ' by {
        assert(whole[l] == t[l - 1]);
        if k > 0 {
            assert(whole[k] == t[k - 1]);
        }
    }
}

proof fn lemma_untagged(s: Seq<char>, i: int, in_tag: bool, spaced: bool)
    requires
        0 <= i <= s.len(),
    ensures
        ({
            let t = untagged_from(s, i, in_tag, spaced);
            &&& is_collapsed(t)
            &&& spaced && t.len() > 0 ==> t[0] != ' '
            &&& without_spaces(t) == visible_from(s, i, in_tag)
            &&& !s.contains('&') ==> !t.contains('&')
        }),
    decreases s.len() - i,
{
    let t = untagged_from(s, i, in_tag, spaced);
    if i >= s.len() {
        reveal_with_fuel(Seq::filter, 1);
        assert(without_spaces(t) =~= Seq::<char>::empty());
    } else {
        let c = s[i];
        if c == '<' {
            lemma_untagged(s, i + 1, true, spaced);
        } else if c == '>' || (!in_tag && is_white_space(c)) {
            let inside = if c == '>' {
                false
            } else {
                in_tag
            };
            lemma_untagged(s, i + 1, inside, true);
            let tail = untagged_from(s, i + 1, inside, true);
            lemma_spaces_in_front(' ', tail);
            lemma_collapsed_in_front(' ', tail);
            if !spaced && !s.contains('&') && t.contains('&') {
                let k = choose|k: int| 0 <= k < t.len() && t[k] == '&';
                assert(tail[k - 1] == '&');
            }
        } else if in_tag {
            lemma_untagged(s, i + 1, true, spaced);
        } else {
            lemma_untagged(s, i + 1, false, false);
            let tail = untagged_from(s, i + 1, false, false);
            lemma_spaces_in_front(c, tail);
            lemma_collapsed_in_front(c, tail);
            if !s.contains('&') && t.contains('&') {
                let k = choose|k: int| 0 <= k < t.len() && t[k] == '&';
                assert(s[i] == c);
                if k > 0 {
                    assert(tail[k - 1] == '&');
                }
            }
        }
    }
}

proof fn lemma_trim_start_keeps(t: Seq<char>)
    requires
        is_collapsed(t),
    ensures
        is_collapsed(trim_start(t)),
        trim_start(t).len() > 0 ==> !is_white_space(trim_start(t)[0]),
        without_spaces(trim_start(t)) == without_spaces(t),
        !t.contains('&') ==> !trim_start(t).contains('&'),
    decreases t.len(),
{
    if t.len() > 0 && is_white_space(t[0]) {
        let rest = t.drop_first();
        assert(t =~= seq![t[0]] + rest);
        lemma_spaces_in_front(t[0], rest);
        assert(is_collapsed(rest)) by {
            assert forall|k: int| 0 <= k < rest.len() implies (#[trigger] rest[k]) != '<'
                && rest[k] != '>' && (is_white_space(rest[k]) ==> rest[k] == ' ') by {
                assert(rest[k] == t[k + 1]);
            }
            assert forall|k: int, l: int|
                0 <= k && l == k + 1 && l < rest.len() && (#[trigger] rest[k]) == ' ' implies (
            #[trigger] rest[l]) != ' ' by {
                assert(rest[k] == t[k + 1] && rest[l] == t[l + 1]);
            }
        }
        if rest.contains('&') {
            let k = choose|k: int| 0 <= k < rest.len() && rest[k] == '&';
            assert(t[k + 1] == '&');
        }
        lemma_trim_start_keeps(rest);
    }
}

proof fn lemma_trim_end_keeps(t: Seq<char>)
    requires
        is_collapsed(t),
        t.len() > 0 ==> !is_white_space(t[0]),
    ensures
        is_stripped(trim_end(t)),
        without_spaces(trim_end(t)) == without_spaces(t),
        !t.contains('&') ==> !trim_end(t).contains('&'),
    decreases t.len(),
{
    if t.len() > 0 && is_white_space(t.last()) {
        let rest = t.drop_last();
        reveal_with_fuel(Seq::filter, 1);
        assert(is_collapsed(rest)) by {
            assert forall|k: int| 0 <= k < rest.len() implies (#[trigger] rest[k]) != '<'
                && rest[k] != '>' && (is_white_space(rest[k]) ==> rest[k] == ' ') by {
                assert(rest[k] == t[k]);
            }
            assert forall|k: int, l: int|
                0 <= k && l == k + 1 && l < rest.len() && (#[trigger] rest[k]) == ' ' implies (
            #[trigger] rest[l]) != ' ' by {
                assert(rest[k] == t[k] && rest[l] == t[l]);
            }
        }
        if rest.contains('&') {
            let k = choose|k: int| 0 <= k < rest.len() && rest[k] == '&';
            assert(t[k] == '&');
        }
        lemma_trim_end_keeps(rest);
    }
}

proof fn lemma_stripped_stays(t: Seq<char>, i: int)
    requires
        is_collapsed(t),
        0 <= i <= t.len(),
    ensures
        untagged_from(t, i, false, i > 0 && t[i - 1] == ' ') == t.skip(i),
    decreases t.len() - i,
{
    if i < t.len() {
        lemma_stripped_stays(t, i + 1);
        assert(t.skip(i) =~= seq![t[i]] + t.skip(i + 1));
        if i > 0 {
            assert(t[i - 1] == ' ' ==> t[i] != ' ');
        }
    } else {
        assert(t.skip(i) =~= Seq::<char>::empty());
    }
}

/// Stripping leaves no angle bracket and single spaces alone, none of them at
/// either end; what is visible outside the tags is kept, in order; and stripping
/// twice changes nothing. This is of text without character references, which
/// may stand for brackets and spaces of their own.
pub proof fn stripped_texts_are_stripped(html: Seq<char>)
    requires
        !html.contains('&'),
    ensures
        is_stripped(html_as_text(html)),
        without_spaces(html_as_text(html)) == visible_from(html, 0, false),
        html_as_text(html_as_text(html)) == html_as_text(html),
{
    let u = untagged_from(html, 0, false, false);
    lemma_untagged(html, 0, false, false);
    lemma_trim_start_keeps(u);
    lemma_trim_end_keeps(trim_start(u));
    let r = trim(u);
    plain_text_decodes_to_itself(r);
    assert(html_as_text(html) == r);
    lemma_stripped_stays(r, 0);
    assert(r.skip(0) =~= r);
    assert(trim_start(r) == r);
    assert(trim_end(r) == r);
}

} // verus!
