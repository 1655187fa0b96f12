//! Strings as sequences of characters: the vocabulary that every other module
//! states its contracts in.

use vstd::prelude::*;
use vstd::utf8::encode_scalar;
use vstd::utf8::encode_utf8;

verus! {

/// `String::push` appends one character at the end.
pub assume_specification[ String::push ](s: &mut String, c: char)
    ensures
        final(s)@ == old(s)@.push(c),
;

/// The characters of a string.
pub fn chars_of(s: &str) -> (out: Vec<char>)
    ensures
        out@ == s@,
{
    let mut out: Vec<char> = Vec::new();
    for c in it: s.chars()
        invariant
            out@ == it.seq().take(it.index() as int),
            it.seq() == s@,
    {
        proof {
            assert(it.seq().take(it.index() as int + 1) =~= it.seq().take(it.index() as int).push(c));
        }
        out.push(c);
    }
    proof {
        assert(s@.take(s@.len() as int) =~= s@);
    }
    out
}

/// The string made of the characters at `from..to`.
pub fn string_of_range(cs: &[char], from: usize, to: usize) -> (out: String)
    requires
        from <= to <= cs@.len(),
    ensures
        out@ == cs@.subrange(from as int, to as int),
{
    let mut out = String::new();
    let mut i: usize = from;
    while i < to
        invariant
            from <= i <= to <= cs@.len(),
            out@ == cs@.subrange(from as int, i as int),
        decreases to - i,
    {
        proof {
            assert(cs@.subrange(from as int, i as int + 1) =~= cs@.subrange(from as int, i as int).push(cs@[i as int]));
        }
        out.push(cs[i]);
        i += 1;
    }
    out
}

/// The string made of a run of characters.
pub fn string_of(cs: &[char]) -> (out: String)
    ensures
        out@ == cs@,
{
    let out = string_of_range(cs, 0, cs.len());
    proof {
        assert(cs@.subrange(0, cs@.len() as int) =~= cs@);
    }
    out
}

/// Appends the characters at `from..to` to a string.
pub fn append_range(out: &mut String, cs: &[char], from: usize, to: usize)
    requires
        from <= to <= cs@.len(),
    ensures
        final(out)@ == old(out)@ + cs@.subrange(from as int, to as int),
{
    let ghost start = out@;
    let mut i: usize = from;
    while i < to
        invariant
            from <= i <= to <= cs@.len(),
            out@ == start + cs@.subrange(from as int, i as int),
        decreases to - i,
    {
        proof {
            assert(start + cs@.subrange(from as int, i as int + 1) =~= (start + cs@.subrange(
                from as int,
                i as int,
            )).push(cs@[i as int]));
        }
        out.push(cs[i]);
        i += 1;
    }
}

/// A fresh copy of a string slice.
pub fn copy_of(s: &str) -> (out: String)
    ensures
        out@ == s@,
{
    s.to_string()
}

/// The characters of each string in a list.
pub open spec fn texts(v: Seq<String>) -> Seq<Seq<char>> {
    v.map_values(|s: String| s@)
}

/// The characters of a string that may be absent.
pub open spec fn opt_text(o: Option<String>) -> Option<Seq<char>> {
    match o {
        Some(s) => Some(s@),
        None => None,
    }
}

/// The characters of a string slice that may be absent.
pub open spec fn opt_str(o: Option<&str>) -> Option<Seq<char>> {
    match o {
        Some(s) => Some(s@),
        None => None,
    }
}

/// A copy of a string that may be absent.
pub fn copy_opt(o: &Option<String>) -> (out: Option<String>)
    ensures
        opt_text(out) == opt_text(*o),
{
    match o {
        Some(s) => Some(copy_of(s.as_str())),
        None => None,
    }
}

/// A copy of a list of strings.
pub fn copy_list(v: &Vec<String>) -> (out: Vec<String>)
    ensures
        texts(out@) == texts(v@),
{
    let mut out: Vec<String> = Vec::new();
    let mut i: usize = 0;
    while i < v.len()
        invariant
            i <= v@.len(),
            texts(out@) == texts(v@).take(i as int),
        decreases v@.len() - i,
    {
        let item = copy_of(v[i].as_str());
        proof {
            assert(texts(out@.push(item)) =~= texts(out@).push(item@));
            assert(texts(v@).take(i as int + 1) =~= texts(v@).take(i as int).push(item@));
        }
        out.push(item);
        i += 1;
    }
    proof {
        assert(texts(v@).take(v@.len() as int) =~= texts(v@));
    }
    out
}

/// A list of texts with a separator between neighbours.
pub open spec fn joined(parts: Seq<Seq<char>>, sep: Seq<char>) -> Seq<char>
    decreases parts.len(),
{
    if parts.len() == 0 {
        Seq::empty()
    } else if parts.len() == 1 {
        parts[0]
    } else {
        joined(parts.drop_last(), sep) + sep + parts.last()
    }
}

/// Computes [`joined`].
pub fn join(parts: &Vec<String>, sep: &str) -> (out: String)
    ensures
        out@ == joined(texts(parts@), sep@),
{
    let mut out = String::new();
    let mut i: usize = 0;
    let ghost all = texts(parts@);
    while i < parts.len()
        invariant
            i <= parts@.len(),
            all == texts(parts@),
            out@ == joined(all.take(i as int), sep@),
        decreases parts@.len() - i,
    {
        proof {
            assert(all.take(i as int + 1).drop_last() =~= all.take(i as int));
            assert(all[i as int] == parts@[i as int]@);
            assert(Seq::<char>::empty() + all[0] =~= all[0]);
        }
        if i > 0 {
            out.append(sep);
        }
        out.append(parts[i].as_str());
        i += 1;
    }
    proof {
        assert(all.take(all.len() as int) =~= all);
    }
    out
}

/// Whether two strings hold the same characters.
pub fn same_text(a: &str, b: &str) -> (same: bool)
    ensures
        same == (a@ == b@),
{
    let ac = chars_of(a);
    let bc = chars_of(b);
    same_chars(&ac, &bc)
}

/// Whether two runs of characters are the same.
pub fn same_chars(a: &[char], b: &[char]) -> (same: bool)
    ensures
        same == (a@ == b@),
{
    if a.len() != b.len() {
        return false;
    }
    let mut i: usize = 0;
    while i < a.len()
        invariant
            a@.len() == b@.len(),
            i <= a@.len(),
            forall|j: int| 0 <= j < i ==> a@[j] == b@[j],
        decreases a@.len() - i,
    {
        if a[i] != b[i] {
            return false;
        }
        i += 1;
    }
    proof {
        assert(a@ =~= b@);
    }
    true
}

// ---------------------------------------------------------------------------
// Character classes
// ---------------------------------------------------------------------------

/// The Unicode control characters (general category Cc).
pub open spec fn is_control(c: char) -> bool {
    c as u32 <= 0x1f || 0x7f <= c as u32 <= 0x9f
}

/// Decides [`is_control`].
pub fn control_char(c: char) -> (yes: bool)
    ensures
        yes == is_control(c),
{
    let n: u32 = c as u32;
    n <= 0x1f || (0x7f <= n && n <= 0x9f)
}

/// The characters with the Unicode property White_Space.
pub open spec fn is_white_space(c: char) -> bool {
    let n = c as u32;
    0x9 <= n <= 0xd || n == 0x20 || n == 0x85 || n == 0xa0 || n == 0x1680 || 0x2000 <= n <= 0x200a
        || n == 0x2028 || n == 0x2029 || n == 0x202f || n == 0x205f || n == 0x3000
}

/// Decides [`is_white_space`].
pub fn white_space_char(c: char) -> (yes: bool)
    ensures
        yes == is_white_space(c),
{
    let n: u32 = c as u32;
    (0x9 <= n && n <= 0xd) || n == 0x20 || n == 0x85 || n == 0xa0 || n == 0x1680 || (0x2000 <= n
        && n <= 0x200a) || n == 0x2028 || n == 0x2029 || n == 0x202f || n == 0x205f || n == 0x3000
}

/// The letters and digits of ASCII.
pub open spec fn is_ascii_alnum(c: char) -> bool {
    '0' <= c <= '9' || 'a' <= c <= 'z' || 'A' <= c <= 'Z'
}

/// Decides [`is_ascii_alnum`].
pub fn ascii_alnum_char(c: char) -> (yes: bool)
    ensures
        yes == is_ascii_alnum(c),
{
    ('0' <= c && c <= '9') || ('a' <= c && c <= 'z') || ('A' <= c && c <= 'Z')
}

// ---------------------------------------------------------------------------
// Letter case
// ---------------------------------------------------------------------------

/// A character with an ASCII capital letter made small.
pub open spec fn ascii_lower(c: char) -> char {
    if 'A' <= c <= 'Z' {
        (c as u32 + 32) as char
    } else {
        c
    }
}

/// Computes [`ascii_lower`].
pub fn ascii_lower_char(c: char) -> (out: char)
    ensures
        out == ascii_lower(c),
{
    if 'A' <= c && c <= 'Z' {
        (c as u8 + 32u8) as char
    } else {
        c
    }
}

/// A text with every ASCII capital letter made small.
pub open spec fn ascii_lower_text(s: Seq<char>) -> Seq<char> {
    s.map_values(|c: char| ascii_lower(c))
}

/// The text that `str::to_lowercase` gives for a text.
pub uninterp spec fn unicode_lowercase(s: Seq<char>) -> Seq<char>;

/// `str::to_lowercase`: the Unicode lowercase of a string, which depends on
/// its characters alone. On ASCII text it maps `A`..`Z` to `a`..`z` and nothing
/// else. In any text it maps each character by itself, but for a sigma at the
/// end of a word, and letters make a word in either case: capitals of ASCII that
/// are lowered beforehand change nothing.
#[verifier::external_body]
fn std_lowercase(s: &str) -> (out: String)
    ensures
        out@ == unicode_lowercase(s@),
        out@ == unicode_lowercase(ascii_lower_text(s@)),
        vstd::utf8::is_ascii_chars(s@) ==> out@ == ascii_lower_text(s@),
{
    s.to_lowercase()
}

/// The lowercase of a text, which does not tell the capitals of ASCII from their
/// small letters; that of an ASCII text has its capitals alone replaced.
pub open spec fn lowercase(s: Seq<char>) -> Seq<char> {
    if vstd::utf8::is_ascii_chars(s) {
        ascii_lower_text(s)
    } else {
        unicode_lowercase(ascii_lower_text(s))
    }
}

/// Texts that differ in the case of ASCII letters alone have one lowercase.
pub proof fn lowercase_ignores_case(a: Seq<char>, b: Seq<char>)
    requires
        ascii_lower_text(a) == ascii_lower_text(b),
    ensures
        lowercase(a) == lowercase(b),
{
    if vstd::utf8::is_ascii_chars(a) {
        lemma_ascii_in_either_case(a, b);
    }
    if vstd::utf8::is_ascii_chars(b) {
        lemma_ascii_in_either_case(b, a);
    }
}

proof fn lemma_ascii_in_either_case(a: Seq<char>, b: Seq<char>)
    requires
        ascii_lower_text(a) == ascii_lower_text(b),
        vstd::utf8::is_ascii_chars(a),
    ensures
        vstd::utf8::is_ascii_chars(b),
{
    assert(a.len() == ascii_lower_text(a).len() && b.len() == ascii_lower_text(b).len());
    assert forall|i: int| 0 <= i < b.len() implies '\0' <= #[trigger] b[i] <= '\u{7f}' by {
        assert(ascii_lower_text(a)[i] == ascii_lower(a[i]));
        assert(ascii_lower_text(b)[i] == ascii_lower(b[i]));
        assert(a[i] <= '\u{7f}');
    }
}

/// Computes [`lowercase`].
pub(crate) fn lowercase_of(s: &str) -> (out: String)
    ensures
        out@ == lowercase(s@),
{
    std_lowercase(s)
}

/// Whether two texts differ at most in the case of ASCII letters.
pub open spec fn eq_ignore_case(a: Seq<char>, b: Seq<char>) -> bool {
    ascii_lower_text(a) == ascii_lower_text(b)
}

/// `str::eq_ignore_ascii_case`, character by character.
pub fn same_ignoring_case(a: &str, b: &str) -> (same: bool)
    ensures
        same == eq_ignore_case(a@, b@),
{
    let ac = chars_of(a);
    let bc = chars_of(b);
    if ac.len() != bc.len() {
        proof {
            assert(ascii_lower_text(a@).len() != ascii_lower_text(b@).len());
        }
        return false;
    }
    let mut i: usize = 0;
    while i < ac.len()
        invariant
            ac@ == a@,
            bc@ == b@,
            ac@.len() == bc@.len(),
            i <= ac@.len(),
            forall|j: int| 0 <= j < i ==> ascii_lower(ac@[j]) == ascii_lower(bc@[j]),
        decreases ac@.len() - i,
    {
        if ascii_lower_char(ac[i]) != ascii_lower_char(bc[i]) {
            proof {
                assert(ascii_lower_text(a@)[i as int] != ascii_lower_text(b@)[i as int]);
            }
            return false;
        }
        i += 1;
    }
    proof {
        assert(ascii_lower_text(a@) =~= ascii_lower_text(b@));
    }
    true
}

/// The text with ASCII capitals made small.
pub fn ascii_lower_string(s: &str) -> (out: String)
    ensures
        out@ == ascii_lower_text(s@),
{
    let cs = chars_of(s);
    let mut out = String::new();
    let mut i: usize = 0;
    while i < cs.len()
        invariant
            cs@ == s@,
            i <= cs@.len(),
            out@ == ascii_lower_text(s@.take(i as int)),
        decreases cs@.len() - i,
    {
        proof {
            assert(ascii_lower_text(s@.take(i as int + 1)) =~= ascii_lower_text(
                s@.take(i as int),
            ).push(ascii_lower(s@[i as int])));
        }
        out.push(ascii_lower_char(cs[i]));
        i += 1;
    }
    proof {
        assert(s@.take(s@.len() as int) =~= s@);
    }
    out
}

// ---------------------------------------------------------------------------
// Finding
// ---------------------------------------------------------------------------

/// `needle` stands in `hay` at position `i`.
pub open spec fn occurs_at(hay: Seq<char>, needle: Seq<char>, i: int) -> bool {
    0 <= i && i + needle.len() <= hay.len() && hay.subrange(i, i + needle.len()) == needle
}

/// `needle` stands somewhere in `hay`.
pub open spec fn contains_text(hay: Seq<char>, needle: Seq<char>) -> bool {
    exists|i: int| occurs_at(hay, needle, i)
}

/// `hay` begins with `needle`.
pub open spec fn begins_with(hay: Seq<char>, needle: Seq<char>) -> bool {
    occurs_at(hay, needle, 0)
}

/// `i` is the first position at or after `from` where `needle` stands.
pub open spec fn is_first_at(hay: Seq<char>, needle: Seq<char>, from: int, i: int) -> bool {
    &&& from <= i
    &&& occurs_at(hay, needle, i)
    &&& forall|j: int| from <= j < i ==> !occurs_at(hay, needle, j)
}

/// Decides [`occurs_at`].
pub fn occurs_here(hay: &[char], needle: &[char], i: usize) -> (yes: bool)
    ensures
        yes == occurs_at(hay@, needle@, i as int),
{
    if i > hay.len() || needle.len() > hay.len() - i {
        return false;
    }
    let end: usize = hay.len();
    let mut k: usize = 0;
    while k < needle.len()
        invariant
            end == hay@.len(),
            i + needle@.len() <= hay@.len(),
            k <= needle@.len(),
            forall|j: int| 0 <= j < k ==> hay@[i + j] == needle@[j],
        decreases needle@.len() - k,
    {
        if hay[i + k] != needle[k] {
            proof {
                assert(hay@.subrange(i as int, i + needle@.len())[k as int] != needle@[k as int]);
            }
            return false;
        }
        k += 1;
    }
    proof {
        assert(hay@.subrange(i as int, i + needle@.len()) =~= needle@);
    }
    true
}

/// The first position at or after `from` where `needle` stands in `hay`.
pub fn find_from(hay: &[char], needle: &[char], from: usize) -> (found: Option<usize>)
    ensures
        match found {
            Some(i) => is_first_at(hay@, needle@, from as int, i as int),
            None => forall|j: int| from <= j ==> !occurs_at(hay@, needle@, j),
        },
{
    let mut i: usize = from;
    while i <= hay.len() && needle.len() <= hay.len() - i
        invariant
            from <= i,
            forall|j: int| from <= j < i ==> !occurs_at(hay@, needle@, j),
        decreases hay@.len() + 1 - i,
    {
        if occurs_here(hay, needle, i) {
            return Some(i);
        }
        if i == hay.len() {
            return None;
        }
        i += 1;
    }
    None
}

/// The first position at or after `i` where `needle` stands in `hay`.
pub open spec fn find_first(hay: Seq<char>, needle: Seq<char>, i: int) -> Option<int>
    decreases hay.len() + 1 - i,
{
    if i < 0 || i > hay.len() {
        None
    } else if occurs_at(hay, needle, i) {
        Some(i)
    } else {
        find_first(hay, needle, i + 1)
    }
}

/// The last position at or before `i` where `needle` stands in `hay`.
pub open spec fn find_last(hay: Seq<char>, needle: Seq<char>, i: int) -> Option<int>
    decreases i + 1,
{
    if i < 0 {
        None
    } else if occurs_at(hay, needle, i) {
        Some(i)
    } else {
        find_last(hay, needle, i - 1)
    }
}

proof fn lemma_find_first(hay: Seq<char>, needle: Seq<char>, from: int, i: int)
    requires
        0 <= from <= i,
        forall|j: int| from <= j < i ==> !occurs_at(hay, needle, j),
    ensures
        i <= hay.len() ==> find_first(hay, needle, from) == find_first(hay, needle, i),
        i > hay.len() ==> find_first(hay, needle, from) is None,
    decreases i - from,
{
    if from < i && from <= hay.len() {
        lemma_find_first(hay, needle, from + 1, i);
    }
}

/// Computes [`find_first`].
pub fn find_first_at(hay: &[char], needle: &[char], from: usize) -> (found: Option<usize>)
    requires
        from <= hay@.len(),
    ensures
        match found {
            Some(i) => find_first(hay@, needle@, from as int) == Some(i as int) && from <= i && i
                + needle@.len() <= hay@.len(),
            None => find_first(hay@, needle@, from as int) is None,
        },
{
    let found = find_from(hay, needle, from);
    proof {
        match found {
            Some(i) => {
                lemma_find_first(hay@, needle@, from as int, i as int);
            },
            None => {
                lemma_find_first(hay@, needle@, from as int, hay@.len() as int + 1);
            },
        }
    }
    found
}

/// Computes [`find_last`] over the whole text.
pub fn find_last_at(hay: &[char], needle: &[char]) -> (found: Option<usize>)
    ensures
        match found {
            Some(i) => find_last(hay@, needle@, hay@.len() as int) == Some(i as int) && i
                + needle@.len() <= hay@.len(),
            None => find_last(hay@, needle@, hay@.len() as int) is None,
        },
{
    let mut i: usize = hay.len();
    loop
        invariant
            i <= hay@.len(),
            find_last(hay@, needle@, hay@.len() as int) == find_last(hay@, needle@, i as int),
        decreases i,
    {
        if occurs_here(hay, needle, i) {
            return Some(i);
        }
        if i == 0 {
            return None;
        }
        i -= 1;
    }
}

/// Decides [`contains_text`].
pub fn text_contains(hay: &str, needle: &str) -> (yes: bool)
    ensures
        yes == contains_text(hay@, needle@),
{
    let h = chars_of(hay);
    let n = chars_of(needle);
    match find_from(&h, &n, 0) {
        Some(i) => true,
        None => false,
    }
}

/// Decides [`begins_with`].
pub fn text_begins_with(hay: &str, needle: &str) -> (yes: bool)
    ensures
        yes == begins_with(hay@, needle@),
{
    let h = chars_of(hay);
    let n = chars_of(needle);
    occurs_here(&h, &n, 0)
}

/// The first position at or after `from` that holds the character `c`, or the
/// length where there is none.
pub open spec fn next_char(s: Seq<char>, c: char, from: int) -> int
    decreases s.len() - from,
{
    if from < 0 || from >= s.len() {
        s.len() as int
    } else if s[from] == c {
        from
    } else {
        next_char(s, c, from + 1)
    }
}

/// Computes [`next_char`].
pub fn next_char_at(s: &[char], c: char, from: usize) -> (at: usize)
    requires
        from <= s@.len(),
    ensures
        at == next_char(s@, c, from as int),
        from <= at <= s@.len(),
        at < s@.len() ==> s@[at as int] == c,
        forall|j: int| from <= j < at ==> s@[j] != c,
{
    let mut i: usize = from;
    while i < s.len() && s[i] != c
        invariant
            from <= i <= s@.len(),
            next_char(s@, c, from as int) == next_char(s@, c, i as int),
            forall|j: int| from <= j < i ==> s@[j] != c,
        decreases s@.len() - i,
    {
        i += 1;
    }
    i
}

// ---------------------------------------------------------------------------
// UTF-8 lengths
// ---------------------------------------------------------------------------

/// The number of bytes of a text in UTF-8.
pub open spec fn byte_len(s: Seq<char>) -> nat {
    encode_utf8(s).len()
}

/// The number of bytes of one character in UTF-8.
pub open spec fn char_width(c: char) -> nat {
    if c as u32 <= 0x7f {
        1
    } else if c as u32 <= 0x7ff {
        2
    } else if c as u32 <= 0xffff {
        3
    } else {
        4
    }
}

/// Computes [`char_width`].
pub fn width_of(c: char) -> (n: usize)
    ensures
        n == char_width(c),
        1 <= n <= 4,
{
    let v: u32 = c as u32;
    if v <= 0x7f {
        1
    } else if v <= 0x7ff {
        2
    } else if v <= 0xffff {
        3
    } else {
        4
    }
}

/// One character in UTF-8 takes [`char_width`] bytes.
pub proof fn lemma_scalar_width(c: char)
    ensures
        encode_scalar(c as u32).len() == char_width(c),
{
    vstd::utf8::char_is_scalar(c);
}

/// The bytes of two texts side by side.
pub proof fn lemma_encode_concat(a: Seq<char>, b: Seq<char>)
    ensures
        encode_utf8(a + b) == encode_utf8(a) + encode_utf8(b),
        byte_len(a + b) == byte_len(a) + byte_len(b),
    decreases a.len(),
{
    if a.len() == 0 {
        assert(a + b =~= b);
        assert(encode_utf8(a) =~= Seq::<u8>::empty());
        assert(encode_utf8(a) + encode_utf8(b) =~= encode_utf8(b));
    } else {
        lemma_encode_concat(a.drop_first(), b);
        assert((a + b).drop_first() =~= a.drop_first() + b);
        assert((a + b)[0] == a[0]);
        assert(encode_scalar(a[0] as u32) + (encode_utf8(a.drop_first()) + encode_utf8(b))
            =~= encode_scalar(a[0] as u32) + encode_utf8(a.drop_first()) + encode_utf8(b));
    }
}

/// Appending one character adds its width.
pub proof fn lemma_byte_len_push(s: Seq<char>, c: char)
    ensures
        byte_len(s.push(c)) == byte_len(s) + char_width(c),
{
    assert(s.push(c) =~= s + seq![c]);
    lemma_encode_concat(s, seq![c]);
    assert(seq![c].drop_first() =~= Seq::<char>::empty());
    reveal_with_fuel(encode_utf8, 2);
    assert(encode_utf8(seq![c]) =~= encode_scalar(c as u32));
    lemma_scalar_width(c);
}

/// A text has at least as many bytes as characters, and at most four times as
/// many.
pub proof fn lemma_byte_len_bounds(s: Seq<char>)
    ensures
        s.len() <= byte_len(s) <= 4 * s.len(),
    decreases s.len(),
{
    if s.len() > 0 {
        lemma_byte_len_bounds(s.drop_last());
        lemma_byte_len_push(s.drop_last(), s.last());
        assert(s.drop_last().push(s.last()) =~= s);
    }
}

/// Computes [`byte_len`].
pub fn byte_len_of(s: &str) -> (n: usize)
    ensures
        n == byte_len(s@),
{
    s.as_bytes().len()
}

// ---------------------------------------------------------------------------
// Numbers
// ---------------------------------------------------------------------------

/// The digit character of a number below ten.
pub open spec fn digit_char(d: int) -> char {
    ('0' as u32 + d) as char
}

/// A number in decimal, without leading zeros.
pub open spec fn decimal(n: nat) -> Seq<char>
    decreases n,
{
    if n < 10 {
        seq![digit_char(n as int)]
    } else {
        decimal(n / 10).push(digit_char((n % 10) as int))
    }
}

fn digit_of(d: u64) -> (c: char)
    requires
        d < 10,
    ensures
        c == digit_char(d as int),
{
    (48u8 + d as u8) as char
}

/// Computes [`decimal`].
pub fn decimal_string(n: u64) -> (out: String)
    ensures
        out@ == decimal(n as nat),
    decreases n,
{
    let mut out = String::new();
    if n >= 10 {
        out = decimal_string(n / 10);
    }
    proof {
        assert(Seq::<char>::empty().push(digit_char(n as int)) =~= seq![digit_char(n as int)]);
    }
    out.push(digit_of(n % 10));
    out
}

/// A number in decimal, padded with zeros to at least `width` places.
pub open spec fn padded(n: nat, width: nat) -> Seq<char> {
    if decimal(n).len() >= width {
        decimal(n)
    } else {
        Seq::new((width - decimal(n).len()) as nat, |i: int| '0') + decimal(n)
    }
}

/// Computes [`padded`].
pub fn padded_string(n: u64, width: usize) -> (out: String)
    ensures
        out@ == padded(n as nat, width as nat),
{
    let digits = decimal_string(n);
    let cs = chars_of(digits.as_str());
    let len: usize = cs.len();
    let mut out = String::new();
    let mut k: usize = len;
    while k < width
        invariant
            len == decimal(n as nat).len(),
            len <= k,
            k <= width || k == len,
            out@ == Seq::new((k - len) as nat, |i: int| '0'),
        decreases width - k,
    {
        proof {
            assert(Seq::new((k + 1 - len) as nat, |i: int| '0') =~= out@.push('0'));
        }
        out.push('0');
        k += 1;
    }
    out.append(digits.as_str());
    proof {
        assert(out@ =~= padded(n as nat, width as nat));
    }
    out
}

/// The value of a digit in a radix of at most sixteen.
pub open spec fn digit_value(c: char, radix: nat) -> Option<nat> {
    let v = if '0' <= c <= '9' {
        (c as u32 - '0' as u32) as nat
    } else if 'a' <= c <= 'f' {
        (c as u32 - 'a' as u32 + 10) as nat
    } else if 'A' <= c <= 'F' {
        (c as u32 - 'A' as u32 + 10) as nat
    } else {
        16
    };
    if v < radix {
        Some(v)
    } else {
        None
    }
}

/// The value of a run of digits; the empty run has the value zero.
pub open spec fn digits_value(s: Seq<char>, radix: nat) -> Option<nat>
    decreases s.len(),
{
    if s.len() == 0 {
        Some(0)
    } else {
        match (digits_value(s.drop_last(), radix), digit_value(s.last(), radix)) {
            (Some(v), Some(d)) => Some(v * radix + d),
            _ => None,
        }
    }
}

/// The number that a text stands for: an optional `+`, then one or more
/// digits, with a value of at most `max`.
pub open spec fn parsed_number(s: Seq<char>, radix: nat, max: nat) -> Option<nat> {
    let body = if s.len() > 0 && s[0] == '+' {
        s.drop_first()
    } else {
        s
    };
    if body.len() == 0 {
        None
    } else {
        match digits_value(body, radix) {
            Some(v) => if v <= max {
                Some(v)
            } else {
                None
            },
            None => None,
        }
    }
}

fn digit_of_char(c: char, radix: u32) -> (v: Option<u32>)
    requires
        2 <= radix <= 16,
    ensures
        match v {
            Some(d) => digit_value(c, radix as nat) == Some(d as nat) && d < radix,
            None => digit_value(c, radix as nat) is None,
        },
{
    let n: u32 = c as u32;
    let v: u32 = if '0' <= c && c <= '9' {
        n - 48
    } else if 'a' <= c && c <= 'f' {
        n - 87
    } else if 'A' <= c && c <= 'F' {
        n - 55
    } else {
        16
    };
    if v < radix {
        Some(v)
    } else {
        None
    }
}

proof fn lemma_digits_prefix(s: Seq<char>, radix: nat, k: int)
    requires
        0 <= k <= s.len(),
        radix >= 1,
    ensures
        digits_value(s.take(k), radix) is None ==> digits_value(s, radix) is None,
        digits_value(s, radix) is Some ==> digits_value(s.take(k), radix)->0 <= digits_value(
            s,
            radix,
        )->0,
    decreases s.len() - k,
{
    if k < s.len() {
        lemma_digits_prefix(s.drop_last(), radix, k);
        assert(s.drop_last().take(k) =~= s.take(k));
        if digits_value(s, radix) is Some {
            let v = digits_value(s.drop_last(), radix)->0;
            assert(v <= v * radix) by (nonlinear_arith)
                requires
                    radix >= 1,
                    v >= 0,
            ;
        }
    } else {
        assert(s.take(k) =~= s);
    }
}

/// Computes [`parsed_number`] of the characters at `from..to`.
pub fn parse_number(cs: &[char], from: usize, to: usize, radix: u32, max: u64) -> (out: Option<u64>)
    requires
        from <= to <= cs@.len(),
        2 <= radix <= 16,
        max <= 0xffff_ffff_ffff,
    ensures
        match out {
            Some(v) => parsed_number(cs@.subrange(from as int, to as int), radix as nat, max as nat)
                == Some(v as nat) && v <= max,
            None => parsed_number(cs@.subrange(from as int, to as int), radix as nat, max as nat)
                is None,
        },
{
    let ghost all = cs@.subrange(from as int, to as int);
    let mut start: usize = from;
    if from < to && cs[from] == '+' {
        start = from + 1;
        proof {
            assert(all.drop_first() =~= cs@.subrange(start as int, to as int));
        }
    }
    let ghost body = cs@.subrange(start as int, to as int);
    assert(body == if all.len() > 0 && all[0] == '+' {
        all.drop_first()
    } else {
        all
    });
    if start == to {
        return None;
    }
    let mut v: u64 = 0;
    let mut i: usize = start;
    proof {
        assert(body.take(0) =~= Seq::<char>::empty());
    }
    while i < to
        invariant
            start <= i <= to <= cs@.len(),
            2 <= radix <= 16,
            max <= 0xffff_ffff_ffff,
            v <= max,
            body == cs@.subrange(start as int, to as int),
            digits_value(body.take(i - start), radix as nat) == Some(v as nat),
            start < to,
            parsed_number(all, radix as nat, max as nat) == match digits_value(
                body,
                radix as nat,
            ) {
                Some(w) => if w <= max {
                    Some(w)
                } else {
                    None
                },
                None => None::<nat>,
            },
            all == cs@.subrange(from as int, to as int),
        decreases to - i,
    {
        proof {
            assert(body.take(i - start + 1).drop_last() =~= body.take(i - start));
            assert(body.take(i - start + 1).last() == cs@[i as int]);
            lemma_digits_prefix(body, radix as nat, i - start + 1);
        }
        match digit_of_char(cs[i], radix) {
            Some(d) => {
                proof {
                    assert(v * radix <= 0xffff_ffff_ffff * 16) by (nonlinear_arith)
                        requires
                            v <= 0xffff_ffff_ffff,
                            radix <= 16,
                    ;
                }
                v = v * radix as u64 + d as u64;
                if v > max {
                    return None;
                }
            },
            None => {
                return None;
            },
        }
        i += 1;
    }
    proof {
        assert(body.take(to - start) =~= body);
    }
    Some(v)
}

// ---------------------------------------------------------------------------
// Trimming and runs
// ---------------------------------------------------------------------------

/// A text without the white space at its beginning.
pub open spec fn trim_start(s: Seq<char>) -> Seq<char>
    decreases s.len(),
{
    if s.len() > 0 && is_white_space(s[0]) {
        trim_start(s.drop_first())
    } else {
        s
    }
}

/// A text without the white space at its end.
pub open spec fn trim_end(s: Seq<char>) -> Seq<char>
    decreases s.len(),
{
    if s.len() > 0 && is_white_space(s.last()) {
        trim_end(s.drop_last())
    } else {
        s
    }
}

/// A text without the white space at either end.
pub open spec fn trim(s: Seq<char>) -> Seq<char> {
    trim_end(trim_start(s))
}

/// The bounds of the trimmed part of the characters at `from..to`.
pub fn trim_bounds(cs: &[char], from: usize, to: usize) -> (b: (usize, usize))
    requires
        from <= to <= cs@.len(),
    ensures
        from <= b.0 <= b.1 <= to,
        cs@.subrange(b.0 as int, b.1 as int) == trim(cs@.subrange(from as int, to as int)),
{
    let a = trim_start_bound(cs, from, to);
    let mut z: usize = to;
    let ghost core = cs@.subrange(a as int, to as int);
    while z > a && white_space_char(cs[z - 1])
        invariant
            from <= a <= z <= to <= cs@.len(),
            trim_end(core) == trim_end(cs@.subrange(a as int, z as int)),
        decreases z,
    {
        proof {
            assert(cs@.subrange(a as int, z as int).drop_last() =~= cs@.subrange(
                a as int,
                z - 1,
            ));
        }
        z -= 1;
    }
    (a, z)
}

/// Where the characters at `from..to` begin once their leading white space is
/// dropped.
pub fn trim_start_bound(cs: &[char], from: usize, to: usize) -> (a: usize)
    requires
        from <= to <= cs@.len(),
    ensures
        from <= a <= to,
        cs@.subrange(a as int, to as int) == trim_start(cs@.subrange(from as int, to as int)),
{
    let mut a: usize = from;
    while a < to && white_space_char(cs[a])
        invariant
            from <= a <= to <= cs@.len(),
            trim_start(cs@.subrange(from as int, to as int)) == trim_start(
                cs@.subrange(a as int, to as int),
            ),
        decreases to - a,
    {
        proof {
            assert(cs@.subrange(a as int, to as int).drop_first() =~= cs@.subrange(
                a + 1,
                to as int,
            ));
        }
        a += 1;
    }
    a
}

/// Computes [`trim`].
pub fn trimmed(s: &str) -> (out: String)
    ensures
        out@ == trim(s@),
{
    let cs = chars_of(s);
    let n: usize = cs.len();
    let (a, z) = trim_bounds(&cs, 0, n);
    proof {
        assert(cs@.subrange(0, n as int) =~= s@);
    }
    string_of_range(&cs, a, z)
}

/// Whether `char::is_alphanumeric` holds of a character.
pub uninterp spec fn alphanumeric(c: char) -> bool;

/// `char::is_alphanumeric` depends on the character alone.
pub assume_specification[ char::is_alphanumeric ](c: char) -> (yes: bool)
    ensures
        yes == alphanumeric(c),
;

/// The two classes of characters that texts are cut into runs of.
#[derive(Clone, Copy, PartialEq, Eq, Structural)]
pub enum CharClass {
    /// Everything but white space.
    NonSpace,
    /// Letters and digits.
    Alphanumeric,
}

/// A character belongs to a class.
pub open spec fn in_class(c: char, class: CharClass) -> bool {
    match class {
        CharClass::NonSpace => !is_white_space(c),
        CharClass::Alphanumeric => alphanumeric(c),
    }
}

/// Decides [`in_class`].
pub fn char_in_class(c: char, class: CharClass) -> (yes: bool)
    ensures
        yes == in_class(c, class),
{
    match class {
        CharClass::NonSpace => !white_space_char(c),
        CharClass::Alphanumeric => c.is_alphanumeric(),
    }
}

/// Where the run of class characters that position `i` lies in ends.
pub open spec fn run_end(s: Seq<char>, class: CharClass, i: int) -> int
    decreases s.len() - i,
{
    if 0 <= i < s.len() && in_class(s[i], class) {
        run_end(s, class, i + 1)
    } else {
        i
    }
}

proof fn lemma_run_end(s: Seq<char>, class: CharClass, i: int)
    requires
        0 <= i <= s.len(),
    ensures
        i <= run_end(s, class, i) <= s.len(),
    decreases s.len() - i,
{
    if i < s.len() && in_class(s[i], class) {
        lemma_run_end(s, class, i + 1);
    }
}

/// The maximal runs of class characters from position `i` on, in order.
pub open spec fn runs_from(s: Seq<char>, class: CharClass, i: int) -> Seq<Seq<char>>
    decreases s.len() - i,
    via runs_from_decreases
{
    if i < 0 || i >= s.len() {
        Seq::empty()
    } else if in_class(s[i], class) {
        seq![s.subrange(i, run_end(s, class, i))] + runs_from(s, class, run_end(s, class, i))
    } else {
        runs_from(s, class, i + 1)
    }
}

#[via_fn]
proof fn runs_from_decreases(s: Seq<char>, class: CharClass, i: int) {
    if 0 <= i < s.len() && in_class(s[i], class) {
        lemma_run_end(s, class, i + 1);
    }
}

/// The maximal runs of class characters in a text, in order.
pub open spec fn runs(s: Seq<char>, class: CharClass) -> Seq<Seq<char>> {
    runs_from(s, class, 0)
}

/// The words of a text: its maximal runs without white space.
pub open spec fn words(s: Seq<char>) -> Seq<Seq<char>> {
    runs(s, CharClass::NonSpace)
}

/// The texts at a list of character ranges.
pub open spec fn ranges_text(s: Seq<char>, rs: Seq<(usize, usize)>) -> Seq<Seq<char>> {
    rs.map_values(|r: (usize, usize)| s.subrange(r.0 as int, r.1 as int))
}

/// The ranges of the maximal runs of class characters.
pub fn runs_of(cs: &[char], class: CharClass) -> (out: Vec<(usize, usize)>)
    ensures
        ranges_text(cs@, out@) == runs(cs@, class),
        forall|k: int| 0 <= k < out@.len() ==> (#[trigger] out@[k]).0 < out@[k].1 <= cs@.len(),
{
    let n: usize = cs.len();
    let mut out: Vec<(usize, usize)> = Vec::new();
    let mut i: usize = 0;
    proof {
        assert(ranges_text(cs@, out@) =~= Seq::<Seq<char>>::empty());
        assert(Seq::<Seq<char>>::empty() + runs(cs@, class) =~= runs(cs@, class));
    }
    while i < n
        invariant
            n == cs@.len(),
            i <= n,
            ranges_text(cs@, out@) + runs_from(cs@, class, i as int) == runs(cs@, class),
            forall|k: int| 0 <= k < out@.len() ==> (#[trigger] out@[k]).0 < out@[k].1 <= cs@.len(),
        decreases n - i,
    {
        if char_in_class(cs[i], class) {
            let mut j: usize = i + 1;
            while j < n && char_in_class(cs[j], class)
                invariant
                    n == cs@.len(),
                    i < j <= n,
                    in_class(cs@[i as int], class),
                    run_end(cs@, class, i as int) == run_end(cs@, class, j as int),
                decreases n - j,
            {
                j += 1;
            }
            let ghost before = ranges_text(cs@, out@);
            let ghost run = cs@.subrange(i as int, j as int);
            let ghost rest = runs_from(cs@, class, j as int);
            proof {
                assert(run_end(cs@, class, i as int) == j);
                assert(ranges_text(cs@, out@.push((i, j))) =~= before.push(run));
                assert(before + (seq![run] + rest) =~= before.push(run) + rest);
            }
            out.push((i, j));
            i = j;
        } else {
            i += 1;
        }
    }
    proof {
        assert(ranges_text(cs@, out@) + Seq::<Seq<char>>::empty() =~= ranges_text(cs@, out@));
    }
    out
}

// ---------------------------------------------------------------------------
// Splitting and replacing
// ---------------------------------------------------------------------------

pub proof fn lemma_next_char(s: Seq<char>, c: char, from: int)
    requires
        0 <= from <= s.len(),
    ensures
        from <= next_char(s, c, from) <= s.len(),
        next_char(s, c, from) < s.len() ==> s[next_char(s, c, from)] == c,
        forall|j: int| from <= j < next_char(s, c, from) ==> s[j] != c,
    decreases s.len() - from,
{
    if from < s.len() && s[from] != c {
        lemma_next_char(s, c, from + 1);
    }
}

/// The parts of a text from position `from` on, between the occurrences of a
/// character.
pub open spec fn split_from(s: Seq<char>, c: char, from: int) -> Seq<Seq<char>>
    decreases s.len() - from,
    via split_from_decreases
{
    let e = next_char(s, c, from);
    if from < 0 || from > s.len() {
        Seq::empty()
    } else if e >= s.len() {
        seq![s.subrange(from, s.len() as int)]
    } else {
        seq![s.subrange(from, e)] + split_from(s, c, e + 1)
    }
}

#[via_fn]
proof fn split_from_decreases(s: Seq<char>, c: char, from: int) {
    if 0 <= from <= s.len() {
        lemma_next_char(s, c, from);
    }
}

/// The parts of a text between the occurrences of a character.
pub open spec fn split(s: Seq<char>, c: char) -> Seq<Seq<char>> {
    split_from(s, c, 0)
}

/// The ranges of the parts between the occurrences of a character.
pub fn split_ranges(cs: &[char], c: char) -> (out: Vec<(usize, usize)>)
    ensures
        ranges_text(cs@, out@) == split(cs@, c),
        out@.len() > 0,
        forall|k: int| 0 <= k < out@.len() ==> (#[trigger] out@[k]).0 <= out@[k].1 <= cs@.len(),
{
    let n: usize = cs.len();
    let mut out: Vec<(usize, usize)> = Vec::new();
    let mut from: usize = 0;
    proof {
        assert(ranges_text(cs@, out@) =~= Seq::<Seq<char>>::empty());
        assert(Seq::<Seq<char>>::empty() + split(cs@, c) =~= split(cs@, c));
    }
    loop
        invariant
            n == cs@.len(),
            from <= n,
            ranges_text(cs@, out@) + split_from(cs@, c, from as int) == split(cs@, c),
            forall|k: int| 0 <= k < out@.len() ==> (#[trigger] out@[k]).0 <= out@[k].1 <= cs@.len(),
        decreases n - from,
    {
        let e = next_char_at(cs, c, from);
        let ghost before = ranges_text(cs@, out@);
        let ghost part = cs@.subrange(from as int, e as int);
        proof {
            assert(ranges_text(cs@, out@.push((from, e))) =~= before.push(part));
        }
        out.push((from, e));
        if e >= n {
            proof {
                assert(before + seq![part] =~= before.push(part));
            }
            return out;
        }
        proof {
            let rest = split_from(cs@, c, e + 1);
            assert(before + (seq![part] + rest) =~= before.push(part) + rest);
        }
        from = e + 1;
    }
}

/// A text from position `i` on, with each occurrence of a pattern replaced.
pub open spec fn replaced_from(s: Seq<char>, from: Seq<char>, to: Seq<char>, i: int) -> Seq<char>
    decreases s.len() - i,
{
    if i < 0 || i >= s.len() {
        Seq::empty()
    } else if from.len() > 0 && occurs_at(s, from, i) {
        to + replaced_from(s, from, to, i + from.len())
    } else {
        seq![s[i]] + replaced_from(s, from, to, i + 1)
    }
}

/// A text with each occurrence of a pattern, from the left, replaced.
pub open spec fn replaced(s: Seq<char>, from: Seq<char>, to: Seq<char>) -> Seq<char> {
    replaced_from(s, from, to, 0)
}

/// Computes [`replaced`].
pub fn replace_text(s: &str, from: &str, to: &str) -> (out: String)
    requires
        from@.len() > 0,
    ensures
        out@ == replaced(s@, from@, to@),
{
    let cs = chars_of(s);
    let pattern = chars_of(from);
    let n: usize = cs.len();
    let mut out = String::new();
    let mut i: usize = 0;
    proof {
        assert(Seq::<char>::empty() + replaced(s@, from@, to@) =~= replaced(s@, from@, to@));
    }
    while i < n
        invariant
            cs@ == s@,
            pattern@ == from@,
            from@.len() > 0,
            n == cs@.len(),
            i <= n,
            out@ + replaced_from(s@, from@, to@, i as int) == replaced(s@, from@, to@),
        decreases n - i,
    {
        let ghost before = out@;
        if occurs_here(&cs, &pattern, i) {
            out.append(to);
            proof {
                let rest = replaced_from(s@, from@, to@, i + from@.len());
                assert(before + (to@ + rest) =~= out@ + rest);
            }
            i += pattern.len();
        } else {
            out.push(cs[i]);
            proof {
                let rest = replaced_from(s@, from@, to@, i + 1);
                assert(before + (seq![s@[i as int]] + rest) =~= out@ + rest);
            }
            i += 1;
        }
    }
    proof {
        assert(out@ + Seq::<char>::empty() =~= out@);
    }
    out
}

proof fn lemma_next_in_head(a: Seq<char>, r: Seq<char>, c: char, from: int)
    requires
        0 <= from <= a.len(),
        r.len() > 0,
        r[0] == c,
    ensures
        next_char(a + r, c, from) == next_char(a, c, from),
{
    let s = a + r;
    lemma_next_char(a, c, from);
    lemma_next_char(s, c, from);
    let x = next_char(a, c, from);
    let y = next_char(s, c, from);
    if y < x {
        assert(s[y] == a[y]);
    }
    if x < y {
        if x < a.len() {
            assert(s[x] == a[x]);
        } else {
            assert(s[x] == r[0]);
        }
    }
}

/// What stands behind the last separator is the last part.
pub proof fn lemma_split_behind(a: Seq<char>, p: Seq<char>, c: char, from: int)
    requires
        0 <= from <= a.len(),
        forall|i: int| 0 <= i < p.len() ==> #[trigger] p[i] != c,
    ensures
        split_from(a + seq![c] + p, c, from) == split_from(a, c, from).push(p),
    decreases a.len() - from,
{
    let r = seq![c] + p;
    let s = a + seq![c] + p;
    assert(s =~= a + r);
    lemma_next_in_head(a, r, c, from);
    lemma_next_char(a, c, from);
    let e = next_char(a, c, from);
    assert(s.subrange(from, e) =~= a.subrange(from, e));
    if e < a.len() {
        lemma_split_behind(a, p, c, e + 1);
        assert(split_from(s, c, from) =~= seq![s.subrange(from, e)] + split_from(s, c, e + 1));
        assert(split_from(a, c, from) =~= seq![a.subrange(from, e)] + split_from(a, c, e + 1));
        assert(seq![a.subrange(from, e)] + split_from(a, c, e + 1).push(p) =~= (seq![
            a.subrange(from, e),
        ] + split_from(a, c, e + 1)).push(p));
    } else {
        let n = a.len() as int;
        lemma_next_char(s, c, n + 1);
        let f = next_char(s, c, n + 1);
        if f < s.len() {
            assert(s[f] == p[f - n - 1]);
        }
        assert(s.subrange(n + 1, s.len() as int) =~= p);
        assert(split_from(s, c, n + 1) =~= seq![p]);
        assert(split_from(s, c, from) =~= seq![s.subrange(from, e)] + split_from(s, c, e + 1));
        assert(split_from(a, c, from) =~= seq![a.subrange(from, n)]);
        assert(seq![a.subrange(from, n)] + seq![p] =~= seq![a.subrange(from, n)].push(p));
    }
}

// ---------------------------------------------------------------------------
// Laws
// ---------------------------------------------------------------------------

/// White space and nothing else.
pub open spec fn is_blank(s: Seq<char>) -> bool {
    forall|i: int| 0 <= i < s.len() ==> is_white_space(#[trigger] s[i])
}

proof fn lemma_trim_front(a: Seq<char>, t: Seq<char>)
    requires
        is_blank(a),
        t.len() > 0,
        !is_white_space(t[0]),
    ensures
        trim_start(a + t) == t,
    decreases a.len(),
{
    let s = a + t;
    if a.len() > 0 {
        let rest = a.drop_first();
        assert(s[0] == a[0]);
        assert(s.drop_first() =~= rest + t);
        assert forall|i: int| 0 <= i < rest.len() implies is_white_space(#[trigger] rest[i]) by {
            assert(rest[i] == a[i + 1]);
        }
        lemma_trim_front(rest, t);
    } else {
        assert(s =~= t);
    }
}

proof fn lemma_trim_back(t: Seq<char>, b: Seq<char>)
    requires
        is_blank(b),
        t.len() > 0,
        !is_white_space(t.last()),
    ensures
        trim_end(t + b) == t,
    decreases b.len(),
{
    let s = t + b;
    if b.len() > 0 {
        let rest = b.drop_last();
        assert(s.last() == b.last());
        assert(s.drop_last() =~= t + rest);
        assert forall|i: int| 0 <= i < rest.len() implies is_white_space(#[trigger] rest[i]) by {
            assert(rest[i] == b[i]);
        }
        lemma_trim_back(t, rest);
    } else {
        assert(s =~= t);
    }
}

/// Trimming takes the white space from both ends of a text, and nothing else.
pub proof fn trimming_takes_the_ends(a: Seq<char>, t: Seq<char>, b: Seq<char>)
    requires
        is_blank(a),
        is_blank(b),
        t.len() > 0,
        !is_white_space(t[0]),
        !is_white_space(t.last()),
    ensures
        trim(a + t + b) == t,
        trim_start(a + t) == t,
        trim_end(t + b) == t,
{
    lemma_trim_front(a, t + b);
    assert(a + t + b =~= a + (t + b));
    lemma_trim_back(t, b);
    lemma_trim_front(a, t);
}

/// Texts that are joined by a character that none of them holds are split into the
/// same texts again.
pub proof fn joined_texts_are_split_again(parts: Seq<Seq<char>>, c: char)
    requires
        parts.len() > 0,
        forall|k: int| 0 <= k < parts.len() ==> !(#[trigger] parts[k]).contains(c),
    ensures
        split(joined(parts, seq![c]), c) == parts,
    decreases parts.len(),
{
    let last = parts.last();
    assert forall|i: int| 0 <= i < last.len() implies #[trigger] last[i] != c by {
        assert(!parts[parts.len() - 1].contains(c));
        assert(last.contains(last[i]));
    }
    if parts.len() == 1 {
        lemma_next_char(last, c, 0);
        assert(last.subrange(0, last.len() as int) =~= last);
        assert(parts =~= seq![last]);
    } else {
        let front = parts.drop_last();
        assert forall|k: int| 0 <= k < front.len() implies !(#[trigger] front[k]).contains(c) by {
            assert(front[k] == parts[k]);
        }
        joined_texts_are_split_again(front, c);
        lemma_split_behind(joined(front, seq![c]), last, c, 0);
        assert(front.push(last) =~= parts);
    }
}

proof fn lemma_nothing_replaced(s: Seq<char>, from: Seq<char>, to: Seq<char>, i: int)
    requires
        0 <= i <= s.len(),
        forall|j: int| i <= j < s.len() ==> !occurs_at(s, from, j),
    ensures
        replaced_from(s, from, to, i) == s.skip(i),
    decreases s.len() - i,
{
    if i < s.len() {
        lemma_nothing_replaced(s, from, to, i + 1);
        assert(seq![s[i]] + s.skip(i + 1) =~= s.skip(i));
    } else {
        assert(s.skip(i) =~= Seq::<char>::empty());
    }
}

/// A text in which a pattern does not occur is left as it is.
pub proof fn texts_without_the_pattern_are_kept(s: Seq<char>, from: Seq<char>, to: Seq<char>)
    requires
        from.len() > 0,
        !s.contains(from[0]),
    ensures
        replaced(s, from, to) == s,
{
    assert forall|j: int| 0 <= j < s.len() implies !occurs_at(s, from, j) by {
        if occurs_at(s, from, j) {
            assert(s.subrange(j, j + from.len())[0] == from[0]);
            assert(s[j] == from[0]);
        }
    }
    lemma_nothing_replaced(s, from, to, 0);
    assert(s.skip(0) =~= s);
}

proof fn lemma_unbroken_run(s: Seq<char>, i: int)
    requires
        0 <= i <= s.len(),
        forall|k: int| 0 <= k < s.len() ==> !is_white_space(#[trigger] s[k]),
    ensures
        run_end(s, CharClass::NonSpace, i) == s.len(),
    decreases s.len() - i,
{
    if i < s.len() {
        lemma_unbroken_run(s, i + 1);
    }
}

/// A text without white space is one word.
pub proof fn unbroken_texts_are_one_word(s: Seq<char>)
    requires
        s.len() > 0,
        forall|k: int| 0 <= k < s.len() ==> !is_white_space(#[trigger] s[k]),
    ensures
        words(s) == seq![s],
{
    let n = s.len() as int;
    lemma_unbroken_run(s, 0);
    assert(s.subrange(0, n) =~= s);
    assert(in_class(s[0], CharClass::NonSpace));
    assert(runs_from(s, CharClass::NonSpace, n) =~= Seq::<Seq<char>>::empty());
    assert(seq![s] + Seq::<Seq<char>>::empty() =~= seq![s]);
}

} // verus!
