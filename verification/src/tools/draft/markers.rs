//! Inline image markers, `![alt](cid:<id>)`, inside a draft's body.

use vstd::hash_set::StringHashSet;
use vstd::prelude::*;

use crate::text::ascii_alnum_char;
use crate::text::byte_len;
use crate::text::chars_of;
use crate::text::find_from;
use crate::text::is_ascii_alnum;
use crate::text::lemma_byte_len_bounds;
use crate::text::lemma_byte_len_push;
use crate::text::occurs_at;
use crate::text::occurs_here;
use crate::text::opt_text;
use crate::text::string_of_range;
use crate::text::texts;
use crate::text::width_of;

verus! {

/// Longest accepted id inside a `(cid:<id>)` marker. Real ids are short
/// file-name stems; anything longer is prose that happens to contain the
/// delimiters.
pub const MAX_MARKER_CID_BYTES: usize = 128;

/// Longest accepted alt text, which must also stay on one line. Without the
/// bound, a stray `![` in prose followed much later by `](cid:<id>)` would
/// swallow everything in between.
pub const MAX_MARKER_ALT_BYTES: usize = 300;

// ---------------------------------------------------------------------------
// Content ids
// ---------------------------------------------------------------------------

/// Characters safe to carry inside `src="cid:…"` and a `Content-ID` header
/// without quoting.
pub open spec fn cid_char(c: char) -> bool {
    is_ascii_alnum(c) || c == '.' || c == '_' || c == '-'
}

/// Decides [`cid_char`].
pub fn is_cid_char(c: char) -> (yes: bool)
    ensures
        yes == cid_char(c),
{
    ascii_alnum_char(c) || c == '.' || c == '_' || c == '-'
}

/// The rule for a content id: one to [`MAX_MARKER_CID_BYTES`] characters of
/// [`cid_char`], with no dot at either end and no two dots in a row.
pub open spec fn valid_cid(id: Seq<char>) -> bool {
    &&& 0 < id.len() <= MAX_MARKER_CID_BYTES
    &&& forall|i: int| 0 <= i < id.len() ==> cid_char(#[trigger] id[i])
    &&& id[0] != '.'
    &&& id.last() != '.'
    &&& forall|i: int| 0 < i < id.len() && #[trigger] id[i] == '.' ==> id[i - 1] != '.'
}

/// Decides [`valid_cid`].
pub fn is_valid_cid(id: &str) -> (yes: bool)
    ensures
        yes == valid_cid(id@),
{
    let cs = chars_of(id);
    let n: usize = cs.len();
    proof {
        assert(cs@.subrange(0, n as int) =~= id@);
    }
    valid_cid_range(&cs, 0, n)
}

/// Decides [`valid_cid`] of the characters at `from..to`.
pub fn valid_cid_range(cs: &[char], from: usize, to: usize) -> (yes: bool)
    requires
        from <= to <= cs@.len(),
    ensures
        yes == valid_cid(cs@.subrange(from as int, to as int)),
{
    let ghost id = cs@.subrange(from as int, to as int);
    if from == to || to - from > MAX_MARKER_CID_BYTES {
        return false;
    }
    if cs[from] == '.' || cs[to - 1] == '.' {
        proof {
            assert(id[0] == cs@[from as int]);
            assert(id.last() == cs@[to - 1]);
        }
        return false;
    }
    let mut i: usize = from;
    while i < to
        invariant
            from <= i <= to <= cs@.len(),
            id == cs@.subrange(from as int, to as int),
            forall|j: int| 0 <= j < i - from ==> cid_char(#[trigger] id[j]),
            forall|j: int| 0 < j < i - from && #[trigger] id[j] == '.' ==> id[j - 1] != '.',
        decreases to - i,
    {
        assert(id[i - from] == cs@[i as int]);
        if !is_cid_char(cs[i]) {
            return false;
        }
        if i > from && cs[i] == '.' && cs[i - 1] == '.' {
            assert(id[i - from - 1] == cs@[i - 1]);
            return false;
        }
        i += 1;
    }
    true
}

// ---------------------------------------------------------------------------
// What a marker is
// ---------------------------------------------------------------------------

/// One marker occurrence: the character range it takes up and its two parts.
pub struct MarkerView {
    pub start: int,
    pub end: int,
    pub alt: Seq<char>,
    pub cid: Seq<char>,
}

/// The first position at or after `from` holding `a` or `b`, or the length.
pub open spec fn next_of(s: Seq<char>, a: char, b: char, from: int) -> int
    decreases s.len() - from,
{
    if from < 0 || from >= s.len() {
        s.len() as int
    } else if s[from] == a || s[from] == b {
        from
    } else {
        next_of(s, a, b, from + 1)
    }
}

/// The text between an opener at `start` and the first `]` after it.
pub open spec fn alt_at(s: Seq<char>, start: int) -> Seq<char> {
    s.subrange(start + 2, next_of(s, ']', ']', start + 2))
}

/// The end of the id of a marker that opens at `start`.
pub open spec fn id_end_at(s: Seq<char>, start: int) -> int {
    next_of(s, ')', ')', next_of(s, ']', ']', start + 2) + 6)
}

/// The id of a marker that opens at `start`.
pub open spec fn cid_at(s: Seq<char>, start: int) -> Seq<char> {
    s.subrange(next_of(s, ']', ']', start + 2) + 6, id_end_at(s, start))
}

/// The delimiter between the alt text and the id.
pub open spec fn mid() -> Seq<char> {
    seq![']', '(', 'c', 'i', 'd', ':']
}

/// A marker opens at `start`: `![`, an alt text up to the first `]` that is
/// short enough and stays on one line, `](cid:`, and a valid id up to the next
/// `)`.
pub open spec fn marker_at(s: Seq<char>, start: int) -> bool {
    let alt_end = next_of(s, ']', ']', start + 2);
    &&& 0 <= start && start + 2 <= s.len()
    &&& s[start] == '!' && s[start + 1] == '['
    &&& alt_end < s.len()
    &&& byte_len(alt_at(s, start)) <= MAX_MARKER_ALT_BYTES
    &&& forall|i: int| start + 2 <= i < alt_end ==> #[trigger] s[i] != '\n' && s[i] != '\r'
    &&& occurs_at(s, mid(), alt_end)
    &&& id_end_at(s, start) < s.len()
    &&& valid_cid(cid_at(s, start))
}

/// The marker that opens at `start`.
pub open spec fn marker_of(s: Seq<char>, start: int) -> MarkerView {
    MarkerView {
        start,
        end: id_end_at(s, start) + 1,
        alt: alt_at(s, start),
        cid: cid_at(s, start),
    }
}

/// The markers of a body from position `from` on, left to right, none
/// overlapping another.
pub open spec fn markers_from(s: Seq<char>, from: int) -> Seq<MarkerView>
    decreases s.len() - from,
    via markers_from_decreases
{
    if from < 0 || from >= s.len() {
        Seq::empty()
    } else if marker_at(s, from) {
        seq![marker_of(s, from)] + markers_from(s, id_end_at(s, from) + 1)
    } else {
        markers_from(s, from + 1)
    }
}

#[via_fn]
proof fn markers_from_decreases(s: Seq<char>, from: int) {
    if 0 <= from < s.len() && marker_at(s, from) {
        lemma_next_of(s, ']', ']', from + 2);
        lemma_next_of(s, ')', ')', next_of(s, ']', ']', from + 2) + 6);
    }
}

/// The markers of a body.
pub open spec fn markers(s: Seq<char>) -> Seq<MarkerView> {
    markers_from(s, 0)
}

proof fn lemma_next_of(s: Seq<char>, a: char, b: char, from: int)
    requires
        0 <= from <= s.len(),
    ensures
        from <= next_of(s, a, b, from) <= s.len(),
        next_of(s, a, b, from) < s.len() ==> (s[next_of(s, a, b, from)] == a || s[next_of(
            s,
            a,
            b,
            from,
        )] == b),
        forall|j: int| from <= j < next_of(s, a, b, from) ==> #[trigger] s[j] != a && s[j] != b,
    decreases s.len() - from,
{
    if from < s.len() && s[from] != a && s[from] != b {
        lemma_next_of(s, a, b, from + 1);
    }
}

/// What is known to be the next hit is [`next_of`].
proof fn lemma_next_of_is(s: Seq<char>, a: char, b: char, from: int, p: int)
    requires
        0 <= from <= p <= s.len(),
        p < s.len() ==> s[p] == a || s[p] == b,
        forall|j: int| from <= j < p ==> #[trigger] s[j] != a && s[j] != b,
    ensures
        next_of(s, a, b, from) == p,
    decreases p - from,
{
    if from < p {
        lemma_next_of_is(s, a, b, from + 1, p);
    }
}

// ---------------------------------------------------------------------------
// Forward-only search
// ---------------------------------------------------------------------------

/// A forward-only finder for the next position holding one of two characters.
///
/// Queries arrive with non-decreasing positions; the cache then never reads a
/// character twice, so all lookups over one scan cost linear time together.
pub struct NextByte<'a> {
    haystack: &'a [char],
    first: char,
    second: char,
    cached: Option<usize>,
    floor: Ghost<int>,
}

impl<'a> NextByte<'a> {
    /// The text that is searched.
    pub closed spec fn text(&self) -> Seq<char> {
        self.haystack@
    }

    /// The two characters that are searched for.
    pub closed spec fn wanted(&self) -> (char, char) {
        (self.first, self.second)
    }

    /// The largest position asked for so far.
    pub closed spec fn floor(&self) -> int {
        self.floor@
    }

    /// What is remembered is the first hit at or after the floor.
    pub closed spec fn valid(&self) -> bool {
        &&& 0 <= self.floor@
        &&& match self.cached {
            Some(p) => {
                &&& p <= self.haystack@.len()
                &&& p < self.haystack@.len() ==> (self.haystack@[p as int] == self.first
                    || self.haystack@[p as int] == self.second)
                &&& forall|j: int|
                    self.floor@ <= j < p ==> #[trigger] self.haystack@[j] != self.first
                        && self.haystack@[j] != self.second
            },
            None => true,
        }
    }

    /// A finder that has not been asked yet.
    pub fn new(haystack: &'a [char], first: char, second: char) -> (f: NextByte<'a>)
        ensures
            f.valid(),
            f.text() == haystack@,
            f.wanted() == (first, second),
            f.floor() == 0,
    {
        NextByte { haystack, first, second, cached: None, floor: Ghost(0) }
    }

    /// The first position at or after `from` that holds one of the two
    /// characters.
    pub fn at_or_after(&mut self, from: usize) -> (at: Option<usize>)
        requires
            old(self).valid(),
            old(self).floor() <= from,
            from <= old(self).text().len(),
        ensures
            final(self).valid(),
            final(self).text() == old(self).text(),
            final(self).wanted() == old(self).wanted(),
            final(self).floor() == from,
            ({
                let at_spec = next_of(
                    old(self).text(),
                    old(self).wanted().0,
                    old(self).wanted().1,
                    from as int,
                );
                match at {
                    Some(p) => p == at_spec && p < old(self).text().len(),
                    None => at_spec == old(self).text().len(),
                }
            }),
    {
        let n: usize = self.haystack.len();
        let mut start: usize = from;
        if let Some(p) = self.cached {
            if p >= from {
                start = p;
            }
        }
        let mut i: usize = start;
        while i < n && self.haystack[i] != self.first && self.haystack[i] != self.second
            invariant
                from <= i <= n,
                n == self.haystack@.len(),
                forall|j: int|
                    from <= j < i ==> #[trigger] self.haystack@[j] != self.first
                        && self.haystack@[j] != self.second,
            decreases n - i,
        {
            i += 1;
        }
        proof {
            lemma_next_of_is(self.haystack@, self.first, self.second, from as int, i as int);
        }
        self.cached = Some(i);
        self.floor = Ghost(from as int);
        if i < n {
            Some(i)
        } else {
            None
        }
    }
}

// ---------------------------------------------------------------------------
// The scan
// ---------------------------------------------------------------------------

/// One marker occurrence in a body, by character positions.
#[derive(Debug)]
pub struct CidMarker {
    pub start: usize,
    pub end: usize,
    pub alt: String,
    pub cid: String,
}

impl View for CidMarker {
    type V = MarkerView;

    open spec fn view(&self) -> MarkerView {
        MarkerView {
            start: self.start as int,
            end: self.end as int,
            alt: self.alt@,
            cid: self.cid@,
        }
    }
}

/// The values of a run of markers.
pub open spec fn marker_views(ms: Seq<CidMarker>) -> Seq<MarkerView> {
    ms.map_values(|m: CidMarker| m@)
}

/// Whether the text at `from..to` takes at most [`MAX_MARKER_ALT_BYTES`].
fn alt_fits(cs: &[char], from: usize, to: usize) -> (yes: bool)
    requires
        from <= to <= cs@.len(),
    ensures
        yes == (byte_len(cs@.subrange(from as int, to as int)) <= MAX_MARKER_ALT_BYTES),
{
    let ghost alt = cs@.subrange(from as int, to as int);
    if to - from > MAX_MARKER_ALT_BYTES {
        proof {
            lemma_byte_len_bounds(alt);
        }
        return false;
    }
    let mut total: usize = 0;
    let mut i: usize = from;
    proof {
        lemma_byte_len_bounds(alt.take(0));
    }
    while i < to
        invariant
            from <= i <= to <= cs@.len(),
            to - from <= MAX_MARKER_ALT_BYTES,
            alt == cs@.subrange(from as int, to as int),
            total == byte_len(alt.take(i - from)),
            total <= 4 * (i - from),
        decreases to - i,
    {
        proof {
            lemma_byte_len_push(alt.take(i - from), cs@[i as int]);
            assert(alt.take(i - from + 1) =~= alt.take(i - from).push(cs@[i as int]));
        }
        total += width_of(cs[i]);
        i += 1;
    }
    proof {
        assert(alt.take(to - from) =~= alt);
    }
    total <= MAX_MARKER_ALT_BYTES
}

/// A later search finds a later position.
proof fn lemma_next_of_monotone(s: Seq<char>, a: char, b: char, from: int, later: int)
    requires
        0 <= from <= later <= s.len(),
    ensures
        next_of(s, a, b, from) <= next_of(s, a, b, later),
    decreases later - from,
{
    if from < later {
        lemma_next_of_monotone(s, a, b, from + 1, later);
        lemma_next_of(s, a, b, from + 1);
    }
}

/// Scans a body for markers.
///
/// Deliberately strict: the id satisfies the rule that an attachment's id is
/// held to, and the alt text stays on one line and within
/// [`MAX_MARKER_ALT_BYTES`]. What the grammar rejects stays ordinary text.
pub fn scan_cid_markers(body: &str) -> (out: Vec<CidMarker>)
    ensures
        marker_views(out@) == markers(body@),
{
    let cs = chars_of(body);
    let n: usize = cs.len();
    let delimiter: [char; 6] = [']', '(', 'c', 'i', 'd', ':'];
    proof {
        assert(delimiter@ =~= mid());
    }
    let mut next_rbracket = NextByte::new(&cs, ']', ']');
    let mut next_paren = NextByte::new(&cs, ')', ')');
    let mut next_newline = NextByte::new(&cs, '\n', '\r');
    let mut out: Vec<CidMarker> = Vec::new();
    let mut cursor: usize = 0;
    proof {
        assert(marker_views(out@) =~= Seq::<MarkerView>::empty());
        assert(Seq::<MarkerView>::empty() + markers(body@) =~= markers(body@));
        if 2 <= n {
            lemma_next_of(body@, ']', ']', 2);
        }
    }
    while cursor < n
        invariant
            cs@ == body@,
            n == cs@.len(),
            delimiter@ == mid(),
            cursor <= n,
            next_rbracket.valid(),
            next_rbracket.text() == body@,
            next_rbracket.wanted() == (']', ']'),
            next_rbracket.floor() <= cursor + 2,
            next_paren.valid(),
            next_paren.text() == body@,
            next_paren.wanted() == (')', ')'),
            cursor + 2 <= n ==> next_paren.floor() <= next_of(body@, ']', ']', cursor + 2) + 6,
            next_newline.valid(),
            next_newline.text() == body@,
            next_newline.wanted() == ('\n', '\r'),
            next_newline.floor() <= cursor + 2,
            marker_views(out@) + markers_from(body@, cursor as int) == markers(body@),
        decreases n - cursor,
    {
        let ghost here = cursor as int;
        let mut found: Option<(usize, usize)> = None;
        if cursor + 1 < n && cs[cursor] == '!' && cs[cursor + 1] == '[' {
            let alt_start: usize = cursor + 2;
            let newline = next_newline.at_or_after(alt_start);
            proof {
                lemma_next_of(body@, ']', ']', alt_start as int);
                lemma_next_of(body@, '\n', '\r', alt_start as int);
            }
            if let Some(alt_end) = next_rbracket.at_or_after(alt_start) {
                let one_line = match newline {
                    Some(nl) => nl > alt_end,
                    None => true,
                };
                if one_line && alt_fits(&cs, alt_start, alt_end) && occurs_here(
                    &cs,
                    &delimiter,
                    alt_end,
                ) {
                    let id_start: usize = alt_end + 6;
                    proof {
                        lemma_next_of(body@, ')', ')', id_start as int);
                    }
                    if let Some(id_end) = next_paren.at_or_after(id_start) {
                        if valid_cid_range(&cs, id_start, id_end) {
                            found = Some((alt_end, id_end));
                        }
                    }
                }
            }
        }
        assert(found.is_some() <==> marker_at(body@, here));
        if let Some((alt_end, id_end)) = found {
            let marker = CidMarker {
                start: cursor,
                end: id_end + 1,
                alt: string_of_range(&cs, cursor + 2, alt_end),
                cid: string_of_range(&cs, alt_end + 6, id_end),
            };
            proof {
                assert(marker@ == marker_of(body@, here));
                assert(marker_views(out@.push(marker)) =~= marker_views(out@).push(
                    marker_of(body@, here),
                ));
                assert(marker_views(out@) + (seq![marker_of(body@, here)] + markers_from(
                    body@,
                    id_end + 1,
                )) =~= marker_views(out@).push(marker_of(body@, here)) + markers_from(
                    body@,
                    id_end + 1,
                ));
                if id_end + 3 <= n {
                    lemma_next_of(body@, ']', ']', id_end + 3);
                }
            }
            out.push(marker);
            cursor = id_end + 1;
        } else {
            proof {
                if here + 3 <= n {
                    lemma_next_of_monotone(body@, ']', ']', here + 2, here + 3);
                }
            }
            cursor += 1;
        }
    }
    proof {
        assert(marker_views(out@) + Seq::<MarkerView>::empty() =~= marker_views(out@));
    }
    out
}

// ---------------------------------------------------------------------------
// Inspection
// ---------------------------------------------------------------------------

/// The distinct items of a sequence, each at its first appearance.
pub open spec fn first_appearances(s: Seq<Seq<char>>) -> Seq<Seq<char>>
    decreases s.len(),
{
    if s.len() == 0 {
        Seq::empty()
    } else {
        let before = first_appearances(s.drop_last());
        if before.contains(s.last()) {
            before
        } else {
            before.push(s.last())
        }
    }
}

/// Every text of a list is among its first appearances.
pub proof fn lemma_all_appear(s: Seq<Seq<char>>, k: int)
    requires
        0 <= k < s.len(),
    ensures
        first_appearances(s).contains(s[k]),
    decreases s.len(),
{
    let head = first_appearances(s.drop_last());
    if k < s.len() - 1 {
        lemma_all_appear(s.drop_last(), k);
        let j = choose|j: int| 0 <= j < head.len() && head[j] == s[k];
        assert(first_appearances(s)[j] == s[k]);
    } else if !head.contains(s.last()) {
        assert(first_appearances(s)[head.len() as int] == s[k]);
    }
}

/// The ids that a body's markers refer to, in order.
pub open spec fn referenced_ids(ms: Seq<MarkerView>) -> Seq<Seq<char>> {
    ms.map_values(|m: MarkerView| m.cid)
}

/// Position `pos` lies inside one of the markers.
pub open spec fn inside_marker(ms: Seq<MarkerView>, pos: int) -> bool {
    exists|k: int| 0 <= k < ms.len() && (#[trigger] ms[k]).start <= pos < ms[k].end
}

/// A `](cid:` at `pos` that belongs to no marker.
pub open spec fn stray_at(s: Seq<char>, pos: int) -> bool {
    occurs_at(s, mid(), pos) && !inside_marker(markers(s), pos)
}

/// Where the line that holds position `pos` begins.
pub open spec fn line_start(s: Seq<char>, pos: int) -> int
    decreases pos,
{
    if pos <= 0 || s[pos - 1] == '\n' || s[pos - 1] == '\r' {
        pos
    } else {
        line_start(s, pos - 1)
    }
}

/// The line that holds position `pos`, cut at 120 characters.
pub open spec fn fragment_at(s: Seq<char>, pos: int) -> Seq<char> {
    let line = s.subrange(line_start(s, pos), next_of(s, '\n', '\r', pos));
    if line.len() > 120 {
        line.take(120)
    } else {
        line
    }
}

/// The line around the first `](cid:` from `pos` on that belongs to no marker.
pub open spec fn stray_from(s: Seq<char>, pos: int) -> Option<Seq<char>>
    decreases s.len() - pos,
{
    if pos < 0 || pos >= s.len() {
        None
    } else if stray_at(s, pos) {
        Some(fragment_at(s, pos))
    } else {
        stray_from(s, pos + 1)
    }
}

proof fn lemma_first_stray(s: Seq<char>, from: int, pos: int)
    requires
        0 <= from <= pos,
        stray_at(s, pos),
        forall|j: int| from <= j < pos ==> !stray_at(s, j),
    ensures
        stray_from(s, from) == Some(fragment_at(s, pos)),
    decreases pos - from,
{
    if from < pos {
        lemma_first_stray(s, from + 1, pos);
    }
}

proof fn lemma_no_stray(s: Seq<char>, from: int)
    requires
        0 <= from,
        forall|j: int| from <= j ==> !stray_at(s, j),
    ensures
        stray_from(s, from) is None,
    decreases s.len() - from,
{
    if from < s.len() {
        lemma_no_stray(s, from + 1);
    }
}

/// Where there is a stray `](cid:`, the first one is what is found.
pub proof fn lemma_stray_is_found(s: Seq<char>, from: int, pos: int) -> (first: int)
    requires
        0 <= from <= pos,
        stray_at(s, pos),
    ensures
        from <= first <= pos,
        stray_at(s, first),
        forall|j: int| from <= j < first ==> !stray_at(s, j),
        stray_from(s, from) == Some(fragment_at(s, first)),
    decreases pos - from,
{
    if stray_at(s, from) {
        from
    } else {
        lemma_stray_is_found(s, from + 1, pos)
    }
}

/// Markers come in order and do not overlap.
proof fn lemma_markers_sorted(s: Seq<char>, from: int)
    requires
        0 <= from,
    ensures
        forall|k: int|
            0 <= k < markers_from(s, from).len() ==> from <= (#[trigger] markers_from(
                s,
                from,
            )[k]).start < markers_from(s, from)[k].end <= s.len(),
        forall|a: int, b: int|
            0 <= a < b < markers_from(s, from).len() ==> (#[trigger] markers_from(s, from)[a]).end
                <= (#[trigger] markers_from(s, from)[b]).start,
    decreases s.len() - from,
{
    if from < s.len() {
        if marker_at(s, from) {
            lemma_next_of(s, ']', ']', from + 2);
            lemma_next_of(s, ')', ')', next_of(s, ']', ']', from + 2) + 6);
            let next = id_end_at(s, from) + 1;
            lemma_markers_sorted(s, next);
            let rest = markers_from(s, next);
            let all = markers_from(s, from);
            assert(all == seq![marker_of(s, from)] + rest);
            assert forall|k: int| 0 <= k < all.len() implies from <= (#[trigger] all[k]).start
                < all[k].end <= s.len() by {
                if k > 0 {
                    assert(all[k] == rest[k - 1]);
                }
            }
            assert forall|a: int, b: int| 0 <= a < b < all.len() implies (#[trigger] all[a]).end
                <= (#[trigger] all[b]).start by {
                assert(all[b] == rest[b - 1]);
                if a > 0 {
                    assert(all[a] == rest[a - 1]);
                }
            }
        } else {
            lemma_markers_sorted(s, from + 1);
            assert(markers_from(s, from) == markers_from(s, from + 1));
        }
    } else {
        assert(markers_from(s, from) == Seq::<MarkerView>::empty());
    }
}

/// The markers of a body come in order, do not overlap and lie inside it.
pub proof fn lemma_markers_in_order(s: Seq<char>)
    ensures
        forall|k: int|
            0 <= k < markers(s).len() ==> 0 <= (#[trigger] markers(s)[k]).start < markers(s)[k].end
                <= s.len(),
        forall|a: int, b: int|
            0 <= a < b < markers(s).len() ==> (#[trigger] markers(s)[a]).end <= (
            #[trigger] markers(s)[b]).start,
{
    lemma_markers_sorted(s, 0);
}

/// A marker as it is written in a body.
pub open spec fn marker_source(m: MarkerView) -> Seq<char> {
    seq!['!', '['] + m.alt + mid() + m.cid + seq![')']
}

proof fn lemma_marker_stands(s: Seq<char>, start: int)
    requires
        marker_at(s, start),
    ensures
        s.subrange(start, marker_of(s, start).end) == marker_source(marker_of(s, start)),
        !marker_of(s, start).alt.contains('\n'),
{
    let alt_end = next_of(s, ']', ']', start + 2);
    let m = marker_of(s, start);
    lemma_next_of(s, ']', ']', start + 2);
    lemma_next_of(s, ')', ')', alt_end + 6);
    assert(s.subrange(start, start + 2) =~= seq!['!', '[']);
    assert(s.subrange(alt_end, alt_end + 6) == mid());
    assert(s.subrange(m.end - 1, m.end) =~= seq![')']);
    assert(s.subrange(start, m.end) =~= s.subrange(start, start + 2) + m.alt + s.subrange(
        alt_end,
        alt_end + 6,
    ) + m.cid + s.subrange(m.end - 1, m.end));
    if m.alt.contains('\n') {
        let i = choose|i: int| 0 <= i < m.alt.len() && m.alt[i] == '\n';
        assert(s[start + 2 + i] == '\n');
    }
}

proof fn lemma_markers_stand(s: Seq<char>, from: int, k: int)
    requires
        0 <= from,
        0 <= k < markers_from(s, from).len(),
    ensures
        ({
            let m = markers_from(s, from)[k];
            &&& s.subrange(m.start, m.end) == marker_source(m)
            &&& valid_cid(m.cid)
            &&& !m.alt.contains('\n')
            &&& byte_len(m.alt) <= MAX_MARKER_ALT_BYTES
        }),
    decreases s.len() - from,
{
    if from < s.len() {
        if marker_at(s, from) {
            lemma_marker_stands(s, from);
            lemma_next_of(s, ']', ']', from + 2);
            lemma_next_of(s, ')', ')', next_of(s, ']', ']', from + 2) + 6);
            let next = id_end_at(s, from) + 1;
            assert(markers_from(s, from) == seq![marker_of(s, from)] + markers_from(s, next));
            if k > 0 {
                assert(markers_from(s, from)[k] == markers_from(s, next)[k - 1]);
                lemma_markers_stand(s, next, k - 1);
            }
        } else {
            assert(markers_from(s, from) == markers_from(s, from + 1));
            lemma_markers_stand(s, from + 1, k);
        }
    }
}

/// Every marker of a body stands there as `![alt](cid:id)`, with an id that an
/// attachment could carry and a short alt text on one line.
pub proof fn markers_stand_in_the_body(s: Seq<char>, k: int)
    requires
        0 <= k < markers(s).len(),
    ensures
        s.subrange(markers(s)[k].start, markers(s)[k].end) == marker_source(markers(s)[k]),
        valid_cid(markers(s)[k].cid),
        !markers(s)[k].alt.contains('\n'),
        byte_len(markers(s)[k].alt) <= MAX_MARKER_ALT_BYTES,
{
    lemma_markers_stand(s, 0, k);
}

/// Everything validation needs to know about a body's markers.
#[derive(Debug)]
pub struct MarkerInspection {
    /// The referenced ids, in order of first appearance, without repeats.
    pub unique_ids: Vec<String>,
    /// The (cut) line around the first `](cid:` that is no part of a marker.
    pub stray_fragment: Option<String>,
}

/// The distinct ids of a run of markers.
fn unique_ids_of(ms: &Vec<CidMarker>) -> (out: Vec<String>)
    ensures
        texts(out@) == first_appearances(referenced_ids(marker_views(ms@))),
{
    let mut seen = StringHashSet::new();
    let mut out: Vec<String> = Vec::new();
    let ghost all = referenced_ids(marker_views(ms@));
    let mut i: usize = 0;
    proof {
        assert(texts(out@) =~= first_appearances(all.take(0)));
    }
    while i < ms.len()
        invariant
            i <= ms@.len(),
            all == referenced_ids(marker_views(ms@)),
            texts(out@) == first_appearances(all.take(i as int)),
            forall|t: Seq<char>| seen@.contains(t) <==> texts(out@).contains(t),
        decreases ms@.len() - i,
    {
        let ghost before = texts(out@);
        let ghost id = ms@[i as int].cid@;
        proof {
            assert(all.take(i as int + 1).drop_last() =~= all.take(i as int));
            assert(all[i as int] == id);
        }
        if seen.insert(ms[i].cid.clone()) {
            out.push(ms[i].cid.clone());
            proof {
                assert(texts(out@) =~= before.push(id));
                assert forall|t: Seq<char>| seen@.contains(t) <==> texts(out@).contains(t) by {
                    if before.contains(t) {
                        let k = choose|k: int| 0 <= k < before.len() && before[k] == t;
                        assert(texts(out@)[k] == t);
                    }
                    assert(texts(out@)[before.len() as int] == id);
                }
            }
        }
        i += 1;
    }
    proof {
        assert(all.take(all.len() as int) =~= all);
    }
    out
}

/// Inspects a body's markers for validation: which ids they refer to, and
/// whether there is a malformed attempt at one.
pub fn inspect_markers(body: &str) -> (found: MarkerInspection)
    ensures
        texts(found.unique_ids@) == first_appearances(referenced_ids(markers(body@))),
        opt_text(found.stray_fragment) == stray_from(body@, 0),
{
    let ms = scan_cid_markers(body);
    let unique_ids = unique_ids_of(&ms);
    let stray_fragment = first_stray(body, &ms);
    MarkerInspection { unique_ids, stray_fragment }
}

/// The line around the first delimiter that belongs to no marker.
fn first_stray(body: &str, ms: &Vec<CidMarker>) -> (found: Option<String>)
    requires
        marker_views(ms@) == markers(body@),
    ensures
        opt_text(found) == stray_from(body@, 0),
{
    let cs = chars_of(body);
    let n: usize = cs.len();
    let delimiter: [char; 6] = [']', '(', 'c', 'i', 'd', ':'];
    let ghost all = markers(body@);
    proof {
        assert(delimiter@ =~= mid());
        lemma_markers_sorted(body@, 0);
    }
    let mut from: usize = 0;
    let mut mi: usize = 0;
    while from <= n
        invariant
            cs@ == body@,
            n == cs@.len(),
            from <= n,
            mi <= ms@.len(),
            delimiter@ == mid(),
            all == markers(body@),
            all == marker_views(ms@),
            forall|k: int| 0 <= k < mi ==> (#[trigger] all[k]).end <= from,
            forall|a: int, b: int|
                0 <= a < b < all.len() ==> (#[trigger] all[a]).end <= (#[trigger] all[b]).start,
            forall|k: int| 0 <= k < all.len() ==> (#[trigger] all[k]).start < all[k].end,
            forall|j: int| 0 <= j < from ==> !stray_at(body@, j),
        decreases n - from,
    {
        let pos = match find_from(&cs, &delimiter, from) {
            Some(p) => p,
            None => {
                proof {
                    lemma_no_stray(body@, 0);
                }
                return None;
            },
        };
        while mi < ms.len() && ms[mi].end <= pos
            invariant
                from <= pos,
                mi <= ms@.len(),
                all == marker_views(ms@),
                forall|k: int| 0 <= k < mi ==> (#[trigger] all[k]).end <= pos,
            decreases ms@.len() - mi,
        {
            assert(all[mi as int] == ms@[mi as int]@);
            mi += 1;
        }
        let inside = mi < ms.len() && pos >= ms[mi].start;
        proof {
            if mi < ms@.len() {
                assert(all[mi as int] == ms@[mi as int]@);
            }
            if inside {
                assert(inside_marker(all, pos as int));
            } else {
                assert forall|k: int| 0 <= k < all.len() implies !((#[trigger] all[k]).start <= pos
                    < all[k].end) by {
                    if k > mi {
                        assert(all[mi as int].end <= all[k].start);
                    }
                }
                assert(!inside_marker(all, pos as int));
            }
        }
        if !inside {
            proof {
                assert(stray_at(body@, pos as int));
                lemma_first_stray(body@, 0, pos as int);
            }
            return Some(fragment_of(&cs, pos));
        }
        proof {
            assert forall|j: int| 0 <= j < pos + 6 implies !stray_at(body@, j) by {
                if pos < j && occurs_at(body@, mid(), j) {
                    assert(body@.subrange(pos as int, pos + 6)[j - pos] == mid()[j - pos]);
                    assert(body@.subrange(j, j + 6)[0] == mid()[0]);
                }
            }
        }
        from = pos + 6;
    }
    None
}

/// Computes [`fragment_at`].
fn fragment_of(cs: &[char], pos: usize) -> (f: String)
    requires
        pos < cs@.len(),
    ensures
        f@ == fragment_at(cs@, pos as int),
{
    let n: usize = cs.len();
    let mut start: usize = pos;
    while start > 0 && cs[start - 1] != '\n' && cs[start - 1] != '\r'
        invariant
            start <= pos < cs@.len(),
            line_start(cs@, pos as int) == line_start(cs@, start as int),
        decreases start,
    {
        start -= 1;
    }
    let mut end: usize = pos;
    while end < n && cs[end] != '\n' && cs[end] != '\r'
        invariant
            n == cs@.len(),
            pos <= end <= n,
            next_of(cs@, '\n', '\r', pos as int) == next_of(cs@, '\n', '\r', end as int),
        decreases n - end,
    {
        end += 1;
    }
    let ghost line = cs@.subrange(start as int, end as int);
    if end - start > 120 {
        proof {
            assert(line.take(120) =~= cs@.subrange(start as int, start + 120));
        }
        string_of_range(cs, start, start + 120)
    } else {
        string_of_range(cs, start, end)
    }
}

} // verus!
