//! Collapsing a listing into one row per conversation.

use vstd::hash_map::StringHashMap;
use vstd::prelude::*;

use crate::email::EmailSummary;
use crate::text::chars_of;
use crate::text::copy_of;
use crate::text::decimal;
use crate::text::decimal_string;
use crate::text::digit_char;
use crate::text::opt_text;
use crate::text::padded;
use crate::text::texts;
use crate::time::civil_in_range;
use crate::time::utc_iso;
use crate::time::year_text;

verus! {

// ---------------------------------------------------------------------------
// Disjoint sets
// ---------------------------------------------------------------------------

/// A union-find forest over the numbers below its length.
pub struct UnionFind {
    parent: Vec<usize>,
    rep: Ghost<Seq<int>>,
    depth: Ghost<Seq<nat>>,
}

impl UnionFind {
    /// The root of each node; two nodes are in one set when these agree.
    pub closed spec fn roots(&self) -> Seq<int> {
        self.rep@
    }

    /// Every node leads up to its root in finitely many steps.
    pub closed spec fn valid(&self) -> bool {
        &&& self.rep@.len() == self.parent@.len()
        &&& self.depth@.len() == self.parent@.len()
        &&& forall|i: int|
            0 <= i < self.parent@.len() ==> {
                &&& (#[trigger] self.parent@[i]) < self.parent@.len()
                &&& self.rep@[self.parent@[i] as int] == self.rep@[i]
                &&& self.parent@[i] != i ==> self.depth@[self.parent@[i] as int] < self.depth@[i]
                &&& self.parent@[i] == i ==> self.rep@[i] == i
            }
        &&& forall|i: int|
            0 <= i < self.parent@.len() ==> 0 <= (#[trigger] self.rep@[i]) < self.parent@.len()
                && self.rep@[self.rep@[i]] == self.rep@[i]
    }

    /// A forest without nodes.
    pub fn new() -> (f: UnionFind)
        ensures
            f.valid(),
            f.roots().len() == 0,
    {
        UnionFind { parent: Vec::new(), rep: Ghost(Seq::empty()), depth: Ghost(Seq::empty()) }
    }

    /// Adds a node in a set of its own.
    pub fn grow(&mut self) -> (id: usize)
        requires
            old(self).valid(),
        ensures
            final(self).valid(),
            id == old(self).roots().len(),
            final(self).roots() == old(self).roots().push(id as int),
    {
        let id: usize = self.parent.len();
        self.parent.push(id);
        proof {
            self.rep@ = self.rep@.push(id as int);
            self.depth@ = self.depth@.push(0);
        }
        id
    }

    /// The root of a node, halving the path on the way.
    pub fn uf_find(&mut self, start: usize) -> (root: usize)
        requires
            old(self).valid(),
            start < old(self).roots().len(),
        ensures
            final(self).valid(),
            final(self).roots() == old(self).roots(),
            root == old(self).roots()[start as int],
    {
        let mut i: usize = start;
        let ghost roots = self.rep@;
        while self.parent[i] != i
            invariant
                self.valid(),
                self.rep@ == roots,
                i < self.parent@.len(),
                self.parent@.len() == roots.len(),
                roots[i as int] == roots[start as int],
            decreases self.depth@[i as int],
        {
            let p: usize = self.parent[i];
            let above: usize = self.parent[p];
            self.parent.set(i, above);
            i = above;
        }
        i
    }

    /// Merges the sets of two nodes.
    pub fn uf_union(&mut self, a: usize, b: usize)
        requires
            old(self).valid(),
            a < old(self).roots().len(),
            b < old(self).roots().len(),
        ensures
            final(self).valid(),
            final(self).roots() == merged_roots(old(self).roots(), a as int, b as int),
    {
        let ra: usize = self.uf_find(a);
        let rb: usize = self.uf_find(b);
        let ghost roots = self.rep@;
        let ghost depth = self.depth@;
        if ra != rb {
            let ghost before = self.parent@;
            self.parent.set(ra, rb);
            proof {
                self.rep@ = merged_roots(roots, a as int, b as int);
                self.depth@ = Seq::new(
                    roots.len(),
                    |k: int|
                        if roots[k] == ra {
                            depth[k] + depth[rb as int] + 1
                        } else {
                            depth[k]
                        },
                );
            }
        } else {
            proof {
                assert(merged_roots(roots, a as int, b as int) =~= roots);
            }
        }
    }
}

/// The roots after the sets of `a` and `b` are merged.
pub open spec fn merged_roots(roots: Seq<int>, a: int, b: int) -> Seq<int> {
    roots.map_values(
        |r: int|
            if r == roots[a] {
                roots[b]
            } else {
                r
            },
    )
}

// ---------------------------------------------------------------------------
// What a thread is
// ---------------------------------------------------------------------------

/// The id that stands in for a missing Message-ID: one that no other message
/// shares.
pub open spec fn synthetic_key(s: EmailSummary) -> Seq<char> {
    "\0synthetic:"@ + s.folder@ + ":"@ + decimal(s.uid as nat)
}

/// The ids that a row is threaded by: its own, the one it replies to and those
/// it refers to. A row without an id of its own stays alone, whatever it refers
/// to.
pub open spec fn thread_keys(s: EmailSummary) -> Seq<Seq<char>> {
    match opt_text(s.message_id) {
        Some(id) => seq![id] + (match opt_text(s.in_reply_to) {
            Some(parent) => seq![parent],
            None => Seq::empty(),
        }) + texts(s.references@),
        None => seq![synthetic_key(s)],
    }
}

/// Row `i` has the id `t`.
pub open spec fn has_key(ss: Seq<EmailSummary>, i: int, t: Seq<char>) -> bool {
    0 <= i < ss.len() && thread_keys(ss[i]).contains(t)
}

/// Two rows share an id.
pub open spec fn linked(ss: Seq<EmailSummary>, i: int, j: int) -> bool {
    exists|t: Seq<char>| has_key(ss, i, t) && #[trigger] has_key(ss, j, t)
}

/// Neighbours along a chain of rows share an id.
pub open spec fn is_chain(ss: Seq<EmailSummary>, p: Seq<int>) -> bool {
    &&& p.len() > 0
    &&& forall|k: int| 0 <= k < p.len() ==> 0 <= #[trigger] p[k] < ss.len()
    &&& forall|k: int, l: int|
        0 <= k && l == k + 1 && l < p.len() ==> linked(ss, #[trigger] p[k], #[trigger] p[l])
}

/// Two rows belong to one conversation: a chain of shared ids leads from one to
/// the other.
pub open spec fn same_thread(ss: Seq<EmailSummary>, i: int, j: int) -> bool {
    exists|p: Seq<int>| #[trigger] is_chain(ss, p) && p[0] == i && p.last() == j
}

/// One text comes before another in the order of their characters.
pub open spec fn text_before(a: Seq<char>, b: Seq<char>) -> bool
    decreases a.len(),
{
    if b.len() == 0 {
        false
    } else if a.len() == 0 {
        true
    } else if a[0] != b[0] {
        a[0] < b[0]
    } else {
        text_before(a.drop_first(), b.drop_first())
    }
}

/// A date comes before another; no date comes before every date.
pub open spec fn date_before(a: Option<Seq<char>>, b: Option<Seq<char>>) -> bool {
    match (a, b) {
        (_, None) => false,
        (None, Some(_)) => true,
        (Some(x), Some(y)) => text_before(x, y),
    }
}

/// The date of row `i`.
pub open spec fn row_date(ss: Seq<EmailSummary>, i: int) -> Option<Seq<char>> {
    opt_text(ss[i].date)
}

/// Row `i` is the newest of its thread; of several with the same date, the
/// first.
pub open spec fn represents(ss: Seq<EmailSummary>, i: int) -> bool {
    forall|j: int|
        #![trigger same_thread(ss, i, j)]
        0 <= j < ss.len() && same_thread(ss, i, j) ==> {
            ||| date_before(row_date(ss, j), row_date(ss, i))
            ||| !date_before(row_date(ss, i), row_date(ss, j)) && i <= j
        }
}

/// How many of the first `n` rows are in the thread of row `i`.
pub open spec fn thread_size(ss: Seq<EmailSummary>, i: int, n: nat) -> nat
    decreases n,
{
    if n == 0 {
        0
    } else {
        thread_size(ss, i, (n - 1) as nat) + if same_thread(ss, i, n - 1) {
            1nat
        } else {
            0nat
        }
    }
}

/// A row that stands for a thread of `n` messages.
pub open spec fn with_count(s: EmailSummary, n: nat) -> EmailSummary {
    EmailSummary { thread_message_count: Some(n as usize), ..s }
}

/// The rows that stand for the threads among the first `n` rows, in order.
pub open spec fn thread_rows(ss: Seq<EmailSummary>, n: nat) -> Seq<EmailSummary>
    decreases n,
{
    if n == 0 {
        Seq::empty()
    } else {
        let before = thread_rows(ss, (n - 1) as nat);
        if represents(ss, n - 1) {
            before.push(with_count(ss[n - 1], thread_size(ss, n - 1, ss.len())))
        } else {
            before
        }
    }
}

// ---------------------------------------------------------------------------
// Order of dates
// ---------------------------------------------------------------------------

pub proof fn lemma_text_order(a: Seq<char>, b: Seq<char>, c: Seq<char>)
    ensures
        !text_before(a, b) && text_before(a, c) ==> text_before(b, c),
    decreases a.len(),
{
    if a.len() > 0 && b.len() > 0 && c.len() > 0 {
        lemma_text_order(a.drop_first(), b.drop_first(), c.drop_first());
    }
}

proof fn lemma_text_asymmetric(a: Seq<char>, b: Seq<char>)
    ensures
        text_before(a, b) ==> !text_before(b, a),
    decreases a.len(),
{
    if a.len() > 0 && b.len() > 0 {
        lemma_text_asymmetric(a.drop_first(), b.drop_first());
    }
}

pub proof fn lemma_date_order(a: Option<Seq<char>>, b: Option<Seq<char>>, c: Option<Seq<char>>)
    ensures
        !date_before(a, b) && date_before(a, c) ==> date_before(b, c),
        date_before(a, b) ==> !date_before(b, a),
{
    if let (Some(x), Some(y), Some(z)) = (a, b, c) {
        lemma_text_order(x, y, z);
    }
    if let (Some(x), Some(y)) = (a, b) {
        lemma_text_asymmetric(x, y);
    }
}

/// One instant comes before another, by the fields of the calendar.
pub open spec fn civil_before(
    c: (i16, i8, i8, i8, i8, i8),
    d: (i16, i8, i8, i8, i8, i8),
) -> bool {
    c.0 < d.0 || c.0 == d.0 && (c.1 < d.1 || c.1 == d.1 && (c.2 < d.2 || c.2 == d.2 && (c.3 < d.3
        || c.3 == d.3 && (c.4 < d.4 || c.4 == d.4 && c.5 < d.5))))
}

/// Behind heads of one length, the tails decide where the heads are the same.
proof fn lemma_text_before_concat(a: Seq<char>, b: Seq<char>, x: Seq<char>, y: Seq<char>)
    requires
        a.len() == b.len(),
    ensures
        text_before(a + x, b + y) == (text_before(a, b) || a == b && text_before(x, y)),
        a + x == b + y <==> a == b && x == y,
    decreases a.len(),
{
    if a.len() == 0 {
        assert(a =~= b);
        assert(a + x =~= x);
        assert(b + y =~= y);
    } else {
        lemma_text_before_concat(a.drop_first(), b.drop_first(), x, y);
        assert((a + x).drop_first() =~= a.drop_first() + x);
        assert((b + y).drop_first() =~= b.drop_first() + y);
        if a[0] == b[0] && a.drop_first() == b.drop_first() {
            assert(a =~= seq![a[0]] + a.drop_first());
            assert(b =~= seq![b[0]] + b.drop_first());
        }
        if a + x == b + y {
            assert((a + x)[0] == a[0] && (b + y)[0] == b[0]);
        }
    }
}

proof fn lemma_text_before_itself(a: Seq<char>)
    ensures
        !text_before(a, a),
    decreases a.len(),
{
    if a.len() > 0 {
        lemma_text_before_itself(a.drop_first());
    }
}

proof fn lemma_two_places(n: nat)
    requires
        n < 100,
    ensures
        padded(n, 2) == seq![digit_char((n / 10) as int), digit_char((n % 10) as int)],
{
    reveal_with_fuel(decimal, 2);
    assert(padded(n, 2) =~= seq![digit_char((n / 10) as int), digit_char((n % 10) as int)]);
}

/// Two numbers of two places are in the order of their texts.
proof fn lemma_two_places_order(m: nat, n: nat)
    requires
        m < 100,
        n < 100,
    ensures
        padded(m, 2).len() == padded(n, 2).len() == 2,
        text_before(padded(m, 2), padded(n, 2)) == (m < n),
        padded(m, 2) == padded(n, 2) <==> m == n,
{
    lemma_two_places(m);
    lemma_two_places(n);
    reveal_with_fuel(text_before, 3);
    let a = padded(m, 2);
    let b = padded(n, 2);
    assert(a[0] == b[0] <==> m / 10 == n / 10);
    assert(a[1] == b[1] <==> m % 10 == n % 10);
    assert(a.drop_first()[0] == a[1]);
    assert(b.drop_first()[0] == b[1]);
    assert(m == (m / 10) * 10 + m % 10);
    assert(n == (n / 10) * 10 + n % 10);
}

/// Four places are two and two.
proof fn lemma_four_places(n: nat)
    requires
        n < 10000,
    ensures
        padded(n, 4) == padded(n / 100, 2) + padded(n % 100, 2),
{
    lemma_two_places(n / 100);
    lemma_two_places(n % 100);
    reveal_with_fuel(decimal, 4);
    assert(n / 100 / 10 == n / 10 / 10 / 10);
    assert((n / 100) % 10 == (n / 10 / 10) % 10);
    assert((n % 100) / 10 == (n / 10) % 10);
    assert((n % 100) % 10 == n % 10);
    assert(padded(n, 4) =~= seq![
        digit_char((n / 10 / 10 / 10) as int),
        digit_char(((n / 10 / 10) % 10) as int),
        digit_char(((n / 10) % 10) as int),
        digit_char((n % 10) as int),
    ]);
    assert(padded(n, 4) =~= padded(n / 100, 2) + padded(n % 100, 2));
}

/// Years are in the order of their texts, but for two before the year zero.
proof fn lemma_year_order(m: int, n: int)
    requires
        0 <= m <= 9999 && 0 <= n <= 9999 || m == n,
    ensures
        year_text(m).len() == year_text(n).len(),
        text_before(year_text(m), year_text(n)) == (m < n),
        year_text(m) == year_text(n) <==> m == n,
{
    if m == n {
        lemma_text_before_itself(year_text(m));
    } else {
        let a = m as nat;
        let b = n as nat;
        lemma_four_places(a);
        lemma_four_places(b);
        lemma_two_places_order(a / 100, b / 100);
        lemma_two_places_order(a % 100, b % 100);
        lemma_text_before_concat(
            padded(a / 100, 2),
            padded(b / 100, 2),
            padded(a % 100, 2),
            padded(b % 100, 2),
        );
    }
}

/// A year before zero begins with a sign, any other with a digit.
proof fn lemma_year_begins(n: int)
    requires
        -9999 <= n <= 9999,
    ensures
        year_text(n).len() > 0,
        n < 0 ==> year_text(n)[0] == '-',
        n >= 0 ==> '0' <= year_text(n)[0] <= '9',
{
    if n < 0 {
        reveal_strlit("-");
    } else {
        lemma_four_places(n as nat);
        lemma_two_places(n as nat / 100);
    }
}

/// One field more: where the heads decide as `early` and `same` say, the heads
/// with a separator and two places behind them decide as the field does.
proof fn lemma_next_field(
    a: Seq<char>,
    b: Seq<char>,
    sep: Seq<char>,
    m: nat,
    n: nat,
    early: bool,
    same: bool,
)
    requires
        a.len() == b.len(),
        text_before(a, b) == early,
        a == b <==> same,
        m < 100,
        n < 100,
    ensures
        (a + sep + padded(m, 2)).len() == (b + sep + padded(n, 2)).len(),
        text_before(a + sep + padded(m, 2), b + sep + padded(n, 2)) == (early || same && m < n),
        a + sep + padded(m, 2) == b + sep + padded(n, 2) <==> same && m == n,
{
    lemma_two_places_order(m, n);
    lemma_text_before_itself(sep);
    lemma_text_before_concat(a, b, sep, sep);
    lemma_text_before_concat(a + sep, b + sep, padded(m, 2), padded(n, 2));
}

/// Dates written in UTC are in the order of their texts: the earlier instant has
/// the earlier text. Two different years before the year zero are left out:
/// their digits count down.
pub proof fn earlier_dates_have_earlier_texts(
    c: (i16, i8, i8, i8, i8, i8),
    d: (i16, i8, i8, i8, i8, i8),
)
    requires
        civil_in_range(c),
        civil_in_range(d),
        c.0 >= 0 || d.0 >= 0 || c.0 == d.0,
    ensures
        text_before(utc_iso(c), utc_iso(d)) == civil_before(c, d),
{
    lemma_year_begins(c.0 as int);
    lemma_year_begins(d.0 as int);
    let y = year_text(c.0 as int);
    let z = year_text(d.0 as int);
    assert(utc_iso(c)[0] == y[0]);
    assert(utc_iso(d)[0] == z[0]);
    if c.0 >= 0 && d.0 >= 0 || c.0 == d.0 {
        lemma_year_order(c.0 as int, d.0 as int);
        let early = c.0 < d.0;
        let same = c.0 == d.0;
        lemma_next_field(y, z, "-"@, c.1 as nat, d.1 as nat, early, same);
        let y = y + "-"@ + padded(c.1 as nat, 2);
        let z = z + "-"@ + padded(d.1 as nat, 2);
        let early = early || same && c.1 < d.1;
        let same = same && c.1 == d.1;
        lemma_next_field(y, z, "-"@, c.2 as nat, d.2 as nat, early, same);
        let y = y + "-"@ + padded(c.2 as nat, 2);
        let z = z + "-"@ + padded(d.2 as nat, 2);
        let early = early || same && c.2 < d.2;
        let same = same && c.2 == d.2;
        lemma_next_field(y, z, "T"@, c.3 as nat, d.3 as nat, early, same);
        let y = y + "T"@ + padded(c.3 as nat, 2);
        let z = z + "T"@ + padded(d.3 as nat, 2);
        let early = early || same && c.3 < d.3;
        let same = same && c.3 == d.3;
        lemma_next_field(y, z, ":"@, c.4 as nat, d.4 as nat, early, same);
        let y = y + ":"@ + padded(c.4 as nat, 2);
        let z = z + ":"@ + padded(d.4 as nat, 2);
        let early = early || same && c.4 < d.4;
        let same = same && c.4 == d.4;
        lemma_next_field(y, z, ":"@, c.5 as nat, d.5 as nat, early, same);
        let y = y + ":"@ + padded(c.5 as nat, 2);
        let z = z + ":"@ + padded(d.5 as nat, 2);
        lemma_text_before_itself("Z"@);
        lemma_text_before_concat(y, z, "Z"@, "Z"@);
    }
}

/// Decides [`text_before`].
pub fn text_is_before(a: &str, b: &str) -> (yes: bool)
    ensures
        yes == text_before(a@, b@),
{
    let ac = chars_of(a);
    let bc = chars_of(b);
    let mut i: usize = 0;
    proof {
        assert(a@.skip(0) =~= a@);
        assert(b@.skip(0) =~= b@);
    }
    while i < ac.len() && i < bc.len()
        invariant
            ac@ == a@,
            bc@ == b@,
            i <= ac@.len(),
            i <= bc@.len(),
            text_before(a@, b@) == text_before(a@.skip(i as int), b@.skip(i as int)),
        decreases ac@.len() - i,
    {
        proof {
            assert(a@.skip(i as int).drop_first() =~= a@.skip(i as int + 1));
            assert(b@.skip(i as int).drop_first() =~= b@.skip(i as int + 1));
        }
        if ac[i] != bc[i] {
            return ac[i] < bc[i];
        }
        i += 1;
    }
    i < bc.len()
}

/// Decides [`date_before`].
pub fn date_is_before(a: &Option<String>, b: &Option<String>) -> (yes: bool)
    ensures
        yes == date_before(opt_text(*a), opt_text(*b)),
{
    match b {
        None => false,
        Some(y) => match a {
            None => true,
            Some(x) => text_is_before(x.as_str(), y.as_str()),
        },
    }
}

// ---------------------------------------------------------------------------
// Chains
// ---------------------------------------------------------------------------

proof fn lemma_linked_self(ss: Seq<EmailSummary>, i: int)
    requires
        0 <= i < ss.len(),
    ensures
        linked(ss, i, i),
        same_thread(ss, i, i),
{
    assert(thread_keys(ss[i])[0] == thread_keys(ss[i])[0]);
    let t = thread_keys(ss[i])[0];
    assert(has_key(ss, i, t));
    assert(is_chain(ss, seq![i]));
    assert(seq![i].last() == i);
}

proof fn lemma_join_chains(ss: Seq<EmailSummary>, i: int, j: int, k: int, l: int)
    requires
        same_thread(ss, i, j),
        linked(ss, j, k),
        same_thread(ss, k, l),
    ensures
        same_thread(ss, i, l),
{
    let p = choose|p: Seq<int>| #[trigger] is_chain(ss, p) && p[0] == i && p.last() == j;
    let q = choose|q: Seq<int>| #[trigger] is_chain(ss, q) && q[0] == k && q.last() == l;
    let r = p + q;
    assert forall|a: int, b: int| 0 <= a && b == a + 1 && b < r.len() implies linked(
        ss,
        #[trigger] r[a],
        #[trigger] r[b],
    ) by {
        if b < p.len() {
            assert(linked(ss, p[a], p[b]));
        } else if a >= p.len() {
            assert(linked(ss, q[a - p.len()], q[b - p.len()]));
        }
    }
    assert(is_chain(ss, r));
    assert(r[0] == i && r.last() == l);
}

/// Two ids are the same, or belong to rows of one thread.
spec fn keys_joined(ss: Seq<EmailSummary>, t: Seq<char>, u: Seq<char>) -> bool {
    t == u || exists|i: int, j: int|
        #[trigger] has_key(ss, i, t) && #[trigger] has_key(ss, j, u) && same_thread(ss, i, j)
}

proof fn lemma_keys_joined_trans(
    ss: Seq<EmailSummary>,
    t: Seq<char>,
    u: Seq<char>,
    v: Seq<char>,
)
    requires
        keys_joined(ss, t, u),
        keys_joined(ss, u, v),
    ensures
        keys_joined(ss, t, v),
{
    if t != u && u != v {
        let (i, j) = choose|i: int, j: int|
            #[trigger] has_key(ss, i, t) && #[trigger] has_key(ss, j, u) && same_thread(ss, i, j);
        let (k, l) = choose|k: int, l: int|
            #[trigger] has_key(ss, k, u) && #[trigger] has_key(ss, l, v) && same_thread(ss, k, l);
        assert(linked(ss, j, k));
        lemma_join_chains(ss, i, j, k, l);
    }
}

// ---------------------------------------------------------------------------
// Interned ids
// ---------------------------------------------------------------------------

/// The ids met so far, numbered, with the sets that they have been merged into.
struct KeyTable {
    ids: StringHashMap<usize>,
    sets: UnionFind,
    names: Ghost<Seq<Seq<char>>>,
}

impl KeyTable {
    spec fn valid(&self) -> bool {
        &&& self.sets.valid()
        &&& self.sets.roots().len() == self.names@.len()
        &&& forall|t: Seq<char>| #[trigger]
            self.ids@.contains_key(t) ==> self.ids@[t] < self.names@.len()
                && self.names@[self.ids@[t] as int] == t
        &&& forall|k: int|
            0 <= k < self.names@.len() ==> self.ids@.contains_key(#[trigger] self.names@[k])
                && self.ids@[self.names@[k]] == k
    }

    /// Merged ids belong to rows of one thread.
    spec fn sound(&self, ss: Seq<EmailSummary>) -> bool {
        forall|a: int, b: int|
            0 <= a < self.names@.len() && 0 <= b < self.names@.len() && self.sets.roots()[a]
                == self.sets.roots()[b] ==> keys_joined(
                ss,
                #[trigger] self.names@[a],
                #[trigger] self.names@[b],
            )
    }

    /// The root of an id.
    spec fn root_of(&self, t: Seq<char>) -> int {
        self.sets.roots()[self.ids@[t] as int]
    }

    fn intern(&mut self, key: &str) -> (id: usize)
        requires
            old(self).valid(),
        ensures
            final(self).valid(),
            id < final(self).names@.len(),
            final(self).names@[id as int] == key@,
            final(self).ids@.contains_key(key@),
            final(self).ids@[key@] == id,
            old(self).names@.is_prefix_of(final(self).names@),
            forall|t: Seq<char>|
                old(self).ids@.contains_key(t) ==> #[trigger] final(self).ids@.contains_key(t)
                    && final(self).ids@[t] == old(self).ids@[t] && final(self).root_of(t) == old(
                    self,
                ).root_of(t),
            forall|ss: Seq<EmailSummary>| old(self).sound(ss) ==> #[trigger] final(self).sound(ss),
    {
        if let Some(i) = self.ids.get(key) {
            return *i;
        }
        let ghost before = *self;
        let id = self.sets.grow();
        self.ids.insert(copy_of(key), id);
        proof {
            self.names@ = self.names@.push(key@);
            assert forall|ss: Seq<EmailSummary>| before.sound(ss) implies #[trigger] self.sound(
                ss,
            ) by {
                assert forall|a: int, b: int|
                    0 <= a < self.names@.len() && 0 <= b < self.names@.len()
                        && self.sets.roots()[a] == self.sets.roots()[b] implies keys_joined(
                    ss,
                    #[trigger] self.names@[a],
                    #[trigger] self.names@[b],
                ) by {
                    let n = before.names@.len();
                    if a < n && b < n {
                        assert(keys_joined(ss, before.names@[a], before.names@[b]));
                    } else if a < n {
                        before.sets.lemma_roots_in_range(a);
                    } else if b < n {
                        before.sets.lemma_roots_in_range(b);
                    }
                }
            }
        }
        id
    }

    /// Merges the sets of two ids of one row.
    fn merge(&mut self, a: usize, b: usize, Ghost(ss): Ghost<Seq<EmailSummary>>, Ghost(row): Ghost<
        int,
    >)
        requires
            old(self).valid(),
            old(self).sound(ss),
            a < old(self).names@.len(),
            b < old(self).names@.len(),
            has_key(ss, row, old(self).names@[a as int]),
            has_key(ss, row, old(self).names@[b as int]),
        ensures
            final(self).valid(),
            final(self).sound(ss),
            final(self).names@ == old(self).names@,
            final(self).ids@ == old(self).ids@,
            final(self).sets.roots() == merged_roots(old(self).sets.roots(), a as int, b as int),
            final(self).sets.roots()[a as int] == final(self).sets.roots()[b as int],
    {
        let ghost before = *self;
        self.sets.uf_union(a, b);
        proof {
            let roots = before.sets.roots();
            let x = self.names@[a as int];
            let y = self.names@[b as int];
            lemma_linked_self(ss, row);
            assert(keys_joined(ss, x, y));
            assert(keys_joined(ss, y, x));
            assert forall|p: int, q: int|
                0 <= p < self.names@.len() && 0 <= q < self.names@.len() && self.sets.roots()[p]
                    == self.sets.roots()[q] implies keys_joined(
                ss,
                #[trigger] self.names@[p],
                #[trigger] self.names@[q],
            ) by {
                let s = self.names@[p];
                let t = self.names@[q];
                assert(before.names@[p] == s && before.names@[q] == t);
                assert(before.names@[a as int] == x && before.names@[b as int] == y);
                if roots[p] == roots[q] {
                    assert(keys_joined(ss, s, t));
                } else if roots[p] == roots[a as int] && roots[q] == roots[b as int] {
                    lemma_keys_joined_trans(ss, s, x, y);
                    lemma_keys_joined_trans(ss, s, y, t);
                } else {
                    assert(roots[p] == roots[b as int] && roots[q] == roots[a as int]);
                    lemma_keys_joined_trans(ss, s, y, x);
                    lemma_keys_joined_trans(ss, s, x, t);
                }
            }
        }
    }
}

impl UnionFind {
    proof fn lemma_roots_in_range(&self, i: int)
        requires
            self.valid(),
            0 <= i < self.roots().len(),
        ensures
            0 <= self.roots()[i] < self.roots().len(),
    {
        assert(0 <= self.rep@[i] < self.parent@.len());
    }
}

// ---------------------------------------------------------------------------
// Grouping
// ---------------------------------------------------------------------------

impl KeyTable {
    /// All ids of each of the first `n` rows are in one set.
    spec fn complete(&self, ss: Seq<EmailSummary>, n: int) -> bool {
        forall|i: int, k: int|
            #![trigger thread_keys(ss[i])[k]]
            0 <= i < n && 0 <= k < thread_keys(ss[i]).len() ==> self.holds(
                thread_keys(ss[i])[k],
                thread_keys(ss[i])[0],
            )
    }

    /// Two ids are known and in one set.
    spec fn holds(&self, t: Seq<char>, u: Seq<char>) -> bool {
        self.ids@.contains_key(t) && self.ids@.contains_key(u) && self.root_of(t) == self.root_of(u)
    }

    /// Adds one more id of a row and merges it with the row's first id.
    fn add_key(
        &mut self,
        first: usize,
        key: &str,
        Ghost(ss): Ghost<Seq<EmailSummary>>,
        Ghost(row): Ghost<int>,
    )
        requires
            old(self).valid(),
            old(self).sound(ss),
            first < old(self).names@.len(),
            has_key(ss, row, old(self).names@[first as int]),
            has_key(ss, row, key@),
        ensures
            final(self).valid(),
            final(self).sound(ss),
            old(self).names@.is_prefix_of(final(self).names@),
            final(self).holds(key@, final(self).names@[first as int]),
            forall|t: Seq<char>, u: Seq<char>|
                old(self).holds(t, u) ==> #[trigger] final(self).holds(t, u),
    {
        let ghost before = *self;
        proof {
            assert(before.ids@.contains_key(before.names@[first as int]));
        }
        let id = self.intern(key);
        let ghost middle = *self;
        proof {
            let f = before.names@[first as int];
            assert(middle.ids@.contains_key(f));
            assert(middle.ids@[f] == first);
            assert(middle.names@[middle.ids@[f] as int] == f);
        }
        self.merge(first, id, Ghost(ss), Ghost(row));
        proof {
            assert forall|t: Seq<char>, u: Seq<char>| before.holds(t, u) implies #[trigger] self.holds(
                t,
                u,
            ) by {
                assert(middle.ids@.contains_key(t) && middle.ids@.contains_key(u));
                assert(middle.root_of(t) == middle.root_of(u));
                assert(middle.ids@[t] < middle.names@.len());
                assert(middle.ids@[u] < middle.names@.len());
            }
            assert(middle.ids@.contains_key(key@));
        }
    }
}

/// Merges the ids that a row refers to with its first id.
fn add_references(
    table: &mut KeyTable,
    first: usize,
    refs: &Vec<String>,
    Ghost(ss): Ghost<Seq<EmailSummary>>,
    Ghost(row): Ghost<int>,
)
    requires
        old(table).valid(),
        old(table).sound(ss),
        first < old(table).names@.len(),
        has_key(ss, row, old(table).names@[first as int]),
        forall|k: int| 0 <= k < refs@.len() ==> has_key(ss, row, #[trigger] texts(refs@)[k]),
    ensures
        final(table).valid(),
        final(table).sound(ss),
        old(table).names@.is_prefix_of(final(table).names@),
        forall|k: int|
            0 <= k < refs@.len() ==> final(table).holds(
                #[trigger] texts(refs@)[k],
                old(table).names@[first as int],
            ),
        forall|t: Seq<char>, u: Seq<char>|
            old(table).holds(t, u) ==> #[trigger] final(table).holds(t, u),
{
    let ghost start = *table;
    let ghost all = texts(refs@);
    let ghost f = table.names@[first as int];
    let mut j: usize = 0;
    while j < refs.len()
        invariant
            all == texts(refs@),
            j <= refs@.len(),
            table.valid(),
            table.sound(ss),
            start.names@.is_prefix_of(table.names@),
            first < start.names@.len(),
            start.names@[first as int] == f,
            has_key(ss, row, f),
            forall|k: int| 0 <= k < all.len() ==> has_key(ss, row, #[trigger] all[k]),
            forall|k: int| 0 <= k < j ==> table.holds(#[trigger] all[k], f),
            forall|t: Seq<char>, u: Seq<char>| start.holds(t, u) ==> #[trigger] table.holds(t, u),
        decreases refs@.len() - j,
    {
        let ghost before = *table;
        proof {
            assert(all[j as int] == refs@[j as int]@);
            assert(table.names@[first as int] == f);
        }
        table.add_key(first, refs[j].as_str(), Ghost(ss), Ghost(row));
        proof {
            assert forall|k: int| 0 <= k < j + 1 implies table.holds(#[trigger] all[k], f) by {
                if k < j {
                    assert(before.holds(all[k], f));
                }
            }
            assert forall|t: Seq<char>, u: Seq<char>| start.holds(t, u) implies #[trigger] table.holds(
                t,
                u,
            ) by {
                assert(before.holds(t, u));
            }
        }
        j += 1;
    }
}

/// The first id of a row.
fn first_key(row: &EmailSummary) -> (key: String)
    ensures
        key@ == thread_keys(*row)[0],
{
    match &row.message_id {
        Some(id) => copy_of(id.as_str()),
        None => {
            let mut t = copy_of("\0synthetic:");
            t.append(row.folder.as_str());
            t.append(":");
            let n = decimal_string(row.uid as u64);
            t.append(n.as_str());
            t
        },
    }
}

/// Interns the ids of one row and merges them.
fn add_row(table: &mut KeyTable, ss: &Vec<EmailSummary>, i: usize) -> (first: usize)
    requires
        old(table).valid(),
        old(table).sound(ss@),
        i < ss@.len(),
    ensures
        final(table).valid(),
        final(table).sound(ss@),
        old(table).names@.is_prefix_of(final(table).names@),
        first < final(table).names@.len(),
        final(table).names@[first as int] == thread_keys(ss@[i as int])[0],
        forall|k: int|
            0 <= k < thread_keys(ss@[i as int]).len() ==> final(table).holds(
                #[trigger] thread_keys(ss@[i as int])[k],
                thread_keys(ss@[i as int])[0],
            ),
        forall|t: Seq<char>, u: Seq<char>|
            old(table).holds(t, u) ==> #[trigger] final(table).holds(t, u),
{
    let row = &ss[i];
    let ghost start = *table;
    let ghost keys = thread_keys(ss@[i as int]);
    let key = first_key(row);
    let first = table.intern(key.as_str());
    let ghost interned = *table;
    proof {
        assert(has_key(ss@, i as int, keys[0]));
        assert forall|t: Seq<char>, u: Seq<char>| start.holds(t, u) implies #[trigger] interned.holds(
            t,
            u,
        ) by {
            assert(interned.ids@.contains_key(t) && interned.ids@.contains_key(u));
        }
        assert(interned.holds(keys[0], keys[0]));
    }
    if row.message_id.is_none() {
        return first;
    }
    let ghost refs = texts(row.references@);
    let ghost offset: int = if row.in_reply_to.is_some() {
        2
    } else {
        1
    };
    proof {
        assert(keys.len() == offset + refs.len());
        assert forall|k: int| 0 <= k < refs.len() implies has_key(
            ss@,
            i as int,
            #[trigger] refs[k],
        ) by {
            assert(keys[offset + k] == refs[k]);
        }
    }
    if let Some(parent) = &row.in_reply_to {
        proof {
            assert(keys[1] == parent@);
            assert(has_key(ss@, i as int, keys[1]));
        }
        table.add_key(first, parent.as_str(), Ghost(ss@), Ghost(i as int));
    }
    let ghost replied = *table;
    proof {
        assert(replied.names@[first as int] == keys[0]);
    }
    add_references(table, first, &row.references, Ghost(ss@), Ghost(i as int));
    proof {
        assert forall|k: int| 0 <= k < keys.len() implies table.holds(
            #[trigger] keys[k],
            keys[0],
        ) by {
            if k >= offset {
                assert(keys[k] == refs[k - offset]);
            } else {
                assert(replied.holds(keys[k], keys[0]));
            }
        }
        assert forall|t: Seq<char>, u: Seq<char>| start.holds(t, u) implies #[trigger] table.holds(
            t,
            u,
        ) by {
            assert(interned.holds(t, u));
            assert(replied.holds(t, u));
        }
    }
    first
}

/// Interns the ids of all rows and merges those of each row.
fn build_table(ss: &Vec<EmailSummary>) -> (r: (KeyTable, Vec<usize>))
    ensures
        r.0.valid(),
        r.0.sound(ss@),
        r.0.complete(ss@, ss@.len() as int),
        r.1@.len() == ss@.len(),
        forall|i: int|
            0 <= i < ss@.len() ==> (#[trigger] r.1@[i]) < r.0.names@.len()
                && r.0.names@[r.1@[i] as int] == thread_keys(ss@[i])[0],
{
    let mut table = KeyTable {
        ids: StringHashMap::new(),
        sets: UnionFind::new(),
        names: Ghost(Seq::empty()),
    };
    let mut firsts: Vec<usize> = Vec::new();
    let mut i: usize = 0;
    while i < ss.len()
        invariant
            i <= ss@.len(),
            table.valid(),
            table.sound(ss@),
            table.complete(ss@, i as int),
            firsts@.len() == i,
            forall|k: int|
                0 <= k < i ==> (#[trigger] firsts@[k]) < table.names@.len()
                    && table.names@[firsts@[k] as int] == thread_keys(ss@[k])[0],
        decreases ss@.len() - i,
    {
        let ghost start = table;
        let first = add_row(&mut table, ss, i);
        firsts.push(first);
        proof {
            assert forall|r: int, k: int|
                #![trigger thread_keys(ss@[r])[k]]
                0 <= r < i + 1 && 0 <= k < thread_keys(ss@[r]).len() implies table.holds(
                thread_keys(ss@[r])[k],
                thread_keys(ss@[r])[0],
            ) by {
                if r < i {
                    assert(start.holds(thread_keys(ss@[r])[k], thread_keys(ss@[r])[0]));
                }
            }
            assert forall|k: int| 0 <= k < i implies (#[trigger] firsts@[k]) < table.names@.len()
                && table.names@[firsts@[k] as int] == thread_keys(ss@[k])[0] by {
                assert(start.names@[firsts@[k] as int] == thread_keys(ss@[k])[0]);
            }
        }
        i += 1;
    }
    (table, firsts)
}

/// Rows whose first ids are in one set are rows of one thread, and only those.
proof fn lemma_roots_are_threads(table: KeyTable, ss: Seq<EmailSummary>, i: int, j: int)
    requires
        table.valid(),
        table.sound(ss),
        table.complete(ss, ss.len() as int),
        0 <= i < ss.len(),
        0 <= j < ss.len(),
    ensures
        (table.root_of(thread_keys(ss[i])[0]) == table.root_of(thread_keys(ss[j])[0]))
            == same_thread(ss, i, j),
{
    let t = thread_keys(ss[i])[0];
    let u = thread_keys(ss[j])[0];
    assert(table.holds(t, t) && table.holds(u, u));
    assert(has_key(ss, i, t) && has_key(ss, j, u));
    lemma_linked_self(ss, i);
    lemma_linked_self(ss, j);
    if table.root_of(t) == table.root_of(u) {
        let a = table.ids@[t] as int;
        let b = table.ids@[u] as int;
        assert(table.names@[a] == t && table.names@[b] == u);
        assert(keys_joined(ss, t, u));
        if t == u {
            assert(linked(ss, i, j));
            lemma_join_chains(ss, i, i, j, j);
        } else {
            let (k, l) = choose|k: int, l: int|
                #[trigger] has_key(ss, k, t) && #[trigger] has_key(ss, l, u) && same_thread(
                    ss,
                    k,
                    l,
                );
            assert(linked(ss, i, k));
            assert(linked(ss, l, j));
            lemma_join_chains(ss, i, i, k, l);
            lemma_join_chains(ss, i, l, j, j);
        }
    }
    if same_thread(ss, i, j) {
        let p = choose|p: Seq<int>| #[trigger] is_chain(ss, p) && p[0] == i && p.last() == j;
        lemma_chain_root(table, ss, p, p.len() - 1);
    }
}

proof fn lemma_chain_root(table: KeyTable, ss: Seq<EmailSummary>, p: Seq<int>, k: int)
    requires
        table.complete(ss, ss.len() as int),
        is_chain(ss, p),
        0 <= k < p.len(),
    ensures
        table.root_of(thread_keys(ss[p[0]])[0]) == table.root_of(thread_keys(ss[p[k]])[0]),
    decreases k,
{
    if k > 0 {
        lemma_chain_root(table, ss, p, k - 1);
        let a = p[k - 1];
        let b = p[k];
        assert(linked(ss, a, b));
        let t = choose|t: Seq<char>| has_key(ss, a, t) && #[trigger] has_key(ss, b, t);
        let x = choose|x: int|
            0 <= x < thread_keys(ss[a]).len() && thread_keys(ss[a])[x] == t;
        let y = choose|y: int|
            0 <= y < thread_keys(ss[b]).len() && thread_keys(ss[b])[y] == t;
        assert(table.holds(thread_keys(ss[a])[x], thread_keys(ss[a])[0]));
        assert(table.holds(thread_keys(ss[b])[y], thread_keys(ss[b])[0]));
    }
}

/// How many of the first `n` roots are `r`.
spec fn root_count(roots: Seq<usize>, r: int, n: nat) -> nat
    decreases n,
{
    if n == 0 {
        0
    } else {
        root_count(roots, r, (n - 1) as nat) + if roots[n - 1] == r {
            1nat
        } else {
            0nat
        }
    }
}

/// `b` is the first of the newest among the first `n` rows with root `r`.
spec fn is_best(ss: Seq<EmailSummary>, roots: Seq<usize>, r: int, n: int, b: Option<usize>) -> bool {
    match b {
        None => forall|j: int| 0 <= j < n ==> #[trigger] roots[j] != r,
        Some(i) => {
            &&& i < n
            &&& roots[i as int] == r
            &&& forall|j: int|
                0 <= j < n && #[trigger] roots[j] == r ==> {
                    ||| date_before(row_date(ss, j), row_date(ss, i as int))
                    ||| !date_before(row_date(ss, i as int), row_date(ss, j)) && i <= j
                }
        },
    }
}

/// Adding row `n` to the rows among which the best is sought.
proof fn lemma_best_step(
    ss: Seq<EmailSummary>,
    roots: Seq<usize>,
    r: int,
    n: int,
    b: Option<usize>,
    next: Option<usize>,
)
    requires
        0 <= n < roots.len(),
        n <= usize::MAX,
        is_best(ss, roots, r, n, b),
        next == if roots[n] != r {
            b
        } else {
            match b {
                None => Some(n as usize),
                Some(i) => if date_before(row_date(ss, i as int), row_date(ss, n)) {
                    Some(n as usize)
                } else {
                    b
                },
            }
        },
    ensures
        is_best(ss, roots, r, n + 1, next),
{
    if roots[n] == r {
        lemma_date_order(row_date(ss, n), row_date(ss, n), row_date(ss, n));
        if let Some(i) = b {
            if date_before(row_date(ss, i as int), row_date(ss, n)) {
                assert forall|j: int| 0 <= j < n + 1 && #[trigger] roots[j] == r implies {
                    ||| date_before(row_date(ss, j), row_date(ss, n))
                    ||| !date_before(row_date(ss, n), row_date(ss, j)) && n <= j
                } by {
                    if j < n {
                        lemma_date_order(row_date(ss, i as int), row_date(ss, j), row_date(ss, n));
                        lemma_date_order(row_date(ss, j), row_date(ss, i as int), row_date(ss, n));
                    }
                }
            }
        }
    }
}

/// The size of a thread is the number of rows with its root.
proof fn lemma_thread_size(ss: Seq<EmailSummary>, roots: Seq<usize>, i: int, n: nat)
    requires
        0 <= i < ss.len(),
        n <= ss.len(),
        roots.len() == ss.len(),
        forall|j: int|
            0 <= j < ss.len() ==> (roots[i] == #[trigger] roots[j]) == same_thread(ss, i, j),
    ensures
        thread_size(ss, i, n) == root_count(roots, roots[i] as int, n),
    decreases n,
{
    if n > 0 {
        lemma_thread_size(ss, roots, i, (n - 1) as nat);
        assert((roots[i] == roots[n - 1]) == same_thread(ss, i, n - 1));
    }
}

/// Collapses a listing into one row per conversation: the newest message of
/// each, in the order of the listing, with the number of messages that it
/// stands for.
///
/// Two messages belong to one conversation when a chain of shared ids
/// (Message-ID, In-Reply-To, References) leads from one to the other. A message
/// without a Message-ID gets one of its own, so none is dropped.
pub fn group_summaries_by_thread(summaries: Vec<EmailSummary>) -> (out: Vec<EmailSummary>)
    ensures
        summaries@.len() < 2 ==> out@.len() == summaries@.len(),
        summaries@.len() == 1 ==> out@[0] == with_count(
            summaries@[0],
            match summaries@[0].thread_message_count {
                Some(n) => n as nat,
                None => 1,
            },
        ),
        summaries@.len() >= 2 ==> out@ == thread_rows(summaries@, summaries@.len()),
{
    let mut summaries = summaries;
    let n: usize = summaries.len();
    if n < 2 {
        let mut out: Vec<EmailSummary> = Vec::new();
        if n == 1 {
            let mut only = summaries.swap_remove(0);
            if only.thread_message_count.is_none() {
                only.thread_message_count = Some(1);
            }
            out.push(only);
        }
        return out;
    }
    let ghost ss = summaries@;
    let (mut table, firsts) = build_table(&summaries);
    let ids: usize = firsts_bound(&table);
    let ghost start = table;
    let mut roots: Vec<usize> = Vec::new();
    let mut best: Vec<Option<usize>> = Vec::new();
    let mut count: Vec<usize> = Vec::new();
    let mut k: usize = 0;
    while k < ids
        invariant
            k <= ids,
            best@.len() == k,
            count@.len() == k,
            forall|r: int| 0 <= r < k ==> #[trigger] best@[r] == None::<usize>,
            forall|r: int| 0 <= r < k ==> #[trigger] count@[r] == 0,
        decreases ids - k,
    {
        best.push(None);
        count.push(0);
        k += 1;
    }
    let mut i: usize = 0;
    while i < n
        invariant
            n == ss.len(),
            summaries@ == ss,
            i <= n,
            roots@.len() == i,
            firsts@.len() == n,
            table.valid(),
            start.valid(),
            table.names@ == start.names@,
            table.ids@ == start.ids@,
            table.sets.roots() == start.sets.roots(),
            ids == start.names@.len(),
            best@.len() == ids,
            count@.len() == ids,
            forall|j: int|
                0 <= j < n ==> (#[trigger] firsts@[j]) < start.names@.len()
                    && start.names@[firsts@[j] as int] == thread_keys(ss[j])[0],
            forall|j: int|
                0 <= j < i ==> #[trigger] roots@[j] == start.root_of(thread_keys(ss[j])[0])
                    && roots@[j] < ids,
            forall|r: int|
                0 <= r < ids ==> #[trigger] count@[r] == root_count(roots@, r, i as nat) && count@[r]
                    <= i,
            forall|r: int|
                0 <= r < ids ==> is_best(ss, roots@, r, i as int, #[trigger] best@[r]),
        decreases n - i,
    {
        let ghost roots_before = roots@;
        let ghost best_before = best@;
        let ghost count_before = count@;
        let root = table.sets.uf_find(firsts[i]);
        proof {
            start.sets.lemma_roots_in_range(firsts@[i as int] as int);
            assert(start.ids@[start.names@[firsts@[i as int] as int]] == firsts@[i as int]);
        }
        roots.push(root);
        let c: usize = count[root];
        count.set(root, c + 1);
        let newer = match best[root] {
            None => true,
            Some(b) => date_is_before(&summaries[b].date, &summaries[i].date),
        };
        if newer {
            best.set(root, Some(i));
        }
        proof {
            assert forall|r: int| 0 <= r < ids implies #[trigger] count@[r] == root_count(
                roots@,
                r,
                (i + 1) as nat,
            ) && count@[r] <= i + 1 by {
                assert(count_before[r] == root_count(roots_before, r, i as nat));
                lemma_root_count_prefix(roots_before, root, r, i as nat);
            }
            assert forall|r: int| 0 <= r < ids implies is_best(
                ss,
                roots@,
                r,
                i + 1,
                #[trigger] best@[r],
            ) by {
                assert(is_best(ss, roots_before, r, i as int, best_before[r]));
                assert(is_best(ss, roots@, r, i as int, best_before[r])) by {
                    assert forall|j: int| 0 <= j < i implies #[trigger] roots@[j]
                        == roots_before[j] by {}
                }
                lemma_best_step(ss, roots@, r, i as int, best_before[r], best@[r]);
            }
        }
        i += 1;
    }
    let mut out: Vec<EmailSummary> = Vec::new();
    let mut at: usize = 0;
    for s in it: summaries.into_iter()
        invariant
            it.seq() == ss,
            n == ss.len(),
            at == it.index(),
            roots@.len() == n,
            best@.len() == ids,
            count@.len() == ids,
            ids == start.names@.len(),
            start.valid(),
            start.sound(ss),
            start.complete(ss, ss.len() as int),
            forall|j: int|
                0 <= j < n ==> #[trigger] roots@[j] == start.root_of(thread_keys(ss[j])[0])
                    && roots@[j] < ids,
            forall|r: int|
                0 <= r < ids ==> #[trigger] count@[r] == root_count(roots@, r, n as nat),
            forall|r: int|
                0 <= r < ids ==> is_best(ss, roots@, r, n as int, #[trigger] best@[r]),
            out@ == thread_rows(ss, at as nat),
    {
        let root: usize = roots[at];
        let chosen = match best[root] {
            Some(b) => b == at,
            None => false,
        };
        proof {
            let a = at as int;
            assert forall|j: int| 0 <= j < ss.len() implies (roots@[a] == #[trigger] roots@[j])
                == same_thread(ss, a, j) by {
                lemma_roots_are_threads(start, ss, a, j);
            }
            lemma_thread_size(ss, roots@, a, n as nat);
            assert(is_best(ss, roots@, root as int, n as int, best@[root as int]));
            assert(roots@[a] == root);
            let b = best@[root as int]->0 as int;
            if chosen {
                assert forall|j: int|
                    #![trigger same_thread(ss, a, j)]
                    0 <= j < ss.len() && same_thread(ss, a, j) implies {
                    ||| date_before(row_date(ss, j), row_date(ss, a))
                    ||| !date_before(row_date(ss, a), row_date(ss, j)) && a <= j
                } by {
                    assert(roots@[j] == root);
                }
                assert(represents(ss, a));
            } else if represents(ss, a) {
                assert(roots@[b] == root);
                assert(same_thread(ss, a, b));
                lemma_date_order(row_date(ss, a), row_date(ss, b), row_date(ss, b));
                assert(false);
            }
        }
        if chosen {
            let mut row = s;
            row.thread_message_count = Some(count[root]);
            out.push(row);
        }
        at += 1;
    }
    out
}

/// The number of ids in a table.
fn firsts_bound(table: &KeyTable) -> (n: usize)
    requires
        table.valid(),
    ensures
        n == table.names@.len(),
{
    table.sets.size()
}

impl UnionFind {
    /// The number of nodes.
    pub fn size(&self) -> (n: usize)
        requires
            self.valid(),
        ensures
            n == self.roots().len(),
    {
        self.parent.len()
    }
}

proof fn lemma_root_count_prefix(roots: Seq<usize>, last: usize, r: int, n: nat)
    requires
        n <= roots.len(),
    ensures
        root_count(roots.push(last), r, n) == root_count(roots, r, n),
    decreases n,
{
    if n > 0 {
        lemma_root_count_prefix(roots, last, r, (n - 1) as nat);
    }
}

// ---------------------------------------------------------------------------
// Laws
// ---------------------------------------------------------------------------

/// To be in one thread is an equivalence.
pub proof fn same_thread_is_equivalence(ss: Seq<EmailSummary>, i: int, j: int, k: int)
    ensures
        0 <= i < ss.len() ==> same_thread(ss, i, i),
        same_thread(ss, i, j) ==> same_thread(ss, j, i),
        same_thread(ss, i, j) && same_thread(ss, j, k) ==> same_thread(ss, i, k),
{
    if 0 <= i < ss.len() {
        lemma_linked_self(ss, i);
    }
    if same_thread(ss, i, j) {
        let p = choose|p: Seq<int>| #[trigger] is_chain(ss, p) && p[0] == i && p.last() == j;
        let q = p.reverse();
        assert forall|a: int, b: int| 0 <= a && b == a + 1 && b < q.len() implies linked(
            ss,
            #[trigger] q[a],
            #[trigger] q[b],
        ) by {
            let x = p.len() - 1 - b;
            let y = p.len() - 1 - a;
            assert(linked(ss, p[x], p[y]));
            let t = choose|t: Seq<char>| has_key(ss, p[x], t) && #[trigger] has_key(ss, p[y], t);
            assert(has_key(ss, q[a], t) && has_key(ss, q[b], t));
        }
        assert(is_chain(ss, q));
        assert(q[0] == j && q.last() == i);
        if same_thread(ss, j, k) {
            assert(0 <= p.last() < ss.len());
            lemma_linked_self(ss, j);
            lemma_join_chains(ss, i, j, j, k);
        }
    }
}

/// Of the rows of a thread only one stands for it.
pub proof fn one_row_per_thread(ss: Seq<EmailSummary>, i: int, j: int)
    requires
        0 <= i < ss.len(),
        0 <= j < ss.len(),
        represents(ss, i),
        represents(ss, j),
        same_thread(ss, i, j),
    ensures
        i == j,
{
    same_thread_is_equivalence(ss, i, j, j);
    lemma_date_order(row_date(ss, i), row_date(ss, j), row_date(ss, j));
    lemma_date_order(row_date(ss, j), row_date(ss, i), row_date(ss, i));
}

/// No message is dropped without a trace: every row is in a thread that some
/// row stands for.
pub proof fn every_row_is_represented(ss: Seq<EmailSummary>, j: int) -> (i: int)
    requires
        0 <= j < ss.len(),
    ensures
        0 <= i < ss.len(),
        represents(ss, i),
        same_thread(ss, i, j),
{
    same_thread_is_equivalence(ss, j, j, j);
    let i = best_below(ss, j, ss.len() as int);
    assert(i >= 0) by {
        assert(same_thread(ss, j, j));
    }
    same_thread_is_equivalence(ss, j, i, j);
    assert forall|k: int|
        #![trigger same_thread(ss, i, k)]
        0 <= k < ss.len() && same_thread(ss, i, k) implies {
        ||| date_before(row_date(ss, k), row_date(ss, i))
        ||| !date_before(row_date(ss, i), row_date(ss, k)) && i <= k
    } by {
        same_thread_is_equivalence(ss, j, i, k);
    }
    i
}

/// The best of the rows below `n` in the thread of row `j`; negative where
/// there is none.
proof fn best_below(ss: Seq<EmailSummary>, j: int, n: int) -> (i: int)
    requires
        0 <= n <= ss.len(),
    ensures
        i < 0 ==> forall|k: int| 0 <= k < n ==> !#[trigger] same_thread(ss, j, k),
        i >= 0 ==> i < n && same_thread(ss, j, i) && forall|k: int|
            0 <= k < n && #[trigger] same_thread(ss, j, k) ==> {
                ||| date_before(row_date(ss, k), row_date(ss, i))
                ||| !date_before(row_date(ss, i), row_date(ss, k)) && i <= k
            },
    decreases n,
{
    if n == 0 {
        -1
    } else {
        let i = best_below(ss, j, n - 1);
        let last = n - 1;
        if !same_thread(ss, j, last) {
            i
        } else if i < 0 {
            lemma_date_order(row_date(ss, last), row_date(ss, last), row_date(ss, last));
            last
        } else if date_before(row_date(ss, i), row_date(ss, last)) {
            lemma_date_order(row_date(ss, last), row_date(ss, last), row_date(ss, last));
            assert forall|k: int| 0 <= k < n && #[trigger] same_thread(ss, j, k) implies {
                ||| date_before(row_date(ss, k), row_date(ss, last))
                ||| !date_before(row_date(ss, last), row_date(ss, k)) && last <= k
            } by {
                if k < last {
                    lemma_date_order(row_date(ss, i), row_date(ss, k), row_date(ss, last));
                    lemma_date_order(row_date(ss, k), row_date(ss, i), row_date(ss, last));
                }
            }
            last
        } else {
            i
        }
    }
}

/// The number of messages that rows stand for.
pub open spec fn messages_told(rows: Seq<EmailSummary>) -> nat
    decreases rows.len(),
{
    if rows.len() == 0 {
        0
    } else {
        messages_told(rows.drop_last()) + match rows.last().thread_message_count {
            Some(n) => n as nat,
            None => 0,
        }
    }
}

/// The sizes, counted among the first `m` rows, of the threads that the first `k`
/// rows stand for.
spec fn sizes(ss: Seq<EmailSummary>, k: nat, m: nat) -> nat
    decreases k,
{
    if k == 0 {
        0
    } else {
        sizes(ss, (k - 1) as nat, m) + if represents(ss, k - 1) {
            thread_size(ss, k - 1, m)
        } else {
            0nat
        }
    }
}

proof fn lemma_size_step(ss: Seq<EmailSummary>, k: nat, m: nat, r: int)
    requires
        0 < m <= ss.len(),
        k <= ss.len(),
        0 <= r < ss.len(),
        represents(ss, r),
        same_thread(ss, r, m - 1),
    ensures
        sizes(ss, k, m) == sizes(ss, k, (m - 1) as nat) + if r < k {
            1nat
        } else {
            0nat
        },
    decreases k,
{
    if k > 0 {
        lemma_size_step(ss, (k - 1) as nat, m, r);
        let i = k - 1;
        if represents(ss, i) && same_thread(ss, i, m - 1) {
            same_thread_is_equivalence(ss, r, m - 1, i);
            same_thread_is_equivalence(ss, i, m - 1, r);
            one_row_per_thread(ss, i, r);
        }
    }
}

proof fn lemma_sizes(ss: Seq<EmailSummary>, m: nat)
    requires
        m <= ss.len(),
    ensures
        sizes(ss, ss.len(), m) == m,
    decreases m,
{
    if m > 0 {
        lemma_sizes(ss, (m - 1) as nat);
        let r = every_row_is_represented(ss, m - 1);
        lemma_size_step(ss, ss.len(), m, r);
    } else {
        lemma_no_sizes(ss, ss.len());
    }
}

proof fn lemma_no_sizes(ss: Seq<EmailSummary>, k: nat)
    ensures
        sizes(ss, k, 0) == 0,
    decreases k,
{
    if k > 0 {
        lemma_no_sizes(ss, (k - 1) as nat);
    }
}

proof fn lemma_size_bound(ss: Seq<EmailSummary>, i: int, n: nat)
    ensures
        thread_size(ss, i, n) <= n,
    decreases n,
{
    if n > 0 {
        lemma_size_bound(ss, i, (n - 1) as nat);
    }
}

proof fn lemma_told(ss: Seq<EmailSummary>, k: nat)
    requires
        k <= ss.len() <= usize::MAX,
    ensures
        messages_told(thread_rows(ss, k)) == sizes(ss, k, ss.len()),
    decreases k,
{
    if k > 0 {
        lemma_told(ss, (k - 1) as nat);
        lemma_size_bound(ss, k - 1, ss.len());
        let before = thread_rows(ss, (k - 1) as nat);
        if represents(ss, k - 1) {
            let row = with_count(ss[k - 1], thread_size(ss, k - 1, ss.len()));
            assert(before.push(row).drop_last() =~= before);
        }
    }
}

/// Every message is counted exactly once: the counts of the rows add up to the
/// number of messages that were collapsed.
pub proof fn every_message_is_counted_once(ss: Seq<EmailSummary>)
    requires
        ss.len() <= usize::MAX,
    ensures
        messages_told(thread_rows(ss, ss.len())) == ss.len(),
{
    lemma_told(ss, ss.len());
    lemma_sizes(ss, ss.len());
}

proof fn lemma_decimal_digits(n: nat)
    ensures
        decimal(n).len() > 0,
        decimal(n).len() == 1 <==> n < 10,
        forall|k: int| 0 <= k < decimal(n).len() ==> #[trigger] decimal(n)[k] != ':',
    decreases n,
{
    let t = decimal(n);
    if n >= 10 {
        lemma_decimal_digits(n / 10);
    }
    assert forall|k: int| 0 <= k < t.len() implies #[trigger] t[k] != ':' by {
        if k < t.len() - 1 {
            assert(t[k] == decimal(n / 10)[k]);
        } else {
            let d = if n < 10 {
                n as int
            } else {
                (n % 10) as int
            };
            assert(t[k] == digit_char(d));
            assert(0 <= d < 10);
        }
    }
}

proof fn lemma_decimal_differs(m: nat, n: nat)
    requires
        decimal(m) == decimal(n),
    ensures
        m == n,
    decreases m,
{
    lemma_decimal_digits(m);
    lemma_decimal_digits(n);
    assert(decimal(m).last() == decimal(n).last());
    if m < 10 {
        assert(decimal(m)[0] == digit_char(m as int) && decimal(n)[0] == digit_char(n as int));
    } else {
        assert(decimal(m).drop_last() =~= decimal(m / 10));
        assert(decimal(n).drop_last() =~= decimal(n / 10));
        lemma_decimal_differs(m / 10, n / 10);
        assert(decimal(m).last() == digit_char((m % 10) as int));
        assert(decimal(n).last() == digit_char((n % 10) as int));
    }
}

proof fn lemma_synthetic_keys_differ(a: EmailSummary, b: EmailSummary)
    requires
        synthetic_key(a) == synthetic_key(b),
    ensures
        a.folder@ == b.folder@,
        a.uid == b.uid,
{
    reveal_strlit("\0synthetic:");
    reveal_strlit(":");
    let x = synthetic_key(a);
    let f = a.folder@;
    let g = b.folder@;
    let d = decimal(a.uid as nat);
    let e = decimal(b.uid as nat);
    lemma_decimal_digits(a.uid as nat);
    lemma_decimal_digits(b.uid as nat);
    let p = x.len() - d.len() - 1;
    let q = x.len() - e.len() - 1;
    assert(synthetic_key(a)[p] == ':');
    assert(synthetic_key(b)[q] == ':');
    if d.len() < e.len() {
        assert(synthetic_key(b)[p] == e[p - q - 1]);
    } else if e.len() < d.len() {
        assert(synthetic_key(a)[q] == d[q - p - 1]);
    }
    let n = "\0synthetic:"@.len() as int;
    assert(f =~= x.subrange(n, p));
    assert(g =~= x.subrange(n, q));
    assert(d =~= x.skip(p + 1));
    assert(e =~= x.skip(q + 1));
    lemma_decimal_differs(a.uid as nat, b.uid as nat);
}

/// An id that holds no null character, as no id of a message that was read does.
pub open spec fn is_plain_id(t: Seq<char>) -> bool {
    !t.contains('\0')
}

/// The ids of a row hold no null character.
pub open spec fn has_plain_ids(s: EmailSummary) -> bool {
    &&& opt_text(s.message_id) matches Some(t) ==> is_plain_id(t)
    &&& opt_text(s.in_reply_to) matches Some(t) ==> is_plain_id(t)
    &&& forall|k: int| 0 <= k < s.references@.len() ==> is_plain_id(texts(s.references@)[k])
}

proof fn lemma_synthetic_key_is_own(a: EmailSummary, b: EmailSummary)
    requires
        has_plain_ids(b),
        a.folder@ != b.folder@ || a.uid != b.uid,
    ensures
        !thread_keys(b).contains(synthetic_key(a)),
{
    reveal_strlit("\0synthetic:");
    let key = synthetic_key(a);
    assert(key[0] == '\0');
    assert(key.contains('\0'));
    if thread_keys(b).contains(key) {
        let keys = thread_keys(b);
        let k = choose|k: int| 0 <= k < keys.len() && keys[k] == key;
        match opt_text(b.message_id) {
            Some(_) => {
                let offset: int = if b.in_reply_to is Some {
                    2
                } else {
                    1
                };
                if k >= offset {
                    assert(keys[k] == texts(b.references@)[k - offset]);
                }
            },
            None => {
                lemma_synthetic_keys_differ(a, b);
            },
        }
    }
}

/// A row without a Message-ID is a thread of its own, whatever it replies or
/// refers to.
pub proof fn rows_without_an_id_stay_alone(ss: Seq<EmailSummary>, i: int, j: int)
    requires
        0 <= i < ss.len(),
        ss[i].message_id is None,
        forall|k: int| 0 <= k < ss.len() ==> has_plain_ids(#[trigger] ss[k]),
        forall|k: int|
            0 <= k < ss.len() && k != i ==> (#[trigger] ss[k]).folder@ != ss[i].folder@ || ss[k].uid
                != ss[i].uid,
        same_thread(ss, i, j),
    ensures
        i == j,
{
    let p = choose|p: Seq<int>| #[trigger] is_chain(ss, p) && p[0] == i && p.last() == j;
    lemma_lonely_chain(ss, p, i, p.len() - 1);
}

proof fn lemma_lonely_chain(ss: Seq<EmailSummary>, p: Seq<int>, i: int, n: int)
    requires
        is_chain(ss, p),
        p[0] == i,
        0 <= n < p.len(),
        0 <= i < ss.len(),
        ss[i].message_id is None,
        forall|k: int| 0 <= k < ss.len() ==> has_plain_ids(#[trigger] ss[k]),
        forall|k: int|
            0 <= k < ss.len() && k != i ==> (#[trigger] ss[k]).folder@ != ss[i].folder@ || ss[k].uid
                != ss[i].uid,
    ensures
        p[n] == i,
    decreases n,
{
    if n > 0 {
        lemma_lonely_chain(ss, p, i, n - 1);
        let a = p[n - 1];
        let b = p[n];
        assert(linked(ss, a, b));
        let t = choose|t: Seq<char>| has_key(ss, a, t) && #[trigger] has_key(ss, b, t);
        assert(t == synthetic_key(ss[i]));
        if b != i {
            lemma_synthetic_key_is_own(ss[i], ss[b]);
        }
    }
}

/// A row names an id: as its own, as the one that it replies to, or as one that
/// it refers to.
pub open spec fn names_id(s: EmailSummary, id: Seq<char>) -> bool {
    ||| s.message_id matches Some(own) && own@ == id
    ||| s.in_reply_to matches Some(parent) && parent@ == id
    ||| exists|k: int| 0 <= k < s.references@.len() && (#[trigger] s.references@[k])@ == id
}

proof fn lemma_named_ids_are_keys(ss: Seq<EmailSummary>, i: int, id: Seq<char>)
    requires
        0 <= i < ss.len(),
        ss[i].message_id is Some,
    ensures
        has_key(ss, i, id) <==> names_id(ss[i], id),
{
    let s = ss[i];
    let keys = thread_keys(s);
    let refs = texts(s.references@);
    let offset: int = if s.in_reply_to is Some {
        2
    } else {
        1
    };
    assert(keys.len() == offset + refs.len());
    assert(keys[0] == s.message_id->0@);
    if s.in_reply_to is Some {
        assert(keys[1] == s.in_reply_to->0@);
    }
    assert forall|k: int| 0 <= k < refs.len() implies #[trigger] refs[k] == keys[offset + k] && refs[k]
        == s.references@[k]@ by {}
    if names_id(s, id) {
        if s.message_id->0@ == id {
            assert(keys.contains(id));
        } else if s.in_reply_to is Some && s.in_reply_to->0@ == id {
            assert(keys.contains(id));
        } else {
            let k = choose|k: int| 0 <= k < s.references@.len() && (#[trigger] s.references@[k])@ == id;
            assert(refs[k] == id);
            assert(keys[offset + k] == id);
        }
    }
    if has_key(ss, i, id) {
        let k = choose|k: int| 0 <= k < keys.len() && keys[k] == id;
        if k >= offset {
            assert(refs[k - offset] == id);
            assert(s.references@[k - offset]@ == id);
        }
    }
}

proof fn lemma_row_of(ss: Seq<EmailSummary>, r: int, n: nat)
    requires
        0 <= r < n <= ss.len(),
        represents(ss, r),
    ensures
        thread_rows(ss, n).contains(with_count(ss[r], thread_size(ss, r, ss.len()))),
    decreases n,
{
    let row = with_count(ss[r], thread_size(ss, r, ss.len()));
    let rows = thread_rows(ss, n);
    if r == n - 1 {
        assert(rows.last() == row);
    } else {
        lemma_row_of(ss, r, (n - 1) as nat);
        let before = thread_rows(ss, (n - 1) as nat);
        let k = choose|k: int| 0 <= k < before.len() && before[k] == row;
        assert(rows[k] == row);
    }
}

proof fn lemma_size_covers(ss: Seq<EmailSummary>, r: int, i: int, j: int, n: nat)
    requires
        0 <= i < n <= ss.len(),
        0 <= j < n,
        same_thread(ss, r, i),
        same_thread(ss, r, j),
    ensures
        thread_size(ss, r, n) >= if i == j {
            1nat
        } else {
            2nat
        },
    decreases n,
{
    let m = (n - 1) as nat;
    if i < m && j < m {
        lemma_size_covers(ss, r, i, j, m);
    } else if i < m {
        lemma_size_covers(ss, r, i, i, m);
    } else if j < m {
        lemma_size_covers(ss, r, j, j, m);
    }
}

/// Two messages with ids that name one id belong together, whether the id is
/// one's own, the one that is replied to or one that is referred to: they are in
/// one thread, and the rows that come out hold one row for both. It is one of the
/// rows of the thread, no row of the thread has a later date, and its count
/// covers both messages.
pub proof fn messages_that_name_one_id_are_joined(
    ss: Seq<EmailSummary>,
    i: int,
    j: int,
    id: Seq<char>,
) -> (r: int)
    requires
        0 <= i < ss.len() <= usize::MAX,
        0 <= j < ss.len(),
        ss[i].message_id is Some,
        ss[j].message_id is Some,
        names_id(ss[i], id),
        names_id(ss[j], id),
    ensures
        same_thread(ss, i, j),
        0 <= r < ss.len(),
        same_thread(ss, r, i),
        same_thread(ss, r, j),
        exists|k: int|
            0 <= k < thread_rows(ss, ss.len()).len() && #[trigger] thread_rows(ss, ss.len())[k] == (
            EmailSummary {
                thread_message_count: thread_rows(ss, ss.len())[k].thread_message_count,
                ..ss[r]
            }) && (thread_rows(ss, ss.len())[k].thread_message_count matches Some(n) && (i != j
                ==> n >= 2) && n <= ss.len()),
        forall|other: int|
            0 <= other < ss.len() && represents(ss, other) && #[trigger] same_thread(ss, other, i)
                ==> other == r,
        forall|other: int|
            0 <= other < ss.len() && #[trigger] same_thread(ss, r, other) ==> !date_before(
                opt_text(ss[r].date),
                opt_text(ss[other].date),
            ),
{
    lemma_named_ids_are_keys(ss, i, id);
    lemma_named_ids_are_keys(ss, j, id);
    assert(has_key(ss, i, id) && has_key(ss, j, id));
    assert(linked(ss, i, j));
    lemma_linked_self(ss, i);
    lemma_linked_self(ss, j);
    lemma_join_chains(ss, i, i, j, j);
    let r = every_row_is_represented(ss, i);
    same_thread_is_equivalence(ss, r, i, j);
    lemma_row_of(ss, r, ss.len());
    lemma_size_bound(ss, r, ss.len());
    lemma_size_covers(ss, r, i, j, ss.len());
    let rows = thread_rows(ss, ss.len());
    let row = with_count(ss[r], thread_size(ss, r, ss.len()));
    let k = choose|k: int| 0 <= k < rows.len() && rows[k] == row;
    assert(rows[k].thread_message_count == Some(thread_size(ss, r, ss.len()) as usize));
    assert forall|other: int|
        0 <= other < ss.len() && represents(ss, other) && #[trigger] same_thread(
            ss,
            other,
            i,
        ) implies other == r by {
        same_thread_is_equivalence(ss, r, i, other);
        same_thread_is_equivalence(ss, other, i, r);
        same_thread_is_equivalence(ss, r, i, other);
        one_row_per_thread(ss, other, r);
    }
    assert forall|other: int| 0 <= other < ss.len() && #[trigger] same_thread(ss, r, other) implies !date_before(
        opt_text(ss[r].date),
        opt_text(ss[other].date),
    ) by {
        lemma_date_order(row_date(ss, other), row_date(ss, r), row_date(ss, r));
    }
    r
}

/// Nothing else joins messages: two rows with ids that are neighbours on the way
/// through a thread name a common id.
pub proof fn only_a_common_id_joins(ss: Seq<EmailSummary>, i: int, j: int)
    requires
        0 <= i < ss.len(),
        0 <= j < ss.len(),
        ss[i].message_id is Some,
        ss[j].message_id is Some,
    ensures
        linked(ss, i, j) <==> exists|id: Seq<char>| #[trigger] names_id(ss[i], id) && names_id(
            ss[j],
            id,
        ),
{
    if linked(ss, i, j) {
        let t = choose|t: Seq<char>| has_key(ss, i, t) && #[trigger] has_key(ss, j, t);
        lemma_named_ids_are_keys(ss, i, t);
        lemma_named_ids_are_keys(ss, j, t);
        assert(names_id(ss[i], t) && names_id(ss[j], t));
    }
    if exists|id: Seq<char>| #[trigger] names_id(ss[i], id) && names_id(ss[j], id) {
        let id = choose|id: Seq<char>| #[trigger] names_id(ss[i], id) && names_id(ss[j], id);
        lemma_named_ids_are_keys(ss, i, id);
        lemma_named_ids_are_keys(ss, j, id);
        assert(has_key(ss, i, id) && has_key(ss, j, id));
    }
}

} // verus!
