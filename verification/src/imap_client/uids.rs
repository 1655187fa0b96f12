//! Message numbers: sets of them, pages of them, and which of them the server
//! confirms.

use std::collections::HashSet;
use vstd::prelude::*;
use vstd::relations::sorted_by;
use vstd::relations::total_ordering;

use crate::imap_client::fetch::Fetched;
use crate::imap_client::filter::PostFetchFilter;
use crate::imap_client::query::lemma_decimal_reads_back;
use crate::text::byte_len;
use crate::text::byte_len_of;
use crate::text::decimal;
use crate::text::decimal_string;
use crate::text::digits_value;
use crate::text::joined;
use crate::text::lemma_next_char;
use crate::text::lemma_split_behind;
use crate::text::opt_text;
use crate::text::split;

verus! {

// ---------------------------------------------------------------------------
// Order
// ---------------------------------------------------------------------------

/// The order of numbers.
pub open spec fn at_most() -> spec_fn(u32, u32) -> bool {
    |a: u32, b: u32| a <= b
}

/// The numbers of a list in ascending order.
pub open spec fn ascending(s: Seq<u32>) -> Seq<u32> {
    s.sort_by(at_most())
}

/// The numbers of a list in descending order: the newest messages first.
pub open spec fn descending(s: Seq<u32>) -> Seq<u32> {
    ascending(s).reverse()
}

/// `slice::sort_unstable` of numbers: the same numbers in ascending order.
#[verifier::external_body]
fn sort_numbers(v: &mut Vec<u32>)
    ensures
        sorted_by(final(v)@, at_most()),
        final(v)@.to_multiset() == old(v)@.to_multiset(),
{
    v.sort_unstable();
}

proof fn lemma_order()
    ensures
        total_ordering(at_most()),
{
}

/// Computes [`ascending`].
pub fn sorted(v: &[u32]) -> (out: Vec<u32>)
    ensures
        out@ == ascending(v@),
{
    let mut out: Vec<u32> = Vec::new();
    let mut i: usize = 0;
    while i < v.len()
        invariant
            i <= v@.len(),
            out@ == v@.take(i as int),
        decreases v@.len() - i,
    {
        out.push(v[i]);
        i += 1;
    }
    proof {
        assert(v@.take(v@.len() as int) =~= v@);
    }
    sort_numbers(&mut out);
    proof {
        lemma_order();
        v@.lemma_sort_by_ensures(at_most());
        vstd::seq_lib::lemma_sorted_unique(out@, ascending(v@), at_most());
    }
    out
}

/// Computes [`descending`].
pub fn newest_first(v: &[u32]) -> (out: Vec<u32>)
    ensures
        out@ == descending(v@),
{
    let up = sorted(v);
    let n: usize = up.len();
    let mut out: Vec<u32> = Vec::new();
    let mut i: usize = 0;
    while i < n
        invariant
            n == up@.len(),
            i <= n,
            out@.len() == i,
            forall|j: int| 0 <= j < i ==> out@[j] == up@[n - 1 - j],
        decreases n - i,
    {
        out.push(up[n - 1 - i]);
        i += 1;
    }
    proof {
        assert(out@ =~= up@.reverse());
    }
    out
}

// ---------------------------------------------------------------------------
// Sets
// ---------------------------------------------------------------------------

/// The runs of consecutive numbers in a list, each with its first and its last.
pub open spec fn uid_runs(s: Seq<u32>) -> Seq<(u32, u32)>
    decreases s.len(),
{
    if s.len() == 0 {
        Seq::empty()
    } else {
        let head = uid_runs(s.drop_last());
        let n = s.last();
        if head.len() > 0 && head.last().1 + 1 == n {
            head.drop_last().push((head.last().0, n))
        } else {
            head.push((n, n))
        }
    }
}

/// A run as text.
pub open spec fn run_text(r: (u32, u32)) -> Seq<char> {
    if r.0 == r.1 {
        decimal(r.0 as nat)
    } else {
        decimal(r.0 as nat) + ":"@ + decimal(r.1 as nat)
    }
}

/// Runs as texts.
pub open spec fn run_texts(rs: Seq<(u32, u32)>) -> Seq<Seq<char>> {
    rs.map_values(|r: (u32, u32)| run_text(r))
}

/// A set of message numbers as IMAP writes it, such as `1:3,7`.
pub open spec fn uid_set(s: Seq<u32>) -> Seq<char> {
    joined(run_texts(uid_runs(ascending(s))), ","@)
}

fn append_run(out: &mut String, count: usize, first: u32, last: u32)
    ensures
        final(out)@ == old(out)@ + (if count > 0 {
            ","@
        } else {
            Seq::empty()
        }) + run_text((first, last)),
{
    let ghost start = out@;
    if count > 0 {
        out.append(",");
    }
    let a = decimal_string(first as u64);
    out.append(a.as_str());
    if first != last {
        out.append(":");
        let b = decimal_string(last as u64);
        out.append(b.as_str());
    }
    proof {
        assert(out@ =~= start + (if count > 0 {
            ","@
        } else {
            Seq::empty()
        }) + run_text((first, last)));
    }
}

proof fn lemma_join_run(done: Seq<(u32, u32)>, r: (u32, u32), text: Seq<char>)
    requires
        text == joined(run_texts(done), ","@) + (if done.len() > 0 {
            ","@
        } else {
            Seq::empty()
        }) + run_text(r),
    ensures
        text == joined(run_texts(done.push(r)), ","@),
{
    let all = run_texts(done.push(r));
    assert(all.drop_last() =~= run_texts(done));
    assert(all.last() == run_text(r));
    if done.len() == 0 {
        assert(Seq::<char>::empty() + Seq::<char>::empty() + run_text(r) =~= run_text(r));
        assert(all.len() == 1);
    } else {
        assert(all.len() > 1);
    }
}

/// Writes a set of message numbers, in any order, with runs as ranges. A number
/// that occurs twice is written twice.
pub fn uid_set_string(uids: &[u32]) -> (out: String)
    ensures
        out@ == uid_set(uids@),
{
    let up = sorted(uids);
    let n: usize = up.len();
    let mut out = String::new();
    if n == 0 {
        proof {
            assert(up@ =~= Seq::<u32>::empty());
            assert(run_texts(uid_runs(up@)) =~= Seq::<Seq<char>>::empty());
        }
        return out;
    }
    let mut first: u32 = up[0];
    let mut last: u32 = up[0];
    let ghost mut done: Seq<(u32, u32)> = Seq::empty();
    let mut count: usize = 0;
    let mut i: usize = 1;
    proof {
        reveal_with_fuel(uid_runs, 2);
        assert(up@.take(1).drop_last() =~= Seq::<u32>::empty());
        assert(uid_runs(up@.take(1)) =~= done.push((first, last)));
        assert(run_texts(done) =~= Seq::<Seq<char>>::empty());
    }
    while i < n
        invariant
            n == up@.len(),
            1 <= i <= n,
            count < i,
            count == done.len(),
            uid_runs(up@.take(i as int)) == done.push((first, last)),
            out@ == joined(run_texts(done), ","@),
        decreases n - i,
    {
        let u: u32 = up[i];
        let ghost runs = done.push((first, last));
        proof {
            assert(up@.take(i as int + 1).drop_last() =~= up@.take(i as int));
            assert(up@.take(i as int + 1).last() == u);
            assert(runs.drop_last() =~= done);
            assert(runs.last() == (first, last));
        }
        let continues = last < u32::MAX && last + 1 == u;
        if !continues {
            append_run(&mut out, count, first, last);
            proof {
                lemma_join_run(done, (first, last), out@);
                done = runs;
            }
            count += 1;
            first = u;
        }
        last = u;
        i += 1;
    }
    append_run(&mut out, count, first, last);
    proof {
        lemma_join_run(done, (first, last), out@);
        assert(up@.take(n as int) =~= up@);
    }
    out
}

/// A number lies in one of the runs.
pub open spec fn covered(rs: Seq<(u32, u32)>, u: u32) -> bool {
    exists|i: int| 0 <= i < rs.len() && (#[trigger] rs[i]).0 <= u <= rs[i].1
}

proof fn lemma_runs_cover(s: Seq<u32>, u: u32)
    ensures
        covered(uid_runs(s), u) <==> s.contains(u),
        forall|i: int| 0 <= i < uid_runs(s).len() ==> (#[trigger] uid_runs(s)[i]).0 <= uid_runs(s)[i].1,
    decreases s.len(),
{
    if s.len() > 0 {
        let front = s.drop_last();
        let head = uid_runs(front);
        let n = s.last();
        let rs = uid_runs(s);
        lemma_runs_cover(front, u);
        assert(s.contains(u) <==> front.contains(u) || n == u) by {
            if s.contains(u) {
                let k = choose|k: int| 0 <= k < s.len() && s[k] == u;
                if k < front.len() {
                    assert(front[k] == u);
                }
            }
            if front.contains(u) {
                let k = choose|k: int| 0 <= k < front.len() && front[k] == u;
                assert(s[k] == u);
            }
            assert(s[s.len() - 1] == n);
        }
        if head.len() > 0 && head.last().1 + 1 == n {
            let z = head.len() - 1;
            assert(rs =~= head.drop_last().push((head.last().0, n)));
            if covered(head, u) {
                let i = choose|i: int| 0 <= i < head.len() && (#[trigger] head[i]).0 <= u
                    <= head[i].1;
                if i == z {
                    assert(rs[z].0 <= u <= rs[z].1);
                } else {
                    assert(rs[i] == head[i]);
                }
            }
            if u == n {
                assert(rs[z].0 <= u <= rs[z].1);
            }
            if covered(rs, u) {
                let i = choose|i: int| 0 <= i < rs.len() && (#[trigger] rs[i]).0 <= u <= rs[i].1;
                if i == z {
                    if u != n {
                        assert(head[z].0 <= u <= head[z].1);
                    }
                } else {
                    assert(head[i] == rs[i]);
                }
            }
        } else {
            assert(rs =~= head.push((n, n)));
            if covered(head, u) {
                let i = choose|i: int| 0 <= i < head.len() && (#[trigger] head[i]).0 <= u
                    <= head[i].1;
                assert(rs[i] == head[i]);
            }
            if u == n {
                assert(rs[head.len() as int].0 <= u <= rs[head.len() as int].1);
            }
            if covered(rs, u) {
                let i = choose|i: int| 0 <= i < rs.len() && (#[trigger] rs[i]).0 <= u <= rs[i].1;
                if i < head.len() {
                    assert(head[i] == rs[i]);
                }
            }
        }
    }
}

/// The runs that a set is written with cover exactly its numbers: the server is
/// asked about no other message.
pub proof fn uid_sets_are_exact(uids: Seq<u32>, u: u32)
    ensures
        covered(uid_runs(ascending(uids)), u) <==> uids.contains(u),
{
    broadcast use vstd::seq_lib::group_to_multiset_ensures;

    lemma_order();
    uids.lemma_sort_by_ensures(at_most());
    lemma_runs_cover(ascending(uids), u);
    assert(uids.contains(u) <==> uids.to_multiset().count(u) > 0);
    assert(ascending(uids).contains(u) <==> ascending(uids).to_multiset().count(u) > 0);
}

/// A part of a set names a number: as itself, or within a range.
pub open spec fn part_names(p: Seq<char>, u: u32) -> bool {
    ||| digits_value(p, 10) == Some(u as nat)
    ||| exists|k: int|
        0 <= k < p.len() && #[trigger] p[k] == ':' && (digits_value(p.take(k), 10) matches Some(a)
            && a <= u) && (digits_value(p.skip(k + 1), 10) matches Some(b) && u <= b)
}

/// A server that reads a set finds a number in it.
pub open spec fn set_names(set: Seq<char>, u: u32) -> bool {
    exists|i: int| 0 <= i < split(set, ',').len() && part_names(#[trigger] split(set, ',')[i], u)
}

proof fn lemma_not_a_number(p: Seq<char>, k: int)
    requires
        0 <= k < p.len(),
        p[k] == ':',
    ensures
        digits_value(p, 10) is None,
    decreases p.len(),
{
    if k < p.len() - 1 {
        lemma_not_a_number(p.drop_last(), k);
    }
}

proof fn lemma_run_reads_back(r: (u32, u32), u: u32)
    requires
        r.0 <= r.1,
    ensures
        part_names(run_text(r), u) <==> r.0 <= u <= r.1,
        forall|i: int| 0 <= i < run_text(r).len() ==> #[trigger] run_text(r)[i] != ',',
{
    reveal_strlit(":");
    let a = decimal(r.0 as nat);
    let b = decimal(r.1 as nat);
    let p = run_text(r);
    lemma_decimal_reads_back(r.0 as nat);
    lemma_decimal_reads_back(r.1 as nat);
    if r.0 == r.1 {
        assert forall|k: int| 0 <= k < p.len() implies #[trigger] p[k] != ':' by {
            assert('0' <= a[k] <= '9');
        }
        assert forall|i: int| 0 <= i < p.len() implies #[trigger] p[i] != ',' by {
            assert('0' <= a[i] <= '9');
        }
    } else {
        let n = a.len() as int;
        assert(p == a + ":"@ + b);
        assert(p[n] == ':');
        lemma_not_a_number(p, n);
        assert(p.take(n) =~= a);
        assert(p.skip(n + 1) =~= b);
        assert forall|k: int| 0 <= k < p.len() && #[trigger] p[k] == ':' implies k == n by {
            if k < n {
                assert(p[k] == a[k]);
            } else if k > n {
                assert(p[k] == b[k - n - 1]);
            }
        }
        assert forall|i: int| 0 <= i < p.len() implies #[trigger] p[i] != ',' by {
            if i < n {
                assert(p[i] == a[i]);
            } else if i > n {
                assert(p[i] == b[i - n - 1]);
            }
        }
    }
}

proof fn lemma_runs_split(rs: Seq<(u32, u32)>)
    requires
        rs.len() > 0,
        forall|i: int| 0 <= i < rs.len() ==> (#[trigger] rs[i]).0 <= rs[i].1,
    ensures
        split(joined(run_texts(rs), ","@), ',') == run_texts(rs),
    decreases rs.len(),
{
    reveal_strlit(",");
    let all = run_texts(rs);
    let last = all.last();
    let front = rs.drop_last();
    lemma_run_reads_back(rs.last(), 0);
    if rs.len() == 1 {
        lemma_next_char(last, ',', 0);
        assert(last.subrange(0, last.len() as int) =~= last);
        assert(all =~= seq![last]);
    } else {
        let text = joined(run_texts(front), ","@);
        lemma_runs_split(front);
        assert(all.drop_last() =~= run_texts(front));
        assert(","@ =~= seq![',']);
        lemma_split_behind(text, last, ',', 0);
        assert(run_texts(front).push(last) =~= all);
    }
}

/// A server that reads a set finds in it exactly the numbers that it was written
/// for.
pub proof fn uid_sets_read_back(uids: Seq<u32>, u: u32)
    requires
        uids.len() > 0,
    ensures
        set_names(uid_set(uids), u) <==> uids.contains(u),
{
    let rs = uid_runs(ascending(uids));
    let parts = run_texts(rs);
    uid_sets_are_exact(uids, u);
    lemma_runs_cover(ascending(uids), u);
    uid_sets_are_exact(uids, uids[0]);
    assert(uids.contains(uids[0]));
    lemma_runs_split(rs);
    if covered(rs, u) {
        let i = choose|i: int| 0 <= i < rs.len() && (#[trigger] rs[i]).0 <= u <= rs[i].1;
        lemma_run_reads_back(rs[i], u);
        assert(parts[i] == run_text(rs[i]));
    }
    if set_names(uid_set(uids), u) {
        let i = choose|i: int|
            0 <= i < split(uid_set(uids), ',').len() && part_names(
                #[trigger] split(uid_set(uids), ',')[i],
                u,
            );
        assert(parts[i] == run_text(rs[i]));
        lemma_run_reads_back(rs[i], u);
    }
}

// ---------------------------------------------------------------------------
// Confirmation
// ---------------------------------------------------------------------------

/// The numbers rise, and none occurs twice.
pub open spec fn rising(s: Seq<u32>) -> bool {
    forall|i: int, j: int| 0 <= i < j < s.len() ==> s[i] < s[j]
}

/// Numbers that the server reported and that were asked about, in ascending
/// order and without repeats.
pub open spec fn is_confirmed(reported: Seq<u32>, asked: Seq<u32>, out: Seq<u32>) -> bool {
    &&& rising(out)
    &&& forall|u: u32| #[trigger] out.contains(u) <==> reported.contains(u) && asked.contains(u)
}

/// Keeps of the numbers that the server reported those that were asked about.
/// Neither a stale number nor one that the server made up is confirmed.
pub fn confirmed_uids(reported: &[u32], asked: &[u32]) -> (out: Vec<u32>)
    ensures
        is_confirmed(reported@, asked@, out@),
{
    broadcast use vstd::std_specs::hash::group_hash_axioms;

    let mut set: HashSet<u32> = HashSet::new();
    let mut i: usize = 0;
    while i < asked.len()
        invariant
            i <= asked@.len(),
            forall|u: u32| #[trigger] set@.contains(u) <==> asked@.take(i as int).contains(u),
        decreases asked@.len() - i,
    {
        set.insert(asked[i]);
        proof {
            let now = asked@.take(i as int + 1);
            let before = asked@.take(i as int);
            assert(now =~= before.push(asked@[i as int]));
            assert forall|u: u32| #[trigger] set@.contains(u) <==> now.contains(u) by {
                if before.contains(u) {
                    let k = choose|k: int| 0 <= k < before.len() && before[k] == u;
                    assert(now[k] == u);
                }
                if now.contains(u) {
                    let k = choose|k: int| 0 <= k < now.len() && now[k] == u;
                    if k < before.len() {
                        assert(before[k] == u);
                    }
                }
                assert(now[i as int] == asked@[i as int]);
            }
        }
        i += 1;
    }
    assert(asked@.take(asked@.len() as int) =~= asked@);
    let up = sorted(reported);
    proof {
        lemma_order();
        reported@.lemma_sort_by_ensures(at_most());
        lemma_sorted_contains(reported@);
    }
    let mut out: Vec<u32> = Vec::new();
    let mut i: usize = 0;
    while i < up.len()
        invariant
            i <= up@.len(),
            up@ == ascending(reported@),
            sorted_by(up@, at_most()),
            forall|u: u32| #[trigger] set@.contains(u) <==> asked@.contains(u),
            rising(out@),
            out@.len() > 0 ==> i > 0 && out@.last() <= up@[i - 1],
            forall|u: u32| #[trigger]
                out@.contains(u) <==> up@.take(i as int).contains(u) && asked@.contains(u),
        decreases up@.len() - i,
    {
        let u: u32 = up[i];
        let ghost before = out@;
        let ghost seen = up@.take(i as int);
        let ghost now = up@.take(i as int + 1);
        proof {
            assert(now =~= seen.push(u));
            if i > 0 {
                assert(at_most()(up@[i - 1], up@[i as int]));
            }
            if out@.len() > 0 && out@.last() == u {
                assert(out@[out@.len() - 1] == u);
                assert(out@.contains(u));
            }
        }
        if set.contains(&u) && (out.len() == 0 || out[out.len() - 1] != u) {
            out.push(u);
        }
        proof {
            assert forall|w: u32| #[trigger] out@.contains(w) <==> now.contains(w)
                && asked@.contains(w) by {
                if now.contains(w) {
                    let k = choose|k: int| 0 <= k < now.len() && now[k] == w;
                    if k < seen.len() {
                        assert(seen[k] == w);
                    }
                }
                if seen.contains(w) {
                    let k = choose|k: int| 0 <= k < seen.len() && seen[k] == w;
                    assert(now[k] == w);
                }
                assert(now[i as int] == u);
                if before.contains(w) {
                    let k = choose|k: int| 0 <= k < before.len() && before[k] == w;
                    assert(out@[k] == w);
                }
                if out@.len() > before.len() {
                    assert(out@[before.len() as int] == u);
                    if out@.contains(w) {
                        let k = choose|k: int| 0 <= k < out@.len() && out@[k] == w;
                        if k < before.len() {
                            assert(before[k] == w);
                        }
                    }
                } else if before.len() > 0 && before.last() == u {
                    assert(before[before.len() - 1] == u);
                }
            }
        }
        i += 1;
    }
    assert(up@.take(up@.len() as int) =~= up@);
    out
}

/// Sorting keeps the number of items.
pub proof fn lemma_sorted_length(s: Seq<u32>)
    ensures
        ascending(s).len() == s.len(),
{
    broadcast use vstd::seq_lib::group_to_multiset_ensures;

    lemma_order();
    s.lemma_sort_by_ensures(at_most());
    assert(ascending(s).to_multiset().len() == s.to_multiset().len());
}

pub proof fn lemma_sorted_contains(s: Seq<u32>)
    ensures
        forall|u: u32| #[trigger] ascending(s).contains(u) <==> s.contains(u),
{
    broadcast use vstd::seq_lib::group_to_multiset_ensures;

    lemma_order();
    s.lemma_sort_by_ensures(at_most());
    assert forall|u: u32| #[trigger] ascending(s).contains(u) <==> s.contains(u) by {
        assert(s.contains(u) <==> s.to_multiset().count(u) > 0);
        assert(ascending(s).contains(u) <==> ascending(s).to_multiset().count(u) > 0);
    }
}

/// Two lists that are confirmed from the same reports are the same.
pub proof fn confirmation_is_unique(
    reported: Seq<u32>,
    asked: Seq<u32>,
    a: Seq<u32>,
    b: Seq<u32>,
)
    requires
        is_confirmed(reported, asked, a),
        is_confirmed(reported, asked, b),
    ensures
        a == b,
{
    lemma_rising_unique(a, b);
}

proof fn lemma_rising_unique(a: Seq<u32>, b: Seq<u32>)
    requires
        rising(a),
        rising(b),
        forall|u: u32| #[trigger] a.contains(u) <==> b.contains(u),
    ensures
        a == b,
    decreases a.len(),
{
    if a.len() == 0 {
        if b.len() > 0 {
            assert(b.contains(b[0]));
            assert(a.contains(b[0]));
        }
        assert(a =~= b);
    } else {
        assert(a.contains(a.last()));
        let k = choose|k: int| 0 <= k < b.len() && b[k] == a.last();
        assert(b.contains(b.last()));
        assert(a.contains(b.last()));
        let m = choose|m: int| 0 <= m < a.len() && a[m] == b.last();
        assert(a.last() == b.last());
        let x = a.drop_last();
        let y = b.drop_last();
        assert forall|u: u32| #[trigger] x.contains(u) <==> y.contains(u) by {
            if x.contains(u) {
                let i = choose|i: int| 0 <= i < x.len() && x[i] == u;
                assert(a[i] == u);
                assert(a.contains(u));
                let j = choose|j: int| 0 <= j < b.len() && b[j] == u;
                assert(y[j] == u);
            }
            if y.contains(u) {
                let i = choose|i: int| 0 <= i < y.len() && y[i] == u;
                assert(b[i] == u);
                assert(b.contains(u));
                assert(a.contains(u));
                let j = choose|j: int| 0 <= j < a.len() && a[j] == u;
                assert(x[j] == u);
            }
        }
        lemma_rising_unique(x, y);
        assert(a =~= x.push(a.last()));
        assert(b =~= y.push(b.last()));
    }
}

/// The numbers that the server reported in answer to a change of flags.
pub open spec fn reported_uids(l: Seq<Fetched>) -> Seq<u32> {
    l.filter(|f: Fetched| f.uid is Some).map_values(|f: Fetched| f.uid->0)
}

/// The numbers that count as reported are those that the server's answers bear.
pub proof fn answers_bear_their_numbers(l: Seq<Fetched>, u: u32)
    ensures
        reported_uids(l).contains(u) <==> exists|i: int|
            0 <= i < l.len() && (#[trigger] l[i]).uid == Some(u),
    decreases l.len(),
{
    reveal_with_fuel(Seq::filter, 1);
    let keep = |f: Fetched| f.uid is Some;
    let number = |f: Fetched| f.uid->0;
    if l.len() > 0 {
        let front = l.drop_last();
        let last = l.last();
        let head = reported_uids(front);
        let all = reported_uids(l);
        answers_bear_their_numbers(front, u);
        if keep(last) {
            assert(front.filter(keep).push(last).map_values(number) =~= head.push(last.uid->0));
            assert(all =~= head.push(last.uid->0));
            assert(all[head.len() as int] == last.uid->0);
        } else {
            assert(all =~= head);
        }
        if head.contains(u) {
            let k = choose|k: int| 0 <= k < head.len() && head[k] == u;
            assert(all[k] == u);
            let i = choose|i: int| 0 <= i < front.len() && (#[trigger] front[i]).uid == Some(u);
            assert(l[i] == front[i]);
        }
        assert(l[l.len() - 1] == last);
        if all.contains(u) {
            let k = choose|k: int| 0 <= k < all.len() && all[k] == u;
            if k < head.len() {
                assert(head[k] == u);
            }
        }
        if exists|i: int| 0 <= i < l.len() && (#[trigger] l[i]).uid == Some(u) {
            let i = choose|i: int| 0 <= i < l.len() && (#[trigger] l[i]).uid == Some(u);
            if i < front.len() {
                assert(front[i] == l[i]);
            }
        }
    }
}

fn numbers_of(fetches: &Vec<Fetched>) -> (out: Vec<u32>)
    ensures
        out@ == reported_uids(fetches@),
{
    let ghost all = fetches@;
    let ghost keep = |f: Fetched| f.uid is Some;
    let mut out: Vec<u32> = Vec::new();
    let mut i: usize = 0;
    proof {
        reveal_with_fuel(Seq::filter, 1);
        assert(out@ =~= reported_uids(all.take(0)));
    }
    while i < fetches.len()
        invariant
            i <= fetches@.len(),
            all == fetches@,
            keep == |f: Fetched| f.uid is Some,
            out@ == reported_uids(all.take(i as int)),
        decreases fetches@.len() - i,
    {
        let ghost kept = all.take(i as int).filter(keep);
        proof {
            assert(all.take(i as int + 1).drop_last() =~= all.take(i as int));
            reveal_with_fuel(Seq::filter, 1);
        }
        if let Some(u) = fetches[i].uid {
            proof {
                assert(keep(all[i as int]));
                assert(kept.push(all[i as int]).map_values(|f: Fetched| f.uid->0)
                    =~= kept.map_values(|f: Fetched| f.uid->0).push(u));
            }
            out.push(u);
        } else {
            assert(!keep(all[i as int]));
        }
        i += 1;
    }
    proof {
        assert(all.take(all.len() as int) =~= all);
    }
    out
}

/// The numbers whose flags the server says it changed, of those it was asked to.
pub fn acknowledged_uids(fetches: &Vec<Fetched>, input: &[u32]) -> (out: Vec<u32>)
    ensures
        is_confirmed(reported_uids(fetches@), input@, out@),
{
    let reported = numbers_of(fetches);
    confirmed_uids(reported.as_slice(), input)
}

// ---------------------------------------------------------------------------
// Pages
// ---------------------------------------------------------------------------

/// A number of messages that fits into 32 bits, or the largest such number.
pub open spec fn counted(n: nat) -> u32 {
    if n <= u32::MAX {
        n as u32
    } else {
        u32::MAX
    }
}

/// Computes [`counted`].
pub fn count_of(n: usize) -> (c: u32)
    ensures
        c == counted(n as nat),
{
    if n <= 0xffff_ffff {
        n as u32
    } else {
        u32::MAX
    }
}

/// A page of a list: what follows the first `offset`, at most `limit`.
pub open spec fn page(s: Seq<u32>, offset: nat, limit: nat) -> Seq<u32> {
    let from = if offset <= s.len() {
        offset as int
    } else {
        s.len() as int
    };
    let to = if from + limit <= s.len() {
        from + limit
    } else {
        s.len() as int
    };
    s.subrange(from, to)
}

/// Computes [`page`].
pub fn page_of(uids: &Vec<u32>, offset: u32, limit: u32) -> (out: Vec<u32>)
    ensures
        out@ == page(uids@, offset as nat, limit as nat),
{
    let n: usize = uids.len();
    let from: usize = if (offset as u64) <= (n as u64) {
        offset as usize
    } else {
        n
    };
    let to: usize = if (limit as u64) <= ((n - from) as u64) {
        from + limit as usize
    } else {
        n
    };
    let mut out: Vec<u32> = Vec::new();
    let mut i: usize = from;
    while i < to
        invariant
            from <= i <= to <= uids@.len(),
            out@ == uids@.subrange(from as int, i as int),
        decreases to - i,
    {
        proof {
            assert(uids@.subrange(from as int, i + 1) =~= uids@.subrange(
                from as int,
                i as int,
            ).push(uids@[i as int]));
        }
        out.push(uids[i]);
        i += 1;
    }
    out
}

/// Pages of one size, one behind the other, hold the list: nothing is skipped
/// and nothing comes twice.
pub proof fn pages_cover_the_list(s: Seq<u32>, offset: nat, limit: nat)
    requires
        offset <= s.len(),
    ensures
        page(s, 0, offset) + page(s, offset, limit) == page(s, 0, offset + limit),
{
    assert(page(s, 0, offset) + page(s, offset, limit) =~= page(s, 0, offset + limit));
}

/// A page holds what stands at its place in the list, in order: from the offset on,
/// as many as fit, and fewer only at the end of the list.
pub proof fn pages_hold_their_place(s: Seq<u32>, offset: nat, limit: nat)
    ensures
        offset < s.len() ==> page(s, offset, limit).len() == if offset + limit <= s.len() {
            limit as int
        } else {
            s.len() - offset
        },
        offset >= s.len() ==> page(s, offset, limit).len() == 0,
        forall|i: int|
            0 <= i < page(s, offset, limit).len() ==> #[trigger] page(s, offset, limit)[i]
                == s[offset + i],
{
}

/// The sequence numbers of a page of a whole folder, newest first: the first and
/// the last, where there are any.
pub open spec fn window(total: u32, offset: u32, limit: u32) -> Option<(u32, u32)> {
    if total <= offset {
        None
    } else {
        let end = total - offset;
        let back = if limit == 0 {
            0
        } else {
            limit - 1
        };
        Some(
            (
                if end - back >= 1 {
                    (end - back) as u32
                } else {
                    1u32
                },
                end as u32,
            ),
        )
    }
}

/// The set of sequence numbers of a page of a whole folder.
pub fn sequence_window(total: u32, offset: u32, limit: u32) -> (out: Option<String>)
    ensures
        opt_text(out) == match window(total, offset, limit) {
            Some(w) => Some(run_text(w)),
            None => None,
        },
{
    if total <= offset {
        return None;
    }
    let end: u32 = total - offset;
    let back: u32 = if limit == 0 {
        0
    } else {
        limit - 1
    };
    let start: u32 = if end > back {
        end - back
    } else {
        1
    };
    let mut out = String::new();
    append_run(&mut out, 0, start, end);
    proof {
        assert(out@ =~= run_text((start, end)));
    }
    Some(out)
}

/// A page of a folder holds as many messages as it may: `limit` of them, or all
/// that are left.
pub proof fn windows_are_full(total: u32, offset: u32, limit: u32)
    requires
        limit > 0,
    ensures
        match window(total, offset, limit) {
            Some(w) => 1 <= w.0 <= w.1 == total - offset && (w.1 - w.0 + 1 == limit || w.0 == 1
                && w.1 - w.0 + 1 < limit),
            None => total <= offset,
        },
{
}

/// The set that the times of arrival are asked for: the numbers themselves, or
/// the range from the oldest to the newest where the set would be too long for
/// a command.
pub open spec fn arrival_query(uids: Seq<u32>) -> Seq<char> {
    if byte_len(uid_set(uids)) > 4096 && uids.len() > 0 {
        decimal(uids.last() as nat) + ":"@ + decimal(uids[0] as nat)
    } else {
        uid_set(uids)
    }
}

/// Computes [`arrival_query`] of numbers in descending order.
pub fn arrival_set(uids: &Vec<u32>) -> (out: String)
    ensures
        out@ == arrival_query(uids@),
{
    let set = uid_set_string(uids.as_slice());
    let n: usize = uids.len();
    if byte_len_of(set.as_str()) > 4096 && n > 0 {
        let mut out = decimal_string(uids[n - 1] as u64);
        out.append(":");
        let newest = decimal_string(uids[0] as u64);
        out.append(newest.as_str());
        out
    } else {
        set
    }
}

/// The set that times of arrival are asked for names every number of a list in
/// descending order, however long the list is; where it is written out, it names no
/// other.
pub proof fn arrival_queries_name_every_message(uids: Seq<u32>, u: u32)
    requires
        uids.len() > 0,
        forall|i: int, j: int| 0 <= i < j < uids.len() ==> uids[i] >= uids[j],
    ensures
        uids.contains(u) ==> set_names(arrival_query(uids), u),
        byte_len(uid_set(uids)) <= 4096 ==> (set_names(arrival_query(uids), u) ==> uids.contains(u)),
{
    uid_sets_read_back(uids, u);
    if byte_len(uid_set(uids)) > 4096 && uids.contains(u) {
        reveal_strlit(":");
        let a = decimal(uids.last() as nat);
        let b = decimal(uids[0] as nat);
        let t = arrival_query(uids);
        let k = choose|k: int| 0 <= k < uids.len() && uids[k] == u;
        assert(uids[0] >= u && u >= uids.last());
        lemma_decimal_reads_back(uids.last() as nat);
        lemma_decimal_reads_back(uids[0] as nat);
        let n = a.len() as int;
        assert(":"@.len() == 1);
        assert(t[n] == ':');
        assert(t.take(n) =~= a);
        assert(t.skip(n + 1) =~= b);
        assert forall|i: int| 0 <= i < t.len() implies #[trigger] t[i] != ',' by {
            if i < n {
                assert(t[i] == a[i]);
            } else if i > n {
                assert(t[i] == b[i - n - 1]);
            }
        }
        lemma_next_char(t, ',', 0);
        assert(t.subrange(0, t.len() as int) =~= t);
        assert(split(t, ',') =~= seq![t]);
        assert(part_names(t, u));
        assert(split(t, ',')[0] == t);
    }
}

/// The numbers of the newest messages come first, and none is lost or added.
pub proof fn newest_numbers_come_first(s: Seq<u32>, u: u32)
    ensures
        forall|i: int, j: int|
            0 <= i < j < descending(s).len() ==> #[trigger] descending(s)[i] >= #[trigger] descending(
                s,
            )[j],
        descending(s).contains(u) <==> s.contains(u),
        descending(s).len() == s.len(),
{
    lemma_order();
    s.lemma_sort_by_ensures(at_most());
    lemma_sorted_contains(s);
    lemma_sorted_length(s);
    let up = ascending(s);
    let d = descending(s);
    assert forall|i: int, j: int| 0 <= i < j < d.len() implies #[trigger] d[i] >= #[trigger] d[j] by {
        let n = up.len() - 1;
        assert(at_most()(up[n - j], up[n - i]));
    }
    if d.contains(u) {
        let k = choose|k: int| 0 <= k < d.len() && d[k] == u;
        assert(up[up.len() - 1 - k] == u);
        assert(up.contains(u));
    }
    if s.contains(u) {
        assert(up.contains(u));
        let k = choose|k: int| 0 <= k < up.len() && up[k] == u;
        assert(d[up.len() - 1 - k] == u);
    }
}

/// A message was reported with a time of arrival within the bounds, or without
/// one.
pub open spec fn arrived_in_time(l: Seq<Fetched>, post: PostFetchFilter, u: u32) -> bool {
    exists|i: int|
        0 <= i < l.len() && (#[trigger] l[i]).uid == Some(u) && post.in_time(l[i].internal_unix)
}

/// A message is taken to have arrived in time where the server reports it with a
/// time that is not before the first bound and is before the second, or with none.
pub proof fn arrivals_are_held_to_the_bounds(l: Seq<Fetched>, post: PostFetchFilter, u: u32)
    ensures
        arrived_in_time(l, post, u) <==> exists|i: int|
            0 <= i < l.len() && (#[trigger] l[i]).uid == Some(u) && (
            l[i].internal_unix matches Some(t) ==> (post.internal_since_unix matches Some(s) ==> s
                <= t) && (post.internal_before_unix matches Some(b) ==> t < b)),
{
    if arrived_in_time(l, post, u) {
        let i = choose|i: int|
            0 <= i < l.len() && (#[trigger] l[i]).uid == Some(u) && post.in_time(l[i].internal_unix);
        assert(l[i].uid == Some(u));
    }
    if exists|i: int|
        0 <= i < l.len() && (#[trigger] l[i]).uid == Some(u) && (
        l[i].internal_unix matches Some(t) ==> (post.internal_since_unix matches Some(s) ==> s
            <= t) && (post.internal_before_unix matches Some(b) ==> t < b)) {
        let i = choose|i: int|
            0 <= i < l.len() && (#[trigger] l[i]).uid == Some(u) && (
            l[i].internal_unix matches Some(t) ==> (post.internal_since_unix matches Some(s) ==> s
                <= t) && (post.internal_before_unix matches Some(b) ==> t < b));
        assert(post.in_time(l[i].internal_unix));
    }
}

/// Keeps the numbers of messages that arrived in time. One that the server did
/// not report, because it is gone since the search, drops out.
pub fn cut_by_arrival(uids: &Vec<u32>, fetches: &Vec<Fetched>, post: &PostFetchFilter) -> (out: Vec<
    u32,
>)
    ensures
        out@ == uids@.filter(|u: u32| arrived_in_time(fetches@, *post, u)),
{
    broadcast use vstd::std_specs::hash::group_hash_axioms;

    let ghost keep = |u: u32| arrived_in_time(fetches@, *post, u);
    let mut set: HashSet<u32> = HashSet::new();
    let mut i: usize = 0;
    while i < fetches.len()
        invariant
            i <= fetches@.len(),
            forall|u: u32| #[trigger]
                set@.contains(u) <==> arrived_in_time(fetches@.take(i as int), *post, u),
        decreases fetches@.len() - i,
    {
        let f = &fetches[i];
        let ghost was = set@;
        let ghost before = fetches@.take(i as int);
        let ghost now = fetches@.take(i as int + 1);
        if post.time_matches(f.internal_unix) {
            if let Some(u) = f.uid {
                set.insert(u);
            }
        }
        proof {
            assert(now =~= before.push(*f));
            assert forall|u: u32| #[trigger] set@.contains(u) <==> arrived_in_time(
                now,
                *post,
                u,
            ) by {
                if arrived_in_time(before, *post, u) {
                    let k = choose|k: int|
                        0 <= k < before.len() && (#[trigger] before[k]).uid == Some(u)
                            && post.in_time(before[k].internal_unix);
                    assert(now[k] == before[k]);
                }
                if arrived_in_time(now, *post, u) {
                    let k = choose|k: int|
                        0 <= k < now.len() && (#[trigger] now[k]).uid == Some(u) && post.in_time(
                            now[k].internal_unix,
                        );
                    if k < before.len() {
                        assert(before[k] == now[k]);
                    }
                }
                assert(now[i as int] == *f);
            }
        }
        i += 1;
    }
    assert(fetches@.take(fetches@.len() as int) =~= fetches@);
    let mut out: Vec<u32> = Vec::new();
    let mut i: usize = 0;
    proof {
        reveal_with_fuel(Seq::filter, 1);
        assert(uids@.take(0).filter(keep) =~= Seq::<u32>::empty());
    }
    while i < uids.len()
        invariant
            i <= uids@.len(),
            keep == |u: u32| arrived_in_time(fetches@, *post, u),
            forall|u: u32| #[trigger] set@.contains(u) <==> arrived_in_time(fetches@, *post, u),
            out@ == uids@.take(i as int).filter(keep),
        decreases uids@.len() - i,
    {
        proof {
            assert(uids@.take(i as int + 1).drop_last() =~= uids@.take(i as int));
            reveal_with_fuel(Seq::filter, 1);
            assert(keep(uids@[i as int]) == set@.contains(uids@[i as int]));
        }
        if set.contains(&uids[i]) {
            out.push(uids[i]);
        }
        i += 1;
    }
    proof {
        assert(uids@.take(uids@.len() as int) =~= uids@);
    }
    out
}

/// The largest of the numbers that a search found.
pub fn newest_uid(uids: &Vec<u32>) -> (out: Option<u32>)
    ensures
        match out {
            Some(u) => uids@.contains(u) && forall|i: int|
                0 <= i < uids@.len() ==> #[trigger] uids@[i] <= u,
            None => uids@.len() == 0,
        },
{
    if uids.len() == 0 {
        return None;
    }
    let mut best: u32 = uids[0];
    let mut i: usize = 1;
    assert(uids@[0] == best);
    while i < uids.len()
        invariant
            1 <= i <= uids@.len(),
            uids@.contains(best),
            forall|j: int| 0 <= j < i ==> #[trigger] uids@[j] <= best,
        decreases uids@.len() - i,
    {
        if uids[i] > best {
            best = uids[i];
            assert(uids@[i as int] == best);
        }
        i += 1;
    }
    Some(best)
}

/// The page that is fetched of a list of numbers, and how many there are.
#[derive(Debug)]
pub struct PagePlan {
    pub matched: u32,
    /// The set to fetch; nothing where the page is empty.
    pub set: Option<String>,
}

/// Plans the page that is fetched of a list of numbers.
pub fn plan_page(uids: &Vec<u32>, offset: u32, limit: u32) -> (p: PagePlan)
    ensures
        p.matched == counted(uids@.len()),
        opt_text(p.set) == {
            let page = page(uids@, offset as nat, limit as nat);
            if page.len() == 0 {
                None
            } else {
                Some(uid_set(page))
            }
        },
{
    let matched: u32 = count_of(uids.len());
    let chosen = page_of(uids, offset, limit);
    let set = if chosen.len() == 0 {
        None
    } else {
        Some(uid_set_string(chosen.as_slice()))
    };
    PagePlan { matched, set }
}

} // verus!
