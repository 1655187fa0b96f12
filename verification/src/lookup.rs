//! Lists of named values, and what stands in them under a name.

use vstd::prelude::*;

verus! {

/// How many of the first `n` members of a list stand under a key.
pub open spec fn count_below<V>(m: Seq<(Seq<char>, V)>, key: Seq<char>, n: nat) -> nat
    decreases n,
{
    if n == 0 {
        0
    } else if m[n - 1].0 == key {
        count_below(m, key, (n - 1) as nat) + 1
    } else {
        count_below(m, key, (n - 1) as nat)
    }
}

/// The last value among the first `n` members that stands under a key.
pub open spec fn last_below<V>(m: Seq<(Seq<char>, V)>, key: Seq<char>, n: nat) -> Option<V>
    decreases n,
{
    if n == 0 {
        None
    } else if m[n - 1].0 == key {
        Some(m[n - 1].1)
    } else {
        last_below(m, key, (n - 1) as nat)
    }
}

/// How many members stand under a key.
#[verifier::opaque]
pub open spec fn count_in<V>(m: Seq<(Seq<char>, V)>, key: Seq<char>) -> nat {
    count_below(m, key, m.len())
}

/// The last value that stands under a key.
#[verifier::opaque]
pub open spec fn last_in<V>(m: Seq<(Seq<char>, V)>, key: Seq<char>) -> Option<V> {
    last_below(m, key, m.len())
}

proof fn lemma_count_prefix<V>(
    a: Seq<(Seq<char>, V)>,
    b: Seq<(Seq<char>, V)>,
    key: Seq<char>,
    n: nat,
)
    requires
        n <= a.len(),
    ensures
        count_below(a + b, key, n) == count_below(a, key, n),
        last_below(a + b, key, n) == last_below(a, key, n),
    decreases n,
{
    if n > 0 {
        lemma_count_prefix(a, b, key, (n - 1) as nat);
    }
}

proof fn lemma_count_suffix<V>(
    a: Seq<(Seq<char>, V)>,
    b: Seq<(Seq<char>, V)>,
    key: Seq<char>,
    n: nat,
)
    requires
        n <= b.len(),
    ensures
        count_below(a + b, key, a.len() + n) == count_below(a, key, a.len()) + count_below(
            b,
            key,
            n,
        ),
        last_below(a + b, key, a.len() + n) == if count_below(b, key, n) > 0 {
            last_below(b, key, n)
        } else {
            last_below(a, key, a.len())
        },
    decreases n,
{
    if n == 0 {
        lemma_count_prefix(a, b, key, a.len());
    } else {
        lemma_count_suffix(a, b, key, (n - 1) as nat);
        assert((a + b)[a.len() + n - 1] == b[n - 1]);
    }
}

/// The members of two lists, one behind the other.
pub broadcast proof fn members_of_both<V>(
    a: Seq<(Seq<char>, V)>,
    b: Seq<(Seq<char>, V)>,
    key: Seq<char>,
)
    ensures
        #[trigger] count_in(a + b, key) == count_in(a, key) + count_in(b, key),
{
    reveal(count_in);
    lemma_count_suffix(a, b, key, b.len());
}

/// The last member of two lists, one behind the other.
pub broadcast proof fn last_of_both<V>(
    a: Seq<(Seq<char>, V)>,
    b: Seq<(Seq<char>, V)>,
    key: Seq<char>,
)
    ensures
        #[trigger] last_in(a + b, key) == if count_in(b, key) > 0 {
            last_in(b, key)
        } else {
            last_in(a, key)
        },
{
    reveal(count_in);
    reveal(last_in);
    lemma_count_suffix(a, b, key, b.len());
}

/// A list without members has none under any key.
pub broadcast proof fn members_of_nothing<V>(key: Seq<char>)
    ensures
        #[trigger] count_in(Seq::<(Seq<char>, V)>::empty(), key) == 0,
{
    reveal(count_in);
}

/// A further member stands under its own key.
pub broadcast proof fn members_with_one_more<V>(
    a: Seq<(Seq<char>, V)>,
    m: (Seq<char>, V),
    key: Seq<char>,
)
    ensures
        #[trigger] count_in(a.push(m), key) == count_in(a, key) + if m.0 == key {
            1nat
        } else {
            0nat
        },
{
    reveal(count_in);
    assert(a.push(m) =~= a + seq![m]);
    lemma_count_suffix(a, seq![m], key, 1);
    reveal_with_fuel(count_below, 2);
}

/// A further member stands behind the others.
pub broadcast proof fn last_with_one_more<V>(
    a: Seq<(Seq<char>, V)>,
    m: (Seq<char>, V),
    key: Seq<char>,
)
    ensures
        #[trigger] last_in(a.push(m), key) == if m.0 == key {
            Some(m.1)
        } else {
            last_in(a, key)
        },
{
    reveal(last_in);
    assert(a.push(m) =~= a + seq![m]);
    lemma_count_suffix(a, seq![m], key, 1);
    reveal_with_fuel(count_below, 2);
    reveal_with_fuel(last_below, 2);
}

/// The members that are written out one by one.
pub broadcast proof fn members_of_list<V, const N: usize>(l: [(Seq<char>, V); N], key: Seq<char>)
    ensures
        #[trigger] count_in(l@, key) == count_below(l@, key, N as nat),
{
    reveal(count_in);
}

/// The last of the members that are written out one by one.
pub broadcast proof fn last_of_list<V, const N: usize>(l: [(Seq<char>, V); N], key: Seq<char>)
    ensures
        #[trigger] last_in(l@, key) == last_below(l@, key, N as nat),
{
    reveal(last_in);
}

/// Nothing stands in a list without members.
pub broadcast proof fn last_of_nothing<V>(key: Seq<char>)
    ensures
        #[trigger] last_in(Seq::<(Seq<char>, V)>::empty(), key) is None,
{
    reveal(last_in);
}

pub broadcast group group_members {
    members_of_both,
    last_of_both,
    members_of_nothing,
    last_of_nothing,
    members_with_one_more,
    last_with_one_more,
    members_of_list,
    last_of_list,
}

/// The value that stands under a key, where there is just one.
pub open spec fn only_in<V>(m: Seq<(Seq<char>, V)>, key: Seq<char>) -> Option<V> {
    if count_in(m, key) == 1 {
        last_in(m, key)
    } else {
        None
    }
}

/// A key that nothing stands under is the name of no member.
pub proof fn lemma_absent<V>(m: Seq<(Seq<char>, V)>, key: Seq<char>, n: nat)
    requires
        n <= m.len(),
    ensures
        count_below(m, key, n) == 0 <==> forall|k: int| 0 <= k < n ==> (#[trigger] m[k]).0 != key,
    decreases n,
{
    if n > 0 {
        lemma_absent(m, key, (n - 1) as nat);
        if count_below(m, key, n) == 0 {
            assert forall|k: int| 0 <= k < n implies (#[trigger] m[k]).0 != key by {
                if k == n - 1 {
                    assert(m[n - 1].0 != key);
                }
            }
        } else if m[n - 1].0 != key {
            let k = choose|k: int| 0 <= k < n - 1 && (#[trigger] m[k]).0 == key;
            assert(m[k].0 == key);
        } else {
            assert(m[n - 1].0 == key);
        }
    }
}

} // verus!
