//! The store of refresh tokens.
//!
//! Providers replace a refresh token whenever it is used, so that the current
//! one is state of the server and no setting. A stored token always wins; the
//! token in the settings only starts an account off.

use vstd::prelude::*;

use crate::config::join_path;
use crate::config::path_below;
use crate::config::AccountConfig;
use crate::text::begins_with;
use crate::text::chars_of;
use crate::text::copy_of;
use crate::text::find_last;
use crate::text::find_last_at;
use crate::text::lowercase;
use crate::text::lowercase_of;
use crate::text::occurs_at;
use crate::text::opt_str;
use crate::text::opt_text;
use crate::text::same_text;
use crate::text::string_of_range;
use crate::text::text_begins_with;
use crate::tools::threads::lemma_text_order;
use crate::tools::threads::text_before;
use crate::tools::threads::text_is_before;

verus! {

/// A stored refresh token, with the Unix second at which it was stored.
#[derive(Debug)]
pub struct StoredToken {
    pub refresh_token: String,
    pub updated_at_unix: u64,
}

/// The value of a stored token.
pub struct StoredView {
    pub refresh_token: Seq<char>,
    pub updated_at_unix: u64,
}

impl View for StoredToken {
    type V = StoredView;

    open spec fn view(&self) -> StoredView {
        StoredView {
            refresh_token: self.refresh_token@,
            updated_at_unix: self.updated_at_unix,
        }
    }
}

/// The application that an account is authorized through; a hyphen where none is
/// configured.
pub open spec fn client_of(config: AccountConfig) -> Seq<char> {
    match config.oauth2 {
        Some(o) => match opt_text(o.client_id) {
            Some(id) => id,
            None => "-"@,
        },
        None => "-"@,
    }
}

/// The identity of a grant: mailbox, host and client, whatever their case. The
/// name that the user gave the account is no part of it.
pub open spec fn grant_key(config: AccountConfig) -> Seq<char> {
    lowercase(config.username@) + "|"@ + lowercase(config.host@) + "|"@ + lowercase(
        client_of(config),
    )
}

/// Computes [`grant_key`].
pub fn account_key(config: &AccountConfig) -> (key: String)
    ensures
        key@ == grant_key(*config),
{
    let mut key = lowercase_of(config.username.as_str());
    key.append("|");
    let host = lowercase_of(config.host.as_str());
    key.append(host.as_str());
    key.append("|");
    let client = match &config.oauth2 {
        Some(o) => match &o.client_id {
            Some(id) => lowercase_of(id.as_str()),
            None => lowercase_of("-"),
        },
        None => lowercase_of("-"),
    };
    key.append(client.as_str());
    key
}

/// Two accounts on one mailbox that are authorized through different
/// applications have different keys, so neither overwrites the other's token.
/// Applications are told apart in lower case.
pub proof fn applications_have_keys_of_their_own(a: AccountConfig, b: AccountConfig)
    requires
        lowercase(a.username@) == lowercase(b.username@),
        lowercase(a.host@) == lowercase(b.host@),
        lowercase(client_of(a)) != lowercase(client_of(b)),
    ensures
        grant_key(a) != grant_key(b),
{
    let head = lowercase(a.username@) + "|"@ + lowercase(a.host@) + "|"@;
    if grant_key(a) == grant_key(b) {
        let n = head.len() as int;
        assert(grant_key(a).skip(n) =~= lowercase(client_of(a)));
        assert(grant_key(b).skip(n) =~= lowercase(client_of(b)));
    }
}

/// The mailbox in a key, for the log: the client's id stays out of it.
pub open spec fn mailbox_of(key: Seq<char>) -> Seq<char> {
    match find_last(key, "|"@, key.len() as int) {
        Some(i) => key.take(i),
        None => key,
    }
}

/// Computes [`mailbox_of`].
pub fn mailbox_part(key: &str) -> (out: String)
    ensures
        out@ == mailbox_of(key@),
{
    let cs = chars_of(key);
    let bar = chars_of("|");
    proof {
        reveal_strlit("|");
    }
    match find_last_at(&cs, &bar) {
        Some(i) => {
            let out = string_of_range(&cs, 0, i);
            proof {
                assert(out@ =~= key@.take(i as int));
            }
            out
        },
        None => copy_of(key),
    }
}

proof fn lemma_last_bar(key: Seq<char>, at: int, i: int)
    requires
        0 <= at <= i <= key.len(),
        at < key.len(),
        key[at] == '|',
        forall|j: int| at < j < key.len() ==> #[trigger] key[j] != '|',
    ensures
        find_last(key, "|"@, i) == Some(at),
    decreases i,
{
    reveal_strlit("|");
    if i == at {
        assert(key.subrange(at, at + 1) =~= "|"@);
    } else {
        if occurs_at(key, "|"@, i) {
            assert(key.subrange(i, i + 1)[0] == '|');
        }
        lemma_last_bar(key, at, i - 1);
    }
}

/// What the log shows of a key is the mailbox and the host; an application's id
/// that holds no bar stays out of it whole.
pub proof fn logs_show_the_mailbox_alone(config: AccountConfig)
    requires
        !lowercase(client_of(config)).contains('|'),
    ensures
        mailbox_of(grant_key(config)) == lowercase(config.username@) + "|"@ + lowercase(
            config.host@,
        ),
{
    reveal_strlit("|");
    let shown = lowercase(config.username@) + "|"@ + lowercase(config.host@);
    let client = lowercase(client_of(config));
    let key = grant_key(config);
    let at = shown.len() as int;
    assert(key =~= shown + "|"@ + client);
    assert forall|j: int| at < j < key.len() implies #[trigger] key[j] != '|' by {
        assert(key[j] == client[j - at - 1]);
        assert(client.contains(client[j - at - 1]));
    }
    lemma_last_bar(key, at, key.len() as int);
    assert(key.take(at) =~= shown);
}

/// The name that the user gave an account is no part of its key: accounts on one
/// mailbox with one application share it, whatever the case of their settings.
/// Accounts with different user names have different keys, as long as the names
/// hold no bar.
pub proof fn keys_tell_mailboxes_apart(a: AccountConfig, b: AccountConfig)
    ensures
        lowercase(a.username@) == lowercase(b.username@) && lowercase(a.host@) == lowercase(b.host@)
            && lowercase(client_of(a)) == lowercase(client_of(b)) ==> grant_key(a) == grant_key(b),
        lowercase(a.username@) != lowercase(b.username@) && !lowercase(a.username@).contains('|')
            && !lowercase(b.username@).contains('|') ==> grant_key(a) != grant_key(b),
{
    reveal_strlit("|");
    let x = lowercase(a.username@);
    let y = lowercase(b.username@);
    if x != y && !x.contains('|') && !y.contains('|') && grant_key(a) == grant_key(b) {
        let k = grant_key(a);
        assert("|"@.len() == 1);
        assert(k[x.len() as int] == '|');
        assert(grant_key(b)[y.len() as int] == '|');
        if x.len() < y.len() {
            assert(grant_key(b)[x.len() as int] == y[x.len() as int]);
            assert(y.contains(y[x.len() as int]));
        } else if y.len() < x.len() {
            assert(k[y.len() as int] == x[y.len() as int]);
            assert(x.contains(x[y.len() as int]));
        } else {
            assert(x =~= k.take(x.len() as int));
            assert(y =~= grant_key(b).take(y.len() as int));
        }
    }
}

// ---------------------------------------------------------------------------
// Files
// ---------------------------------------------------------------------------

/// The directory of the store: below the user's state directory, else below the
/// data directory.
pub open spec fn store_dir(state: Option<Seq<char>>, data: Option<Seq<char>>) -> Option<Seq<char>> {
    match (state, data) {
        (Some(d), _) => Some(path_below(d, "imap-mcp-rs"@)),
        (None, Some(d)) => Some(path_below(d, "imap-mcp-rs"@)),
        (None, None) => None,
    }
}

/// Tokens are kept below the user's state directory where there is one, else below
/// the data directory, and nowhere without either.
pub proof fn tokens_are_kept_with_the_user(state: Option<Seq<char>>, data: Option<Seq<char>>)
    ensures
        state matches Some(d) ==> (store_dir(state, data) matches Some(p) && begins_with(p, d)),
        state is None ==> (data matches Some(d) ==> (store_dir(state, data) matches Some(p)
            && begins_with(p, d))),
        state is None && data is None ==> store_dir(state, data) is None,
{
    if let Some(p) = store_dir(state, data) {
        let d = match state {
            Some(d) => d,
            None => data->0,
        };
        assert(p.subrange(0, d.len() as int) =~= d);
    }
}

/// Computes [`store_dir`]; an error where the system reports neither directory.
pub fn state_dir(state: Option<&str>, data: Option<&str>) -> (r: Result<String, String>)
    ensures
        match store_dir(opt_str(state), opt_str(data)) {
            Some(d) => r is Ok && r->Ok_0@ == d,
            None => r is Err && r->Err_0@
                == "Cannot determine a state directory (no XDG state/data dir)"@,
        },
{
    if let Some(d) = state {
        return Ok(join_path(d, "imap-mcp-rs"));
    }
    if let Some(d) = data {
        return Ok(join_path(d, "imap-mcp-rs"));
    }
    Err(copy_of("Cannot determine a state directory (no XDG state/data dir)"))
}

/// The file of the store.
pub fn state_file_path(state: Option<&str>, data: Option<&str>) -> (r: Result<String, String>)
    ensures
        match store_dir(opt_str(state), opt_str(data)) {
            Some(d) => r is Ok && r->Ok_0@ == path_below(d, "tokens.toml"@),
            None => r is Err && r->Err_0@
                == "Cannot determine a state directory (no XDG state/data dir)"@,
        },
{
    match state_dir(state, data) {
        Ok(d) => Ok(join_path(d.as_str(), "tokens.toml")),
        Err(e) => Err(e),
    }
}

/// A file that a write left behind when it was cut off. Such files hold tokens
/// and are removed at the next write.
pub fn is_abandoned(name: &str) -> (yes: bool)
    ensures
        yes == begins_with(name@, "tokens.toml.tmp-"@),
{
    text_begins_with(name, "tokens.toml.tmp-")
}

// ---------------------------------------------------------------------------
// The store
// ---------------------------------------------------------------------------

/// The tokens of all accounts, in the order of their keys.
#[derive(Debug)]
pub struct TokenTable {
    pub entries: Vec<(String, StoredToken)>,
}

/// The keys rise.
pub open spec fn keys_rise(l: Seq<(String, StoredToken)>) -> bool {
    forall|i: int, j: int|
        0 <= i < j < l.len() ==> text_before((#[trigger] l[i]).0@, (#[trigger] l[j]).0@)
}

/// The entry of a list with a key.
pub open spec fn entry_at(l: Seq<(String, StoredToken)>, key: Seq<char>, i: int) -> bool {
    0 <= i < l.len() && l[i].0@ == key
}

/// The token that a key has in a list.
pub open spec fn stored_for(l: Seq<(String, StoredToken)>, key: Seq<char>) -> Option<StoredView> {
    if exists|i: int| entry_at(l, key, i) {
        Some(l[choose|i: int| entry_at(l, key, i)].1@)
    } else {
        None
    }
}

impl TokenTable {
    /// The keys rise, so that no two entries have one key.
    pub open spec fn wf(self) -> bool {
        keys_rise(self.entries@)
    }

    /// The token that a key has.
    pub open spec fn token_for(self, key: Seq<char>) -> Option<StoredView> {
        stored_for(self.entries@, key)
    }

    /// A store without tokens.
    pub fn empty() -> (t: TokenTable)
        ensures
            t.wf(),
            forall|key: Seq<char>| #[trigger] t.token_for(key) is None,
    {
        let t = TokenTable { entries: Vec::new() };
        proof {
            assert forall|key: Seq<char>| #[trigger] t.token_for(key) is None by {
                assert forall|i: int| !entry_at(t.entries@, key, i) by {}
            }
        }
        t
    }
}

proof fn lemma_before_is_strict(a: Seq<char>)
    ensures
        !text_before(a, a),
    decreases a.len(),
{
    if a.len() > 0 {
        lemma_before_is_strict(a.drop_first());
    }
}

proof fn lemma_before_or_same(a: Seq<char>, b: Seq<char>)
    ensures
        a == b || text_before(a, b) || text_before(b, a),
    decreases a.len(),
{
    if a.len() == 0 {
        if b.len() == 0 {
            assert(a =~= b);
        }
    } else if b.len() > 0 && a[0] == b[0] {
        lemma_before_or_same(a.drop_first(), b.drop_first());
        if a.drop_first() == b.drop_first() {
            assert(a =~= seq![a[0]] + a.drop_first());
            assert(b =~= seq![b[0]] + b.drop_first());
        }
    }
}

proof fn lemma_unique(l: Seq<(String, StoredToken)>, key: Seq<char>, i: int, j: int)
    requires
        keys_rise(l),
        entry_at(l, key, i),
        entry_at(l, key, j),
    ensures
        i == j,
{
    lemma_before_is_strict(key);
    if i < j {
        assert(text_before(l[i].0@, l[j].0@));
    }
    if j < i {
        assert(text_before(l[j].0@, l[i].0@));
    }
}

/// A store gives for a key the token of the entry with that key, and nothing where
/// there is none.
pub proof fn stores_give_their_entries(t: TokenTable, key: Seq<char>, i: int)
    requires
        t.wf(),
    ensures
        0 <= i < t.entries@.len() && t.entries@[i].0@ == key ==> t.token_for(key) == Some(
            StoredView {
                refresh_token: t.entries@[i].1.refresh_token@,
                updated_at_unix: t.entries@[i].1.updated_at_unix,
            },
        ),
        (forall|j: int| 0 <= j < t.entries@.len() ==> (#[trigger] t.entries@[j]).0@ != key)
            ==> t.token_for(key) is None,
{
    let l = t.entries@;
    if 0 <= i < l.len() && l[i].0@ == key {
        assert(entry_at(l, key, i));
        let k = choose|k: int| entry_at(l, key, k);
        lemma_unique(l, key, i, k);
    }
    if forall|j: int| 0 <= j < l.len() ==> (#[trigger] l[j]).0@ != key {
        assert forall|j: int| !entry_at(l, key, j) by {}
    }
}

/// The token that a key has.
pub fn load(table: &TokenTable, key: &str) -> (out: Option<StoredToken>)
    requires
        table.wf(),
    ensures
        match out {
            Some(t) => table.token_for(key@) == Some(t@),
            None => table.token_for(key@) is None,
        },
{
    let mut i: usize = 0;
    while i < table.entries.len()
        invariant
            table.wf(),
            i <= table.entries@.len(),
            forall|j: int| 0 <= j < i ==> !entry_at(table.entries@, key@, j),
        decreases table.entries@.len() - i,
    {
        if same_text(table.entries[i].0.as_str(), key) {
            let stored = &table.entries[i].1;
            proof {
                let l = table.entries@;
                assert(entry_at(l, key@, i as int));
                let k = choose|k: int| entry_at(l, key@, k);
                lemma_unique(l, key@, i as int, k);
            }
            return Some(
                StoredToken {
                    refresh_token: copy_of(stored.refresh_token.as_str()),
                    updated_at_unix: stored.updated_at_unix,
                },
            );
        }
        i += 1;
    }
    proof {
        assert forall|j: int| !entry_at(table.entries@, key@, j) by {}
    }
    None
}

/// Stores a token under a key: the key has it from now on, and every other key
/// keeps what it had.
pub fn store(table: &mut TokenTable, key: &str, refresh_token: &str, now_unix: u64)
    requires
        old(table).wf(),
    ensures
        final(table).wf(),
        final(table).token_for(key@) == Some(
            StoredView { refresh_token: refresh_token@, updated_at_unix: now_unix },
        ),
        forall|other: Seq<char>|
            other != key@ ==> #[trigger] final(table).token_for(other) == old(table).token_for(
                other,
            ),
{
    let ghost before = table.entries@;
    let n: usize = table.entries.len();
    let mut i: usize = 0;
    while i < n && text_is_before(table.entries[i].0.as_str(), key)
        invariant
            n == table.entries@.len(),
            table.entries@ == before,
            keys_rise(before),
            i <= n,
            forall|j: int| 0 <= j < i ==> text_before((#[trigger] before[j]).0@, key@),
        decreases n - i,
    {
        i += 1;
    }
    let entry = (
        copy_of(key),
        StoredToken { refresh_token: copy_of(refresh_token), updated_at_unix: now_unix },
    );
    if i < n && same_text(table.entries[i].0.as_str(), key) {
        table.entries.set(i, entry);
    } else {
        table.entries.insert(i, entry);
        proof {
            if i < n {
                lemma_before_or_same(before[i as int].0@, key@);
            }
        }
    }
    proof {
        let after = table.entries@;
        let at = i as int;
        let replaced = after.len() == before.len();
        assert(after[at] == entry);
        assert forall|a: int, b: int| 0 <= a < b < after.len() implies text_before(
            (#[trigger] after[a]).0@,
            (#[trigger] after[b]).0@,
        ) by {
            if replaced {
                assert(text_before(before[a].0@, before[b].0@));
                assert(after[a].0@ == before[a].0@);
                assert(after[b].0@ == before[b].0@);
            } else {
                let pa = if a < at {
                    a
                } else {
                    a - 1
                };
                let pb = if b < at {
                    b
                } else {
                    b - 1
                };
                if a != at && b != at {
                    assert(text_before(before[pa].0@, before[pb].0@));
                } else if a == at {
                    assert(after[b] == before[b - 1]);
                    if b - 1 > at {
                        assert(text_before(before[at].0@, before[b - 1].0@));
                        lemma_text_order(before[at].0@, key@, before[b - 1].0@);
                    }
                } else {
                    assert(after[a] == before[a]);
                }
            }
        }
        assert(keys_rise(after));
        assert(entry_at(after, key@, at));
        let k = choose|k: int| entry_at(after, key@, k);
        lemma_unique(after, key@, at, k);
        assert forall|other: Seq<char>| other != key@ implies #[trigger] table.token_for(other)
            == old(table).token_for(other) by {
            lemma_other_kept(before, after, at, replaced, other, key@);
        }
    }
}

proof fn lemma_other_kept(
    before: Seq<(String, StoredToken)>,
    after: Seq<(String, StoredToken)>,
    at: int,
    replaced: bool,
    other: Seq<char>,
    key: Seq<char>,
)
    requires
        keys_rise(before),
        keys_rise(after),
        0 <= at < after.len(),
        after[at].0@ == key,
        other != key,
        replaced ==> after.len() == before.len() && before[at].0@ == key && (forall|j: int|
            0 <= j < before.len() && j != at ==> #[trigger] after[j] == before[j]),
        !replaced ==> at <= before.len() && after.len() == before.len() + 1 && (forall|j: int|
            0 <= j < at ==> #[trigger] after[j] == before[j]) && (forall|j: int|
            at < j < after.len() ==> #[trigger] after[j] == before[j - 1]),
    ensures
        stored_for(after, other) == stored_for(before, other),
{
    if exists|i: int| entry_at(after, other, i) {
        let i = choose|i: int| entry_at(after, other, i);
        let j = if replaced || i < at {
            i
        } else {
            i - 1
        };
        assert(after[i] == before[j]);
        assert(entry_at(before, other, j));
        let k = choose|k: int| entry_at(before, other, k);
        lemma_unique(before, other, j, k);
    } else if exists|j: int| entry_at(before, other, j) {
        let j = choose|j: int| entry_at(before, other, j);
        let i = if replaced || j < at {
            j
        } else {
            j + 1
        };
        assert(after[i] == before[j]);
        assert(entry_at(after, other, i));
    }
}

/// The last entry of a list with a key.
pub open spec fn last_entry(l: Seq<(String, StoredToken)>, key: Seq<char>) -> Option<StoredView>
    decreases l.len(),
{
    if l.len() == 0 {
        None
    } else if l.last().0@ == key {
        Some(l.last().1@)
    } else {
        last_entry(l.drop_last(), key)
    }
}

/// Of several entries with one key the last counts.
pub proof fn last_entries_count(l: Seq<(String, StoredToken)>, key: Seq<char>, i: int)
    requires
        0 <= i < l.len(),
        l[i].0@ == key,
        forall|j: int| i < j < l.len() ==> (#[trigger] l[j]).0@ != key,
    ensures
        last_entry(l, key) == Some(
            StoredView {
                refresh_token: l[i].1.refresh_token@,
                updated_at_unix: l[i].1.updated_at_unix,
            },
        ),
    decreases l.len(),
{
    if i < l.len() - 1 {
        assert(l[l.len() - 1].0@ != key);
        last_entries_count(l.drop_last(), key, i);
    }
}

impl TokenTable {
    /// A store with the entries of a list, in any order; of several with one key
    /// the last counts.
    pub fn from_entries(entries: Vec<(String, StoredToken)>) -> (t: TokenTable)
        ensures
            t.wf(),
            forall|key: Seq<char>| #[trigger] t.token_for(key) == last_entry(entries@, key),
    {
        let ghost all = entries@;
        let mut t = TokenTable::empty();
        let mut i: usize = 0;
        while i < entries.len()
            invariant
                i <= entries@.len(),
                all == entries@,
                t.wf(),
                forall|key: Seq<char>| #[trigger]
                    t.token_for(key) == last_entry(all.take(i as int), key),
            decreases entries@.len() - i,
        {
            let e = &entries[i];
            store(
                &mut t,
                e.0.as_str(),
                e.1.refresh_token.as_str(),
                e.1.updated_at_unix,
            );
            proof {
                assert(all.take(i as int + 1).drop_last() =~= all.take(i as int));
                assert(all.take(i as int + 1).last() == *e);
            }
            i += 1;
        }
        proof {
            assert(all.take(all.len() as int) =~= all);
        }
        t
    }
}

} // verus!
