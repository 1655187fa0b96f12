//! Settings: the accounts, and what must hold of them before the server starts.

use vstd::prelude::*;

use crate::text::begins_with;
use crate::text::chars_of;
use crate::text::copy_of;
use crate::text::find_last;
use crate::text::find_last_at;
use crate::text::lowercase;
use crate::text::lowercase_of;
use crate::text::next_char_at;
use crate::text::occurs_at;
use crate::text::opt_str;
use crate::text::opt_text;
use crate::text::same_text;
use crate::text::string_of_range;
use crate::text::texts;

verus! {

/// How an account logs in.
#[derive(Debug, Clone, Copy, PartialEq, Eq, Structural)]
pub enum AuthMethod {
    Password,
    OAuth2,
}

/// Whose OAuth2 service an account uses.
#[derive(Debug, Clone, Copy, PartialEq, Eq, Structural)]
pub enum OAuth2Provider {
    Gmail,
    Outlook365,
    Custom,
}

/// The OAuth2 settings of an account.
pub struct OAuth2Config {
    pub provider: OAuth2Provider,
    pub client_id: Option<String>,
    pub client_secret: Option<String>,
    pub refresh_token: Option<String>,
    pub tenant: Option<String>,
    pub token_url: Option<String>,
}

/// The settings of an account.
pub struct AccountConfig {
    pub name: String,
    pub host: String,
    pub port: u16,
    pub username: String,
    /// The address that drafts are from; the user name where it is absent.
    pub email: Option<String>,
    /// The display name that drafts are from.
    pub display_name: Option<String>,
    /// The HTML signature of drafts.
    pub signature_html: Option<String>,
    /// The plain-text signature of drafts; derived from the HTML where it is
    /// absent.
    pub signature_text: Option<String>,
    /// The language of drafts.
    pub locale: Option<String>,
    pub read_only: bool,
    pub allow_delete: bool,
    pub allow_move: bool,
    pub accept_invalid_certs: bool,
    /// Plain `EXPUNGE` is allowed where the server has no `UID EXPUNGE`.
    pub allow_unsafe_expunge: bool,
    /// The folders that may be used; all where it is absent.
    pub allowed_folders: Option<Vec<String>>,
    pub auth_method: AuthMethod,
    pub password: Option<String>,
    pub oauth2: Option<OAuth2Config>,
}

/// The settings of the server.
pub struct ServerConfig {
    pub accounts: Vec<AccountConfig>,
    /// The directories that attachments may be read from.
    pub allowed_attachment_dirs: Vec<String>,
}

/// The port of IMAP over TLS, which an account has unless it names another.
pub const DEFAULT_PORT: u16 = 993;

impl OAuth2Config {
    /// The address of the token service: the explicit one, or the provider's.
    pub open spec fn token_address(self) -> Result<Seq<char>, Seq<char>> {
        match opt_text(self.token_url) {
            Some(url) => Ok(url),
            None => match self.provider {
                OAuth2Provider::Gmail => Ok("https://oauth2.googleapis.com/token"@),
                OAuth2Provider::Outlook365 => Ok(
                    "https://login.microsoftonline.com/"@ + (match opt_text(self.tenant) {
                        Some(t) => t,
                        None => "common"@,
                    }) + "/oauth2/v2.0/token"@,
                ),
                OAuth2Provider::Custom => Err("token_url required for custom OAuth2 provider"@),
            },
        }
    }

    /// The address of the token service; an error for a custom provider without
    /// one.
    pub fn token_url(&self) -> (url: Result<String, String>)
        ensures
            match (url, self.token_address()) {
                (Ok(a), Ok(b)) => a@ == b,
                (Err(a), Err(b)) => a@ == b,
                _ => false,
            },
    {
        match &self.token_url {
            Some(url) => Ok(copy_of(url.as_str())),
            None => match self.provider {
                OAuth2Provider::Gmail => Ok(copy_of("https://oauth2.googleapis.com/token")),
                OAuth2Provider::Outlook365 => {
                    let mut url = copy_of("https://login.microsoftonline.com/");
                    match &self.tenant {
                        Some(t) => url.append(t.as_str()),
                        None => url.append("common"),
                    }
                    url.append("/oauth2/v2.0/token");
                    Ok(url)
                },
                OAuth2Provider::Custom => Err(
                    copy_of("token_url required for custom OAuth2 provider"),
                ),
            },
        }
    }
}

impl AccountConfig {
    pub open spec fn sender(self) -> Seq<char> {
        match opt_text(self.email) {
            Some(e) => e,
            None => self.username@,
        }
    }

    /// The address that drafts are from.
    pub fn sender_address(&self) -> (s: &str)
        ensures
            s@ == self.sender(),
    {
        match &self.email {
            Some(e) => e.as_str(),
            None => self.username.as_str(),
        }
    }

    /// The domain of message ids: what stands behind the last `@` of the
    /// sender's address, or the host where that is nothing.
    pub open spec fn id_domain(self) -> Seq<char> {
        let sender = self.sender();
        let domain = match find_last(sender, "@"@, sender.len() as int) {
            Some(i) => sender.subrange(i + 1, sender.len() as int),
            None => Seq::empty(),
        };
        if domain.len() == 0 {
            self.host@
        } else {
            domain
        }
    }

    /// Computes [`AccountConfig::id_domain`].
    pub fn message_id_domain(&self) -> (s: String)
        ensures
            s@ == self.id_domain(),
    {
        let cs = chars_of(self.sender_address());
        let at = chars_of("@");
        let n: usize = cs.len();
        proof {
            reveal_strlit("@");
        }
        match find_last_at(&cs, &at) {
            Some(i) => {
                if i + 1 < n {
                    string_of_range(&cs, i + 1, n)
                } else {
                    copy_of(self.host.as_str())
                }
            },
            None => copy_of(self.host.as_str()),
        }
    }
}

proof fn lemma_last_sign(a: Seq<char>, b: Seq<char>, i: int)
    requires
        !b.contains('@'),
        a.len() <= i <= a.len() + 1 + b.len(),
    ensures
        find_last(a + seq!['@'] + b, seq!['@'], i) == Some(a.len() as int),
    decreases i,
{
    let s = a + seq!['@'] + b;
    let n = a.len() as int;
    if i == n {
        assert(s.subrange(n, n + 1) =~= seq!['@']);
    } else {
        lemma_last_sign(a, b, i - 1);
        if occurs_at(s, seq!['@'], i) {
            assert(s.subrange(i, i + 1)[0] == '@');
            assert(s[i] == b[i - n - 1]);
        }
    }
}

/// Drafts are from the account's address, or its user name where it has none, and
/// their ids are in the domain of that address, which is what stands behind its
/// last `@`.
pub proof fn drafts_come_from_the_account(a: AccountConfig, local: Seq<char>, domain: Seq<char>)
    requires
        !domain.contains('@'),
        domain.len() > 0,
    ensures
        a.email matches Some(e) ==> a.sender() == e@,
        a.email is None ==> a.sender() == a.username@,
        a.sender() == local + seq!['@'] + domain ==> a.id_domain() == domain,
        !a.sender().contains('@') ==> a.id_domain() == a.host@,
{
    reveal_strlit("@");
    assert("@"@ =~= seq!['@']);
    let s = a.sender();
    if s == local + seq!['@'] + domain {
        lemma_last_sign(local, domain, s.len() as int);
        assert(s.subrange(local.len() as int + 1, s.len() as int) =~= domain);
    }
    if !s.contains('@') {
        lemma_no_sign(s, s.len() as int);
    }
}

proof fn lemma_no_sign(s: Seq<char>, i: int)
    requires
        !s.contains('@'),
    ensures
        find_last(s, seq!['@'], i) is None,
    decreases i + 1,
{
    if i >= 0 {
        lemma_no_sign(s, i - 1);
        if occurs_at(s, seq!['@'], i) {
            assert(s.subrange(i, i + 1)[0] == '@');
            assert(s[i] == '@');
        }
    }
}

/// The token service is the one that the settings name; where they name none, it
/// is the provider's own, and a provider of which nothing is known has none.
pub proof fn token_services_are_the_providers_own(o: OAuth2Config)
    ensures
        o.token_url matches Some(url) ==> o.token_address() == Ok::<Seq<char>, Seq<char>>(url@),
        o.token_url is None ==> match (o.provider, o.token_address()) {
            (OAuth2Provider::Gmail, Ok(url)) => begins_with(url, "https://oauth2.googleapis.com/"@),
            (OAuth2Provider::Outlook365, Ok(url)) => {
                let tenant = match o.tenant {
                    Some(t) => t@,
                    None => "common"@,
                };
                begins_with(url, "https://login.microsoftonline.com/"@ + tenant + "/"@)
            },
            (OAuth2Provider::Custom, Err(_)) => true,
            _ => false,
        },
{
    if o.token_url is None {
        if o.provider == OAuth2Provider::Gmail {
            reveal_strlit("https://oauth2.googleapis.com/");
            reveal_strlit("https://oauth2.googleapis.com/token");
            let url = "https://oauth2.googleapis.com/token"@;
            let start = "https://oauth2.googleapis.com/"@;
            assert(url.subrange(0, start.len() as int) =~= start);
        } else if o.provider == OAuth2Provider::Outlook365 {
            reveal_strlit("/");
            reveal_strlit("/oauth2/v2.0/token");
            let tenant = match o.tenant {
                Some(t) => t@,
                None => "common"@,
            };
            let start = "https://login.microsoftonline.com/"@ + tenant + "/"@;
            let url = o.token_address()->Ok_0;
            assert(url.subrange(0, start.len() as int) =~= start);
        }
    }
}

// ---------------------------------------------------------------------------
// Validation
// ---------------------------------------------------------------------------

/// An earlier account has the same name, whatever its case.
pub open spec fn repeats_name(accounts: Seq<AccountConfig>, i: int) -> bool {
    exists|j: int|
        0 <= j < i && lowercase((#[trigger] accounts[j]).name@) == lowercase(accounts[i].name@)
}

/// An account from which drafts would have no valid sender.
pub open spec fn lacks_sender(a: AccountConfig) -> bool {
    a.email is None && !a.username@.contains('@')
}

/// An account whose list of folders is present and empty.
pub open spec fn lists_no_folder(a: AccountConfig) -> bool {
    a.allowed_folders matches Some(l) && l@.len() == 0
}

/// Position `i` is the first of `accounts` at which a fault lies.
pub open spec fn first_fault(accounts: Seq<AccountConfig>, fault: spec_fn(int) -> bool, i: int) -> bool {
    &&& 0 <= i < accounts.len()
    &&& fault(i)
    &&& forall|j: int| 0 <= j < i ==> !#[trigger] fault(j)
}

/// No account has a fault.
pub open spec fn faultless(accounts: Seq<AccountConfig>, fault: spec_fn(int) -> bool) -> bool {
    forall|j: int| 0 <= j < accounts.len() ==> !#[trigger] fault(j)
}

pub open spec fn name_fault(accounts: Seq<AccountConfig>) -> spec_fn(int) -> bool {
    |i: int| repeats_name(accounts, i)
}

pub open spec fn sender_fault(accounts: Seq<AccountConfig>) -> spec_fn(int) -> bool {
    |i: int| lacks_sender(accounts[i])
}

pub open spec fn folder_fault(accounts: Seq<AccountConfig>) -> spec_fn(int) -> bool {
    |i: int| lists_no_folder(accounts[i])
}

/// What is wrong with the settings, where something is: the first of five
/// checks that fails, at the first account that fails it.
pub open spec fn config_complaint(c: ServerConfig, text: Seq<char>) -> bool {
    let accounts = c.accounts@;
    if accounts.len() == 0 {
        text == "Config must contain at least one [[accounts]] entry"@
    } else if !faultless(accounts, name_fault(accounts)) {
        exists|i: int| #[trigger]
            first_fault(accounts, name_fault(accounts), i) && text == "Duplicate account name: \""@
                + accounts[i].name@ + "\""@
    } else if !faultless(accounts, sender_fault(accounts)) {
        exists|i: int| #[trigger]
            first_fault(accounts, sender_fault(accounts), i) && text == "Account \""@
                + accounts[i].name@ + "\" needs an `email` field — username \""@
                + accounts[i].username@
                + "\" is not an email address and drafts require a valid From header"@
    } else if !faultless(accounts, folder_fault(accounts)) {
        exists|i: int| #[trigger]
            first_fault(accounts, folder_fault(accounts), i) && text == "Account \""@
                + accounts[i].name@
                + "\" has an empty `allowed_folders` list — omit the field to allow all folders, or list the folders you want to expose"@
    } else {
        c.allowed_attachment_dirs@.len() == 0 && text
            == "`allowed_attachment_dirs = []` is invalid — omit the field for the default (XDG_RUNTIME_DIR), or list the dirs from which attachments may be read"@
    }
}

/// The settings that the server starts with.
pub open spec fn valid_config(c: ServerConfig) -> bool {
    let accounts = c.accounts@;
    &&& accounts.len() > 0
    &&& faultless(accounts, name_fault(accounts))
    &&& faultless(accounts, sender_fault(accounts))
    &&& faultless(accounts, folder_fault(accounts))
    &&& c.allowed_attachment_dirs@.len() > 0
}

/// Checks the settings that were read.
pub fn validate_config(c: &ServerConfig) -> (r: Result<(), String>)
    ensures
        r is Ok <==> valid_config(*c),
        r matches Err(text) ==> config_complaint(*c, text@),
{
    let accounts = &c.accounts;
    if accounts.len() == 0 {
        return Err(copy_of("Config must contain at least one [[accounts]] entry"));
    }
    if let Some(i) = repeated_name(accounts) {
        let mut text = copy_of("Duplicate account name: \"");
        text.append(accounts[i].name.as_str());
        text.append("\"");
        return Err(text);
    }
    let mut i: usize = 0;
    let ghost fault = sender_fault(accounts@);
    while i < accounts.len()
        invariant
            i <= accounts@.len(),
            *accounts == c.accounts,
            fault == sender_fault(accounts@),
            accounts@.len() > 0,
            faultless(accounts@, name_fault(accounts@)),
            forall|j: int| 0 <= j < i ==> !#[trigger] fault(j),
        decreases accounts@.len() - i,
    {
        let account = &accounts[i];
        if account.email.is_none() {
            let user = chars_of(account.username.as_str());
            let at = next_char_at(&user, '@', 0);
            proof {
                if account.username@.contains('@') {
                    let k = choose|k: int|
                        0 <= k < account.username@.len() && account.username@[k] == '@';
                    assert(user@[k] == '@');
                } else if at < user@.len() {
                    assert(account.username@[at as int] == '@');
                }
            }
            if at >= user.len() {
                let mut text = copy_of("Account \"");
                text.append(account.name.as_str());
                text.append("\" needs an `email` field — username \"");
                text.append(account.username.as_str());
                text.append("\" is not an email address and drafts require a valid From header");
                assert(fault(i as int));
                assert(first_fault(accounts@, fault, i as int));
                return Err(text);
            }
        }
        i += 1;
    }
    let mut i: usize = 0;
    let ghost fault = folder_fault(accounts@);
    while i < accounts.len()
        invariant
            i <= accounts@.len(),
            *accounts == c.accounts,
            fault == folder_fault(accounts@),
            accounts@.len() > 0,
            faultless(accounts@, name_fault(accounts@)),
            faultless(accounts@, sender_fault(accounts@)),
            forall|j: int| 0 <= j < i ==> !#[trigger] fault(j),
        decreases accounts@.len() - i,
    {
        let account = &accounts[i];
        if let Some(list) = &account.allowed_folders {
            if list.len() == 0 {
                let mut text = copy_of("Account \"");
                text.append(account.name.as_str());
                text.append(
                    "\" has an empty `allowed_folders` list — omit the field to allow all folders, or list the folders you want to expose",
                );
                assert(fault(i as int));
                assert(first_fault(accounts@, fault, i as int));
                return Err(text);
            }
        }
        i += 1;
    }
    if c.allowed_attachment_dirs.len() == 0 {
        return Err(
            copy_of(
                "`allowed_attachment_dirs = []` is invalid — omit the field for the default (XDG_RUNTIME_DIR), or list the dirs from which attachments may be read",
            ),
        );
    }
    Ok(())
}

/// The first account whose name an earlier one has.
fn repeated_name(accounts: &Vec<AccountConfig>) -> (found: Option<usize>)
    ensures
        match found {
            Some(i) => first_fault(accounts@, name_fault(accounts@), i as int),
            None => faultless(accounts@, name_fault(accounts@)),
        },
{
    let ghost fault = name_fault(accounts@);
    let mut seen: Vec<String> = Vec::new();
    let mut i: usize = 0;
    while i < accounts.len()
        invariant
            i <= accounts@.len(),
            fault == name_fault(accounts@),
            seen@.len() == i,
            forall|j: int| 0 <= j < i ==> (#[trigger] seen@[j])@ == lowercase(accounts@[j].name@),
            forall|j: int| 0 <= j < i ==> !#[trigger] fault(j),
        decreases accounts@.len() - i,
    {
        let lower = lowercase_of(accounts[i].name.as_str());
        let mut j: usize = 0;
        while j < seen.len()
            invariant
                i < accounts@.len(),
                fault == name_fault(accounts@),
                seen@.len() == i,
                j <= i,
                lower@ == lowercase(accounts@[i as int].name@),
                forall|j: int|
                    0 <= j < i ==> (#[trigger] seen@[j])@ == lowercase(accounts@[j].name@),
                forall|k: int| 0 <= k < i ==> !#[trigger] fault(k),
                forall|k: int|
                    0 <= k < j ==> lowercase((#[trigger] accounts@[k]).name@) != lower@,
            decreases i - j,
        {
            if same_text(seen[j].as_str(), lower.as_str()) {
                proof {
                    assert(seen@[j as int]@ == lowercase(accounts@[j as int].name@));
                    assert(fault(i as int));
                }
                return Some(i);
            }
            j += 1;
        }
        assert(!fault(i as int));
        seen.push(lower);
        i += 1;
    }
    None
}

/// In valid settings no two accounts have one name, whatever its case.
pub proof fn valid_names_differ(c: ServerConfig, i: int, j: int)
    requires
        valid_config(c),
        0 <= i < j < c.accounts@.len(),
    ensures
        lowercase(c.accounts@[i].name@) != lowercase(c.accounts@[j].name@),
{
    assert(!name_fault(c.accounts@)(j));
    assert(!repeats_name(c.accounts@, j));
}

/// Settings are accepted exactly where they have an account, no two accounts go by
/// one name, whatever its case, every account has an address to write from, no
/// account lists no folder at all, and there is a directory that attachments may be
/// read from. What is complained of is never accepted.
pub proof fn settings_are_accepted_without_fault(c: ServerConfig, text: Seq<char>)
    ensures
        valid_config(c) <==> {
            &&& c.accounts@.len() > 0
            &&& forall|i: int, j: int|
                0 <= i < j < c.accounts@.len() ==> lowercase((#[trigger] c.accounts@[i]).name@)
                    != lowercase((#[trigger] c.accounts@[j]).name@)
            &&& forall|i: int|
                0 <= i < c.accounts@.len() ==> (#[trigger] c.accounts@[i]).email is Some
                    || c.accounts@[i].username@.contains('@')
            &&& forall|i: int|
                0 <= i < c.accounts@.len() ==> ((
                #[trigger] c.accounts@[i]).allowed_folders matches Some(l) ==> l@.len() > 0)
            &&& c.allowed_attachment_dirs@.len() > 0
        },
        config_complaint(c, text) ==> !valid_config(c),
{
    let accounts = c.accounts@;
    if valid_config(c) {
        assert forall|i: int, j: int| 0 <= i < j < accounts.len() implies lowercase(
            (#[trigger] accounts[i]).name@,
        ) != lowercase((#[trigger] accounts[j]).name@) by {
            valid_names_differ(c, i, j);
        }
        assert forall|i: int| 0 <= i < accounts.len() implies (#[trigger] accounts[i]).email is Some
            || accounts[i].username@.contains('@') by {
            assert(!sender_fault(accounts)(i));
        }
        assert forall|i: int| 0 <= i < accounts.len() implies ((
        #[trigger] accounts[i]).allowed_folders matches Some(l) ==> l@.len() > 0) by {
            assert(!folder_fault(accounts)(i));
        }
    }
}

// ---------------------------------------------------------------------------
// Accounts by name
// ---------------------------------------------------------------------------

/// The name under which an account is looked up: the given one, or the first
/// account's, in lower case.
pub open spec fn lookup_name(accounts: Seq<AccountConfig>, account: Option<Seq<char>>) -> Seq<char> {
    match account {
        Some(name) => lowercase(name),
        None => if accounts.len() == 0 {
            Seq::empty()
        } else {
            lowercase(accounts[0].name@)
        },
    }
}

/// Computes [`lookup_name`].
pub fn account_lookup_name(accounts: &Vec<AccountConfig>, account: Option<&str>) -> (out: String)
    ensures
        out@ == lookup_name(accounts@, opt_str(account)),
{
    match account {
        Some(name) => lowercase_of(name),
        None => if accounts.len() == 0 {
            String::new()
        } else {
            lowercase_of(accounts[0].name.as_str())
        },
    }
}

/// The account that a request means: the first one with the name, whatever its
/// case; the first account where no name is given.
pub fn find_account(accounts: &Vec<AccountConfig>, account: Option<&str>) -> (r: Result<
    usize,
    String,
>)
    ensures
        match r {
            Ok(i) => i < accounts@.len() && lowercase(accounts@[i as int].name@) == lookup_name(
                accounts@,
                opt_str(account),
            ) && forall|j: int|
                0 <= j < i ==> lowercase((#[trigger] accounts@[j]).name@) != lookup_name(
                    accounts@,
                    opt_str(account),
                ),
            Err(text) => text@ == "Account \""@ + lookup_name(accounts@, opt_str(account))
                + "\" not found"@ && forall|j: int|
                0 <= j < accounts@.len() ==> lowercase((#[trigger] accounts@[j]).name@)
                    != lookup_name(accounts@, opt_str(account)),
        },
{
    let wanted = account_lookup_name(accounts, account);
    let mut i: usize = 0;
    while i < accounts.len()
        invariant
            i <= accounts@.len(),
            wanted@ == lookup_name(accounts@, opt_str(account)),
            forall|j: int| 0 <= j < i ==> lowercase((#[trigger] accounts@[j]).name@) != wanted@,
        decreases accounts@.len() - i,
    {
        let lower = lowercase_of(accounts[i].name.as_str());
        if same_text(lower.as_str(), wanted.as_str()) {
            return Ok(i);
        }
        i += 1;
    }
    let mut text = copy_of("Account \"");
    text.append(wanted.as_str());
    text.append("\" not found");
    Err(text)
}

/// What a request for an account without a connection is answered.
pub fn no_client_text(name: &str) -> (out: String)
    ensures
        out@ == "No client for account \""@ + name@ + "\""@,
{
    let mut text = copy_of("No client for account \"");
    text.append(name);
    text.append("\"");
    text
}

/// In valid settings each account is found under its own name, and the first
/// one without a name.
pub proof fn accounts_are_found(c: ServerConfig, i: int)
    requires
        valid_config(c),
        0 <= i < c.accounts@.len(),
    ensures
        lookup_name(c.accounts@, Some(c.accounts@[i].name@)) == lowercase(c.accounts@[i].name@),
        forall|j: int|
            0 <= j < i ==> lowercase((#[trigger] c.accounts@[j]).name@) != lookup_name(
                c.accounts@,
                Some(c.accounts@[i].name@),
            ),
        lookup_name(c.accounts@, None) == lowercase(c.accounts@[0].name@),
{
    assert forall|j: int| 0 <= j < i implies lowercase((#[trigger] c.accounts@[j]).name@)
        != lookup_name(c.accounts@, Some(c.accounts@[i].name@)) by {
        valid_names_differ(c, j, i);
    }
}

// ---------------------------------------------------------------------------
// Paths
// ---------------------------------------------------------------------------

/// A path below a directory.
pub open spec fn path_below(dir: Seq<char>, name: Seq<char>) -> Seq<char> {
    if dir.len() == 0 || dir.last() == '/' {
        dir + name
    } else {
        dir + "/"@ + name
    }
}

/// Computes [`path_below`].
pub fn join_path(dir: &str, name: &str) -> (out: String)
    ensures
        out@ == path_below(dir@, name@),
{
    let cs = chars_of(dir);
    let n: usize = cs.len();
    let mut out = copy_of(dir);
    if n > 0 && cs[n - 1] != '/' {
        out.append("/");
    }
    out.append(name);
    out
}

/// The directory that attachments are saved to and read from unless the
/// settings name others: below the user's runtime directory, else below the
/// cache directory, else a directory of the user's under `/tmp`.
pub open spec fn default_dir(
    runtime: Option<Seq<char>>,
    cache: Option<Seq<char>>,
    user: Option<Seq<char>>,
) -> Seq<char> {
    match (runtime, cache) {
        (Some(d), _) => path_below(d, "imap-mcp-rs"@),
        (None, Some(d)) => path_below(d, "imap-mcp-rs"@),
        (None, None) => "/tmp/imap-mcp-rs-"@ + (match user {
            Some(u) => u,
            None => "default"@,
        }),
    }
}

/// Attachments are kept below the user's runtime directory where there is one, else
/// below the cache directory, and only without either in a directory under `/tmp`
/// that bears the user's name.
pub proof fn attachments_are_kept_with_the_user(
    runtime: Option<Seq<char>>,
    cache: Option<Seq<char>>,
    user: Seq<char>,
)
    ensures
        runtime matches Some(d) ==> begins_with(default_dir(runtime, cache, Some(user)), d),
        runtime is None ==> (cache matches Some(d) ==> begins_with(
            default_dir(runtime, cache, Some(user)),
            d,
        )),
        runtime is None && cache is None ==> default_dir(runtime, cache, Some(user))
            == "/tmp/imap-mcp-rs-"@ + user,
{
    if let Some(d) = runtime {
        let p = default_dir(runtime, cache, Some(user));
        assert(p.subrange(0, d.len() as int) =~= d);
    } else if let Some(d) = cache {
        let p = default_dir(runtime, cache, Some(user));
        assert(p.subrange(0, d.len() as int) =~= d);
    }
}

/// Computes [`default_dir`] from the directories and the user name that the
/// system reports.
pub fn default_attachment_dir(runtime: Option<&str>, cache: Option<&str>, user: Option<&str>) -> (out:
    String)
    ensures
        out@ == default_dir(opt_str(runtime), opt_str(cache), opt_str(user)),
{
    if let Some(d) = runtime {
        return join_path(d, "imap-mcp-rs");
    }
    if let Some(d) = cache {
        return join_path(d, "imap-mcp-rs");
    }
    let mut out = copy_of("/tmp/imap-mcp-rs-");
    match user {
        Some(u) => out.append(u),
        None => out.append("default"),
    }
    out
}

/// The places where settings are looked for, in order. The working directory is
/// not among them.
pub fn config_candidates(config_dir: Option<&str>) -> (out: Vec<String>)
    ensures
        texts(out@) == match opt_str(config_dir) {
            Some(d) => seq![
                path_below(path_below(d, "imap-mcp-rs"@), "config.toml"@),
                "/etc/imap-mcp-rs/config.toml"@,
            ],
            None => seq!["/etc/imap-mcp-rs/config.toml"@],
        },
{
    let mut out: Vec<String> = Vec::new();
    if let Some(d) = config_dir {
        let own = join_path(d, "imap-mcp-rs");
        out.push(join_path(own.as_str(), "config.toml"));
    }
    out.push(copy_of("/etc/imap-mcp-rs/config.toml"));
    proof {
        let want = match opt_str(config_dir) {
            Some(d) => seq![
                path_below(path_below(d, "imap-mcp-rs"@), "config.toml"@),
                "/etc/imap-mcp-rs/config.toml"@,
            ],
            None => seq!["/etc/imap-mcp-rs/config.toml"@],
        };
        assert(texts(out@) =~= want);
    }
    out
}

} // verus!
