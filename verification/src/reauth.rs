//! The command that authorizes an account: arguments, the authorization
//! address, and the answers to the browser.

use base64::Engine;
use vstd::prelude::*;
use vstd::utf8::decode_utf8;
use vstd::utf8::encode_utf8;
use vstd::utf8::encode_utf8_decode_utf8;
use vstd::utf8::encode_utf8_valid_utf8;
use vstd::utf8::is_ascii_chars;
use vstd::utf8::is_ascii_chars_encode_utf8;
use vstd::utf8::valid_utf8;

use crate::config::AccountConfig;
use crate::config::AuthMethod;
use crate::config::OAuth2Config;
use crate::config::OAuth2Provider;
use crate::imap_client::util::text_from_utf8;
use crate::lookup::count_in;
use crate::lookup::only_in;
use crate::oauth2::ErrorBody;
use crate::oauth2::client_secret_param;
use crate::oauth2::form_byte;
use crate::oauth2::form_bytes;
use crate::oauth2::form_text;
use crate::oauth2::is_success;
use crate::oauth2::parse_error_body;
use crate::oauth2::refresh_form;
use crate::oauth2::refusal_fields;
use crate::oauth2::secret_field;
use crate::oauth2::unreserved;
use crate::oauth2::urlencoded;
use crate::oauth2::OAuth2Error;
use crate::text::begins_with;
use crate::text::byte_len;
use crate::text::byte_len_of;
use crate::text::chars_of;
use crate::text::contains_text;
use crate::text::copy_of;
use crate::text::decimal;
use crate::text::decimal_string;
use crate::text::join;
use crate::text::joined;
use crate::text::lemma_next_char;
use crate::text::lemma_split_behind;
use crate::text::lowercase;
use crate::text::lowercase_of;
use crate::text::next_char;
use crate::text::next_char_at;
use crate::text::opt_str;
use crate::text::opt_text;
use crate::text::parse_number;
use crate::text::parsed_number;
use crate::text::ranges_text;
use crate::text::runs_of;
use crate::text::same_text;
use crate::text::split;
use crate::text::split_ranges;
use crate::text::string_of_range;
use crate::text::text_begins_with;
use crate::text::text_contains;
use crate::text::texts;
use crate::text::words;
use crate::text::CharClass;

verus! {

// ---------------------------------------------------------------------------
// Arguments
// ---------------------------------------------------------------------------

/// The port that the browser is sent back to unless another is given.
pub const DEFAULT_PORT: u16 = 8365;

/// How the command is used.
pub fn usage() -> (s: &'static str)
    ensures
        s@ == usage_text(),
{
    "usage: imap-mcp-rs reauth <account> [--config <path>] [--port <n>] [--no-browser]"
}

pub open spec fn usage_text() -> Seq<char> {
    "usage: imap-mcp-rs reauth <account> [--config <path>] [--port <n>] [--no-browser]"@
}

/// The arguments of the command.
#[derive(Debug)]
pub struct CliOptions {
    pub account: String,
    pub config: Option<String>,
    pub port: u16,
    pub no_browser: bool,
}

/// The arguments of the command as far as they were read.
pub struct OptionsView {
    pub account: Option<Seq<char>>,
    pub config: Option<Seq<char>>,
    pub port: nat,
    pub no_browser: bool,
}

/// What a port that cannot be used is answered.
pub open spec fn port_complaint(raw: Seq<char>) -> Seq<char> {
    "--port must be a number between 1 and 65535 (got \""@ + raw
        + "\"); the port has to match a redirect URI registered on the app"@
}

/// The arguments from position `i` on, or what is wrong with them.
pub open spec fn options_from(args: Seq<Seq<char>>, i: int, o: OptionsView) -> Result<
    OptionsView,
    Seq<char>,
>
    decreases args.len() - i,
{
    if i < 0 || i >= args.len() {
        if o.account is None {
            Err(usage_text())
        } else {
            Ok(o)
        }
    } else if args[i] == "--config"@ {
        if i + 1 >= args.len() {
            Err(usage_text())
        } else {
            options_from(args, i + 2, OptionsView { config: Some(args[i + 1]), ..o })
        }
    } else if args[i] == "--port"@ {
        if i + 1 >= args.len() {
            Err(usage_text())
        } else {
            match parsed_number(args[i + 1], 10, 65535) {
                Some(p) => if p == 0 {
                    Err(port_complaint(args[i + 1]))
                } else {
                    options_from(args, i + 2, OptionsView { port: p, ..o })
                },
                None => Err(port_complaint(args[i + 1])),
            }
        }
    } else if args[i] == "--no-browser"@ {
        options_from(args, i + 1, OptionsView { no_browser: true, ..o })
    } else if begins_with(args[i], "-"@) {
        Err("Unknown flag "@ + args[i] + "\n"@ + usage_text())
    } else if o.account is Some {
        Err("Only one account may be given\n"@ + usage_text())
    } else {
        options_from(args, i + 1, OptionsView { account: Some(args[i]), ..o })
    }
}

/// The arguments of the command, or what is wrong with them.
pub open spec fn options(args: Seq<Seq<char>>) -> Result<OptionsView, Seq<char>> {
    options_from(
        args,
        0,
        OptionsView {
            account: None,
            config: None,
            port: DEFAULT_PORT as nat,
            no_browser: false,
        },
    )
}

fn port_complaint_text(raw: &str) -> (out: String)
    ensures
        out@ == port_complaint(raw@),
{
    let mut text = copy_of("--port must be a number between 1 and 65535 (got \"");
    text.append(raw);
    text.append("\"); the port has to match a redirect URI registered on the app");
    text
}

impl CliOptions {
    /// Reads the arguments. What is ambiguous is refused.
    pub fn parse(args: &[String]) -> (r: Result<CliOptions, String>)
        ensures
            match options(texts(args@)) {
                Ok(o) => r is Ok && o.account == Some(r->Ok_0.account@) && opt_text(
                    r->Ok_0.config,
                ) == o.config && r->Ok_0.port == o.port && r->Ok_0.no_browser == o.no_browser,
                Err(text) => r is Err && r->Err_0@ == text,
            },
    {
        let ghost all = texts(args@);
        let n: usize = args.len();
        let mut account: Option<String> = None;
        let mut config: Option<String> = None;
        let mut port: u16 = DEFAULT_PORT;
        let mut no_browser: bool = false;
        let mut i: usize = 0;
        while i < n
            invariant
                n == args@.len(),
                i <= n,
                all == texts(args@),
                options(all) == options_from(
                    all,
                    i as int,
                    OptionsView {
                        account: opt_text(account),
                        config: opt_text(config),
                        port: port as nat,
                        no_browser,
                    },
                ),
            decreases n - i,
        {
            let arg = args[i].as_str();
            proof {
                assert(all[i as int] == arg@);
                if i + 1 < n {
                    assert(all[i + 1] == args@[i + 1]@);
                }
            }
            if same_text(arg, "--config") {
                if n - i < 2 {
                    return Err(copy_of(usage()));
                }
                config = Some(copy_of(args[i + 1].as_str()));
                i += 2;
            } else if same_text(arg, "--port") {
                if n - i < 2 {
                    return Err(copy_of(usage()));
                }
                let raw = chars_of(args[i + 1].as_str());
                proof {
                    assert(raw@.subrange(0, raw@.len() as int) =~= raw@);
                }
                match parse_number(&raw, 0, raw.len(), 10, 65535) {
                    Some(p) => {
                        if p == 0 {
                            return Err(port_complaint_text(args[i + 1].as_str()));
                        }
                        port = p as u16;
                    },
                    None => {
                        return Err(port_complaint_text(args[i + 1].as_str()));
                    },
                }
                i += 2;
            } else if same_text(arg, "--no-browser") {
                no_browser = true;
                i += 1;
            } else if text_begins_with(arg, "-") {
                let mut text = copy_of("Unknown flag ");
                text.append(arg);
                text.append("\n");
                text.append(usage());
                return Err(text);
            } else {
                if account.is_some() {
                    let mut text = copy_of("Only one account may be given\n");
                    text.append(usage());
                    return Err(text);
                }
                account = Some(copy_of(arg));
                i += 1;
            }
        }
        match account {
            Some(a) => Ok(CliOptions { account: a, config, port, no_browser }),
            None => Err(copy_of(usage())),
        }
    }
}

/// A value stands behind a flag among the arguments.
pub open spec fn stands_behind(args: Seq<Seq<char>>, flag: Seq<char>, value: Seq<char>) -> bool {
    exists|k: int| 0 <= k && k + 1 < args.len() && #[trigger] args[k] == flag && args[k + 1] == value
}

proof fn lemma_options_come_from(args: Seq<Seq<char>>, i: int, o: OptionsView)
    requires
        0 <= i,
    ensures
        options_from(args, i, o) matches Ok(r) ==> {
            &&& r.account is Some
            &&& r.account == o.account || (args.contains(r.account->0) && !begins_with(
                r.account->0,
                "-"@,
            ))
            &&& r.config == o.config || (r.config matches Some(c) && stands_behind(
                args,
                "--config"@,
                c,
            ))
            &&& r.port == o.port || exists|t: Seq<char>| #[trigger]
                stands_behind(args, "--port"@, t) && parsed_number(t, 10, 65535) == Some(r.port)
                    && r.port > 0
            &&& r.no_browser == o.no_browser || (r.no_browser && args.contains("--no-browser"@))
        },
    decreases args.len() - i,
{
    if i < args.len() {
        if args[i] == "--config"@ {
            if i + 1 < args.len() {
                lemma_options_come_from(
                    args,
                    i + 2,
                    OptionsView { config: Some(args[i + 1]), ..o },
                );
                assert(stands_behind(args, "--config"@, args[i + 1]));
            }
        } else if args[i] == "--port"@ {
            if i + 1 < args.len() {
                if let Some(p) = parsed_number(args[i + 1], 10, 65535) {
                    lemma_options_come_from(args, i + 2, OptionsView { port: p, ..o });
                    assert(stands_behind(args, "--port"@, args[i + 1]));
                }
            }
        } else if args[i] == "--no-browser"@ {
            lemma_options_come_from(args, i + 1, OptionsView { no_browser: true, ..o });
        } else if !begins_with(args[i], "-"@) && o.account is None {
            lemma_options_come_from(args, i + 1, OptionsView { account: Some(args[i]), ..o });
        }
    }
}

/// What the command goes by stands in its arguments: the account is one that is no
/// flag, the settings are those behind `--config`, the port is the number behind
/// `--port` and never zero, and the browser is left alone only where
/// `--no-browser` is given.
pub proof fn options_come_from_their_arguments(args: Seq<Seq<char>>)
    ensures
        options(args) matches Ok(o) ==> {
            &&& o.account matches Some(a) && args.contains(a) && !begins_with(a, "-"@)
            &&& o.config matches Some(c) ==> stands_behind(args, "--config"@, c)
            &&& o.port == 8365 || exists|t: Seq<char>| #[trigger]
                stands_behind(args, "--port"@, t) && parsed_number(t, 10, 65535) == Some(o.port)
            &&& 1 <= o.port <= 65535
            &&& o.no_browser ==> args.contains("--no-browser"@)
        },
{
    lemma_options_come_from(
        args,
        0,
        OptionsView { account: None, config: None, port: DEFAULT_PORT as nat, no_browser: false },
    );
}

/// The arguments ask for help, which is given without reading any settings.
pub open spec fn wants_help(args: Seq<Seq<char>>) -> bool {
    exists|i: int| 0 <= i < args.len() && (#[trigger] args[i] == "-h"@ || args[i] == "--help"@)
}

/// Decides [`wants_help`].
pub fn asks_for_help(args: &[String]) -> (yes: bool)
    ensures
        yes == wants_help(texts(args@)),
{
    let ghost all = texts(args@);
    let mut i: usize = 0;
    while i < args.len()
        invariant
            i <= args@.len(),
            all == texts(args@),
            forall|j: int|
                0 <= j < i ==> !(#[trigger] all[j] == "-h"@ || all[j] == "--help"@),
        decreases args@.len() - i,
    {
        assert(all[i as int] == args@[i as int]@);
        if same_text(args[i].as_str(), "-h") || same_text(args[i].as_str(), "--help") {
            return true;
        }
        i += 1;
    }
    false
}

/// The value of `--config` among the arguments of the server: what follows its
/// first occurrence.
pub open spec fn config_argument(args: Seq<Seq<char>>, i: int) -> Option<Seq<char>>
    decreases args.len() - i,
{
    if i < 0 || i >= args.len() {
        None
    } else if args[i] == "--config"@ {
        if i + 1 < args.len() {
            Some(args[i + 1])
        } else {
            None
        }
    } else {
        config_argument(args, i + 1)
    }
}

/// The settings of the server are those behind the first `--config`; without a
/// value there, or without the flag, none are named.
pub proof fn settings_stand_behind_their_flag(args: Seq<Seq<char>>, k: int)
    requires
        0 <= k < args.len(),
        args[k] == "--config"@,
        forall|j: int| 0 <= j < k ==> #[trigger] args[j] != "--config"@,
    ensures
        k + 1 < args.len() ==> config_argument(args, 0) == Some(args[k + 1]),
        k + 1 == args.len() ==> config_argument(args, 0) is None,
{
    lemma_settings(args, 0, k);
}

proof fn lemma_settings(args: Seq<Seq<char>>, i: int, k: int)
    requires
        0 <= i <= k < args.len(),
        args[k] == "--config"@,
        forall|j: int| i <= j < k ==> #[trigger] args[j] != "--config"@,
    ensures
        config_argument(args, i) == if k + 1 < args.len() {
            Some(args[k + 1])
        } else {
            None
        },
    decreases k - i,
{
    if i < k {
        lemma_settings(args, i + 1, k);
    }
}

/// Computes [`config_argument`].
pub fn config_path_argument(args: &[String]) -> (out: Option<String>)
    ensures
        opt_text(out) == config_argument(texts(args@), 0),
{
    let ghost all = texts(args@);
    let n: usize = args.len();
    let mut i: usize = 0;
    while i < n
        invariant
            n == args@.len(),
            i <= n,
            all == texts(args@),
            config_argument(all, 0) == config_argument(all, i as int),
        decreases n - i,
    {
        assert(all[i as int] == args@[i as int]@);
        if same_text(args[i].as_str(), "--config") {
            if n - i < 2 {
                return None;
            }
            assert(all[i + 1] == args@[i + 1]@);
            return Some(copy_of(args[i + 1].as_str()));
        }
        i += 1;
    }
    None
}

// ---------------------------------------------------------------------------
// The account
// ---------------------------------------------------------------------------

/// The names of accounts.
pub open spec fn account_names(l: Seq<AccountConfig>) -> Seq<Seq<char>> {
    l.map_values(|a: AccountConfig| a.name@)
}

/// The first account with a name, whatever its case.
pub open spec fn account_index(l: Seq<AccountConfig>, name: Seq<char>, i: int) -> Option<int>
    decreases l.len() - i,
{
    if i < 0 || i >= l.len() {
        None
    } else if lowercase(l[i].name@) == lowercase(name) {
        Some(i)
    } else {
        account_index(l, name, i + 1)
    }
}

/// Which account is authorized, and with which client; or why none is.
pub open spec fn authorization(l: Seq<AccountConfig>, name: Seq<char>) -> Result<
    (int, Seq<char>),
    Seq<char>,
> {
    match account_index(l, name, 0) {
        None => Err(
            "No account named \""@ + name + "\" — configured accounts: "@ + joined(
                account_names(l),
                ", "@,
            ),
        ),
        Some(i) => if l[i].auth_method != AuthMethod::OAuth2 {
            Err(
                "Account \""@ + l[i].name@
                    + "\" uses password auth — reauth only applies to auth_method = \"oauth2\""@,
            )
        } else {
            match l[i].oauth2 {
                None => Err("Account has no [accounts.oauth2] section"@),
                Some(o) => match opt_text(o.client_id) {
                    None => Err("OAuth2 client_id not configured"@),
                    Some(id) => Ok((i, id)),
                },
            }
        },
    }
}

proof fn lemma_account_index(l: Seq<AccountConfig>, name: Seq<char>, i: int)
    requires
        0 <= i,
    ensures
        match account_index(l, name, i) {
            Some(k) => {
                &&& i <= k < l.len()
                &&& lowercase(l[k].name@) == lowercase(name)
                &&& forall|j: int|
                    i <= j < k ==> lowercase((#[trigger] l[j]).name@) != lowercase(name)
            },
            None => forall|j: int|
                i <= j < l.len() ==> lowercase((#[trigger] l[j]).name@) != lowercase(name),
        },
    decreases l.len() - i,
{
    if i < l.len() && lowercase(l[i].name@) != lowercase(name) {
        lemma_account_index(l, name, i + 1);
    }
}

/// The account that is authorized is the first that goes by the given name,
/// whatever its case; it signs in by OAuth2, and with its own client.
pub proof fn authorizations_are_for_the_named_account(l: Seq<AccountConfig>, name: Seq<char>)
    ensures
        authorization(l, name) matches Ok((i, id)) ==> {
            &&& 0 <= i < l.len()
            &&& lowercase(l[i].name@) == lowercase(name)
            &&& forall|j: int| 0 <= j < i ==> lowercase((#[trigger] l[j]).name@) != lowercase(name)
            &&& l[i].auth_method == AuthMethod::OAuth2
            &&& l[i].oauth2 matches Some(o) && (o.client_id matches Some(c) && c@ == id)
        },
        (authorization(l, name) is Err && forall|j: int|
            0 <= j < l.len() ==> (#[trigger] l[j]).auth_method == AuthMethod::OAuth2
                && l[j].oauth2 is Some && l[j].oauth2->0.client_id is Some) ==> forall|j: int|
            0 <= j < l.len() ==> lowercase((#[trigger] l[j]).name@) != lowercase(name),
{
    lemma_account_index(l, name, 0);
}

fn names_of(l: &Vec<AccountConfig>) -> (out: Vec<String>)
    ensures
        texts(out@) == account_names(l@),
{
    let ghost all = account_names(l@);
    let mut out: Vec<String> = Vec::new();
    let mut i: usize = 0;
    while i < l.len()
        invariant
            i <= l@.len(),
            all == account_names(l@),
            texts(out@) == all.take(i as int),
        decreases l@.len() - i,
    {
        let name = copy_of(l[i].name.as_str());
        let ghost before = texts(out@);
        proof {
            assert(texts(out@.push(name)) =~= before.push(name@));
            assert(all[i as int] == name@);
            assert(all.take(i as int + 1) =~= all.take(i as int).push(name@));
        }
        out.push(name);
        i += 1;
    }
    proof {
        assert(all.take(all.len() as int) =~= all);
    }
    out
}

/// Finds the account that is to be authorized, and its client.
pub fn find_authorization(accounts: &Vec<AccountConfig>, name: &str) -> (r: Result<
    (usize, String),
    String,
>)
    ensures
        match authorization(accounts@, name@) {
            Ok((i, id)) => r is Ok && r->Ok_0.0 == i && i < accounts@.len() && r->Ok_0.1@ == id,
            Err(text) => r is Err && r->Err_0@ == text,
        },
{
    let wanted = lowercase_of(name);
    let mut i: usize = 0;
    while i < accounts.len()
        invariant
            i <= accounts@.len(),
            wanted@ == lowercase(name@),
            account_index(accounts@, name@, 0) == account_index(accounts@, name@, i as int),
        decreases accounts@.len() - i,
    {
        let a = &accounts[i];
        let lower = lowercase_of(a.name.as_str());
        if same_text(lower.as_str(), wanted.as_str()) {
            if a.auth_method != AuthMethod::OAuth2 {
                let mut text = copy_of("Account \"");
                text.append(a.name.as_str());
                text.append(
                    "\" uses password auth — reauth only applies to auth_method = \"oauth2\"",
                );
                return Err(text);
            }
            return match &a.oauth2 {
                None => Err(copy_of("Account has no [accounts.oauth2] section")),
                Some(o) => match &o.client_id {
                    None => Err(copy_of("OAuth2 client_id not configured")),
                    Some(id) => Ok((i, copy_of(id.as_str()))),
                },
            };
        }
        i += 1;
    }
    let mut text = copy_of("No account named \"");
    text.append(name);
    text.append("\" — configured accounts: ");
    let names = names_of(accounts);
    let list = join(&names, ", ");
    text.append(list.as_str());
    Err(text)
}

// ---------------------------------------------------------------------------
// The authorization address
// ---------------------------------------------------------------------------

/// The address that the browser is sent back to: the address that is listened
/// on, and not a name that may resolve to another.
pub fn loopback_redirect_uri(port: u16) -> (out: String)
    ensures
        out@ == "http://127.0.0.1:"@ + decimal(port as nat),
{
    let mut out = copy_of("http://127.0.0.1:");
    let n = decimal_string(port as u64);
    out.append(n.as_str());
    out
}

/// The fields that every authorization address has.
pub open spec fn common_fields(client_id: Seq<char>, redirect_uri: Seq<char>) -> Seq<char> {
    "?client_id="@ + form_text(client_id) + "&response_type=code&redirect_uri="@ + form_text(
        redirect_uri,
    )
}

/// The field for the challenge, which binds the code to this process.
pub open spec fn challenge_field(challenge: Seq<char>) -> Seq<char> {
    "&code_challenge="@ + form_text(challenge) + "&code_challenge_method=S256"@
}

/// The scope and state fields.
pub open spec fn scope_fields(scope: Seq<char>, state: Seq<char>) -> Seq<char> {
    "&scope="@ + form_text(scope) + "&state="@ + form_text(state)
}

/// The authorization address of a provider.
pub open spec fn authorization_url(
    oauth2: OAuth2Config,
    client_id: Seq<char>,
    redirect_uri: Seq<char>,
    state: Seq<char>,
    challenge: Seq<char>,
) -> Result<Seq<char>, Seq<char>> {
    match oauth2.provider {
        OAuth2Provider::Outlook365 => Ok(
            "https://login.microsoftonline.com/"@ + (match opt_text(oauth2.tenant) {
                Some(t) => t,
                None => "common"@,
            }) + "/oauth2/v2.0/authorize"@ + common_fields(client_id, redirect_uri)
                + "&response_mode=query"@ + scope_fields(
                "https://outlook.office365.com/IMAP.AccessAsUser.All offline_access"@,
                state,
            ) + challenge_field(challenge),
        ),
        OAuth2Provider::Gmail => Ok(
            "https://accounts.google.com/o/oauth2/v2/auth"@ + common_fields(client_id, redirect_uri)
                + scope_fields("https://mail.google.com/"@, state)
                + "&access_type=offline&prompt=consent"@ + challenge_field(challenge),
        ),
        OAuth2Provider::Custom => Err(
            "reauth is not supported for provider = \"custom\" (no authorization endpoint known) — obtain a refresh token manually and place it in the config"@,
        ),
    }
}

fn append_common(out: &mut String, client_id: &str, redirect_uri: &str)
    ensures
        final(out)@ == old(out)@ + common_fields(client_id@, redirect_uri@),
{
    let ghost before = out@;
    out.append("?client_id=");
    let e = urlencoded(client_id);
    out.append(e.as_str());
    out.append("&response_type=code&redirect_uri=");
    let e = urlencoded(redirect_uri);
    out.append(e.as_str());
    proof {
        assert(out@ =~= before + common_fields(client_id@, redirect_uri@));
    }
}

fn append_scope(out: &mut String, scope: &str, state: &str)
    ensures
        final(out)@ == old(out)@ + scope_fields(scope@, state@),
{
    let ghost before = out@;
    out.append("&scope=");
    let e = urlencoded(scope);
    out.append(e.as_str());
    out.append("&state=");
    let e = urlencoded(state);
    out.append(e.as_str());
    proof {
        assert(out@ =~= before + scope_fields(scope@, state@));
    }
}

fn append_challenge(out: &mut String, challenge: &str)
    ensures
        final(out)@ == old(out)@ + challenge_field(challenge@),
{
    let ghost before = out@;
    out.append("&code_challenge=");
    let e = urlencoded(challenge);
    out.append(e.as_str());
    out.append("&code_challenge_method=S256");
    proof {
        assert(out@ =~= before + challenge_field(challenge@));
    }
}

/// Writes the authorization address of a provider.
pub fn authorize_url(
    oauth2: &OAuth2Config,
    client_id: &str,
    redirect_uri: &str,
    state: &str,
    challenge: &str,
) -> (r: Result<String, String>)
    ensures
        match authorization_url(*oauth2, client_id@, redirect_uri@, state@, challenge@) {
            Ok(url) => r is Ok && r->Ok_0@ == url,
            Err(text) => r is Err && r->Err_0@ == text,
        },
{
    match oauth2.provider {
        OAuth2Provider::Outlook365 => {
            let mut url = copy_of("https://login.microsoftonline.com/");
            match &oauth2.tenant {
                Some(t) => url.append(t.as_str()),
                None => url.append("common"),
            }
            url.append("/oauth2/v2.0/authorize");
            append_common(&mut url, client_id, redirect_uri);
            url.append("&response_mode=query");
            append_scope(
                &mut url,
                "https://outlook.office365.com/IMAP.AccessAsUser.All offline_access",
                state,
            );
            append_challenge(&mut url, challenge);
            Ok(url)
        },
        OAuth2Provider::Gmail => {
            let mut url = copy_of("https://accounts.google.com/o/oauth2/v2/auth");
            append_common(&mut url, client_id, redirect_uri);
            append_scope(&mut url, "https://mail.google.com/", state);
            url.append("&access_type=offline&prompt=consent");
            append_challenge(&mut url, challenge);
            Ok(url)
        },
        OAuth2Provider::Custom => Err(
            copy_of(
                "reauth is not supported for provider = \"custom\" (no authorization endpoint known) — obtain a refresh token manually and place it in the config",
            ),
        ),
    }
}

// ---------------------------------------------------------------------------
// Proof of possession
// ---------------------------------------------------------------------------

/// Bytes in base64 for addresses, without padding.
pub uninterp spec fn base64_url(bytes: Seq<u8>) -> Seq<char>;

/// `base64`'s `URL_SAFE_NO_PAD.encode`: a text of letters, digits, `-` and `_`
/// that depends on the bytes alone; 43 characters for 32 bytes.
#[verifier::external_body]
fn base64_url_encode(bytes: &[u8]) -> (out: String)
    ensures
        out@ == base64_url(bytes@),
        bytes@.len() == 32 ==> out@.len() == 43,
        forall|i: int|
            0 <= i < out@.len() ==> ('A' <= #[trigger] out@[i] <= 'Z' || 'a' <= out@[i] <= 'z'
                || '0' <= out@[i] <= '9' || out@[i] == '-' || out@[i] == '_'),
{
    base64::engine::general_purpose::URL_SAFE_NO_PAD.encode(bytes)
}

/// The SHA-256 digest of bytes.
pub uninterp spec fn sha256(bytes: Seq<u8>) -> Seq<u8>;

/// `aws_lc_rs::digest::digest` with `SHA256`: 32 bytes that depend on the bytes
/// alone.
#[verifier::external_body]
fn sha256_of(bytes: &[u8]) -> (out: Vec<u8>)
    ensures
        out@ == sha256(bytes@),
        out@.len() == 32,
{
    aws_lc_rs::digest::digest(&aws_lc_rs::digest::SHA256, bytes).as_ref().to_vec()
}

/// `aws_lc_rs::rand::fill`: 32 bytes of chance, or nothing where the system has
/// none.
#[verifier::external_body]
fn random_bytes() -> (out: Option<Vec<u8>>)
    ensures
        out matches Some(v) ==> v@.len() == 32,
{
    let mut bytes = [0u8; 32];
    aws_lc_rs::rand::fill(&mut bytes).ok().map(|()| bytes.to_vec())
}

/// The challenge of a verifier.
pub open spec fn challenge_for(verifier: Seq<char>) -> Seq<char> {
    base64_url(sha256(encode_utf8(verifier)))
}

/// Letters, digits, `-` and `_` alone.
pub open spec fn is_url_alphabet(s: Seq<char>) -> bool {
    forall|i: int|
        0 <= i < s.len() ==> ('A' <= #[trigger] s[i] <= 'Z' || 'a' <= s[i] <= 'z' || '0' <= s[i]
            <= '9' || s[i] == '-' || s[i] == '_')
}

/// Computes [`challenge_for`].
pub fn pkce_challenge(verifier: &str) -> (out: String)
    ensures
        out@ == challenge_for(verifier@),
        out@.len() == 43,
        is_url_alphabet(out@),
{
    let digest = sha256_of(verifier.as_bytes());
    base64_url_encode(digest.as_slice())
}

/// The verifier that bytes of chance make, and its challenge; the error where
/// there are none.
pub fn pkce_from(drawn: Option<Vec<u8>>) -> (r: Result<(String, String), String>)
    ensures
        match drawn {
            Some(b) => r matches Ok(p) && p.0@ == base64_url(b@) && p.1@ == challenge_for(p.0@)
                && p.1@.len() == 43 && is_url_alphabet(p.0@) && is_url_alphabet(p.1@) && (
            b@.len() == 32 ==> p.0@.len() == 43),
            None => r is Err && r->Err_0@ == "CSPRNG unavailable"@,
        },
{
    match drawn {
        Some(bytes) => {
            let verifier = base64_url_encode(bytes.as_slice());
            let challenge = pkce_challenge(verifier.as_str());
            Ok((verifier, challenge))
        },
        None => Err(copy_of("CSPRNG unavailable")),
    }
}

/// The verifier that 32 bytes make.
pub open spec fn is_verifier(v: Seq<char>, bytes: Seq<u8>) -> bool {
    bytes.len() == 32 && v == base64_url(bytes)
}

/// A new verifier, out of 32 bytes of chance, and its challenge. The error comes
/// where the system gives no chance.
pub fn pkce_pair() -> (r: Result<(String, String), String>)
    ensures
        match r {
            Ok(p) => (exists|b: Seq<u8>| #[trigger] is_verifier(p.0@, b)) && p.0@.len() == 43
                && is_url_alphabet(p.0@) && p.1@ == challenge_for(p.0@) && p.1@.len() == 43
                && is_url_alphabet(p.1@),
            Err(text) => text@ == "CSPRNG unavailable"@,
        },
{
    let drawn = random_bytes();
    let ghost bytes: Seq<u8> = drawn->0@;
    let r = pkce_from(drawn);
    proof {
        if r is Ok {
            assert(is_verifier(r->Ok_0.0@, bytes));
        }
    }
    r
}

/// The form that exchanges an authorization code.
pub open spec fn exchange_form(
    client_id: Seq<char>,
    code: Seq<char>,
    redirect_uri: Seq<char>,
    verifier: Seq<char>,
    secret: Option<Seq<char>>,
) -> Seq<char> {
    "grant_type=authorization_code&client_id="@ + form_text(client_id) + "&code="@ + form_text(code)
        + "&redirect_uri="@ + form_text(redirect_uri) + "&code_verifier="@ + form_text(verifier)
        + secret_field(secret)
}

/// Writes the form that exchanges an authorization code.
pub fn exchange_request(
    oauth2: &OAuth2Config,
    client_id: &str,
    code: &str,
    redirect_uri: &str,
    verifier: &str,
) -> (out: String)
    ensures
        out@ == exchange_form(
            client_id@,
            code@,
            redirect_uri@,
            verifier@,
            opt_text(oauth2.client_secret),
        ),
{
    let secret: Option<&str> = match &oauth2.client_secret {
        Some(s) => Some(s.as_str()),
        None => None,
    };
    let mut out = copy_of("grant_type=authorization_code&client_id=");
    let e = urlencoded(client_id);
    out.append(e.as_str());
    out.append("&code=");
    let e = urlencoded(code);
    out.append(e.as_str());
    out.append("&redirect_uri=");
    let e = urlencoded(redirect_uri);
    out.append(e.as_str());
    out.append("&code_verifier=");
    let e = urlencoded(verifier);
    out.append(e.as_str());
    let e = client_secret_param(secret);
    out.append(e.as_str());
    out
}

/// The member of the answer to an authorization code that is read; others
/// are passed over.
pub struct CodeExchangeResponse {
    pub refresh_token: Option<String>,
}

/// What a refresh token that is missing from the answer is reported as.
pub open spec fn missing_token_text() -> Seq<char> {
    "Token response contained no refresh_token — ensure the authorization request includes the offline_access scope (Entra) or access_type=offline with prompt=consent (Gmail)"@
}

/// The token in a successful answer, or why there is none.
pub open spec fn exchanged(answer: Option<CodeExchangeResponse>) -> Result<Seq<char>, Seq<char>> {
    match answer {
        None => Err("Failed to parse token response (body omitted from output)"@),
        Some(a) => match opt_text(a.refresh_token) {
            None => Err(missing_token_text()),
            Some(t) => Ok(t),
        },
    }
}

/// An authorization is complete exactly where the answer holds a refresh token, and
/// that token is the one that is kept.
pub proof fn authorizations_keep_the_refresh_token(answer: Option<CodeExchangeResponse>)
    ensures
        exchanged(answer) is Ok <==> answer is Some && answer->0.refresh_token is Some,
        exchanged(answer) matches Ok(t) ==> t == (answer->0.refresh_token->0)@,
{
}

/// The refresh token in the answer to an authorization code, or what went wrong
/// and, where it is known, what to do about it; given the members of the answer
/// as a refusal and as a success, each where it is of that form.
pub fn exchange_outcome(
    status: u16,
    refusal: Option<ErrorBody>,
    answer: Option<CodeExchangeResponse>,
    account: &str,
) -> (r: Result<String, String>)
    ensures
        is_success(status) ==> match exchanged(answer) {
            Ok(t) => r is Ok && r->Ok_0@ == t,
            Err(text) => r is Err && r->Err_0@ == text,
        },
        !is_success(status) ==> r is Err && exists|e: OAuth2Error|
            {
                &&& e.http_status == status
                &&& opt_text(e.code) == refusal_fields(refusal).0
                &&& opt_text(e.description) == refusal_fields(refusal).1
                &&& r->Err_0@ == "Code exchange rejected: "@ + #[trigger] e.shown()
                    + match e.remedy_text(account@) {
                    Some(remedy) => "\n\n  → "@ + remedy,
                    None => Seq::empty(),
                }
            },
{
    if status < 200 || status >= 300 {
        let e = parse_error_body(status, refusal);
        let mut text = copy_of("Code exchange rejected: ");
        let shown = e.text();
        text.append(shown.as_str());
        let ghost head = text@;
        match e.remedy(account) {
            Some(remedy) => {
                text.append("\n\n  → ");
                text.append(remedy.as_str());
            },
            None => {},
        }
        proof {
            assert(text@ =~= "Code exchange rejected: "@ + e.shown() + match e.remedy_text(
                account@,
            ) {
                Some(remedy) => "\n\n  → "@ + remedy,
                None => Seq::empty(),
            });
        }
        return Err(text);
    }
    match answer {
        None => Err(copy_of("Failed to parse token response (body omitted from output)")),
        Some(a) => match a.refresh_token {
            Some(t) => Ok(t),
            None => Err(
                copy_of(
                    "Token response contained no refresh_token — ensure the authorization request includes the offline_access scope (Entra) or access_type=offline with prompt=consent (Gmail)",
                ),
            ),
        },
    }
}

// ---------------------------------------------------------------------------
// The redirect
// ---------------------------------------------------------------------------

/// The value of a hexadecimal digit.
pub open spec fn nibble(b: u8) -> Option<u8> {
    if 48 <= b <= 57 {
        Some((b - 48) as u8)
    } else if 97 <= b <= 102 {
        Some((b - 87) as u8)
    } else if 65 <= b <= 70 {
        Some((b - 55) as u8)
    } else {
        None
    }
}

/// Computes [`nibble`].
pub fn hex_nibble(b: u8) -> (n: Option<u8>)
    ensures
        n == nibble(b),
        n matches Some(v) ==> v < 16,
{
    if 48 <= b && b <= 57 {
        Some(b - 48)
    } else if 97 <= b && b <= 102 {
        Some(b - 87)
    } else if 65 <= b && b <= 70 {
        Some(b - 55)
    } else {
        None
    }
}

/// Two hexadecimal digits follow position `i`.
pub open spec fn escape_at(b: Seq<u8>, i: int) -> bool {
    i + 2 < b.len() && nibble(b[i + 1]) is Some && nibble(b[i + 2]) is Some
}

/// The bytes that a form stands for from position `i` on: a plus sign for a
/// blank, an escape for a byte, and everything else for itself.
pub open spec fn unescaped(b: Seq<u8>, i: int) -> Seq<u8>
    decreases b.len() - i,
{
    if i < 0 || i >= b.len() {
        Seq::empty()
    } else if b[i] == 43 {
        seq![32u8] + unescaped(b, i + 1)
    } else if b[i] == 37 && escape_at(b, i) {
        seq![(nibble(b[i + 1])->0 * 16 + nibble(b[i + 2])->0) as u8] + unescaped(b, i + 3)
    } else {
        seq![b[i]] + unescaped(b, i + 1)
    }
}

/// The text of bytes that are not UTF-8, with replacement characters.
pub uninterp spec fn repaired_text(bytes: Seq<u8>) -> Seq<char>;

/// `String::from_utf8_lossy` of bytes that are not UTF-8: a text that depends on
/// the bytes alone.
#[verifier::external_body]
pub(crate) fn repair_text(bytes: &[u8]) -> (out: String)
    requires
        !valid_utf8(bytes@),
    ensures
        out@ == repaired_text(bytes@),
{
    String::from_utf8_lossy(bytes).into_owned()
}

/// The text of bytes: what they spell, or a repaired text where they are not
/// UTF-8.
pub open spec fn text_of_bytes(bytes: Seq<u8>) -> Seq<char> {
    if valid_utf8(bytes) {
        decode_utf8(bytes)
    } else {
        repaired_text(bytes)
    }
}

/// Computes [`text_of_bytes`].
pub fn lossy_text(bytes: &[u8]) -> (out: String)
    ensures
        out@ == text_of_bytes(bytes@),
{
    match text_from_utf8(bytes) {
        Some(t) => t,
        None => repair_text(bytes),
    }
}

/// The text that a form stands for.
pub open spec fn decoded_form(s: Seq<char>) -> Seq<char> {
    text_of_bytes(unescaped(encode_utf8(s), 0))
}

/// Decodes a text of a form. What is no escape stands for itself.
pub fn percent_decode(s: &str) -> (out: String)
    ensures
        out@ == decoded_form(s@),
{
    let bytes = s.as_bytes();
    let n: usize = bytes.len();
    let ghost all = encode_utf8(s@);
    let mut out: Vec<u8> = Vec::new();
    let mut i: usize = 0;
    proof {
        assert(out@ + unescaped(all, 0) =~= unescaped(all, 0));
    }
    while i < n
        invariant
            n == bytes@.len(),
            bytes@ == all,
            i <= n,
            out@ + unescaped(all, i as int) == unescaped(all, 0),
        decreases n - i,
    {
        let b: u8 = bytes[i];
        let ghost before = out@;
        if b == 43 {
            out.push(32);
            proof {
                let rest = unescaped(all, i + 1);
                assert(before + (seq![32u8] + rest) =~= out@ + rest);
            }
            i += 1;
        } else {
            let mut code: Option<u8> = None;
            if b == 37 && n - i > 2 {
                if let (Some(hi), Some(lo)) = (hex_nibble(bytes[i + 1]), hex_nibble(bytes[i + 2])) {
                    code = Some(hi * 16 + lo);
                }
            }
            match code {
                Some(c) => {
                    out.push(c);
                    proof {
                        let rest = unescaped(all, i + 3);
                        assert(before + (seq![c] + rest) =~= out@ + rest);
                    }
                    i += 3;
                },
                None => {
                    out.push(b);
                    proof {
                        let rest = unescaped(all, i + 1);
                        assert(before + (seq![b] + rest) =~= out@ + rest);
                    }
                    i += 1;
                },
            }
        }
    }
    proof {
        assert(out@ + Seq::<u8>::empty() =~= out@);
    }
    lossy_text(out.as_slice())
}

/// The parameters of an address.
#[derive(Debug)]
pub struct QueryParams {
    pub pairs: Vec<(String, String)>,
}

/// The value of a list of parameters.
pub open spec fn pair_views(l: Seq<(String, String)>) -> Seq<(Seq<char>, Seq<char>)> {
    l.map_values(|p: (String, String)| (p.0@, p.1@))
}

/// The last value that a name has.
pub open spec fn param(l: Seq<(Seq<char>, Seq<char>)>, name: Seq<char>) -> Option<Seq<char>>
    decreases l.len(),
{
    if l.len() == 0 {
        None
    } else if l.last().0 == name {
        Some(l.last().1)
    } else {
        param(l.drop_last(), name)
    }
}

impl View for QueryParams {
    type V = Seq<(Seq<char>, Seq<char>)>;

    open spec fn view(&self) -> Seq<(Seq<char>, Seq<char>)> {
        pair_views(self.pairs@)
    }
}

impl QueryParams {
    /// No parameters.
    pub fn new() -> (q: QueryParams)
        ensures
            q@ == Seq::<(Seq<char>, Seq<char>)>::empty(),
    {
        let q = QueryParams { pairs: Vec::new() };
        proof {
            assert(q@ =~= Seq::<(Seq<char>, Seq<char>)>::empty());
        }
        q
    }

    /// Adds a parameter; a later value of a name replaces an earlier one.
    pub fn insert(&mut self, name: String, value: String)
        ensures
            final(self)@ == old(self)@.push((name@, value@)),
    {
        let ghost before = self@;
        let ghost pair = (name@, value@);
        self.pairs.push((name, value));
        proof {
            assert(self@ =~= before.push(pair));
        }
    }

    /// Whether a parameter is there.
    pub fn contains_key(&self, name: &str) -> (yes: bool)
        ensures
            yes == (param(self@, name@) is Some),
    {
        self.get(name).is_some()
    }

    /// The value of a parameter.
    pub fn get(&self, name: &str) -> (v: Option<&str>)
        ensures
            opt_str(v) == param(self@, name@),
    {
        let ghost all = self@;
        let mut i: usize = self.pairs.len();
        proof {
            assert(all.take(all.len() as int) =~= all);
        }
        while i > 0
            invariant
                i <= self.pairs@.len(),
                all == self@,
                all.len() == self.pairs@.len(),
                param(all, name@) == param(all.take(i as int), name@),
            decreases i,
        {
            proof {
                assert(all.take(i as int).drop_last() =~= all.take(i - 1));
                assert(all.take(i as int).last() == all[i - 1]);
                assert(all[i - 1] == (self.pairs@[i - 1].0@, self.pairs@[i - 1].1@));
            }
            if same_text(self.pairs[i - 1].0.as_str(), name) {
                return Some(self.pairs[i - 1].1.as_str());
            }
            i -= 1;
        }
        None
    }
}

/// One parameter: what stands before and behind the first equals sign; nothing
/// where there is none.
pub open spec fn pair_in(part: Seq<char>) -> Option<(Seq<char>, Seq<char>)> {
    let eq = next_char(part, '=', 0);
    if eq < part.len() {
        Some((decoded_form(part.take(eq)), decoded_form(part.skip(eq + 1))))
    } else {
        None
    }
}

/// The parameters in a list of parts.
pub open spec fn pairs_in(parts: Seq<Seq<char>>) -> Seq<(Seq<char>, Seq<char>)>
    decreases parts.len(),
{
    if parts.len() == 0 {
        Seq::empty()
    } else {
        match pair_in(parts.last()) {
            Some(p) => pairs_in(parts.drop_last()).push(p),
            None => pairs_in(parts.drop_last()),
        }
    }
}

/// The parameters in a query.
pub open spec fn query_params(query: Seq<char>) -> Seq<(Seq<char>, Seq<char>)> {
    pairs_in(split(query, '&'))
}

/// Reads the parameters of a query.
pub fn parse_query(query: &str) -> (q: QueryParams)
    ensures
        q@ == query_params(query@),
{
    let cs = chars_of(query);
    let rs = split_ranges(&cs, '&');
    let ghost parts = split(query@, '&');
    let mut q = QueryParams::new();
    let mut k: usize = 0;
    while k < rs.len()
        invariant
            cs@ == query@,
            parts == split(query@, '&'),
            ranges_text(cs@, rs@) == parts,
            forall|k: int| 0 <= k < rs@.len() ==> (#[trigger] rs@[k]).0 <= rs@[k].1 <= cs@.len(),
            k <= rs@.len(),
            q@ == pairs_in(parts.take(k as int)),
        decreases rs@.len() - k,
    {
        let (a, z) = rs[k];
        let text = string_of_range(&cs, a, z);
        let part = chars_of(text.as_str());
        let m: usize = part.len();
        proof {
            assert(parts.len() == rs@.len());
            assert(parts[k as int] == part@);
            assert(parts.take(k as int + 1).drop_last() =~= parts.take(k as int));
            assert(parts.take(k as int + 1).last() == part@);
        }
        let eq = next_char_at(&part, '=', 0);
        if eq < m {
            let name = string_of_range(&part, 0, eq);
            let value = string_of_range(&part, eq + 1, m);
            proof {
                assert(name@ =~= part@.take(eq as int));
                assert(value@ =~= part@.skip(eq + 1));
            }
            q.insert(percent_decode(name.as_str()), percent_decode(value.as_str()));
        }
        k += 1;
    }
    proof {
        assert(parts.len() == rs@.len());
        assert(parts.take(parts.len() as int) =~= parts);
    }
    q
}

/// The query in the head of a request: what stands behind the first question
/// mark of the second word of its first line.
pub open spec fn head_query(head: Seq<char>) -> Option<Seq<char>> {
    let line = head.take(next_char(head, '\n', 0));
    let w = words(line);
    if w.len() < 2 {
        None
    } else {
        let mark = next_char(w[1], '?', 0);
        if mark < w[1].len() {
            Some(w[1].skip(mark + 1))
        } else {
            None
        }
    }
}

/// Reads the parameters in the head of a request; nothing where it has no query.
pub fn request_query(head: &str) -> (q: Option<QueryParams>)
    ensures
        match head_query(head@) {
            Some(query) => q is Some && q->0@ == query_params(query),
            None => q is None,
        },
{
    let cs = chars_of(head);
    let eol = next_char_at(&cs, '\n', 0);
    let line_text = string_of_range(&cs, 0, eol);
    let line = chars_of(line_text.as_str());
    proof {
        assert(line@ =~= head@.take(eol as int));
    }
    let rs = runs_of(&line, CharClass::NonSpace);
    let ghost w = words(line@);
    proof {
        assert(w.len() == rs@.len());
    }
    if rs.len() < 2 {
        return None;
    }
    let (a, z) = rs[1];
    let target_text = string_of_range(&line, a, z);
    let target = chars_of(target_text.as_str());
    proof {
        assert(w[1] == target@);
    }
    let m: usize = target.len();
    let mark = next_char_at(&target, '?', 0);
    if mark >= m {
        return None;
    }
    let query = string_of_range(&target, mark + 1, m);
    proof {
        assert(query@ =~= target@.skip(mark + 1));
    }
    Some(parse_query(query.as_str()))
}

/// The largest request that is read, in bytes.
pub const MAX_REQUEST_BYTES: usize = 16_384;

/// The end of a request's head stands at position `i`.
pub open spec fn head_end_at(b: Seq<u8>, i: int) -> bool {
    0 <= i && i + 4 <= b.len() && b[i] == 13 && b[i + 1] == 10 && b[i + 2] == 13 && b[i + 3] == 10
}

/// What is to be done with what was read of a request.
#[derive(Debug, Clone, Copy, PartialEq, Eq, Structural)]
pub enum HeadProgress {
    /// It is refused for its size.
    TooLarge,
    /// Its head is there.
    Complete,
    /// More is to be read.
    Partial,
}

/// Decides what is to be done with what was read of a request, of which the last
/// `fresh` bytes are new. Earlier bytes are not looked at again, but for the three
/// that the end of the head may begin in.
pub fn head_progress(bytes: &Vec<u8>, fresh: usize) -> (p: HeadProgress)
    requires
        fresh <= bytes@.len(),
    ensures
        p == if bytes@.len() > MAX_REQUEST_BYTES {
            HeadProgress::TooLarge
        } else if exists|i: int|
            bytes@.len() - fresh - 3 <= i && #[trigger] head_end_at(bytes@, i) {
            HeadProgress::Complete
        } else {
            HeadProgress::Partial
        },
{
    let n: usize = bytes.len();
    if n > MAX_REQUEST_BYTES {
        return HeadProgress::TooLarge;
    }
    let mut i: usize = if n - fresh > 3 {
        n - fresh - 3
    } else {
        0
    };
    let ghost from = i as int;
    while i < n && n - i >= 4
        invariant
            n == bytes@.len(),
            n <= MAX_REQUEST_BYTES,
            fresh <= n,
            i <= n,
            from == if n - fresh > 3 {
                n - fresh - 3
            } else {
                0
            },
            from <= i,
            forall|j: int| from <= j < i ==> !#[trigger] head_end_at(bytes@, j),
        decreases n - i,
    {
        if bytes[i] == 13 && bytes[i + 1] == 10 && bytes[i + 2] == 13 && bytes[i + 3] == 10 {
            assert(head_end_at(bytes@, i as int));
            return HeadProgress::Complete;
        }
        i += 1;
    }
    HeadProgress::Partial
}

/// Looking at the new bytes of each piece, and the three before them, misses
/// nothing: where the earlier bytes hold no end of a head, one is there at all if
/// and only if one begins no more than three bytes before the new ones.
pub proof fn no_head_is_missed(bytes: Seq<u8>, fresh: int)
    requires
        0 <= fresh <= bytes.len(),
        forall|i: int| !#[trigger] head_end_at(bytes.take(bytes.len() - fresh), i),
    ensures
        (exists|i: int| #[trigger] head_end_at(bytes, i)) <==> (exists|i: int|
            bytes.len() - fresh - 3 <= i && #[trigger] head_end_at(bytes, i)),
{
    if exists|i: int| #[trigger] head_end_at(bytes, i) {
        let i = choose|i: int| #[trigger] head_end_at(bytes, i);
        if i < bytes.len() - fresh - 3 {
            assert(head_end_at(bytes.take(bytes.len() - fresh), i));
        }
    }
}

/// What a redirect means.
#[derive(Debug)]
pub enum RedirectError {
    /// It carries neither a code nor an error.
    NotOAuth,
    /// It does not belong to this authorization.
    StateMismatch,
    /// The provider refused.
    Provider { error: String, description: String },
}

/// Decides what a redirect means: an error of the provider comes first; a code
/// counts only with the state that was sent.
pub fn validate_redirect(params: &QueryParams, expected_state: &str) -> (r: Result<
    String,
    RedirectError,
>)
    ensures
        match (param(params@, "error"@), param(params@, "code"@)) {
            (Some(e), _) => r matches Err(RedirectError::Provider { error, description }) && error@
                == e && description@ == match param(params@, "error_description"@) {
                Some(d) => d,
                None => Seq::empty(),
            },
            (None, None) => r matches Err(RedirectError::NotOAuth),
            (None, Some(c)) => if param(params@, "state"@) == Some(expected_state@) {
                r matches Ok(code) && code@ == c
            } else {
                r matches Err(RedirectError::StateMismatch)
            },
        },
{
    if let Some(error) = params.get("error") {
        let description = match params.get("error_description") {
            Some(d) => copy_of(d),
            None => String::new(),
        };
        return Err(RedirectError::Provider { error: copy_of(error), description });
    }
    let code = match params.get("code") {
        Some(c) => copy_of(c),
        None => {
            return Err(RedirectError::NotOAuth);
        },
    };
    match params.get("state") {
        Some(s) => if same_text(s, expected_state) {
            Ok(code)
        } else {
            Err(RedirectError::StateMismatch)
        },
        None => Err(RedirectError::StateMismatch),
    }
}

// ---------------------------------------------------------------------------
// Answers to the browser
// ---------------------------------------------------------------------------

/// What the browser is answered, and what the redirect decides: nothing, a code,
/// or the failure of the authorization.
#[derive(Debug)]
pub struct RedirectAnswer {
    pub status: &'static str,
    pub message: &'static str,
    pub verdict: Option<Result<String, String>>,
}

/// A hint at a redirect address that is not registered.
pub open spec fn redirect_hint(error: Seq<char>, description: Seq<char>) -> Seq<char> {
    if contains_text(description, "AADSTS50011"@) || error == "redirect_uri_mismatch"@ {
        "\nHint: the redirect URI is not registered on the app. For Entra, add the \"Mobile and desktop applications\" platform (loopback on any port) or the exact web redirect that reauth used (printed above)."@
    } else {
        Seq::empty()
    }
}

/// Answers a request to the loopback address.
pub fn answer_redirect(params: &Option<QueryParams>, expected_state: &str) -> (a: RedirectAnswer)
    ensures
        match params {
            None => a.status@ == "404 Not Found"@ && a.message@ == "Not the OAuth redirect."@
                && a.verdict is None,
            Some(q) => match (param(q@, "error"@), param(q@, "code"@)) {
                (Some(e), _) => {
                    let d = match param(q@, "error_description"@) {
                        Some(d) => d,
                        None => Seq::empty(),
                    };
                    &&& a.status@ == "400 Bad Request"@
                    &&& a.message@ == "Authorization failed — see terminal."@
                    &&& a.verdict matches Some(Err(text)) && text@ == "provider returned "@ + e
                        + ": "@ + d + redirect_hint(e, d)
                },
                (None, None) => a.status@ == "404 Not Found"@ && a.message@
                    == "Not the OAuth redirect."@ && a.verdict is None,
                (None, Some(c)) => if param(q@, "state"@) == Some(expected_state@) {
                    &&& a.status@ == "200 OK"@
                    &&& a.message@
                        == "Authorization received — you can close this window and return to the terminal."@
                    &&& a.verdict matches Some(Ok(code)) && code@ == c
                } else {
                    &&& a.status@ == "400 Bad Request"@
                    &&& a.message@ == "State mismatch — aborted."@
                    &&& a.verdict matches Some(Err(text)) && text@
                        == "state parameter mismatch — possible CSRF or a stale browser tab; retry"@
                },
            },
        },
{
    let q = match params {
        Some(q) => q,
        None => {
            return RedirectAnswer {
                status: "404 Not Found",
                message: "Not the OAuth redirect.",
                verdict: None,
            };
        },
    };
    match validate_redirect(q, expected_state) {
        Ok(code) => RedirectAnswer {
            status: "200 OK",
            message: "Authorization received — you can close this window and return to the terminal.",
            verdict: Some(Ok(code)),
        },
        Err(RedirectError::NotOAuth) => RedirectAnswer {
            status: "404 Not Found",
            message: "Not the OAuth redirect.",
            verdict: None,
        },
        Err(RedirectError::StateMismatch) => RedirectAnswer {
            status: "400 Bad Request",
            message: "State mismatch — aborted.",
            verdict: Some(
                Err(
                    copy_of(
                        "state parameter mismatch — possible CSRF or a stale browser tab; retry",
                    ),
                ),
            ),
        },
        Err(RedirectError::Provider { error, description }) => {
            let mut text = copy_of("provider returned ");
            text.append(error.as_str());
            text.append(": ");
            text.append(description.as_str());
            let ghost head = text@;
            if text_contains(description.as_str(), "AADSTS50011") || same_text(
                error.as_str(),
                "redirect_uri_mismatch",
            ) {
                text.append(
                    "\nHint: the redirect URI is not registered on the app. For Entra, add the \"Mobile and desktop applications\" platform (loopback on any port) or the exact web redirect that reauth used (printed above).",
                );
            }
            proof {
                assert(text@ =~= head + redirect_hint(error@, description@));
            }
            RedirectAnswer {
                status: "400 Bad Request",
                message: "Authorization failed — see terminal.",
                verdict: Some(Err(text)),
            }
        },
    }
}

/// The page with a message.
pub open spec fn page_body(message: Seq<char>) -> Seq<char> {
    "<!doctype html><html><body style=\"font-family: sans-serif; margin: 3em;\"><h3>imap-mcp-rs</h3><p>"@
        + message + "</p></body></html>"@
}

/// The answer with a page.
pub open spec fn page(status: Seq<char>, message: Seq<char>) -> Seq<char> {
    "HTTP/1.1 "@ + status + "\r\nContent-Type: text/html; charset=utf-8\r\nContent-Length: "@
        + decimal(byte_len(page_body(message))) + "\r\nConnection: close\r\n\r\n"@ + page_body(
        message,
    )
}

/// Writes the answer with a page.
pub fn http_page(status: &str, message: &str) -> (out: String)
    ensures
        out@ == page(status@, message@),
{
    let mut body = copy_of(
        "<!doctype html><html><body style=\"font-family: sans-serif; margin: 3em;\"><h3>imap-mcp-rs</h3><p>",
    );
    body.append(message);
    body.append("</p></body></html>");
    let mut out = copy_of("HTTP/1.1 ");
    out.append(status);
    out.append("\r\nContent-Type: text/html; charset=utf-8\r\nContent-Length: ");
    let n = decimal_string(byte_len_of(body.as_str()) as u64);
    out.append(n.as_str());
    out.append("\r\nConnection: close\r\n\r\n");
    out.append(body.as_str());
    out
}

// ---------------------------------------------------------------------------
// Encoding and decoding
// ---------------------------------------------------------------------------

/// The bytes of a text of ASCII characters.
spec fn ascii_bytes(s: Seq<char>) -> Seq<u8> {
    s.map_values(|c: char| c as u8)
}

proof fn lemma_form_byte(b: u8)
    ensures
        is_ascii_chars(form_byte(b)),
        unreserved(b) ==> ascii_bytes(form_byte(b)) == seq![b] && b != 43 && b != 37,
        !unreserved(b) ==> {
            let e = ascii_bytes(form_byte(b));
            &&& e.len() == 3
            &&& e[0] == 37
            &&& nibble(e[1]) == Some((b / 16) as u8)
            &&& nibble(e[2]) == Some((b % 16) as u8)
            &&& ((b / 16) as u8 * 16 + (b % 16) as u8) as u8 == b
        },
{
}

proof fn lemma_form_step(b: Seq<u8>)
    requires
        b.len() > 0,
    ensures
        form_bytes(b) == form_byte(b[0]) + form_bytes(b.drop_first()),
{
    let f = |x: u8| form_byte(x);
    assert(b.map_values(f).drop_first() =~= b.drop_first().map_values(f));
    assert(b.map_values(f).first() == form_byte(b[0]));
}

proof fn lemma_form_is_ascii(b: Seq<u8>)
    ensures
        is_ascii_chars(form_bytes(b)),
    decreases b.len(),
{
    if b.len() > 0 {
        lemma_form_is_ascii(b.drop_first());
        lemma_form_step(b);
        lemma_form_byte(b[0]);
        let head = form_byte(b[0]);
        let rest = form_bytes(b.drop_first());
        assert forall|i: int| 0 <= i < (head + rest).len() implies '\0' <= #[trigger] (head
            + rest)[i] <= '\u{7f}' by {
            if i < head.len() {
                assert((head + rest)[i] == head[i]);
            } else {
                assert((head + rest)[i] == rest[i - head.len()]);
            }
        }
    } else {
        assert(form_bytes(b) =~= Seq::<char>::empty());
    }
}

proof fn lemma_form_is_undone(done: Seq<u8>, b: Seq<u8>)
    ensures
        unescaped(done + ascii_bytes(form_bytes(b)), done.len() as int) == b,
    decreases b.len(),
{
    if b.len() > 0 {
        let head = ascii_bytes(form_byte(b[0]));
        let rest = b.drop_first();
        let all = done + ascii_bytes(form_bytes(b));
        lemma_form_step(b);
        lemma_form_byte(b[0]);
        lemma_form_is_undone(done + head, rest);
        assert(ascii_bytes(form_bytes(b)) =~= head + ascii_bytes(form_bytes(rest)));
        assert(all =~= (done + head) + ascii_bytes(form_bytes(rest)));
        let n = done.len() as int;
        assert(all[n] == head[0]);
        assert(unescaped(all, n + head.len()) == rest);
        if !unreserved(b[0]) {
            assert(all[n + 1] == head[1] && all[n + 2] == head[2]);
        }
        assert(unescaped(all, n) =~= seq![b[0]] + rest);
        assert(b =~= seq![b[0]] + rest);
    } else {
        assert(form_bytes(b) =~= Seq::<char>::empty());
        assert(unescaped(done + ascii_bytes(form_bytes(b)), done.len() as int) =~= b);
    }
}

/// Decoding a text undoes its encoding, whatever the text.
pub proof fn decoding_undoes_encoding(s: Seq<char>)
    ensures
        decoded_form(form_text(s)) == s,
{
    let b = encode_utf8(s);
    let t = form_text(s);
    lemma_form_is_ascii(b);
    is_ascii_chars_encode_utf8(t);
    assert(encode_utf8(t) =~= ascii_bytes(t)) by {
        assert forall|i: int| 0 <= i < t.len() implies encode_utf8(t)[i] == ascii_bytes(t)[i] by {
            assert(t[i] as u8 == encode_utf8(t)[i]);
        }
    }
    lemma_form_is_undone(Seq::empty(), b);
    assert(Seq::<u8>::empty() + ascii_bytes(form_bytes(b)) =~= ascii_bytes(t));
    encode_utf8_valid_utf8(s);
    encode_utf8_decode_utf8(s);
}

// ---------------------------------------------------------------------------
// Forms read back
// ---------------------------------------------------------------------------

/// A text that stands for itself in a form.
pub open spec fn is_form_word(k: Seq<char>) -> bool {
    forall|i: int|
        0 <= i < k.len() ==> ('A' <= #[trigger] k[i] <= 'Z' || 'a' <= k[i] <= 'z' || '0' <= k[i] <= '9'
            || k[i] == '-' || k[i] == '_' || k[i] == '.' || k[i] == '~')
}

proof fn lemma_words_are_kept(b: Seq<u8>, k: Seq<char>)
    requires
        is_form_word(k),
        b.len() == k.len(),
        forall|i: int| 0 <= i < b.len() ==> #[trigger] b[i] == k[i] as u8,
    ensures
        form_bytes(b) == k,
    decreases b.len(),
{
    if b.len() > 0 {
        lemma_form_step(b);
        let rest = k.drop_first();
        assert forall|i: int| 0 <= i < b.drop_first().len() implies #[trigger] b.drop_first()[i]
            == rest[i] as u8 by {
            assert(b[i + 1] == k[i + 1] as u8);
        }
        assert forall|i: int| 0 <= i < rest.len() implies ('A' <= #[trigger] rest[i] <= 'Z' || 'a'
            <= rest[i] <= 'z' || '0' <= rest[i] <= '9' || rest[i] == '-' || rest[i] == '_' || rest[i]
            == '.' || rest[i] == '~') by {
            assert(rest[i] == k[i + 1]);
        }
        lemma_words_are_kept(b.drop_first(), rest);
        assert(b[0] == k[0] as u8);
        assert(unreserved(b[0]));
        assert(form_byte(b[0]) =~= seq![k[0]]);
        assert(k =~= seq![k[0]] + rest);
    } else {
        assert(form_bytes(b) =~= Seq::<char>::empty());
        assert(k =~= Seq::<char>::empty());
    }
}

proof fn lemma_form_word(k: Seq<char>)
    requires
        is_form_word(k),
    ensures
        form_text(k) == k,
        decoded_form(k) == k,
{
    assert(is_ascii_chars(k)) by {
        assert forall|i: int| 0 <= i < k.len() implies '\0' <= #[trigger] k[i] <= '\u{7f}' by {}
    }
    is_ascii_chars_encode_utf8(k);
    let b = encode_utf8(k);
    assert forall|i: int| 0 <= i < b.len() implies #[trigger] b[i] == k[i] as u8 by {}
    lemma_words_are_kept(b, k);
    decoding_undoes_encoding(k);
}

proof fn lemma_form_is_safe(b: Seq<u8>)
    ensures
        forall|i: int| 0 <= i < form_bytes(b).len() ==> #[trigger] form_bytes(b)[i] != '&',
    decreases b.len(),
{
    if b.len() > 0 {
        lemma_form_step(b);
        lemma_form_is_safe(b.drop_first());
        let head = form_byte(b[0]);
        let rest = form_bytes(b.drop_first());
        assert forall|i: int| 0 <= i < (head + rest).len() implies #[trigger] (head + rest)[i] != '&' by {
            if i < head.len() {
                assert((head + rest)[i] == head[i]);
            } else {
                assert((head + rest)[i] == rest[i - head.len()]);
            }
        }
    } else {
        assert(form_bytes(b) =~= Seq::<char>::empty());
    }
}

/// A field of a form: a name and a value.
pub open spec fn form_field(k: Seq<char>, v: Seq<char>) -> Seq<char> {
    k + seq!['='] + form_text(v)
}

proof fn lemma_field(k: Seq<char>, v: Seq<char>)
    requires
        is_form_word(k),
    ensures
        pair_in(form_field(k, v)) == Some((k, v)),
        forall|i: int| 0 <= i < form_field(k, v).len() ==> #[trigger] form_field(k, v)[i] != '&',
{
    let p = form_field(k, v);
    let eq = next_char(p, '=', 0);
    lemma_next_char(p, '=', 0);
    assert(eq == k.len()) by {
        if eq < k.len() {
            assert(p[eq] == k[eq]);
        }
        if eq > k.len() {
            assert(p[k.len() as int] == '=');
        }
    }
    assert(p.take(eq) =~= k);
    assert(p.skip(eq + 1) =~= form_text(v));
    lemma_form_word(k);
    decoding_undoes_encoding(v);
    lemma_form_is_safe(encode_utf8(v));
    assert forall|i: int| 0 <= i < p.len() implies #[trigger] p[i] != '&' by {
        if i < k.len() {
            assert(p[i] == k[i]);
        } else if i > k.len() {
            assert(p[i] == form_text(v)[i - k.len() - 1]);
        }
    }
}

/// A form with one field reads back as that field.
pub proof fn lemma_first_field(k: Seq<char>, v: Seq<char>)
    requires
        is_form_word(k),
    ensures
        query_params(form_field(k, v)) == seq![(k, v)],
{
    let p = form_field(k, v);
    lemma_field(k, v);
    lemma_next_char(p, '&', 0);
    let e = next_char(p, '&', 0);
    if e < p.len() {
        assert(p[e] != '&');
    }
    assert(p.subrange(0, p.len() as int) =~= p);
    let parts = split(p, '&');
    assert(parts =~= seq![p]);
    reveal_with_fuel(pairs_in, 2);
    assert(parts.drop_last() =~= Seq::<Seq<char>>::empty());
    assert(pairs_in(parts) =~= seq![(k, v)]);
}

/// A form with one field more reads back as before, with that field behind the
/// others.
pub proof fn lemma_further_field(a: Seq<char>, k: Seq<char>, v: Seq<char>)
    requires
        is_form_word(k),
    ensures
        query_params(a + seq!['&'] + form_field(k, v)) == query_params(a).push((k, v)),
{
    let p = form_field(k, v);
    lemma_field(k, v);
    lemma_split_behind(a, p, '&', 0);
    let parts = split(a, '&');
    assert(parts.push(p).drop_last() =~= parts);
    assert(parts.push(p).last() == p);
}

/// The names and the fixed values of the fields.
proof fn lemma_field_names()
    ensures
        "grant_type"@.len() == 10 && is_form_word("grant_type"@),
        "client_id"@.len() == 9 && is_form_word("client_id"@),
        "client_secret"@.len() == 13 && "client_secret"@[1] == 'l' && is_form_word("client_secret"@),
        "refresh_token"@.len() == 13 && "refresh_token"@[1] == 'e' && is_form_word("refresh_token"@),
        "authorization_code"@.len() == 18 && is_form_word("authorization_code"@),
        "code"@.len() == 4 && is_form_word("code"@),
        "redirect_uri"@.len() == 12 && is_form_word("redirect_uri"@),
        "code_verifier"@.len() == 13 && "code_verifier"@[1] == 'o' && is_form_word("code_verifier"@),
        "response_type"@.len() == 13 && "response_type"@[2] == 's' && is_form_word("response_type"@),
        "refresh_token"@[2] == 'f',
        "scope"@.len() == 5 && "scope"@[1] == 'c' && is_form_word("scope"@),
        "state"@.len() == 5 && "state"@[1] == 't' && is_form_word("state"@),
        "code_challenge"@.len() == 14 && is_form_word("code_challenge"@),
        "code_challenge_method"@.len() == 21 && is_form_word("code_challenge_method"@),
        "S256"@.len() == 4 && is_form_word("S256"@),
        "response_mode"@.len() == 13 && "response_mode"@[9] == 'm' && is_form_word("response_mode"@),
        "response_type"@[9] == 't',
        "response_mode"@[1] == 'e' && "response_mode"@[2] == 's',
        "response_type"@[1] == 'e',
        "query"@.len() == 5 && "query"@[0] == 'q' && is_form_word("query"@),
        "access_type"@.len() == 11 && is_form_word("access_type"@),
        "offline"@.len() == 7 && is_form_word("offline"@),
        "prompt"@.len() == 6 && is_form_word("prompt"@),
        "consent"@.len() == 7 && is_form_word("consent"@),
{
    reveal_strlit("grant_type");
    reveal_strlit("client_id");
    reveal_strlit("client_secret");
    reveal_strlit("refresh_token");
    reveal_strlit("authorization_code");
    reveal_strlit("code");
    reveal_strlit("redirect_uri");
    reveal_strlit("code_verifier");
    reveal_strlit("response_type");
    reveal_strlit("scope");
    reveal_strlit("state");
    reveal_strlit("code_challenge");
    reveal_strlit("code_challenge_method");
    reveal_strlit("S256");
    reveal_strlit("response_mode");
    reveal_strlit("query");
    reveal_strlit("access_type");
    reveal_strlit("offline");
    reveal_strlit("prompt");
    reveal_strlit("consent");
}

/// A server reads the form for a new access token as it was meant: which grant is
/// used, which client asks, the refresh token, and the client's secret where it
/// has one.
pub proof fn refresh_forms_read_back(
    client_id: Seq<char>,
    refresh_token: Seq<char>,
    secret: Option<Seq<char>>,
)
    ensures
        ({
            let q = query_params(refresh_form(client_id, refresh_token, secret));
            &&& only_in(q, "grant_type"@) == Some("refresh_token"@)
            &&& only_in(q, "client_id"@) == Some(client_id)
            &&& only_in(q, "refresh_token"@) == Some(refresh_token)
            &&& secret is Some ==> only_in(q, "client_secret"@) == secret
            &&& secret is None ==> count_in(q, "client_secret"@) == 0
        }),
{
    let start = "grant_type=refresh_token&client_id="@ + form_text(client_id);
    let form = start + "&refresh_token="@ + form_text(refresh_token);
    lemma_field_names();
    lemma_refresh_start(client_id);
    lemma_more_fields();
    lemma_appended(start, "&refresh_token="@, "refresh_token"@, refresh_token);
    lemma_secret_appended(form, secret);
    lemma_refresh_found(client_id, refresh_token, secret);
}

proof fn lemma_refresh_found(
    client_id: Seq<char>,
    refresh_token: Seq<char>,
    secret: Option<Seq<char>>,
)
    ensures
        ({
            let p = seq![("grant_type"@, "refresh_token"@)].push(("client_id"@, client_id)).push(
                ("refresh_token"@, refresh_token),
            );
            let q = with_secret(p, secret);
            &&& only_in(q, "grant_type"@) == Some("refresh_token"@)
            &&& only_in(q, "client_id"@) == Some(client_id)
            &&& only_in(q, "refresh_token"@) == Some(refresh_token)
            &&& secret is Some ==> only_in(q, "client_secret"@) == secret
            &&& secret is None ==> count_in(q, "client_secret"@) == 0
        }),
{
    broadcast use crate::lookup::group_members;

    lemma_field_names();
}

/// Fields with that of a secret behind them, where there is one.
spec fn with_secret(p: Seq<(Seq<char>, Seq<char>)>, secret: Option<Seq<char>>) -> Seq<
    (Seq<char>, Seq<char>),
> {
    match secret {
        Some(s) => p.push(("client_secret"@, s)),
        None => p,
    }
}

/// A field that is written behind others is read behind them.
proof fn lemma_appended(a: Seq<char>, lead: Seq<char>, k: Seq<char>, v: Seq<char>)
    requires
        is_form_word(k),
        lead == seq!['&'] + k + seq!['='],
    ensures
        query_params(a + lead + form_text(v)) == query_params(a).push((k, v)),
{
    lemma_further_field(a, k, v);
    assert(a + lead + form_text(v) =~= a + seq!['&'] + form_field(k, v));
}

proof fn lemma_secret_appended(a: Seq<char>, secret: Option<Seq<char>>)
    ensures
        query_params(a + secret_field(secret)) == with_secret(query_params(a), secret),
{
    match secret {
        Some(s) => {
            lemma_field_names();
            lemma_more_fields();
            lemma_appended(a, "&client_secret="@, "client_secret"@, s);
            assert(a + ("&client_secret="@ + form_text(s)) =~= a + "&client_secret="@ + form_text(s));
        },
        None => {
            assert(a + Seq::<char>::empty() =~= a);
        },
    }
}

/// The words that lead to further fields.
proof fn lemma_more_fields()
    ensures
        "&refresh_token="@ == seq!['&'] + "refresh_token"@ + seq!['='],
        "&client_secret="@ == seq!['&'] + "client_secret"@ + seq!['='],
        "&code="@ == seq!['&'] + "code"@ + seq!['='],
        "&redirect_uri="@ == seq!['&'] + "redirect_uri"@ + seq!['='],
        "&code_verifier="@ == seq!['&'] + "code_verifier"@ + seq!['='],
{
    reveal_strlit("&refresh_token=");
    reveal_strlit("&client_secret=");
    reveal_strlit("&code=");
    reveal_strlit("&redirect_uri=");
    reveal_strlit("&code_verifier=");
    reveal_strlit("refresh_token");
    reveal_strlit("client_secret");
    reveal_strlit("code");
    reveal_strlit("redirect_uri");
    reveal_strlit("code_verifier");
    assert("&refresh_token="@ =~= seq!['&'] + "refresh_token"@ + seq!['=']);
    assert("&client_secret="@ =~= seq!['&'] + "client_secret"@ + seq!['=']);
    assert("&code="@ =~= seq!['&'] + "code"@ + seq!['=']);
    assert("&redirect_uri="@ =~= seq!['&'] + "redirect_uri"@ + seq!['=']);
    assert("&code_verifier="@ =~= seq!['&'] + "code_verifier"@ + seq!['=']);
}

proof fn lemma_refresh_start(client_id: Seq<char>)
    ensures
        query_params("grant_type=refresh_token&client_id="@ + form_text(client_id)) == seq![
            ("grant_type"@, "refresh_token"@),
        ].push(("client_id"@, client_id)),
{
    lemma_field_names();
    lemma_form_word("refresh_token"@);
    lemma_first_field("grant_type"@, "refresh_token"@);
    let a = form_field("grant_type"@, "refresh_token"@);
    let lead = seq!['&'] + "client_id"@ + seq!['='];
    lemma_appended(a, lead, "client_id"@, client_id);
    assert("grant_type=refresh_token&client_id="@ =~= "grant_type"@ + seq!['='] + "refresh_token"@
        + lead) by {
        reveal_strlit("grant_type=refresh_token&client_id=");
        reveal_strlit("grant_type");
        reveal_strlit("refresh_token");
        reveal_strlit("client_id");
    }
}

proof fn lemma_exchange_start(client_id: Seq<char>)
    ensures
        query_params("grant_type=authorization_code&client_id="@ + form_text(client_id)) == seq![
            ("grant_type"@, "authorization_code"@),
        ].push(("client_id"@, client_id)),
{
    lemma_field_names();
    lemma_form_word("authorization_code"@);
    lemma_first_field("grant_type"@, "authorization_code"@);
    let a = form_field("grant_type"@, "authorization_code"@);
    let lead = seq!['&'] + "client_id"@ + seq!['='];
    lemma_appended(a, lead, "client_id"@, client_id);
    assert("grant_type=authorization_code&client_id="@ =~= "grant_type"@ + seq!['=']
        + "authorization_code"@ + lead) by {
        reveal_strlit("grant_type=authorization_code&client_id=");
        reveal_strlit("grant_type");
        reveal_strlit("authorization_code");
        reveal_strlit("client_id");
    }
}

/// A server reads the form that exchanges a code as it was meant: the grant, the
/// client, the code, the address that the code came to, the verifier, and the
/// client's secret where it has one.
pub proof fn exchange_forms_read_back(
    client_id: Seq<char>,
    code: Seq<char>,
    redirect_uri: Seq<char>,
    verifier: Seq<char>,
    secret: Option<Seq<char>>,
)
    ensures
        ({
            let q = query_params(exchange_form(client_id, code, redirect_uri, verifier, secret));
            &&& only_in(q, "grant_type"@) == Some("authorization_code"@)
            &&& only_in(q, "client_id"@) == Some(client_id)
            &&& only_in(q, "code"@) == Some(code)
            &&& only_in(q, "redirect_uri"@) == Some(redirect_uri)
            &&& only_in(q, "code_verifier"@) == Some(verifier)
            &&& secret is Some ==> only_in(q, "client_secret"@) == secret
            &&& secret is None ==> count_in(q, "client_secret"@) == 0
        }),
{
    let a = "grant_type=authorization_code&client_id="@ + form_text(client_id);
    let b = a + "&code="@ + form_text(code);
    let c = b + "&redirect_uri="@ + form_text(redirect_uri);
    let d = c + "&code_verifier="@ + form_text(verifier);
    lemma_field_names();
    lemma_more_fields();
    lemma_exchange_start(client_id);
    lemma_appended(a, "&code="@, "code"@, code);
    lemma_appended(b, "&redirect_uri="@, "redirect_uri"@, redirect_uri);
    lemma_appended(c, "&code_verifier="@, "code_verifier"@, verifier);
    lemma_secret_appended(d, secret);
    lemma_exchange_found(client_id, code, redirect_uri, verifier, secret);
}

proof fn lemma_exchange_found(
    client_id: Seq<char>,
    code: Seq<char>,
    redirect_uri: Seq<char>,
    verifier: Seq<char>,
    secret: Option<Seq<char>>,
)
    ensures
        ({
            let p = seq![("grant_type"@, "authorization_code"@)].push(
                ("client_id"@, client_id),
            ).push(("code"@, code)).push(("redirect_uri"@, redirect_uri)).push(
                ("code_verifier"@, verifier),
            );
            let q = with_secret(p, secret);
            &&& only_in(q, "grant_type"@) == Some("authorization_code"@)
            &&& only_in(q, "client_id"@) == Some(client_id)
            &&& only_in(q, "code"@) == Some(code)
            &&& only_in(q, "redirect_uri"@) == Some(redirect_uri)
            &&& only_in(q, "code_verifier"@) == Some(verifier)
            &&& secret is Some ==> only_in(q, "client_secret"@) == secret
            &&& secret is None ==> count_in(q, "client_secret"@) == 0
        }),
{
    broadcast use crate::lookup::group_members;

    lemma_field_names();
}

/// The fields that every authorization address asks with: a code, for the client,
/// to be sent to the given address with the given state, and bound to the
/// challenge.
pub open spec fn asks_for_code(
    q: Seq<(Seq<char>, Seq<char>)>,
    client_id: Seq<char>,
    redirect_uri: Seq<char>,
    state: Seq<char>,
    challenge: Seq<char>,
) -> bool {
    &&& only_in(q, "client_id"@) == Some(client_id)
    &&& only_in(q, "response_type"@) == Some("code"@)
    &&& only_in(q, "redirect_uri"@) == Some(redirect_uri)
    &&& only_in(q, "state"@) == Some(state)
    &&& only_in(q, "code_challenge"@) == Some(challenge)
    &&& only_in(q, "code_challenge_method"@) == Some("S256"@)
}

proof fn lemma_common(client_id: Seq<char>, redirect_uri: Seq<char>) -> (c: Seq<char>)
    ensures
        common_fields(client_id, redirect_uri) == seq!['?'] + c,
        query_params(c) == seq![("client_id"@, client_id)].push(("response_type"@, "code"@)).push(
            ("redirect_uri"@, redirect_uri),
        ),
{
    lemma_field_names();
    lemma_form_word("code"@);
    let a = form_field("client_id"@, client_id);
    let b = a + seq!['&'] + form_field("response_type"@, "code"@);
    let c = b + seq!['&'] + form_field("redirect_uri"@, redirect_uri);
    lemma_first_field("client_id"@, client_id);
    lemma_further_field(a, "response_type"@, "code"@);
    lemma_further_field(b, "redirect_uri"@, redirect_uri);
    reveal_strlit("?client_id=");
    reveal_strlit("&response_type=code&redirect_uri=");
    reveal_strlit("client_id");
    reveal_strlit("response_type");
    reveal_strlit("code");
    reveal_strlit("redirect_uri");
    assert("?client_id="@ =~= seq!['?'] + "client_id"@ + seq!['=']);
    assert("&response_type=code&redirect_uri="@ =~= seq!['&'] + "response_type"@ + seq!['='] + "code"@
        + seq!['&'] + "redirect_uri"@ + seq!['=']);
    assert(common_fields(client_id, redirect_uri) =~= seq!['?'] + c);
    c
}

proof fn lemma_scope(a: Seq<char>, scope: Seq<char>, state: Seq<char>)
    ensures
        query_params(a + scope_fields(scope, state)) == query_params(a).push(("scope"@, scope)).push(
            ("state"@, state),
        ),
{
    lemma_field_names();
    let b = a + seq!['&'] + form_field("scope"@, scope);
    lemma_further_field(a, "scope"@, scope);
    lemma_further_field(b, "state"@, state);
    reveal_strlit("&scope=");
    reveal_strlit("&state=");
    reveal_strlit("scope");
    reveal_strlit("state");
    assert("&scope="@ =~= seq!['&'] + "scope"@ + seq!['=']);
    assert("&state="@ =~= seq!['&'] + "state"@ + seq!['=']);
    assert(a + scope_fields(scope, state) =~= b + seq!['&'] + form_field("state"@, state));
}

proof fn lemma_challenge(a: Seq<char>, challenge: Seq<char>)
    ensures
        query_params(a + challenge_field(challenge)) == query_params(a).push(
            ("code_challenge"@, challenge),
        ).push(("code_challenge_method"@, "S256"@)),
{
    lemma_field_names();
    lemma_form_word("S256"@);
    let b = a + seq!['&'] + form_field("code_challenge"@, challenge);
    lemma_further_field(a, "code_challenge"@, challenge);
    lemma_further_field(b, "code_challenge_method"@, "S256"@);
    reveal_strlit("&code_challenge=");
    reveal_strlit("&code_challenge_method=S256");
    reveal_strlit("code_challenge");
    reveal_strlit("code_challenge_method");
    reveal_strlit("S256");
    assert("&code_challenge="@ =~= seq!['&'] + "code_challenge"@ + seq!['=']);
    assert("&code_challenge_method=S256"@ =~= seq!['&'] + "code_challenge_method"@ + seq!['=']
        + "S256"@);
    assert(a + challenge_field(challenge) =~= b + seq!['&'] + form_field(
        "code_challenge_method"@,
        "S256"@,
    ));
}

proof fn lemma_offline(a: Seq<char>)
    ensures
        query_params(a + "&access_type=offline&prompt=consent"@) == query_params(a).push(
            ("access_type"@, "offline"@),
        ).push(("prompt"@, "consent"@)),
{
    lemma_field_names();
    lemma_form_word("offline"@);
    lemma_form_word("consent"@);
    let b = a + seq!['&'] + form_field("access_type"@, "offline"@);
    lemma_further_field(a, "access_type"@, "offline"@);
    lemma_further_field(b, "prompt"@, "consent"@);
    reveal_strlit("&access_type=offline&prompt=consent");
    reveal_strlit("access_type");
    reveal_strlit("offline");
    reveal_strlit("prompt");
    reveal_strlit("consent");
    assert("&access_type=offline&prompt=consent"@ =~= seq!['&'] + "access_type"@ + seq!['=']
        + "offline"@ + seq!['&'] + "prompt"@ + seq!['='] + "consent"@);
    assert(a + "&access_type=offline&prompt=consent"@ =~= b + seq!['&'] + form_field(
        "prompt"@,
        "consent"@,
    ));
}

proof fn lemma_mode(a: Seq<char>)
    ensures
        query_params(a + "&response_mode=query"@) == query_params(a).push(
            ("response_mode"@, "query"@),
        ),
{
    lemma_field_names();
    lemma_form_word("query"@);
    lemma_further_field(a, "response_mode"@, "query"@);
    reveal_strlit("&response_mode=query");
    reveal_strlit("response_mode");
    reveal_strlit("query");
    assert("&response_mode=query"@ =~= seq!['&'] + "response_mode"@ + seq!['='] + "query"@);
    assert(a + "&response_mode=query"@ =~= a + seq!['&'] + form_field("response_mode"@, "query"@));
}

/// A provider reads the authorization address as it was meant: behind a question
/// mark it asks for a code for the client, with the address to come back to, the
/// state and the challenge.
pub proof fn authorization_addresses_read_back(
    oauth2: OAuth2Config,
    client_id: Seq<char>,
    redirect_uri: Seq<char>,
    state: Seq<char>,
    challenge: Seq<char>,
) -> (parts: (Seq<char>, Seq<char>))
    requires
        oauth2.provider != OAuth2Provider::Custom,
    ensures
        authorization_url(oauth2, client_id, redirect_uri, state, challenge) == Ok::<
            Seq<char>,
            Seq<char>,
        >(parts.0 + seq!['?'] + parts.1),
        asks_for_code(query_params(parts.1), client_id, redirect_uri, state, challenge),
        oauth2.provider == OAuth2Provider::Gmail ==> parts.0
            == "https://accounts.google.com/o/oauth2/v2/auth"@ && only_in(
            query_params(parts.1),
            "scope"@,
        ) == Some("https://mail.google.com/"@),
        oauth2.provider == OAuth2Provider::Outlook365 ==> parts.0
            == "https://login.microsoftonline.com/"@ + (match oauth2.tenant {
            Some(t) => t@,
            None => "common"@,
        }) + "/oauth2/v2.0/authorize"@ && only_in(query_params(parts.1), "scope"@) == Some(
            "https://outlook.office365.com/IMAP.AccessAsUser.All offline_access"@,
        ),
{
    let common = common_fields(client_id, redirect_uri);
    let bound = challenge_field(challenge);
    if oauth2.provider == OAuth2Provider::Gmail {
        let base = "https://accounts.google.com/o/oauth2/v2/auth"@;
        let scopes = scope_fields("https://mail.google.com/"@, state);
        let more = "&access_type=offline&prompt=consent"@;
        let query = lemma_gmail_query(client_id, redirect_uri, state, challenge);
        lemma_behind_base(base, common, scopes, more, bound, query);
        (base, query)
    } else {
        let tenant = match oauth2.tenant {
            Some(t) => t@,
            None => "common"@,
        };
        let base = "https://login.microsoftonline.com/"@ + tenant + "/oauth2/v2.0/authorize"@;
        let scopes = scope_fields(
            "https://outlook.office365.com/IMAP.AccessAsUser.All offline_access"@,
            state,
        );
        let mode = "&response_mode=query"@;
        let query = lemma_outlook_query(client_id, redirect_uri, state, challenge);
        lemma_behind_base(base, common, mode, scopes, bound, query);
        (base, query)
    }
}

proof fn lemma_behind_base(
    base: Seq<char>,
    common: Seq<char>,
    x: Seq<char>,
    y: Seq<char>,
    z: Seq<char>,
    query: Seq<char>,
)
    requires
        common + x + y + z == seq!['?'] + query,
    ensures
        base + common + x + y + z == base + seq!['?'] + query,
{
    assert(base + common + x + y + z =~= base + (common + x + y + z));
    assert(base + (seq!['?'] + query) =~= base + seq!['?'] + query);
}

proof fn lemma_behind_mark(c: Seq<char>, x: Seq<char>, y: Seq<char>, z: Seq<char>)
    ensures
        seq!['?'] + c + x + y + z == seq!['?'] + (c + x + y + z),
{
    assert(seq!['?'] + c + x + y + z =~= seq!['?'] + (c + x + y + z));
}

proof fn lemma_gmail_query(
    client_id: Seq<char>,
    redirect_uri: Seq<char>,
    state: Seq<char>,
    challenge: Seq<char>,
) -> (query: Seq<char>)
    ensures
        common_fields(client_id, redirect_uri) + scope_fields("https://mail.google.com/"@, state)
            + "&access_type=offline&prompt=consent"@ + challenge_field(challenge) == seq!['?']
            + query,
        asks_for_code(query_params(query), client_id, redirect_uri, state, challenge),
        only_in(query_params(query), "scope"@) == Some("https://mail.google.com/"@),
{
    let c = lemma_common(client_id, redirect_uri);
    let scope = "https://mail.google.com/"@;
    let scopes = scope_fields(scope, state);
    let more = "&access_type=offline&prompt=consent"@;
    let bound = challenge_field(challenge);
    let query = c + scopes + more + bound;
    lemma_scope(c, scope, state);
    lemma_offline(c + scopes);
    lemma_challenge(c + scopes + more, challenge);
    lemma_behind_mark(c, scopes, more, bound);
    lemma_code_is_asked_for(
        query_params(query),
        client_id,
        redirect_uri,
        state,
        challenge,
        scope,
        true,
    );
    query
}

proof fn lemma_outlook_query(
    client_id: Seq<char>,
    redirect_uri: Seq<char>,
    state: Seq<char>,
    challenge: Seq<char>,
) -> (query: Seq<char>)
    ensures
        common_fields(client_id, redirect_uri) + "&response_mode=query"@ + scope_fields(
            "https://outlook.office365.com/IMAP.AccessAsUser.All offline_access"@,
            state,
        ) + challenge_field(challenge) == seq!['?'] + query,
        asks_for_code(query_params(query), client_id, redirect_uri, state, challenge),
        only_in(query_params(query), "scope"@) == Some(
            "https://outlook.office365.com/IMAP.AccessAsUser.All offline_access"@,
        ),
{
    let c = lemma_common(client_id, redirect_uri);
    let scope = "https://outlook.office365.com/IMAP.AccessAsUser.All offline_access"@;
    let scopes = scope_fields(scope, state);
    let mode = "&response_mode=query"@;
    let bound = challenge_field(challenge);
    let query = c + mode + scopes + bound;
    lemma_mode(c);
    lemma_scope(c + mode, scope, state);
    lemma_challenge(c + mode + scopes, challenge);
    lemma_behind_mark(c, mode, scopes, bound);
    lemma_code_is_asked_for(
        query_params(query),
        client_id,
        redirect_uri,
        state,
        challenge,
        scope,
        false,
    );
    query
}

proof fn lemma_code_is_asked_for(
    q: Seq<(Seq<char>, Seq<char>)>,
    client_id: Seq<char>,
    redirect_uri: Seq<char>,
    state: Seq<char>,
    challenge: Seq<char>,
    scope: Seq<char>,
    offline: bool,
)
    requires
        ({
            let c = seq![("client_id"@, client_id)].push(("response_type"@, "code"@)).push(
                ("redirect_uri"@, redirect_uri),
            );
            let d = if offline {
                c.push(("scope"@, scope)).push(("state"@, state)).push(
                    ("access_type"@, "offline"@),
                ).push(("prompt"@, "consent"@))
            } else {
                c.push(("response_mode"@, "query"@)).push(("scope"@, scope)).push(("state"@, state))
            };
            q == d.push(("code_challenge"@, challenge)).push(("code_challenge_method"@, "S256"@))
        }),
    ensures
        asks_for_code(q, client_id, redirect_uri, state, challenge),
        only_in(q, "scope"@) == Some(scope),
{
    broadcast use crate::lookup::group_members;

    lemma_field_names();
}

} // verus!
