//! What a client knows of its connection, and what it decides from that.

use vstd::prelude::*;

use super::folders::allowed_view;
use super::folders::allows;
use super::folders::filter_folder_names;
use super::folders::is_offered;
use super::folders::offered;
use super::folders::only_allowed_folders_are_offered;
use super::util::connection_error;
use super::util::is_connection_error;
use super::util::log_text;
use super::util::sanitize_log_str;
use crate::config::AccountConfig;
use crate::config::AuthMethod;
use crate::oauth2::AccessToken;
use crate::oauth2::RefreshError;
use crate::oauth2::RefreshOutcome;
use crate::text::copy_list;
use crate::text::copy_of;
use crate::text::copy_opt;
use crate::text::eq_ignore_case;
use crate::text::lemma_next_char;
use crate::text::lemma_split_behind;
use crate::text::next_char;
use crate::text::occurs_at;
use crate::text::opt_text;
use crate::text::replace_text;
use crate::text::replaced;
use crate::text::replaced_from;
use crate::text::same_ignoring_case;
use crate::text::same_text;
use crate::text::split;
use crate::text::texts;
use crate::token_state::account_key;
use crate::token_state::grant_key;
use crate::token_state::load;
use crate::token_state::stores_give_their_entries;
use crate::token_state::TokenTable;

verus! {

// ---------------------------------------------------------------------------
// Failures
// ---------------------------------------------------------------------------

/// A failure: what is said of it, and the same with every cause behind it.
#[derive(Debug)]
pub struct ClientError {
    pub text: String,
    pub chain: String,
}

/// The value of a failure.
pub struct ErrorView {
    pub text: Seq<char>,
    pub chain: Seq<char>,
}

impl View for ClientError {
    type V = ErrorView;

    open spec fn view(&self) -> ErrorView {
        ErrorView { text: self.text@, chain: self.chain@ }
    }
}

/// A failure without a cause behind it.
pub open spec fn plain_error(text: Seq<char>) -> ErrorView {
    ErrorView { text, chain: text }
}

/// A failure as the cause of another.
pub open spec fn caused_by(text: Seq<char>, cause: ErrorView) -> ErrorView {
    ErrorView { text, chain: text + ": "@ + cause.chain }
}

impl ClientError {
    /// A failure without a cause.
    pub fn new(text: String) -> (e: ClientError)
        ensures
            e@ == plain_error(text@),
    {
        let chain = copy_of(text.as_str());
        ClientError { text, chain }
    }

    /// The failure with what it means in front of it.
    pub fn context(self, text: String) -> (e: ClientError)
        ensures
            e@ == caused_by(text@, self@),
    {
        let mut chain = copy_of(text.as_str());
        chain.append(": ");
        chain.append(self.chain.as_str());
        ClientError { text, chain }
    }
}

// ---------------------------------------------------------------------------
// The client
// ---------------------------------------------------------------------------

/// What a client knows: whether it is connected, which folder is selected and
/// how many messages that holds, which folders there are, and its tokens.
pub struct ImapClient {
    pub config: AccountConfig,
    pub connected: bool,
    pub selected_folder: Option<String>,
    pub selected_exists: u32,
    /// The folder that was last selected and the epoch of its UIDs.
    pub last_uid_validity: Option<(String, u32)>,
    pub cached_folder_names: Option<Vec<String>>,
    pub cached_oauth_token: Option<AccessToken>,
    pub active_refresh_token: Option<String>,
    /// What the last loss of the connection, or failure to connect, was due to.
    pub last_error: Option<String>,
}

/// The value of what a client knows.
pub struct ClientView {
    pub connected: bool,
    pub allowed: Option<Seq<Seq<char>>>,
    pub selected: Option<Seq<char>>,
    pub exists: u32,
    pub validity: Option<(Seq<char>, u32)>,
    pub names: Option<Seq<Seq<char>>>,
    pub access: Option<(Seq<char>, u128)>,
    pub refresh: Option<Seq<char>>,
    pub last_error: Option<Seq<char>>,
}

impl View for ImapClient {
    type V = ClientView;

    open spec fn view(&self) -> ClientView {
        ClientView {
            connected: self.connected,
            allowed: allowed_view(self.config.allowed_folders),
            selected: opt_text(self.selected_folder),
            exists: self.selected_exists,
            validity: match self.last_uid_validity {
                Some(p) => Some((p.0@, p.1)),
                None => None,
            },
            names: match self.cached_folder_names {
                Some(l) => Some(texts(l@)),
                None => None,
            },
            access: match self.cached_oauth_token {
                Some(t) => Some((t.token@, t.expires_at)),
                None => None,
            },
            refresh: opt_text(self.active_refresh_token),
            last_error: opt_text(self.last_error),
        }
    }
}

/// A selection and a list of folders belong to a connection, and hold only
/// folders that the account may use.
pub open spec fn sound(c: ClientView) -> bool {
    &&& (c.selected matches Some(f) ==> c.connected && allows(c.allowed, f))
    &&& (c.names matches Some(l) ==> c.connected && forall|i: int|
        0 <= i < l.len() ==> is_offered(c.allowed, #[trigger] l[i]))
}

/// Nothing selected.
pub open spec fn unselected(c: ClientView) -> ClientView {
    ClientView { selected: None, exists: 0, ..c }
}

/// Without a connection.
pub open spec fn dead(c: ClientView) -> ClientView {
    ClientView { connected: false, selected: None, exists: 0, names: None, ..c }
}

/// With a new connection.
pub open spec fn fresh(c: ClientView) -> ClientView {
    ClientView {
        connected: true,
        selected: None,
        exists: 0,
        names: None,
        last_error: None,
        ..c
    }
}

/// After an error: a loss of the connection is kept in mind.
pub open spec fn after_error(c: ClientView, error: Seq<char>) -> ClientView {
    if connection_error(error) {
        dead(ClientView { last_error: Some(log_text(error)), ..c })
    } else {
        c
    }
}

/// The health of a client.
#[derive(Debug)]
pub struct ConnectionState {
    pub connected: bool,
    pub last_error: Option<String>,
    /// Whether a usable access token is at hand; nothing for password accounts.
    pub oauth_token_valid: Option<bool>,
    /// The seconds until the access token at hand expires.
    pub oauth_expires_in_secs: Option<u64>,
}

/// What is to be done to select a folder.
#[derive(Debug)]
pub enum SelectPlan {
    /// Nothing: it is selected and holds so many messages.
    Selected(u32),
    /// Nothing: the account may not use it.
    Refused(String),
    /// It is to be selected.
    Select,
}

/// How to log in.
#[derive(Debug)]
pub enum LoginPlan {
    /// With a password.
    Password { username: String, password: String },
    /// With a token that is at hand.
    Token(String),
    /// With a token that a refresh token gives.
    Refresh(String),
}

/// What follows a refused refresh.
#[derive(Debug)]
pub enum RefreshStep {
    /// Another process has stored this token since: it is tried.
    Retry(String),
    /// The refresh has failed.
    Fail(ClientError),
}

/// The words for a folder that may not be used.
pub open spec fn not_allowed_text(what: Seq<char>, folder: Seq<char>) -> Seq<char> {
    what + " \""@ + folder + "\" is not in allowed_folders for this account"@
}

fn not_allowed(what: &str, folder: &str) -> (out: String)
    ensures
        out@ == not_allowed_text(what@, folder@),
{
    let mut out = copy_of(what);
    out.append(" \"");
    out.append(folder);
    out.append("\" is not in allowed_folders for this account");
    out
}

/// The answer to the challenge of a server: user and token, without the
/// character that separates them.
pub open spec fn xoauth2(user: Seq<char>, token: Seq<char>) -> Seq<char> {
    "user="@ + replaced(user, "\u{1}"@, Seq::empty()) + "\u{1}auth=Bearer "@ + replaced(
        token,
        "\u{1}"@,
        Seq::empty(),
    ) + "\u{1}\u{1}"@
}

/// Computes [`xoauth2`].
pub fn xoauth2_answer(user: &str, token: &str) -> (out: String)
    ensures
        out@ == xoauth2(user@, token@),
{
    proof {
        reveal_strlit("\u{1}");
        reveal_strlit("");
        assert(""@ =~= Seq::<char>::empty());
    }
    let clean_user = replace_text(user, "\u{1}", "");
    let clean_token = replace_text(token, "\u{1}", "");
    let mut out = copy_of("user=");
    out.append(clean_user.as_str());
    out.append("\u{1}auth=Bearer ");
    out.append(clean_token.as_str());
    out.append("\u{1}\u{1}");
    out
}

/// What is said where an account has no refresh token.
pub open spec fn no_refresh_token_text(account: Seq<char>) -> Seq<char> {
    "no OAuth2 refresh token for this account — run `imap-mcp-rs reauth "@ + account + "`"@
}

/// What is said where every refresh token was rejected.
pub open spec fn rejected_text(account: Seq<char>) -> Seq<char> {
    "refresh token rejected (invalid_grant) — run `imap-mcp-rs reauth "@ + account
        + "` to re-authorize"@
}

/// A refresh token that is worth a second try: one that is stored, is not blank
/// and was not tried yet.
pub open spec fn second_token(stored: Option<Seq<char>>, tried: Seq<char>) -> Option<Seq<char>> {
    match stored {
        Some(t) => if t.len() > 0 && t != tried {
            Some(t)
        } else {
            None
        },
        None => None,
    }
}

/// The words for a failed refresh.
pub open spec fn refresh_failure(e: RefreshError) -> Seq<char> {
    match e {
        RefreshError::Refused(o) => o.shown(),
        RefreshError::Other(t) => t@,
    }
}

/// A refresh was refused because the grant is gone.
pub open spec fn grant_is_gone(e: RefreshError) -> bool {
    e matches RefreshError::Refused(o) && o.dead_grant()
}

fn failure_of(e: &RefreshError) -> (out: ClientError)
    ensures
        out@ == plain_error(refresh_failure(*e)),
{
    match e {
        RefreshError::Refused(o) => ClientError::new(o.text()),
        RefreshError::Other(t) => ClientError::new(copy_of(t.as_str())),
    }
}

/// A failed refresh with what to do about it, where that is known.
pub open spec fn with_remedy(e: RefreshError, account: Seq<char>) -> ErrorView {
    match e {
        RefreshError::Refused(o) => match o.remedy_text(account) {
            Some(r) => caused_by(r, plain_error(refresh_failure(e))),
            None => plain_error(refresh_failure(e)),
        },
        RefreshError::Other(_) => plain_error(refresh_failure(e)),
    }
}

/// The stored refresh token of an account.
pub open spec fn stored_token(table: TokenTable, config: AccountConfig) -> Option<Seq<char>> {
    match table.token_for(grant_key(config)) {
        Some(t) => Some(t.refresh_token),
        None => None,
    }
}

impl ImapClient {
    pub open spec fn wf(&self) -> bool {
        sound(self@)
    }

    /// A client that is not connected yet. A blank refresh token counts as none.
    pub fn new(config: AccountConfig) -> (c: ImapClient)
        ensures
            c.wf(),
            c.config == config,
            !c@.connected,
            c@.selected is None && c@.exists == 0 && c@.validity is None && c@.names is None,
            c@.access is None && c@.last_error is None,
            c@.refresh == match config.oauth2 {
                Some(o) => match opt_text(o.refresh_token) {
                    Some(t) => if t.len() > 0 {
                        Some(t)
                    } else {
                        None
                    },
                    None => None,
                },
                None => None,
            },
    {
        let mut active_refresh_token: Option<String> = None;
        if let Some(o) = &config.oauth2 {
            if let Some(t) = &o.refresh_token {
                if !same_text(t.as_str(), "") {
                    active_refresh_token = Some(copy_of(t.as_str()));
                }
            }
        }
        proof {
            reveal_strlit("");
            if let Some(o) = &config.oauth2 {
                if let Some(t) = &o.refresh_token {
                    assert(t@.len() == 0 ==> t@ =~= ""@);
                }
            }
        }
        ImapClient {
            config,
            connected: false,
            selected_folder: None,
            selected_exists: 0,
            last_uid_validity: None,
            cached_folder_names: None,
            cached_oauth_token: None,
            active_refresh_token,
            last_error: None,
        }
    }

    /// Takes the stored refresh token of the account, where there is one: it wins
    /// over the one in the settings.
    pub fn adopt_stored_token(&mut self, table: &TokenTable)
        requires
            old(self).wf(),
            table.wf(),
        ensures
            final(self).wf(),
            final(self).config == old(self).config,
            final(self)@ == (ClientView {
                refresh: if old(self).config.auth_method == AuthMethod::OAuth2 && stored_token(
                    *table,
                    old(self).config,
                ) is Some {
                    stored_token(*table, old(self).config)
                } else {
                    old(self)@.refresh
                },
                ..old(self)@
            }),
    {
        if self.config.auth_method != AuthMethod::OAuth2 {
            return;
        }
        let key = account_key(&self.config);
        if let Some(stored) = load(table, key.as_str()) {
            self.active_refresh_token = Some(stored.refresh_token);
        }
    }

    /// Whether the account may use a folder.
    pub fn is_folder_allowed(&self, folder: &str) -> (yes: bool)
        ensures
            yes == allows(self@.allowed, folder@),
    {
        super::folders::is_folder_allowed(&self.config.allowed_folders, folder)
    }

    /// Forgets the connection, and with it the selection and the list of folders.
    pub fn mark_dead(&mut self)
        ensures
            final(self).wf(),
            final(self).config == old(self).config,
            final(self)@ == dead(old(self)@),
    {
        self.connected = false;
        self.selected_folder = None;
        self.selected_exists = 0;
        self.cached_folder_names = None;
    }

    /// Notes a new connection.
    pub fn mark_connected(&mut self)
        ensures
            final(self).wf(),
            final(self).config == old(self).config,
            final(self)@ == fresh(old(self)@),
    {
        self.connected = true;
        self.selected_folder = None;
        self.selected_exists = 0;
        self.cached_folder_names = None;
        self.last_error = None;
    }

    /// Notes why there is no connection.
    pub fn note_connect_failure(&mut self, e: &ClientError)
        requires
            old(self).wf(),
        ensures
            final(self).wf(),
            final(self).config == old(self).config,
            final(self)@ == (ClientView { last_error: Some(log_text(e@.chain)), ..old(self)@ }),
    {
        self.last_error = Some(sanitize_log_str(e.chain.as_str()));
    }

    /// Notes that connecting again took too long.
    pub fn note_reconnect_timeout(&mut self) -> (e: ClientError)
        requires
            old(self).wf(),
        ensures
            e@ == plain_error("IMAP reconnect timed out"@),
            final(self).wf(),
            final(self).config == old(self).config,
            final(self)@ == (ClientView {
                last_error: Some("IMAP reconnect timed out"@),
                ..old(self)@
            }),
    {
        self.last_error = Some(copy_of("IMAP reconnect timed out"));
        ClientError::new(copy_of("IMAP reconnect timed out"))
    }

    /// Forgets an access token that the server rejected.
    pub fn forget_access_token(&mut self)
        requires
            old(self).wf(),
        ensures
            final(self).wf(),
            final(self).config == old(self).config,
            final(self)@ == (ClientView { access: None, ..old(self)@ }),
    {
        self.cached_oauth_token = None;
    }

    /// Looks at an error: where the connection is lost, that is noted.
    pub fn check_error(&mut self, e: ClientError) -> (out: ClientError)
        requires
            old(self).wf(),
        ensures
            out@ == e@,
            final(self).wf(),
            final(self).config == old(self).config,
            final(self)@ == after_error(old(self)@, e@.text),
    {
        if is_connection_error(e.text.as_str()) {
            self.last_error = Some(sanitize_log_str(e.text.as_str()));
            self.mark_dead();
        }
        e
    }

    /// Whether a failed read is tried once more: only where the connection is
    /// lost, which is forgotten.
    pub fn wants_retry(&mut self, e: &ClientError) -> (again: bool)
        requires
            old(self).wf(),
        ensures
            again == connection_error(e@.text),
            final(self).wf(),
            final(self).config == old(self).config,
            final(self)@ == if again {
                dead(old(self)@)
            } else {
                old(self)@
            },
    {
        if is_connection_error(e.text.as_str()) {
            self.mark_dead();
            true
        } else {
            false
        }
    }

    /// Decides what is to be done to select a folder.
    pub fn select_plan(&self, folder: &str) -> (p: SelectPlan)
        requires
            self.wf(),
        ensures
            self@.selected == Some(folder@) ==> p == SelectPlan::Selected(self@.exists),
            self@.selected != Some(folder@) && !allows(self@.allowed, folder@) ==> (
            p matches SelectPlan::Refused(text) && text@ == not_allowed_text("Folder"@, folder@)),
            self@.selected != Some(folder@) && allows(self@.allowed, folder@) ==> p
                == SelectPlan::Select,
    {
        if let Some(s) = &self.selected_folder {
            if same_text(s.as_str(), folder) {
                return SelectPlan::Selected(self.selected_exists);
            }
        }
        if !self.is_folder_allowed(folder) {
            return SelectPlan::Refused(not_allowed("Folder", folder));
        }
        SelectPlan::Select
    }

    /// Notes that a folder was selected. Gives the old and the new epoch of its
    /// UIDs where it was selected before and they differ.
    pub fn note_selected(&mut self, folder: &str, exists: u32, uid_validity: Option<u32>) -> (changed:
        Option<(u32, u32)>)
        requires
            old(self).wf(),
            old(self)@.connected,
            allows(old(self)@.allowed, folder@),
        ensures
            final(self).wf(),
            final(self).config == old(self).config,
            final(self)@ == (ClientView {
                selected: Some(folder@),
                exists,
                validity: match uid_validity {
                    Some(v) => Some((folder@, v)),
                    None => old(self)@.validity,
                },
                ..old(self)@
            }),
            changed == match (uid_validity, old(self)@.validity) {
                (Some(new), Some((f, prev))) => if eq_ignore_case(f, folder@) && prev != new {
                    Some((prev, new))
                } else {
                    None
                },
                _ => None,
            },
    {
        let mut changed: Option<(u32, u32)> = None;
        if let Some(new) = uid_validity {
            if let Some(p) = &self.last_uid_validity {
                if same_ignoring_case(p.0.as_str(), folder) && p.1 != new {
                    changed = Some((p.1, new));
                }
            }
        }
        self.selected_folder = Some(copy_of(folder));
        self.selected_exists = exists;
        if let Some(v) = uid_validity {
            self.last_uid_validity = Some((copy_of(folder), v));
        }
        changed
    }

    /// Notes that a folder could not be selected: a server then has nothing
    /// selected.
    pub fn note_select_failure(&mut self, e: ClientError) -> (out: ClientError)
        requires
            old(self).wf(),
        ensures
            out@ == e@,
            final(self).wf(),
            final(self).config == old(self).config,
            final(self)@ == after_error(unselected(old(self)@), e@.text),
    {
        self.forget_selection();
        self.check_error(e)
    }

    /// Forgets the selection, because the number of messages may have changed.
    pub fn forget_selection(&mut self)
        requires
            old(self).wf(),
        ensures
            final(self).wf(),
            final(self).config == old(self).config,
            final(self)@ == unselected(old(self)@),
    {
        self.selected_folder = None;
        self.selected_exists = 0;
    }

    /// The folders, where they are known.
    pub fn known_folders(&self) -> (out: Option<Vec<String>>)
        ensures
            match out {
                Some(l) => self@.names == Some(texts(l@)),
                None => self@.names is None,
            },
    {
        match &self.cached_folder_names {
            Some(l) => Some(copy_list(l)),
            None => None,
        }
    }

    /// Notes the folders that the server listed, as far as they are offered.
    pub fn note_folders(&mut self, names: &Vec<String>) -> (out: Vec<String>)
        requires
            old(self).wf(),
            old(self)@.connected,
        ensures
            texts(out@) == offered(old(self)@.allowed, texts(names@)),
            final(self).wf(),
            final(self).config == old(self).config,
            final(self)@ == (ClientView {
                names: Some(offered(old(self)@.allowed, texts(names@))),
                ..old(self)@
            }),
    {
        let out = filter_folder_names(&self.config.allowed_folders, names);
        self.cached_folder_names = Some(copy_list(&out));
        proof {
            let l = texts(out@);
            assert forall|i: int| 0 <= i < l.len() implies is_offered(
                self@.allowed,
                #[trigger] l[i],
            ) by {
                only_allowed_folders_are_offered(self@.allowed, texts(names@));
            }
        }
        out
    }

    /// Decides how to log in.
    pub fn login_plan(&self, now: u128) -> (r: Result<LoginPlan, ClientError>)
        ensures
            match self.config.auth_method {
                AuthMethod::Password => match opt_text(self.config.password) {
                    Some(p) => r matches Ok(LoginPlan::Password { username, password })
                        && username@ == self.config.username@ && password@ == p,
                    None => r matches Err(e) && e@ == plain_error(
                        "Password required but not configured"@,
                    ),
                },
                AuthMethod::OAuth2 => if self.cached_oauth_token is Some
                    && self.cached_oauth_token->0.usable(now) {
                    r matches Ok(LoginPlan::Token(t)) && t@ == self.cached_oauth_token->0.token@
                } else if self.config.oauth2 is None {
                    r matches Err(e) && e@ == plain_error("OAuth2 config required"@)
                } else {
                    match self@.refresh {
                        Some(t) => r matches Ok(LoginPlan::Refresh(u)) && u@ == t,
                        None => r matches Err(e) && e@ == plain_error(
                            no_refresh_token_text(self.config.name@),
                        ),
                    }
                },
            },
    {
        match self.config.auth_method {
            AuthMethod::Password => match &self.config.password {
                Some(p) => Ok(
                    LoginPlan::Password {
                        username: copy_of(self.config.username.as_str()),
                        password: copy_of(p.as_str()),
                    },
                ),
                None => Err(ClientError::new(copy_of("Password required but not configured"))),
            },
            AuthMethod::OAuth2 => {
                if let Some(t) = &self.cached_oauth_token {
                    if t.is_valid(now) {
                        return Ok(LoginPlan::Token(copy_of(t.token.as_str())));
                    }
                }
                if self.config.oauth2.is_none() {
                    return Err(ClientError::new(copy_of("OAuth2 config required")));
                }
                match &self.active_refresh_token {
                    Some(t) => Ok(LoginPlan::Refresh(copy_of(t.as_str()))),
                    None => {
                        let mut text = copy_of(
                            "no OAuth2 refresh token for this account — run `imap-mcp-rs reauth ",
                        );
                        text.append(self.config.name.as_str());
                        text.append("`");
                        Err(ClientError::new(text))
                    },
                }
            },
        }
    }

    /// Notes the tokens that a refresh gave. Gives the key and the new refresh
    /// token where the provider issued one, which is then to be stored.
    pub fn note_refreshed(&mut self, outcome: RefreshOutcome) -> (store: Option<(String, String)>)
        requires
            old(self).wf(),
        ensures
            final(self).wf(),
            final(self).config == old(self).config,
            final(self)@ == (ClientView {
                access: Some((outcome.access.token@, outcome.access.expires_at)),
                refresh: match opt_text(outcome.rotated_refresh_token) {
                    Some(t) => Some(t),
                    None => old(self)@.refresh,
                },
                ..old(self)@
            }),
            match store {
                Some(p) => p.0@ == grant_key(old(self).config) && opt_text(
                    outcome.rotated_refresh_token,
                ) == Some(p.1@),
                None => outcome.rotated_refresh_token is None,
            },
    {
        self.cached_oauth_token = Some(outcome.access);
        match outcome.rotated_refresh_token {
            Some(t) => {
                let key = account_key(&self.config);
                let kept = copy_of(t.as_str());
                self.active_refresh_token = Some(kept);
                Some((key, t))
            },
            None => None,
        }
    }

    /// Decides what follows a refresh that was refused: where the grant is gone, a
    /// token that another process has stored since is tried once.
    pub fn refresh_refused(&self, tried: &str, e: &RefreshError, table: &TokenTable) -> (s: RefreshStep)
        requires
            table.wf(),
        ensures
            grant_is_gone(*e) ==> match second_token(stored_token(*table, self.config), tried@) {
                Some(t) => s matches RefreshStep::Retry(u) && u@ == t,
                None => s matches RefreshStep::Fail(f) && f@ == caused_by(
                    rejected_text(self.config.name@),
                    plain_error(refresh_failure(*e)),
                ),
            },
            !grant_is_gone(*e) ==> (s matches RefreshStep::Fail(f) && f@ == with_remedy(
                *e,
                self.config.name@,
            )),
    {
        if let RefreshError::Refused(o) = e {
            if o.is_invalid_grant() {
                let key = account_key(&self.config);
                proof {
                    reveal_strlit("");
                }
                if let Some(stored) = load(table, key.as_str()) {
                    let t = stored.refresh_token;
                    proof {
                        assert(t@.len() == 0 ==> t@ =~= ""@);
                    }
                    if !same_text(t.as_str(), "") && !same_text(t.as_str(), tried) {
                        return RefreshStep::Retry(t);
                    }
                }
                return RefreshStep::Fail(self.grant_lost(e));
            }
            if let Some(remedy) = o.remedy(self.config.name.as_str()) {
                return RefreshStep::Fail(failure_of(e).context(remedy));
            }
        }
        RefreshStep::Fail(failure_of(e))
    }

    /// The failure where every refresh token was rejected, from the first
    /// rejection.
    pub fn grant_lost(&self, first: &RefreshError) -> (f: ClientError)
        ensures
            f@ == caused_by(rejected_text(self.config.name@), plain_error(refresh_failure(*first))),
    {
        let mut text = copy_of("refresh token rejected (invalid_grant) — run `imap-mcp-rs reauth ");
        text.append(self.config.name.as_str());
        text.append("` to re-authorize");
        failure_of(first).context(text)
    }

    /// Takes the token of the second try.
    pub fn adopt_second_token(&mut self, token: String)
        requires
            old(self).wf(),
        ensures
            final(self).wf(),
            final(self).config == old(self).config,
            final(self)@ == (ClientView { refresh: Some(token@), ..old(self)@ }),
    {
        self.active_refresh_token = Some(token);
    }

    /// The health of the client.
    pub fn connection_state(&self, now: u128) -> (s: ConnectionState)
        ensures
            s.connected == self@.connected,
            opt_text(s.last_error) == self@.last_error,
            match self.config.auth_method {
                AuthMethod::OAuth2 => match self.cached_oauth_token {
                    Some(t) => s.oauth_token_valid == Some(t.usable(now))
                        && s.oauth_expires_in_secs is Some && s.oauth_expires_in_secs->0 == {
                        let left = if t.expires_at > now {
                            (t.expires_at - now) / 1_000_000_000
                        } else {
                            0
                        };
                        if left > u64::MAX {
                            u64::MAX as int
                        } else {
                            left
                        }
                    },
                    None => s.oauth_token_valid == Some(false) && s.oauth_expires_in_secs is None,
                },
                AuthMethod::Password => s.oauth_token_valid is None
                    && s.oauth_expires_in_secs is None,
            },
    {
        let mut oauth_token_valid: Option<bool> = None;
        let mut oauth_expires_in_secs: Option<u64> = None;
        if self.config.auth_method == AuthMethod::OAuth2 {
            match &self.cached_oauth_token {
                Some(t) => {
                    let left: u128 = t.seconds_left(now);
                    oauth_token_valid = Some(t.is_valid(now));
                    oauth_expires_in_secs =
                    Some(
                        if left > u64::MAX as u128 {
                            u64::MAX
                        } else {
                            left as u64
                        },
                    );
                },
                None => {
                    oauth_token_valid = Some(false);
                },
            }
        }
        ConnectionState {
            connected: self.connected,
            last_error: copy_opt(&self.last_error),
            oauth_token_valid,
            oauth_expires_in_secs,
        }
    }

    /// Whether messages may be moved to a folder.
    pub fn check_target(&self, folder: &str) -> (r: Result<(), ClientError>)
        ensures
            match r {
                Ok(_) => allows(self@.allowed, folder@),
                Err(e) => !allows(self@.allowed, folder@) && e@ == plain_error(
                    not_allowed_text("Target folder"@, folder@),
                ),
            },
    {
        if self.is_folder_allowed(folder) {
            Ok(())
        } else {
            Err(ClientError::new(not_allowed("Target folder", folder)))
        }
    }

    /// Whether drafts may be kept in a folder.
    pub fn check_drafts(&self, folder: &str) -> (r: Result<(), ClientError>)
        ensures
            match r {
                Ok(_) => allows(self@.allowed, folder@),
                Err(e) => !allows(self@.allowed, folder@) && e@ == plain_error(
                    not_allowed_text("Drafts folder"@, folder@),
                ),
            },
    {
        if self.is_folder_allowed(folder) {
            Ok(())
        } else {
            Err(ClientError::new(not_allowed("Drafts folder", folder)))
        }
    }
}

// ---------------------------------------------------------------------------
// Laws
// ---------------------------------------------------------------------------

/// Whatever was selected may be used by the account, and nothing is selected
/// without a connection.
pub proof fn selections_are_allowed(c: ClientView)
    requires
        sound(c),
    ensures
        c.selected matches Some(f) ==> c.connected && allows(c.allowed, f),
        !c.connected ==> c.selected is None && c.names is None,
{
}

/// An error changes what a client knows only where it means that the connection is
/// lost: then nothing that belonged to the connection is kept, the error is kept in
/// mind, and what belongs to the account stays.
pub proof fn lost_connections_are_forgotten(c: ClientView, error: Seq<char>)
    ensures
        !connection_error(error) ==> after_error(c, error) == c,
        connection_error(error) ==> {
            let next = after_error(c, error);
            &&& !next.connected && next.selected is None && next.exists == 0 && next.names is None
            &&& next.last_error == Some(log_text(error))
            &&& next.allowed == c.allowed && next.validity == c.validity
            &&& next.access == c.access && next.refresh == c.refresh
        },
{
}

/// A new connection begins with nothing selected and nothing listed, and without
/// the last error; forgetting the selection keeps the connection.
pub proof fn connections_begin_afresh(c: ClientView)
    ensures
        ({
            let next = fresh(c);
            &&& next.connected && next.selected is None && next.names is None
            &&& next.last_error is None
            &&& next.allowed == c.allowed && next.validity == c.validity
            &&& next.access == c.access && next.refresh == c.refresh
        }),
        ({
            let next = unselected(c);
            &&& next.selected is None && next.exists == 0
            &&& next.connected == c.connected && next.names == c.names
            &&& next.access == c.access && next.refresh == c.refresh
            &&& next.last_error == c.last_error
        }),
{
}

/// A refresh that was refused because the grant is gone is told apart from every
/// other failure, and each failure is told with what the service said; where
/// something can be done about it, that comes first.
pub proof fn failed_refreshes_tell_the_reason(e: RefreshError, account: Seq<char>)
    ensures
        grant_is_gone(e) <==> (e matches RefreshError::Refused(o) && (o.code matches Some(c) && c@
            == "invalid_grant"@)),
        e matches RefreshError::Other(t) ==> with_remedy(e, account) == plain_error(t@),
        e matches RefreshError::Refused(o) ==> with_remedy(e, account) == match o.remedy_text(
            account,
        ) {
            Some(remedy) => caused_by(remedy, plain_error(o.shown())),
            None => plain_error(o.shown()),
        },
{
}

/// The stored refresh token of an account is the one that is stored under the key
/// of its own grant.
pub proof fn accounts_have_their_own_tokens(table: TokenTable, config: AccountConfig, i: int)
    requires
        table.wf(),
    ensures
        0 <= i < table.entries@.len() && table.entries@[i].0@ == grant_key(config) ==> stored_token(
            table,
            config,
        ) == Some(table.entries@[i].1.refresh_token@),
        (forall|j: int|
            0 <= j < table.entries@.len() ==> (#[trigger] table.entries@[j]).0@ != grant_key(config))
            ==> stored_token(table, config) is None,
{
    stores_give_their_entries(table, grant_key(config), i);
}

/// A refresh token is tried at most twice, and never the same one.
pub proof fn second_tokens_are_new(stored: Option<Seq<char>>, tried: Seq<char>)
    ensures
        second_token(stored, tried) != Some(tried),
        second_token(stored, tried) matches Some(t) ==> stored == Some(t) && t.len() > 0,
{
}

proof fn lemma_separators_go(s: Seq<char>, i: int)
    requires
        0 <= i <= s.len(),
    ensures
        !replaced_from(s, "\u{1}"@, Seq::empty(), i).contains('\u{1}'),
    decreases s.len() - i,
{
    reveal_strlit("\u{1}");
    let mark = "\u{1}"@;
    let out = replaced_from(s, mark, Seq::empty(), i);
    if i < s.len() {
        lemma_separators_go(s, i + 1);
        let rest = replaced_from(s, mark, Seq::empty(), i + 1);
        assert(s.subrange(i, i + 1) =~= seq![s[i]]);
        if s[i] == '\u{1}' {
            assert(s.subrange(i, i + 1) =~= mark);
            assert(occurs_at(s, mark, i));
            assert(out =~= rest);
        } else {
            assert(!occurs_at(s, mark, i)) by {
                assert(mark[0] == '\u{1}');
            }
            assert(out =~= seq![s[i]] + rest);
            if out.contains('\u{1}') {
                let k = choose|k: int| 0 <= k < out.len() && out[k] == '\u{1}';
                if k > 0 {
                    assert(rest[k - 1] == '\u{1}');
                }
            }
        }
    }
}

/// Neither the user nor the token in the answer to a challenge can hold the
/// character that separates them.
pub proof fn answers_keep_their_fields(s: Seq<char>)
    ensures
        !replaced(s, "\u{1}"@, Seq::empty()).contains('\u{1}'),
{
    lemma_separators_go(s, 0);
}

proof fn lemma_nothing_to_separate(s: Seq<char>, i: int)
    requires
        0 <= i <= s.len(),
        !s.contains('\u{1}'),
    ensures
        replaced_from(s, "\u{1}"@, Seq::empty(), i) == s.skip(i),
    decreases s.len() - i,
{
    reveal_strlit("\u{1}");
    let mark = "\u{1}"@;
    if i < s.len() {
        lemma_nothing_to_separate(s, i + 1);
        assert(!occurs_at(s, mark, i)) by {
            if occurs_at(s, mark, i) {
                assert(s.subrange(i, i + 1)[0] == mark[0]);
                assert(s[i] == '\u{1}');
            }
        }
        assert(seq![s[i]] + s.skip(i + 1) =~= s.skip(i));
    } else {
        assert(s.skip(i) =~= Seq::<char>::empty());
    }
}

/// A server reads the answer to its challenge as it was meant: the user, then the
/// token, and nothing behind them.
pub proof fn challenge_answers_read_back(user: Seq<char>, token: Seq<char>)
    requires
        !user.contains('\u{1}'),
        !token.contains('\u{1}'),
    ensures
        split(xoauth2(user, token), '\u{1}') == seq!["user="@ + user].push(
            "auth=Bearer "@ + token,
        ).push(Seq::empty()).push(Seq::empty()),
{
    lemma_nothing_to_separate(user, 0);
    lemma_nothing_to_separate(token, 0);
    assert(user.skip(0) =~= user);
    assert(token.skip(0) =~= token);
    reveal_strlit("user=");
    reveal_strlit("auth=Bearer ");
    reveal_strlit("\u{1}auth=Bearer ");
    reveal_strlit("\u{1}\u{1}");
    let c = '\u{1}';
    let none = Seq::<char>::empty();
    let a = "user="@ + user;
    let b = "auth=Bearer "@ + token;
    let x = a + seq![c] + b;
    let y = x + seq![c] + none;
    let z = y + seq![c] + none;
    assert("\u{1}auth=Bearer "@ =~= seq![c] + "auth=Bearer "@);
    assert("\u{1}\u{1}"@ =~= seq![c] + seq![c]);
    assert(xoauth2(user, token) =~= z);
    assert forall|i: int| 0 <= i < a.len() implies #[trigger] a[i] != c by {
        if i >= 5 {
            assert(a[i] == user[i - 5]);
        }
    }
    assert forall|i: int| 0 <= i < b.len() implies #[trigger] b[i] != c by {
        if i >= 12 {
            assert(b[i] == token[i - 12]);
        }
    }
    lemma_next_char(a, c, 0);
    if next_char(a, c, 0) < a.len() {
        assert(a[next_char(a, c, 0)] != c);
    }
    assert(a.subrange(0, a.len() as int) =~= a);
    assert(split(a, c) =~= seq![a]);
    lemma_split_behind(a, b, c, 0);
    lemma_split_behind(x, none, c, 0);
    lemma_split_behind(y, none, c, 0);
}

} // verus!
