use imap_mcp_rs::config::{AccountConfig, AuthMethod, OAuth2Config, OAuth2Provider};
use imap_mcp_rs::imap_client::session::{
    xoauth2_answer, ClientError, ImapClient, LoginPlan, RefreshStep, SelectPlan,
};
use imap_mcp_rs::oauth2::{AccessToken, OAuth2Error, RefreshError, RefreshOutcome};
use imap_mcp_rs::token_state::{account_key, store, TokenTable};

fn account(oauth2: Option<OAuth2Config>, allowed: Option<Vec<&str>>) -> AccountConfig {
    AccountConfig {
        name: "Office".to_string(),
        host: "imap.example.com".to_string(),
        port: 993,
        username: "u@example.com".to_string(),
        email: None,
        display_name: None,
        signature_html: None,
        signature_text: None,
        locale: None,
        read_only: false,
        allow_delete: true,
        allow_move: true,
        accept_invalid_certs: false,
        allow_unsafe_expunge: false,
        allowed_folders: allowed.map(|l| l.into_iter().map(str::to_string).collect()),
        auth_method: if oauth2.is_some() {
            AuthMethod::OAuth2
        } else {
            AuthMethod::Password
        },
        password: Some("secret".to_string()),
        oauth2,
    }
}

fn oauth2(refresh_token: Option<&str>) -> OAuth2Config {
    OAuth2Config {
        provider: OAuth2Provider::Gmail,
        client_id: Some("cid".to_string()),
        client_secret: None,
        refresh_token: refresh_token.map(str::to_string),
        tenant: None,
        token_url: None,
    }
}

fn refused(code: &str) -> RefreshError {
    RefreshError::Refused(OAuth2Error {
        http_status: 400,
        code: Some(code.to_string()),
        description: Some("gone".to_string()),
    })
}

fn error(text: &str) -> ClientError {
    ClientError::new(text.to_string())
}

#[test]
fn contexts_come_before_their_causes() {
    let e = error("inner").context("outer".to_string());
    assert_eq!(e.text, "outer");
    assert_eq!(e.chain, "outer: inner");
}

#[test]
fn blank_refresh_tokens_count_as_none() {
    let c = ImapClient::new(account(Some(oauth2(Some(""))), None));
    assert_eq!(c.active_refresh_token, None);
    let c = ImapClient::new(account(Some(oauth2(Some("rt"))), None));
    assert_eq!(c.active_refresh_token.as_deref(), Some("rt"));
}

#[test]
fn stored_tokens_win_over_the_settings() {
    let config = account(Some(oauth2(Some("from-config"))), None);
    let mut table = TokenTable::empty();
    store(&mut table, &account_key(&config), "stored", 1);
    let mut c = ImapClient::new(config);
    c.adopt_stored_token(&table);
    assert_eq!(c.active_refresh_token.as_deref(), Some("stored"));

    let mut password = ImapClient::new(account(None, None));
    password.adopt_stored_token(&table);
    assert_eq!(password.active_refresh_token, None);
}

#[test]
fn only_allowed_folders_are_selected() {
    let mut c = ImapClient::new(account(None, Some(vec!["INBOX", "Archive"])));
    c.mark_connected();
    assert!(matches!(c.select_plan("inbox"), SelectPlan::Select));
    match c.select_plan("Secret") {
        SelectPlan::Refused(text) => assert_eq!(
            text,
            "Folder \"Secret\" is not in allowed_folders for this account"
        ),
        other => panic!("{other:?}"),
    }
    assert_eq!(c.note_selected("INBOX", 7, Some(5)), None);
    assert!(matches!(c.select_plan("INBOX"), SelectPlan::Selected(7)));
}

#[test]
fn changed_uid_epochs_are_told() {
    let mut c = ImapClient::new(account(None, None));
    c.mark_connected();
    assert_eq!(c.note_selected("INBOX", 1, Some(5)), None);
    c.forget_selection();
    assert_eq!(c.note_selected("inbox", 1, Some(6)), Some((5, 6)));
    assert_eq!(c.note_selected("Sent", 1, Some(9)), None);
}

#[test]
fn lost_connections_are_forgotten_with_what_hung_on_them() {
    let mut c = ImapClient::new(account(None, None));
    c.mark_connected();
    c.note_selected("INBOX", 3, None);
    assert_eq!(
        c.note_folders(&vec!["INBOX".to_string(), "a\u{202E}b".to_string()]),
        ["INBOX"]
    );
    assert_eq!(c.known_folders(), Some(vec!["INBOX".to_string()]));

    let e = c.check_error(error("folder not found"));
    assert_eq!(e.text, "folder not found");
    assert!(c.connected);

    c.check_error(error("Broken pipe"));
    assert!(!c.connected);
    assert_eq!(c.selected_folder, None);
    assert_eq!(c.known_folders(), None);
    assert_eq!(c.last_error.as_deref(), Some("Broken pipe"));
}

#[test]
fn failed_selections_leave_nothing_selected() {
    let mut c = ImapClient::new(account(None, None));
    c.mark_connected();
    c.note_selected("INBOX", 3, None);
    c.note_select_failure(error("no such folder"));
    assert_eq!(c.selected_folder, None);
    assert!(c.connected);
    assert_eq!(c.last_error, None);
}

#[test]
fn only_lost_connections_are_retried() {
    let mut c = ImapClient::new(account(None, None));
    c.mark_connected();
    assert!(!c.wants_retry(&error("permission denied")));
    assert!(c.connected);
    assert!(c.wants_retry(&error("connection reset by peer")));
    assert!(!c.connected);
}

#[test]
fn reconnecting_clears_the_last_error() {
    let mut c = ImapClient::new(account(None, None));
    let e = c.note_reconnect_timeout();
    assert_eq!(e.text, "IMAP reconnect timed out");
    assert_eq!(c.last_error.as_deref(), Some("IMAP reconnect timed out"));
    c.note_connect_failure(&error("inner").context("outer".to_string()));
    assert_eq!(c.last_error.as_deref(), Some("outer: inner"));
    c.mark_connected();
    assert_eq!(c.last_error, None);
}

#[test]
fn logins_use_what_is_at_hand() {
    let c = ImapClient::new(account(None, None));
    match c.login_plan(0).unwrap() {
        LoginPlan::Password { username, password } => {
            assert_eq!(username, "u@example.com");
            assert_eq!(password, "secret");
        }
        other => panic!("{other:?}"),
    }
    let mut without = account(None, None);
    without.password = None;
    assert_eq!(
        ImapClient::new(without).login_plan(0).unwrap_err().text,
        "Password required but not configured"
    );

    let mut c = ImapClient::new(account(Some(oauth2(Some("rt"))), None));
    assert!(matches!(c.login_plan(0).unwrap(), LoginPlan::Refresh(t) if t == "rt"));
    c.note_refreshed(RefreshOutcome {
        access: AccessToken {
            token: "at".to_string(),
            expires_at: 100_000_000_000,
        },
        rotated_refresh_token: None,
    });
    assert!(matches!(c.login_plan(0).unwrap(), LoginPlan::Token(t) if t == "at"));
    assert!(matches!(
        c.login_plan(90_000_000_000).unwrap(),
        LoginPlan::Refresh(_)
    ));
    c.forget_access_token();
    assert!(matches!(c.login_plan(0).unwrap(), LoginPlan::Refresh(_)));

    let c = ImapClient::new(account(Some(oauth2(None)), None));
    assert_eq!(
        c.login_plan(0).unwrap_err().text,
        "no OAuth2 refresh token for this account — run `imap-mcp-rs reauth Office`"
    );
    let mut lost = account(Some(oauth2(None)), None);
    lost.oauth2 = None;
    assert_eq!(
        ImapClient::new(lost).login_plan(0).unwrap_err().text,
        "OAuth2 config required"
    );
}

#[test]
fn rotated_tokens_are_kept_and_handed_out_for_storage() {
    let mut c = ImapClient::new(account(Some(oauth2(Some("rt"))), None));
    let stored = c.note_refreshed(RefreshOutcome {
        access: AccessToken {
            token: "at".to_string(),
            expires_at: 1,
        },
        rotated_refresh_token: Some("rt-2".to_string()),
    });
    assert_eq!(
        stored,
        Some((
            "u@example.com|imap.example.com|cid".to_string(),
            "rt-2".to_string()
        ))
    );
    assert_eq!(c.active_refresh_token.as_deref(), Some("rt-2"));
}

#[test]
fn a_dead_grant_tries_the_stored_token_once() {
    let config = account(Some(oauth2(Some("rt"))), None);
    let mut table = TokenTable::empty();
    store(&mut table, &account_key(&config), "newer", 1);
    let mut c = ImapClient::new(config);
    let e = refused("invalid_grant");
    match c.refresh_refused("rt", &e, &table) {
        RefreshStep::Retry(t) => c.adopt_second_token(t),
        other => panic!("{other:?}"),
    }
    assert_eq!(c.active_refresh_token.as_deref(), Some("newer"));
    match c.refresh_refused("newer", &e, &table) {
        RefreshStep::Fail(f) => {
            assert_eq!(
                f.text,
                "refresh token rejected (invalid_grant) — run `imap-mcp-rs reauth Office` to re-authorize"
            );
            assert!(f.chain.ends_with(
                ": OAuth2 token endpoint returned HTTP 400 (invalid_grant): gone"
            ));
            assert_eq!(c.grant_lost(&e).chain, f.chain);
        }
        other => panic!("{other:?}"),
    }
}

#[test]
fn other_refusals_come_with_their_remedy() {
    let c = ImapClient::new(account(Some(oauth2(Some("rt"))), None));
    let table = TokenTable::empty();
    match c.refresh_refused("rt", &refused("invalid_client"), &table) {
        RefreshStep::Fail(f) => assert!(f.text.contains("client_secret"), "{}", f.text),
        other => panic!("{other:?}"),
    }
    match c.refresh_refused("rt", &RefreshError::Other("no route".to_string()), &table) {
        RefreshStep::Fail(f) => assert_eq!(f.text, "no route"),
        other => panic!("{other:?}"),
    }
}

#[test]
fn health_tells_of_tokens_only_where_there_are_any() {
    let c = ImapClient::new(account(None, None));
    let s = c.connection_state(0);
    assert!(!s.connected);
    assert_eq!(s.oauth_token_valid, None);
    assert_eq!(s.oauth_expires_in_secs, None);

    let mut c = ImapClient::new(account(Some(oauth2(Some("rt"))), None));
    assert_eq!(c.connection_state(0).oauth_token_valid, Some(false));
    c.note_refreshed(RefreshOutcome {
        access: AccessToken {
            token: "at".to_string(),
            expires_at: 3_600_000_000_000,
        },
        rotated_refresh_token: None,
    });
    let s = c.connection_state(0);
    assert_eq!(s.oauth_token_valid, Some(true));
    assert_eq!(s.oauth_expires_in_secs, Some(3600));
    let s = c.connection_state(3_550_000_000_000);
    assert_eq!(s.oauth_token_valid, Some(false));
    assert_eq!(s.oauth_expires_in_secs, Some(50));
    let s = c.connection_state(4_000_000_000_000);
    assert_eq!(s.oauth_expires_in_secs, Some(0));
}

#[test]
fn challenge_answers_keep_their_separators() {
    assert_eq!(
        xoauth2_answer("u\u{1}ser", "tok\u{1}en"),
        "user=user\u{1}auth=Bearer token\u{1}\u{1}"
    );
}

#[test]
fn targets_and_drafts_folders_must_be_allowed() {
    let c = ImapClient::new(account(None, Some(vec!["INBOX"])));
    assert!(c.check_target("inbox").is_ok());
    assert_eq!(
        c.check_target("Archive").unwrap_err().text,
        "Target folder \"Archive\" is not in allowed_folders for this account"
    );
    assert_eq!(
        c.check_drafts("Drafts").unwrap_err().text,
        "Drafts folder \"Drafts\" is not in allowed_folders for this account"
    );
}
