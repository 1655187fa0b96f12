use imap_mcp_rs::config::{AccountConfig, AuthMethod, OAuth2Config, OAuth2Provider};
use imap_mcp_rs::token_state::{
    account_key, is_abandoned, load, state_file_path, store, StoredToken, TokenTable,
};

fn test_account() -> AccountConfig {
    AccountConfig {
        name: "T".to_string(),
        host: "h".to_string(),
        port: 993,
        username: "u@h".to_string(),
        email: None,
        display_name: None,
        signature_html: None,
        signature_text: None,
        locale: None,
        read_only: false,
        allow_delete: true,
        allow_move: true,
        accept_invalid_certs: false,
        allow_unsafe_expunge: false,
        allowed_folders: None,
        auth_method: AuthMethod::Password,
        password: None,
        oauth2: None,
    }
}

#[test]
fn store_then_load_roundtrip() {
    let mut table = TokenTable::empty();
    store(&mut table, "k1", "rt-1", 1_800_000_000);
    let got = load(&table, "k1").unwrap();
    assert_eq!(got.refresh_token, "rt-1");
    assert!(got.updated_at_unix > 1_700_000_000, "timestamp looks unset");
    assert!(load(&table, "other-key").is_none());
}

#[test]
fn store_merges_without_dropping_other_accounts() {
    let mut table = TokenTable::empty();
    store(&mut table, "account-a", "rt-a", 1);
    store(&mut table, "account-b", "rt-b", 2);
    assert_eq!(load(&table, "account-a").unwrap().refresh_token, "rt-a");
    assert_eq!(load(&table, "account-b").unwrap().refresh_token, "rt-b");
}

#[test]
fn store_overwrites_existing_key() {
    let mut table = TokenTable::empty();
    store(&mut table, "k", "rt-old", 1);
    store(&mut table, "k", "rt-new", 2);
    assert_eq!(load(&table, "k").unwrap().refresh_token, "rt-new");
    assert_eq!(table.entries.len(), 1);
}

#[test]
fn load_from_missing_file_is_none() {
    assert!(load(&TokenTable::empty(), "k").is_none());
}

#[test]
fn store_sweeps_abandoned_temp_files() {
    assert!(is_abandoned("tokens.toml.tmp-999999"));
    assert!(!is_abandoned("tokens.toml"));
}

#[test]
fn account_key_is_lowercased_identity_with_client_id() {
    let mut cfg = test_account();
    cfg.username = "User@Example.COM".into();
    cfg.host = "Outlook.Office365.com".into();
    assert_eq!(
        account_key(&cfg),
        "user@example.com|outlook.office365.com|-"
    );
    cfg.oauth2 = Some(OAuth2Config {
        provider: OAuth2Provider::Outlook365,
        client_id: Some("CID-123".to_string()),
        client_secret: None,
        refresh_token: None,
        tenant: None,
        token_url: None,
    });
    assert_eq!(
        account_key(&cfg),
        "user@example.com|outlook.office365.com|cid-123"
    );
}

#[test]
fn tables_keep_the_last_of_several_entries() {
    let entry = |key: &str, token: &str, at: u64| {
        (
            key.to_string(),
            StoredToken {
                refresh_token: token.to_string(),
                updated_at_unix: at,
            },
        )
    };
    let table = TokenTable::from_entries(vec![
        entry("b", "rt-b", 1),
        entry("a", "rt-a", 2),
        entry("b", "rt-b2", 3),
    ]);
    assert_eq!(table.entries.len(), 2);
    assert_eq!(table.entries[0].0, "a");
    assert_eq!(load(&table, "b").unwrap().refresh_token, "rt-b2");
    assert_eq!(load(&table, "b").unwrap().updated_at_unix, 3);
}

#[test]
fn the_state_directory_comes_before_the_data_directory() {
    assert_eq!(
        state_file_path(Some("/state"), Some("/data")).unwrap(),
        "/state/imap-mcp-rs/tokens.toml"
    );
    assert_eq!(
        state_file_path(None, Some("/data")).unwrap(),
        "/data/imap-mcp-rs/tokens.toml"
    );
    assert!(state_file_path(None, None).is_err());
}

#[test]
fn applications_on_one_mailbox_keep_their_own_tokens() {
    let first = test_account();
    let mut second = test_account();
    second.oauth2 = Some(OAuth2Config {
        provider: OAuth2Provider::Outlook365,
        client_id: Some("cid-2".to_string()),
        client_secret: None,
        refresh_token: None,
        token_url: None,
        tenant: None,
    });
    let (a, b) = (account_key(&first), account_key(&second));
    assert_ne!(a, b);
    let mut table = TokenTable::empty();
    store(&mut table, &a, "rt-a", 1_800_000_000);
    store(&mut table, &b, "rt-b", 1_800_000_001);
    assert_eq!(load(&table, &a).unwrap().refresh_token, "rt-a");
    assert_eq!(load(&table, &b).unwrap().refresh_token, "rt-b");
}
