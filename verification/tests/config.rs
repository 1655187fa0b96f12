use imap_mcp_rs::config::{
    account_lookup_name, config_candidates, default_attachment_dir, find_account, join_path,
    no_client_text, validate_config, AccountConfig, AuthMethod, OAuth2Config, OAuth2Provider,
    ServerConfig,
};

fn account(name: &str) -> AccountConfig {
    AccountConfig {
        name: name.to_string(),
        host: "mail.example.org".to_string(),
        port: 993,
        username: "u@example.com".to_string(),
        email: None,
        display_name: None,
        signature_html: None,
        signature_text: None,
        locale: None,
        read_only: false,
        allow_delete: true,
        allow_move: true,
        accept_invalid_certs: false,
        allow_unsafe_expunge: false,
        allowed_folders: None,
        auth_method: AuthMethod::Password,
        password: Some("p".to_string()),
        oauth2: None,
    }
}

fn server(accounts: Vec<AccountConfig>) -> ServerConfig {
    ServerConfig {
        accounts,
        allowed_attachment_dirs: vec!["/tmp/x".to_string()],
    }
}

fn oauth2(provider: OAuth2Provider, tenant: Option<&str>, url: Option<&str>) -> OAuth2Config {
    OAuth2Config {
        provider,
        client_id: None,
        client_secret: None,
        refresh_token: None,
        tenant: tenant.map(str::to_string),
        token_url: url.map(str::to_string),
    }
}

#[test]
fn sound_settings_are_accepted() {
    assert!(validate_config(&server(vec![account("A"), account("B")])).is_ok());
}

#[test]
fn settings_need_an_account() {
    assert_eq!(
        validate_config(&server(vec![])).unwrap_err(),
        "Config must contain at least one [[accounts]] entry"
    );
}

#[test]
fn names_differ_whatever_their_case() {
    let err = validate_config(&server(vec![account("Work"), account("Ä"), account("ä")]));
    assert_eq!(err.unwrap_err(), "Duplicate account name: \"ä\"");
}

#[test]
fn login_names_that_are_no_address_need_one() {
    let mut a = account("A");
    a.username = "alice".to_string();
    let err = validate_config(&server(vec![a])).unwrap_err();
    assert_eq!(
        err,
        "Account \"A\" needs an `email` field — username \"alice\" is not an email address and drafts require a valid From header"
    );
    let mut a = account("A");
    a.username = "alice".to_string();
    a.email = Some("alice@example.com".to_string());
    assert!(validate_config(&server(vec![a])).is_ok());
}

#[test]
fn empty_lists_are_refused() {
    let mut a = account("A");
    a.allowed_folders = Some(vec![]);
    let err = validate_config(&server(vec![a])).unwrap_err();
    assert!(err.starts_with("Account \"A\" has an empty `allowed_folders` list"));
    let mut c = server(vec![account("A")]);
    c.allowed_attachment_dirs.clear();
    let err = validate_config(&c).unwrap_err();
    assert!(err.starts_with("`allowed_attachment_dirs = []` is invalid"));
}

#[test]
fn the_first_check_that_fails_is_told() {
    let mut a = account("A");
    a.allowed_folders = Some(vec![]);
    let mut b = account("B");
    b.username = "bob".to_string();
    let err = validate_config(&server(vec![a, b])).unwrap_err();
    assert!(err.starts_with("Account \"B\" needs an `email` field"));
}

#[test]
fn accounts_are_looked_up_whatever_their_case() {
    let accounts = vec![account("Work"), account("Home")];
    assert_eq!(find_account(&accounts, Some("HOME")), Ok(1));
    assert_eq!(find_account(&accounts, None), Ok(0));
    assert_eq!(
        find_account(&accounts, Some("Shop")).unwrap_err(),
        "Account \"shop\" not found"
    );
    assert_eq!(account_lookup_name(&accounts, None), "work");
    assert_eq!(no_client_text("work"), "No client for account \"work\"");
}

#[test]
fn senders_fall_back_on_the_login_name() {
    let mut a = account("A");
    assert_eq!(a.sender_address(), "u@example.com");
    assert_eq!(a.message_id_domain(), "example.com");
    a.email = Some("x@y@z.org".to_string());
    assert_eq!(a.sender_address(), "x@y@z.org");
    assert_eq!(a.message_id_domain(), "z.org");
    a.email = Some("odd@".to_string());
    assert_eq!(a.message_id_domain(), "mail.example.org");
}

#[test]
fn token_services_follow_the_provider() {
    assert_eq!(
        oauth2(OAuth2Provider::Gmail, None, None).token_url(),
        Ok("https://oauth2.googleapis.com/token".to_string())
    );
    assert_eq!(
        oauth2(OAuth2Provider::Outlook365, Some("t1"), None).token_url(),
        Ok("https://login.microsoftonline.com/t1/oauth2/v2.0/token".to_string())
    );
    assert_eq!(
        oauth2(OAuth2Provider::Outlook365, None, None).token_url(),
        Ok("https://login.microsoftonline.com/common/oauth2/v2.0/token".to_string())
    );
    assert_eq!(
        oauth2(OAuth2Provider::Custom, None, Some("https://t.example/x")).token_url(),
        Ok("https://t.example/x".to_string())
    );
    assert_eq!(
        oauth2(OAuth2Provider::Custom, None, None).token_url(),
        Err("token_url required for custom OAuth2 provider".to_string())
    );
}

#[test]
fn attachments_prefer_the_private_directory() {
    assert_eq!(
        default_attachment_dir(Some("/run/user/1"), Some("/c"), Some("u")),
        "/run/user/1/imap-mcp-rs"
    );
    assert_eq!(
        default_attachment_dir(None, Some("/home/u/.cache/"), Some("u")),
        "/home/u/.cache/imap-mcp-rs"
    );
    assert_eq!(
        default_attachment_dir(None, None, Some("u")),
        "/tmp/imap-mcp-rs-u"
    );
    assert_eq!(
        default_attachment_dir(None, None, None),
        "/tmp/imap-mcp-rs-default"
    );
}

#[test]
fn settings_are_never_taken_from_the_working_directory() {
    assert_eq!(
        config_candidates(Some("/home/u/.config")),
        [
            "/home/u/.config/imap-mcp-rs/config.toml",
            "/etc/imap-mcp-rs/config.toml"
        ]
    );
    assert_eq!(config_candidates(None), ["/etc/imap-mcp-rs/config.toml"]);
    assert_eq!(join_path("", "x"), "x");
}
