use imap_mcp_rs::config::{OAuth2Config, OAuth2Provider};
use imap_mcp_rs::reauth::{
    answer_redirect, asks_for_help, authorize_url, loopback_redirect_uri, parse_query,
    percent_decode, pkce_challenge, pkce_pair, request_query, validate_redirect, CliOptions,
    QueryParams, RedirectAnswer, RedirectError, DEFAULT_PORT,
};

fn oauth2(provider: &str) -> OAuth2Config {
    OAuth2Config {
        provider: match provider {
            "outlook365" => OAuth2Provider::Outlook365,
            "gmail" => OAuth2Provider::Gmail,
            _ => OAuth2Provider::Custom,
        },
        client_id: Some("cid".to_string()),
        client_secret: Some("sec".to_string()),
        refresh_token: None,
        tenant: Some("tid".to_string()),
        token_url: None,
    }
}

#[test]
fn authorize_url_outlook_requests_imap_scope() {
    let url = authorize_url(
        &oauth2("outlook365"),
        "cid",
        "http://localhost:8365",
        "st",
        "ch",
    )
    .unwrap();
    assert!(url.starts_with("https://login.microsoftonline.com/tid/oauth2/v2.0/authorize?"));
    assert!(url.contains("client_id=cid"));
    assert!(url.contains("redirect_uri=http%3A%2F%2Flocalhost%3A8365"));
    assert!(url.contains("IMAP.AccessAsUser.All%20offline_access"));
    assert!(url.contains("state=st"));
}

#[test]
fn authorize_url_gmail_requests_offline_consent() {
    let url =
        authorize_url(&oauth2("gmail"), "cid", "http://localhost:8365", "st", "ch").unwrap();
    assert!(url.starts_with("https://accounts.google.com/o/oauth2/v2/auth?"));
    assert!(url.contains("access_type=offline"));
    assert!(url.contains("prompt=consent"));
}

#[test]
fn authorize_url_carries_pkce_challenge_for_every_provider() {
    for provider in ["outlook365", "gmail"] {
        let url = authorize_url(
            &oauth2(provider),
            "cid",
            "http://localhost:8365",
            "st",
            "ch-42",
        )
        .unwrap();
        assert!(url.contains("code_challenge=ch-42"), "{provider}");
        assert!(url.contains("code_challenge_method=S256"), "{provider}");
    }
}

#[test]
fn pkce_pair_is_rfc7636_shaped_and_unpredictable() {
    let (verifier, challenge) = pkce_pair().unwrap();
    assert_eq!(verifier.len(), 43);
    assert_eq!(challenge.len(), 43);
    let unreserved = |s: &str| {
        s.chars()
            .all(|c| c.is_ascii_alphanumeric() || matches!(c, '-' | '.' | '_' | '~'))
    };
    assert!(unreserved(&verifier), "{verifier}");
    assert!(unreserved(&challenge), "{challenge}");
    assert_ne!(verifier, challenge);
    assert_ne!(pkce_pair().unwrap().0, verifier);
}

#[test]
fn pkce_challenge_matches_rfc7636_test_vector() {
    let verifier = "dBjftJeZ4CVP-mB92K27uhbUJU1p1r_wW1gFWFOEjXk";
    let challenge = pkce_challenge(verifier);
    assert_eq!(challenge, "E9Melhoa2OwvFrEMTJguCHaoeK1t8URWbuGJSstw-cM");
}

fn parse_args(args: &[&str]) -> Result<CliOptions, String> {
    CliOptions::parse(&args.iter().map(|s| (*s).to_string()).collect::<Vec<_>>())
}

#[test]
fn cli_options_parse_reads_account_and_flags() {
    let o = parse_args(&["Office", "--port", "9000", "--no-browser"]).unwrap();
    assert_eq!(o.account, "Office");
    assert_eq!(o.port, 9000);
    assert!(o.no_browser);
    assert!(o.config.is_none());
    assert_eq!(parse_args(&["Office"]).unwrap().port, DEFAULT_PORT);
}

#[test]
fn cli_options_parse_rejects_unusable_input() {
    for (args, expect) in [
        (vec![], "usage"),
        (vec!["A", "B"], "Only one account"),
        (vec!["Office", "--nope"], "Unknown flag"),
        (vec!["Office", "--port"], "usage"),
        (vec!["Office", "--port", "0"], "between 1 and 65535"),
        (vec!["Office", "--port", "99999"], "between 1 and 65535"),
        (vec!["Office", "--port", "abc"], "between 1 and 65535"),
        (vec!["Office", "--config"], "usage"),
    ] {
        let err = parse_args(&args).unwrap_err().to_string().to_lowercase();
        assert!(
            err.contains(&expect.to_lowercase()),
            "args {args:?} produced {err:?}, expected it to mention {expect:?}"
        );
    }
}

#[test]
fn loopback_redirect_uri_uses_ip_literal() {
    let uri = loopback_redirect_uri(8365);
    assert_eq!(uri, "http://127.0.0.1:8365");
    assert!(!uri.contains("localhost"));
}

#[test]
fn authorize_url_custom_is_rejected() {
    let err = authorize_url(
        &oauth2("custom"),
        "cid",
        "http://localhost:8365",
        "st",
        "ch",
    )
    .unwrap_err()
    .to_string();
    assert!(err.contains("custom"));
}

#[test]
fn percent_decode_basics() {
    assert_eq!(percent_decode("a%20b+c"), "a b c");
    assert_eq!(
        percent_decode("AADSTS50011%3A%20mismatch"),
        "AADSTS50011: mismatch"
    );
    assert_eq!(percent_decode("100%"), "100%");
    assert_eq!(percent_decode("%zz"), "%zz");
    assert_eq!(percent_decode("Gr%C3%BC%C3%9Fe"), "Grüße");
}

#[test]
fn percent_decode_multibyte_after_percent_does_not_panic() {
    assert_eq!(percent_decode("%aä"), "%aä");
    assert_eq!(percent_decode("%ä"), "%ä");
    assert_eq!(percent_decode("x%✓y"), "x%✓y");
}

#[test]
fn help_flag_succeeds_without_reading_any_config() {
    for flag in ["--help", "-h"] {
        let args = vec![flag.to_string(), "--config".into(), "/nonexistent".into()];
        assert!(asks_for_help(&args), "{flag}");
    }
    assert!(!asks_for_help(&["--nope".to_string()]));
    let err = CliOptions::parse(&["--nope".to_string()]).unwrap_err();
    assert!(err.contains("Unknown flag"), "{err}");
    assert!(err.contains("usage:"), "{err}");
}

fn answer(target: &str) -> RedirectAnswer {
    let head = format!("GET {target} HTTP/1.1\r\nHost: localhost\r\n\r\n");
    answer_redirect(&request_query(&head), "st")
}

#[test]
fn wait_for_code_extracts_code_from_redirect() {
    let a = answer("/?code=the-code&state=st");
    assert_eq!(a.verdict, Some(Ok("the-code".to_string())));
    assert_eq!(a.status, "200 OK");
}

#[test]
fn wait_for_code_ignores_unrelated_request() {
    let a = answer("/favicon.ico");
    assert_eq!(a.verdict, None);
    assert_eq!(a.status, "404 Not Found");
    let a = answer("/?code=c3&state=st");
    assert_eq!(a.verdict, Some(Ok("c3".to_string())));
}

#[test]
fn wait_for_code_aborts_on_state_mismatch() {
    let a = answer("/?code=c4&state=forged");
    let err = a.verdict.unwrap().unwrap_err();
    assert!(err.contains("state parameter mismatch"));
}

#[test]
fn parse_query_splits_pairs() {
    let q = parse_query("code=abc%2Fdef&state=xyz&empty");
    assert_eq!(q.get("code").unwrap(), "abc/def");
    assert_eq!(q.get("state").unwrap(), "xyz");
    assert!(!q.contains_key("empty"));
}

#[test]
fn validate_redirect_happy_path() {
    let mut p = QueryParams::new();
    p.insert("code".to_string(), "c1".to_string());
    p.insert("state".to_string(), "st".to_string());
    assert_eq!(validate_redirect(&p, "st").unwrap(), "c1");
}

#[test]
fn validate_redirect_state_mismatch() {
    let mut p = QueryParams::new();
    p.insert("code".to_string(), "c1".to_string());
    p.insert("state".to_string(), "WRONG".to_string());
    assert!(matches!(
        validate_redirect(&p, "st"),
        Err(RedirectError::StateMismatch)
    ));
}

#[test]
fn validate_redirect_provider_error_wins() {
    let mut p = QueryParams::new();
    p.insert("error".to_string(), "access_denied".to_string());
    assert!(matches!(
        validate_redirect(&p, "st"),
        Err(RedirectError::Provider { .. })
    ));
}

#[test]
fn validate_redirect_unrelated_query() {
    let p = QueryParams::new();
    assert!(matches!(
        validate_redirect(&p, "st"),
        Err(RedirectError::NotOAuth)
    ));
}
