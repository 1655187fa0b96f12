use imap_mcp_rs::config::{AccountConfig, AuthMethod, OAuth2Config, OAuth2Provider};
use imap_mcp_rs::oauth2::{urlencoded, ErrorBody};
use imap_mcp_rs::reauth::{
    answer_redirect, config_path_argument, exchange_outcome, exchange_request, find_authorization,
    head_progress, hex_nibble, http_page, lossy_text, percent_decode, request_query,
    CodeExchangeResponse, HeadProgress, MAX_REQUEST_BYTES,
};

fn oauth2(client_id: Option<&str>) -> OAuth2Config {
    OAuth2Config {
        provider: OAuth2Provider::Gmail,
        client_id: client_id.map(str::to_string),
        client_secret: Some("s&".to_string()),
        refresh_token: None,
        tenant: None,
        token_url: None,
    }
}

fn account(name: &str, method: AuthMethod, oauth2: Option<OAuth2Config>) -> AccountConfig {
    AccountConfig {
        name: name.to_string(),
        host: "h".to_string(),
        port: 993,
        username: "u@h".to_string(),
        email: None,
        display_name: None,
        signature_html: None,
        signature_text: None,
        locale: None,
        read_only: false,
        allow_delete: true,
        allow_move: true,
        accept_invalid_certs: false,
        allow_unsafe_expunge: false,
        allowed_folders: None,
        auth_method: method,
        password: None,
        oauth2,
    }
}

fn args(l: &[&str]) -> Vec<String> {
    l.iter().map(|s| s.to_string()).collect()
}

#[test]
fn the_settings_path_follows_its_flag() {
    assert_eq!(
        config_path_argument(&args(&["prog", "--config", "a", "--config", "b"])).as_deref(),
        Some("a")
    );
    assert_eq!(config_path_argument(&args(&["prog", "--config"])), None);
    assert_eq!(config_path_argument(&args(&["prog"])), None);
}

#[test]
fn only_authorized_accounts_are_authorized_anew() {
    let accounts = vec![
        account("P", AuthMethod::Password, None),
        account("Q", AuthMethod::OAuth2, None),
        account("R", AuthMethod::OAuth2, Some(oauth2(None))),
        account("S", AuthMethod::OAuth2, Some(oauth2(Some("cid")))),
    ];
    assert_eq!(
        find_authorization(&accounts, "s"),
        Ok((3, "cid".to_string()))
    );
    assert!(find_authorization(&accounts, "p")
        .unwrap_err()
        .contains("uses password auth"));
    assert_eq!(
        find_authorization(&accounts, "q").unwrap_err(),
        "Account has no [accounts.oauth2] section"
    );
    assert_eq!(
        find_authorization(&accounts, "r").unwrap_err(),
        "OAuth2 client_id not configured"
    );
    assert!(find_authorization(&accounts, "x")
        .unwrap_err()
        .starts_with("No account named \"x\""));
}

#[test]
fn codes_are_exchanged_with_their_verifier() {
    let form = exchange_request(&oauth2(Some("cid")), "cid", "c/d", "http://127.0.0.1:1/", "v");
    assert!(form.contains("grant_type=authorization_code"), "{form}");
    assert!(form.contains("code=c%2Fd"), "{form}");
    assert!(form.contains("code_verifier=v"), "{form}");
    assert!(form.contains("client_secret=s%26"), "{form}");
}

#[test]
fn exchanges_give_a_token_or_the_reason() {
    let answer = |token: Option<&str>| {
        Some(CodeExchangeResponse {
            refresh_token: token.map(str::to_string),
        })
    };
    assert_eq!(
        exchange_outcome(200, None, answer(Some("r")), "A"),
        Ok("r".to_string())
    );
    assert!(exchange_outcome(200, None, answer(None), "A")
        .unwrap_err()
        .starts_with("Token response contained no refresh_token"));
    assert_eq!(
        exchange_outcome(299, None, None, "A").unwrap_err(),
        "Failed to parse token response (body omitted from output)"
    );
    let refusal = Some(ErrorBody {
        error: Some("invalid_grant".to_string()),
        error_description: None,
    });
    assert_eq!(
        exchange_outcome(400, refusal, answer(Some("r")), "A").unwrap_err(),
        "Code exchange rejected: OAuth2 token endpoint returned HTTP 400 (invalid_grant)\n\n  → run `imap-mcp-rs reauth A` to re-authorize"
    );
    assert_eq!(
        exchange_outcome(503, None, None, "A").unwrap_err(),
        "Code exchange rejected: OAuth2 token endpoint returned HTTP 503"
    );
}

#[test]
fn decoding_gives_back_what_was_encoded() {
    for s in ["", "plain", "a b&c=d%25", "Grüße\u{1F600}", "\u{1}\u{7f}~"] {
        assert_eq!(percent_decode(&urlencoded(s)), s);
    }
    assert_eq!(hex_nibble(b'F'), Some(15));
    assert_eq!(hex_nibble(b'g'), None);
    assert_eq!(lossy_text(&[0x61, 0xff]), "a\u{FFFD}");
}

#[test]
fn heads_are_found_across_reads() {
    let whole = b"GET / HTTP/1.1\r\n\r\n".to_vec();
    for split in 0..whole.len() {
        let first = whole[..split].to_vec();
        assert_eq!(head_progress(&first, split), HeadProgress::Partial);
        assert_eq!(
            head_progress(&whole, whole.len() - split),
            HeadProgress::Complete
        );
    }
    assert_eq!(
        head_progress(&vec![b'a'; MAX_REQUEST_BYTES + 1], 1),
        HeadProgress::TooLarge
    );
    assert_eq!(
        head_progress(&vec![b'a'; MAX_REQUEST_BYTES], 1),
        HeadProgress::Partial
    );
}

#[test]
fn pages_count_their_bytes() {
    let page = http_page("200 OK", "ü");
    let (head, body) = page.split_once("\r\n\r\n").unwrap();
    assert!(head.starts_with("HTTP/1.1 200 OK\r\n"), "{head}");
    assert!(
        head.contains(&format!("Content-Length: {}", body.len())),
        "{head}"
    );
    assert!(body.contains("<p>ü</p>"));
}

#[test]
fn refused_redirects_are_told() {
    let q = request_query("GET /?error=access_denied&state=s HTTP/1.1\r\n\r\n");
    let a = answer_redirect(&q, "s");
    assert!(matches!(a.verdict, Some(Err(ref t)) if t.contains("access_denied")));
    let a = answer_redirect(&None, "s");
    assert!(a.verdict.is_none());
}
