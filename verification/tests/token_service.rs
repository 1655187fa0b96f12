use imap_mcp_rs::config::{OAuth2Config, OAuth2Provider};
use imap_mcp_rs::oauth2::{
    outcome_of, parse_error_body, post_request, refresh_outcome, refresh_request, split_response,
    urlencoded, AccessToken, ErrorBody, RefreshError, TokenResponse, UrlError, UrlParts,
};

fn config(client_id: Option<&str>, secret: Option<&str>) -> OAuth2Config {
    OAuth2Config {
        provider: OAuth2Provider::Gmail,
        client_id: client_id.map(str::to_string),
        client_secret: secret.map(str::to_string),
        refresh_token: None,
        tenant: None,
        token_url: None,
    }
}

fn refusal(error: Option<&str>, description: Option<&str>) -> Option<ErrorBody> {
    Some(ErrorBody {
        error: error.map(str::to_string),
        error_description: description.map(str::to_string),
    })
}

fn token(expires_in: Option<u64>, refresh_token: Option<&str>) -> TokenResponse {
    TokenResponse {
        access_token: "a".to_string(),
        expires_in,
        refresh_token: refresh_token.map(str::to_string),
    }
}

#[test]
fn forms_escape_everything_but_plain_signs() {
    assert_eq!(urlencoded("aZ0-_.~"), "aZ0-_.~");
    assert_eq!(urlencoded("a b&c=ü"), "a%20b%26c%3D%C3%BC");
}

#[test]
fn refreshes_ask_with_a_secret_only_where_there_is_one() {
    assert_eq!(
        refresh_request(&config(Some("c d"), None), "r/t").unwrap(),
        "grant_type=refresh_token&client_id=c%20d&refresh_token=r%2Ft"
    );
    assert_eq!(
        refresh_request(&config(Some("c"), Some("s")), "r").unwrap(),
        "grant_type=refresh_token&client_id=c&refresh_token=r&client_secret=s"
    );
    assert_eq!(
        refresh_request(&config(None, None), "r").unwrap_err(),
        "OAuth2 client_id not configured"
    );
}

#[test]
fn addresses_are_split() {
    let p = UrlParts::parse("https://h.example:8443/a/b?c").unwrap();
    assert_eq!((p.host.as_str(), p.port, p.path.as_str()), ("h.example", 8443, "/a/b?c"));
    let p = UrlParts::parse("https://h.example").unwrap();
    assert_eq!((p.port, p.path.as_str()), (443, "/"));
}

#[test]
fn unusable_addresses_are_refused() {
    assert_eq!(UrlParts::parse("http://h/").unwrap_err(), UrlError::NotHttps);
    assert_eq!(UrlParts::parse("https://h:x/").unwrap_err(), UrlError::BadPort);
    assert_eq!(UrlParts::parse("https://h:70000/").unwrap_err(), UrlError::BadPort);
    assert_eq!(UrlParts::parse("https://h\r\nX: y/").unwrap_err(), UrlError::BadPort);
    assert_eq!(UrlParts::parse("https://h h/").unwrap_err(), UrlError::BadHost);
    assert_eq!(UrlParts::parse("https://h/a b").unwrap_err(), UrlError::BadPath);
}

#[test]
fn requests_count_the_bytes_of_the_form() {
    let p = UrlParts {
        host: "h".to_string(),
        port: 443,
        path: "/t".to_string(),
    };
    assert_eq!(
        post_request(&p, "a=ü"),
        "POST /t HTTP/1.1\r\nHost: h\r\nContent-Type: application/x-www-form-urlencoded\r\nContent-Length: 4\r\nConnection: close\r\n\r\na=ü"
    );
}

#[test]
fn answers_are_split_at_the_first_empty_line() {
    assert_eq!(
        split_response("HTTP/1.1 401 No\r\nA: b\r\n\r\nx\r\n\r\ny"),
        Ok((401, "x\r\n\r\ny".to_string()))
    );
    assert_eq!(split_response("odd\r\n\r\n"), Ok((0, String::new())));
    assert_eq!(
        split_response("HTTP/1.1 200 OK\r\n"),
        Err("Invalid HTTP response: no header/body separator".to_string())
    );
}

#[test]
fn refusals_show_their_two_members() {
    let e = parse_error_body(400, refusal(Some("invalid_grant"), Some("old\u{7} Trace ID: 1")));
    assert_eq!(e.code.as_deref(), Some("invalid_grant"));
    assert_eq!(e.description.as_deref(), Some("old"));
    let e = parse_error_body(500, None);
    assert!(e.code.is_none() && e.description.is_none());
    assert!(parse_error_body(401, refusal(Some("invalid_client"), None)).is_invalid_client());
}

#[test]
fn tokens_have_a_life_and_may_rotate() {
    let o = refresh_outcome(200, None, Some(token(Some(100), None)), "r", 5).unwrap();
    assert_eq!(o.access.token, "a");
    assert_eq!(o.access.expires_at, 100_000_000_005);
    assert!(o.rotated_refresh_token.is_none());
    let o = refresh_outcome(200, None, Some(token(None, Some("n"))), "r", 0).unwrap();
    assert_eq!(o.access.expires_at, 1_800_000_000_000);
    assert_eq!(o.rotated_refresh_token.as_deref(), Some("n"));
    for same in ["r", ""] {
        assert!(outcome_of(token(None, Some(same)), "r", 0).rotated_refresh_token.is_none());
    }
}

#[test]
fn useless_answers_are_told_apart_from_refusals() {
    match refresh_outcome(200, refusal(None, None), None, "r", 0) {
        Err(RefreshError::Other(t)) => assert_eq!(
            t,
            "Failed to parse OAuth2 token response (body omitted from log)"
        ),
        other => panic!("{other:?}"),
    }
    match refresh_outcome(400, refusal(Some("invalid_grant"), None), None, "r", 0) {
        Err(RefreshError::Refused(e)) => {
            assert!(e.is_invalid_grant());
            assert_eq!(e.text(), "OAuth2 token endpoint returned HTTP 400 (invalid_grant)");
        }
        other => panic!("{other:?}"),
    }
}

#[test]
fn tokens_are_not_used_in_their_last_minute() {
    let t = AccessToken {
        token: "t".to_string(),
        expires_at: 61_000_000_000,
    };
    assert!(t.is_valid(999_999_999));
    assert!(!t.is_valid(1_000_000_000));
    assert_eq!(t.seconds_left(500_000_000), 60);
    assert_eq!(t.seconds_left(62_000_000_000), 0);
}
