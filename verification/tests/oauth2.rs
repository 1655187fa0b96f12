use imap_mcp_rs::oauth2::{
    client_secret_param, outcome_of, parse_error_body, ErrorBody, OAuth2Error, RefreshOutcome,
    TokenResponse,
};

fn value(text: &str) -> Option<serde_json::Value> {
    serde_json::from_str(text).ok()
}

fn member(value: &serde_json::Value, key: &str) -> Option<String> {
    value.get(key).and_then(|m| m.as_str()).map(str::to_string)
}

/// What a refusal with the given text is read as.
fn refused(http_status: u16, text: &str) -> OAuth2Error {
    let body = value(text).map(|v| ErrorBody {
        error: member(&v, "error"),
        error_description: member(&v, "error_description"),
    });
    parse_error_body(http_status, body)
}

/// What an answer with the given text is read as.
fn refreshed(text: &str, sent: &str) -> RefreshOutcome {
    let v = value(text).unwrap();
    let answer = TokenResponse {
        access_token: member(&v, "access_token").unwrap(),
        expires_in: v.get("expires_in").and_then(|m| m.as_u64()),
        refresh_token: member(&v, "refresh_token"),
    };
    outcome_of(answer, sent, 0)
}

#[test]
fn token_response_with_rotation() {
    let r = refreshed(
        r#"{"access_token":"at","expires_in":3600,"refresh_token":"rt-new"}"#,
        "rt-old",
    );
    assert_eq!(r.access.token, "at");
    assert_eq!(r.rotated_refresh_token.as_deref(), Some("rt-new"));
}

#[test]
fn token_response_without_rotation_is_fine() {
    let r = refreshed(r#"{"access_token":"at","expires_in":3599}"#, "rt-old");
    assert!(r.rotated_refresh_token.is_none());
}

#[test]
fn error_body_extracts_code_and_trims_description() {
    let e = refused(
        400,
        r#"{"error":"invalid_grant","error_description":"AADSTS700082: The refresh token has expired due to inactivity. Trace ID: abc Correlation ID: def"}"#,
    );
    assert_eq!(e.http_status, 400);
    assert!(e.is_invalid_grant());
    let desc = e.description.clone().unwrap();
    assert!(desc.starts_with("AADSTS700082"));
    assert!(!desc.contains("Trace ID"));
    assert_eq!(
        e.text(),
        format!("OAuth2 token endpoint returned HTTP 400 (invalid_grant): {desc}")
    );
}

#[test]
fn remedy_distinguishes_dead_token_from_dead_client_secret() {
    let token_dead = refused(400, r#"{"error":"invalid_grant"}"#);
    assert_eq!(
        token_dead.remedy("Office").unwrap(),
        "run `imap-mcp-rs reauth Office` to re-authorize"
    );

    let client_dead = refused(401, r#"{"error":"invalid_client"}"#);
    let remedy = client_dead.remedy("Office").unwrap();
    assert!(remedy.contains("client_secret"));
    assert!(remedy.contains("cannot fix this"));

    assert!(refused(503, "{}").remedy("Office").is_none());
}

#[test]
fn remedy_tells_the_two_client_type_mismatches_apart() {
    let too_much = refused(
        401,
        r#"{"error":"invalid_client","error_description":"AADSTS700025: Client is public so neither 'client_assertion' nor 'client_secret' should be presented."}"#,
    );
    let remedy = too_much.remedy("Office").unwrap();
    assert!(remedy.contains("remove `client_secret`"), "{remedy}");
    assert!(!remedy.contains("secrets expire"), "{remedy}");

    let too_little = refused(
        401,
        r#"{"error":"invalid_client","error_description":"AADSTS7000218: The request body must contain the following parameter: 'client_assertion' or 'client_secret'."}"#,
    );
    let remedy = too_little.remedy("Office").unwrap();
    assert!(remedy.contains("requires a secret"), "{remedy}");
    assert!(!remedy.contains("secrets expire"), "{remedy}");
}

#[test]
fn client_secret_param_is_omitted_entirely_when_absent() {
    assert_eq!(client_secret_param(None), "");
    assert_eq!(
        client_secret_param(Some("s3c/ret")),
        "&client_secret=s3c%2Fret"
    );
}

#[test]
fn error_body_unparseable_still_yields_status() {
    let e = refused(502, "<html>Bad Gateway</html>");
    assert_eq!(e.http_status, 502);
    assert!(e.code.is_none());
    assert!(!e.is_invalid_grant());
}

#[test]
fn error_description_strips_control_chars_and_caps() {
    let long = format!("{}\r\nX{}", "A".repeat(10), "B".repeat(500));
    let body = serde_json::Value::Object(
        [
            ("error".to_string(), serde_json::Value::from("server_error")),
            ("error_description".to_string(), serde_json::Value::from(long)),
        ]
        .into_iter()
        .collect(),
    );
    let e = refused(500, &body.to_string());
    let desc = e.description.unwrap();
    assert!(!desc.contains('\r') && !desc.contains('\n'));
    assert!(desc.chars().count() <= 300);
}
