use imap_mcp_rs::email::sanitize_external_str;
use imap_mcp_rs::imap_client::util::{
    build_or_criteria, clean_imap_error, clean_message_id, decode_modified_utf7,
    escape_imap_string, extract_message_id, host_supports_unicode_search, imap_astring,
    is_connection_error, is_retryable_error, iso_to_imap_date, sanitize_log_str,
    strip_email_prefixes,
};

#[test]
fn imap_astring_ascii_is_quoted() {
    assert_eq!(imap_astring("hello"), "\"hello\"");
    assert_eq!(imap_astring("a b"), "\"a b\"");
}

#[test]
fn imap_astring_escapes_quotes_and_backslash() {
    assert_eq!(imap_astring("a\"b"), "\"a\\\"b\"");
    assert_eq!(imap_astring("a\\b"), "\"a\\\\b\"");
}

#[test]
fn imap_astring_strips_control_chars() {
    assert_eq!(imap_astring("a\r\nb"), "\"ab\"");
    assert_eq!(imap_astring("a\x00b"), "\"ab\"");
}

#[test]
fn imap_astring_non_ascii_uses_literal_plus() {
    assert_eq!(imap_astring("Bestätigung"), "{12+}\r\nBestätigung");
    assert_eq!(imap_astring("für"), "{4+}\r\nfür");
}

#[test]
fn imap_astring_literal_length_matches_bytes_not_chars() {
    let s = "日本語";
    assert_eq!(imap_astring(s), "{9+}\r\n日本語");
}

#[test]
fn escape_imap_string_basic() {
    assert_eq!(escape_imap_string("hello"), "hello");
    assert_eq!(escape_imap_string("a\"b"), "a\\\"b");
    assert_eq!(escape_imap_string("a\\b"), "a\\\\b");
    assert_eq!(escape_imap_string("a\r\nb"), "ab");
    assert_eq!(escape_imap_string(""), "");
}

#[test]
fn iso_to_imap_date_valid() {
    assert_eq!(iso_to_imap_date("2026-01-15").unwrap(), "15-Jan-2026");
    assert_eq!(iso_to_imap_date("2026-12-01").unwrap(), "1-Dec-2026");
    assert_eq!(iso_to_imap_date("2000-06-30").unwrap(), "30-Jun-2000");
}

#[test]
fn iso_to_imap_date_invalid() {
    assert!(iso_to_imap_date("2026-1-1").is_ok());
    assert!(iso_to_imap_date("2026/01/15").is_err());
    assert!(iso_to_imap_date("2026-13-01").is_err());
    assert!(iso_to_imap_date("not-a-date").is_err());
    assert!(iso_to_imap_date("2026").is_err());
}

#[test]
fn build_or_criteria_empty_returns_none() {
    assert_eq!(build_or_criteria(&vec![]), None);
}

#[test]
fn build_or_criteria_single_returns_unwrapped() {
    let parts = vec!["FROM \"a\"".to_string()];
    assert_eq!(build_or_criteria(&parts).unwrap(), "FROM \"a\"");
}

#[test]
fn build_or_criteria_multiple_uses_prefix_or() {
    let parts = vec![
        "FROM \"a\"".to_string(),
        "FROM \"b\"".to_string(),
        "FROM \"c\"".to_string(),
    ];
    assert_eq!(
        build_or_criteria(&parts).unwrap(),
        "OR FROM \"a\" OR FROM \"b\" FROM \"c\""
    );
}

#[test]
fn build_or_criteria_two_terms() {
    let parts = vec!["FROM \"a\"".to_string(), "FROM \"b\"".to_string()];
    assert_eq!(
        build_or_criteria(&parts).unwrap(),
        "OR FROM \"a\" FROM \"b\""
    );
}

#[test]
fn is_connection_error_recognises_transport_errors() {
    assert!(is_connection_error("broken pipe"));
    assert!(is_connection_error("Broken Pipe"));
    assert!(is_connection_error("Connection reset by peer"));
    assert!(is_connection_error("connection refused"));
    assert!(is_connection_error("connection closed"));
    assert!(is_connection_error("Connection is closed"));
    assert!(is_connection_error("connection aborted"));
    assert!(is_connection_error("connection lost"));
    assert!(is_connection_error("peer closed connection"));
    assert!(is_connection_error("close_notify alert"));
    assert!(is_connection_error("unexpected EOF"));
    assert!(is_connection_error("operation timed out"));
    assert!(is_connection_error("network is unreachable"));
    assert!(is_connection_error("no route to host"));
}

#[test]
fn is_connection_error_recognises_imap_protocol_errors() {
    assert!(is_connection_error("status: BYE"));
    assert!(is_connection_error("* BYE server going down"));
    assert!(is_connection_error("unable to parse response"));
    assert!(is_connection_error("invalid response from server"));
    assert!(is_connection_error("no mailbox selected"));
}

#[test]
fn is_retryable_error_classifies_transient_vs_permanent() {
    for msg in [
        "broken pipe",
        "Server Unavailable. 15",
        "[INUSE] Mailbox is in use",
        "Temporary failure, try again later",
        "too many connections",
    ] {
        assert!(is_retryable_error(msg), "{msg} should be retryable");
    }
    for msg in [
        "Unknown Mailbox: DoesNotExist",
        "Email with UID 99999999 not found in INBOX",
        "Account \"foo\" not found",
        "Moving emails is disabled for this account (allow_move = false)",
    ] {
        assert!(!is_retryable_error(msg), "{msg} should not be retryable");
    }
}

#[test]
fn is_retryable_error_ignores_transient_words_inside_names() {
    for msg in [
        "Unknown Mailbox: Temporary Projects",
        "Attachment \"unavailable\" not found in email 42",
        "Folder \"Machines in use\" not found",
    ] {
        assert!(!is_retryable_error(msg), "{msg} should not be retryable");
    }
    for msg in [
        "[UNAVAILABLE] Temporary System Error (Failure)",
        "no response: code: None, info: Some(\"[INUSE] Mailbox is in use\")",
    ] {
        assert!(is_retryable_error(msg), "{msg} should be retryable");
    }
}

#[test]
fn is_connection_error_rejects_unrelated_errors() {
    assert!(!is_connection_error("permission denied"));
    assert!(!is_connection_error("folder not found"));
    assert!(!is_connection_error("invalid uid"));
    assert!(!is_connection_error("authentication failed"));
    assert!(!is_connection_error(""));
}

#[test]
fn parsers_never_panic_on_arbitrary_input() {
    let seeds: &[&str] = &[
        "",
        "&",
        "&-",
        "&&",
        "-",
        "&-&-",
        "&A",
        "&AAAA",
        "&AAA-",
        "&////-",
        "&,,,,-",
        "INBOX",
        "a&b",
        "&\u{202E}-",
        "ä&ö-ü",
        "&AAAAAAAAAAAAAAAA-",
        "&\u{0}-",
        "&%%%%-",
        "\u{FEFF}&AAA-",
        "&-&-&-&-&-",
        "&AAAAA-",
    ];
    let mut cases: Vec<String> = seeds.iter().map(|s| (*s).to_string()).collect();
    for a in seeds {
        for b in seeds {
            cases.push(format!("{a}{b}"));
        }
    }
    for s in seeds {
        for cut in 0..s.len() {
            if s.is_char_boundary(cut) {
                cases.push(s[..cut].to_string());
            }
        }
    }
    for c in &cases {
        let _ = decode_modified_utf7(c);
        let _ = extract_message_id(c.as_bytes());
        let _ = clean_message_id(c);
        let _ = sanitize_log_str(c);
        let _ = imap_astring(c);
    }
    for b in 0u8..=255 {
        let _ = extract_message_id(&[b, b'\n', b, b':', b]);
    }
    let _ = extract_message_id(&[0xff, 0xfe, b'\n', b'\n', 0x80]);
}

#[test]
fn decode_modified_utf7_handles_real_folder_names() {
    assert_eq!(
        decode_modified_utf7("Entw&APw-rfe").as_deref(),
        Some("Entwürfe")
    );
    assert_eq!(
        decode_modified_utf7("Gel&APY-schte Elemente").as_deref(),
        Some("Gelöschte Elemente")
    );
    assert_eq!(
        decode_modified_utf7("[Google Mail]/Entw&APw-rfe").as_deref(),
        Some("[Google Mail]/Entwürfe")
    );
    assert!(decode_modified_utf7("&2DzfhQ-Diese Woche").is_some());
}

#[test]
fn decode_modified_utf7_returns_none_when_nothing_changes() {
    assert_eq!(decode_modified_utf7("INBOX"), None);
    assert_eq!(decode_modified_utf7("Clients/Acme"), None);
    assert_eq!(decode_modified_utf7("A&-B"), Some("A&B".to_string()));
}

#[test]
fn decode_modified_utf7_rejects_malformed_input() {
    assert_eq!(decode_modified_utf7("Entw&APw"), None);
    assert_eq!(decode_modified_utf7("&!!!-x"), None);
    assert_eq!(decode_modified_utf7("&AP-x"), None);
}

#[test]
fn decode_modified_utf7_surfaces_hidden_bidi_for_the_caller_to_reject() {
    let raw = "INBOX/&IC4-evil";
    assert!(raw.is_ascii(), "raw name passes an ASCII-only check");
    let decoded = decode_modified_utf7(raw).expect("should decode");
    assert!(
        decoded.chars().any(|c| c == '\u{202E}'),
        "decoded form must expose the override: {decoded:?}"
    );
    assert_ne!(
        sanitize_external_str(&decoded),
        decoded,
        "sanitizer must flag it, which is what mod.rs filters on"
    );
}

#[test]
fn extract_message_id_reads_the_header_case_insensitively() {
    let msg = b"From: a@example.com\r\nMessage-ID: <abc.123@nix>\r\nSubject: x\r\n\r\nbody";
    assert_eq!(extract_message_id(msg), Some("<abc.123@nix>".to_string()));
    let lower = b"message-id: <x@y>\r\n\r\nbody";
    assert_eq!(extract_message_id(lower), Some("<x@y>".to_string()));
    let upper = b"MESSAGE-ID: <x@y>\r\n\r\nbody";
    assert_eq!(extract_message_id(upper), Some("<x@y>".to_string()));
}

#[test]
fn extract_message_id_stops_at_the_body() {
    let msg = b"From: a@example.com\r\nSubject: x\r\n\r\nMessage-ID: <forged@evil>";
    assert_eq!(extract_message_id(msg), None);
}

#[test]
fn extract_message_id_handles_absent_and_malformed_headers() {
    assert_eq!(extract_message_id(b"From: a@b\r\n\r\nbody"), None);
    assert_eq!(extract_message_id(b""), None);
    assert_eq!(extract_message_id(b"Message-ID:   \r\n\r\nbody"), None);
    assert_eq!(
        extract_message_id(b"Message-ID: <a@b>\nSubject: x\n\nbody"),
        Some("<a@b>".to_string())
    );
}

#[test]
fn extract_message_id_does_not_match_similar_header_names() {
    let msg = b"Message-ID-Extra: <no@match>\r\nIn-Reply-To: <other@x>\r\n\r\nbody";
    assert_ne!(extract_message_id(msg), Some("<no@match>".to_string()));
}

#[test]
fn clean_message_id_strips_brackets_and_escapes() {
    assert_eq!(clean_message_id("<abc@example.com>"), "abc@example.com");
    assert_eq!(clean_message_id("abc@example.com"), "abc@example.com");
    assert_eq!(clean_message_id("<<nested>>"), "nested");
    assert_eq!(
        clean_message_id("<good@id\r\nBcc: evil@evil.com>"),
        "good@idBcc: evil@evil.com"
    );
}

#[test]
fn strip_email_prefixes_removes_known_variants() {
    assert_eq!(strip_email_prefixes("Re: Hello"), "Hello");
    assert_eq!(strip_email_prefixes("RE: Hello"), "Hello");
    assert_eq!(strip_email_prefixes("re: Hello"), "Hello");
    assert_eq!(strip_email_prefixes("Fwd: Hello"), "Hello");
    assert_eq!(strip_email_prefixes("FWD: Hello"), "Hello");
    assert_eq!(strip_email_prefixes("fwd: Hello"), "Hello");
    assert_eq!(strip_email_prefixes("Fw: Hello"), "Hello");
    assert_eq!(strip_email_prefixes("AW: Hello"), "Hello");
    assert_eq!(strip_email_prefixes("WG: Hello"), "Hello");
}

#[test]
fn strip_email_prefixes_strips_recursively() {
    assert_eq!(strip_email_prefixes("Re: Re: Fwd: Hello"), "Hello");
    assert_eq!(strip_email_prefixes("AW: WG: AW: Test"), "Test");
}

#[test]
fn strip_email_prefixes_leaves_unprefixed_subjects() {
    assert_eq!(strip_email_prefixes("Hello world"), "Hello world");
    assert_eq!(strip_email_prefixes(""), "");
    assert_eq!(
        strip_email_prefixes("Reply but no colon"),
        "Reply but no colon"
    );
}

#[test]
fn host_supports_unicode_search_outlook365() {
    assert!(!host_supports_unicode_search("outlook.office365.com"));
    assert!(!host_supports_unicode_search("imap.outlook.com"));
    assert!(!host_supports_unicode_search("OUTLOOK.OFFICE365.COM"));
}

#[test]
fn host_supports_unicode_search_other_providers() {
    assert!(host_supports_unicode_search("imap.gmail.com"));
    assert!(host_supports_unicode_search("imap.fastmail.com"));
    assert!(host_supports_unicode_search("dovecot.example.com"));
    assert!(host_supports_unicode_search(""));
}

#[test]
fn clean_imap_error_extracts_info_and_strips_code_prefix() {
    let raw = r#"no response: code: None, info: Some("[NONEXISTENT] Unknown Mailbox: DoesNotExist (now in authenticated state) (Failure)")"#;
    assert_eq!(clean_imap_error(raw), "Unknown Mailbox: DoesNotExist");
}

#[test]
fn clean_imap_error_strips_trycreate_prefix() {
    let raw = r#"no response: code: None, info: Some("[TRYCREATE] Mailbox doesn't exist: foo (Failure)")"#;
    assert_eq!(clean_imap_error(raw), "Mailbox doesn't exist: foo");
}

#[test]
fn clean_imap_error_handles_missing_code_prefix() {
    let raw =
        r#"no response: code: None, info: Some("Server temporarily unavailable (Failure)")"#;
    assert_eq!(clean_imap_error(raw), "Server temporarily unavailable");
}

#[test]
fn clean_imap_error_passes_through_unrelated_messages() {
    assert_eq!(
        clean_imap_error("Email UID 42 not found in INBOX"),
        "Email UID 42 not found in INBOX"
    );
    assert_eq!(clean_imap_error(""), "");
    assert_eq!(
        clean_imap_error("Account \"foo\" not found"),
        "Account \"foo\" not found"
    );
}

#[test]
fn clean_imap_error_leaves_info_none_case_unchanged() {
    let raw = "no response: code: None, info: None";
    assert_eq!(clean_imap_error(raw), raw);
}
