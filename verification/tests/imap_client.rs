use imap_mcp_rs::email::{EmailAddress, EmailFull};
use imap_mcp_rs::imap_client::fetch::{parse_flags, Fetched, MailFlag};
use imap_mcp_rs::imap_client::filter::BodyTextFilter;
use imap_mcp_rs::imap_client::folders::{detect_folder_role, safe_display_name};
use imap_mcp_rs::imap_client::uids::uid_set_string;

#[test]
fn safe_display_name_refuses_a_decoded_bidi_override() {
    let raw = "INBOX/&IC4-evil";
    assert!(
        raw.is_ascii(),
        "the raw name is what the folder filter sees"
    );
    assert_eq!(
        safe_display_name(raw),
        None,
        "must not offer a display name that renders deceptively"
    );
}

#[test]
fn safe_display_name_decodes_ordinary_localized_folders() {
    assert_eq!(
        safe_display_name("Entw&APw-rfe").as_deref(),
        Some("Entwürfe")
    );
    assert_eq!(
        safe_display_name("Gel&APY-schte Elemente").as_deref(),
        Some("Gelöschte Elemente")
    );
}

#[test]
fn safe_display_name_is_absent_for_plain_names() {
    assert_eq!(safe_display_name("INBOX"), None);
    assert_eq!(safe_display_name("Clients/Acme"), None);
}

#[test]
fn uid_set_string_empty_returns_empty() {
    assert_eq!(uid_set_string(&[]), "");
}

#[test]
fn uid_set_string_single_uid() {
    assert_eq!(uid_set_string(&[42]), "42");
}

#[test]
fn uid_set_string_non_contiguous_comma_joined() {
    assert_eq!(uid_set_string(&[1, 3, 5]), "1,3,5");
}

#[test]
fn uid_set_string_contiguous_collapsed_to_range() {
    assert_eq!(uid_set_string(&[1, 2, 3, 4, 5]), "1:5");
}

#[test]
fn uid_set_string_mixed_runs_and_singles() {
    assert_eq!(uid_set_string(&[1, 2, 3, 7, 10, 11, 12]), "1:3,7,10:12");
}

#[test]
fn uid_set_string_sorts_input() {
    assert_eq!(uid_set_string(&[5, 1, 3, 2, 4]), "1:5");
    assert_eq!(uid_set_string(&[100, 2, 1, 101]), "1:2,100:101");
}

#[test]
fn uid_set_string_handles_u32_max_boundary() {
    assert_eq!(uid_set_string(&[u32::MAX]), u32::MAX.to_string());
    assert_eq!(
        uid_set_string(&[u32::MAX - 1, u32::MAX]),
        format!("{}:{}", u32::MAX - 1, u32::MAX)
    );
}

#[test]
fn uid_set_string_duplicates_emitted_verbatim() {
    assert_eq!(uid_set_string(&[3, 3, 3]), "3,3,3");
}

#[test]
fn detect_folder_role_matches_known_names() {
    assert_eq!(detect_folder_role("Drafts"), Some("drafts"));
    assert_eq!(detect_folder_role("[Gmail]/Drafts"), Some("drafts"));
    assert_eq!(detect_folder_role("Entwürfe"), Some("drafts"));
    assert_eq!(detect_folder_role("Sent"), Some("sent"));
    assert_eq!(detect_folder_role("[Gmail]/Sent Mail"), Some("sent"));
    assert_eq!(detect_folder_role("Trash"), Some("trash"));
    assert_eq!(detect_folder_role("Papierkorb"), Some("trash"));
}

#[test]
fn detect_folder_role_case_insensitive() {
    assert_eq!(detect_folder_role("DRAFTS"), Some("drafts"));
    assert_eq!(detect_folder_role("sent"), Some("sent"));
    assert_eq!(detect_folder_role("TRASH"), Some("trash"));
}

#[test]
fn detect_folder_role_returns_none_for_unknown() {
    assert_eq!(detect_folder_role("INBOX"), None);
    assert_eq!(detect_folder_role(""), None);
    assert_eq!(detect_folder_role("MyCustomFolder"), None);
}

#[test]
fn parse_flags_known_standard_flags() {
    let fetched = Fetched {
        uid: Some(1),
        body: None,
        flags: vec![
            MailFlag::Seen,
            MailFlag::Answered,
            MailFlag::Flagged,
            MailFlag::Deleted,
            MailFlag::Draft,
            MailFlag::Recent,
            MailFlag::MayCreate,
            MailFlag::Custom("$Junk".to_string()),
        ],
        internal_unix: None,
    };
    assert_eq!(
        parse_flags(&fetched),
        [
            "\\Seen",
            "\\Answered",
            "\\Flagged",
            "\\Deleted",
            "\\Draft",
            "\\MayCreate",
            "$Junk"
        ]
    );
}

fn mail(subject: &str, from: &str, body: &str) -> EmailFull {
    EmailFull {
        uid: 1,
        folder: "INBOX".to_string(),
        from: Some(EmailAddress {
            name: None,
            address: from.to_string(),
        }),
        to: vec![],
        cc: vec![],
        subject: subject.to_string(),
        date: None,
        date_original: None,
        message_id: None,
        in_reply_to: None,
        references: vec![],
        flags: vec![],
        body_text: body.to_string(),
        body_html: None,
        attachments: vec![],
        body_parts_diverge: false,
    }
}

#[test]
fn body_text_filter_matches_beyond_the_snippet_window() {
    let mut body = "x".repeat(5_000);
    body.push_str(" Bestätigung Ihrer Bestellung");
    let filter = BodyTextFilter {
        all: vec!["bestätigung".to_string()],
        any: vec![],
    };
    assert!(
        filter.matches(&mail("s", "a@b", &body)),
        "term past 200 chars must match"
    );
    assert!(!filter.matches(&mail("s", "a@b", &"x".repeat(5_000))));
}

#[test]
fn body_text_filter_matches_subject_and_addresses_like_imap_text() {
    let filter = BodyTextFilter {
        all: vec!["zahlungsbestätigung".to_string()],
        any: vec![],
    };
    assert!(filter.matches(&mail(
        "Zahlungsbestätigung Q3",
        "a@b",
        "no term in the body"
    )));
    assert!(!filter.matches(&mail("Unrelated", "a@b", "no term here either")));

    let by_sender = BodyTextFilter {
        all: vec!["müller@example.de".to_string()],
        any: vec![],
    };
    assert!(by_sender.matches(&mail("s", "müller@example.de", "body")));
    let straddle = BodyTextFilter {
        all: vec!["subjectbody".to_string()],
        any: vec![],
    };
    assert!(!straddle.matches(&mail("subject", "a@b", "body")));
}

#[test]
fn body_text_filter_combines_all_and_any() {
    let filter = BodyTextFilter {
        all: vec!["praktikum".to_string()],
        any: vec![vec!["akku".to_string(), "battery".to_string()]],
    };
    let m = |body: &str| mail("s", "a@b", body);
    assert!(filter.matches(&m("Praktikum mit Battery-Testing")));
    assert!(!filter.matches(&m("Praktikum ohne den zweiten Begriff")));
    assert!(!filter.matches(&m("Nur Akku, kein erster Begriff")));
    assert!(BodyTextFilter::empty().matches(&m("anything")));
    assert!(BodyTextFilter::empty().is_empty());
}

#[test]
fn terms_match_inside_one_field_only() {
    let accepts = |term: &str| {
        BodyTextFilter {
            all: vec![term.to_string()],
            any: vec![],
        }
        .matches(&mail("quarterly report", "bob@example.com", "see attachment"))
    };
    assert!(accepts("quarterly"));
    assert!(accepts("bob@example"));
    assert!(accepts("attachment"));
    assert!(!accepts("report bob"));
    assert!(!accepts("comsee"));
}
