use imap_mcp_rs::email::{EmailAddress, EmailSummary};
use imap_mcp_rs::imap_client::folders::FolderInfo;
use imap_mcp_rs::json::Json;
use imap_mcp_rs::time::Zone;
use imap_mcp_rs::tools::bounds::parse_time_bound;
use imap_mcp_rs::tools::download::{filesystem_safe_filename, resolve_attachment_selection};
use imap_mcp_rs::tools::read::{
    add_untrusted_marker, cap_threads, filter_folders, summary_rows, UNTRUSTED_BODY_NOTICE,
};
use imap_mcp_rs::tools::search::{
    build_search_criteria, render_search_payload, ClientFilter, SearchEmailsRequest, SearchPayload,
};
use imap_mcp_rs::tools::threads::group_summaries_by_thread;

fn value(j: &Json) -> serde_json::Value {
    serde_json::from_str(&j.to_text()).unwrap()
}

fn folder(name: &str, unread: u32, display: Option<&str>) -> FolderInfo {
    FolderInfo {
        name: name.into(),
        total: 10,
        unread,
        role: None,
        display_name: display.map(Into::into),
    }
}

#[test]
fn filter_folders_narrows_by_prefix_case_insensitively() {
    let all = vec![
        folder("INBOX", 5, None),
        folder("Clients/Acme", 3, None),
        folder("Clients/Globex", 0, None),
        folder("Archiv", 0, None),
    ];
    let kept = filter_folders(all, Some("clients/"), false);
    let names: Vec<&str> = kept.iter().map(|f| f.name.as_str()).collect();
    assert_eq!(names, ["Clients/Acme", "Clients/Globex"]);
}

#[test]
fn filter_folders_matches_the_decoded_name_too() {
    let all = vec![
        folder("Entw&APw-rfe", 1, Some("Entwürfe")),
        folder("INBOX", 0, None),
    ];
    let kept = filter_folders(all, Some("Entwü"), false);
    assert_eq!(kept.len(), 1);
    assert_eq!(kept[0].name, "Entw&APw-rfe", "the wire name is returned");
}

#[test]
fn filter_folders_can_select_only_folders_with_unread() {
    let all = vec![
        folder("INBOX", 5, None),
        folder("Archiv", 0, None),
        folder("Clients/Acme", 3, None),
    ];
    let kept = filter_folders(all, None, true);
    let names: Vec<&str> = kept.iter().map(|f| f.name.as_str()).collect();
    assert_eq!(names, ["INBOX", "Clients/Acme"]);
}

#[test]
fn filter_folders_combines_both_and_passes_everything_when_unset() {
    let all = vec![
        folder("Clients/Acme", 3, None),
        folder("Clients/Globex", 0, None),
        folder("INBOX", 9, None),
    ];
    assert_eq!(filter_folders(all.clone(), Some("Clients/"), true).len(), 1);
    assert_eq!(filter_folders(all, None, false).len(), 3);
}

fn row(uid: u32) -> EmailSummary {
    EmailSummary {
        uid,
        folder: "INBOX".into(),
        folder_display: None,
        message_id: Some(format!("<{uid}@x>")),
        in_reply_to: None,
        references: vec![],
        from: None,
        to: vec![],
        to_count: 0,
        cc_count: 0,
        subject: format!("s{uid}"),
        date: None,
        date_original: None,
        internal_date: None,
        flags: vec![],
        has_attachments: false,
        snippet: "x".repeat(200),
        thread_message_count: None,
    }
}

#[test]
fn cap_threads_reports_how_many_existed_before_the_cap() {
    let (kept, before) = cap_threads((1..=8).map(row).collect(), 3);
    assert_eq!(kept.len(), 3);
    assert_eq!(before, Some(8));
}

#[test]
fn cap_threads_stays_silent_when_nothing_is_cut() {
    let (kept, before) = cap_threads((1..=3).map(row).collect(), 3);
    assert_eq!(kept.len(), 3);
    assert_eq!(before, None, "exactly at the limit is not a truncation");

    let (kept, before) = cap_threads(vec![row(1)], 10);
    assert_eq!(kept.len(), 1);
    assert_eq!(before, None);
}

#[test]
fn render_search_payload_reports_truncated_multi_folder_unions() {
    let payload = |server_matched| SearchPayload {
        account: "A",
        server_matched,
        offset: 0,
        limit: 20,
        limit_capped: false,
        group_by_thread: false,
        compact: true,
    };
    let rendered = render_search_payload((1..=30).map(row).collect(), &payload(30));
    let v: serde_json::Value = value(&rendered);
    assert_eq!(v["returned"], 20);
    assert_eq!(v["matched"], 30);
    assert_eq!(v["has_more"], true, "{v}");

    let rendered = render_search_payload((1..=20).map(row).collect(), &payload(20));
    let v: serde_json::Value = value(&rendered);
    assert_eq!(v["returned"], 20);
    assert_eq!(v["has_more"], false, "{v}");
}

#[test]
fn summary_rows_switch_between_full_and_compact() {
    let rows = vec![row(1), row(2)];

    let full = value(&summary_rows(&rows, false));
    assert_eq!(full.as_array().unwrap().len(), 2);
    assert!(
        full[0].get("snippet").is_some(),
        "full rows keep the snippet"
    );
    assert!(full[0].get("message_id").is_some());

    let compact = value(&summary_rows(&rows, true));
    assert_eq!(compact.as_array().unwrap().len(), 2);
    assert!(compact[0].get("snippet").is_none(), "compact drops it");
    assert!(compact[0].get("message_id").is_none());
    assert_eq!(compact[0]["uid"], 1, "identity survives either way");

    assert!(
        compact.to_string().len() * 3 < full.to_string().len(),
        "compact must be substantially smaller, not marginally"
    );
}

fn empty_req() -> SearchEmailsRequest {
    SearchEmailsRequest {
        account: None,
        compact: None,
        offset: None,
        folder: None,
        text: None,
        text_any: None,
        text_all: None,
        from: None,
        from_any: None,
        from_all: None,
        to: None,
        subject: None,
        subject_all: None,
        since: None,
        before: None,
        is_read: None,
        unread_only: None,
        group_by_thread: None,
        is_flagged: None,
        is_answered: None,
        has_attachments: None,
        min_size: None,
        max_size: None,
        limit: None,
    }
}

fn build(req: &SearchEmailsRequest, unicode: bool) -> (String, ClientFilter) {
    build_search_criteria(req, unicode, Zone::Local).unwrap()
}

fn summary_with(subject: &str, snippet: &str, from: &str) -> EmailSummary {
    EmailSummary {
        uid: 1,
        folder: "INBOX".to_string(),
        folder_display: None,
        message_id: None,
        in_reply_to: None,
        references: vec![],
        from: Some(EmailAddress {
            name: None,
            address: from.to_string(),
        }),
        to: vec![],
        to_count: 0,
        cc_count: 0,
        subject: subject.to_string(),
        date: None,
        date_original: None,
        internal_date: None,
        flags: vec![],
        has_attachments: false,
        snippet: snippet.to_string(),
        thread_message_count: None,
    }
}

#[test]
fn build_search_criteria_no_criteria_errors() {
    let req = empty_req();
    let err = build_search_criteria(&req, true, Zone::Local).unwrap_err();
    assert!(err.to_lowercase().contains("at least one"));
}

#[test]
fn build_search_criteria_subject_ascii_quoted() {
    let mut req = empty_req();
    req.subject = Some("Hello".to_string());
    let (criteria, filter) = build(&req, true);
    assert_eq!(criteria, "SUBJECT \"Hello\"");
    assert!(filter.is_empty());
}

#[test]
fn build_search_criteria_subject_unicode_uses_charset_and_literal() {
    let mut req = empty_req();
    req.subject = Some("Bestätigung".to_string());
    let (criteria, filter) = build(&req, true);
    assert!(criteria.starts_with("CHARSET UTF-8 SUBJECT {12+}\r\n"));
    assert!(criteria.ends_with("Bestätigung"));
    assert!(filter.is_empty());
}

#[test]
fn build_search_criteria_combines_multiple_with_space() {
    let mut req = empty_req();
    req.subject = Some("Order".to_string());
    req.is_read = Some(false);
    let (criteria, _) = build(&req, true);
    assert!(criteria.contains("SUBJECT \"Order\""));
    assert!(criteria.contains("UNSEEN"));
}

#[test]
fn build_search_criteria_or_combines_text_any() {
    let mut req = empty_req();
    req.text_any = Some(vec!["foo".to_string(), "bar".to_string()]);
    let (criteria, _) = build(&req, true);
    assert_eq!(criteria, "OR TEXT \"foo\" TEXT \"bar\"");
}

#[test]
fn build_search_criteria_or_skips_empty_list() {
    let mut req = empty_req();
    req.text_any = Some(vec![]);
    assert!(build_search_criteria(&req, true, Zone::Local).is_err());
}

#[test]
fn build_search_criteria_dates_emit_imap_format() {
    let mut req = empty_req();
    req.since = Some("2026-01-15".to_string());
    req.before = Some("2026-12-31".to_string());
    let (criteria, _) = build(&req, true);
    assert!(criteria.contains("SINCE 15-Jan-2026"));
    assert!(criteria.contains("BEFORE 31-Dec-2026"));
}

#[test]
fn build_search_criteria_invalid_date_errors() {
    let mut req = empty_req();
    req.since = Some("not-a-date".to_string());
    let err = build_search_criteria(&req, true, Zone::Local).unwrap_err();
    assert!(err.contains("Invalid 'since' date"));
}

#[test]
fn build_search_criteria_flag_filters() {
    let mut req = empty_req();
    req.is_flagged = Some(true);
    req.is_answered = Some(false);
    let (criteria, _) = build(&req, true);
    assert!(criteria.contains("FLAGGED"));
    assert!(criteria.contains("UNANSWERED"));
}

#[test]
fn build_search_criteria_from_to_text() {
    let mut req = empty_req();
    req.from = Some("alice@x.com".to_string());
    req.to = Some("bob@x.com".to_string());
    req.text = Some("hello".to_string());
    let (criteria, _) = build(&req, true);
    assert!(criteria.contains("FROM \"alice@x.com\""));
    assert!(criteria.contains("TO \"bob@x.com\""));
    assert!(criteria.contains("TEXT \"hello\""));
}

#[test]
fn build_search_criteria_unicode_in_or_triggers_charset() {
    let mut req = empty_req();
    req.text_any = Some(vec!["foo".to_string(), "Glückwunsch".to_string()]);
    let (criteria, _) = build(&req, true);
    assert!(criteria.starts_with("CHARSET UTF-8 "));
}

#[test]
fn fallback_diverts_unicode_subject_to_client_filter() {
    let mut req = empty_req();
    req.subject = Some("Bestätigung".to_string());
    req.since = Some("2026-01-01".to_string());
    let (criteria, filter) = build(&req, false);
    assert!(!criteria.contains("SUBJECT"));
    assert!(criteria.contains("SINCE 1-Jan-2026"));
    assert_eq!(filter.subject, vec!["bestätigung".to_string()]);
}

#[test]
fn fallback_keeps_ascii_subject_server_side() {
    let mut req = empty_req();
    req.subject = Some("Order".to_string());
    let (criteria, filter) = build(&req, false);
    assert!(criteria.contains("SUBJECT \"Order\""));
    assert!(filter.is_empty());
}

#[test]
fn fallback_requires_date_when_only_unicode_criteria() {
    let mut req = empty_req();
    req.subject = Some("Bestätigung".to_string());
    let err = build_search_criteria(&req, false, Zone::Local).unwrap_err();
    assert!(err.contains("since/before"), "{err}");
    assert!(err.contains("non-ASCII"), "{err}");
    assert!(!err.contains("has_attachments"), "{err}");
}

#[test]
fn client_only_criteria_error_names_the_actual_criteria() {
    let mut req = empty_req();
    req.has_attachments = Some(true);
    let err = build_search_criteria(&req, true, Zone::Local).unwrap_err();
    assert!(err.contains("has_attachments"), "{err}");
    assert!(!err.to_lowercase().contains("non-ascii"), "{err}");
    assert!(err.contains("since/before"), "{err}");

    req.since = Some("2026-01-01".to_string());
    let (criteria, filter) = build(&req, true);
    assert!(criteria.contains("SINCE 1-Jan-2026"), "{criteria}");
    assert_eq!(filter.has_attachments, Some(true));

    let mut req = empty_req();
    req.has_attachments = Some(true);
    req.subject = Some("Bestätigung".to_string());
    let err = build_search_criteria(&req, false, Zone::Local).unwrap_err();
    assert!(err.contains("has_attachments"), "{err}");
    assert!(err.contains("non-ASCII"), "{err}");
}

fn cest() -> Zone {
    Zone::Fixed(7200)
}

#[test]
fn time_bound_plain_date_stays_day_granular() {
    let b = parse_time_bound("2026-08-15", true, cest()).unwrap();
    assert_eq!(b.imap_date, "15-Aug-2026");
    assert!(b.unix.is_none(), "no client-side cut for a plain date");
}

#[test]
fn time_bound_with_time_widens_the_server_window_and_sets_the_cut() {
    let b = parse_time_bound("2026-08-15T12:20", true, cest()).unwrap();
    assert_eq!(b.imap_date, "14-Aug-2026");
    let expect = jiff::civil::date(2026, 8, 15)
        .at(10, 20, 0, 0)
        .to_zoned(jiff::tz::TimeZone::UTC)
        .unwrap()
        .timestamp()
        .as_second();
    assert_eq!(b.unix, Some(expect));

    let b = parse_time_bound("2026-08-15T12:20", false, cest()).unwrap();
    assert_eq!(b.imap_date, "16-Aug-2026");

    let z = parse_time_bound("2026-08-15T10:20:00Z", true, cest()).unwrap();
    assert_eq!(z.unix, Some(expect));
    let off = parse_time_bound("2026-08-15T12:20:00+02:00", true, cest()).unwrap();
    assert_eq!(off.unix, Some(expect));
}

#[test]
fn time_bound_rejects_garbage_with_format_help() {
    for bad in [
        "2026-08-15Txx:20",
        "2026-08-15T12:20:00+2",
        "2026-13-01T00:00",
        "2026-08-1€",
        "2026-08-15T1€:20",
    ] {
        let err = parse_time_bound(bad, true, cest()).unwrap_err();
        assert!(err.contains(bad), "{err}");
        assert!(err.contains("YYYY-MM-DD"), "{err}");
    }
    assert!(parse_time_bound("15.08.2026", true, cest()).is_err());
}

#[test]
fn unread_only_alias_maps_and_conflicts_loudly() {
    let mut req = empty_req();
    req.unread_only = Some(true);
    let (criteria, _) = build(&req, true);
    assert!(criteria.contains("UNSEEN"), "{criteria}");

    let mut req = empty_req();
    req.unread_only = Some(false);
    let (criteria, _) = build(&req, true);
    assert!(criteria.contains("SEEN"), "{criteria}");

    let mut req = empty_req();
    req.is_read = Some(true);
    req.unread_only = Some(true);
    assert!(build_search_criteria(&req, true, Zone::Local).is_err());
    let mut req = empty_req();
    req.is_read = Some(false);
    req.unread_only = Some(true);
    let (criteria, _) = build(&req, true);
    assert!(criteria.contains("UNSEEN"));
}

fn names(v: &[&str]) -> Vec<String> {
    v.iter().map(|s| (*s).to_string()).collect()
}

#[test]
fn attachment_selection_by_index_and_by_unique_name() {
    let n = names(&["report.pdf", "attachment", "attachment"]);
    assert_eq!(resolve_attachment_selection(&n, Some(2), None), Ok(2));
    assert_eq!(
        resolve_attachment_selection(&n, Some(0), Some("attachment")),
        Ok(0)
    );
    assert_eq!(
        resolve_attachment_selection(&n, None, Some("report.pdf")),
        Ok(0)
    );
}

#[test]
fn attachment_selection_handles_placeholder_names() {
    let single = names(&["report.pdf", "attachment"]);
    assert_eq!(
        resolve_attachment_selection(&single, None, Some("attachment")),
        Ok(1)
    );

    let double = names(&["attachment", "attachment"]);
    let err = resolve_attachment_selection(&double, None, Some("attachment")).unwrap_err();
    assert!(err.contains("ambiguous"), "{err}");
    assert!(err.contains("index"), "{err}");
}

#[test]
fn attachment_selection_errors_list_what_is_available() {
    let n = names(&["a.png", "b.pdf"]);
    let err = resolve_attachment_selection(&n, None, Some("missing.txt")).unwrap_err();
    assert!(err.contains("index 0: \"a.png\""), "{err}");
    assert!(err.contains("index 1: \"b.pdf\""), "{err}");
    let err = resolve_attachment_selection(&n, Some(5), None).unwrap_err();
    assert!(err.contains("out of range"), "{err}");
    assert!(
        resolve_attachment_selection(&n, None, None)
            .unwrap_err()
            .contains("filename"),
    );
}

#[test]
fn fallback_diverts_unicode_text_to_the_body_filter() {
    let mut req = empty_req();
    req.text = Some("Bestätigung".to_string());
    req.since = Some("2026-01-01".to_string());
    let (criteria, filter) = build(&req, false);
    assert!(!criteria.contains("TEXT"));
    assert_eq!(filter.post.body.all, vec!["bestätigung".to_string()]);
}

#[test]
fn fallback_text_any_with_any_unicode_diverts_entire_group() {
    let mut req = empty_req();
    req.text_any = Some(vec!["foo".to_string(), "Glückwunsch".to_string()]);
    req.since = Some("2026-01-01".to_string());
    let (criteria, filter) = build(&req, false);
    assert!(!criteria.contains("TEXT"));
    assert_eq!(filter.post.body.any.len(), 1);
    assert_eq!(filter.post.body.any[0].len(), 2);
}

#[test]
fn fallback_text_any_all_ascii_stays_server_side() {
    let mut req = empty_req();
    req.text_any = Some(vec!["foo".to_string(), "bar".to_string()]);
    let (criteria, filter) = build(&req, false);
    assert!(criteria.contains("OR TEXT \"foo\" TEXT \"bar\""));
    assert!(filter.post.body.is_empty());
}

#[test]
fn client_filter_subject_substring_case_insensitive() {
    let mut filter = ClientFilter::empty();
    filter.subject.push("bestätigung".to_string());
    let s = summary_with("Bestätigung Ihrer Bestellung", "", "x@y");
    assert!(filter.matches(&s));
}

#[test]
fn client_filter_subject_no_match() {
    let mut filter = ClientFilter::empty();
    filter.subject.push("bestätigung".to_string());
    let s = summary_with("Order shipped", "", "x@y");
    assert!(!filter.matches(&s));
}

#[test]
fn client_filter_matches_ignores_the_body_criteria() {
    let mut filter = ClientFilter::empty();
    filter.post.body.all.push("glückwunsch".to_string());
    let s = summary_with("Test", "Nichts davon hier", "x@y");
    assert!(filter.matches(&s), "body terms are not the summary's job");
    assert!(!filter.is_empty(), "…but they do make the filter non-empty");
}

#[test]
fn client_filter_from_matches_address_or_name() {
    let mut filter = ClientFilter::empty();
    filter.from.push("alice".to_string());
    let s = summary_with("Test", "", "alice@example.com");
    assert!(filter.matches(&s));
}

#[test]
fn client_filter_empty_matches_everything() {
    let filter = ClientFilter::empty();
    let s = summary_with("Anything", "Whatever", "x@y");
    assert!(filter.matches(&s));
}

#[test]
fn filesystem_safe_filename_keeps_normal_names() {
    assert_eq!(filesystem_safe_filename("Lebenslauf.pdf"), "Lebenslauf.pdf");
    assert_eq!(filesystem_safe_filename("photo.jpg"), "photo.jpg");
    assert_eq!(filesystem_safe_filename("ünïcödë.txt"), "ünïcödë.txt");
}

#[test]
fn filesystem_safe_filename_strips_path_separators() {
    assert_eq!(
        filesystem_safe_filename("../../../etc/passwd"),
        ".._.._.._etc_passwd"
    );
    assert_eq!(filesystem_safe_filename("foo/bar.pdf"), "foo_bar.pdf");
    assert_eq!(filesystem_safe_filename("a\\b.txt"), "a_b.txt");
    assert_eq!(filesystem_safe_filename("a\0b.txt"), "ab.txt");
}

#[test]
fn filesystem_safe_filename_handles_traversal_only_input() {
    assert_eq!(filesystem_safe_filename(".."), "attachment");
    assert_eq!(filesystem_safe_filename("."), "attachment");
    assert_eq!(filesystem_safe_filename(""), "attachment");
    assert_eq!(filesystem_safe_filename("   "), "attachment");
}

#[test]
fn filesystem_safe_filename_strips_bidi_via_sanitize_external_str() {
    assert_eq!(
        filesystem_safe_filename("invoice\u{202E}gpj.exe"),
        "invoicegpj.exe"
    );
}

fn thread_summary(
    uid: u32,
    date: &str,
    message_id: Option<&str>,
    in_reply_to: Option<&str>,
    references: &[&str],
) -> EmailSummary {
    let mut s = summary_with("Subject", "snippet", "a@b");
    s.uid = uid;
    s.date = Some(date.to_string());
    s.message_id = message_id.map(String::from);
    s.in_reply_to = in_reply_to.map(String::from);
    s.references = references.iter().map(|r| (*r).to_string()).collect();
    s
}

#[test]
fn group_by_thread_merges_reply_chain() {
    let m1 = thread_summary(1, "2026-01-01T10:00:00Z", Some("<m1>"), None, &[]);
    let m2 = thread_summary(
        2,
        "2026-01-02T10:00:00Z",
        Some("<m2>"),
        Some("<m1>"),
        &["<m1>"],
    );
    let m3 = thread_summary(
        3,
        "2026-01-03T10:00:00Z",
        Some("<m3>"),
        Some("<m2>"),
        &["<m1>", "<m2>"],
    );
    let grouped = group_summaries_by_thread(vec![m1, m2, m3]);
    assert_eq!(grouped.len(), 1, "should collapse to one thread");
    let rep = &grouped[0];
    assert_eq!(rep.uid, 3, "newest (uid 3) should be the representative");
    assert_eq!(rep.thread_message_count, Some(3));
}

#[test]
fn group_by_thread_keeps_unrelated_threads_separate() {
    let a = thread_summary(1, "2026-01-01T10:00:00Z", Some("<thread-a-1>"), None, &[]);
    let b = thread_summary(2, "2026-01-02T10:00:00Z", Some("<thread-b-1>"), None, &[]);
    let grouped = group_summaries_by_thread(vec![a, b]);
    assert_eq!(grouped.len(), 2);
    assert!(grouped.iter().all(|s| s.thread_message_count == Some(1)));
}

#[test]
fn group_by_thread_preserves_messages_without_message_id() {
    let a = thread_summary(1, "2026-01-01T10:00:00Z", None, None, &[]);
    let b = thread_summary(2, "2026-01-02T10:00:00Z", None, None, &[]);
    let grouped = group_summaries_by_thread(vec![a, b]);
    assert_eq!(grouped.len(), 2, "synthetic keys should keep them separate");
}

#[test]
fn group_by_thread_picks_newest_as_representative() {
    let old = thread_summary(10, "2026-01-01T00:00:00Z", Some("<m1>"), None, &[]);
    let new = thread_summary(
        20,
        "2026-05-01T00:00:00Z",
        Some("<m2>"),
        Some("<m1>"),
        &["<m1>"],
    );
    let grouped = group_summaries_by_thread(vec![old, new]);
    assert_eq!(grouped.len(), 1);
    assert_eq!(grouped[0].uid, 20);
}

#[test]
fn group_by_thread_empty_input_empty_output() {
    let grouped = group_summaries_by_thread(vec![]);
    assert!(grouped.is_empty());
}

#[test]
fn group_by_thread_single_input_annotated() {
    let s = thread_summary(1, "2026-01-01T10:00:00Z", Some("<m1>"), None, &[]);
    let grouped = group_summaries_by_thread(vec![s]);
    assert_eq!(grouped.len(), 1);
    assert_eq!(grouped[0].thread_message_count, Some(1));
}

#[test]
fn add_untrusted_marker_always_sets_content_warning() {
    let mut payload = Json::Obj(vec![("account".to_string(), Json::Str("A".to_string()))]);
    add_untrusted_marker(&mut payload, &[]);
    let payload = value(&payload);
    assert_eq!(payload["content_warning"], UNTRUSTED_BODY_NOTICE);
    assert!(payload.get("body_parts_diverge").is_none());
    assert!(payload.get("body_parts_diverge_note").is_none());
}

#[test]
fn add_untrusted_marker_lists_diverging_uids_with_note() {
    let mut payload = Json::Obj(vec![("account".to_string(), Json::Str("A".to_string()))]);
    add_untrusted_marker(&mut payload, &[22, 33]);
    let payload = value(&payload);
    assert_eq!(payload["body_parts_diverge"], serde_json::Value::from(vec![22, 33]));
    assert!(
        payload["body_parts_diverge_note"]
            .as_str()
            .unwrap()
            .contains("cannot see")
    );
}

#[test]
fn add_untrusted_marker_ignores_non_object_payload() {
    let mut payload = Json::Arr(vec![
        Json::Str("not".to_string()),
        Json::Str("an".to_string()),
        Json::Str("object".to_string()),
    ]);
    add_untrusted_marker(&mut payload, &[1]);
    let payload = value(&payload);
    assert!(payload.is_array());
}
