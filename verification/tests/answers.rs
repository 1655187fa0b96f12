use imap_mcp_rs::email::{EmailAddress, EmailFull, EmailSummary};
use imap_mcp_rs::imap_client::folders::describe_folder;
use imap_mcp_rs::json::Json;
use imap_mcp_rs::tools::download::{
    download_answer, is_stale_download, pick_attachment, DownloadAttachmentRequest,
    MAX_DOWNLOAD_AGE_NANOS,
};
use imap_mcp_rs::tools::read::{
    get_email_answer, get_thread_answer, list_drafts_answer, list_emails_answer,
    list_folders_answer, plan_paging, uid_not_found_text, GetThreadRequest, ListDraftsRequest,
    ListEmailsRequest, ListFoldersRequest,
};
use imap_mcp_rs::tools::search::{
    check_offset, render_search_payload, ClientFilter, SearchEmailsRequest, SearchPayload,
    SearchRun,
};

fn value(j: &Json) -> serde_json::Value {
    serde_json::from_str(&j.to_text()).unwrap()
}

fn row(uid: u32, folder: &str, id: Option<&str>, date: &str) -> EmailSummary {
    EmailSummary {
        uid,
        folder: folder.to_string(),
        folder_display: None,
        message_id: id.map(str::to_string),
        in_reply_to: None,
        references: vec![],
        from: None,
        to: vec![],
        to_count: 0,
        cc_count: 0,
        subject: format!("s{uid}"),
        date: Some(date.to_string()),
        date_original: None,
        internal_date: None,
        flags: vec![],
        has_attachments: false,
        snippet: String::new(),
        thread_message_count: None,
    }
}

fn message(uid: u32, diverges: bool) -> EmailFull {
    EmailFull {
        uid,
        folder: "INBOX".to_string(),
        from: Some(EmailAddress {
            name: None,
            address: "a@b".to_string(),
        }),
        to: vec![],
        cc: vec![],
        subject: format!("s{uid}"),
        date: None,
        date_original: None,
        message_id: None,
        in_reply_to: None,
        references: vec![],
        flags: vec![],
        body_text: "text".to_string(),
        body_html: Some("<p>text</p>".to_string()),
        attachments: vec![],
        body_parts_diverge: diverges,
    }
}

fn list_request(limit: Option<u32>, grouping: bool) -> ListEmailsRequest {
    ListEmailsRequest {
        account: None,
        folder: "INBOX".to_string(),
        limit,
        offset: None,
        unread_only: None,
        group_by_thread: Some(grouping),
        compact: Some(true),
    }
}

fn search_request(folder: Option<&str>, offset: Option<u32>) -> SearchEmailsRequest {
    SearchEmailsRequest {
        account: None,
        folder: folder.map(str::to_string),
        text: None,
        text_any: None,
        text_all: None,
        from: None,
        from_any: None,
        from_all: None,
        to: None,
        subject: None,
        subject_all: None,
        since: None,
        before: None,
        is_read: None,
        unread_only: None,
        group_by_thread: None,
        is_flagged: None,
        is_answered: None,
        has_attachments: None,
        min_size: None,
        max_size: None,
        limit: None,
        offset,
        compact: None,
    }
}

fn thread_request(include_body: Option<bool>, max_messages: Option<u32>) -> GetThreadRequest {
    GetThreadRequest {
        account: None,
        folder: "INBOX".to_string(),
        uid: 1,
        strict: None,
        include_body,
        include_html: None,
        max_messages,
    }
}

#[test]
fn pages_are_bounded() {
    let p = plan_paging(None, None, false);
    assert_eq!((p.limit, p.offset, p.fetch_limit, p.limit_capped), (20, 0, 20, false));
    let p = plan_paging(Some(0), Some(4), true);
    assert_eq!((p.limit, p.offset, p.fetch_limit, p.limit_capped), (1, 4, 3, false));
    let p = plan_paging(Some(501), None, true);
    assert_eq!((p.limit, p.fetch_limit, p.limit_capped), (500, 500, true));
}

#[test]
fn folder_listings_tell_the_number_of_all() {
    let folders = vec![
        describe_folder("INBOX", 10, 2),
        describe_folder("Entw&APw-rfe", 3, 0),
    ];
    let req = ListFoldersRequest {
        account: None,
        prefix: Some("entwü".to_string()),
        unread_only: None,
    };
    let v = value(&list_folders_answer("A", folders, &req));
    assert_eq!(v["total"], 2);
    assert_eq!(v["returned"], 1);
    assert_eq!(v["folders"][0]["name"], "Entw&APw-rfe");
    assert_eq!(v["folders"][0]["role"], "drafts");
    assert_eq!(v["folders"][0]["display_name"], "Entwürfe");
}

#[test]
fn listings_tell_whether_there_is_more() {
    let rows = vec![row(2, "INBOX", None, "b"), row(1, "INBOX", None, "a")];
    let v = value(&list_emails_answer("A", &list_request(Some(2), false), rows.clone(), 9, 2));
    assert_eq!(v["has_more"], false);
    assert_eq!(v["total"], 9);
    assert!(v.get("limit_capped").is_none());
    let v = value(&list_emails_answer("A", &list_request(Some(900), false), rows, 9, 3));
    assert_eq!(v["has_more"], true);
    assert_eq!(v["limit"], 500);
    assert_eq!(v["limit_capped"], true);
}

#[test]
fn grouped_listings_tell_what_they_cut() {
    let rows = vec![
        row(3, "INBOX", Some("<c>"), "3"),
        row(2, "INBOX", Some("<b>"), "2"),
        row(1, "INBOX", Some("<a>"), "1"),
    ];
    let v = value(&list_emails_answer("A", &list_request(Some(2), true), rows, 3, 3));
    assert_eq!(v["returned"], 2);
    assert_eq!(v["threads_truncated_from"], 3);
    assert_eq!(v["has_more"], true);
    assert_eq!(v["emails"][0]["thread_message_count"], 1);
}

#[test]
fn draft_listings_count_the_folder() {
    let req = ListDraftsRequest {
        account: None,
        limit: Some(1),
        offset: Some(1),
        compact: Some(true),
    };
    let v = value(&list_drafts_answer("A", "Drafts", &req, &vec![row(1, "Drafts", None, "a")], 3));
    assert_eq!(v["has_more"], true);
    assert_eq!(v["drafts"][0]["uid"], 1);
    assert_eq!(v["folder"], "Drafts");
}

#[test]
fn single_messages_come_with_a_warning() {
    let v = value(&get_email_answer("A", message(5, true), None));
    assert_eq!(v["email"]["body_html"], serde_json::Value::Null);
    assert_eq!(v["body_parts_diverge"][0], 5);
    assert!(v["content_warning"].as_str().unwrap().contains("untrusted"));
    let v = value(&get_email_answer("A", message(5, false), Some(true)));
    assert_eq!(v["email"]["body_html"], "<p>text</p>");
    assert!(v.get("body_parts_diverge").is_none());
    assert_eq!(
        uid_not_found_text(7, "a\u{202E}b"),
        "Email with UID 7 not found in ab"
    );
}

#[test]
fn conversations_lose_their_oldest_messages_first() {
    let all = || vec![message(1, true), message(2, false), message(3, true)];
    let v = value(&get_thread_answer("A", all(), &thread_request(None, Some(2))));
    assert_eq!(v["message_count"], 2);
    assert_eq!(v["truncated_from"], 3);
    assert_eq!(v["subject"], "s2");
    assert_eq!(v["emails"][1]["uid"], 3);
    assert_eq!(v["body_parts_diverge"], serde_json::Value::from(vec![3]));

    let v = value(&get_thread_answer("A", all(), &thread_request(Some(false), None)));
    assert_eq!(v["message_count"], 3);
    assert!(v.get("truncated_from").is_none());
    assert!(v.get("content_warning").is_none());
    assert_eq!(v["emails"][0]["snippet"], "text");

    let v = value(&get_thread_answer("A", vec![], &thread_request(None, None)));
    assert_eq!(v["subject"], "");
    assert_eq!(v["message_count"], 0);
}

#[test]
fn offsets_need_a_folder() {
    assert!(check_offset(&search_request(None, Some(1))).is_err());
    assert!(check_offset(&search_request(None, Some(0))).is_ok());
    assert!(check_offset(&search_request(Some("INBOX"), Some(1))).is_ok());
}

#[test]
fn searches_everywhere_begin_with_the_inbox_and_give_each_message_once() {
    let names: Vec<String> = ["All", "inbox", "Sent"].iter().map(|s| s.to_string()).collect();
    let mut run = SearchRun::start(&None, &names);
    assert_eq!(run.folders, ["inbox", "All", "Sent"]);
    run.note_results(vec![row(1, "inbox", Some("<a>"), "1")], 1);
    run.note_results(vec![row(8, "All", Some("<a>"), "1"), row(9, "All", None, "2")], 2);
    assert_eq!(run.next_folder().map(String::as_str), Some("Sent"));
    run.note_failure("denied".to_string());
    assert!(run.next_folder().is_none());
    let (rows, matched) = run.finish(&ClientFilter::empty()).unwrap();
    let uids: Vec<u32> = rows.iter().map(|r| r.uid).collect();
    assert_eq!(uids, [1, 9]);
    assert_eq!(matched, 3);
}

#[test]
fn a_failed_search_of_one_folder_is_told() {
    let mut run = SearchRun::start(&Some("X".to_string()), &vec![]);
    run.note_failure("no such folder".to_string());
    assert_eq!(
        run.finish(&ClientFilter::empty()).unwrap_err(),
        "no such folder"
    );
}

#[test]
fn later_criteria_drop_rows() {
    let mut run = SearchRun::start(&Some("INBOX".to_string()), &vec![]);
    let mut with = row(2, "INBOX", None, "2");
    with.has_attachments = true;
    run.note_results(vec![row(1, "INBOX", None, "1"), with], 2);
    let mut filter = ClientFilter::empty();
    filter.has_attachments = Some(true);
    let (rows, _) = run.finish(&filter).unwrap();
    assert_eq!(rows.len(), 1);
    assert_eq!(rows[0].uid, 2);
}

#[test]
fn search_answers_begin_with_the_newest() {
    let p = SearchPayload {
        account: "A",
        server_matched: 0,
        offset: 0,
        limit: 2,
        limit_capped: true,
        group_by_thread: false,
        compact: true,
    };
    let rows = vec![
        row(1, "INBOX", None, "2026-01-01"),
        row(2, "INBOX", None, "2026-01-03"),
        row(3, "INBOX", None, "2026-01-02"),
        row(4, "INBOX", None, "2026-01-03"),
    ];
    let v = value(&render_search_payload(rows, &p));
    assert_eq!(v["emails"][0]["uid"], 2);
    assert_eq!(v["emails"][1]["uid"], 4);
    assert_eq!(v["returned"], 2);
    assert_eq!(v["matched"], 2);
    assert_eq!(v["has_more"], true);
    assert_eq!(v["limit_capped"], true);
}

const MAIL: &str = "From: a@b\r\nMIME-Version: 1.0\r\n\
    Content-Type: multipart/mixed; boundary=\"B\"\r\n\r\n\
    --B\r\nContent-Type: text/plain\r\n\r\nhello\r\n\
    --B\r\nContent-Type: application/pdf\r\nContent-Transfer-Encoding: base64\r\n\
    Content-Disposition: attachment; filename=\"r.pdf\"\r\n\r\nJVBERg==\r\n\
    --B--\r\n";

fn download(filename: Option<&str>, index: Option<usize>) -> DownloadAttachmentRequest {
    DownloadAttachmentRequest {
        account: None,
        folder: "INBOX".to_string(),
        uid: 12,
        filename: filename.map(str::to_string),
        index,
    }
}

#[test]
fn attachments_are_taken_out_decoded() {
    let a = pick_attachment(MAIL.as_bytes(), &download(Some("r.pdf"), None)).unwrap();
    assert_eq!(a.contents, b"%PDF");
    assert_eq!(a.content_type, "application/pdf");
    assert_eq!(
        download_answer("A", "/d/r.pdf", &a).to_text(),
        r#"{"account":"A","saved_to":"/d/r.pdf","filename":"r.pdf","index":0,"size":4,"content_type":"application/pdf"}"#
    );
}

#[test]
fn missing_attachments_are_told_with_the_message() {
    let err = pick_attachment(MAIL.as_bytes(), &download(None, Some(3))).unwrap_err();
    assert!(err.starts_with("Attachment index 3 is out of range"), "{err}");
    assert!(err.ends_with("(email UID 12)"), "{err}");
    assert_eq!(
        pick_attachment(b"", &download(None, Some(0))).unwrap_err(),
        "Failed to parse email"
    );
}

#[test]
fn ambiguous_names_list_their_positions() {
    let twice = MAIL.replace(
        "--B--",
        "--B\r\nContent-Type: application/pdf\r\n\
         Content-Disposition: attachment; filename=\"r.pdf\"\r\n\r\nx\r\n--B--",
    );
    let err = pick_attachment(twice.as_bytes(), &download(Some("r.pdf"), None)).unwrap_err();
    assert!(err.contains("it matches indices [0, 1]"), "{err}");
}

#[test]
fn saved_attachments_are_kept_for_a_week() {
    assert!(!is_stale_download(false, MAX_DOWNLOAD_AGE_NANOS));
    assert!(is_stale_download(false, MAX_DOWNLOAD_AGE_NANOS + 1));
    assert!(!is_stale_download(true, MAX_DOWNLOAD_AGE_NANOS + 1));
}
