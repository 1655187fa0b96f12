use imap_mcp_rs::email::EmailSummary;
use imap_mcp_rs::html::strip_html;
use imap_mcp_rs::imap_client::removal::deletion_target;
use imap_mcp_rs::imap_client::util::{clean_imap_error, is_retryable_error};
use imap_mcp_rs::json::{Json, Members};
use imap_mcp_rs::reauth::{pkce_challenge, pkce_from, pkce_pair};
use imap_mcp_rs::time::{neighbour_day_of, zone_offset, zone_time, LocalTime, Zone};
use imap_mcp_rs::tools::bounds::parse_time_bound;
use imap_mcp_rs::tools::draft::attachments::{check_cid_markers, InlineImage};
use imap_mcp_rs::tools::draft::compose::Stamp;
use imap_mcp_rs::tools::draft::saving::{DraftSaving, SavingAction, SavingEvent};
use imap_mcp_rs::tools::draft::{
    check_email, check_forward, check_recipients, DraftEmailRequest, DraftForwardRequest,
};
use imap_mcp_rs::tools::threads::group_summaries_by_thread;

const MESSAGE: &[u8] = b"Message-ID: <new@h>\r\nSubject: s\r\n\r\nbody";
const LOCATE: &str = "HEADER Message-ID \"new@h\"";

fn answer() -> Json {
    let mut m = Members::new();
    m.put_str("status", "ok");
    m.done()
}

#[test]
fn the_old_draft_goes_last() {
    let mut saving = DraftSaving::start(MESSAGE, Some(7));
    assert!(matches!(saving.action(), SavingAction::Store));
    saving.advance(SavingEvent::Stored);
    assert!(matches!(saving.action(), SavingAction::Locate(q) if q == LOCATE));
    saving.advance(SavingEvent::Found(vec![9, 12, 11]));
    assert!(matches!(saving.action(), SavingAction::Delete(7)));
    saving.advance(SavingEvent::Deleted(vec![7]));
    assert!(matches!(saving.action(), SavingAction::Finish));
    assert_eq!(
        saving.finish(answer()),
        "{\"status\":\"ok\",\"uid\":12,\"replaced_uid\":7}"
    );
}

#[test]
fn a_draft_that_cannot_be_stored_deletes_nothing() {
    let mut saving = DraftSaving::start(MESSAGE, Some(7));
    saving.advance(SavingEvent::Failed("quota".to_string()));
    assert!(matches!(saving.action(), SavingAction::Finish));
    assert_eq!(
        saving.finish(answer()),
        "{\"error\":\"Failed to save draft: quota\",\"retryable\":false}"
    );
}

#[test]
fn a_stored_draft_is_saved_though_it_is_not_found() {
    let mut saving = DraftSaving::start(MESSAGE, None);
    saving.advance(SavingEvent::Stored);
    saving.advance(SavingEvent::Failed("search refused".to_string()));
    assert!(matches!(saving.action(), SavingAction::Finish));
    assert_eq!(saving.finish(answer()), "{\"status\":\"ok\"}");

    let mut saving = DraftSaving::start(b"Subject: no id\r\n\r\nbody", Some(3));
    saving.advance(SavingEvent::Stored);
    assert!(matches!(saving.action(), SavingAction::Delete(3)));
    saving.advance(SavingEvent::Failed("busy".to_string()));
    assert_eq!(
        saving.finish(answer()),
        "{\"status\":\"ok\",\"replace_warning\":\"New draft saved, but deleting draft 3 failed: busy — the old version is still in the Drafts folder\"}"
    );
}

#[test]
fn messages_need_a_recipient() {
    let none: Vec<String> = vec![];
    assert_eq!(
        check_recipients(&none),
        Err("At least one recipient is required".to_string())
    );
    assert_eq!(check_recipients(&vec!["a@b".to_string()]), Ok(()));
    let forward = |to: Vec<String>| DraftForwardRequest {
        account: None,
        folder: "INBOX".to_string(),
        uid: 1,
        to,
        body: None,
        cc: None,
        attachments: None,
        replaces_uid: None,
    };
    assert_eq!(
        check_forward(false, &forward(vec![])),
        Err("At least one recipient is required".to_string())
    );
    assert_eq!(
        check_forward(true, &forward(vec![])),
        Err("Account is configured as read-only".to_string())
    );
    assert_eq!(check_forward(false, &forward(vec!["a@b".to_string()])), Ok(()));
    let fresh = DraftEmailRequest {
        account: None,
        to: vec![],
        subject: "s".to_string(),
        body: "b".to_string(),
        cc: Some(vec!["c@d".to_string()]),
        bcc: None,
        attachments: None,
        replaces_uid: None,
    };
    assert_eq!(
        check_email(false, &fresh),
        Err("At least one recipient is required".to_string())
    );
}

#[test]
fn deleted_messages_go_to_the_trash_unless_for_good() {
    let found = || Some("Papierkorb".to_string());
    assert_eq!(deletion_target(true, found()), None);
    assert_eq!(deletion_target(false, found()), found());
    assert_eq!(deletion_target(false, None), Some("Trash".to_string()));
}

fn summary(uid: u32, date: &str, id: Option<&str>, parent: Option<&str>) -> EmailSummary {
    EmailSummary {
        uid,
        folder: "INBOX".to_string(),
        folder_display: None,
        message_id: id.map(str::to_string),
        in_reply_to: parent.map(str::to_string),
        references: vec![],
        from: None,
        to: vec![],
        to_count: 0,
        cc_count: 0,
        subject: "s".to_string(),
        date: Some(date.to_string()),
        date_original: None,
        internal_date: None,
        flags: vec![],
        has_attachments: false,
        snippet: String::new(),
        thread_message_count: None,
    }
}

#[test]
fn a_row_without_an_id_is_not_merged_by_its_reply() {
    let rows = group_summaries_by_thread(vec![
        summary(1, "2026-01-01T10:00:00Z", Some("<m1>"), None),
        summary(2, "2026-01-02T10:00:00Z", None, Some("<m1>")),
    ]);
    let found: Vec<(u32, Option<usize>)> =
        rows.iter().map(|r| (r.uid, r.thread_message_count)).collect();
    assert_eq!(found, vec![(1, Some(1)), (2, Some(1))]);
}

fn said(info: &str) -> String {
    clean_imap_error(&format!("no response: code: None, info: Some(\"{info}\")"))
}

#[test]
fn only_a_leading_code_and_trailing_notes_are_cut() {
    assert_eq!(
        said("Unknown Mailbox: [Gmail] Stuff (Failure)"),
        "Unknown Mailbox: [Gmail] Stuff"
    );
    assert_eq!(said("[TRYCREATE] [Gmail] Stuff"), "[Gmail] Stuff");
    assert_eq!(said("[Gmail]/All Mail is gone"), "[Gmail]/All Mail is gone");
    assert_eq!(said("No X (now in selected state)"), "No X");
    assert_eq!(said("No X (Failure) (now in authenticated state)"), "No X");
    assert_eq!(
        said("No (now in authenticated state) mailbox"),
        "No (now in authenticated state) mailbox"
    );
}

#[test]
fn retrying_ignores_case() {
    for msg in ["Connection Reset by peer", "[INUSE] Mailbox is in use", "no such folder"] {
        assert_eq!(
            is_retryable_error(msg),
            is_retryable_error(&msg.to_ascii_uppercase())
        );
    }
    assert!(is_retryable_error("[INUSE] LOCKED"));
    assert!(!is_retryable_error("Unknown Mailbox: Temporary Projects"));
}

#[test]
fn drawn_bytes_make_the_verifier() {
    let (verifier, challenge) = pkce_from(Some(vec![0u8; 32])).unwrap();
    assert_eq!(verifier, "A".repeat(43));
    assert_eq!(challenge, pkce_challenge(&verifier));
    assert_eq!(pkce_from(None), Err("CSPRNG unavailable".to_string()));
    assert_ne!(pkce_pair().unwrap().0, pkce_pair().unwrap().0);
}

#[test]
fn stamps_carry_a_date_line() {
    let date = Stamp::now().date;
    let bytes = date.as_bytes();
    assert!(bytes.len() >= 31, "{date}");
    assert_eq!((bytes[3], bytes[4], bytes[7], bytes[11]), (b',', b' ', b' ', b' '));
    assert!(bytes[5].is_ascii_digit() && bytes[0].is_ascii_alphabetic());
}

#[test]
fn local_times_are_read() {
    let noon = match zone_time("2026-08-01T12:00:00", Zone::Local) {
        LocalTime::At(s) => s,
        other => panic!("{other:?}"),
    };
    assert!((noon - 1_785_585_600).abs() < 93_600);
    assert_eq!(zone_time("soon", Zone::Local), LocalTime::Unparseable);
    assert!(zone_offset(noon, Zone::Local).abs() < 93_600);
    assert!(parse_time_bound("2026-08-01T12:00", true, Zone::Local).is_ok());
}

#[test]
fn both_directions_of_a_bound_share_their_second() {
    let since = parse_time_bound("2026-08-01T12:00+02:00", true, Zone::Local).unwrap();
    let before = parse_time_bound("2026-08-01T12:00+02:00", false, Zone::Local).unwrap();
    assert_eq!(since.unix, Some(1_785_578_400));
    assert_eq!(since.unix, before.unix);
    assert_eq!(since.imap_date, "31-Jul-2026");
    assert_eq!(before.imap_date, "2-Aug-2026");
}

#[test]
fn stripped_html_stays_stripped() {
    let html = " <p>a\t<b> b</b>\n</p>c <br> ";
    let text = strip_html(html);
    assert_eq!(text, "a b c");
    assert_eq!(strip_html(&text), text);
}

#[test]
fn malformed_markers_are_told() {
    let images: Vec<InlineImage> = vec![];
    let notice = check_cid_markers("first\nsee ![x](cid:Bild 1) here\nlast", &images)
        .unwrap()
        .unwrap();
    assert!(notice.contains("\"see ![x](cid:Bild 1) here\""), "{notice}");
    assert_eq!(check_cid_markers("no marker", &images), Ok(None));
}

#[test]
fn texts_are_escaped_as_json() {
    assert_eq!(
        Json::Str("a\"b\\c\n\u{1}\u{1f}\u{7f}é/".to_string()).to_text(),
        "\"a\\\"b\\\\c\\n\\u0001\\u001f\u{7f}é/\""
    );
}

#[test]
fn days_lead_to_their_neighbours() {
    assert_eq!(neighbour_day_of(2024, 3, 1, true), Some((2024, 2, 29)));
    assert_eq!(neighbour_day_of(1900, 3, 1, true), Some((1900, 2, 28)));
    assert_eq!(neighbour_day_of(2023, 12, 31, false), Some((2024, 1, 1)));
    assert_eq!(neighbour_day_of(0, 2, 28, false), Some((0, 2, 29)));
    assert_eq!(neighbour_day_of(-9999, 1, 1, true), None);
    assert_eq!(neighbour_day_of(9999, 12, 31, false), None);
    assert_eq!(neighbour_day_of(2023, 2, 29, false), None);
}

#[test]
fn case_of_other_letters_does_not_matter() {
    for msg in ["Σ: CONNECTION RESET Σ", "Straße ΣΑΣ timed out", "ΑΣ no such folder"] {
        assert_eq!(
            is_retryable_error(msg),
            is_retryable_error(&msg.to_ascii_uppercase())
        );
        assert_eq!(
            is_retryable_error(msg),
            is_retryable_error(&msg.to_ascii_lowercase())
        );
    }
    assert!(is_retryable_error("Σ: CONNECTION RESET Σ"));
}

#[test]
fn tokens_tell_their_version() {
    let token = Stamp::now().token;
    assert_eq!(token.len(), 32);
    assert_eq!(token.as_bytes()[12], b'4');
    assert!(matches!(token.as_bytes()[16], b'8' | b'9' | b'a' | b'b'), "{token}");
}
