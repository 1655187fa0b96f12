use imap_mcp_rs::config::{AccountConfig, AuthMethod};
use imap_mcp_rs::email::{parse_email, parse_email_no_html, summarize, EmailFull};
use imap_mcp_rs::imap_client::util::strip_email_prefixes;
use imap_mcp_rs::mail::{read_attachment, read_mail};
use imap_mcp_rs::time::Zone;
use imap_mcp_rs::tools::draft::attachments::{
    is_within, unreadable_file_text, unresolvable_path_text, validate_attachment_path,
    AttachmentBatch, AttachmentSpec, PreparedAttachments,
};
use imap_mcp_rs::tools::draft::compose::{
    clean_recipients, compose_email, compose_forward, compose_reply, subject_of_forward,
    subject_of_reply, DraftAccount, Stamp,
};
use imap_mcp_rs::tools::draft::markers::{is_valid_cid, scan_cid_markers};
use imap_mcp_rs::tools::draft::render::{Locale, QuotedContent};
use imap_mcp_rs::tools::draft::render::{prepare_quoted_content, sanitize_quoted_html};
use imap_mcp_rs::tools::draft::{
    check_draft, check_draft_deletion, deletion_answer, email_answer, email_not_found_text,
    finish_draft, forward_answer, plan_reply, reply_answer, save_failed_text, write_draft,
    DraftEmailRequest, DraftKind,
};

fn account() -> AccountConfig {
    AccountConfig {
        name: "Work".to_string(),
        host: "mail.example.org".to_string(),
        port: 993,
        username: "me@example.com".to_string(),
        email: None,
        display_name: Some("Me".to_string()),
        signature_html: Some("<p>Regards</p>".to_string()),
        signature_text: None,
        locale: Some("en".to_string()),
        read_only: false,
        allow_delete: true,
        allow_move: true,
        accept_invalid_certs: false,
        allow_unsafe_expunge: false,
        allowed_folders: None,
        auth_method: AuthMethod::Password,
        password: None,
        oauth2: None,
    }
}

fn draft_account() -> DraftAccount {
    DraftAccount::from_config(&account())
}

fn original() -> EmailFull {
    let raw = b"From: Ann <ann@x.org>\r\nTo: me@example.com, Bob <bob@x.org>\r\n\
        Subject: Plan\r\nMessage-ID: <m1@x.org>\r\nReferences: <m0@x.org>\r\n\
        Date: Thu, 01 Jan 2026 10:00:00 +0200\r\n\
        Content-Type: text/plain; charset=utf-8\r\n\r\nhello there\r\n";
    parse_email(7, "INBOX", raw, vec!["\\Seen".to_string()])
}

fn stamp() -> Stamp {
    Stamp {
        token: "tok".to_string(),
        date: "Thu, 1 Jan 2026 10:00:00 +0000".to_string(),
    }
}

fn nothing() -> PreparedAttachments {
    AttachmentBatch::new().prepared
}

fn plain_spec(path: &str) -> AttachmentSpec {
    AttachmentSpec::Path(path.to_string())
}

fn value(text: &str) -> serde_json::Value {
    serde_json::from_str(text).unwrap()
}

#[test]
fn messages_are_read_field_by_field() {
    let m = original();
    assert_eq!(m.from.as_ref().unwrap().name.as_deref(), Some("Ann"));
    assert_eq!(m.from.as_ref().unwrap().address, "ann@x.org");
    assert_eq!(m.to.len(), 2);
    assert_eq!(m.to[1].address, "bob@x.org");
    assert_eq!(m.subject, "Plan");
    assert_eq!(m.message_id.as_deref(), Some("<m1@x.org>"));
    assert_eq!(m.references, ["<m0@x.org>"]);
    assert_eq!(m.date.as_deref(), Some("2026-01-01T08:00:00Z"));
    assert_eq!(m.body_text.trim(), "hello there");
    assert_eq!(m.flags, ["\\Seen"]);
    let row = summarize(m, 100);
    assert_eq!(row.uid, 7);
    assert_eq!(row.to_count, 2);
    assert_eq!(row.snippet, "hello there");
    assert!(!row.has_attachments);
}

#[test]
fn html_is_read_only_where_it_is_wanted() {
    let raw = b"From: a@b.c\r\nContent-Type: text/html\r\n\r\n<p>Hi <b>you</b></p>";
    assert!(parse_email(1, "F", raw, vec![]).body_html.is_some());
    assert!(parse_email_no_html(1, "F", raw, vec![]).body_html.is_none());
    assert!(read_mail(b"", true).is_none());
}

#[test]
fn replies_go_back_with_their_thread() {
    let a = draft_account();
    let o = original();
    let plan = plan_reply(&o, &a, Some(true), &Some(vec!["c@x.org".to_string()])).unwrap();
    assert_eq!(plan.subject, "Re: Plan");
    let c = compose_reply(
        &o,
        "Fine.",
        &a,
        &plan.to,
        &plan.cc,
        &plan.subject,
        nothing(),
        &stamp(),
        Zone::Fixed(0),
    );
    let plain = c.plain.clone();
    assert!(plain.starts_with("Fine."), "{plain}");
    assert!(plain.contains("Regards"), "{plain}");
    assert!(plain.contains("hello there"), "{plain}");
    let bytes = write_draft(c).unwrap();
    let back = parse_email(1, "Drafts", &bytes, vec![]);
    assert_eq!(back.subject, "Re: Plan");
    assert_eq!(back.from.as_ref().unwrap().address, "me@example.com");
    assert_eq!(back.from.as_ref().unwrap().name.as_deref(), Some("Me"));
    let to: Vec<&str> = back.to.iter().map(|r| r.address.as_str()).collect();
    assert!(to.contains(&"ann@x.org"), "{to:?}");
    let everyone: Vec<&str> = back
        .to
        .iter()
        .chain(back.cc.iter())
        .map(|r| r.address.as_str())
        .collect();
    assert!(everyone.contains(&"bob@x.org") && everyone.contains(&"c@x.org"));
    assert!(!everyone.contains(&"me@example.com"), "{everyone:?}");
    assert_eq!(back.in_reply_to.as_deref(), Some("<m1@x.org>"));
    assert_eq!(back.references, ["<m0@x.org>", "<m1@x.org>"]);
    assert!(back.message_id.as_deref().unwrap().ends_with("@example.com>"));
    assert!(back.body_html.unwrap().contains("hello there"));
    let answer = reply_answer(&a, &plan, &plain, false, &None);
    let v = value(&answer.to_text());
    assert_eq!(v["status"], "ok");
    assert_eq!(v["account"], "Work");
    assert_eq!(v["from"], "me@example.com");
    assert!(v["threading_warning"].is_string());
}

#[test]
fn replies_need_a_sender() {
    let mut o = original();
    o.from = None;
    let err = match plan_reply(&o, &draft_account(), None, &None) {
        Err(e) => e,
        Ok(_) => panic!("accepted"),
    };
    assert_eq!(err, "Cannot reply: original email has no sender address");
}

#[test]
fn forwarded_messages_are_quoted() {
    let a = draft_account();
    let o = original();
    let subject = subject_of_forward(&o.subject, a.locale);
    assert_eq!(subject, "Fwd: Plan");
    let to = vec!["z@x.org".to_string()];
    let c = compose_forward(
        &o,
        Some("See below"),
        &a,
        &to,
        None,
        &subject,
        nothing(),
        &stamp(),
        Zone::Fixed(0),
    );
    let v = value(&forward_answer(&a, &to, &None, &subject, &c.plain, &None).to_text());
    assert_eq!(v["to"][0], "z@x.org");
    assert_eq!(v["cc"].as_array().unwrap().len(), 0);
    let back = parse_email(1, "Drafts", &write_draft(c).unwrap(), vec![]);
    assert_eq!(back.subject, "Fwd: Plan");
    assert!(back.body_text.contains("hello there"));
    assert!(back.in_reply_to.is_none());
}

#[test]
fn new_messages_carry_their_files() {
    let a = draft_account();
    let mut batch = AttachmentBatch::new();
    batch
        .add_file(&plain_spec("/d/report.pdf"), b"%PDF-data".to_vec())
        .unwrap();
    let req = DraftEmailRequest {
        account: None,
        to: vec!["z@x.org".to_string()],
        subject: "Grüße".to_string(),
        body: "Hi\u{00fc}".to_string(),
        cc: None,
        bcc: Some(vec!["h@x.org".to_string()]),
        attachments: None,
        replaces_uid: None,
    };
    let bcc = req.bcc.clone().unwrap();
    let c = compose_email(
        &req.body,
        &a,
        &req.to,
        None,
        Some(&bcc),
        &req.subject,
        batch.prepared,
        &stamp(),
    );
    let notice = Some("careful".to_string());
    let v = value(&email_answer(&a, &req, &c.plain, &notice).to_text());
    assert_eq!(v["bcc"][0], "h@x.org");
    assert_eq!(v["inline_warning"], "careful");
    let bytes = write_draft(c).unwrap();
    let back = parse_email(1, "Drafts", &bytes, vec![]);
    assert_eq!(back.subject, "Grüße");
    assert!(back.body_text.starts_with("Hiü"));
    assert_eq!(back.attachments.len(), 1);
    assert_eq!(back.attachments[0].filename, "report.pdf");
    assert_eq!(back.attachments[0].content_type, "application/pdf");
    assert_eq!(read_attachment(&bytes, 0).unwrap(), b"%PDF-data");
    assert!(read_attachment(&bytes, 1).is_none());
}

#[test]
fn every_draft_is_stamped_anew() {
    let a = Stamp::now();
    let b = Stamp::now();
    assert_ne!(a.token, b.token);
    assert!(a.date.is_ascii() && !a.date.is_empty());
}

#[test]
fn large_bodies_and_read_only_accounts_are_refused() {
    let long = "x".repeat(10_485_761);
    assert_eq!(
        check_draft(DraftKind::Fresh, false, Some(&long)).unwrap_err(),
        "Draft body exceeds 10485760-byte cap"
    );
    assert_eq!(
        check_draft(DraftKind::Reply, false, Some(&long)).unwrap_err(),
        "Reply body exceeds 10485760-byte cap"
    );
    assert_eq!(
        check_draft(DraftKind::Forward, true, None).unwrap_err(),
        "Account is configured as read-only"
    );
    assert!(check_draft(DraftKind::Forward, false, None).is_ok());
}

#[test]
fn few_drafts_are_deleted_at_a_time() {
    assert!(check_draft_deletion(&(0..25).collect()).is_ok());
    assert!(check_draft_deletion(&(0..26).collect()).is_err());
    assert_eq!(
        deletion_answer("A", &vec![1]),
        r#"{"account":"A","succeeded":[1]}"#
    );
}

#[test]
fn answers_end_with_what_was_saved_and_replaced() {
    let base = || forward_answer(&draft_account(), &vec![], &None, "s", "p", &None);
    let v = value(&finish_draft(base(), Some(4), &Some((3, Ok(vec![3])))));
    assert_eq!(v["uid"], 4);
    assert_eq!(v["replaced_uid"], 3);
    let v = value(&finish_draft(base(), None, &Some((3, Err("no".to_string())))));
    assert!(v.get("uid").is_none());
    assert!(v["replace_warning"].as_str().unwrap().contains("failed: no"));
    assert_eq!(
        email_not_found_text(3, "In\u{7}box"),
        "Email 3 not found in Inbox"
    );
    assert_eq!(save_failed_text("x"), "Failed to save draft: x");
}

#[test]
fn files_must_lie_in_an_allowed_directory() {
    let p = |s: &str| s.as_bytes().to_vec();
    assert!(is_within(&p("/a/b"), &p("/a")));
    assert!(is_within(&p("/a"), &p("/a")));
    assert!(!is_within(&p("/ab"), &p("/a")));
    let err = validate_attachment_path(
        &p("/etc/x"),
        &vec![p("/a")],
        "/etc/x",
        &vec!["/a".to_string()],
    )
    .unwrap_err();
    assert_eq!(
        err,
        "Attachment path \"/etc/x\" is not within any allowed directory. Configured allowed_attachment_dirs: [\"/a\"]"
    );
    assert_eq!(
        unresolvable_path_text("p", "r"),
        "Cannot resolve attachment path \"p\": r"
    );
    assert_eq!(
        unreadable_file_text("p", "r"),
        "Failed to read attachment \"p\": r"
    );
}

#[test]
fn files_are_capped_singly_and_together() {
    let mut batch = AttachmentBatch::new();
    let err = batch
        .place(&plain_spec("/big"), None, None, vec![0; 52_428_801])
        .unwrap_err();
    assert!(err.contains("exceeds the 52428800-byte per-file cap"), "{err}");
    for _ in 0..2 {
        batch
            .place(&plain_spec("/f"), Some("f".to_string()), None, vec![0; 52_428_800])
            .unwrap();
    }
    let err = batch
        .place(&plain_spec("/g"), None, None, vec![0])
        .unwrap_err();
    assert_eq!(
        err,
        "Total attachment size exceeds the 104857600-byte aggregate cap"
    );
}

#[test]
fn marks_do_not_stack() {
    let once = subject_of_reply("Plan", Locale::De);
    assert_eq!(once, "AW: Plan");
    assert_eq!(subject_of_reply(&once, Locale::De), once);
    let once = subject_of_forward("Plan", Locale::De);
    assert_eq!(subject_of_forward(&once, Locale::De), once);
    assert_eq!(strip_email_prefixes("Re: AW: Plan"), "Plan");
}

#[test]
fn recipients_lose_what_would_end_their_line() {
    let l = vec!["a@b\r\nBcc: x@y".to_string()];
    let r = clean_recipients(Some(&l));
    assert_eq!(r.len(), 1);
    assert!(!r[0].1.contains('\n') && !r[0].1.contains('\r'));
}

#[test]
fn quoted_html_is_cleaned() {
    let out = sanitize_quoted_html("<b>x</b><script>y()</script>");
    assert_eq!(out, "<b>x</b>");
    assert!(matches!(
        prepare_quoted_content(None, "a<b"),
        QuotedContent::Plain(_)
    ));
}

#[test]
fn markers_are_found_with_their_text() {
    assert!(is_valid_cid("logo-1"));
    assert!(!is_valid_cid("a b"));
    let m = scan_cid_markers("x ![Logo](cid:logo-1) y");
    assert_eq!(m.len(), 1);
    assert_eq!(m[0].cid, "logo-1");
    assert_eq!(m[0].alt, "Logo");
}
