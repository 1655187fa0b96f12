use imap_mcp_rs::email::{EmailAddress, EmailFull};
use imap_mcp_rs::imap_client::util::{has_forward_prefix, has_reply_prefix};
use imap_mcp_rs::json::Json;
use imap_mcp_rs::tools::draft::attachments::{
    check_cid_markers, derive_cid, mime_type_from_extension, sanitize_header_value,
    AttachmentBatch, AttachmentSpec, InlineImage, PreparedAttachments,
};
use imap_mcp_rs::tools::draft::compose::{
    addresses_only, apply_bodies_and_attachments, apply_threading_headers, build_reply_recipients,
};
use imap_mcp_rs::tools::draft::markers::is_cid_char;
use imap_mcp_rs::tools::draft::{note_replacement, truncate};
use mail_builder::MessageBuilder;

fn value(j: &Json) -> serde_json::Value {
    serde_json::from_str(&j.to_text()).unwrap()
}

fn addr(email: &str) -> EmailAddress {
    EmailAddress {
        name: None,
        address: email.to_string(),
    }
}

#[test]
fn note_replacement_reports_the_removed_uid() {
    let mut r = Json::Obj(vec![("status".to_string(), Json::Str("ok".to_string()))]);
    note_replacement(&mut r, 812, Ok(&[812]));
    let r = value(&r);
    assert_eq!(r["replaced_uid"], 812);
    assert!(r.get("replace_warning").is_none());
}

#[test]
fn note_replacement_warns_when_the_uid_was_not_removed() {
    let mut r = Json::Obj(vec![("status".to_string(), Json::Str("ok".to_string()))]);
    note_replacement(&mut r, 812, Ok(&[]));
    let r = value(&r);
    assert!(r.get("replaced_uid").is_none());
    let w = r["replace_warning"].as_str().unwrap();
    assert!(w.contains("812") && w.contains("not deleted"));
}

#[test]
fn note_replacement_warns_and_keeps_the_error_text() {
    let msg = "Unknown Mailbox: Drafts".to_string();
    let mut r = Json::Obj(vec![("status".to_string(), Json::Str("ok".to_string()))]);
    note_replacement(&mut r, 7, Err(&msg));
    let r = value(&r);
    assert!(r.get("replaced_uid").is_none());
    let w = r["replace_warning"].as_str().unwrap();
    assert!(w.contains("Unknown Mailbox"), "error text dropped: {w}");
    assert!(w.starts_with("New draft saved"));
}

fn email(subject: &str, from: Option<&str>, to: Vec<&str>, cc: Vec<&str>) -> EmailFull {
    EmailFull {
        uid: 1,
        folder: "INBOX".to_string(),
        from: from.map(addr),
        to: to.into_iter().map(addr).collect(),
        cc: cc.into_iter().map(addr).collect(),
        subject: subject.to_string(),
        date: None,
        date_original: None,
        message_id: None,
        in_reply_to: None,
        references: vec![],
        flags: vec![],
        body_text: String::new(),
        body_html: None,
        attachments: vec![],
        body_parts_diverge: false,
    }
}

#[test]
fn has_reply_prefix_recognises_de_and_en() {
    assert!(has_reply_prefix("Re: hi"));
    assert!(has_reply_prefix("RE: hi"));
    assert!(has_reply_prefix("re: hi"));
    assert!(has_reply_prefix("AW: hi"));
    assert!(has_reply_prefix("aw: hi"));
    assert!(has_reply_prefix("Antw: hi"));
    assert!(has_reply_prefix("Antwort: hi"));
    assert!(has_reply_prefix("  Re: trimmed leading"));
}

#[test]
fn has_reply_prefix_rejects_unrelated() {
    assert!(!has_reply_prefix("Hello"));
    assert!(!has_reply_prefix("Reply"));
    assert!(!has_reply_prefix(""));
    assert!(!has_reply_prefix("Read this"));
}

#[test]
fn has_forward_prefix_recognises_de_and_en() {
    assert!(has_forward_prefix("Fwd: hi"));
    assert!(has_forward_prefix("FWD: hi"));
    assert!(has_forward_prefix("fwd: hi"));
    assert!(has_forward_prefix("WG: hi"));
    assert!(has_forward_prefix("wg: hi"));
}

#[test]
fn sanitize_header_value_strips_control_chars() {
    assert_eq!(
        sanitize_header_value("good@example.com\r\nBcc: evil@evil.com"),
        "good@example.comBcc: evil@evil.com"
    );
    assert_eq!(sanitize_header_value("a\nb"), "ab");
    assert_eq!(sanitize_header_value("a\rb"), "ab");
    assert_eq!(sanitize_header_value("a\x00b"), "ab");
    assert_eq!(sanitize_header_value("a\tb"), "ab");
    assert_eq!(sanitize_header_value("clean text"), "clean text");
    assert_eq!(sanitize_header_value("ünïcödë"), "ünïcödë");
}

#[test]
fn truncate_short_string_unchanged() {
    assert_eq!(truncate("hello", 10), "hello");
    assert_eq!(truncate("", 10), "");
}

#[test]
fn truncate_long_string_appends_ellipsis() {
    assert_eq!(truncate("hello world", 5), "hello...");
}

#[test]
fn truncate_respects_utf8_boundaries() {
    let result = truncate("äöü extra", 3);
    assert!(result.starts_with("ä"));
    assert!(result.ends_with("..."));
}

#[test]
fn build_reply_recipients_simple() {
    let original = email(
        "Test",
        Some("alice@example.com"),
        vec!["me@example.com"],
        vec![],
    );
    let (to, cc) = build_reply_recipients(&original, false, "me@example.com", None).unwrap();
    assert_eq!(addresses_only(&to), vec!["alice@example.com"]);
    assert!(cc.is_empty());
}

#[test]
fn build_reply_recipients_no_sender_errors() {
    let original = email("Test", None, vec!["me@example.com"], vec![]);
    let result = build_reply_recipients(&original, false, "me@example.com", None);
    assert!(result.is_err());
}

#[test]
fn build_reply_recipients_reply_all_excludes_self() {
    let original = email(
        "Test",
        Some("alice@example.com"),
        vec!["me@example.com", "bob@example.com"],
        vec!["carol@example.com", "ME@example.COM"],
    );
    let (to, cc) = build_reply_recipients(&original, true, "me@example.com", None).unwrap();
    assert_eq!(
        addresses_only(&to),
        vec!["alice@example.com", "bob@example.com"]
    );
    assert_eq!(addresses_only(&cc), vec!["carol@example.com"]);
}

#[test]
fn build_reply_recipients_extra_cc_appended() {
    let original = email("Test", Some("alice@example.com"), vec![], vec![]);
    let extra = vec!["dave@example.com".to_string()];
    let (_to, cc) =
        build_reply_recipients(&original, false, "me@example.com", Some(&extra)).unwrap();
    assert_eq!(addresses_only(&cc), vec!["dave@example.com"]);
}

#[test]
fn build_reply_recipients_sanitizes_addresses() {
    let original = email("Test", Some("alice\r\nBcc: evil@evil.com"), vec![], vec![]);
    let (to, _) = build_reply_recipients(&original, false, "me@example.com", None).unwrap();
    assert!(!to[0].1.contains('\r'));
    assert!(!to[0].1.contains('\n'));
}

#[test]
fn apply_threading_headers_with_message_id() {
    let mut original = email("Test", Some("a@b.com"), vec![], vec![]);
    original.message_id = Some("<msg-1@example.com>".to_string());
    original.references = vec!["<ref-1@example.com>".to_string()];
    let builder = MessageBuilder::new();
    let (_builder, threaded) = apply_threading_headers(builder, &original);
    assert!(threaded);
}

#[test]
fn apply_threading_headers_without_message_id_returns_false() {
    let original = email("Test", Some("a@b.com"), vec![], vec![]);
    let builder = MessageBuilder::new();
    let (_builder, threaded) = apply_threading_headers(builder, &original);
    assert!(!threaded);
}

#[test]
fn mime_type_from_extension_known() {
    assert_eq!(mime_type_from_extension("pdf"), "application/pdf");
    assert_eq!(mime_type_from_extension("png"), "image/png");
    assert_eq!(mime_type_from_extension("jpg"), "image/jpeg");
    assert_eq!(mime_type_from_extension("txt"), "text/plain");
}

#[test]
fn mime_type_from_extension_unknown_falls_back() {
    assert_eq!(
        mime_type_from_extension("unknown_ext"),
        "application/octet-stream"
    );
    assert_eq!(mime_type_from_extension(""), "application/octet-stream");
}

fn img(cid: &str) -> InlineImage {
    InlineImage {
        cid: cid.to_string(),
        filename: format!("{cid}.png"),
        content_type: "image/png",
        bytes: vec![1, 2, 3],
    }
}

fn detailed(path: &str, inline: Option<bool>, cid: Option<&str>) -> AttachmentSpec {
    AttachmentSpec::Detailed {
        path: path.to_string(),
        inline,
        cid: cid.map(str::to_string),
    }
}

#[test]
fn attachment_spec_accepts_both_spellings() {
    let specs = [
        AttachmentSpec::Path("/tmp/a.pdf".to_string()),
        detailed("/tmp/b.png", Some(true), None),
        detailed("/tmp/c.png", None, Some("shot")),
    ];

    assert_eq!(specs[0].path(), "/tmp/a.pdf");
    assert!(!specs[0].is_inline());
    assert_eq!(specs[0].explicit_cid(), None);

    assert!(specs[1].is_inline());
    assert_eq!(specs[1].explicit_cid(), None);

    assert!(specs[2].is_inline());
    assert_eq!(specs[2].explicit_cid(), Some("shot"));
}

#[test]
fn explicit_inline_false_wins_over_cid_inference() {
    let spec = detailed("/tmp/a.png", Some(false), Some("shot"));
    assert!(!spec.is_inline());
}

#[test]
fn derive_cid_strips_extension_and_unsafe_chars() {
    assert_eq!(derive_cid("screenshot.png"), "screenshot");
    assert_eq!(derive_cid("Rollen und Rechte.png"), "Rollen-und-Rechte");
    assert_eq!(derive_cid("a  b.png"), "a-b");
    assert_eq!(derive_cid("-weird-.png"), "weird");
    assert_eq!(derive_cid("übersicht.png"), "bersicht");
    assert_eq!(derive_cid("äöü.png"), "image");
    assert_eq!(derive_cid(".png"), "image");
    for name in ["a b.png", "ä.png", "x!y.png", "no-extension"] {
        assert!(
            derive_cid(name).chars().all(is_cid_char),
            "derived id for {name} must be safe"
        );
    }
}

#[test]
fn marker_without_attachment_is_rejected() {
    let err = check_cid_markers("see ![](cid:shot)", &vec![]).unwrap_err();
    assert!(err.contains("shot"), "{err}");
    assert!(err.contains("inline"), "{err}");

    let err = check_cid_markers("see ![](cid:typo)", &vec![img("shot")]).unwrap_err();
    assert!(err.contains("typo"), "{err}");
    assert!(err.contains("shot"), "{err}");
}

#[test]
fn unreferenced_inline_attachment_only_warns() {
    let notice = check_cid_markers("no marker here", &vec![img("shot")])
        .expect("must not be an error")
        .expect("should warn");
    assert!(notice.contains("shot"), "{notice}");

    assert!(
        check_cid_markers("![](cid:shot)", &vec![img("shot")])
            .unwrap()
            .is_none()
    );
    assert!(check_cid_markers("plain body", &vec![]).unwrap().is_none());
}

#[test]
fn inline_images_produce_a_related_tree_with_content_ids() {
    let prepared = PreparedAttachments {
        regular: vec![],
        inline: vec![img("shot")],
    };
    let builder = apply_bodies_and_attachments(
        MessageBuilder::new().subject("t"),
        "plain",
        "<html><body><img src=\"cid:shot\"></body></html>",
        prepared,
    );
    let mime = String::from_utf8(builder.write_to_vec().expect("builds")).expect("utf8");

    assert!(mime.contains("multipart/related"), "{mime}");
    assert!(mime.contains("multipart/alternative"), "{mime}");
    assert!(mime.contains("Content-ID: <shot>"), "{mime}");
    assert!(mime.contains("Content-Disposition: inline"), "{mime}");
    assert!(mime.contains("filename=\"shot.png\""), "{mime}");
    assert_eq!(
        mime.matches("Content-Disposition:").count(),
        1,
        "one disposition header expected: {mime}"
    );
}

#[test]
fn inline_and_regular_attachments_nest_correctly() {
    let prepared = PreparedAttachments {
        regular: vec![("application/pdf", "report.pdf".to_string(), vec![9, 9])],
        inline: vec![img("shot")],
    };
    let builder = apply_bodies_and_attachments(
        MessageBuilder::new().subject("t"),
        "plain",
        "<html><body>x</body></html>",
        prepared,
    );
    let mime = String::from_utf8(builder.write_to_vec().expect("builds")).expect("utf8");

    assert!(mime.contains("multipart/mixed"), "{mime}");
    assert!(mime.contains("multipart/related"), "{mime}");
    assert!(mime.contains("Content-ID: <shot>"), "{mime}");
    assert!(mime.contains("filename=\"report.pdf\""), "{mime}");
    let related_at = mime.find("multipart/related").expect("related present");
    let pdf_at = mime.find("report.pdf").expect("pdf present");
    assert!(related_at < pdf_at, "related must precede the attachment");
}

#[test]
fn without_inline_images_the_classic_structure_is_kept() {
    let prepared = PreparedAttachments {
        regular: vec![("application/pdf", "report.pdf".to_string(), vec![9])],
        inline: vec![],
    };
    let builder = apply_bodies_and_attachments(
        MessageBuilder::new().subject("t"),
        "plain",
        "<html><body>x</body></html>",
        prepared,
    );
    let mime = String::from_utf8(builder.write_to_vec().expect("builds")).expect("utf8");

    assert!(mime.contains("multipart/mixed"), "{mime}");
    assert!(mime.contains("multipart/alternative"), "{mime}");
    assert!(!mime.contains("multipart/related"), "{mime}");
    assert!(!mime.contains("Content-ID"), "{mime}");
}

#[test]
fn inline_rejects_types_that_cannot_render_as_an_image() {
    for (path, bytes, expected) in [
        ("/x/report.pdf", &b"%PDF-1.4"[..], "application/pdf"),
        ("/x/logo.svg", &b"<svg/>"[..], "image/svg+xml"),
    ] {
        let mut batch = AttachmentBatch::new();
        let err = batch
            .add_file(&detailed(path, Some(true), None), bytes.to_vec())
            .expect_err("must be rejected");
        assert!(err.contains(expected), "{err}");
    }
}

#[test]
fn inline_png_is_split_out_with_a_derived_cid() {
    let mut batch = AttachmentBatch::new();
    batch
        .add_file(
            &AttachmentSpec::Path("/x/report.pdf".to_string()),
            b"%PDF".to_vec(),
        )
        .expect("accepted");
    batch
        .add_file(
            &detailed("/x/Rollen und Rechte.png", Some(true), None),
            b"\x89PNG".to_vec(),
        )
        .expect("accepted");
    let prepared = batch.prepared;

    assert_eq!(prepared.regular.len(), 1, "the pdf stays a regular file");
    assert_eq!(prepared.regular[0].1, "report.pdf");
    assert_eq!(prepared.inline.len(), 1);
    assert_eq!(prepared.inline[0].cid, "Rollen-und-Rechte");
    assert_eq!(prepared.inline[0].content_type, "image/png");
}

#[test]
fn duplicate_cids_are_rejected() {
    let mut batch = AttachmentBatch::new();
    batch
        .add_file(&detailed("/x/shot.png", Some(true), None), b"a".to_vec())
        .expect("accepted");
    let err = batch
        .add_file(&detailed("/x/sub/shot.png", Some(true), None), b"b".to_vec())
        .expect_err("duplicate must be rejected");
    assert!(err.contains("Duplicate cid"), "{err}");
    assert!(err.contains("shot"), "{err}");
}

#[test]
fn explicit_cid_with_unsafe_characters_is_rejected() {
    let mut batch = AttachmentBatch::new();
    let err = batch
        .add_file(
            &detailed("/x/shot.png", Some(true), Some("a b\"c")),
            b"x".to_vec(),
        )
        .expect_err("must be rejected");
    assert!(err.contains("Invalid cid"), "{err}");
}

#[test]
fn inline_image_bytes_are_base64_and_umlaut_filenames_encoded() {
    let png = vec![0x89, 0x50, 0x4E, 0x47, 0x0D, 0x0A, 0x1A, 0x0A, 0xFF, 0xFE];
    let prepared = PreparedAttachments {
        regular: vec![],
        inline: vec![InlineImage {
            cid: "rollen".to_string(),
            filename: "Rollenübersicht.png".to_string(),
            content_type: "image/png",
            bytes: png,
        }],
    };
    let builder = apply_bodies_and_attachments(
        MessageBuilder::new().subject("t"),
        "plain",
        "<html><body><img src=\"cid:rollen\"></body></html>",
        prepared,
    );
    let mime = String::from_utf8_lossy(&builder.write_to_vec().expect("builds")).to_string();

    assert!(
        mime.contains("Content-Transfer-Encoding: base64"),
        "image must be base64, not raw: {mime}"
    );
    assert!(
        !mime.contains("\u{89}PNG"),
        "binary leaked into the message unencoded: {mime}"
    );
    assert!(!mime.contains("Rollenübersicht.png"), "{mime}");
    assert!(mime.contains("Rollen=C3=BCbersicht.png"), "{mime}");
}
