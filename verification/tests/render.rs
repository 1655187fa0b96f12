use imap_mcp_rs::email::{EmailAddress, EmailFull};
use imap_mcp_rs::time::Zone;
use imap_mcp_rs::tools::draft::dates::{
    format_date_outlook, format_date_outlook_in, weekday_index,
};
use imap_mcp_rs::tools::draft::markers::{
    inspect_markers, MAX_MARKER_ALT_BYTES, MAX_MARKER_CID_BYTES,
};
use imap_mcp_rs::tools::draft::render::{
    apply_cid_markers_plain, build_reply_bodies, format_sender, html_escape,
    prepare_quoted_content, render_body_html, Bodies, InlineRef, Locale, QuotedContent,
};
use imap_mcp_rs::tools::draft::signature::{signature_text_from_html, Signatures};

#[test]
fn html_escape_basic() {
    assert_eq!(html_escape("a<b"), "a&lt;b");
    assert_eq!(html_escape("a>b"), "a&gt;b");
    assert_eq!(html_escape("a&b"), "a&amp;b");
    assert_eq!(html_escape("a\"b"), "a&quot;b");
    assert_eq!(html_escape("a'b"), "a'b");
    assert_eq!(html_escape("safe text"), "safe text");
}

#[test]
fn html_escape_converts_newlines_to_br() {
    assert_eq!(html_escape("line1\nline2"), "line1<br>\nline2");
}

#[test]
fn html_escape_xss_payload() {
    assert_eq!(
        html_escape("<script>alert('xss')</script>"),
        "&lt;script&gt;alert('xss')&lt;/script&gt;"
    );
}

#[test]
fn weekday_index_known_dates() {
    assert_eq!(weekday_index(2026, 4, 19), 0);
    assert_eq!(weekday_index(2026, 4, 18), 6);
    assert_eq!(weekday_index(2026, 1, 1), 4);
}

#[test]
fn format_date_outlook_handles_short_input() {
    assert_eq!(
        format_date_outlook(Some("not-a-date"), Locale::En),
        "not-a-date"
    );
}

#[test]
fn format_date_outlook_handles_none() {
    assert_eq!(format_date_outlook(None, Locale::En), "unknown date");
    assert_eq!(format_date_outlook(None, Locale::De), "unbekanntes Datum");
}

fn cest() -> Zone {
    Zone::Fixed(7200)
}

#[test]
fn format_date_outlook_known_iso_en() {
    let r = format_date_outlook_in(
        Some("2026-04-19T13:30:45Z"),
        Locale::En,
        Zone::Fixed(0),
    );
    assert!(r.starts_with("Sunday, April 19, 2026"), "{r}");
    assert!(r.contains("1:30:45 PM"), "{r}");
}

#[test]
fn format_date_outlook_known_iso_de() {
    let r = format_date_outlook_in(
        Some("2026-04-19T13:30:45Z"),
        Locale::De,
        Zone::Fixed(0),
    );
    assert!(r.starts_with("Sonntag, 19. April 2026"), "{r}");
    assert!(r.contains("13:30"), "{r}");
}

#[test]
fn format_date_outlook_renders_in_the_readers_zone() {
    let reader = cest();
    let r = format_date_outlook_in(Some("2026-04-19T13:30:45Z"), Locale::De, reader);
    assert!(r.contains("15:30"), "reader zone is UTC+2: {r}");

    let r = format_date_outlook_in(Some("2026-04-19T23:30:00Z"), Locale::De, reader);
    assert!(r.starts_with("Montag, 20. April 2026"), "{r}");

    let r = format_date_outlook_in(
        Some("2026-04-19T13:30:45+02:00"),
        Locale::De,
        Zone::Fixed(0),
    );
    assert!(r.contains("11:30"), "{r}");
}

#[test]
fn format_sender_with_name() {
    let a = EmailAddress {
        name: Some("Alice".to_string()),
        address: "alice@example.com".to_string(),
    };
    assert_eq!(format_sender(&Some(a)), "Alice <alice@example.com>");
}

#[test]
fn format_sender_without_name_uses_address_twice() {
    let a = EmailAddress {
        name: None,
        address: "alice@example.com".to_string(),
    };
    assert_eq!(
        format_sender(&Some(a)),
        "alice@example.com <alice@example.com>"
    );
}

#[test]
fn format_sender_none_returns_unknown() {
    assert_eq!(format_sender(&None), "unknown");
}

fn quoted_as_html(q: &QuotedContent) -> &str {
    match q {
        QuotedContent::Html(s) => s,
        QuotedContent::Plain(_) => panic!("expected HTML quote path"),
    }
}

#[test]
fn prepare_quoted_content_sanitizes_html_keeps_formatting() {
    let html = "<div>hi <b>bold</b><script>alert(1)</script></div>";
    let quoted = prepare_quoted_content(Some(html), "hi bold");
    let out = quoted_as_html(&quoted);
    assert!(!out.contains("script"), "script must be stripped: {out}");
    assert!(!out.contains("alert(1)"), "script body must go too: {out}");
    assert!(
        out.contains("<b>bold</b>"),
        "formatting must survive: {out}"
    );
}

#[test]
fn prepare_quoted_content_strips_event_handlers_and_js_urls() {
    let html = r#"<div onclick="alert(1)"><a href="javascript:alert(2)">x</a></div>"#;
    let quoted = prepare_quoted_content(Some(html), "x");
    let out = quoted_as_html(&quoted);
    assert!(!out.contains("onclick"), "event handler survived: {out}");
    assert!(!out.contains("javascript:"), "js URL survived: {out}");
}

#[test]
fn prepare_quoted_content_keeps_inline_styles_without_link_rel() {
    let html = r#"<div style="color: red"><a href="https://example.com">link</a></div>"#;
    let quoted = prepare_quoted_content(Some(html), "link");
    let out = quoted_as_html(&quoted);
    assert!(out.contains("style=\"color: red\""), "style dropped: {out}");
    assert!(!out.contains("rel="), "rel decoration added: {out}");
    assert!(out.contains("https://example.com"), "href dropped: {out}");
}

#[test]
fn prepare_quoted_content_falls_back_to_escaped_text() {
    let quoted = prepare_quoted_content(None, "a<b\nnext");
    match quoted {
        QuotedContent::Plain(s) => assert_eq!(s, "a&lt;b<br>\nnext"),
        QuotedContent::Html(_) => panic!("expected plaintext quote path"),
    }
}

#[test]
fn signature_text_from_html_strips_tags_and_decodes_entities() {
    let html = "<p>--&nbsp;</p><p>Example Corp &amp; Co<br>Line two</p>";
    assert_eq!(
        signature_text_from_html(html),
        "-- \nExample Corp & Co\nLine two"
    );
}

#[test]
fn signature_text_from_html_collapses_source_newlines() {
    let html = "<p><span>Phone:\r\n +49 40 0000</span><span>&nbsp;<br></span><span>Line two \r\n</span></p>";
    assert_eq!(
        signature_text_from_html(html),
        "Phone: +49 40 0000\nLine two"
    );
}

#[test]
fn signature_text_from_html_collapses_blank_runs() {
    let html = "<div>top</div><div><br></div><div><br></div><div>bottom</div>";
    let text = signature_text_from_html(html);
    assert!(!text.contains("\n\n\n"), "blank run survived: {text:?}");
    assert!(text.starts_with("top"));
    assert!(text.ends_with("bottom"));
}

#[test]
fn signatures_resolve_prefers_explicit_text() {
    let sigs = Signatures::resolve(Some("<p>HTML sig</p>"), Some("custom text sig"));
    assert_eq!(sigs.text, "custom text sig");
    assert_eq!(sigs.html, "<p>HTML sig</p>");
}

#[test]
fn reply_plaintext_uses_outlook_header_block_and_signature() {
    let mut original = EmailFull {
        uid: 1,
        folder: "INBOX".to_string(),
        from: Some(EmailAddress {
            name: Some("Alice".to_string()),
            address: "alice@example.com".to_string(),
        }),
        to: vec![EmailAddress {
            name: None,
            address: "me@example.com".to_string(),
        }],
        cc: vec![],
        subject: "Hello".to_string(),
        date: Some("2026-07-30T21:18:00+02:00".to_string()),
        date_original: None,
        message_id: None,
        in_reply_to: None,
        references: vec![],
        flags: vec![],
        body_text: "original text".to_string(),
        body_html: None,
        attachments: vec![],
        body_parts_diverge: false,
    };
    original.subject = "Hello".to_string();
    let sigs = Signatures::resolve(Some("<p>-- </p><p>Sig line</p>"), None);
    let Bodies { plain, html } =
        build_reply_bodies(&original, "my reply", Locale::De, &sigs, &[], Zone::Local);

    assert!(plain.starts_with("my reply\n-- \nSig line\n\nVon: Alice <alice@example.com>\n"));
    assert!(plain.contains(". Juli 2026 "), "{plain}");
    assert!(!plain.contains("2026-07-30T"), "raw ISO leaked: {plain}");
    assert!(plain.contains("\nAn: me@example.com <me@example.com>\n"));
    assert!(plain.contains("\nBetreff: Hello\n\noriginal text"));
    assert!(!plain.contains("> original"), "no > prefixes: {plain}");
    assert!(!plain.contains("schrieb"), "no legacy intro line: {plain}");
    assert!(html.contains("id=\"Signature\""));
}

fn collect_cid_markers(body: &str) -> Vec<String> {
    inspect_markers(body).unique_ids
}

fn find_unparsed_cid_fragment(body: &str) -> Option<String> {
    inspect_markers(body).stray_fragment
}

fn make_ref(cid: &'static str, filename: &'static str) -> InlineRef<'static> {
    let content_id: &'static str =
        Box::leak(format!("{cid}.fixed0@unit.invalid").into_boxed_str());
    InlineRef {
        cid,
        content_id,
        filename,
    }
}

#[test]
fn cid_markers_are_collected_in_order_without_duplicates() {
    let body = "one ![](cid:a) two ![alt](cid:b) three ![](cid:a)";
    assert_eq!(collect_cid_markers(body), vec!["a", "b"]);
}

#[test]
fn cid_marker_scan_rejects_malformed_ids() {
    let long_id = format!("![](cid:{})", "a".repeat(MAX_MARKER_CID_BYTES + 1));
    for body in [
        "![](cid:)",
        "![](cid:a b)",
        "![](cid:a<b)",
        "![](cid:a>b)",
        "![](cid:a\"b)",
        "![](cid:a&b)",
        "![](cid:a/b)",
        "![](cid:.a)",
        "![](cid:a.)",
        "![](cid:a..b)",
        long_id.as_str(),
    ] {
        assert!(
            collect_cid_markers(body).is_empty(),
            "should not parse as a marker: {body}"
        );
    }
    let max_id = "a".repeat(MAX_MARKER_CID_BYTES);
    assert_eq!(
        collect_cid_markers(&format!("![](cid:{max_id})")),
        vec![max_id]
    );
}

#[test]
fn cid_marker_alt_must_stay_on_one_line_and_bounded() {
    assert!(collect_cid_markers("Na toll![\nZeile zwei](cid:x)").is_empty());
    assert!(collect_cid_markers("a![\r\nb](cid:x)").is_empty());
    let oversized = format!("![{}](cid:x)", "a".repeat(MAX_MARKER_ALT_BYTES + 1));
    assert!(collect_cid_markers(&oversized).is_empty());
    let max_alt = format!("![{}](cid:x)", "ä".repeat(MAX_MARKER_ALT_BYTES / 2));
    assert_eq!(collect_cid_markers(&max_alt), vec!["x"]);
}

#[test]
fn cid_marker_scan_ignores_plain_markdown_and_prose() {
    assert!(collect_cid_markers("![shot](https://example.com/a.png)").is_empty());
    assert!(collect_cid_markers("costs ![] and more").is_empty());
    assert!(collect_cid_markers("![](cid:unterminated").is_empty());
    let body = "see ![](cid: and then a real one ![](cid:real)";
    assert_eq!(collect_cid_markers(body), vec!["real"]);
}

#[test]
fn cid_marker_scan_stays_linear_on_pathological_input() {
    let mut body = "![".repeat(100_000);
    body.push_str("end ] and one real ![x](cid:ok)");
    assert_eq!(collect_cid_markers(&body), vec!["ok"]);

    let mut body = "![a](cid:x ".repeat(50_000);
    body.push(')');
    assert!(collect_cid_markers(&body).is_empty());
}

#[test]
fn marker_inspection_stays_linear_on_repeated_and_distinct_markers() {
    let repeated = "![](cid:a)".repeat(150_000);
    let inspection = inspect_markers(&repeated);
    assert_eq!(inspection.unique_ids, vec!["a"]);
    assert!(inspection.stray_fragment.is_none());

    let mut distinct = String::with_capacity(2_400_000);
    for i in 0..100_000 {
        distinct.push_str(&format!("![](cid:id{i})"));
    }
    let inspection = inspect_markers(&distinct);
    assert_eq!(inspection.unique_ids.len(), 100_000);
    assert!(inspection.stray_fragment.is_none());

    let mut tail_stray = "![](cid:a)".repeat(1_000);
    tail_stray.push_str(" ![x](cid:bad id)");
    assert!(inspect_markers(&tail_stray).stray_fragment.is_some());
}

#[test]
fn find_unparsed_cid_fragment_reports_rejected_candidates() {
    let frag = find_unparsed_cid_fragment("see ![x](cid:Bildschirmfoto 2026-08-14) here")
        .expect("must be reported");
    assert!(frag.contains("Bildschirmfoto"), "{frag}");

    assert!(find_unparsed_cid_fragment("a![\nb](cid:x)").is_some());

    assert!(find_unparsed_cid_fragment("ok ![x](cid:shot) done").is_none());
    assert!(find_unparsed_cid_fragment("no markers at all").is_none());

    assert!(find_unparsed_cid_fragment("![x](cid:ok) and ![y](cid:bad id)").is_some());
}

#[test]
fn html_marker_becomes_img_tag_with_unique_content_id() {
    let refs = [make_ref("shot", "screenshot.png")];
    let out = render_body_html("before ![](cid:shot) after", &refs);
    assert!(
        out.contains("<img src=\"cid:shot.fixed0@unit.invalid\""),
        "{out}"
    );
    assert!(!out.contains("src=\"cid:shot\""), "{out}");
    assert!(out.contains("alt=\"screenshot.png\""), "{out}");
    assert!(out.contains("max-width:100%"), "{out}");
    assert!(out.starts_with("before "), "{out}");
    assert!(out.ends_with(" after"), "{out}");
}

#[test]
fn html_rendering_escapes_text_and_alt_around_markers() {
    let refs = [make_ref("x", "f.png")];
    let out = render_body_html("a<b ![c<d](cid:x) e\"f", &refs);
    assert!(out.starts_with("a&lt;b "), "{out}");
    assert!(out.contains("alt=\"c&lt;d\""), "{out}");
    assert!(out.ends_with(" e&quot;f"), "{out}");
    assert!(!out.contains("alt=\"c<d\""), "{out}");
}

#[test]
fn plain_marker_becomes_readable_placeholder() {
    let refs = [make_ref("shot", "screenshot.png")];
    assert_eq!(
        apply_cid_markers_plain("before ![](cid:shot) after", &refs),
        "before [screenshot.png] after"
    );
    assert_eq!(
        apply_cid_markers_plain("![Rollenübersicht](cid:shot)", &refs),
        "[Rollenübersicht]"
    );
}

#[test]
fn unknown_cid_is_left_verbatim_in_both_parts() {
    let refs = [make_ref("known", "k.png")];
    assert_eq!(
        apply_cid_markers_plain("x ![](cid:other) y", &refs),
        "x ![](cid:other) y"
    );
    assert!(render_body_html("x ![](cid:other) y", &refs).contains("![](cid:other)"));
}

#[test]
fn bodies_without_markers_render_as_plain_escaped_text() {
    let refs = [make_ref("a", "a.png")];
    let body = "just text, no markers at all";
    assert_eq!(apply_cid_markers_plain(body, &refs), body);
    assert_eq!(render_body_html(body, &refs), body);
    assert_eq!(render_body_html("a<b", &refs), "a&lt;b");
}

#[test]
fn multiple_markers_all_replaced() {
    let refs = [make_ref("a", "a.png"), make_ref("b", "b.png")];
    let out = apply_cid_markers_plain("![](cid:a) middle ![](cid:b)", &refs);
    assert_eq!(out, "[a.png] middle [b.png]");
}
