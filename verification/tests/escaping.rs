use imap_mcp_rs::divergence::parts_diverge;
use imap_mcp_rs::html::decode_html_entities;
use imap_mcp_rs::imap_client::util::{escape_imap_string, sanitize_log_str};
use imap_mcp_rs::time::unix_to_utc_iso;
use imap_mcp_rs::token_state::mailbox_part;
use imap_mcp_rs::tools::draft::markers::is_valid_cid;
use imap_mcp_rs::tools::draft::render::{
    apply_cid_markers_plain, html_escape, render_body_html, InlineRef,
};
use imap_mcp_rs::tools::threads::text_is_before;

#[test]
fn quotes_cannot_end_a_quoted_term_early() {
    assert_eq!(
        escape_imap_string("a\" OR ALL \\ \r\nb"),
        "a\\\" OR ALL \\\\ b"
    );
    assert_eq!(escape_imap_string("\\\""), "\\\\\\\"");
}

#[test]
fn log_lines_are_not_broken() {
    assert_eq!(
        sanitize_log_str("a\nb\r\u{2028}\u{feff}\u{7f}c"),
        "a\\x0Ab\\x0D\\x2028\\xFEFF\\x7Fc"
    );
    assert_eq!(sanitize_log_str("plain – text"), "plain – text");
}

#[test]
fn escaping_is_undone_by_decoding() {
    let text = "if a < b && c > \"d\" it's &amp; fine";
    let escaped = html_escape(text);
    assert_eq!(
        escaped,
        "if a &lt; b &amp;&amp; c &gt; &quot;d&quot; it's &amp;amp; fine"
    );
    assert_eq!(decode_html_entities(&escaped), text);
    assert_eq!(decode_html_entities(&html_escape("a\nb")), "a<br>\nb");
    assert_eq!(decode_html_entities("no references"), "no references");
}

#[test]
fn alt_texts_cannot_leave_their_attribute() {
    let refs = [InlineRef {
        cid: "x",
        content_id: "x@h",
        filename: "f.png",
    }];
    let html = render_body_html("![\"><b>](cid:x)", &refs);
    assert_eq!(
        html,
        "<img src=\"cid:x@h\" alt=\"&quot;&gt;&lt;b&gt;\" style=\"max-width:100%; height:auto;\">"
    );
}

#[test]
fn markers_without_an_image_stay_text() {
    let raw = "see ![a](cid:none) & more";
    assert_eq!(render_body_html(raw, &[]), html_escape(raw));
    assert_eq!(apply_cid_markers_plain(raw, &[]), raw);
}

#[test]
fn valid_content_ids_need_no_escaping() {
    for id in ["logo", "a.b_c-1", "X9"] {
        assert!(is_valid_cid(id));
        assert_eq!(html_escape(id), id);
    }
    assert!(!is_valid_cid("a<b"));
}

#[test]
fn earlier_instants_have_earlier_texts() {
    let seconds = [-62_135_596_800, -1, 0, 59, 86_399, 951_782_400, 1_800_000_000];
    for pair in seconds.windows(2) {
        let a = unix_to_utc_iso(pair[0]).unwrap();
        let b = unix_to_utc_iso(pair[1]).unwrap();
        assert!(text_is_before(&a, &b), "{a} {b}");
        assert!(!text_is_before(&b, &a));
    }
    assert_eq!(
        unix_to_utc_iso(951_782_400).as_deref(),
        Some("2000-02-29T00:00:00Z")
    );
}

#[test]
fn html_that_repeats_the_plain_text_does_not_diverge() {
    let plain: String = (0..40).map(|i| format!("word{i} ")).collect();
    let mut html = plain.clone();
    html.push_str("and considerably more besides");
    assert!(!parts_diverge(&plain, &plain));
    assert!(!parts_diverge(&plain, &html));
}

#[test]
fn application_ids_stay_out_of_the_log() {
    assert_eq!(mailbox_part("u@h|host|cid-123"), "u@h|host");
    assert_eq!(mailbox_part("no bar"), "no bar");
}
