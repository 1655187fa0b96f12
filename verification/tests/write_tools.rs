use imap_mcp_rs::config::{AccountConfig, AuthMethod};
use imap_mcp_rs::json::Json;
use imap_mcp_rs::tools::write::{
    plan_delete, plan_flagging, plan_move, write_ok, DeleteEmailRequest, MoveEmailRequest,
    WriteStep, MAX_UIDS_PER_CALL,
};
use imap_mcp_rs::tools::{error_json, list_accounts_answer};

fn value(j: &Json) -> serde_json::Value {
    serde_json::from_str(&j.to_text()).unwrap()
}

fn account(read_only: bool, allow_move: bool, allow_delete: bool) -> AccountConfig {
    AccountConfig {
        name: "T".to_string(),
        host: "127.0.0.1".to_string(),
        port: 1,
        username: "u@h".to_string(),
        email: None,
        display_name: None,
        signature_html: None,
        signature_text: None,
        locale: None,
        read_only,
        allow_delete,
        allow_move,
        accept_invalid_certs: false,
        allow_unsafe_expunge: false,
        allowed_folders: None,
        auth_method: AuthMethod::Password,
        password: Some("p".to_string()),
        oauth2: None,
    }
}

fn move_req(uids: Vec<u32>) -> MoveEmailRequest {
    MoveEmailRequest {
        account: None,
        folder: "INBOX".into(),
        uids,
        target_folder: "Archive".into(),
        dry_run: None,
    }
}

fn delete_req(uids: Vec<u32>, permanent: bool) -> DeleteEmailRequest {
    DeleteEmailRequest {
        account: None,
        folder: "INBOX".into(),
        uids,
        permanent: Some(permanent),
        dry_run: None,
    }
}

fn refusal(s: WriteStep) -> String {
    match s {
        WriteStep::Refused(text) => text,
        other => panic!("{other:?}"),
    }
}

#[test]
fn read_only_blocks_every_mutating_tool() {
    let a = account(true, true, true);
    let refusals = [
        refusal(plan_move(&a, &move_req(vec![1]))),
        refusal(plan_delete(&a, &delete_req(vec![1], false))),
        refusal(plan_flagging(&a, &vec![1])),
    ];
    for (i, out) in refusals.iter().enumerate() {
        assert!(
            out.contains("read-only"),
            "tool #{i} did not refuse a read-only account: {out}"
        );
    }
}

#[test]
fn move_and_delete_honour_their_own_switches() {
    let no_move = account(false, false, true);
    let out = refusal(plan_move(&no_move, &move_req(vec![1])));
    assert!(out.contains("allow_move"), "{out}");

    let no_delete = account(false, true, false);
    let out = refusal(plan_delete(&no_delete, &delete_req(vec![1], false)));
    assert!(out.contains("allow_delete"), "{out}");

    let allowed = account(false, true, true);
    assert!(matches!(
        plan_move(&allowed, &move_req(vec![1])),
        WriteStep::Proceed
    ));
    assert!(matches!(
        plan_delete(&allowed, &delete_req(vec![1], true)),
        WriteStep::Proceed
    ));
    assert!(matches!(
        plan_flagging(&no_move, &vec![1]),
        WriteStep::Proceed
    ));
}

#[test]
fn oversized_uid_lists_are_refused_not_truncated() {
    let a = account(false, true, true);
    let over_cap = u32::try_from(MAX_UIDS_PER_CALL)
        .unwrap_or(u32::MAX)
        .saturating_add(1);
    let too_many: Vec<u32> = (1..=over_cap).collect();
    for out in [
        refusal(plan_move(&a, &move_req(too_many.clone()))),
        refusal(plan_delete(&a, &delete_req(too_many.clone(), false))),
        refusal(plan_flagging(&a, &too_many)),
    ] {
        assert!(out.contains("cap"), "oversized list not refused: {out}");
    }
    let most: Vec<u32> = (1..over_cap).collect();
    assert!(matches!(plan_flagging(&a, &most), WriteStep::Proceed));
}

#[test]
fn dry_run_previews_without_contacting_the_server() {
    let a = account(false, true, true);
    let mut req = move_req(vec![7, 8]);
    req.dry_run = Some(true);
    let v = match plan_move(&a, &req) {
        WriteStep::Preview(j) => value(&j),
        other => panic!("{other:?}"),
    };
    assert_eq!(v["dry_run"], true, "{v}");
    assert_eq!(v["would_move"], 2, "{v}");
    assert_eq!(v["target_folder"], "Archive", "{v}");
    assert!(v.get("error").is_none(), "preview must not error: {v}");

    let mut req = delete_req(vec![7], true);
    req.dry_run = Some(true);
    let v = match plan_delete(&a, &req) {
        WriteStep::Preview(j) => value(&j),
        other => panic!("{other:?}"),
    };
    assert_eq!(v["dry_run"], true, "{v}");
    assert_eq!(v["would_expunge_permanently"], 1, "{v}");

    let mut req = delete_req(vec![7], false);
    req.dry_run = Some(true);
    let v = match plan_delete(&a, &req) {
        WriteStep::Preview(j) => value(&j),
        other => panic!("{other:?}"),
    };
    assert_eq!(v["would_move_to_trash"], 1, "{v}");
    assert_eq!(v["permanent"], false, "{v}");
}

#[test]
fn dry_run_still_respects_the_permission_gates() {
    let a = account(true, true, true);
    let mut req = move_req(vec![1]);
    req.dry_run = Some(true);
    assert!(refusal(plan_move(&a, &req)).contains("read-only"));

    let a = account(false, true, false);
    let mut req = delete_req(vec![1], false);
    req.dry_run = Some(true);
    assert!(refusal(plan_delete(&a, &req)).contains("allow_delete"));
}

#[test]
fn changes_report_what_succeeded() {
    assert_eq!(
        write_ok("T", &[3, 4]).to_text(),
        r#"{"account":"T","succeeded":[3,4]}"#
    );
}

#[test]
fn errors_are_cleaned_and_classified() {
    assert_eq!(
        error_json("Account \"x\" not found"),
        r#"{"error":"Account \"x\" not found","retryable":false}"#
    );
    let v: serde_json::Value = serde_json::from_str(&error_json(
        "no response: code: None, info: Some(\"[INUSE] Mailbox is in use (Failure)\")",
    ))
    .unwrap();
    assert_eq!(v["error"], "Mailbox is in use");
    assert_eq!(v["retryable"], true);
}

#[test]
fn accounts_are_listed_with_their_sender() {
    let mut second = account(true, true, true);
    second.name = "S".to_string();
    second.email = Some("s@example.com".to_string());
    assert_eq!(
        list_accounts_answer(&vec![account(false, true, true), second]).to_text(),
        r#"[{"name":"T","email":"u@h","read_only":false},{"name":"S","email":"s@example.com","read_only":true}]"#
    );
}
