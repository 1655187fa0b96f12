use imap_mcp_rs::imap_client::removal::{
    draft_query, drafts_or_default, flag_change, trash_or_default, Removal, RemovalAction,
    RemovalEvent, RemovalPhase,
};
use imap_mcp_rs::imap_client::session::ClientError;

fn failed(text: &str) -> RemovalEvent {
    RemovalEvent::Failed(ClientError::new(text.to_string()))
}

fn broken(text: &str) -> RemovalEvent {
    RemovalEvent::Broken(ClientError::new(text.to_string()))
}

fn until(target: Option<&str>, sweeps: bool, phase: RemovalPhase) -> Removal {
    let mut r = Removal::start(vec![3, 1, 2], target.map(str::to_string), sweeps);
    r.advance(RemovalEvent::Found(vec![2, 1, 9])).unwrap();
    while r.phase != phase {
        r.advance(RemovalEvent::Done).unwrap();
    }
    r
}

#[test]
fn a_move_copies_flags_and_expunges_what_exists() {
    let mut r = Removal::start(vec![3, 1, 2], Some("Archive".to_string()), false);
    match r.action() {
        RemovalAction::Search(q) => assert_eq!(q, "UID 1:3"),
        other => panic!("{other:?}"),
    }
    r.advance(RemovalEvent::Found(vec![2, 1, 9, 2])).unwrap();
    assert_eq!(r.existing, [1, 2]);
    match r.action() {
        RemovalAction::Copy { set, target } => {
            assert_eq!(set, "1:2");
            assert_eq!(target, "Archive");
        }
        other => panic!("{other:?}"),
    }
    r.advance(RemovalEvent::Done).unwrap();
    assert!(matches!(r.action(), RemovalAction::Flag(s) if s == "1:2"));
    r.advance(RemovalEvent::Done).unwrap();
    assert!(matches!(r.action(), RemovalAction::Expunge(s) if s == "1:2"));
    r.advance(RemovalEvent::Done).unwrap();
    assert!(matches!(r.action(), RemovalAction::Finished));
    assert_eq!(r.existing, [1, 2]);
}

#[test]
fn a_deletion_copies_nothing() {
    let r = until(None, false, RemovalPhase::Flag);
    assert!(matches!(r.action(), RemovalAction::Flag(_)));
}

#[test]
fn nothing_is_done_for_messages_that_are_gone() {
    let mut r = Removal::start(vec![5], Some("Archive".to_string()), false);
    r.advance(RemovalEvent::Found(vec![])).unwrap();
    assert!(matches!(r.action(), RemovalAction::Finished));
    assert!(r.existing.is_empty());
    let r = Removal::start(vec![], None, false);
    assert!(matches!(r.action(), RemovalAction::Finished));
}

#[test]
fn failures_of_a_move_say_how_far_it_got() {
    let mut r = until(Some("Archive"), false, RemovalPhase::Copy);
    assert_eq!(r.advance(failed("no space")).unwrap_err().text, "no space");

    let mut r = until(Some("Archive"), false, RemovalPhase::Flag);
    let e = r.advance(failed("denied")).unwrap_err();
    assert!(e.text.starts_with("COPY to target succeeded but \\Deleted-flag STORE"));
    assert!(e.chain.ends_with(": denied"));

    let mut r = until(Some("Archive"), false, RemovalPhase::Flag);
    let e = r.advance(broken("cut off")).unwrap_err();
    assert!(e.text.starts_with("COPY + STORE submitted but response stream errored"));

    let mut r = until(Some("Archive"), false, RemovalPhase::Expunge);
    let e = r.advance(failed("connection reset")).unwrap_err();
    assert!(e.text.starts_with("COPY + STORE succeeded but EXPUNGE failed"));
    assert!(e.chain.ends_with(": connection reset"));
}

#[test]
fn failures_of_a_deletion_are_told_as_they_are() {
    let mut r = until(None, false, RemovalPhase::Flag);
    assert_eq!(r.advance(failed("denied")).unwrap_err().text, "denied");
    let mut r = until(None, false, RemovalPhase::Expunge);
    assert_eq!(
        r.advance(broken("connection closed")).unwrap_err().text,
        "connection closed"
    );
}

#[test]
fn a_plain_expunge_needs_permission() {
    let mut r = until(None, false, RemovalPhase::Expunge);
    let e = r.advance(failed("BAD\u{202E} command")).unwrap_err();
    assert!(e
        .text
        .starts_with("UID EXPUNGE rejected by server (BAD command) and allow_unsafe_expunge"));

    let mut r = until(None, true, RemovalPhase::Expunge);
    r.advance(failed("BAD command")).unwrap();
    assert!(matches!(r.action(), RemovalAction::Sweep));
    r.advance(RemovalEvent::Done).unwrap();
    assert!(matches!(r.action(), RemovalAction::Finished));
}

#[test]
fn folders_have_their_usual_names_where_none_is_found() {
    assert_eq!(drafts_or_default(None), "Drafts");
    assert_eq!(drafts_or_default(Some("Entwürfe".to_string())), "Entwürfe");
    assert_eq!(trash_or_default(None), "Trash");
}

#[test]
fn flags_are_set_and_cleared() {
    assert_eq!(flag_change("\\Seen", true), "+FLAGS (\\Seen)");
    assert_eq!(flag_change("\\Flagged", false), "-FLAGS (\\Flagged)");
}

#[test]
fn stored_drafts_are_searched_by_their_id() {
    assert_eq!(
        draft_query(b"Message-ID: <a@b>\r\n\r\nx").as_deref(),
        Some("HEADER Message-ID \"a@b\"")
    );
    assert_eq!(draft_query(b"Subject: x\r\n\r\nx"), None);
}
