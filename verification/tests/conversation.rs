use imap_mcp_rs::email::{parse_email, EmailFull};
use imap_mcp_rs::imap_client::fetch::{
    append_full_messages, single_message, summarize_fetches, Fetched, MailFlag,
};
use imap_mcp_rs::imap_client::filter::PostFetchFilter;
use imap_mcp_rs::imap_client::thread::{ThreadAction, ThreadEvent, ThreadPhase, ThreadSearch};

fn raw(id: Option<&str>, subject: &str, extra: &str) -> Vec<u8> {
    let id = match id {
        Some(i) => format!("Message-ID: <{i}>\r\n"),
        None => String::new(),
    };
    format!(
        "From: A <a@b.c>\r\nTo: d@e.f\r\n{id}Subject: {subject}\r\n\
         Date: Thu, 01 Jan 2026 10:00:00 +0000\r\n{extra}\r\nbody\r\n"
    )
    .into_bytes()
}

fn mail(id: Option<&str>, subject: &str, extra: &str) -> EmailFull {
    parse_email(5, "INBOX", &raw(id, subject, extra), vec![])
}

fn fetched(uid: u32, body: Vec<u8>) -> Fetched {
    Fetched {
        uid: Some(uid),
        body: Some(body),
        flags: vec![MailFlag::Seen],
        internal_unix: None,
    }
}

fn search(t: &ThreadSearch) -> (String, String) {
    match t.action() {
        ThreadAction::Search { folder, criteria } => (folder, criteria),
        _ => panic!("no search"),
    }
}

fn fetch(t: &ThreadSearch) -> (String, String) {
    match t.action() {
        ThreadAction::Fetch { folder, set } => (folder, set),
        _ => panic!("no fetch"),
    }
}

#[test]
fn a_conversation_is_collected_from_both_folders() {
    let mut t = ThreadSearch::start("INBOX", 5, false, mail(Some("m1@x"), "Re: Plan", ""));
    assert_eq!(
        search(&t),
        (
            "INBOX".to_string(),
            "OR HEADER References \"m1@x\" HEADER In-Reply-To \"m1@x\"".to_string()
        )
    );
    assert!(t.advance(ThreadEvent::Found(vec![7])).is_ok());
    assert_eq!(
        search(&t),
        ("INBOX".to_string(), "SUBJECT \"Plan\"".to_string())
    );
    assert!(t.advance(ThreadEvent::Found(vec![9, 5])).is_ok());
    assert_eq!(fetch(&t), ("INBOX".to_string(), "5,7,9".to_string()));
    let bodies = vec![
        fetched(5, raw(Some("m1@x"), "Re: Plan", "")),
        fetched(7, raw(Some("m2@x"), "Re: Plan", "")),
    ];
    assert!(t.advance(ThreadEvent::Sent(bodies)).is_ok());
    assert!(matches!(t.action(), ThreadAction::ListFolders));
    let names = vec!["INBOX".to_string(), "Sent".to_string()];
    assert!(t.advance(ThreadEvent::Folders(names)).is_ok());
    let (folder, criteria) = search(&t);
    assert_eq!(folder, "Sent");
    assert!(criteria.contains("HEADER In-Reply-To \"m2@x\""), "{criteria}");
    assert!(t.advance(ThreadEvent::Found(vec![3])).is_ok());
    assert_eq!(fetch(&t), ("Sent".to_string(), "3".to_string()));
    let answers = vec![fetched(3, raw(Some("m2@x"), "Re: Plan", ""))];
    assert!(t.advance(ThreadEvent::Sent(answers)).is_ok());
    assert!(matches!(t.action(), ThreadAction::Finish));
    let out = t.finish();
    let uids: Vec<u32> = out.iter().map(|e| e.uid).collect();
    assert_eq!(uids, [5, 7]);
}

#[test]
fn strict_collections_do_not_search_by_subject() {
    let mut t = ThreadSearch::start("INBOX", 5, true, mail(Some("m1@x"), "Plan", ""));
    assert!(t.advance(ThreadEvent::Found(vec![])).is_ok());
    assert_eq!(fetch(&t), ("INBOX".to_string(), "5".to_string()));
}

#[test]
fn messages_without_ids_are_searched_by_subject() {
    let t = ThreadSearch::start("INBOX", 5, false, mail(None, "Grüße", ""));
    assert_eq!(t.phase, ThreadPhase::Subject);
    let (_, criteria) = search(&t);
    assert!(criteria.starts_with("CHARSET UTF-8 SUBJECT "), "{criteria}");
    let t = ThreadSearch::start("INBOX", 5, false, mail(None, "Re:", ""));
    assert_eq!(t.phase, ThreadPhase::Messages);
}

#[test]
fn broad_subjects_are_left_out() {
    let mut t = ThreadSearch::start("INBOX", 5, false, mail(None, "Hello", ""));
    assert!(t.advance(ThreadEvent::Found((100..120).collect())).is_ok());
    assert_eq!(fetch(&t), ("INBOX".to_string(), "5".to_string()));
}

#[test]
fn only_broken_connections_end_a_collection() {
    let mut t = ThreadSearch::start("INBOX", 5, true, mail(Some("m1@x"), "Plan", ""));
    assert!(t
        .advance(ThreadEvent::Failed("BAD search".to_string()))
        .is_ok());
    assert_eq!(t.phase, ThreadPhase::Messages);
    let mut t = ThreadSearch::start("INBOX", 5, true, mail(Some("m1@x"), "Plan", ""));
    assert_eq!(
        t.advance(ThreadEvent::Failed("connection reset".to_string())),
        Err("connection reset".to_string())
    );
}

#[test]
fn long_conversations_keep_their_newest_messages() {
    let mut t = ThreadSearch::start("INBOX", 1, true, mail(Some("m1@x"), "Plan", ""));
    assert!(t.advance(ThreadEvent::Found((2..=300).collect())).is_ok());
    assert_eq!(fetch(&t), ("INBOX".to_string(), "101:300".to_string()));
}

#[test]
fn fetched_messages_become_rows() {
    let mut f = fetched(4, raw(Some("m@x"), "Hi", ""));
    f.internal_unix = Some(0);
    f.flags.push(MailFlag::Custom("$Label".to_string()));
    let unnumbered = Fetched {
        uid: None,
        body: Some(raw(None, "lost", "")),
        flags: vec![],
        internal_unix: None,
    };
    let empty = Fetched {
        uid: Some(8),
        body: None,
        flags: vec![],
        internal_unix: None,
    };
    let all = vec![f, unnumbered, empty];
    let plain = summarize_fetches(&all, "INBOX", &PostFetchFilter::empty());
    assert_eq!(plain.len(), 1);
    assert_eq!(plain[0].internal_date, None);
    let mut post = PostFetchFilter::empty();
    post.internal_since_unix = Some(0);
    let rows = summarize_fetches(&all, "INBOX", &post);
    assert_eq!(rows.len(), 1);
    assert_eq!(rows[0].uid, 4);
    assert_eq!(rows[0].subject, "Hi");
    assert_eq!(rows[0].snippet, "body");
    assert_eq!(rows[0].internal_date.as_deref(), Some("1970-01-01T00:00:00Z"));
    assert_eq!(rows[0].flags, ["\\Seen", "$Label"]);
    assert_eq!(rows[0].to_count, 1);
}

#[test]
fn single_messages_are_taken_or_refused() {
    let l = vec![fetched(4, raw(Some("m@x"), "Hi", ""))];
    assert_eq!(single_message(&l, "INBOX", 4).ok().flatten().map(|e| e.uid), Some(4));
    assert!(matches!(single_message(&vec![], "INBOX", 4), Ok(None)));
    let mut all = vec![];
    append_full_messages(&mut all, &l, "INBOX");
    assert_eq!(all.len(), 1);
    assert_eq!(all[0].subject, "Hi");
}
