use imap_mcp_rs::imap_client::fetch::{newest_in_sequence, Fetched};
use imap_mcp_rs::imap_client::filter::PostFetchFilter;
use imap_mcp_rs::imap_client::folders::{
    filter_folder_names, find_folder_by_role, folder_has_role, is_folder_allowed, FolderListing, FolderRole,
    StatusAnswer,
};
use imap_mcp_rs::imap_client::uids::{
    acknowledged_uids, arrival_set, confirmed_uids, count_of, cut_by_arrival, newest_first,
    newest_uid, page_of, plan_page, sequence_window, sorted, uid_set_string,
};

fn arrival(uid: u32, at: Option<i64>) -> Fetched {
    Fetched {
        uid: Some(uid),
        body: None,
        flags: vec![],
        internal_unix: at,
    }
}

fn names(l: &[&str]) -> Vec<String> {
    l.iter().map(|s| s.to_string()).collect()
}

#[test]
fn numbers_are_ordered_both_ways() {
    assert_eq!(sorted(&[3, 1, 2, 3]), [1, 2, 3, 3]);
    assert_eq!(newest_first(&[3, 1, 2, 3]), [3, 3, 2, 1]);
    assert_eq!(newest_uid(&vec![3, 9, 2]), Some(9));
    assert_eq!(newest_uid(&vec![]), None);
    assert_eq!(count_of(7), 7);
}

#[test]
fn sets_join_neighbours() {
    assert_eq!(uid_set_string(&[5, 1, 2, 3, 9, 9]), "1:3,5,9,9");
    assert_eq!(uid_set_string(&[]), "");
}

#[test]
fn only_what_was_asked_is_confirmed() {
    assert_eq!(confirmed_uids(&[9, 2, 1, 2], &[1, 2, 3]), [1, 2]);
    let l = vec![arrival(2, None), arrival(9, None)];
    assert_eq!(acknowledged_uids(&l, &[1, 2]), [2]);
}

#[test]
fn pages_follow_each_other() {
    let all = vec![9, 8, 7, 6, 5];
    assert_eq!(page_of(&all, 0, 2), [9, 8]);
    assert_eq!(page_of(&all, 2, 2), [7, 6]);
    assert_eq!(page_of(&all, 4, 2), [5]);
    assert!(page_of(&all, 5, 2).is_empty());
    let p = plan_page(&newest_first(&[5, 9, 6, 8, 7]), 1, 2);
    assert_eq!(p.matched, 5);
    assert_eq!(p.set.as_deref(), Some("7:8"));
    assert_eq!(plan_page(&vec![5], 1, 2).set, None);
}

#[test]
fn windows_begin_at_the_newest() {
    assert_eq!(sequence_window(10, 0, 3).as_deref(), Some("8:10"));
    assert_eq!(sequence_window(10, 3, 3).as_deref(), Some("5:7"));
    assert_eq!(sequence_window(10, 9, 3).as_deref(), Some("1"));
    assert_eq!(sequence_window(10, 10, 3), None);
    assert_eq!(sequence_window(0, 0, 3), None);
}

#[test]
fn arrivals_outside_the_bounds_are_cut() {
    let mut post = PostFetchFilter::empty();
    post.internal_since_unix = Some(100);
    post.internal_before_unix = Some(200);
    let uids = vec![1, 2, 3, 4];
    let l = vec![
        arrival(1, Some(99)),
        arrival(2, Some(100)),
        arrival(3, Some(200)),
        arrival(4, None),
    ];
    assert_eq!(arrival_set(&uids), "1:4");
    let kept = cut_by_arrival(&uids, &l, &post);
    assert!(kept.contains(&2), "{kept:?}");
    assert!(!kept.contains(&1) && !kept.contains(&3), "{kept:?}");
}

#[test]
fn folders_are_allowed_whatever_the_case_of_the_inbox() {
    let allowed = Some(names(&["INBOX", "Archive"]));
    assert!(is_folder_allowed(&allowed, "inbox"));
    assert!(is_folder_allowed(&None, "Anything"));
    assert!(!is_folder_allowed(&allowed, "Spam"));
    assert_eq!(
        filter_folder_names(&allowed, &names(&["Archive", "Spam", "INBOX"])),
        ["Archive", "INBOX"]
    );
}

#[test]
fn folders_are_found_by_their_role() {
    assert!(folder_has_role("[Gmail]/Sent Mail", FolderRole::Sent));
    assert!(!folder_has_role("Sentinel", FolderRole::Drafts));
    let l = names(&["INBOX", "Gesendete Elemente", "Papierkorb"]);
    assert_eq!(
        find_folder_by_role(&l, FolderRole::Trash).as_deref(),
        Some("Papierkorb")
    );
    assert_eq!(find_folder_by_role(&l, FolderRole::Drafts), None);
}

#[test]
fn listings_survive_single_failures() {
    let mut l = FolderListing::start(&names(&["INBOX", "Shared", "Slow", "Trash"]));
    assert_eq!(l.next_folder().map(String::as_str), Some("INBOX"));
    l.note_status(StatusAnswer::Counted {
        total: 5,
        unseen: None,
    })
    .unwrap();
    l.note_status(StatusAnswer::Failed("no such folder".to_string()))
        .unwrap();
    l.note_status(StatusAnswer::TimedOut).unwrap();
    l.note_status(StatusAnswer::Counted {
        total: 2,
        unseen: Some(1),
    })
    .unwrap();
    assert!(l.next_folder().is_none());
    let counts: Vec<(u32, u32)> = l.finish().iter().map(|f| (f.total, f.unread)).collect();
    assert_eq!(counts, [(5, 0), (0, 0), (0, 0), (2, 1)]);
}

#[test]
fn listings_end_with_the_connection() {
    let mut l = FolderListing::start(&names(&["INBOX", "Sent"]));
    assert_eq!(
        l.note_status(StatusAnswer::Failed("connection lost".to_string())),
        Err("connection lost".to_string())
    );
    assert_eq!(l.next_folder().map(String::as_str), Some("INBOX"));
    assert!(l.finish().is_empty());
    let many: Vec<String> = (0..10_001).map(|i| i.to_string()).collect();
    assert_eq!(FolderListing::start(&many).names.len(), 10_000);
}

#[test]
fn sent_pages_are_put_in_order() {
    let page = vec![
        (3, arrival(30, None)),
        (5, arrival(50, None)),
        (4, arrival(40, None)),
        (5, arrival(51, None)),
    ];
    let uids: Vec<Option<u32>> = newest_in_sequence(page).iter().map(|f| f.uid).collect();
    assert_eq!(uids, [Some(50), Some(51), Some(40), Some(30)]);
}
