use dd_merge::history::{CommitHistory, LOAD_MORE_THRESHOLD};
use dd_merge::CommitInfo;

fn commit(oid: &str) -> CommitInfo {
    CommitInfo {
        oid: oid.into(),
        short_oid: oid.chars().take(7).collect(),
        tree_oid: String::new(),
        author_name: "Alice".into(),
        author_email: "alice@example.com".into(),
        date: 1700000000,
        committer_name: "Alice".into(),
        committer_email: "alice@example.com".into(),
        committer_date: 1700000000,
        subject: "subject".into(),
        body: String::new(),
        parent_oids: vec![],
    }
}

fn commits(count: usize) -> Vec<CommitInfo> {
    (0..count).map(|k| commit(&format!("{k:040x}"))).collect()
}

#[test]
fn a_new_list_is_empty() {
    let list = CommitHistory::new_empty();
    assert!(list.commits.is_empty());
    assert_eq!(list.selected_index, None);
    assert!(!list.all_loaded);
    assert!(!list.check_load_more(0));
}

#[test]
fn selecting_tells_whether_the_selection_changed() {
    let mut list = CommitHistory::new_empty();
    list.set_commits(commits(3));
    assert!(list.select_commit(1));
    assert_eq!(list.selected_index, Some(1));
    assert!(!list.select_commit(1));
    assert!(!list.select_commit(3));
    assert_eq!(list.selected_index, Some(1));
    assert!(list.select_commit(0));
    list.set_commits(commits(1));
    assert_eq!(list.selected_index, None);
}

#[test]
fn more_is_loaded_near_the_end() {
    let mut list = CommitHistory::new_empty();
    list.batch_size = 100;
    list.set_commits(commits(100));
    assert!(!list.check_load_more(100 - LOAD_MORE_THRESHOLD - 1));
    assert!(list.check_load_more(100 - LOAD_MORE_THRESHOLD));
    assert!(list.check_load_more(100));
    assert!(list.check_load_more(1000));
    list.mark_all_loaded();
    assert!(!list.check_load_more(100));
}

#[test]
fn a_short_load_is_the_last() {
    let mut list = CommitHistory::new_empty();
    list.batch_size = 5;
    list.set_commits(commits(5));
    list.select_commit(2);
    list.add_loaded(commits(5));
    assert_eq!(list.commits.len(), 10);
    assert!(!list.all_loaded);
    assert_eq!(list.selected_index, Some(2));
    list.add_loaded(commits(4));
    assert_eq!(list.commits.len(), 14);
    assert_eq!(list.commits[13].oid, format!("{:040x}", 3));
    assert!(list.all_loaded);
    list.set_commits(commits(2));
    assert!(!list.all_loaded);
}
