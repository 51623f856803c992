use dd_merge::state::{active_tab_index, TabInfo};
use dd_merge::{AppState, RepoTab};

#[test]
fn test_app_state_default() {
    let state = AppState::default();
    assert!(state.repos.is_empty());
    assert_eq!(state.active_tab, 0);
}

#[test]
fn test_add_repo() {
    let mut state = AppState::default();
    state.add_repo(String::from("/tmp/my_repo"));
    assert_eq!(state.repos.len(), 1);
    assert_eq!(state.repos[0].name, "my_repo");
    assert_eq!(state.active_tab, 0);
}

#[test]
fn state_test_add_multiple_repos() {
    let mut state = AppState::default();
    state.add_repo(String::from("/tmp/repo1"));
    state.add_repo(String::from("/tmp/repo2"));
    assert_eq!(state.repos.len(), 2);
    assert_eq!(state.active_tab, 1);
}

#[test]
fn state_test_remove_repo() {
    let mut state = AppState::default();
    state.add_repo(String::from("/tmp/repo1"));
    state.add_repo(String::from("/tmp/repo2"));
    state.remove_repo(0);
    assert_eq!(state.repos.len(), 1);
    assert_eq!(state.repos[0].name, "repo2");
}

#[test]
fn test_remove_repo_out_of_bounds() {
    let mut state = AppState::default();
    state.add_repo(String::from("/tmp/repo1"));
    state.add_repo(String::from("/tmp/repo2"));
    state.remove_repo(99);
    assert_eq!(state.repos.len(), 2);
    assert_eq!(state.active_tab, 1);
}

#[test]
fn test_reorder_repos_forward() {
    let mut state = AppState::default();
    state.add_repo(String::from("/tmp/a"));
    state.add_repo(String::from("/tmp/b"));
    state.add_repo(String::from("/tmp/c"));
    state.active_tab = 0; // point at "a"
    state.reorder_repos(0, 2);
    assert_eq!(state.repos[0].name, "b");
    assert_eq!(state.repos[1].name, "c");
    assert_eq!(state.repos[2].name, "a");
    assert_eq!(state.active_tab, 2); // follows "a"
}

#[test]
fn test_reorder_repos_backward() {
    let mut state = AppState::default();
    state.add_repo(String::from("/tmp/a"));
    state.add_repo(String::from("/tmp/b"));
    state.add_repo(String::from("/tmp/c"));
    state.active_tab = 2; // point at "c"
    state.reorder_repos(2, 0);
    assert_eq!(state.repos[0].name, "c");
    assert_eq!(state.repos[1].name, "a");
    assert_eq!(state.repos[2].name, "b");
    assert_eq!(state.active_tab, 0); // follows "c"
}

#[test]
fn test_reorder_repos_same_index_noop() {
    let mut state = AppState::default();
    state.add_repo(String::from("/tmp/a"));
    state.add_repo(String::from("/tmp/b"));
    state.active_tab = 0;
    state.reorder_repos(1, 1);
    assert_eq!(state.repos[0].name, "a");
    assert_eq!(state.repos[1].name, "b");
    assert_eq!(state.active_tab, 0);
}

#[test]
fn test_reorder_repos_out_of_bounds_noop() {
    let mut state = AppState::default();
    state.add_repo(String::from("/tmp/a"));
    state.add_repo(String::from("/tmp/b"));
    state.active_tab = 0;
    state.reorder_repos(0, 99);
    assert_eq!(state.repos[0].name, "a");
    assert_eq!(state.repos[1].name, "b");
    assert_eq!(state.active_tab, 0);
}

#[test]
fn test_reorder_repos_active_tab_follows() {
    let mut state = AppState::default();
    state.add_repo(String::from("/tmp/a"));
    state.add_repo(String::from("/tmp/b"));
    state.add_repo(String::from("/tmp/c"));
    state.active_tab = 1; // point at "b"
    state.reorder_repos(0, 2); // move "a" to end
    assert_eq!(state.repos[0].name, "b");
    assert_eq!(state.active_tab, 0); // "b" is now at 0
}

#[test]
fn test_remove_all_repos() {
    let mut state = AppState::default();
    state.add_repo(String::from("/tmp/repo1"));
    state.add_repo(String::from("/tmp/repo2"));
    state.remove_repo(1);
    state.remove_repo(0);
    assert!(state.repos.is_empty());
    assert_eq!(state.active_tab, 0);
}

#[test]
fn state_add_remove_sequence() {
    let mut state = AppState::default();
    state.add_repo(String::from("/a"));
    state.add_repo(String::from("/b"));
    state.add_repo(String::from("/c"));
    assert_eq!(state.active_tab, 2); // active = last added

    // Remove middle (/b at index 1)
    state.remove_repo(1);
    assert_eq!(state.repos.len(), 2);
    assert_eq!(state.repos[0].name, "a");
    assert_eq!(state.repos[1].name, "c");
    // active_tab was 2, now clamped to repos.len()-1 = 1
    assert_eq!(state.active_tab, 1);

    // Remove first (/a at index 0)
    state.remove_repo(0);
    assert_eq!(state.repos.len(), 1);
    assert_eq!(state.repos[0].name, "c");
    assert_eq!(state.active_tab, 0);
}

#[test]
fn a_path_without_a_last_component_is_unknown() {
    let mut state = AppState::default();
    state.add_repo(String::from("/"));
    assert_eq!(state.repos[0].name, "unknown");
    assert_eq!(state.repos[0].path, "/");
    state.add_named_repo(String::from("/x/y"), None);
    assert_eq!(state.repos[1].name, "unknown");
    state.add_named_repo(String::from("/x/y"), Some(String::from("why")));
    assert_eq!(state.repos[2].name, "why");
    assert_eq!(state.active_tab, 2);
}

#[test]
fn active_tab_follows_the_first_tab_with_its_path() {
    let mut state = AppState {
        repos: vec![
            RepoTab { path: "/p".into(), name: "one".into() },
            RepoTab { path: "/q".into(), name: "two".into() },
            RepoTab { path: "/p".into(), name: "three".into() },
        ],
        active_tab: 2,
    };
    // "three" is active; after the move "one" is still the first tab at "/p"
    state.reorder_repos(1, 0);
    assert_eq!(state.repos[0].name, "two");
    assert_eq!(state.repos[1].name, "one");
    assert_eq!(state.active_tab, 1);
}

#[test]
fn active_tab_outside_the_tabs_stays_on_a_move() {
    let mut state = AppState {
        repos: vec![
            RepoTab { path: "/p".into(), name: "one".into() },
            RepoTab { path: "/q".into(), name: "two".into() },
        ],
        active_tab: 7,
    };
    state.reorder_repos(0, 1);
    assert_eq!(state.repos[0].name, "two");
    assert_eq!(state.active_tab, 7);
}

fn three_tabs(active_tab: usize) -> AppState {
    AppState {
        repos: vec![
            RepoTab { path: "/a".into(), name: "a".into() },
            RepoTab { path: "/b".into(), name: "b".into() },
            RepoTab { path: "/c".into(), name: "c".into() },
        ],
        active_tab,
    }
}

#[test]
fn next_and_previous_tab_go_around() {
    let mut state = three_tabs(1);
    assert!(state.next_tab());
    assert_eq!(state.active_tab, 2);
    assert!(state.next_tab());
    assert_eq!(state.active_tab, 0);
    assert!(state.previous_tab());
    assert_eq!(state.active_tab, 2);
    assert!(state.previous_tab());
    assert_eq!(state.active_tab, 1);
    let mut far = three_tabs(usize::MAX);
    assert!(far.next_tab());
    assert_eq!(far.active_tab, ((usize::MAX % 3) + 1) % 3);
}

#[test]
fn one_tab_has_no_next_tab() {
    let mut state = AppState::default();
    assert!(!state.next_tab());
    assert!(!state.previous_tab());
    state.add_repo(String::from("/only"));
    assert!(!state.next_tab());
    assert!(!state.previous_tab());
    assert_eq!(state.active_tab, 0);
}

#[test]
fn set_active_tab_needs_a_tab() {
    let mut state = three_tabs(0);
    assert!(state.set_active_tab(2));
    assert_eq!(state.active_tab, 2);
    assert!(!state.set_active_tab(3));
    assert_eq!(state.active_tab, 2);
}

#[test]
fn close_active_tab_closes_the_last_when_beyond() {
    let mut state = three_tabs(1);
    assert!(state.close_active_tab());
    assert_eq!(state.repos.len(), 2);
    assert_eq!(state.repos[1].name, "c");
    assert_eq!(state.active_tab, 1);
    let mut beyond = three_tabs(9);
    assert!(beyond.close_active_tab());
    assert_eq!(beyond.repos.len(), 2);
    assert_eq!(beyond.repos[1].name, "b");
    assert_eq!(beyond.active_tab, 1);
    let mut empty = AppState::default();
    assert!(!empty.close_active_tab());
}

#[test]
fn has_repo_goes_by_the_path() {
    let state = three_tabs(0);
    assert!(state.has_repo(&String::from("/b")));
    assert!(!state.has_repo(&String::from("/b/")));
    assert!(!state.has_repo(&String::from("b")));
}

#[test]
fn keep_repos_drops_the_unflagged_tabs() {
    let mut state = three_tabs(2);
    state.keep_repos(&[true, false, true]);
    assert_eq!(state.repos.len(), 2);
    assert_eq!(state.repos[0].name, "a");
    assert_eq!(state.repos[1].name, "c");
    assert_eq!(state.active_tab, 1);
    let mut short = three_tabs(1);
    short.keep_repos(&[true]);
    assert_eq!(short.repos.len(), 1);
    assert_eq!(short.active_tab, 0);
    let mut none = three_tabs(1);
    none.keep_repos(&[]);
    assert!(none.repos.is_empty());
    assert_eq!(none.active_tab, 0);
}

#[test]
fn test_tab_info() {
    let tabs = vec![
        TabInfo {
            name: "repo1".into(),
            is_active: true,
            is_dirty: false,
        },
        TabInfo {
            name: "repo2".into(),
            is_active: false,
            is_dirty: false,
        },
    ];
    assert_eq!(tabs.len(), 2);
    assert!(tabs[0].is_active);
    assert!(!tabs[1].is_active);
}

#[test]
fn the_tab_bar_shows_each_tab() {
    let state = AppState {
        repos: vec![
            RepoTab { path: "/r1".into(), name: "repo1".into() },
            RepoTab { path: "/r2".into(), name: "repo2".into() },
        ],
        active_tab: 0,
    };
    let tabs = state.tab_infos(&[false, true]);
    assert_eq!(tabs.len(), 2);
    assert_eq!(tabs[0].name, "repo1");
    assert!(tabs[0].is_active);
    assert!(!tabs[0].is_dirty);
    assert_eq!(tabs[1].name, "repo2");
    assert!(!tabs[1].is_active);
    assert!(tabs[1].is_dirty);
    assert_eq!(active_tab_index(&tabs), Some(0));
    assert_eq!(active_tab_index(&state.tab_infos(&[])[1..]), None);
}

#[test]
fn a_clone_of_the_state_is_the_same() {
    let state = three_tabs(2);
    let copy = state.clone();
    assert_eq!(copy.active_tab, 2);
    assert_eq!(copy.repos.len(), 3);
    assert_eq!(copy.repos[1].path, "/b");
    assert_eq!(copy.repos[1].name, "b");
}
