use dd_merge::order::{less, sort_ranked};
use dd_merge::sidebar::{
    is_folder_collapsed, BranchTreeNode, SidebarData, SidebarGroup, SidebarState,
};
use dd_merge::types::{branches, head_branch, remotes, stashes, tags};
use dd_merge::{BranchInfo, RemoteInfo, StashInfo, TagInfo};

#[test]
fn test_sidebar_data_groups_refs() {
    let data = SidebarData {
        branches: vec![
            BranchInfo {
                name: "main".into(),
                is_head: true,
            },
            BranchInfo {
                name: "feature".into(),
                is_head: false,
            },
        ],
        remotes: vec![RemoteInfo {
            name: "origin".into(),
        }],
        tags: vec![TagInfo {
            name: "v1.0".into(),
        }],
        stashes: vec![StashInfo {
            message: "WIP".into(),
        }],
    };
    assert_eq!(data.branches.len(), 2);
    assert_eq!(data.remotes.len(), 1);
    assert_eq!(data.tags.len(), 1);
    assert_eq!(data.stashes.len(), 1);
}

#[test]
fn test_build_tree_flat_branches() {
    let branches = vec![
        BranchInfo {
            name: "main".into(),
            is_head: true,
        },
        BranchInfo {
            name: "develop".into(),
            is_head: false,
        },
    ];
    let tree = BranchTreeNode::build(&branches);
    assert_eq!(tree.len(), 2);
    // Sorted alphabetically
    assert_eq!(tree[0].segment, "develop");
    assert_eq!(tree[1].segment, "main");
    // Both are leaves (no children)
    assert!(tree[0].children.is_empty());
    assert!(tree[1].children.is_empty());
    // Branch info present
    assert!(tree[0].branch.is_some());
    assert!(tree[1].branch.is_some());
    assert!(tree[1].branch.as_ref().unwrap().is_head);
}

#[test]
fn test_build_tree_nested() {
    let branches = vec![BranchInfo {
        name: "checkpoints/260214/feat/mvp-baseline1/1".into(),
        is_head: false,
    }];
    let tree = BranchTreeNode::build(&branches);
    assert_eq!(tree.len(), 1);
    assert_eq!(tree[0].segment, "checkpoints");
    assert!(tree[0].branch.is_none());
    assert_eq!(tree[0].children.len(), 1);
    assert_eq!(tree[0].children[0].segment, "260214");
    // Drill down to the leaf
    let leaf = &tree[0].children[0].children[0].children[0].children[0];
    assert_eq!(leaf.segment, "1");
    assert!(leaf.branch.is_some());
    assert!(leaf.children.is_empty());
}

#[test]
fn test_build_tree_shared_prefix() {
    let branches = vec![
        BranchInfo {
            name: "feat/a".into(),
            is_head: false,
        },
        BranchInfo {
            name: "feat/b".into(),
            is_head: false,
        },
    ];
    let tree = BranchTreeNode::build(&branches);
    assert_eq!(tree.len(), 1);
    assert_eq!(tree[0].segment, "feat");
    assert!(tree[0].branch.is_none());
    assert_eq!(tree[0].children.len(), 2);
    assert_eq!(tree[0].children[0].segment, "a");
    assert_eq!(tree[0].children[1].segment, "b");
}

#[test]
fn test_visible_count() {
    let branches = vec![
        BranchInfo {
            name: "feat/a".into(),
            is_head: false,
        },
        BranchInfo {
            name: "feat/b".into(),
            is_head: false,
        },
        BranchInfo {
            name: "main".into(),
            is_head: true,
        },
    ];
    let tree = BranchTreeNode::build(&branches);
    let collapsed: Vec<String> = Vec::new();

    // All expanded: feat(1) + a(1) + b(1) + main(1) = 4
    let total: usize = tree.iter().map(|n| n.visible_count(&collapsed)).sum();
    assert_eq!(total, 4);

    // Collapse "feat": feat(1) + main(1) = 2
    let mut collapsed = Vec::new();
    collapsed.push("feat".to_string());
    let total: usize = tree.iter().map(|n| n.visible_count(&collapsed)).sum();
    assert_eq!(total, 2);
}

#[test]
fn test_build_tree_branch_and_folder_same_name() {
    // Both "main" (a branch) and "main/hotfix" exist
    let branches = vec![
        BranchInfo {
            name: "main".into(),
            is_head: true,
        },
        BranchInfo {
            name: "main/hotfix".into(),
            is_head: false,
        },
    ];
    let tree = BranchTreeNode::build(&branches);
    assert_eq!(tree.len(), 1);
    // "main" is both folder and branch
    assert!(tree[0].branch.is_some());
    assert!(tree[0].branch.as_ref().unwrap().is_head);
    assert_eq!(tree[0].children.len(), 1);
    assert_eq!(tree[0].children[0].segment, "hotfix");
}

fn branch(name: &str) -> BranchInfo {
    BranchInfo { name: name.into(), is_head: false }
}

#[test]
fn paths_are_the_names_up_to_each_part() {
    let tree = BranchTreeNode::build(&[branch("z/y/x"), branch("z/b"), branch("a//c"), branch("")]);
    let segments: Vec<&str> = tree.iter().map(|n| n.segment.as_str()).collect();
    assert_eq!(segments, ["", "a", "z"]);
    assert_eq!(tree[0].path, "");
    assert!(tree[0].branch.is_some());
    let z = &tree[2];
    assert_eq!(z.path, "z");
    assert!(z.branch.is_none());
    assert_eq!(z.children[0].segment, "b");
    assert_eq!(z.children[0].path, "z/b");
    assert_eq!(z.children[0].branch.as_ref().unwrap().name, "z/b");
    assert_eq!(z.children[1].path, "z/y");
    assert_eq!(z.children[1].children[0].path, "z/y/x");
    let a = &tree[1];
    assert_eq!(a.children[0].segment, "");
    assert_eq!(a.children[0].path, "a/");
    assert_eq!(a.children[0].children[0].path, "a//c");
}

#[test]
fn a_later_branch_of_the_same_name_takes_the_node() {
    let tree = BranchTreeNode::build(&[
        BranchInfo { name: "x".into(), is_head: false },
        BranchInfo { name: "x".into(), is_head: true },
    ]);
    assert_eq!(tree.len(), 1);
    assert!(tree[0].branch.as_ref().unwrap().is_head);
}

#[test]
fn folded_folders_hide_what_is_below() {
    let tree = BranchTreeNode::build(&[branch("a/b/c"), branch("a/b/d"), branch("a/e")]);
    let a = &tree[0];
    assert_eq!(a.visible_count(&[]), 5);
    assert_eq!(a.visible_count(&["a/b".to_string()]), 3);
    assert_eq!(a.visible_count(&["a".to_string(), "a/b".to_string()]), 1);
    // a leaf has nothing to hide
    assert_eq!(a.visible_count(&["a/e".to_string(), "b".to_string()]), 5);
    assert!(is_folder_collapsed(&["a".to_string()], &"a".to_string()));
    assert!(!is_folder_collapsed(&["a".to_string()], &"a/".to_string()));
}

#[test]
fn groups_fold_and_open() {
    let mut sidebar = SidebarState::new_empty();
    assert!(!sidebar.is_collapsed(SidebarGroup::Tags));
    sidebar.toggle_group(SidebarGroup::Tags);
    sidebar.toggle_group(SidebarGroup::Stashes);
    assert!(sidebar.is_collapsed(SidebarGroup::Tags));
    assert!(sidebar.is_collapsed(SidebarGroup::Stashes));
    assert!(!sidebar.is_collapsed(SidebarGroup::Branches));
    sidebar.toggle_group(SidebarGroup::Tags);
    assert!(!sidebar.is_collapsed(SidebarGroup::Tags));
    assert_eq!(sidebar.collapsed, vec![SidebarGroup::Stashes]);
}

#[test]
fn folders_fold_and_open() {
    let mut sidebar = SidebarState::new_empty();
    sidebar.toggle_folder("feat".to_string());
    sidebar.toggle_folder("fix".to_string());
    assert!(sidebar.is_folder_collapsed(&"feat".to_string()));
    assert!(!sidebar.is_folder_collapsed(&"feature".to_string()));
    sidebar.toggle_folder("feat".to_string());
    assert!(!sidebar.is_folder_collapsed(&"feat".to_string()));
    assert_eq!(sidebar.collapsed_folders, vec!["fix".to_string()]);
    sidebar.toggle_folder("feat".to_string());
    assert_eq!(sidebar.collapsed_folders, vec!["fix".to_string(), "feat".to_string()]);
}

#[test]
fn new_data_builds_the_tree_anew() {
    let mut sidebar = SidebarState::new_empty();
    let mut data = SidebarData::empty();
    data.branches = vec![branch("b"), branch("a/x")];
    sidebar.toggle_folder("a".to_string());
    sidebar.set_data(data);
    assert_eq!(sidebar.data.branches.len(), 2);
    assert_eq!(sidebar.branch_tree.len(), 2);
    assert_eq!(sidebar.branch_tree[0].segment, "a");
    assert_eq!(sidebar.branch_tree[0].visible_count(&sidebar.collapsed_folders), 1);
    sidebar.set_data(SidebarData::empty());
    assert!(sidebar.branch_tree.is_empty());
}

#[test]
fn names_are_ordered_byte_by_byte() {
    assert!(less("a", "b"));
    assert!(less("", "a"));
    assert!(less("a", "aa"));
    assert!(less("Z", "a"));
    assert!(less("a", "é"));
    assert!(!less("a", "a"));
    assert!(!less("b", "a"));
    assert!(!less("", ""));
    for (a, b) in [("x", "y"), ("abc", "abd"), ("ab", "abc"), ("é", "z"), ("10", "9")] {
        assert_eq!(less(a, b), a < b);
        assert_eq!(less(b, a), b < a);
    }
}

#[test]
fn the_head_branch_comes_first() {
    let list = branches(
        vec!["zeta".to_string(), "main".to_string(), "alpha".to_string(), "beta".to_string()],
        &"main".to_string(),
    );
    let names: Vec<&str> = list.iter().map(|b| b.name.as_str()).collect();
    assert_eq!(names, ["main", "alpha", "beta", "zeta"]);
    assert!(list[0].is_head);
    assert!(list[1..].iter().all(|b| !b.is_head));
    let none = branches(vec!["b".to_string(), "a".to_string()], &String::new());
    assert_eq!(none[0].name, "a");
    assert!(!none[0].is_head);
}

#[test]
fn remotes_and_tags_come_by_name() {
    let list = remotes(vec!["upstream".to_string(), "origin".to_string()]);
    assert_eq!(list[0].name, "origin");
    assert_eq!(list[1].name, "upstream");
    let list = tags(vec!["v1.0.0".to_string(), "v0.1.0".to_string(), "v0.10.0".to_string()]);
    let names: Vec<&str> = list.iter().map(|t| t.name.as_str()).collect();
    assert_eq!(names, ["v0.1.0", "v0.10.0", "v1.0.0"]);
}

#[test]
fn the_newest_stash_comes_first() {
    let list = stashes(vec!["first".to_string(), "second".to_string(), "third".to_string()]);
    let messages: Vec<&str> = list.iter().map(|s| s.message.as_str()).collect();
    assert_eq!(messages, ["third", "second", "first"]);
    assert!(stashes(Vec::new()).is_empty());
}

#[test]
fn a_head_on_no_branch_is_detached() {
    assert_eq!(head_branch(Some("main".to_string())), "main");
    assert_eq!(head_branch(None), "HEAD (detached)");
}

#[test]
fn sorting_keeps_values_of_one_rank_in_order() {
    let mut list = vec![
        TagInfo { name: "b".into() },
        TagInfo { name: "a".into() },
        TagInfo { name: "b".into() },
        TagInfo { name: "".into() },
    ];
    sort_ranked(&mut list);
    let names: Vec<&str> = list.iter().map(|t| t.name.as_str()).collect();
    assert_eq!(names, ["", "a", "b", "b"]);
    let mut heads = vec![
        BranchInfo { name: "x".into(), is_head: false },
        BranchInfo { name: "y".into(), is_head: true },
        BranchInfo { name: "a".into(), is_head: true },
    ];
    sort_ranked(&mut heads);
    let names: Vec<&str> = heads.iter().map(|b| b.name.as_str()).collect();
    assert_eq!(names, ["a", "y", "x"]);
}

#[test]
fn nothing_is_folded_twice() {
    let mut sidebar = SidebarState::new_empty();
    let groups = [
        SidebarGroup::Tags,
        SidebarGroup::Branches,
        SidebarGroup::Tags,
        SidebarGroup::Stashes,
        SidebarGroup::Branches,
        SidebarGroup::Branches,
        SidebarGroup::Tags,
    ];
    let folders = ["a", "b", "a", "a/b", "b", "b", "a"];
    for (group, folder) in groups.iter().zip(folders) {
        sidebar.toggle_group(*group);
        sidebar.toggle_folder(folder.to_string());
        for (k, one) in sidebar.collapsed.iter().enumerate() {
            assert!(!sidebar.collapsed[..k].contains(one));
        }
        for (k, one) in sidebar.collapsed_folders.iter().enumerate() {
            assert!(!sidebar.collapsed_folders[..k].contains(one));
        }
    }
    assert_eq!(sidebar.collapsed, vec![SidebarGroup::Stashes, SidebarGroup::Branches, SidebarGroup::Tags]);
    assert_eq!(sidebar.collapsed_folders, vec!["a/b".to_string(), "b".to_string(), "a".to_string()]);
}

#[test]
fn a_toggle_takes_every_note_of_a_folder_off() {
    // a list that was filled by hand and holds a folder twice
    let mut sidebar = SidebarState::new_empty();
    sidebar.collapsed_folders = vec!["a".to_string(), "b".to_string(), "a".to_string()];
    sidebar.collapsed = vec![SidebarGroup::Tags, SidebarGroup::Tags];
    sidebar.toggle_folder("a".to_string());
    sidebar.toggle_group(SidebarGroup::Tags);
    assert_eq!(sidebar.collapsed_folders, vec!["b".to_string()]);
    assert!(sidebar.collapsed.is_empty());
}
