use dd_merge::sidebar::BranchTreeNode;
use dd_merge::BranchInfo;

/// A node as a plain value: segment, path, the branch's name and head
/// flag, the nodes below.
#[derive(Debug, PartialEq)]
struct Plain {
    segment: String,
    path: String,
    branch: Option<(String, bool)>,
    children: Vec<Plain>,
}

fn put(nodes: &mut Vec<Plain>, segments: &[&str], depth: usize, branch: &BranchInfo) {
    if depth >= segments.len() {
        return;
    }
    let segment = segments[depth];
    let path = segments[..=depth].join("/");
    let is_last = depth == segments.len() - 1;
    let taken = Some((branch.name.clone(), branch.is_head));
    if let Some(node) = nodes.iter_mut().find(|n| n.segment == segment && n.path == path) {
        if is_last {
            node.branch = taken;
        } else {
            put(&mut node.children, segments, depth + 1, branch);
        }
    } else {
        let mut node = Plain {
            segment: segment.to_string(),
            path,
            branch: if is_last { taken } else { None },
            children: Vec::new(),
        };
        if !is_last {
            put(&mut node.children, segments, depth + 1, branch);
        }
        nodes.push(node);
    }
}

fn sort(nodes: &mut [Plain]) {
    nodes.sort_by(|a, b| a.segment.cmp(&b.segment));
    for node in nodes.iter_mut() {
        sort(&mut node.children);
    }
}

/// Builds the tree with the string splitting and the sort of the standard
/// library.
fn build_plain(branches: &[BranchInfo]) -> Vec<Plain> {
    let mut roots = Vec::new();
    for branch in branches {
        let segments: Vec<&str> = branch.name.split('/').collect();
        put(&mut roots, &segments, 0, branch);
    }
    sort(&mut roots);
    roots
}

fn plain(nodes: &[BranchTreeNode]) -> Vec<Plain> {
    nodes
        .iter()
        .map(|node| Plain {
            segment: node.segment.clone(),
            path: node.path.clone(),
            branch: node.branch.as_ref().map(|b| (b.name.clone(), b.is_head)),
            children: plain(&node.children),
        })
        .collect()
}

fn rows(node: &Plain, folded: &[String]) -> usize {
    let mut count = 1;
    if !node.children.is_empty() && !folded.contains(&node.path) {
        for child in &node.children {
            count += rows(child, folded);
        }
    }
    count
}

const NAMES: [&str; 18] = [
    "main",
    "develop",
    "feat/a",
    "feat/b",
    "feat/a/deep",
    "feat",
    "fix/é",
    "fix/e",
    "Fix/upper",
    "release/1.0",
    "release/1.0/rc",
    "release/10",
    "a//b",
    "/lead",
    "trail/",
    "",
    "main",
    "z/y/x/w/v",
];

#[test]
fn the_tree_is_the_one_that_sorting_and_splitting_build() {
    for skip in 0..NAMES.len() {
        for take in 0..=NAMES.len() - skip {
            let branches: Vec<BranchInfo> = NAMES[skip..skip + take]
                .iter()
                .enumerate()
                .map(|(k, name)| BranchInfo { name: name.to_string(), is_head: k == 1 })
                .collect();
            let tree = BranchTreeNode::build(&branches);
            let expected = build_plain(&branches);
            assert_eq!(plain(&tree), expected, "branches {:?}", &NAMES[skip..skip + take]);
            for folded in [vec![], vec!["feat".to_string()], vec!["release".to_string(), "z/y".to_string()]] {
                for (node, like) in tree.iter().zip(&expected) {
                    assert_eq!(node.visible_count(&folded), rows(like, &folded));
                }
            }
        }
    }
}
