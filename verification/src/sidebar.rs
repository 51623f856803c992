//! The sidebar: the references of a repository in groups, and the local
//! branches as a tree of folders, one folder for each part of a name
//! before a slash.

use crate::count::capped;
use crate::order::{in_order, less, precedes, sort_ranked, Ranked};
use crate::text::{
    bytes_of, find_byte, is_cut, lemma_cut_around_ascii, lemma_position_bounds, position_of,
    slice,
};
use crate::types::{BranchInfo, RemoteInfo, StashInfo, TagInfo};
use vstd::prelude::*;
use vstd::string::*;
use vstd::utf8::*;

verus! {

/// The slash that parts the folders of a branch name.
pub const SLASH: u8 = 0x2f;

/// A group of the sidebar.
#[derive(Debug, Clone, Copy, PartialEq, Eq, Hash, Structural)]
pub enum SidebarGroup {
    Branches,
    Remotes,
    Tags,
    Stashes,
    Submodules,
}

/// What the sidebar lists.
#[derive(Debug)]
pub struct SidebarData {
    pub branches: Vec<BranchInfo>,
    pub remotes: Vec<RemoteInfo>,
    pub tags: Vec<TagInfo>,
    pub stashes: Vec<StashInfo>,
}

impl SidebarData {
    /// Nothing to list.
    pub fn empty() -> (data: SidebarData)
        ensures
            data.branches@.len() == 0,
            data.remotes@.len() == 0,
            data.tags@.len() == 0,
            data.stashes@.len() == 0,
    {
        SidebarData {
            branches: Vec::new(),
            remotes: Vec::new(),
            tags: Vec::new(),
            stashes: Vec::new(),
        }
    }
}

/// A folder or a branch in the tree of branches, or both at once.
#[derive(Debug)]
pub struct BranchTreeNode {
    /// The part of the name that the node stands for.
    pub segment: String,
    /// The name up to and with that part.
    pub path: String,
    /// The branch of that name, if there is one.
    pub branch: Option<BranchInfo>,
    pub children: Vec<BranchTreeNode>,
}

/// The model of a [`BranchTreeNode`]: its texts as UTF-8 bytes.
pub struct NodeModel {
    pub segment: Seq<u8>,
    pub path: Seq<u8>,
    pub branch: Option<BranchInfo>,
    pub children: Seq<NodeModel>,
}

/// The model of a node.
pub open spec fn node_model(node: BranchTreeNode) -> NodeModel
    decreases node, 0int,
{
    NodeModel {
        segment: bytes_of(node.segment@),
        path: bytes_of(node.path@),
        branch: node.branch,
        children: first_models(node.children@, node.children@.len() as int),
    }
}

/// The models of the first `upto` nodes.
pub open spec fn first_models(nodes: Seq<BranchTreeNode>, upto: int) -> Seq<NodeModel>
    decreases nodes, upto,
{
    if upto <= 0 || upto > nodes.len() {
        seq![]
    } else {
        first_models(nodes, upto - 1).push(node_model(nodes[upto - 1]))
    }
}

/// The models of nodes.
pub open spec fn node_models(nodes: Seq<BranchTreeNode>) -> Seq<NodeModel> {
    first_models(nodes, nodes.len() as int)
}

impl View for BranchTreeNode {
    type V = NodeModel;

    open spec fn view(&self) -> NodeModel {
        node_model(*self)
    }
}

/// The models of nodes are the models of each, in order.
pub proof fn lemma_node_models(nodes: Seq<BranchTreeNode>, upto: int)
    requires
        0 <= upto <= nodes.len(),
    ensures
        first_models(nodes, upto).len() == upto,
        forall|k: int| 0 <= k < upto ==> (#[trigger] first_models(nodes, upto)[k]) == nodes[k]@,
    decreases upto,
{
    if upto > 0 {
        lemma_node_models(nodes, upto - 1);
    }
}

/// The index of the first node with the given segment and path, or the
/// number of nodes where there is none.
pub open spec fn node_index(nodes: Seq<NodeModel>, segment: Seq<u8>, path: Seq<u8>, from: int)
    -> int
    decreases nodes.len() - from,
{
    if from < 0 || from >= nodes.len() || (nodes[from].segment == segment && nodes[from].path
        == path) {
        from
    } else {
        node_index(nodes, segment, path, from + 1)
    }
}

/// The nodes with the branch `branch` of name `name` put in, from the part
/// of the name that begins at byte `from` on.
///
/// The part ends at the next slash or at the end of the name. The node for
/// it is the first of the nodes with that part as its segment and the name
/// up to there as its path; where there is none, a new node comes behind
/// the others. The node of the last part takes the branch; the node of
/// another takes the rest of the name among its children.
pub open spec fn inserted(nodes: Seq<NodeModel>, name: Seq<u8>, from: int, branch: BranchInfo)
    -> Seq<NodeModel>
    decreases name.len() - from,
{
    if from < 0 || from > name.len() {
        nodes
    } else {
        let end = position_of(name, SLASH, from);
        let segment = name.subrange(from, end);
        let path = name.subrange(0, end);
        let last = end >= name.len();
        let found = node_index(nodes, segment, path, 0);
        proof {
            lemma_position_bounds(name, SLASH, from);
        }
        if found < nodes.len() {
            if last {
                nodes.update(found, NodeModel { branch: Some(branch), ..nodes[found] })
            } else {
                nodes.update(
                    found,
                    NodeModel {
                        children: inserted(nodes[found].children, name, end + 1, branch),
                        ..nodes[found]
                    },
                )
            }
        } else {
            nodes.push(
                NodeModel {
                    segment,
                    path,
                    branch: if last {
                        Some(branch)
                    } else {
                        None
                    },
                    children: if last {
                        seq![]
                    } else {
                        inserted(seq![], name, end + 1, branch)
                    },
                },
            )
        }
    }
}

/// Two strings with the same bytes are the same.
pub proof fn lemma_same_bytes(a: Seq<char>, b: Seq<char>)
    requires
        bytes_of(a) == bytes_of(b),
    ensures
        a == b,
{
    encode_utf8_decode_utf8(a);
    encode_utf8_decode_utf8(b);
}

/// Finds the first node with the given segment and path.
fn find_node(nodes: &Vec<BranchTreeNode>, segment: &String, path: &String) -> (found: usize)
    ensures
        found == node_index(node_models(nodes@), bytes_of(segment@), bytes_of(path@), 0),
        found <= nodes@.len(),
{
    let ghost models = node_models(nodes@);
    proof {
        lemma_node_models(nodes@, nodes@.len() as int);
    }
    let mut at: usize = 0;
    while at < nodes.len()
        invariant
            models == node_models(nodes@),
            models.len() == nodes@.len(),
            forall|k: int| 0 <= k < nodes@.len() ==> (#[trigger] models[k]) == nodes@[k]@,
            at <= nodes@.len(),
            node_index(models, bytes_of(segment@), bytes_of(path@), at as int) == node_index(
                models,
                bytes_of(segment@),
                bytes_of(path@),
                0,
            ),
        decreases nodes@.len() - at,
    {
        proof {
            assert(models[at as int] == nodes@[at as int]@);
            if bytes_of(nodes@[at as int].segment@) == bytes_of(segment@) {
                lemma_same_bytes(nodes@[at as int].segment@, segment@);
            }
            if bytes_of(nodes@[at as int].path@) == bytes_of(path@) {
                lemma_same_bytes(nodes@[at as int].path@, path@);
            }
        }
        if nodes[at].segment == *segment && nodes[at].path == *path {
            return at;
        }
        at = at + 1;
    }
    at
}

/// Puts a branch in the tree, from the part of its name that begins at
/// byte `from` on.
fn insert(nodes: &mut Vec<BranchTreeNode>, name: &str, from: usize, branch: &BranchInfo)
    requires
        is_cut(name.spec_bytes(), from as int),
    ensures
        node_models(final(nodes)@) == inserted(
            node_models(old(nodes)@),
            name.spec_bytes(),
            from as int,
            *branch,
        ),
    decreases name.spec_bytes().len() - from,
{
    let bytes = name.as_bytes();
    let ghost text = name.spec_bytes();
    let ghost given = nodes@;
    let end = find_byte(bytes, SLASH, from);
    let last = end >= bytes.len();
    proof {
        encode_utf8_valid_utf8(name@);
        is_char_boundary_start_end_of_seq(text);
        lemma_position_bounds(text, SLASH, from as int);
        if !last {
            lemma_cut_around_ascii(text, end as int);
        }
        lemma_node_models(given, given.len() as int);
    }
    let segment = slice(name, from, end).to_owned();
    let path = slice(name, 0, end).to_owned();
    let found = find_node(nodes, &segment, &path);
    if found < nodes.len() {
        if last {
            nodes[found].branch = Some(branch.clone());
        } else {
            insert(&mut nodes[found].children, name, end + 1, branch);
        }
        proof {
            lemma_node_models(nodes@, nodes@.len() as int);
            assert(node_models(nodes@)
                =~= inserted(node_models(given), text, from as int, *branch));
        }
    } else {
        let mut node = BranchTreeNode {
            segment,
            path,
            branch: if last {
                Some(branch.clone())
            } else {
                None
            },
            children: Vec::new(),
        };
        if !last {
            insert(&mut node.children, name, end + 1, branch);
        }
        nodes.push(node);
        proof {
            lemma_node_models(nodes@, nodes@.len() as int);
            assert(node_models(nodes@)
                =~= inserted(node_models(given), text, from as int, *branch));
        }
    }
}

impl Ranked for BranchTreeNode {
    /// Nodes stand by their segments.
    open spec fn ranks_before(&self, other: &Self) -> bool {
        precedes(bytes_of(self.segment@), bytes_of(other.segment@))
    }

    fn stands_before(&self, other: &Self) -> (before: bool) {
        less(self.segment.as_str(), other.segment.as_str())
    }

    proof fn lemma_rank_one_way(a: &Self, b: &Self) {
        crate::order::lemma_order_total(bytes_of(a.segment@), bytes_of(b.segment@));
    }

    proof fn lemma_rank_keeps_ties(a: &Self, b: &Self, c: &Self) {
        crate::order::lemma_order_keeps_ties(
            bytes_of(a.segment@),
            bytes_of(b.segment@),
            bytes_of(c.segment@),
        );
    }
}

/// Where a node with the given segment goes among `sorted` from index
/// `from` on: before the first node whose segment does not come before it.
pub open spec fn node_place(sorted: Seq<NodeModel>, segment: Seq<u8>, from: int) -> int
    decreases sorted.len() - from,
{
    if from < 0 || from >= sorted.len() || !precedes(sorted[from].segment, segment) {
        from
    } else {
        node_place(sorted, segment, from + 1)
    }
}

/// The nodes in the order of their segments; nodes of one segment keep
/// their order.
pub open spec fn nodes_in_order(nodes: Seq<NodeModel>) -> Seq<NodeModel>
    decreases nodes.len(),
{
    if nodes.len() == 0 {
        nodes
    } else {
        let behind = nodes_in_order(nodes.drop_first());
        behind.insert(node_place(behind, nodes[0].segment, 0), nodes[0])
    }
}

/// A node with the nodes below it in order, on every level.
pub open spec fn sorted_node(node: NodeModel) -> NodeModel
    decreases node, 0int,
{
    NodeModel { children: sorted_tree(node.children), ..node }
}

/// The first `upto` nodes, each with the nodes below it in order.
pub open spec fn sorted_each(nodes: Seq<NodeModel>, upto: int) -> Seq<NodeModel>
    decreases nodes, upto,
{
    if upto <= 0 || upto > nodes.len() {
        seq![]
    } else {
        sorted_each(nodes, upto - 1).push(sorted_node(nodes[upto - 1]))
    }
}

/// The nodes in order, on every level of the tree.
pub open spec fn sorted_tree(nodes: Seq<NodeModel>) -> Seq<NodeModel>
    decreases nodes, nodes.len() + 1,
{
    nodes_in_order(sorted_each(nodes, nodes.len() as int))
}

/// Each of the first nodes with its nodes in order is the node of that index.
pub proof fn lemma_sorted_each(nodes: Seq<NodeModel>, upto: int)
    requires
        0 <= upto <= nodes.len(),
    ensures
        sorted_each(nodes, upto).len() == upto,
        forall|k: int| 0 <= k < upto ==>
            (#[trigger] sorted_each(nodes, upto)[k]) == sorted_node(nodes[k]),
    decreases upto,
{
    if upto > 0 {
        lemma_sorted_each(nodes, upto - 1);
    }
}

/// The place of a node among nodes is the place of its model among their
/// models.
proof fn lemma_place_of_model(sorted: Seq<BranchTreeNode>, item: BranchTreeNode, from: int)
    requires
        0 <= from <= sorted.len(),
    ensures
        crate::order::place_from(sorted, item, from) == node_place(
            node_models(sorted),
            item@.segment,
            from,
        ),
    decreases sorted.len() - from,
{
    lemma_node_models(sorted, sorted.len() as int);
    if from < sorted.len() {
        assert(node_models(sorted)[from] == sorted[from]@);
        if sorted[from].ranks_before(&item) {
            lemma_place_of_model(sorted, item, from + 1);
        }
    }
}

/// The models of nodes in order are their models in order.
proof fn lemma_models_in_order(nodes: Seq<BranchTreeNode>)
    ensures
        node_models(in_order(nodes)) == nodes_in_order(node_models(nodes)),
    decreases nodes.len(),
{
    lemma_node_models(nodes, nodes.len() as int);
    if nodes.len() == 0 {
        assert(node_models(nodes) =~= Seq::<NodeModel>::empty());
    } else {
        let rest = nodes.drop_first();
        let behind = in_order(rest);
        let place = crate::order::place_from(behind, nodes[0], 0);
        lemma_models_in_order(rest);
        lemma_place_of_model(behind, nodes[0], 0);
        crate::order::lemma_place_from(behind, nodes[0], 0);
        lemma_node_models(rest, rest.len() as int);
        lemma_node_models(behind, behind.len() as int);
        lemma_node_models(behind.insert(place, nodes[0]), behind.len() as int + 1);
        assert(node_models(rest) =~= node_models(nodes).drop_first());
        assert(node_models(behind.insert(place, nodes[0])) =~= node_models(behind).insert(
            place,
            nodes[0]@,
        ));
    }
}

/// Puts the nodes in order, on every level of the tree.
fn sort_all(nodes: &mut Vec<BranchTreeNode>)
    ensures
        node_models(final(nodes)@) == sorted_tree(node_models(old(nodes)@)),
    decreases old(nodes)@,
{
    let ghost given = nodes@;
    let count = nodes.len();
    let mut at: usize = 0;
    proof {
        lemma_node_models(given, given.len() as int);
    }
    while at < count
        invariant
            nodes@.len() == count,
            given.len() == count,
            given == old(nodes)@,
            at <= count,
            forall|k: int| 0 <= k < at ==> (#[trigger] nodes@[k])@ == sorted_node(given[k]@),
            forall|k: int| at <= k < count ==> nodes@[k] == given[k],
        decreases count - at,
    {
        sort_all(&mut nodes[at].children);
        at = at + 1;
    }
    proof {
        lemma_node_models(nodes@, count as int);
        lemma_sorted_each(node_models(given), count as int);
        assert(node_models(nodes@) =~= sorted_each(node_models(given), count as int));
        lemma_models_in_order(nodes@);
    }
    sort_ranked(nodes);
}

/// The tree with the first `upto` branches put in, one after the other.
pub open spec fn with_branches(branches: Seq<BranchInfo>, upto: int) -> Seq<NodeModel>
    decreases upto,
{
    if upto <= 0 || upto > branches.len() {
        seq![]
    } else {
        inserted(
            with_branches(branches, upto - 1),
            bytes_of(branches[upto - 1].name@),
            0,
            branches[upto - 1],
        )
    }
}

/// The tree of the branches: every branch put in, then every level in order.
pub open spec fn branch_tree(branches: Seq<BranchInfo>) -> Seq<NodeModel> {
    sorted_tree(with_branches(branches, branches.len() as int))
}

/// How many rows a node takes in the sidebar: one for itself, and those of
/// the nodes below it unless its folder is folded.
pub open spec fn visible_rows(node: NodeModel, folded: Set<Seq<u8>>) -> nat
    decreases node, 0int,
{
    if node.children.len() > 0 && !folded.contains(node.path) {
        1 + visible_rows_of(node.children, folded, node.children.len() as int)
    } else {
        1
    }
}

/// How many rows the first `upto` nodes take.
pub open spec fn visible_rows_of(nodes: Seq<NodeModel>, folded: Set<Seq<u8>>, upto: int) -> nat
    decreases nodes, upto,
{
    if upto <= 0 || upto > nodes.len() {
        0
    } else {
        visible_rows_of(nodes, folded, upto - 1) + visible_rows(nodes[upto - 1], folded)
    }
}

/// The paths among the given ones, as a set.
pub open spec fn paths_of(paths: Seq<String>) -> Set<Seq<u8>> {
    Set::new(
        |path: Seq<u8>|
            exists|k: int| 0 <= k < paths.len() && bytes_of((#[trigger] paths[k])@) == path,
    )
}

/// Tells whether a path is among the given ones.
pub fn is_folder_collapsed(collapsed: &[String], path: &String) -> (folded: bool)
    ensures
        folded == paths_of(collapsed@).contains(bytes_of(path@)),
{
    let mut at: usize = 0;
    while at < collapsed.len()
        invariant
            at <= collapsed@.len(),
            forall|k: int| 0 <= k < at ==> bytes_of((#[trigger] collapsed@[k])@) != bytes_of(path@),
        decreases collapsed@.len() - at,
    {
        if collapsed[at] == *path {
            return true;
        }
        proof {
            if bytes_of(collapsed@[at as int]@) == bytes_of(path@) {
                lemma_same_bytes(collapsed@[at as int]@, path@);
            }
        }
        at = at + 1;
    }
    false
}

impl BranchTreeNode {
    /// Builds the tree of the branches.
    pub fn build(branches: &[BranchInfo]) -> (roots: Vec<BranchTreeNode>)
        ensures
            node_models(roots@) == branch_tree(branches@),
    {
        let mut roots: Vec<BranchTreeNode> = Vec::new();
        let mut at: usize = 0;
        while at < branches.len()
            invariant
                at <= branches@.len(),
                node_models(roots@) == with_branches(branches@, at as int),
            decreases branches@.len() - at,
        {
            let name = branches[at].name.as_str();
            proof {
                encode_utf8_valid_utf8(name@);
                is_char_boundary_start_end_of_seq(name.spec_bytes());
            }
            insert(&mut roots, name, 0, &branches[at]);
            at = at + 1;
        }
        sort_all(&mut roots);
        roots
    }

    /// Counts the rows that the node takes in the sidebar, where
    /// `collapsed` holds the paths of the folders that are folded. The
    /// count stops at the largest number that `usize` holds.
    pub fn visible_count(&self, collapsed: &[String]) -> (count: usize)
        ensures
            count == capped(visible_rows(self@, paths_of(collapsed@))),
        decreases self,
    {
        let mut count: usize = 1;
        if self.children.len() > 0 && !is_folder_collapsed(collapsed, &self.path) {
            let ghost folded = paths_of(collapsed@);
            let ghost below = node_models(self.children@);
            proof {
                lemma_node_models(self.children@, self.children@.len() as int);
            }
            let mut at: usize = 0;
            while at < self.children.len()
                invariant
                    at <= self.children@.len(),
                    folded == paths_of(collapsed@),
                    below == node_models(self.children@),
                    below.len() == self.children@.len(),
                    forall|k: int|
                        0 <= k < self.children@.len() ==> (#[trigger] below[k])
                            == self.children@[k]@,
                    count == capped(
                        1 + visible_rows_of(below, folded, at as int),
                    ),
                decreases self.children@.len() - at,
            {
                let rows = self.children[at].visible_count(collapsed);
                count = count.saturating_add(rows);
                at = at + 1;
            }
        }
        count
    }
}

/// A filter keeps a sequence whole where it keeps each element.
proof fn lemma_filter_keeps_all<A>(s: Seq<A>, keep: spec_fn(A) -> bool)
    requires
        forall|i: int| 0 <= i < s.len() ==> keep(#[trigger] s[i]),
    ensures
        s.filter(keep) == s,
    decreases s.len(),
{
    reveal(Seq::filter);
    if s.len() > 0 {
        assert forall|i: int| 0 <= i < s.drop_last().len() implies keep(
            #[trigger] s.drop_last()[i],
        ) by {
            assert(s.drop_last()[i] == s[i]);
        }
        lemma_filter_keeps_all(s.drop_last(), keep);
        assert(keep(s[s.len() - 1]));
        assert(s.drop_last().push(s.last()) =~= s);
    }
}

/// What the sidebar holds: the references, the tree of the branches, and
/// which groups and folders are folded.
#[derive(Debug)]
pub struct SidebarState {
    pub data: SidebarData,
    /// The groups that are folded.
    pub collapsed: Vec<SidebarGroup>,
    pub branch_tree: Vec<BranchTreeNode>,
    /// The paths of the folders that are folded.
    pub collapsed_folders: Vec<String>,
}

/// The texts of strings.
pub open spec fn texts(strings: Seq<String>) -> Seq<Seq<char>> {
    Seq::new(strings.len(), |i: int| strings[i]@)
}

/// The test that a group is another one than `group`.
pub open spec fn other_group(group: SidebarGroup) -> spec_fn(SidebarGroup) -> bool {
    |other: SidebarGroup| other != group
}

/// The test that a path is another one than `path`.
pub open spec fn other_path(path: Seq<char>) -> spec_fn(Seq<char>) -> bool {
    |other: Seq<char>| other != path
}

/// The groups without `group` if it is among them, else with it at the end.
pub open spec fn toggled_group(groups: Seq<SidebarGroup>, group: SidebarGroup) -> Seq<
    SidebarGroup,
> {
    if groups.contains(group) {
        groups.filter(other_group(group))
    } else {
        groups.push(group)
    }
}

/// The paths without `path` if it is among them, else with it at the end.
pub open spec fn toggled_path(paths: Seq<Seq<char>>, path: Seq<char>) -> Seq<Seq<char>> {
    if paths.contains(path) {
        paths.filter(other_path(path))
    } else {
        paths.push(path)
    }
}

/// A filter leaves nothing twice in a sequence that holds nothing twice.
pub proof fn lemma_filter_keeps_single<A>(s: Seq<A>, keep: spec_fn(A) -> bool)
    requires
        s.no_duplicates(),
    ensures
        s.filter(keep).no_duplicates(),
    decreases s.len(),
{
    reveal(Seq::filter);
    if s.len() > 0 {
        let fewer = s.drop_last();
        let kept = fewer.filter(keep);
        assert forall|i: int, j: int| 0 <= i < fewer.len() && 0 <= j < fewer.len() && i
            != j implies fewer[i] != fewer[j] by {
            assert(fewer[i] == s[i] && fewer[j] == s[j]);
        }
        lemma_filter_keeps_single(fewer, keep);
        if keep(s.last()) {
            let all = kept.push(s.last());
            assert forall|i: int, j: int| 0 <= i < all.len() && 0 <= j < all.len() && i
                != j implies all[i] != all[j] by {
                if i < kept.len() && j < kept.len() {
                    assert(all[i] == kept[i] && all[j] == kept[j]);
                } else {
                    let k = if i < kept.len() {
                        i
                    } else {
                        j
                    };
                    assert(kept.contains(kept[k]));
                    fewer.lemma_filter_contains_rev(keep, kept[k]);
                    let at = choose|at: int| 0 <= at < fewer.len() && fewer[at] == kept[k];
                    assert(s[at] == kept[k]);
                    assert(s[s.len() - 1] == s.last());
                }
            }
        }
    }
}

/// A value behind a sequence that holds nothing twice, and not this value,
/// leaves nothing twice.
pub proof fn lemma_push_keeps_single<A>(s: Seq<A>, item: A)
    requires
        s.no_duplicates(),
        !s.contains(item),
    ensures
        s.push(item).no_duplicates(),
{
    let all = s.push(item);
    assert forall|i: int, j: int| 0 <= i < all.len() && 0 <= j < all.len() && i != j implies all[i]
        != all[j] by {
        if i < s.len() && j < s.len() {
            assert(all[i] == s[i] && all[j] == s[j]);
        } else {
            let k = if i < s.len() {
                i
            } else {
                j
            };
            assert(s.contains(s[k]));
        }
    }
}

impl SidebarState {
    /// Whether no group and no folder is noted twice as folded: the folded
    /// groups and the folded folders are sets.
    pub open spec fn well_formed(self) -> bool {
        &&& self.collapsed@.no_duplicates()
        &&& texts(self.collapsed_folders@).no_duplicates()
    }

    /// A sidebar with nothing in it and nothing folded.
    pub fn new_empty() -> (sidebar: SidebarState)
        ensures
            sidebar.well_formed(),
            sidebar.data.branches@.len() == 0,
            sidebar.data.remotes@.len() == 0,
            sidebar.data.tags@.len() == 0,
            sidebar.data.stashes@.len() == 0,
            sidebar.collapsed@.len() == 0,
            sidebar.branch_tree@.len() == 0,
            sidebar.collapsed_folders@.len() == 0,
    {
        SidebarState {
            data: SidebarData::empty(),
            collapsed: Vec::new(),
            branch_tree: Vec::new(),
            collapsed_folders: Vec::new(),
        }
    }

    /// Tells whether a group is folded.
    pub fn is_collapsed(&self, group: SidebarGroup) -> (folded: bool)
        ensures
            folded == self.collapsed@.contains(group),
    {
        let mut at: usize = 0;
        while at < self.collapsed.len()
            invariant
                at <= self.collapsed@.len(),
                forall|k: int| 0 <= k < at ==> self.collapsed@[k] != group,
            decreases self.collapsed@.len() - at,
        {
            if self.collapsed[at] == group {
                return true;
            }
            at = at + 1;
        }
        false
    }

    /// Folds a group that is open, and opens one that is folded.
    pub fn toggle_group(&mut self, group: SidebarGroup)
        ensures
            final(self).collapsed@ == toggled_group(old(self).collapsed@, group),
            final(self).data == old(self).data,
            final(self).branch_tree == old(self).branch_tree,
            final(self).collapsed_folders == old(self).collapsed_folders,
            old(self).well_formed() ==> final(self).well_formed(),
    {
        proof {
            if old(self).well_formed() {
                if old(self).collapsed@.contains(group) {
                    lemma_filter_keeps_single(old(self).collapsed@, other_group(group));
                } else {
                    lemma_push_keeps_single(old(self).collapsed@, group);
                }
            }
        }
        let ghost given = self.collapsed@;
        let mut kept: Vec<SidebarGroup> = Vec::new();
        let mut found = false;
        let mut at: usize = 0;
        assert(given.take(0) =~= Seq::<SidebarGroup>::empty());
        while at < self.collapsed.len()
            invariant
                given == self.collapsed@,
                at <= given.len(),
                kept@ == given.take(at as int).filter(other_group(group)),
                found == given.take(at as int).contains(group),
            decreases given.len() - at,
        {
            proof {
                let before = given.take(at as int);
                let with_next = given.take(at + 1);
                reveal(Seq::filter);
                assert(with_next.drop_last() =~= before);
                assert(with_next.last() == given[at as int]);
                if before.contains(group) {
                    let k = choose|k: int| 0 <= k < before.len() && before[k] == group;
                    assert(with_next[k] == group);
                }
                if with_next.contains(group) && given[at as int] != group {
                    let k = choose|k: int| 0 <= k < with_next.len() && with_next[k] == group;
                    assert(before[k] == group);
                }
            }
            if self.collapsed[at] == group {
                found = true;
                assert(given.take(at + 1)[at as int] == group);
            } else {
                kept.push(self.collapsed[at]);
            }
            at = at + 1;
        }
        assert(given.take(at as int) =~= given);
        if found {
            self.collapsed = kept;
        } else {
            self.collapsed.push(group);
        }
    }

    /// Puts other references in the sidebar, and builds the tree of the
    /// branches anew.
    pub fn set_data(&mut self, data: SidebarData)
        ensures
            node_models(final(self).branch_tree@) == branch_tree(data.branches@),
            final(self).data == data,
            final(self).collapsed == old(self).collapsed,
            final(self).collapsed_folders == old(self).collapsed_folders,
            old(self).well_formed() ==> final(self).well_formed(),
    {
        self.branch_tree = BranchTreeNode::build(data.branches.as_slice());
        self.data = data;
    }

    /// Tells whether the folder with the given path is folded.
    pub fn is_folder_collapsed(&self, path: &String) -> (folded: bool)
        ensures
            folded == texts(self.collapsed_folders@).contains(path@),
    {
        let mut at: usize = 0;
        while at < self.collapsed_folders.len()
            invariant
                at <= self.collapsed_folders@.len(),
                forall|k: int| 0 <= k < at ==> texts(self.collapsed_folders@)[k] != path@,
            decreases self.collapsed_folders@.len() - at,
        {
            if self.collapsed_folders[at] == *path {
                assert(texts(self.collapsed_folders@)[at as int] == path@);
                return true;
            }
            at = at + 1;
        }
        false
    }

    /// Folds a folder that is open, and opens one that is folded.
    pub fn toggle_folder(&mut self, path: String)
        ensures
            texts(final(self).collapsed_folders@) == toggled_path(
                texts(old(self).collapsed_folders@),
                path@,
            ),
            final(self).data == old(self).data,
            final(self).branch_tree == old(self).branch_tree,
            final(self).collapsed == old(self).collapsed,
            old(self).well_formed() ==> final(self).well_formed(),
    {
        let ghost given = texts(self.collapsed_folders@);
        proof {
            if old(self).well_formed() {
                if given.contains(path@) {
                    lemma_filter_keeps_single(given, other_path(path@));
                } else {
                    lemma_push_keeps_single(given, path@);
                }
            }
        }
        let count = self.collapsed_folders.len();
        let mut kept: Vec<String> = Vec::new();
        let mut found = false;
        let mut at: usize = 0;
        assert(given.take(0) =~= Seq::<Seq<char>>::empty());
        assert(texts(kept@) =~= Seq::<Seq<char>>::empty());
        while at < count
            invariant
                count == given.len(),
                self.collapsed_folders@.len() == count,
                at <= count,
                forall|k: int| at <= k < count ==>
                    (#[trigger] self.collapsed_folders@[k])@ == given[k],
                texts(kept@) == given.take(at as int).filter(other_path(path@)),
                found == given.take(at as int).contains(path@),
                self.data == old(self).data,
                self.branch_tree == old(self).branch_tree,
                self.collapsed == old(self).collapsed,
            decreases count - at,
        {
            proof {
                let before = given.take(at as int);
                let with_next = given.take(at + 1);
                reveal(Seq::filter);
                assert(with_next.drop_last() =~= before);
                assert(with_next.last() == given[at as int]);
                if before.contains(path@) {
                    let k = choose|k: int| 0 <= k < before.len() && before[k] == path@;
                    assert(with_next[k] == path@);
                }
                if with_next.contains(path@) && given[at as int] != path@ {
                    let k = choose|k: int| 0 <= k < with_next.len() && with_next[k] == path@;
                    assert(before[k] == path@);
                }
            }
            if self.collapsed_folders[at] == path {
                found = true;
                assert(given.take(at + 1)[at as int] == path@);
            } else {
                let ghost before = texts(kept@);
                let mut folder = String::new();
                std::mem::swap(&mut folder, &mut self.collapsed_folders[at]);
                kept.push(folder);
                assert(texts(kept@) =~= before.push(given[at as int]));
            }
            at = at + 1;
        }
        assert(given.take(at as int) =~= given);
        if !found {
            let ghost before = texts(kept@);
            kept.push(path);
            assert(texts(kept@) =~= before.push(path@));
            proof {
                assert forall|i: int| 0 <= i < given.len() implies #[trigger] given[i] != path@ by {
                    if given[i] == path@ {
                        assert(given.contains(path@));
                    }
                }
                lemma_filter_keeps_all(given, other_path(path@));
            }
        }
        self.collapsed_folders = kept;
    }
}

} // verus!
