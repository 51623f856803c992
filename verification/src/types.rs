//! The references of a repository, as the sidebar lists them.

use crate::order::{
    in_order, lemma_order_keeps_ties, lemma_order_total, less, precedes, sort_ranked, Ranked,
};
use crate::text::{bytes_of, optional_text};
use vstd::prelude::*;
use vstd::string::*;

verus! {

/// A local branch.
#[derive(Debug)]
pub struct BranchInfo {
    pub name: String,
    pub is_head: bool,
}

/// A remote.
#[derive(Debug)]
pub struct RemoteInfo {
    pub name: String,
}

/// A tag.
#[derive(Debug)]
pub struct TagInfo {
    pub name: String,
}

/// An entry of the stash.
#[derive(Debug)]
pub struct StashInfo {
    pub message: String,
}

impl Clone for BranchInfo {
    fn clone(&self) -> (copy: BranchInfo)
        ensures
            copy == *self,
    {
        BranchInfo { name: self.name.clone(), is_head: self.is_head }
    }
}

impl Clone for RemoteInfo {
    fn clone(&self) -> (copy: RemoteInfo)
        ensures
            copy == *self,
    {
        RemoteInfo { name: self.name.clone() }
    }
}

impl Clone for TagInfo {
    fn clone(&self) -> (copy: TagInfo)
        ensures
            copy == *self,
    {
        TagInfo { name: self.name.clone() }
    }
}

impl Clone for StashInfo {
    fn clone(&self) -> (copy: StashInfo)
        ensures
            copy == *self,
    {
        StashInfo { message: self.message.clone() }
    }
}

impl Ranked for BranchInfo {
    /// The checked-out branch stands first, the others by their names.
    open spec fn ranks_before(&self, other: &Self) -> bool {
        if self.is_head != other.is_head {
            self.is_head
        } else {
            precedes(bytes_of(self.name@), bytes_of(other.name@))
        }
    }

    fn stands_before(&self, other: &Self) -> (before: bool) {
        if self.is_head != other.is_head {
            self.is_head
        } else {
            less(self.name.as_str(), other.name.as_str())
        }
    }

    proof fn lemma_rank_one_way(a: &Self, b: &Self) {
        lemma_order_total(bytes_of(a.name@), bytes_of(b.name@));
    }

    proof fn lemma_rank_keeps_ties(a: &Self, b: &Self, c: &Self) {
        if a.is_head == b.is_head && b.is_head == c.is_head {
            lemma_order_keeps_ties(bytes_of(a.name@), bytes_of(b.name@), bytes_of(c.name@));
        }
    }
}

impl Ranked for RemoteInfo {
    /// Remotes stand by their names.
    open spec fn ranks_before(&self, other: &Self) -> bool {
        precedes(bytes_of(self.name@), bytes_of(other.name@))
    }

    fn stands_before(&self, other: &Self) -> (before: bool) {
        less(self.name.as_str(), other.name.as_str())
    }

    proof fn lemma_rank_one_way(a: &Self, b: &Self) {
        lemma_order_total(bytes_of(a.name@), bytes_of(b.name@));
    }

    proof fn lemma_rank_keeps_ties(a: &Self, b: &Self, c: &Self) {
        lemma_order_keeps_ties(bytes_of(a.name@), bytes_of(b.name@), bytes_of(c.name@));
    }
}

impl Ranked for TagInfo {
    /// Tags stand by their names.
    open spec fn ranks_before(&self, other: &Self) -> bool {
        precedes(bytes_of(self.name@), bytes_of(other.name@))
    }

    fn stands_before(&self, other: &Self) -> (before: bool) {
        less(self.name.as_str(), other.name.as_str())
    }

    proof fn lemma_rank_one_way(a: &Self, b: &Self) {
        lemma_order_total(bytes_of(a.name@), bytes_of(b.name@));
    }

    proof fn lemma_rank_keeps_ties(a: &Self, b: &Self, c: &Self) {
        lemma_order_keeps_ties(bytes_of(a.name@), bytes_of(b.name@), bytes_of(c.name@));
    }
}

/// The branches of the given names, before they are put in order: the one
/// named `head` is the checked-out branch.
pub open spec fn marked_branches(names: Seq<String>, head: Seq<char>) -> Seq<BranchInfo> {
    Seq::new(names.len(), |i: int| BranchInfo { name: names[i], is_head: names[i]@ == head })
}

/// The name that the head is shown by: that of its branch, or a note that
/// it is on none.
pub open spec fn head_text(branch: Option<Seq<char>>) -> Seq<char> {
    match branch {
        Some(name) => name,
        None => "HEAD (detached)"@,
    }
}

/// The name to show for the head, given the branch that it is on, if any.
pub fn head_branch(branch: Option<String>) -> (name: String)
    ensures
        name@ == head_text(optional_text(branch)),
{
    match branch {
        Some(name) => name,
        None => "HEAD (detached)".to_owned(),
    }
}

/// The local branches in the order of the sidebar: the checked-out branch
/// first, the others by name.
pub fn branches(names: Vec<String>, head: &String) -> (list: Vec<BranchInfo>)
    ensures
        list@ == in_order(marked_branches(names@, head@)),
{
    let mut list: Vec<BranchInfo> = Vec::new();
    let mut names = names;
    let ghost given = names@;
    let mut at: usize = 0;
    while at < names.len()
        invariant
            names@.len() == given.len(),
            at <= names@.len(),
            forall|k: int| at <= k < given.len() ==> names@[k] == given[k],
            list@ == marked_branches(given, head@).take(at as int),
        decreases names@.len() - at,
    {
        let mut name = String::new();
        std::mem::swap(&mut name, &mut names[at]);
        let is_head = name == *head;
        list.push(BranchInfo { name, is_head });
        assert(list@ =~= marked_branches(given, head@).take(at + 1));
        at = at + 1;
    }
    assert(list@ =~= marked_branches(given, head@));
    sort_ranked(&mut list);
    list
}

/// The remotes of the given names, before they are put in order.
pub open spec fn named_remotes(names: Seq<String>) -> Seq<RemoteInfo> {
    Seq::new(names.len(), |i: int| RemoteInfo { name: names[i] })
}

/// The remotes by name.
pub fn remotes(names: Vec<String>) -> (list: Vec<RemoteInfo>)
    ensures
        list@ == in_order(named_remotes(names@)),
{
    let mut list: Vec<RemoteInfo> = Vec::new();
    let mut names = names;
    let ghost given = names@;
    let mut at: usize = 0;
    while at < names.len()
        invariant
            names@.len() == given.len(),
            at <= names@.len(),
            forall|k: int| at <= k < given.len() ==> names@[k] == given[k],
            list@ == named_remotes(given).take(at as int),
        decreases names@.len() - at,
    {
        let mut name = String::new();
        std::mem::swap(&mut name, &mut names[at]);
        list.push(RemoteInfo { name });
        assert(list@ =~= named_remotes(given).take(at + 1));
        at = at + 1;
    }
    assert(list@ =~= named_remotes(given));
    sort_ranked(&mut list);
    list
}

/// The tags of the given names, before they are put in order.
pub open spec fn named_tags(names: Seq<String>) -> Seq<TagInfo> {
    Seq::new(names.len(), |i: int| TagInfo { name: names[i] })
}

/// The tags by name.
pub fn tags(names: Vec<String>) -> (list: Vec<TagInfo>)
    ensures
        list@ == in_order(named_tags(names@)),
{
    let mut list: Vec<TagInfo> = Vec::new();
    let mut names = names;
    let ghost given = names@;
    let mut at: usize = 0;
    while at < names.len()
        invariant
            names@.len() == given.len(),
            at <= names@.len(),
            forall|k: int| at <= k < given.len() ==> names@[k] == given[k],
            list@ == named_tags(given).take(at as int),
        decreases names@.len() - at,
    {
        let mut name = String::new();
        std::mem::swap(&mut name, &mut names[at]);
        list.push(TagInfo { name });
        assert(list@ =~= named_tags(given).take(at + 1));
        at = at + 1;
    }
    assert(list@ =~= named_tags(given));
    sort_ranked(&mut list);
    list
}

/// The entries of the stash with the given messages, the last one first.
pub open spec fn stashed(messages: Seq<String>) -> Seq<StashInfo> {
    Seq::new(
        messages.len(),
        |i: int| StashInfo { message: messages[messages.len() - 1 - i] },
    )
}

/// The entries of the stash, from the messages of its log: the newest
/// entry, which the log holds last, comes first.
pub fn stashes(messages: Vec<String>) -> (list: Vec<StashInfo>)
    ensures
        list@ == stashed(messages@),
{
    let mut list: Vec<StashInfo> = Vec::new();
    let mut messages = messages;
    let ghost given = messages@;
    while messages.len() > 0
        invariant
            messages@.len() <= given.len(),
            messages@ == given.take(messages@.len() as int),
            list@ == stashed(given).take(given.len() - messages@.len()),
        decreases messages@.len(),
    {
        let message = messages.pop().unwrap();
        list.push(StashInfo { message });
        assert(messages@ =~= given.take(messages@.len() as int));
        assert(list@ =~= stashed(given).take(given.len() - messages@.len()));
    }
    assert(list@ =~= stashed(given));
    list
}

} // verus!
