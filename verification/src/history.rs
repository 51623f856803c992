//! The list of commits: which one is selected, and when to load more.

use crate::commit::CommitInfo;
use vstd::prelude::*;

verus! {

/// More commits are loaded when no more than this many lie below the last
/// commit in sight.
pub const LOAD_MORE_THRESHOLD: usize = 20;

/// The commits of a list and what the list knows of them.
#[derive(Debug)]
pub struct CommitHistory {
    pub commits: Vec<CommitInfo>,
    pub selected_index: Option<usize>,
    /// Whether every commit of the repository is in the list.
    pub all_loaded: bool,
    /// How many commits one load asks for.
    pub batch_size: usize,
}

impl CommitHistory {
    /// Whether the list is to load more commits when the commits before
    /// index `visible_end` are in sight: not all are loaded, the list is
    /// not empty, and at most `LOAD_MORE_THRESHOLD` commits lie further down.
    pub open spec fn wants_more(self, visible_end: usize) -> bool {
        &&& !self.all_loaded
        &&& self.commits@.len() > 0
        &&& self.commits@.len() - visible_end <= LOAD_MORE_THRESHOLD
    }

    /// Whether index `index` can be selected anew: there is such a commit
    /// and it is not the selected one.
    pub open spec fn selects(self, index: usize) -> bool {
        index < self.commits@.len() && self.selected_index != Some(index)
    }

    /// An empty list.
    pub fn new_empty() -> (list: CommitHistory)
        ensures
            list.commits@.len() == 0,
            list.selected_index is None,
            !list.all_loaded,
            list.batch_size == 0,
    {
        CommitHistory {
            commits: Vec::new(),
            selected_index: None,
            all_loaded: false,
            batch_size: 0,
        }
    }

    /// Puts other commits in the list: none is selected, and more may come.
    pub fn set_commits(&mut self, commits: Vec<CommitInfo>)
        ensures
            final(self).commits == commits,
            final(self).selected_index is None,
            !final(self).all_loaded,
            final(self).batch_size == old(self).batch_size,
    {
        self.commits = commits;
        self.selected_index = None;
        self.all_loaded = false;
    }

    /// Notes that there are no more commits to load.
    pub fn mark_all_loaded(&mut self)
        ensures
            final(self).all_loaded,
            final(self).commits == old(self).commits,
            final(self).selected_index == old(self).selected_index,
            final(self).batch_size == old(self).batch_size,
    {
        self.all_loaded = true;
    }

    /// Selects the commit at `index`, and tells whether the selection
    /// changed: it does not where that commit is selected already or there
    /// is no such commit.
    pub fn select_commit(&mut self, index: usize) -> (changed: bool)
        ensures
            changed == old(self).selects(index),
            final(self).selected_index == if changed {
                Some(index)
            } else {
                old(self).selected_index
            },
            final(self).commits == old(self).commits,
            final(self).all_loaded == old(self).all_loaded,
            final(self).batch_size == old(self).batch_size,
    {
        match self.selected_index {
            Some(selected) => {
                if selected == index {
                    return false;
                }
            },
            None => {},
        }
        if index < self.commits.len() {
            self.selected_index = Some(index);
            true
        } else {
            false
        }
    }

    /// Tells whether to load more commits now that the commits before index
    /// `visible_end` are in sight.
    pub fn check_load_more(&self, visible_end: usize) -> (wanted: bool)
        ensures
            wanted == self.wants_more(visible_end),
    {
        if self.all_loaded || self.commits.len() == 0 {
            return false;
        }
        let remaining = if visible_end < self.commits.len() {
            self.commits.len() - visible_end
        } else {
            0
        };
        remaining <= LOAD_MORE_THRESHOLD
    }

    /// Adds the commits of one load at the end. A load that brings fewer
    /// commits than were asked for is the last one.
    pub fn add_loaded(&mut self, loaded: Vec<CommitInfo>)
        ensures
            final(self).commits@ == old(self).commits@ + loaded@,
            final(self).all_loaded
                == (old(self).all_loaded || loaded@.len() < old(self).batch_size),
            final(self).selected_index == old(self).selected_index,
            final(self).batch_size == old(self).batch_size,
    {
        if loaded.len() < self.batch_size {
            self.all_loaded = true;
        }
        let mut loaded = loaded;
        self.commits.append(&mut loaded);
    }
}

} // verus!
