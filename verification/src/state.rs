//! The open repositories, one tab each, and the tab that is shown.

use crate::text::optional_text;
use vstd::prelude::*;
use vstd::string::*;

verus! {

/// One open repository.
#[derive(Debug)]
pub struct RepoTab {
    pub path: String,
    pub name: String,
}

/// The tabs and the index of the active one.
#[derive(Debug)]
pub struct AppState {
    pub repos: Vec<RepoTab>,
    pub active_tab: usize,
}

/// What the tab bar shows of one tab.
#[derive(Debug)]
pub struct TabInfo {
    pub name: String,
    pub is_active: bool,
    pub is_dirty: bool,
}

/// The model of a [`TabInfo`].
pub struct TabInfoModel {
    pub name: Seq<char>,
    pub is_active: bool,
    pub is_dirty: bool,
}

impl View for TabInfo {
    type V = TabInfoModel;

    open spec fn view(&self) -> TabInfoModel {
        TabInfoModel { name: self.name@, is_active: self.is_active, is_dirty: self.is_dirty }
    }
}

/// The model of a [`RepoTab`].
pub struct TabModel {
    pub path: Seq<char>,
    pub name: Seq<char>,
}

/// The model of an [`AppState`].
pub struct StateModel {
    pub repos: Seq<TabModel>,
    pub active_tab: int,
}

impl View for RepoTab {
    type V = TabModel;

    open spec fn view(&self) -> TabModel {
        TabModel { path: self.path@, name: self.name@ }
    }
}

impl View for AppState {
    type V = StateModel;

    open spec fn view(&self) -> StateModel {
        StateModel {
            repos: Seq::new(self.repos@.len(), |i: int| self.repos@[i]@),
            active_tab: self.active_tab as int,
        }
    }
}

/// The name of a tab: the given one, or `unknown`.
pub open spec fn tab_name(name: Option<Seq<char>>) -> Seq<char> {
    match name {
        Some(n) => n,
        None => "unknown"@,
    }
}

/// The index of the first tab with the given path, or the number of tabs
/// where there is none.
pub open spec fn first_with_path(repos: Seq<TabModel>, path: Seq<char>) -> int
    decreases repos.len(),
{
    if repos.len() == 0 {
        0
    } else if repos[0].path == path {
        0
    } else {
        1 + first_with_path(repos.drop_first(), path)
    }
}

impl StateModel {
    /// Whether the active tab is one of the tabs, or 0 where there is none.
    pub open spec fn valid(self) -> bool {
        0 <= self.active_tab < self.repos.len() || (self.repos.len() == 0 && self.active_tab == 0)
    }

    /// The state with one more tab at the end, which becomes the active one.
    pub open spec fn with_tab(self, tab: TabModel) -> StateModel {
        StateModel { repos: self.repos.push(tab), active_tab: self.repos.len() as int }
    }

    /// The state with tab `from` moved to position `to`. The active tab is
    /// then the first one with the path of the tab that was active. Nothing
    /// changes where the two positions are the same or one of them is no tab.
    pub open spec fn reordered(self, from: int, to: int) -> StateModel {
        if from == to || from < 0 || from >= self.repos.len() || to < 0 || to >= self.repos.len() {
            self
        } else {
            let repos = self.repos.remove(from).insert(to, self.repos[from]);
            StateModel {
                repos,
                active_tab: if 0 <= self.active_tab < self.repos.len() {
                    first_with_path(repos, self.repos[self.active_tab].path)
                } else {
                    self.active_tab
                },
            }
        }
    }

    /// The state without tab `index`. The active tab keeps its index as far
    /// as there is such a tab: else it is the last tab, or 0 where no tab
    /// is left. Nothing changes where `index` is no tab.
    pub open spec fn without_tab(self, index: int) -> StateModel {
        if 0 <= index < self.repos.len() {
            let repos = self.repos.remove(index);
            StateModel {
                repos,
                active_tab: if repos.len() == 0 {
                    0
                } else if self.active_tab >= repos.len() {
                    repos.len() - 1
                } else {
                    self.active_tab
                },
            }
        } else {
            self
        }
    }
}

/// The flag at `index`, or `false` where the flags end before it.
pub open spec fn flag_at(flags: Seq<bool>, index: int) -> bool {
    0 <= index < flags.len() && flags[index]
}

/// The first `upto` tabs without those whose flag is not set.
pub open spec fn kept_tabs(repos: Seq<TabModel>, flags: Seq<bool>, upto: int) -> Seq<TabModel>
    decreases upto,
{
    if upto <= 0 {
        seq![]
    } else if flag_at(flags, upto - 1) {
        kept_tabs(repos, flags, upto - 1).push(repos[upto - 1])
    } else {
        kept_tabs(repos, flags, upto - 1)
    }
}

impl StateModel {
    /// Whether a tab with the given path is open.
    pub open spec fn has_path(self, path: Seq<char>) -> bool {
        exists|k: int| 0 <= k < self.repos.len() && (#[trigger] self.repos[k]).path == path
    }

    /// The state with tab `index` as the active one, if there is such a tab.
    pub open spec fn with_active(self, index: int) -> StateModel {
        if 0 <= index < self.repos.len() {
            StateModel { active_tab: index, ..self }
        } else {
            self
        }
    }

    /// The index of the tab that closing the active tab closes: the active
    /// one, or the last where the active index is beyond the tabs.
    pub open spec fn closing_index(self) -> int {
        if self.active_tab < self.repos.len() {
            self.active_tab
        } else {
            self.repos.len() - 1
        }
    }

    /// The state with the next tab as the active one, around from the last
    /// to the first. Nothing changes with fewer than two tabs.
    pub open spec fn with_next_active(self) -> StateModel {
        if self.repos.len() > 1 {
            StateModel { active_tab: (self.active_tab + 1) % (self.repos.len() as int), ..self }
        } else {
            self
        }
    }

    /// The state with the previous tab as the active one, around from the
    /// first to the last. Nothing changes with fewer than two tabs.
    pub open spec fn with_previous_active(self) -> StateModel {
        if self.repos.len() > 1 {
            StateModel {
                active_tab: (self.active_tab + self.repos.len() - 1) % (self.repos.len() as int),
                ..self
            }
        } else {
            self
        }
    }

    /// The state with only the tabs whose flag is set, and the active index
    /// no larger than that of the last of them.
    pub open spec fn with_kept(self, flags: Seq<bool>) -> StateModel {
        let repos = kept_tabs(self.repos, flags, self.repos.len() as int);
        StateModel {
            repos,
            active_tab: if repos.len() == 0 {
                0
            } else if self.active_tab >= repos.len() {
                repos.len() - 1
            } else {
                self.active_tab
            },
        }
    }

    /// What the tab bar shows of tab `index`, where `dirty` tells of each
    /// tab whether its repository has changes.
    pub open spec fn tab_info(self, dirty: Seq<bool>, index: int) -> TabInfoModel {
        TabInfoModel {
            name: self.repos[index].name,
            is_active: index == self.active_tab,
            is_dirty: flag_at(dirty, index),
        }
    }
}

/// The index of the first active tab, if there is one.
pub open spec fn first_active(tabs: Seq<TabInfoModel>) -> Option<int>
    decreases tabs.len(),
{
    if tabs.len() == 0 {
        None
    } else if tabs[0].is_active {
        Some(0)
    } else {
        match first_active(tabs.drop_first()) {
            Some(index) => Some(index + 1),
            None => None,
        }
    }
}

/// The first tab with a path has that path, and no tab before it has.
pub proof fn lemma_first_with_path(repos: Seq<TabModel>, path: Seq<char>)
    ensures
        0 <= first_with_path(repos, path) <= repos.len(),
        first_with_path(repos, path) < repos.len() ==> repos[first_with_path(repos, path)].path
            == path,
        forall|k: int| 0 <= k < first_with_path(repos, path) ==> (#[trigger] repos[k]).path != path,
    decreases repos.len(),
{
    if repos.len() > 0 && repos[0].path != path {
        let rest = repos.drop_first();
        lemma_first_with_path(rest, path);
        assert forall|k: int| 0 <= k < first_with_path(repos, path) implies
        (#[trigger] repos[k]).path
            != path by {
            if k > 0 {
                assert(repos[k] == rest[k - 1]);
            }
        }
    }
}

/// An index is that of the first tab with a path if the tab there has the
/// path and no tab before it has.
pub proof fn lemma_first_with_path_is(repos: Seq<TabModel>, path: Seq<char>, at: int)
    requires
        0 <= at <= repos.len(),
        at < repos.len() ==> repos[at].path == path,
        forall|k: int| 0 <= k < at ==> (#[trigger] repos[k]).path != path,
    ensures
        first_with_path(repos, path) == at,
    decreases repos.len(),
{
    if repos.len() > 0 && at > 0 {
        let rest = repos.drop_first();
        assert(repos[0].path != path);
        assert forall|k: int| 0 <= k < at - 1 implies (#[trigger] rest[k]).path != path by {
            assert(rest[k] == repos[k + 1]);
        }
        lemma_first_with_path_is(rest, path, at - 1);
    }
}

/// `Path::file_name` of std, on the path that the text names: the last
/// component of the path, if it is a name. Which part that is depends on
/// the platform's path syntax, so nothing is claimed of it.
#[verifier::external_body]
fn file_name(path: &str) -> (name: Option<String>) {
    match std::path::Path::new(path).file_name() {
        Some(name) => Some(name.to_string_lossy().into_owned()),
        None => None,
    }
}

impl Clone for RepoTab {
    fn clone(&self) -> (copy: RepoTab)
        ensures
            copy@ == self@,
    {
        RepoTab { path: self.path.clone(), name: self.name.clone() }
    }
}

impl Clone for AppState {
    fn clone(&self) -> (copy: AppState)
        ensures
            copy@ == self@,
    {
        let mut repos: Vec<RepoTab> = Vec::new();
        let mut at: usize = 0;
        while at < self.repos.len()
            invariant
                at <= self.repos@.len(),
                repos@.len() == at,
                forall|k: int| 0 <= k < at ==> (#[trigger] repos@[k])@ == self.repos@[k]@,
            decreases self.repos@.len() - at,
        {
            repos.push(self.repos[at].clone());
            at = at + 1;
        }
        let copy = AppState { repos, active_tab: self.active_tab };
        assert(copy@.repos =~= self@.repos);
        copy
    }
}

impl Default for AppState {
    fn default() -> (state: AppState)
        ensures
            state@.repos.len() == 0,
            state@.active_tab == 0,
    {
        AppState { repos: Vec::new(), active_tab: 0 }
    }
}

impl AppState {
    /// Adds a tab with the given path and name at the end and makes it the
    /// active one. A missing name is shown as `unknown`.
    pub fn add_named_repo(&mut self, path: String, name: Option<String>)
        ensures
            final(self)@ == old(self)@.with_tab(
                TabModel { path: path@, name: tab_name(optional_text(name)) },
            ),
    {
        let ghost tab = TabModel { path: path@, name: tab_name(optional_text(name)) };
        let name = match name {
            Some(n) => n,
            None => "unknown".to_owned(),
        };
        self.repos.push(RepoTab { path, name });
        self.active_tab = self.repos.len() - 1;
        assert(self@.repos =~= old(self)@.repos.push(tab));
    }

    /// Adds a tab for the repository at `path` at the end and makes it the
    /// active one. The tab is named after the last component of the path.
    pub fn add_repo(&mut self, path: String)
        ensures
            final(self)@.repos.len() == old(self)@.repos.len() + 1,
            final(self)@.repos.drop_last() == old(self)@.repos,
            final(self)@.repos.last().path == path@,
            final(self)@.active_tab == old(self)@.repos.len(),
    {
        let name = file_name(path.as_str());
        self.add_named_repo(path, name);
        assert(self@.repos.drop_last() =~= old(self)@.repos);
    }

    /// Moves tab `from` to position `to`; the tab that was active stays the
    /// active one.
    pub fn reorder_repos(&mut self, from: usize, to: usize)
        ensures
            final(self)@ == old(self)@.reordered(from as int, to as int),
    {
        let len = self.repos.len();
        if from == to || from >= len || to >= len {
            return ;
        }
        let active_path = if self.active_tab < len {
            Some(self.repos[self.active_tab].path.clone())
        } else {
            None
        };
        let repo = self.repos.remove(from);
        self.repos.insert(to, repo);
        assert(self@.repos =~= old(self)@.repos.remove(from as int).insert(
            to as int,
            old(self)@.repos[from as int],
        ));
        if let Some(path) = active_path {
            let mut at: usize = 0;
            while at < len && !(self.repos[at].path == path)
                invariant
                    self.repos@.len() == len,
                    at <= len,
                    forall|k: int| 0 <= k < at ==> (#[trigger] self@.repos[k]).path != path@,
                decreases len - at,
            {
                at = at + 1;
            }
            proof {
                lemma_first_with_path_is(self@.repos, path@, at as int);
            }
            if at < len {
                self.active_tab = at;
            } else {
                proof {
                    lemma_moved_tab_stays(
                        old(self)@.repos,
                        from as int,
                        to as int,
                        old(self)@.active_tab,
                    );
                }
            }
        }
    }

    /// Closes tab `index`.
    pub fn remove_repo(&mut self, index: usize)
        ensures
            final(self)@ == old(self)@.without_tab(index as int),
    {
        if index < self.repos.len() {
            self.repos.remove(index);
            if self.repos.len() == 0 {
                self.active_tab = 0;
            } else if self.active_tab >= self.repos.len() {
                self.active_tab = self.repos.len() - 1;
            }
            assert(self@.repos =~= old(self)@.repos.remove(index as int));
        }
    }
}

impl AppState {
    /// Tells whether a tab with the given path is open.
    pub fn has_repo(&self, path: &String) -> (open: bool)
        ensures
            open == self@.has_path(path@),
    {
        let mut at: usize = 0;
        while at < self.repos.len()
            invariant
                at <= self.repos@.len(),
                forall|k: int| 0 <= k < at ==> (#[trigger] self@.repos[k]).path != path@,
            decreases self.repos@.len() - at,
        {
            if self.repos[at].path == *path {
                assert(self@.repos[at as int].path == path@);
                return true;
            }
            at = at + 1;
        }
        false
    }

    /// Makes tab `index` the active one, and tells whether there is such a tab.
    pub fn set_active_tab(&mut self, index: usize) -> (changed: bool)
        ensures
            final(self)@ == old(self)@.with_active(index as int),
            changed == (index < old(self)@.repos.len()),
    {
        if index < self.repos.len() {
            self.active_tab = index;
            true
        } else {
            false
        }
    }

    /// Closes the active tab, and tells whether there was a tab to close.
    pub fn close_active_tab(&mut self) -> (closed: bool)
        ensures
            closed == (old(self)@.repos.len() > 0),
            final(self)@ == if closed {
                old(self)@.without_tab(old(self)@.closing_index())
            } else {
                old(self)@
            },
    {
        if self.repos.len() > 0 {
            let last = self.repos.len() - 1;
            let index = if self.active_tab < last {
                self.active_tab
            } else {
                last
            };
            self.remove_repo(index);
            true
        } else {
            false
        }
    }

    /// Makes the next tab the active one, and tells whether anything changed.
    pub fn next_tab(&mut self) -> (moved: bool)
        ensures
            final(self)@ == old(self)@.with_next_active(),
            moved == (old(self)@.repos.len() > 1),
    {
        let len = self.repos.len();
        if len > 1 {
            let at = self.active_tab % len;
            proof {
                vstd::arithmetic::div_mod::lemma_add_mod_noop(
                    self.active_tab as int,
                    1,
                    len as int,
                );
                vstd::arithmetic::div_mod::lemma_small_mod(1, len as nat);
                vstd::arithmetic::div_mod::lemma_small_mod((at + 1) as nat, (len + 1) as nat);
                if at + 1 == len {
                    vstd::arithmetic::div_mod::lemma_mod_self_0(len as int);
                } else {
                    vstd::arithmetic::div_mod::lemma_small_mod((at + 1) as nat, len as nat);
                }
            }
            self.active_tab = if at + 1 == len {
                0
            } else {
                at + 1
            };
            true
        } else {
            false
        }
    }

    /// Makes the previous tab the active one, and tells whether anything
    /// changed.
    pub fn previous_tab(&mut self) -> (moved: bool)
        ensures
            final(self)@ == old(self)@.with_previous_active(),
            moved == (old(self)@.repos.len() > 1),
    {
        let len = self.repos.len();
        if len > 1 {
            let at = self.active_tab % len;
            proof {
                vstd::arithmetic::div_mod::lemma_add_mod_noop(
                    self.active_tab as int,
                    len - 1,
                    len as int,
                );
                vstd::arithmetic::div_mod::lemma_small_mod((len - 1) as nat, len as nat);
                if at == 0 {
                } else {
                    vstd::arithmetic::div_mod::lemma_mod_add_multiples_vanish(
                        at - 1,
                        len as int,
                    );
                    vstd::arithmetic::div_mod::lemma_small_mod((at - 1) as nat, len as nat);
                }
            }
            self.active_tab = if at == 0 {
                len - 1
            } else {
                at - 1
            };
            true
        } else {
            false
        }
    }

    /// Keeps the tabs whose flag is set, and the active index among them.
    pub fn keep_repos(&mut self, keep: &[bool])
        ensures
            final(self)@ == old(self)@.with_kept(keep@),
    {
        let mut kept: Vec<RepoTab> = Vec::new();
        let mut at: usize = 0;
        let ghost given = self@.repos;
        while at < self.repos.len()
            invariant
                given == self@.repos,
                at <= self.repos@.len(),
                Seq::new(kept@.len(), |i: int| kept@[i]@) == kept_tabs(given, keep@, at as int),
            decreases self.repos@.len() - at,
        {
            let ghost before = Seq::new(kept@.len(), |i: int| kept@[i]@);
            if at < keep.len() && keep[at] {
                kept.push(self.repos[at].clone());
                assert(Seq::new(kept@.len(), |i: int| kept@[i]@) =~= before.push(given[at as int]));
            }
            at = at + 1;
        }
        self.repos = kept;
        if self.repos.len() == 0 {
            self.active_tab = 0;
        } else if self.active_tab >= self.repos.len() {
            self.active_tab = self.repos.len() - 1;
        }
    }

    /// What the tab bar is to show: each tab's name, whether it is the
    /// active one, and whether its repository has changes.
    pub fn tab_infos(&self, dirty: &[bool]) -> (tabs: Vec<TabInfo>)
        ensures
            tabs@.len() == self@.repos.len(),
            forall|k: int| 0 <= k < tabs@.len() ==>
                (#[trigger] tabs@[k])@ == self@.tab_info(dirty@, k),
    {
        let mut tabs: Vec<TabInfo> = Vec::new();
        let mut at: usize = 0;
        while at < self.repos.len()
            invariant
                at <= self.repos@.len(),
                tabs@.len() == at,
                forall|k: int| 0 <= k < at ==> (#[trigger] tabs@[k])@ == self@.tab_info(dirty@, k),
            decreases self.repos@.len() - at,
        {
            tabs.push(
                TabInfo {
                    name: self.repos[at].name.clone(),
                    is_active: at == self.active_tab,
                    is_dirty: at < dirty.len() && dirty[at],
                },
            );
            at = at + 1;
        }
        tabs
    }
}

/// Finds the first active tab, the one that the tab bar keeps in sight.
pub fn active_tab_index(tabs: &[TabInfo]) -> (found: Option<usize>)
    ensures
        match found {
            Some(index) => first_active(Seq::new(tabs@.len(), |i: int| tabs@[i]@)) == Some(
                index as int,
            ),
            None => first_active(Seq::new(tabs@.len(), |i: int| tabs@[i]@)) is None,
        },
{
    let ghost all = Seq::new(tabs@.len(), |i: int| tabs@[i]@);
    let mut at: usize = 0;
    while at < tabs.len()
        invariant
            all == Seq::new(tabs@.len(), |i: int| tabs@[i]@),
            at <= tabs@.len(),
            forall|k: int| 0 <= k < at ==> !(#[trigger] all[k]).is_active,
        decreases tabs@.len() - at,
    {
        if tabs[at].is_active {
            proof {
                lemma_first_active_is(all, at as int);
            }
            return Some(at);
        }
        at = at + 1;
    }
    proof {
        lemma_first_active_is(all, at as int);
    }
    None
}

/// An index is that of the first active tab if the tab there is active and
/// none before it is; there is no active tab if none is up to the end.
pub proof fn lemma_first_active_is(tabs: Seq<TabInfoModel>, at: int)
    requires
        0 <= at <= tabs.len(),
        at < tabs.len() ==> tabs[at].is_active,
        forall|k: int| 0 <= k < at ==> !(#[trigger] tabs[k]).is_active,
    ensures
        first_active(tabs) == if at < tabs.len() {
            Some(at)
        } else {
            None
        },
    decreases tabs.len(),
{
    if tabs.len() > 0 && at > 0 {
        let rest = tabs.drop_first();
        assert(!tabs[0].is_active);
        assert forall|k: int| 0 <= k < at - 1 implies !(#[trigger] rest[k]).is_active by {
            assert(rest[k] == tabs[k + 1]);
        }
        lemma_first_active_is(rest, at - 1);
    }
}

/// A move loses no tab: each tab of before stands somewhere after it.
pub proof fn lemma_moved_tab_stays(repos: Seq<TabModel>, from: int, to: int, which: int)
    requires
        0 <= from < repos.len(),
        0 <= to < repos.len(),
        0 <= which < repos.len(),
    ensures
        repos.remove(from).insert(to, repos[from]).len() == repos.len(),
        0 <= first_with_path(repos.remove(from).insert(to, repos[from]), repos[which].path)
            < repos.len(),
{
    let moved = repos.remove(from).insert(to, repos[from]);
    let path = repos[which].path;
    lemma_first_with_path(moved, path);
    let removed = repos.remove(from);
    if which == from {
        assert(moved[to] == repos[which]);
    } else {
        let k = if which < from {
            which
        } else {
            which - 1
        };
        assert(removed[k] == repos[which]);
        if k < to {
            assert(moved[k] == removed[k]);
        } else {
            assert(moved[k + 1] == removed[k]);
        }
    }
}

/// Every operation keeps the active tab among the tabs.
pub proof fn lemma_state_stays_valid(state: StateModel, tab: TabModel, from: int, to: int)
    requires
        state.valid(),
    ensures
        state.with_tab(tab).valid(),
        state.reordered(from, to).valid(),
        state.without_tab(from).valid(),
{
    if !(from == to || from < 0 || from >= state.repos.len() || to < 0 || to >= state.repos.len()) {
        lemma_moved_tab_stays(state.repos, from, to, state.active_tab);
    }
}

} // verus!
