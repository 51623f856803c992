//! The core of a visual browser for git history.
//!
//! At its heart is the diff engine of [`diff`]: it reads the text of a
//! unified diff into files, hunks and lines, marks inside paired lines the
//! words that changed, and lays the lines of a hunk out side by side.
//! Around it stand the states that the views of the browser are drawn
//! from: the open repositories, the list of commits, the sidebar with the
//! tree of branches.
//!
//! Every function states what it returns over a model of its data, and
//! Verus proves that it does. Texts are modelled by their UTF-8 bytes.

pub mod commit;
pub mod count;
pub mod date;
pub mod diff;
pub mod history;
pub mod order;
pub mod sidebar;
pub mod state;
pub mod syntax;
pub mod text;
pub mod types;

pub use commit::{CommitInfo, SignatureStatus};
pub use diff::inline::{
    byte_range_in, compute_inline_changes, spans_from_changes, word_diff, ChangeTag, WordChange,
};
pub use diff::parse::{parse_hunk, parse_unified_diff};
pub use diff::split::{split_hunk_lines, SplitRow};
pub use diff::{DiffLine, FileDiff, FileStatus, Hunk, InlineSpan, LineOrigin};
pub use state::{AppState, RepoTab};
pub use types::{BranchInfo, RemoteInfo, StashInfo, TagInfo};
