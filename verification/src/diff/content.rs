//! What the diff view shows: the files of a diff with the commit they
//! belong to, or the reason why there is no diff.

use crate::commit::{CommitInfo, SignatureStatus};
use crate::diff::{FileDiff, FileStatus};
use vstd::prelude::*;

verus! {

impl FileStatus {
    /// The letter that stands for a status.
    pub open spec fn letter(self) -> Seq<char> {
        match self {
            FileStatus::Added => "A"@,
            FileStatus::Deleted => "D"@,
            FileStatus::Modified => "M"@,
            FileStatus::Renamed => "R"@,
        }
    }

    /// The letter to show for the status.
    pub fn label(&self) -> (label: &'static str)
        ensures
            label@ == self.letter(),
    {
        match self {
            FileStatus::Added => "A",
            FileStatus::Deleted => "D",
            FileStatus::Modified => "M",
            FileStatus::Renamed => "R",
        }
    }
}

/// The content of the diff view.
#[derive(Debug)]
pub struct DiffContent {
    pub diffs: Vec<FileDiff>,
    pub commit_info: Option<CommitInfo>,
    pub signature_status: Option<SignatureStatus>,
    pub error_message: Option<String>,
}

impl DiffContent {
    /// Nothing to show.
    pub fn new_empty() -> (content: DiffContent)
        ensures
            content.diffs@.len() == 0,
            content.commit_info is None,
            content.signature_status is None,
            content.error_message is None,
    {
        DiffContent {
            diffs: Vec::new(),
            commit_info: None,
            signature_status: None,
            error_message: None,
        }
    }

    /// Shows a diff that belongs to no commit.
    pub fn set_diffs(&mut self, diffs: Vec<FileDiff>)
        ensures
            final(self).diffs == diffs,
            final(self).commit_info is None,
            final(self).signature_status is None,
            final(self).error_message is None,
    {
        self.diffs = diffs;
        self.commit_info = None;
        self.signature_status = None;
        self.error_message = None;
    }

    /// Shows the diff of a commit, with the commit and the state of its
    /// signature.
    pub fn set_commit_data(
        &mut self,
        commit: CommitInfo,
        signature: SignatureStatus,
        diffs: Vec<FileDiff>,
    )
        ensures
            final(self).diffs == diffs,
            final(self).commit_info == Some(commit),
            final(self).signature_status == Some(signature),
            final(self).error_message is None,
    {
        self.commit_info = Some(commit);
        self.signature_status = Some(signature);
        self.diffs = diffs;
        self.error_message = None;
    }

    /// Shows why there is no diff, in place of any diff.
    pub fn set_error(&mut self, message: String)
        ensures
            final(self).diffs@.len() == 0,
            final(self).commit_info is None,
            final(self).signature_status is None,
            final(self).error_message == Some(message),
    {
        self.error_message = Some(message);
        self.diffs.clear();
        self.commit_info = None;
        self.signature_status = None;
    }
}

} // verus!
