//! A commit and the state of its signature.

use vstd::prelude::*;

verus! {

/// What the history shows of one commit.
#[derive(Debug, Clone)]
pub struct CommitInfo {
    pub oid: String,
    pub short_oid: String,
    pub tree_oid: String,
    pub author_name: String,
    pub author_email: String,
    pub date: i64,
    pub committer_name: String,
    pub committer_email: String,
    pub committer_date: i64,
    pub subject: String,
    pub body: String,
    pub parent_oids: Vec<String>,
}

/// The state of a commit's signature.
#[derive(Debug, Clone, Copy, PartialEq, Eq, Structural)]
pub enum SignatureStatus {
    Good,
    Bad,
    Unknown,
    /// The commit is not signed.
    Unsigned,
}

impl SignatureStatus {
    /// The status that git's one-letter code stands for: `G` is good, `B`
    /// is bad, `U`, `X`, `Y`, `R` and `E` are unknown, and any other letter
    /// means that there is no signature.
    pub open spec fn of_git_char(c: char) -> SignatureStatus {
        if c == 'G' {
            SignatureStatus::Good
        } else if c == 'B' {
            SignatureStatus::Bad
        } else if c == 'U' || c == 'X' || c == 'Y' || c == 'R' || c == 'E' {
            SignatureStatus::Unknown
        } else {
            SignatureStatus::Unsigned
        }
    }

    /// The word that a status is shown as.
    pub open spec fn label_text(self) -> Seq<char> {
        match self {
            SignatureStatus::Good => "Valid"@,
            SignatureStatus::Bad => "Invalid"@,
            SignatureStatus::Unknown => "Unknown"@,
            SignatureStatus::Unsigned => "None"@,
        }
    }

    /// Reads git's one-letter code for the state of a signature.
    pub fn from_git_char(c: char) -> (status: SignatureStatus)
        ensures
            status == SignatureStatus::of_git_char(c),
    {
        match c {
            'G' => SignatureStatus::Good,
            'B' => SignatureStatus::Bad,
            'U' | 'X' | 'Y' | 'R' | 'E' => SignatureStatus::Unknown,
            _ => SignatureStatus::Unsigned,
        }
    }

    /// The word to show for the status.
    pub fn label(&self) -> (label: &'static str)
        ensures
            label@ == self.label_text(),
    {
        match self {
            SignatureStatus::Good => "Valid",
            SignatureStatus::Bad => "Invalid",
            SignatureStatus::Unknown => "Unknown",
            SignatureStatus::Unsigned => "None",
        }
    }
}

} // verus!
