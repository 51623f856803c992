//! The steps that lead to the diff of one commit.
//!
//! The text of the diff comes from git, which this library does not run.
//! It says what to ask for and what to make of the answer: the commit is
//! asked for by its id, and where the answer is blank, as it is for a
//! commit without a parent, it is asked for once more as a root commit.

use crate::diff::header::{white_space_len, word_start};
use crate::diff::parse::{diff_files, parse_unified_diff};
use crate::diff::{all_unmarked, all_well_formed, models, FileDiff, FileStatus};
use vstd::prelude::*;
use vstd::string::*;

verus! {

/// The form in which a commit's diff is asked for.
#[derive(Debug, Clone, Copy, PartialEq, Eq, Structural)]
pub enum Attempt {
    /// Against the commit's parent.
    Plain,
    /// As a commit without a parent.
    Root,
}

/// Why there is no diff.
#[derive(Debug, Clone, Copy, PartialEq, Eq, Structural)]
pub enum DiffError {
    /// The id is not made of hexadecimal digits.
    InvalidId,
    /// Git failed on the given attempt.
    Failed(Attempt),
}

/// What to do next for the diff of a commit.
#[derive(Debug)]
pub enum DiffStep {
    /// Ask git for the diff in the given form.
    Ask(Attempt),
    /// The diff is read: these are its files.
    Done(Vec<FileDiff>),
    /// There is no diff.
    Fail(DiffError),
}

/// Whether a byte is a hexadecimal digit, in either case.
pub open spec fn is_hex_digit(byte: u8) -> bool {
    (0x30 <= byte <= 0x39) || (0x41 <= byte <= 0x46) || (0x61 <= byte <= 0x66)
}

/// Whether a text may be the id of a commit: hexadecimal digits only.
pub open spec fn names_commit(id: Seq<u8>) -> bool {
    forall|i: int| 0 <= i < id.len() ==> is_hex_digit(#[trigger] id[i])
}

/// Whether a text holds nothing but white space.
pub open spec fn is_blank(text: Seq<u8>) -> bool {
    word_start(text, 0) >= text.len()
}

/// Tells whether a text may be the id of a commit.
pub fn is_commit_id(id: &str) -> (valid: bool)
    ensures
        valid == names_commit(id.spec_bytes()),
{
    let bytes = id.as_bytes();
    let mut at: usize = 0;
    while at < bytes.len()
        invariant
            bytes@ == id.spec_bytes(),
            at <= bytes@.len(),
            forall|i: int| 0 <= i < at ==> is_hex_digit(#[trigger] bytes@[i]),
        decreases bytes@.len() - at,
    {
        let byte = bytes[at];
        let hex = (0x30 <= byte && byte <= 0x39) || (0x41 <= byte && byte <= 0x46) || (0x61 <= byte
            && byte <= 0x66);
        if !hex {
            return false;
        }
        at = at + 1;
    }
    true
}

/// Tells whether git's answer holds nothing but white space.
pub fn blank_output(output: &str) -> (blank: bool)
    ensures
        blank == is_blank(output.spec_bytes()),
{
    let bytes = output.as_bytes();
    let count = bytes.len();
    let mut at: usize = 0;
    loop
        invariant
            bytes@ == output.spec_bytes(),
            count == bytes@.len(),
            at <= count,
            word_start(bytes@, at as int) == word_start(bytes@, 0),
        decreases count - at,
    {
        let width = white_space_len(bytes, at);
        if width == 0 {
            return at >= count;
        }
        at = at + width;
    }
}

/// The first step: ask for the diff of the commit, if `id` may be its id.
pub fn first_step(id: &str) -> (step: DiffStep)
    ensures
        names_commit(id.spec_bytes()) ==> step matches DiffStep::Ask(Attempt::Plain),
        !names_commit(id.spec_bytes()) ==> step matches DiffStep::Fail(DiffError::InvalidId),
{
    if is_commit_id(id) {
        DiffStep::Ask(Attempt::Plain)
    } else {
        DiffStep::Fail(DiffError::InvalidId)
    }
}

/// What git's answer to an attempt leads to.
pub open spec fn step_after(
    asked: Attempt,
    success: bool,
    output: Seq<u8>,
    step: DiffStep,
) -> bool {
    if !success {
        step matches DiffStep::Fail(DiffError::Failed(attempt)) && attempt == asked
    } else if asked == Attempt::Plain && is_blank(output) {
        step matches DiffStep::Ask(Attempt::Root)
    } else {
        &&& step matches DiffStep::Done(files)
        &&& models(files@) == diff_files(output)
        &&& forall|f: int|
            0 <= f < files@.len() ==> all_well_formed((#[trigger] files@[f]).hunks@)
                && all_unmarked(files@[f].hunks@)
        &&& forall|f: int|
            0 <= f < files@.len() && (#[trigger] files@[f]).old_path is Some ==> files@[f].status
                == FileStatus::Renamed
    }
}

/// The step that follows git's answer to an attempt: a failure ends it, a
/// blank answer to the plain attempt leads to the root attempt, and any
/// other answer is read as the diff.
pub fn next_step(asked: Attempt, success: bool, output: &str) -> (step: DiffStep)
    ensures
        step_after(asked, success, output.spec_bytes(), step),
{
    if !success {
        DiffStep::Fail(DiffError::Failed(asked))
    } else if asked == Attempt::Plain && blank_output(output) {
        DiffStep::Ask(Attempt::Root)
    } else {
        DiffStep::Done(parse_unified_diff(output))
    }
}

} // verus!
