//! The data that the diff engine produces: files, hunks, lines and the spans
//! of change inside a line, each with its mathematical model.

pub mod content;
pub mod header;
pub mod inline;
pub mod parse;
pub mod request;
pub mod split;
pub mod stats;

use crate::text::{bytes_of, is_cut};
use vstd::prelude::*;

verus! {

/// What a line of a hunk is: kept, added or removed.
#[derive(Debug, Clone, Copy, PartialEq, Eq, Structural)]
pub enum LineOrigin {
    Context,
    Addition,
    Deletion,
}

/// A changed region inside one line, in byte offsets into the line's content.
#[derive(Debug, Clone, Copy, PartialEq, Eq, Structural)]
pub struct InlineSpan {
    /// Byte offset into `DiffLine::content` where the changed region starts.
    pub start: usize,
    /// Byte offset into `DiffLine::content` where the changed region ends.
    pub end: usize,
}

/// One line of a hunk.
#[derive(Debug)]
pub struct DiffLine {
    pub origin: LineOrigin,
    pub content: String,
    pub old_line_no: Option<u32>,
    pub new_line_no: Option<u32>,
    /// Byte-offset spans within `content` that were changed (word-level).
    pub change_spans: Vec<InlineSpan>,
}

/// A contiguous block of change in one file.
#[derive(Debug)]
pub struct Hunk {
    pub header: String,
    pub old_start: u32,
    pub old_count: u32,
    pub new_start: u32,
    pub new_count: u32,
    pub lines: Vec<DiffLine>,
}

/// What happened to a file.
#[derive(Debug, Clone, Copy, PartialEq, Eq, Structural)]
pub enum FileStatus {
    Added,
    Deleted,
    Modified,
    Renamed,
}

/// The changes to one file.
#[derive(Debug)]
pub struct FileDiff {
    pub path: String,
    /// The path before a rename, if applicable.
    pub old_path: Option<String>,
    pub status: FileStatus,
    pub hunks: Vec<Hunk>,
}

/// The model of a [`DiffLine`]: its content as UTF-8 bytes, its spans as a sequence.
pub struct LineModel {
    pub origin: LineOrigin,
    pub content: Seq<u8>,
    pub old_line_no: Option<u32>,
    pub new_line_no: Option<u32>,
    pub change_spans: Seq<InlineSpan>,
}

/// The model of a [`Hunk`].
pub struct HunkModel {
    pub header: Seq<u8>,
    pub old_start: u32,
    pub old_count: u32,
    pub new_start: u32,
    pub new_count: u32,
    pub lines: Seq<LineModel>,
}

/// The model of a [`FileDiff`].
pub struct FileModel {
    pub path: Seq<u8>,
    pub old_path: Option<Seq<u8>>,
    pub status: FileStatus,
    pub hunks: Seq<HunkModel>,
}

/// The bytes of a string that may be missing.
pub open spec fn optional_bytes(text: Option<String>) -> Option<Seq<u8>> {
    match text {
        Some(t) => Some(bytes_of(t@)),
        None => None,
    }
}

/// The models of a sequence of values.
pub open spec fn models<T: View>(items: Seq<T>) -> Seq<T::V> {
    Seq::new(items.len(), |i: int| items[i]@)
}

impl View for DiffLine {
    type V = LineModel;

    open spec fn view(&self) -> LineModel {
        LineModel {
            origin: self.origin,
            content: bytes_of(self.content@),
            old_line_no: self.old_line_no,
            new_line_no: self.new_line_no,
            change_spans: self.change_spans@,
        }
    }
}

impl View for Hunk {
    type V = HunkModel;

    open spec fn view(&self) -> HunkModel {
        HunkModel {
            header: bytes_of(self.header@),
            old_start: self.old_start,
            old_count: self.old_count,
            new_start: self.new_start,
            new_count: self.new_count,
            lines: models(self.lines@),
        }
    }
}

impl View for FileDiff {
    type V = FileModel;

    open spec fn view(&self) -> FileModel {
        FileModel {
            path: bytes_of(self.path@),
            old_path: optional_bytes(self.old_path),
            status: self.status,
            hunks: models(self.hunks@),
        }
    }
}

/// The line number `steps` lines behind line number `start`; line numbers
/// wrap around at 32 bits.
pub open spec fn number_after(start: u32, steps: nat) -> u32
    decreases steps,
{
    if steps == 0 {
        start
    } else {
        number_after(start, (steps - 1) as nat).wrapping_add(1)
    }
}

/// How many of the first `upto` lines stand in the old file: all but the
/// additions.
pub open spec fn old_steps(lines: Seq<LineModel>, upto: int) -> nat
    decreases upto,
{
    if upto <= 0 {
        0
    } else if lines[upto - 1].origin == LineOrigin::Addition {
        old_steps(lines, upto - 1)
    } else {
        old_steps(lines, upto - 1) + 1
    }
}

/// How many of the first `upto` lines stand in the new file: all but the
/// deletions.
pub open spec fn new_steps(lines: Seq<LineModel>, upto: int) -> nat
    decreases upto,
{
    if upto <= 0 {
        0
    } else if lines[upto - 1].origin == LineOrigin::Deletion {
        new_steps(lines, upto - 1)
    } else {
        new_steps(lines, upto - 1) + 1
    }
}

/// Whether none of the lines has a span.
pub open spec fn unmarked(lines: Seq<LineModel>) -> bool {
    forall|at: int| 0 <= at < lines.len() ==> (#[trigger] lines[at]).change_spans.len() == 0
}

impl InlineSpan {
    /// Whether the span lies inside `content` and cuts no character in two.
    pub open spec fn fits(self, content: Seq<u8>) -> bool {
        &&& self.start <= self.end <= content.len()
        &&& is_cut(content, self.start as int)
        &&& is_cut(content, self.end as int)
    }
}

impl LineModel {
    /// Whether the line carries the line numbers that its origin calls for:
    /// both for a context line, only the old one for a deletion, only the new
    /// one for an addition.
    pub open spec fn numbered(self) -> bool {
        match self.origin {
            LineOrigin::Context => self.old_line_no is Some && self.new_line_no is Some,
            LineOrigin::Deletion => self.old_line_no is Some && self.new_line_no is None,
            LineOrigin::Addition => self.old_line_no is None && self.new_line_no is Some,
        }
    }

    /// Whether every span of the line fits its content.
    pub open spec fn spans_fit(self) -> bool {
        forall|k: int| 0 <= k < self.change_spans.len() ==> (#[trigger] self.change_spans[k]).fits(
            self.content,
        )
    }

    /// The line without its spans.
    pub open spec fn cleared(self) -> LineModel {
        LineModel { change_spans: Seq::empty(), ..self }
    }
}

impl HunkModel {
    /// Whether line `at` carries the numbers that walking the hunk from its
    /// starts gives it: the old start plus the lines of the old file before
    /// it, and the same on the new side, each only where the line stands in
    /// that file.
    pub open spec fn numbered_at(self, at: int) -> bool {
        let line = self.lines[at];
        &&& line.old_line_no == if line.origin == LineOrigin::Addition {
            None
        } else {
            Some(number_after(self.old_start, old_steps(self.lines, at)))
        }
        &&& line.new_line_no == if line.origin == LineOrigin::Deletion {
            None
        } else {
            Some(number_after(self.new_start, new_steps(self.lines, at)))
        }
    }

    /// Whether the hunk's lines are numbered from its starts and every span
    /// fits its line.
    pub open spec fn well_formed(self) -> bool {
        forall|at: int|
            0 <= at < self.lines.len() ==>
                self.numbered_at(at) && (#[trigger] self.lines[at]).spans_fit()
    }

    /// Whether none of the hunk's lines has a span.
    pub open spec fn unmarked(self) -> bool {
        unmarked(self.lines)
    }
}

/// Whether every one of the hunks is well formed.
pub open spec fn all_well_formed(hunks: Seq<Hunk>) -> bool {
    forall|h: int| 0 <= h < hunks.len() ==> (#[trigger] hunks[h])@.well_formed()
}

/// Whether none of the hunks has a line with a span.
pub open spec fn all_unmarked(hunks: Seq<Hunk>) -> bool {
    forall|h: int| 0 <= h < hunks.len() ==> (#[trigger] hunks[h])@.unmarked()
}

impl FileModel {
    /// Whether the file has a path from before a rename only if it was
    /// renamed, and every hunk of it is well formed.
    pub open spec fn well_formed(self) -> bool {
        &&& self.old_path is Some ==> self.status == FileStatus::Renamed
        &&& forall|h: int| 0 <= h < self.hunks.len() ==> (#[trigger] self.hunks[h]).well_formed()
    }

    /// Whether none of the file's lines has a span.
    pub open spec fn unmarked(self) -> bool {
        forall|h: int| 0 <= h < self.hunks.len() ==> (#[trigger] self.hunks[h]).unmarked()
    }
}

/// Without overflow, the number `steps` lines behind `start` is their sum.
pub proof fn lemma_number_after_is_sum(start: u32, steps: nat)
    requires
        start + steps <= u32::MAX,
    ensures
        number_after(start, steps) == start + steps,
    decreases steps,
{
    if steps > 0 {
        lemma_number_after_is_sum(start, (steps - 1) as nat);
    }
}

/// A line that is numbered by the walk carries the numbers that its origin
/// calls for.
pub proof fn lemma_numbered_for_origin(hunk: HunkModel, at: int)
    requires
        0 <= at < hunk.lines.len(),
        hunk.numbered_at(at),
    ensures
        hunk.lines[at].numbered(),
{
}

impl Clone for DiffLine {
    fn clone(&self) -> (copy: DiffLine)
        ensures
            copy@ == self@,
    {
        let copy = DiffLine {
            origin: self.origin,
            content: self.content.clone(),
            old_line_no: self.old_line_no,
            new_line_no: self.new_line_no,
            change_spans: self.change_spans.clone(),
        };
        assert(copy.change_spans@ =~= self.change_spans@);
        copy
    }
}

impl Clone for Hunk {
    fn clone(&self) -> (copy: Hunk)
        ensures
            copy@ == self@,
    {
        let mut lines: Vec<DiffLine> = Vec::new();
        let mut at: usize = 0;
        while at < self.lines.len()
            invariant
                at <= self.lines@.len(),
                lines@.len() == at,
                forall|k: int| 0 <= k < at ==> (#[trigger] lines@[k])@ == self.lines@[k]@,
            decreases self.lines@.len() - at,
        {
            lines.push(self.lines[at].clone());
            at = at + 1;
        }
        assert(models(lines@) =~= models(self.lines@));
        Hunk {
            header: self.header.clone(),
            old_start: self.old_start,
            old_count: self.old_count,
            new_start: self.new_start,
            new_count: self.new_count,
            lines,
        }
    }
}

impl Clone for FileDiff {
    fn clone(&self) -> (copy: FileDiff)
        ensures
            copy@ == self@,
    {
        let mut hunks: Vec<Hunk> = Vec::new();
        let mut at: usize = 0;
        while at < self.hunks.len()
            invariant
                at <= self.hunks@.len(),
                hunks@.len() == at,
                forall|k: int| 0 <= k < at ==> (#[trigger] hunks@[k])@ == self.hunks@[k]@,
            decreases self.hunks@.len() - at,
        {
            hunks.push(self.hunks[at].clone());
            at = at + 1;
        }
        assert(models(hunks@) =~= models(self.hunks@));
        let old_path = match &self.old_path {
            Some(path) => Some(path.clone()),
            None => None,
        };
        FileDiff { path: self.path.clone(), old_path, status: self.status, hunks }
    }
}

} // verus!
