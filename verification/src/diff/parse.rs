//! The parser: from the text of a unified diff to files, hunks and lines.
//!
//! The parser is lenient. It never fails: what it cannot read it skips or
//! takes as a context line, and a number it cannot read counts as 0.

use crate::diff::header::{
    header_path, hunk_ranges, parse_diff_header, parse_hunk_header, word_of,
};
use crate::diff::{
    all_unmarked, all_well_formed, models, new_steps, number_after, old_steps, optional_bytes,
    DiffLine, FileDiff, FileModel, FileStatus, Hunk, HunkModel, LineModel, LineOrigin,
};
use crate::text::{
    bytes_of, has_prefix, lines_of, split_lines, starts_with, strip_prefix, texts_of,
    without_prefix,
};
use vstd::prelude::*;
use vstd::string::*;

verus! {

/// Whether a line begins the part of a diff that is about one file.
pub open spec fn starts_file(line: Seq<u8>) -> bool {
    has_prefix(line, bytes_of("diff --git"@))
}

/// Whether a line is the header of a hunk.
pub open spec fn starts_hunk(line: Seq<u8>) -> bool {
    has_prefix(line, bytes_of("@@"@))
}

/// Whether a line of a hunk's body is the marker that says that the file
/// does not end in a newline.
pub open spec fn is_marker(line: Seq<u8>) -> bool {
    has_prefix(line, bytes_of("\\"@))
}

/// The line number that follows `number`; line numbers wrap around at 32 bits.
pub open spec fn following(number: u32) -> u32 {
    number.wrapping_add(1)
}

/// A line of a given origin, as the parser leaves it: numbered for its
/// origin, without spans.
pub open spec fn numbered_line(
    origin: LineOrigin,
    content: Seq<u8>,
    old_no: u32,
    new_no: u32,
) -> LineModel {
    LineModel {
        origin,
        content,
        old_line_no: if origin == LineOrigin::Addition {
            None
        } else {
            Some(old_no)
        },
        new_line_no: if origin == LineOrigin::Deletion {
            None
        } else {
            Some(new_no)
        },
        change_spans: Seq::empty(),
    }
}

/// What one line of a hunk's body stands for, where `old_no` and `new_no`
/// are the numbers that the next line of either side gets.
///
/// `+` makes an addition, `-` a deletion and a space a context line, each
/// with the rest of the line as its content. A line that begins with a
/// backslash stands for no line. Any other line is a context line with the
/// whole line as its content.
pub open spec fn body_line(line: Seq<u8>, old_no: u32, new_no: u32) -> Option<LineModel> {
    if let Some(rest) = without_prefix(line, bytes_of("+"@)) {
        Some(numbered_line(LineOrigin::Addition, rest, old_no, new_no))
    } else if let Some(rest) = without_prefix(line, bytes_of("-"@)) {
        Some(numbered_line(LineOrigin::Deletion, rest, old_no, new_no))
    } else if let Some(rest) = without_prefix(line, bytes_of(" "@)) {
        Some(numbered_line(LineOrigin::Context, rest, old_no, new_no))
    } else if is_marker(line) {
        None
    } else {
        Some(numbered_line(LineOrigin::Context, line, old_no, new_no))
    }
}

/// The old line number behind a line of the given origin at number `old_no`.
pub open spec fn old_after(origin: LineOrigin, old_no: u32) -> u32 {
    if origin == LineOrigin::Addition {
        old_no
    } else {
        following(old_no)
    }
}

/// The new line number behind a line of the given origin at number `new_no`.
pub open spec fn new_after(origin: LineOrigin, new_no: u32) -> u32 {
    if origin == LineOrigin::Deletion {
        new_no
    } else {
        following(new_no)
    }
}

/// Whether the body of a hunk ends before line `at`: there is no such line,
/// or it begins a hunk or a file.
pub open spec fn ends_body(lines: Seq<Seq<u8>>, at: int) -> bool {
    at < 0 || at >= lines.len() || starts_hunk(lines[at]) || starts_file(lines[at])
}

/// Where the hunk body ends that begins at line `from`.
pub open spec fn body_end(lines: Seq<Seq<u8>>, from: int) -> int
    decreases lines.len() - from,
{
    if ends_body(lines, from) {
        from
    } else {
        body_end(lines, from + 1)
    }
}

/// The lines of the hunk body that begins at line `from`, numbered from
/// `old_no` and `new_no` on.
pub open spec fn hunk_lines(lines: Seq<Seq<u8>>, from: int, old_no: u32, new_no: u32) -> Seq<
    LineModel,
>
    decreases lines.len() - from,
{
    if ends_body(lines, from) {
        seq![]
    } else {
        match body_line(lines[from], old_no, new_no) {
            None => hunk_lines(lines, from + 1, old_no, new_no),
            Some(line) => seq![line] + hunk_lines(
                lines,
                from + 1,
                old_after(line.origin, old_no),
                new_after(line.origin, new_no),
            ),
        }
    }
}

/// The header of the hunk that is read at line `at`: that line, or an
/// empty text behind the last line.
pub open spec fn header_at(lines: Seq<Seq<u8>>, at: int) -> Seq<u8> {
    if 0 <= at < lines.len() {
        lines[at]
    } else {
        seq![]
    }
}

/// Where the hunk ends that is read at line `at`: where its body ends, or
/// at `at` itself behind the last line, where there is nothing to read.
pub open spec fn hunk_end(lines: Seq<Seq<u8>>, at: int) -> int {
    if 0 <= at < lines.len() {
        body_end(lines, at + 1)
    } else {
        at
    }
}

/// The hunk that is read at line `at`: the line is its header, and the
/// lines behind it are its body. Behind the last line the hunk has an
/// empty header, four zeros and no line.
pub open spec fn hunk_at(lines: Seq<Seq<u8>>, at: int) -> HunkModel {
    let ranges = hunk_ranges(header_at(lines, at));
    HunkModel {
        header: header_at(lines, at),
        old_start: ranges.0,
        old_count: ranges.1,
        new_start: ranges.2,
        new_count: ranges.3,
        lines: hunk_lines(lines, at + 1, ranges.0, ranges.2),
    }
}

/// Whether line `at` ends a hunk body.
fn at_body_end(lines: &Vec<&str>, at: usize) -> (ended: bool)
    ensures
        ended == ends_body(texts_of(lines@), at as int),
{
    at >= lines.len() || starts_with(lines[at], "@@") || starts_with(lines[at], "diff --git")
}

/// Reads one line of a hunk's body.
fn parse_body_line(line: &str, old_no: u32, new_no: u32) -> (parsed: Option<DiffLine>)
    ensures
        match parsed {
            Some(l) => body_line(line.spec_bytes(), old_no, new_no) == Some(l@),
            None => body_line(line.spec_bytes(), old_no, new_no) is None,
        },
{
    if let Some(content) = strip_prefix(line, "+") {
        Some(
            DiffLine {
                origin: LineOrigin::Addition,
                content: content.to_owned(),
                old_line_no: None,
                new_line_no: Some(new_no),
                change_spans: Vec::new(),
            },
        )
    } else if let Some(content) = strip_prefix(line, "-") {
        Some(
            DiffLine {
                origin: LineOrigin::Deletion,
                content: content.to_owned(),
                old_line_no: Some(old_no),
                new_line_no: None,
                change_spans: Vec::new(),
            },
        )
    } else if let Some(content) = strip_prefix(line, " ") {
        Some(
            DiffLine {
                origin: LineOrigin::Context,
                content: content.to_owned(),
                old_line_no: Some(old_no),
                new_line_no: Some(new_no),
                change_spans: Vec::new(),
            },
        )
    } else if starts_with(line, "\\") {
        None
    } else {
        Some(
            DiffLine {
                origin: LineOrigin::Context,
                content: line.to_owned(),
                old_line_no: Some(old_no),
                new_line_no: Some(new_no),
                change_spans: Vec::new(),
            },
        )
    }
}

/// Reads the hunk at line `at`, and says where it ends. Line `at` is taken
/// for the header whatever it holds; behind the last line there is
/// nothing to read, and the hunk is empty.
pub fn parse_hunk(lines: &Vec<&str>, at: usize) -> (r: (Hunk, usize))
    ensures
        r.0@ == hunk_at(texts_of(lines@), at as int),
        r.0@.well_formed(),
        r.0@.unmarked(),
        r.1 == hunk_end(texts_of(lines@), at as int),
        at < lines@.len() ==> at < r.1 <= lines@.len(),
{
    let ghost texts = texts_of(lines@);
    let count = lines.len();
    if at >= count {
        let hunk = Hunk {
            header: String::new(),
            old_start: 0,
            old_count: 0,
            new_start: 0,
            new_count: 0,
            lines: Vec::new(),
        };
        proof {
            reveal_with_fuel(word_of, 2);
            assert(bytes_of(hunk.header@) =~= Seq::<u8>::empty());
            assert(models(hunk.lines@) =~= Seq::<LineModel>::empty());
            lemma_hunk_at_well_formed(texts, at as int);
        }
        return (hunk, at);
    }
    let header_line = lines[at];
    let (old_start, old_count, new_start, new_count) = parse_hunk_header(header_line);
    let mut old_line = old_start;
    let mut new_line = new_start;
    let mut hunk_lines: Vec<DiffLine> = Vec::new();
    let mut next = at + 1;
    assert(models(hunk_lines@) =~= Seq::<LineModel>::empty());
    while !at_body_end(lines, next)
        invariant
            texts == texts_of(lines@),
            count == lines@.len(),
            at < next <= count,
            body_end(texts, next as int) == body_end(texts, at + 1),
            models(hunk_lines@) + self::hunk_lines(texts, next as int, old_line, new_line)
                == self::hunk_lines(texts, at + 1, old_start, new_start),
        decreases count - next,
    {
        let ghost before = models(hunk_lines@);
        if let Some(line) = parse_body_line(lines[next], old_line, new_line) {
            let ghost rest = self::hunk_lines(
                texts,
                next + 1,
                old_after(line.origin, old_line),
                new_after(line.origin, new_line),
            );
            match line.origin {
                LineOrigin::Addition => {
                    new_line = new_line.wrapping_add(1);
                },
                LineOrigin::Deletion => {
                    old_line = old_line.wrapping_add(1);
                },
                LineOrigin::Context => {
                    old_line = old_line.wrapping_add(1);
                    new_line = new_line.wrapping_add(1);
                },
            }
            let ghost model = line@;
            hunk_lines.push(line);
            proof {
                assert(models(hunk_lines@) =~= before + seq![model]);
                assert(before + (seq![model] + rest) =~= (before + seq![model]) + rest);
            }
        }
        next = next + 1;
    }
    let hunk = Hunk {
        header: header_line.to_owned(),
        old_start,
        old_count,
        new_start,
        new_count,
        lines: hunk_lines,
    };
    proof {
        assert(models(hunk.lines@) + Seq::<LineModel>::empty() =~= models(hunk.lines@));
        lemma_hunk_at_well_formed(texts, at as int);
    }
    (hunk, next)
}

/// Whether the extended header lines of a file end before line `at`: there
/// is no such line, or it begins with `---`, or begins a file or a hunk.
pub open spec fn ends_headers(lines: Seq<Seq<u8>>, at: int) -> bool {
    at < 0 || at >= lines.len() || has_prefix(lines[at], bytes_of("---"@)) || starts_file(
        lines[at],
    ) || starts_hunk(lines[at])
}

/// Where the extended header lines end that begin at line `from`.
pub open spec fn headers_end(lines: Seq<Seq<u8>>, from: int) -> int
    decreases lines.len() - from,
{
    if ends_headers(lines, from) {
        from
    } else {
        headers_end(lines, from + 1)
    }
}

/// The status that an extended header line gives its file, if it gives one.
pub open spec fn line_status(line: Seq<u8>) -> Option<FileStatus> {
    if has_prefix(line, bytes_of("new file"@)) {
        Some(FileStatus::Added)
    } else if has_prefix(line, bytes_of("deleted file"@)) {
        Some(FileStatus::Deleted)
    } else if has_prefix(line, bytes_of("rename from "@)) {
        Some(FileStatus::Renamed)
    } else if has_prefix(line, bytes_of("rename to"@)) {
        Some(FileStatus::Renamed)
    } else {
        None
    }
}

/// The path that an extended header line `rename from X` names.
pub open spec fn rename_source(line: Seq<u8>) -> Option<Seq<u8>> {
    if has_prefix(line, bytes_of("new file"@)) || has_prefix(line, bytes_of("deleted file"@)) {
        None
    } else {
        without_prefix(line, bytes_of("rename from "@))
    }
}

/// The status of a file whose extended header lines are the lines from
/// `from` up to `to`: the one that the last line gives that gives any, and
/// `Modified` where none does.
pub open spec fn status_of(lines: Seq<Seq<u8>>, from: int, to: int) -> FileStatus
    decreases to - from,
{
    if to <= from {
        FileStatus::Modified
    } else {
        match line_status(lines[to - 1]) {
            Some(status) => status,
            None => status_of(lines, from, to - 1),
        }
    }
}

/// The path that the last `rename from` line names among the extended
/// header lines from `from` up to `to`.
pub open spec fn old_path_of(lines: Seq<Seq<u8>>, from: int, to: int) -> Option<Seq<u8>>
    decreases to - from,
{
    if to <= from {
        None
    } else {
        match rename_source(lines[to - 1]) {
            Some(path) => Some(path),
            None => old_path_of(lines, from, to - 1),
        }
    }
}

/// The path that a file had before it was renamed, by its extended header
/// lines from `from` up to `to`: the one that the last `rename from` line
/// names, where the status of the file is `Renamed`. A file of another
/// status has no such path, whatever its header lines name.
pub open spec fn path_before_rename(lines: Seq<Seq<u8>>, from: int, to: int) -> Option<Seq<u8>> {
    if status_of(lines, from, to) == FileStatus::Renamed {
        old_path_of(lines, from, to)
    } else {
        None
    }
}

/// The line behind line `at` if that line begins with `mark`, else `at`.
pub open spec fn skip_marked(lines: Seq<Seq<u8>>, at: int, mark: Seq<u8>) -> int {
    if 0 <= at < lines.len() && has_prefix(lines[at], mark) {
        at + 1
    } else {
        at
    }
}

/// Where the hunks begin of the file whose header is line `at`: behind its
/// extended header lines and the `---` and `+++` lines that may follow.
pub open spec fn hunks_start(lines: Seq<Seq<u8>>, at: int) -> int {
    skip_marked(
        lines,
        skip_marked(lines, headers_end(lines, at + 1), bytes_of("---"@)),
        bytes_of("+++"@),
    )
}

/// The first line at or after `from` that begins a file, or the number of
/// lines where there is none.
pub open spec fn next_file(lines: Seq<Seq<u8>>, from: int) -> int
    decreases lines.len() - from,
{
    if from < 0 || from >= lines.len() || starts_file(lines[from]) {
        from
    } else {
        next_file(lines, from + 1)
    }
}

/// The hunks of a file from line `from` on, up to the next file. Lines
/// between hunks that begin no hunk are passed over.
pub open spec fn hunks_from(lines: Seq<Seq<u8>>, from: int) -> Seq<HunkModel>
    decreases lines.len() - from,
{
    if from < 0 || from >= lines.len() || starts_file(lines[from]) {
        seq![]
    } else if starts_hunk(lines[from]) {
        proof {
            lemma_body_end_bounds(lines, from + 1);
        }
        seq![hunk_at(lines, from)] + hunks_from(lines, body_end(lines, from + 1))
    } else {
        hunks_from(lines, from + 1)
    }
}

/// The file whose header is line `at`.
pub open spec fn file_at(lines: Seq<Seq<u8>>, at: int) -> FileModel {
    let end = headers_end(lines, at + 1);
    FileModel {
        path: header_path(lines[at]),
        old_path: path_before_rename(lines, at + 1, end),
        status: status_of(lines, at + 1, end),
        hunks: hunks_from(lines, hunks_start(lines, at)),
    }
}

/// The files of a diff from line `from` on. Lines before the first file
/// header are passed over.
pub open spec fn files_from(lines: Seq<Seq<u8>>, from: int) -> Seq<FileModel>
    decreases lines.len() - from,
{
    if from < 0 || from >= lines.len() {
        seq![]
    } else if starts_file(lines[from]) {
        proof {
            lemma_file_end_bounds(lines, from);
        }
        seq![file_at(lines, from)] + files_from(lines, next_file(lines, hunks_start(lines, from)))
    } else {
        files_from(lines, from + 1)
    }
}

/// The files that the text of a unified diff describes.
pub open spec fn diff_files(text: Seq<u8>) -> Seq<FileModel> {
    files_from(lines_of(text), 0)
}

/// A hunk body ends at or after its start, within the lines.
pub proof fn lemma_body_end_bounds(lines: Seq<Seq<u8>>, from: int)
    requires
        0 <= from <= lines.len(),
    ensures
        from <= body_end(lines, from) <= lines.len(),
    decreases lines.len() - from,
{
    if !ends_body(lines, from) {
        lemma_body_end_bounds(lines, from + 1);
    }
}

/// The extended header lines end at or after their start, within the lines.
pub proof fn lemma_headers_end_bounds(lines: Seq<Seq<u8>>, from: int)
    requires
        0 <= from <= lines.len(),
    ensures
        from <= headers_end(lines, from) <= lines.len(),
    decreases lines.len() - from,
{
    if !ends_headers(lines, from) {
        lemma_headers_end_bounds(lines, from + 1);
    }
}

/// The next file begins at or after the line the search starts from.
pub proof fn lemma_next_file_bounds(lines: Seq<Seq<u8>>, from: int)
    requires
        0 <= from <= lines.len(),
    ensures
        from <= next_file(lines, from) <= lines.len(),
    decreases lines.len() - from,
{
    if from < lines.len() && !starts_file(lines[from]) {
        lemma_next_file_bounds(lines, from + 1);
    }
}

/// What belongs to a file ends behind its header line.
pub proof fn lemma_file_end_bounds(lines: Seq<Seq<u8>>, at: int)
    requires
        0 <= at < lines.len(),
    ensures
        at < hunks_start(lines, at) <= lines.len(),
        at < next_file(lines, hunks_start(lines, at)) <= lines.len(),
{
    lemma_headers_end_bounds(lines, at + 1);
    lemma_next_file_bounds(lines, hunks_start(lines, at));
}

/// No file begins inside a hunk body: the next file behind a hunk's body is
/// the next file behind its first line.
pub proof fn lemma_next_file_behind_body(lines: Seq<Seq<u8>>, from: int)
    requires
        0 <= from <= lines.len(),
    ensures
        next_file(lines, body_end(lines, from)) == next_file(lines, from),
    decreases lines.len() - from,
{
    if !ends_body(lines, from) {
        lemma_next_file_behind_body(lines, from + 1);
    }
}

/// Whether line `at` ends the extended header lines of a file.
fn at_headers_end(lines: &Vec<&str>, at: usize) -> (ended: bool)
    ensures
        ended == ends_headers(texts_of(lines@), at as int),
{
    at >= lines.len() || starts_with(lines[at], "---") || starts_with(lines[at], "diff --git")
        || starts_with(lines[at], "@@")
}

/// Reads the hunks of a file from line `from` on, and says where the next
/// file begins.
fn parse_hunks(lines: &Vec<&str>, from: usize) -> (r: (Vec<Hunk>, usize))
    requires
        from <= lines@.len(),
    ensures
        models(r.0@) == hunks_from(texts_of(lines@), from as int),
        r.1 == next_file(texts_of(lines@), from as int),
        from <= r.1 <= lines@.len(),
{
    let ghost texts = texts_of(lines@);
    let count = lines.len();
    let mut hunks: Vec<Hunk> = Vec::new();
    let mut at = from;
    assert(models(hunks@) =~= Seq::<HunkModel>::empty());
    while at < count && !starts_with(lines[at], "diff --git")
        invariant
            texts == texts_of(lines@),
            count == lines@.len(),
            from <= at <= count,
            next_file(texts, at as int) == next_file(texts, from as int),
            models(hunks@) + hunks_from(texts, at as int) == hunks_from(texts, from as int),
        decreases count - at,
    {
        if starts_with(lines[at], "@@") {
            let ghost before = models(hunks@);
            let ghost rest = hunks_from(texts, body_end(texts, at + 1));
            let (hunk, next) = parse_hunk(lines, at);
            proof {
                lemma_next_file_behind_body(texts, at + 1);
            }
            let ghost model = hunk@;
            hunks.push(hunk);
            proof {
                assert(models(hunks@) =~= before + seq![model]);
                assert(before + (seq![model] + rest) =~= (before + seq![model]) + rest);
            }
            at = next;
        } else {
            at = at + 1;
        }
    }
    proof {
        assert(models(hunks@) + Seq::<HunkModel>::empty() =~= models(hunks@));
    }
    (hunks, at)
}

/// Reads the file whose header is line `at`, and says where the next file
/// begins.
fn parse_file(lines: &Vec<&str>, at: usize) -> (r: (FileDiff, usize))
    requires
        at < lines@.len(),
    ensures
        r.0@ == file_at(texts_of(lines@), at as int),
        r.1 == next_file(texts_of(lines@), hunks_start(texts_of(lines@), at as int)),
        at < r.1 <= lines@.len(),
{
    let ghost texts = texts_of(lines@);
    let count = lines.len();
    let (path, status) = parse_diff_header(lines[at]);
    let mut file_status = status;
    let mut old_path: Option<String> = None;
    let mut next = at + 1;
    while !at_headers_end(lines, next)
        invariant
            texts == texts_of(lines@),
            count == lines@.len(),
            at < next <= count,
            headers_end(texts, next as int) == headers_end(texts, at + 1),
            file_status == status_of(texts, at + 1, next as int),
            optional_bytes(old_path) == old_path_of(texts, at + 1, next as int),
        decreases count - next,
    {
        let header_line = lines[next];
        if starts_with(header_line, "new file") {
            file_status = FileStatus::Added;
        } else if starts_with(header_line, "deleted file") {
            file_status = FileStatus::Deleted;
        } else if let Some(from_path) = strip_prefix(header_line, "rename from ") {
            file_status = FileStatus::Renamed;
            old_path = Some(from_path.to_owned());
        } else if starts_with(header_line, "rename to") {
            file_status = FileStatus::Renamed;
        }
        next = next + 1;
    }
    if file_status != FileStatus::Renamed {
        old_path = None;
    }
    if next < count && starts_with(lines[next], "---") {
        next = next + 1;
    }
    if next < count && starts_with(lines[next], "+++") {
        next = next + 1;
    }
    let (hunks, end) = parse_hunks(lines, next);
    (FileDiff { path, old_path, status: file_status, hunks }, end)
}

/// Reads the text of a unified diff: the files that it describes, in order,
/// each with its hunks and their lines.
///
/// Every text is read, and an empty one describes no file.
pub fn parse_unified_diff(input: &str) -> (files: Vec<FileDiff>)
    ensures
        models(files@) == diff_files(input.spec_bytes()),
        input.spec_bytes().len() == 0 ==> files@.len() == 0,
        forall|f: int|
            0 <= f < files@.len() ==> all_well_formed((#[trigger] files@[f]).hunks@)
                && all_unmarked(files@[f].hunks@),
        forall|f: int|
            0 <= f < files@.len() && (#[trigger] files@[f]).old_path is Some ==> files@[f].status
                == FileStatus::Renamed,
{
    let lines = split_lines(input);
    let ghost texts = texts_of(lines@);
    let count = lines.len();
    let mut files: Vec<FileDiff> = Vec::new();
    let mut at: usize = 0;
    assert(models(files@) =~= Seq::<FileModel>::empty());
    while at < count
        invariant
            texts == texts_of(lines@),
            count == lines@.len(),
            at <= count,
            models(files@) + files_from(texts, at as int) == files_from(texts, 0),
        decreases count - at,
    {
        if starts_with(lines[at], "diff --git") {
            let ghost before = models(files@);
            let ghost rest = files_from(texts, next_file(texts, hunks_start(texts, at as int)));
            let (file, next) = parse_file(&lines, at);
            let ghost model = file@;
            files.push(file);
            proof {
                assert(models(files@) =~= before + seq![model]);
                assert(before + (seq![model] + rest) =~= (before + seq![model]) + rest);
            }
            at = next;
        } else {
            at = at + 1;
        }
    }
    proof {
        assert(models(files@) + Seq::<FileModel>::empty() =~= models(files@));
        lemma_files_well_formed(texts, 0);
        assert forall|f: int| 0 <= f < files@.len() implies all_well_formed(
            (#[trigger] files@[f]).hunks@,
        ) && all_unmarked(files@[f].hunks@) by {
            let file = models(files@)[f];
            assert(file == files@[f]@);
            assert(file.well_formed() && file.unmarked());
            assert forall|h: int| 0 <= h < files@[f].hunks@.len() implies (
            #[trigger] files@[f].hunks@[h])@.well_formed() && files@[f].hunks@[h]@.unmarked() by {
                assert(file.hunks[h] == files@[f].hunks@[h]@);
            }
        }
        assert forall|f: int|
            0 <= f < files@.len() && (#[trigger] files@[f]).old_path is Some implies
            files@[f].status == FileStatus::Renamed by {
            let file = models(files@)[f];
            assert(file == files@[f]@);
            assert(file.well_formed());
        }
    }
    files
}

/// The number behind the next one is the next one behind the number.
pub proof fn lemma_number_after_following(start: u32, steps: nat)
    ensures
        number_after(following(start), steps) == number_after(start, steps + 1),
    decreases steps,
{
    reveal_with_fuel(number_after, 2);
    if steps > 0 {
        lemma_number_after_following(start, (steps - 1) as nat);
    }
}

/// The lines before line `upto + 1` of a sequence that begins with `first`
/// are `first` and the lines before line `upto` of the rest.
pub proof fn lemma_steps_behind_first(first: LineModel, rest: Seq<LineModel>, upto: int)
    requires
        0 <= upto <= rest.len(),
    ensures
        old_steps(seq![first] + rest, upto + 1) == old_steps(rest, upto) + if first.origin
            == LineOrigin::Addition {
            0nat
        } else {
            1nat
        },
        new_steps(seq![first] + rest, upto + 1) == new_steps(rest, upto) + if first.origin
            == LineOrigin::Deletion {
            0nat
        } else {
            1nat
        },
    decreases upto,
{
    let all = seq![first] + rest;
    reveal_with_fuel(old_steps, 2);
    reveal_with_fuel(new_steps, 2);
    if upto > 0 {
        lemma_steps_behind_first(first, rest, upto - 1);
        assert(all[upto] == rest[upto - 1]);
    } else {
        assert(all[0] == first);
    }
}

/// The lines of a hunk body are numbered by the walk from the numbers that
/// the body begins with, and none has a span.
pub proof fn lemma_hunk_lines_numbered(lines: Seq<Seq<u8>>, from: int, old_no: u32, new_no: u32)
    requires
        0 <= from,
    ensures
        ({
            let hunk = HunkModel {
                header: Seq::empty(),
                old_start: old_no,
                old_count: 0,
                new_start: new_no,
                new_count: 0,
                lines: hunk_lines(lines, from, old_no, new_no),
            };
            hunk.well_formed() && hunk.unmarked()
        }),
    decreases lines.len() - from,
{
    let body = hunk_lines(lines, from, old_no, new_no);
    let hunk = HunkModel {
        header: Seq::empty(),
        old_start: old_no,
        old_count: 0,
        new_start: new_no,
        new_count: 0,
        lines: body,
    };
    if !ends_body(lines, from) {
        match body_line(lines[from], old_no, new_no) {
            None => {
                lemma_hunk_lines_numbered(lines, from + 1, old_no, new_no);
            },
            Some(first) => {
                let next_old = old_after(first.origin, old_no);
                let next_new = new_after(first.origin, new_no);
                let rest = hunk_lines(lines, from + 1, next_old, next_new);
                lemma_hunk_lines_numbered(lines, from + 1, next_old, next_new);
                let behind = HunkModel {
                    header: Seq::empty(),
                    old_start: next_old,
                    old_count: 0,
                    new_start: next_new,
                    new_count: 0,
                    lines: rest,
                };
                assert forall|at: int| 0 <= at < body.len() implies hunk.numbered_at(at) && (
                #[trigger] body[at]).spans_fit() && body[at].change_spans.len() == 0 by {
                    if at > 0 {
                        assert(body[at] == rest[at - 1]);
                        assert(behind.numbered_at(at - 1));
                        assert(rest[at - 1].spans_fit());
                        lemma_steps_behind_first(first, rest, at - 1);
                        lemma_number_after_following(old_no, old_steps(rest, at - 1));
                        lemma_number_after_following(new_no, new_steps(rest, at - 1));
                    } else {
                        assert(body[0] == first);
                    }
                }
            },
        }
    }
}

/// Every hunk that the parser reads is well formed and without spans.
pub proof fn lemma_hunk_at_well_formed(lines: Seq<Seq<u8>>, at: int)
    requires
        0 <= at,
    ensures
        hunk_at(lines, at).well_formed(),
        hunk_at(lines, at).unmarked(),
{
    let hunk = hunk_at(lines, at);
    lemma_hunk_lines_numbered(lines, at + 1, hunk.old_start, hunk.new_start);
    let bare = HunkModel {
        header: Seq::empty(),
        old_start: hunk.old_start,
        old_count: 0,
        new_start: hunk.new_start,
        new_count: 0,
        lines: hunk.lines,
    };
    assert forall|k: int| 0 <= k < hunk.lines.len() implies hunk.numbered_at(k) && (
    #[trigger] hunk.lines[k]).spans_fit() by {
        assert(bare.numbered_at(k));
        assert(bare.lines[k].spans_fit());
    }
    assert forall|k: int| 0 <= k < hunk.lines.len() implies
    (#[trigger] hunk.lines[k]).change_spans.len()
        == 0 by {
        assert(bare.lines[k].change_spans.len() == 0);
    }
}

/// Every hunk of a file that the parser reads is well formed and without spans.
pub proof fn lemma_hunks_well_formed(lines: Seq<Seq<u8>>, from: int)
    requires
        0 <= from,
    ensures
        forall|h: int|
            0 <= h < hunks_from(lines, from).len() ==> (#[trigger] hunks_from(
                lines,
                from,
            )[h]).well_formed() && hunks_from(lines, from)[h].unmarked(),
    decreases lines.len() - from,
{
    let hunks = hunks_from(lines, from);
    if from >= lines.len() || starts_file(lines[from]) {
        assert(hunks.len() == 0);
    } else if starts_hunk(lines[from]) {
        lemma_body_end_bounds(lines, from + 1);
        let rest = hunks_from(lines, body_end(lines, from + 1));
        lemma_hunks_well_formed(lines, body_end(lines, from + 1));
        lemma_hunk_at_well_formed(lines, from);
        assert forall|h: int| 0 <= h < hunks.len() implies (#[trigger] hunks[h]).well_formed()
            && hunks[h].unmarked() by {
            if h > 0 {
                assert(hunks[h] == rest[h - 1]);
            } else {
                assert(hunks[0] == hunk_at(lines, from));
            }
        }
    } else {
        lemma_hunks_well_formed(lines, from + 1);
        assert(hunks == hunks_from(lines, from + 1));
    }
}

/// Every file that the parser reads is well formed and without spans.
pub proof fn lemma_files_well_formed(lines: Seq<Seq<u8>>, from: int)
    requires
        0 <= from,
    ensures
        forall|f: int|
            0 <= f < files_from(lines, from).len() ==> (#[trigger] files_from(
                lines,
                from,
            )[f]).well_formed() && files_from(lines, from)[f].unmarked(),
    decreases lines.len() - from,
{
    let files = files_from(lines, from);
    if from >= lines.len() {
        assert(files.len() == 0);
    } else if starts_file(lines[from]) {
        lemma_file_end_bounds(lines, from);
        let next = next_file(lines, hunks_start(lines, from));
        let rest = files_from(lines, next);
        lemma_files_well_formed(lines, next);
        lemma_hunks_well_formed(lines, hunks_start(lines, from));
        assert forall|f: int| 0 <= f < files.len() implies (#[trigger] files[f]).well_formed()
            && files[f].unmarked() by {
            if f > 0 {
                assert(files[f] == rest[f - 1]);
            } else {
                assert(files[0] == file_at(lines, from));
                assert(files[0].hunks == hunks_from(lines, hunks_start(lines, from)));
            }
        }
    } else {
        lemma_files_well_formed(lines, from + 1);
        assert(files == files_from(lines, from + 1));
    }
}

/// An empty text describes no file.
pub proof fn lemma_empty_diff()
    ensures
        diff_files(Seq::empty()) == Seq::<FileModel>::empty(),
{
}

/// The mark that a line of the given origin begins with in a hunk's body.
pub open spec fn origin_mark(origin: LineOrigin) -> Seq<u8> {
    match origin {
        LineOrigin::Context => bytes_of(" "@),
        LineOrigin::Addition => bytes_of("+"@),
        LineOrigin::Deletion => bytes_of("-"@),
    }
}

/// A line as it stands in a hunk's body: its mark, then its content.
pub open spec fn body_text(line: LineModel) -> Seq<u8> {
    origin_mark(line.origin) + line.content
}

/// Whether a line of a hunk's body begins with one of the four marks: the
/// three of the origins, or the backslash.
pub open spec fn is_marked(line: Seq<u8>) -> bool {
    has_prefix(line, bytes_of("+"@)) || has_prefix(line, bytes_of("-"@)) || has_prefix(
        line,
        bytes_of(" "@),
    ) || is_marker(line)
}

/// The lines of a hunk's body that stand for a line: all but the markers.
pub open spec fn without_markers(body: Seq<Seq<u8>>) -> Seq<Seq<u8>> {
    body.filter(|line: Seq<u8>| !is_marker(line))
}

/// The bytes of the four marks.
proof fn lemma_marks()
    ensures
        bytes_of("+"@) == seq![0x2bu8],
        bytes_of("-"@) == seq![0x2du8],
        bytes_of(" "@) == seq![0x20u8],
        bytes_of("\\"@) == seq![0x5cu8],
{
    reveal_strlit("+");
    reveal_strlit("-");
    reveal_strlit(" ");
    reveal_strlit("\\");
    vstd::utf8::is_ascii_chars_encode_utf8("+"@);
    vstd::utf8::is_ascii_chars_encode_utf8("-"@);
    vstd::utf8::is_ascii_chars_encode_utf8(" "@);
    vstd::utf8::is_ascii_chars_encode_utf8("\\"@);
    assert(bytes_of("+"@) =~= seq![0x2bu8]);
    assert(bytes_of("-"@) =~= seq![0x2du8]);
    assert(bytes_of(" "@) =~= seq![0x20u8]);
    assert(bytes_of("\\"@) =~= seq![0x5cu8]);
}

/// Round trip: where every line of the body of the hunk at line `at`
/// begins with a mark, the lines of the hunk, each written as its mark and
/// its content, are the lines of the body without the marker lines.
pub proof fn lemma_hunk_round_trip(lines: Seq<Seq<u8>>, at: int)
    requires
        0 <= at < lines.len(),
        forall|k: int| at < k < body_end(lines, at + 1) ==> is_marked(#[trigger] lines[k]),
    ensures
        hunk_at(lines, at).lines.map_values(|line: LineModel| body_text(line)) == without_markers(
            lines.subrange(at + 1, body_end(lines, at + 1)),
        ),
{
    let hunk = hunk_at(lines, at);
    lemma_round_trip(lines, at + 1, hunk.old_start, hunk.new_start);
}

/// The round trip of a hunk body that begins at line `from`, whatever the
/// numbers it is read with.
pub proof fn lemma_round_trip(lines: Seq<Seq<u8>>, from: int, old_no: u32, new_no: u32)
    requires
        0 <= from <= lines.len(),
        forall|k: int| from <= k < body_end(lines, from) ==> is_marked(#[trigger] lines[k]),
    ensures
        hunk_lines(lines, from, old_no, new_no).map_values(|line: LineModel| body_text(line))
            == without_markers(lines.subrange(from, body_end(lines, from))),
    decreases lines.len() - from,
{
    let keep = |line: Seq<u8>| !is_marker(line);
    let write = |line: LineModel| body_text(line);
    let end = body_end(lines, from);
    let body = lines.subrange(from, end);
    let read = hunk_lines(lines, from, old_no, new_no);
    lemma_body_end_bounds(lines, from);
    if ends_body(lines, from) {
        assert(body =~= Seq::<Seq<u8>>::empty());
        assert(read.map_values(write) =~= Seq::<Seq<u8>>::empty());
    } else {
        lemma_marks();
        let line = lines[from];
        let first = seq![line];
        let rest = lines.subrange(from + 1, end);
        lemma_body_end_bounds(lines, from + 1);
        assert(body =~= first + rest);
        assert(first.drop_last() =~= Seq::<Seq<u8>>::empty());
        reveal_with_fuel(Seq::filter, 2);
        Seq::filter_distributes_over_add(first, rest, keep);
        match body_line(line, old_no, new_no) {
            None => {
                lemma_round_trip(lines, from + 1, old_no, new_no);
                assert(first.filter(keep) =~= Seq::<Seq<u8>>::empty());
                assert(first.filter(keep) + rest.filter(keep) =~= rest.filter(keep));
            },
            Some(parsed) => {
                let behind = hunk_lines(
                    lines,
                    from + 1,
                    old_after(parsed.origin, old_no),
                    new_after(parsed.origin, new_no),
                );
                lemma_round_trip(
                    lines,
                    from + 1,
                    old_after(parsed.origin, old_no),
                    new_after(parsed.origin, new_no),
                );
                assert(is_marked(line));
                assert(body_text(parsed) =~= line);
                assert(line.subrange(0, 1)[0] == line[0]);
                assert(!is_marker(line));
                assert(first.filter(keep) =~= first);
                assert(read.map_values(write) =~= seq![line] + behind.map_values(write));
            },
        }
    }
}

} // verus!
