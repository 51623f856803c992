//! The split view: the lines of a hunk laid out in rows of two, the old
//! file on the left and the new file on the right.

use crate::diff::inline::{
    find_run_end, lemma_run_end_bounds, lemma_run_origin, run_end, smaller,
};
use crate::diff::{models, DiffLine, LineModel, LineOrigin};
use std::sync::Arc;
use vstd::prelude::*;

verus! {

/// One row in a side-by-side diff view.
///
/// `left` carries the old-file side (context or deletion),
/// `right` carries the new-file side (context or addition).
/// Either side may be `None` when there is no paired line.
#[derive(Debug)]
pub struct SplitRow {
    pub left: Option<Arc<DiffLine>>,
    pub right: Option<Arc<DiffLine>>,
}

/// The model of a [`SplitRow`].
pub struct RowModel {
    pub left: Option<LineModel>,
    pub right: Option<LineModel>,
}

/// The model of a line that may be missing.
pub open spec fn optional_line(line: Option<Arc<DiffLine>>) -> Option<LineModel> {
    match line {
        Some(l) => Some(l@),
        None => None,
    }
}

impl View for SplitRow {
    type V = RowModel;

    open spec fn view(&self) -> RowModel {
        RowModel { left: optional_line(self.left), right: optional_line(self.right) }
    }
}

impl Clone for SplitRow {
    fn clone(&self) -> (copy: SplitRow)
        ensures
            copy@ == self@,
    {
        SplitRow {
            left: match &self.left {
                Some(line) => Some(share(line)),
                None => None,
            },
            right: match &self.right {
                Some(line) => Some(share(line)),
                None => None,
            },
        }
    }
}

/// The larger of two numbers.
pub open spec fn larger(a: int, b: int) -> int {
    if a >= b {
        a
    } else {
        b
    }
}

/// The row for a line that stands in both files.
pub open spec fn both_sides(line: LineModel) -> RowModel {
    RowModel { left: Some(line), right: Some(line) }
}

/// The row for a line that stands in the new file only.
pub open spec fn right_only(line: LineModel) -> RowModel {
    RowModel { left: None, right: Some(line) }
}

/// Row `k` of a block of deletions from line `from` up to line `adds`,
/// followed by additions up to line `end`: the `k`-th deletion on the left,
/// if there is one, and the `k`-th addition on the right, if there is one.
pub open spec fn block_row(lines: Seq<LineModel>, from: int, adds: int, end: int, k: int)
    -> RowModel {
    RowModel {
        left: if from + k < adds {
            Some(lines[from + k])
        } else {
            None
        },
        right: if adds + k < end {
            Some(lines[adds + k])
        } else {
            None
        },
    }
}

/// The first `count` rows of a block.
pub open spec fn block_rows(lines: Seq<LineModel>, from: int, adds: int, end: int, count: int)
    -> Seq<RowModel> {
    Seq::new(count as nat, |k: int| block_row(lines, from, adds, end, k))
}

/// The rows for the lines from `from` on.
///
/// A context line makes a row with the line on both sides. A run of
/// deletions and the run of additions that follows it directly make as many
/// rows as the longer of the two has lines. An addition that follows no
/// deletion makes a row with an empty left side.
pub open spec fn rows_from(lines: Seq<LineModel>, from: int) -> Seq<RowModel>
    decreases lines.len() - from,
{
    if from < 0 || from >= lines.len() {
        seq![]
    } else {
        match lines[from].origin {
            LineOrigin::Context => seq![both_sides(lines[from])] + rows_from(lines, from + 1),
            LineOrigin::Addition => seq![right_only(lines[from])] + rows_from(lines, from + 1),
            LineOrigin::Deletion => {
                let adds = run_end(lines, from, LineOrigin::Deletion);
                let end = run_end(lines, adds, LineOrigin::Addition);
                proof {
                    lemma_run_end_bounds(lines, from + 1, LineOrigin::Deletion);
                    lemma_run_end_bounds(lines, adds, LineOrigin::Addition);
                }
                block_rows(lines, from, adds, end, larger(adds - from, end - adds)) + rows_from(
                    lines,
                    end,
                )
            },
        }
    }
}

/// The rows of the split view of a hunk's lines.
pub open spec fn split_rows(lines: Seq<LineModel>) -> Seq<RowModel> {
    rows_from(lines, 0)
}

/// `Arc::clone` of std: a second handle to the same line, which is not copied.
#[verifier::external_body]
fn share(line: &Arc<DiffLine>) -> (other: Arc<DiffLine>)
    ensures
        other == *line,
{
    Arc::clone(line)
}

/// A handle to a copy of line `at`.
fn line_at(lines: &[DiffLine], at: usize) -> (line: Arc<DiffLine>)
    requires
        at < lines@.len(),
    ensures
        line@ == lines@[at as int]@,
{
    Arc::new(lines[at].clone())
}

/// Convert a flat slice of diff lines (as produced by a unified diff) into
/// paired [`SplitRow`]s suitable for side-by-side rendering.
///
/// Pairing rules:
/// 1. Context line → both sides populated (same line).
/// 2. Contiguous deletions followed by contiguous additions → pair 1:1.
/// 3. Excess deletions (more del than add) → `right: None`.
/// 4. Excess additions (more add than del) → `left: None`.
/// 5. Standalone additions (no preceding deletions) → `left: None`.
/// 6. Standalone deletions (no following additions) → `right: None`.
pub fn split_hunk_lines(lines: &[DiffLine]) -> (rows: Vec<SplitRow>)
    ensures
        models(rows@) == split_rows(models(lines@)),
        forall|k: int| 0 <= k < rows@.len() ==> well_paired((#[trigger] rows@[k])@),
{
    let ghost given = models(lines@);
    let count = lines.len();
    let mut rows: Vec<SplitRow> = Vec::new();
    let mut from: usize = 0;
    assert(models(rows@) =~= Seq::<RowModel>::empty());
    while from < count
        invariant
            given == models(lines@),
            count == lines@.len(),
            from <= count,
            models(rows@) + rows_from(given, from as int) == split_rows(given),
        decreases count - from,
    {
        let ghost before = models(rows@);
        match lines[from].origin {
            LineOrigin::Context => {
                let line = line_at(lines, from);
                rows.push(SplitRow { left: Some(share(&line)), right: Some(line) });
                proof {
                    let row = both_sides(given[from as int]);
                    assert(models(rows@) =~= before + seq![row]);
                    assert(before + (seq![row] + rows_from(given, from + 1)) =~= (before
                        + seq![row]) + rows_from(given, from + 1));
                }
                from = from + 1;
            },
            LineOrigin::Addition => {
                rows.push(SplitRow { left: None, right: Some(line_at(lines, from)) });
                proof {
                    let row = right_only(given[from as int]);
                    assert(models(rows@) =~= before + seq![row]);
                    assert(before + (seq![row] + rows_from(given, from + 1)) =~= (before
                        + seq![row]) + rows_from(given, from + 1));
                }
                from = from + 1;
            },
            LineOrigin::Deletion => {
                let adds = find_run_end(lines, from, LineOrigin::Deletion);
                let end = find_run_end(lines, adds, LineOrigin::Addition);
                proof {
                    lemma_run_end_bounds(given, from + 1, LineOrigin::Deletion);
                }
                let del_count = adds - from;
                let add_count = end - adds;
                let pairs = if del_count <= add_count {
                    del_count
                } else {
                    add_count
                };
                let mut p: usize = 0;
                assert(models(rows@) =~= before + block_rows(
                    given,
                    from as int,
                    adds as int,
                    end as int,
                    0,
                ));
                // Paired lines
                while p < pairs
                    invariant
                        given == models(lines@),
                        from < adds <= end <= count,
                        count == lines@.len(),
                        pairs == smaller(adds - from, end - adds),
                        p <= pairs,
                        models(rows@) == before + block_rows(
                            given,
                            from as int,
                            adds as int,
                            end as int,
                            p as int,
                        ),
                    decreases pairs - p,
                {
                    let ghost so_far = models(rows@);
                    rows.push(
                        SplitRow {
                            left: Some(line_at(lines, from + p)),
                            right: Some(line_at(lines, adds + p)),
                        },
                    );
                    proof {
                        let row = block_row(given, from as int, adds as int, end as int, p as int);
                        assert(models(rows@) =~= so_far + seq![row]);
                        assert(so_far + seq![row] =~= before + block_rows(
                            given,
                            from as int,
                            adds as int,
                            end as int,
                            p + 1,
                        ));
                    }
                    p = p + 1;
                }
                // Excess deletions
                while p < del_count
                    invariant
                        given == models(lines@),
                        from < adds <= end <= count,
                        count == lines@.len(),
                        del_count == adds - from,
                        add_count == end - adds,
                        pairs == smaller(adds - from, end - adds),
                        pairs <= p <= del_count,
                        models(rows@) == before + block_rows(
                            given,
                            from as int,
                            adds as int,
                            end as int,
                            p as int,
                        ),
                    decreases del_count - p,
                {
                    let ghost so_far = models(rows@);
                    rows.push(SplitRow { left: Some(line_at(lines, from + p)), right: None });
                    proof {
                        let row = block_row(given, from as int, adds as int, end as int, p as int);
                        assert(models(rows@) =~= so_far + seq![row]);
                        assert(so_far + seq![row] =~= before + block_rows(
                            given,
                            from as int,
                            adds as int,
                            end as int,
                            p + 1,
                        ));
                    }
                    p = p + 1;
                }
                // Excess additions
                while p < add_count
                    invariant
                        given == models(lines@),
                        from < adds <= end <= count,
                        count == lines@.len(),
                        del_count == adds - from,
                        add_count == end - adds,
                        del_count <= p <= larger(adds - from, end - adds),
                        models(rows@) == before + block_rows(
                            given,
                            from as int,
                            adds as int,
                            end as int,
                            p as int,
                        ),
                    decreases add_count - p,
                {
                    let ghost so_far = models(rows@);
                    rows.push(SplitRow { left: None, right: Some(line_at(lines, adds + p)) });
                    proof {
                        let row = block_row(given, from as int, adds as int, end as int, p as int);
                        assert(models(rows@) =~= so_far + seq![row]);
                        assert(so_far + seq![row] =~= before + block_rows(
                            given,
                            from as int,
                            adds as int,
                            end as int,
                            p + 1,
                        ));
                    }
                    p = p + 1;
                }
                proof {
                    assert(p == larger(adds - from, end - adds));
                    let block = block_rows(given, from as int, adds as int, end as int, p as int);
                    assert(before + (block + rows_from(given, end as int)) =~= (before + block)
                        + rows_from(given, end as int));
                }
                from = end;
            },
        }
    }
    proof {
        assert(models(rows@) + Seq::<RowModel>::empty() =~= models(rows@));
        lemma_rows_well_paired(given, 0);
        assert forall|k: int| 0 <= k < rows@.len() implies well_paired((#[trigger] rows@[k])@) by {
            assert(models(rows@)[k] == rows@[k]@);
        }
    }
    rows
}

/// Whether a row is one of the four kinds that the split view has: a
/// context line on both sides, a deletion beside the addition that replaces
/// it, a deletion alone on the left, or an addition alone on the right.
pub open spec fn well_paired(row: RowModel) -> bool {
    match (row.left, row.right) {
        (Some(left), Some(right)) => (left == right && left.origin == LineOrigin::Context) || (
        left.origin == LineOrigin::Deletion && right.origin == LineOrigin::Addition),
        (Some(left), None) => left.origin == LineOrigin::Deletion,
        (None, Some(right)) => right.origin == LineOrigin::Addition,
        (None, None) => false,
    }
}

/// Every row of the split view has a side, and has both only for a context
/// line or for a deletion and an addition that are paired.
pub proof fn lemma_rows_well_paired(lines: Seq<LineModel>, from: int)
    requires
        0 <= from <= lines.len(),
    ensures
        forall|k: int|
            0 <= k < rows_from(lines, from).len() ==>
                well_paired(#[trigger] rows_from(lines, from)[k]),
    decreases lines.len() - from,
{
    let rows = rows_from(lines, from);
    if from < lines.len() {
        match lines[from].origin {
            LineOrigin::Context => {
                let rest = rows_from(lines, from + 1);
                lemma_rows_well_paired(lines, from + 1);
                assert forall|k: int| 0 <= k < rows.len() implies
                well_paired(#[trigger] rows[k]) by {
                    if k > 0 {
                        assert(rows[k] == rest[k - 1]);
                    }
                }
            },
            LineOrigin::Addition => {
                let rest = rows_from(lines, from + 1);
                lemma_rows_well_paired(lines, from + 1);
                assert forall|k: int| 0 <= k < rows.len() implies
                well_paired(#[trigger] rows[k]) by {
                    if k > 0 {
                        assert(rows[k] == rest[k - 1]);
                    }
                }
            },
            LineOrigin::Deletion => {
                let adds = run_end(lines, from, LineOrigin::Deletion);
                let end = run_end(lines, adds, LineOrigin::Addition);
                lemma_run_end_bounds(lines, from + 1, LineOrigin::Deletion);
                lemma_run_end_bounds(lines, adds, LineOrigin::Addition);
                lemma_run_origin(lines, from, LineOrigin::Deletion);
                lemma_run_origin(lines, adds, LineOrigin::Addition);
                let count = larger(adds - from, end - adds);
                let rest = rows_from(lines, end);
                lemma_rows_well_paired(lines, end);
                assert forall|k: int| 0 <= k < rows.len() implies
                well_paired(#[trigger] rows[k]) by {
                    if k < count {
                        assert(rows[k] == block_row(lines, from, adds, end, k));
                    } else {
                        assert(rows[k] == rest[k - count]);
                    }
                }
            },
        }
    }
}

/// The lines on the left of the rows, from top to bottom.
pub open spec fn left_column(rows: Seq<RowModel>) -> Seq<LineModel> {
    rows.filter_map(|row: RowModel| row.left)
}

/// The lines on the right of the rows, from top to bottom.
pub open spec fn right_column(rows: Seq<RowModel>) -> Seq<LineModel> {
    rows.filter_map(|row: RowModel| row.right)
}

/// The lines that stand in the old file: all but the additions.
pub open spec fn old_side(lines: Seq<LineModel>) -> Seq<LineModel> {
    lines.filter(|line: LineModel| line.origin != LineOrigin::Addition)
}

/// The lines that stand in the new file: all but the deletions.
pub open spec fn new_side(lines: Seq<LineModel>) -> Seq<LineModel> {
    lines.filter(|line: LineModel| line.origin != LineOrigin::Deletion)
}

/// What a function keeps of two sequences in a row is what it keeps of the
/// first and then of the second.
proof fn lemma_filter_map_add<A, B>(a: Seq<A>, b: Seq<A>, f: spec_fn(A) -> Option<B>)
    ensures
        (a + b).filter_map(f) == a.filter_map(f) + b.filter_map(f),
    decreases b.len(),
{
    if b.len() == 0 {
        assert(a + b =~= a);
        assert(a.filter_map(f) + b.filter_map(f) =~= a.filter_map(f));
    } else {
        assert((a + b).drop_last() =~= a + b.drop_last());
        assert((a + b).last() == b.last());
        lemma_filter_map_add(a, b.drop_last(), f);
        match f(b.last()) {
            Some(kept) => {
                assert((a.filter_map(f) + b.drop_last().filter_map(f)) + seq![kept]
                    =~= a.filter_map(f) + (b.drop_last().filter_map(f) + seq![kept]));
            },
            None => {},
        }
    }
}

/// The columns of two sequences of rows in a row.
proof fn lemma_columns_add(a: Seq<RowModel>, b: Seq<RowModel>)
    ensures
        left_column(a + b) == left_column(a) + left_column(b),
        right_column(a + b) == right_column(a) + right_column(b),
{
    lemma_filter_map_add(a, b, |row: RowModel| row.left);
    lemma_filter_map_add(a, b, |row: RowModel| row.right);
}

/// The sides of two sequences of lines in a row.
proof fn lemma_sides_add(a: Seq<LineModel>, b: Seq<LineModel>)
    ensures
        old_side(a + b) == old_side(a) + old_side(b),
        new_side(a + b) == new_side(a) + new_side(b),
{
    Seq::filter_distributes_over_add(a, b, |line: LineModel| line.origin != LineOrigin::Addition);
    Seq::filter_distributes_over_add(a, b, |line: LineModel| line.origin != LineOrigin::Deletion);
}

/// The sides of lines of one origin: all of them on the side of the file
/// that the origin stands in, and none on the other.
proof fn lemma_sides_of_one_origin(run: Seq<LineModel>, origin: LineOrigin)
    requires
        forall|i: int| 0 <= i < run.len() ==> (#[trigger] run[i]).origin == origin,
    ensures
        old_side(run) == if origin == LineOrigin::Addition {
            Seq::<LineModel>::empty()
        } else {
            run
        },
        new_side(run) == if origin == LineOrigin::Deletion {
            Seq::<LineModel>::empty()
        } else {
            run
        },
    decreases run.len(),
{
    reveal(Seq::filter);
    if run.len() > 0 {
        let fewer = run.drop_last();
        assert forall|i: int| 0 <= i < fewer.len() implies
        (#[trigger] fewer[i]).origin == origin by {
            assert(fewer[i] == run[i]);
        }
        lemma_sides_of_one_origin(fewer, origin);
        assert(run.last() == run[run.len() - 1]);
        assert(fewer.push(run.last()) =~= run);
    }
}

/// The columns of the first rows of a block: on the left its first
/// deletions, on the right its first additions.
proof fn lemma_block_columns(lines: Seq<LineModel>, from: int, adds: int, end: int, count: int)
    requires
        0 <= from <= adds <= end <= lines.len(),
        0 <= count,
    ensures
        left_column(block_rows(lines, from, adds, end, count)) == lines.subrange(
            from,
            from + smaller(count, adds - from),
        ),
        right_column(block_rows(lines, from, adds, end, count)) == lines.subrange(
            adds,
            adds + smaller(count, end - adds),
        ),
    decreases count,
{
    let rows = block_rows(lines, from, adds, end, count);
    if count == 0 {
        assert(rows =~= Seq::<RowModel>::empty());
        assert(lines.subrange(from, from) =~= Seq::<LineModel>::empty());
        assert(lines.subrange(adds, adds) =~= Seq::<LineModel>::empty());
    } else {
        let fewer = block_rows(lines, from, adds, end, count - 1);
        lemma_block_columns(lines, from, adds, end, count - 1);
        assert(rows.drop_last() =~= fewer);
        assert(rows.last() == block_row(lines, from, adds, end, count - 1));
        if from + count - 1 < adds {
            assert(left_column(fewer) + seq![lines[from + count - 1]] =~= lines.subrange(
                from,
                from + count,
            ));
        }
        if adds + count - 1 < end {
            assert(right_column(fewer) + seq![lines[adds + count - 1]] =~= lines.subrange(
                adds,
                adds + count,
            ));
        }
    }
}

/// Whether the columns of the rows for the lines from `from` on hold the
/// lines of the two files.
spec fn columns_hold(lines: Seq<LineModel>, from: int) -> bool {
    &&& left_column(rows_from(lines, from)) == old_side(lines.skip(from))
    &&& right_column(rows_from(lines, from)) == new_side(lines.skip(from))
}

/// The columns of one row and the rows behind it.
proof fn lemma_columns_behind_row(
    line: LineModel,
    behind: Seq<LineModel>,
    row: RowModel,
    rest: Seq<RowModel>,
)
    requires
        line.origin != LineOrigin::Deletion,
        row == if line.origin == LineOrigin::Context {
            both_sides(line)
        } else {
            right_only(line)
        },
        left_column(rest) == old_side(behind),
        right_column(rest) == new_side(behind),
    ensures
        left_column(seq![row] + rest) == old_side(seq![line] + behind),
        right_column(seq![row] + rest) == new_side(seq![line] + behind),
{
    let none = Seq::<LineModel>::empty();
    lemma_columns_add(seq![row], rest);
    lemma_sides_add(seq![line], behind);
    Seq::lemma_filter_map_singleton(row, |row: RowModel| row.left);
    Seq::lemma_filter_map_singleton(row, |row: RowModel| row.right);
    lemma_sides_of_one_origin(seq![line], line.origin);
    assert(none + old_side(behind) =~= old_side(behind));
    assert(none + left_column(rest) =~= left_column(rest));
}

/// The columns of a block of deletions and additions and the rows behind it.
proof fn lemma_columns_behind_block(
    dels: Seq<LineModel>,
    news: Seq<LineModel>,
    behind: Seq<LineModel>,
    block: Seq<RowModel>,
    rest: Seq<RowModel>,
)
    requires
        left_column(block) == dels,
        right_column(block) == news,
        forall|i: int| 0 <= i < dels.len() ==> (#[trigger] dels[i]).origin == LineOrigin::Deletion,
        forall|i: int| 0 <= i < news.len() ==> (#[trigger] news[i]).origin == LineOrigin::Addition,
        left_column(rest) == old_side(behind),
        right_column(rest) == new_side(behind),
    ensures
        left_column(block + rest) == old_side(dels + (news + behind)),
        right_column(block + rest) == new_side(dels + (news + behind)),
{
    let none = Seq::<LineModel>::empty();
    lemma_columns_add(block, rest);
    lemma_sides_add(dels, news + behind);
    lemma_sides_add(news, behind);
    lemma_sides_of_one_origin(dels, LineOrigin::Deletion);
    lemma_sides_of_one_origin(news, LineOrigin::Addition);
    assert(none + old_side(behind) =~= old_side(behind));
    assert(none + (news + new_side(behind)) =~= news + new_side(behind));
}

/// The lines from `from` on in three parts.
proof fn lemma_lines_in_parts(lines: Seq<LineModel>, from: int, adds: int, end: int)
    requires
        0 <= from <= adds <= end <= lines.len(),
    ensures
        lines.skip(from) == lines.subrange(from, adds) + (lines.subrange(adds, end) + lines.skip(
            end,
        )),
{
    assert(lines.skip(from) =~= lines.subrange(from, adds) + (lines.subrange(adds, end)
        + lines.skip(end)));
}

/// The columns of the rows for the lines from `from` on.
proof fn lemma_columns_from(lines: Seq<LineModel>, from: int)
    requires
        0 <= from <= lines.len(),
    ensures
        columns_hold(lines, from),
    decreases lines.len() - from,
{
    if from >= lines.len() {
        reveal(Seq::filter);
        assert(lines.skip(from) =~= Seq::<LineModel>::empty());
        assert(rows_from(lines, from) =~= Seq::<RowModel>::empty());
    } else if lines[from].origin != LineOrigin::Deletion {
        lemma_columns_from(lines, from + 1);
        let row = if lines[from].origin == LineOrigin::Context {
            both_sides(lines[from])
        } else {
            right_only(lines[from])
        };
        lemma_lines_in_parts(lines, from, from + 1, from + 1);
        assert(lines.subrange(from, from + 1) =~= seq![lines[from]]);
        assert(lines.subrange(from + 1, from + 1) + lines.skip(from + 1) =~= lines.skip(from + 1));
        lemma_columns_behind_row(
            lines[from],
            lines.skip(from + 1),
            row,
            rows_from(lines, from + 1),
        );
        assert(rows_from(lines, from) == seq![row] + rows_from(lines, from + 1));
        assert(lines.skip(from) == seq![lines[from]] + lines.skip(from + 1));
    } else {
        let adds = run_end(lines, from, LineOrigin::Deletion);
        let end = run_end(lines, adds, LineOrigin::Addition);
        lemma_run_end_bounds(lines, from + 1, LineOrigin::Deletion);
        lemma_run_end_bounds(lines, adds, LineOrigin::Addition);
        lemma_columns_from(lines, end);
        let count = larger(adds - from, end - adds);
        let dels = lines.subrange(from, adds);
        let news = lines.subrange(adds, end);
        lemma_block_columns(lines, from, adds, end, count);
        lemma_lines_in_parts(lines, from, adds, end);
        assert forall|i: int| 0 <= i < dels.len() implies (#[trigger] dels[i]).origin
            == LineOrigin::Deletion by {
            lemma_run_origin(lines, from, LineOrigin::Deletion);
            assert(dels[i] == lines[from + i]);
        }
        assert forall|i: int| 0 <= i < news.len() implies (#[trigger] news[i]).origin
            == LineOrigin::Addition by {
            lemma_run_origin(lines, adds, LineOrigin::Addition);
            assert(news[i] == lines[adds + i]);
        }
        lemma_columns_behind_block(
            dels,
            news,
            lines.skip(end),
            block_rows(lines, from, adds, end, count),
            rows_from(lines, end),
        );
        assert(rows_from(lines, from) == block_rows(lines, from, adds, end, count) + rows_from(
            lines,
            end,
        ));
    }
}

/// The split view keeps every line, once and in order: the left column
/// holds the lines of the old file, the right column those of the new file.
pub proof fn lemma_columns(lines: Seq<LineModel>)
    ensures
        left_column(split_rows(lines)) == old_side(lines),
        right_column(split_rows(lines)) == new_side(lines),
{
    lemma_columns_from(lines, 0);
    assert(lines.skip(0) =~= lines);
}

} // verus!
