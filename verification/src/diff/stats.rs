//! Counts over the files of a diff.

use crate::count::capped;
use crate::diff::{models, FileDiff, FileModel, HunkModel, LineModel, LineOrigin};
use vstd::prelude::*;

verus! {

/// How many of the lines are of the given origin.
pub open spec fn lines_of_origin(lines: Seq<LineModel>, origin: LineOrigin) -> nat
    decreases lines.len(),
{
    if lines.len() == 0 {
        0
    } else if lines.last().origin == origin {
        lines_of_origin(lines.drop_last(), origin) + 1
    } else {
        lines_of_origin(lines.drop_last(), origin)
    }
}

/// How many lines of the hunks are of the given origin.
pub open spec fn hunk_lines_of_origin(hunks: Seq<HunkModel>, origin: LineOrigin) -> nat
    decreases hunks.len(),
{
    if hunks.len() == 0 {
        0
    } else {
        hunk_lines_of_origin(hunks.drop_last(), origin) + lines_of_origin(
            hunks.last().lines,
            origin,
        )
    }
}

/// How many lines of the files are of the given origin.
pub open spec fn file_lines_of_origin(files: Seq<FileModel>, origin: LineOrigin) -> nat
    decreases files.len(),
{
    if files.len() == 0 {
        0
    } else {
        file_lines_of_origin(files.drop_last(), origin) + hunk_lines_of_origin(
            files.last().hunks,
            origin,
        )
    }
}

/// The number of files, of added lines and of removed lines of a diff.
pub fn compute_stats(diffs: &[FileDiff]) -> (stats: (usize, usize, usize))
    ensures
        stats.0 == diffs@.len(),
        stats.1 == capped(file_lines_of_origin(models(diffs@), LineOrigin::Addition)),
        stats.2 == capped(file_lines_of_origin(models(diffs@), LineOrigin::Deletion)),
{
    let files = diffs.len();
    let ghost all = models(diffs@);
    let mut additions: usize = 0;
    let mut deletions: usize = 0;
    let mut f: usize = 0;
    assert(all.take(0) =~= Seq::<FileModel>::empty());
    while f < files
        invariant
            all == models(diffs@),
            files == diffs@.len(),
            f <= files,
            additions == capped(file_lines_of_origin(all.take(f as int), LineOrigin::Addition)),
            deletions == capped(file_lines_of_origin(all.take(f as int), LineOrigin::Deletion)),
        decreases files - f,
    {
        let hunks = &diffs[f].hunks;
        let ghost file_hunks = models(hunks@);
        let ghost added_before = file_lines_of_origin(all.take(f as int), LineOrigin::Addition);
        let ghost deleted_before = file_lines_of_origin(all.take(f as int), LineOrigin::Deletion);
        let mut h: usize = 0;
        assert(file_hunks.take(0) =~= Seq::<HunkModel>::empty());
        while h < hunks.len()
            invariant
                file_hunks == models(hunks@),
                h <= hunks@.len(),
                additions == capped(
                    added_before + hunk_lines_of_origin(
                        file_hunks.take(h as int),
                        LineOrigin::Addition,
                    ),
                ),
                deletions == capped(
                    deleted_before + hunk_lines_of_origin(
                        file_hunks.take(h as int),
                        LineOrigin::Deletion,
                    ),
                ),
            decreases hunks@.len() - h,
        {
            let lines = &hunks[h].lines;
            let ghost hunk_lines = models(lines@);
            let ghost added_so_far = added_before + hunk_lines_of_origin(
                file_hunks.take(h as int),
                LineOrigin::Addition,
            );
            let ghost deleted_so_far = deleted_before + hunk_lines_of_origin(
                file_hunks.take(h as int),
                LineOrigin::Deletion,
            );
            let mut l: usize = 0;
            assert(hunk_lines.take(0) =~= Seq::<LineModel>::empty());
            while l < lines.len()
                invariant
                    hunk_lines == models(lines@),
                    l <= lines@.len(),
                    additions == capped(
                        added_so_far + lines_of_origin(
                            hunk_lines.take(l as int),
                            LineOrigin::Addition,
                        ),
                    ),
                    deletions == capped(
                        deleted_so_far + lines_of_origin(
                            hunk_lines.take(l as int),
                            LineOrigin::Deletion,
                        ),
                    ),
                decreases lines@.len() - l,
            {
                proof {
                    assert(hunk_lines.take(l + 1).drop_last() =~= hunk_lines.take(l as int));
                    assert(hunk_lines.take(l + 1).last() == lines@[l as int]@);
                }
                match lines[l].origin {
                    LineOrigin::Addition => {
                        additions = additions.saturating_add(1);
                    },
                    LineOrigin::Deletion => {
                        deletions = deletions.saturating_add(1);
                    },
                    LineOrigin::Context => {},
                }
                l = l + 1;
            }
            proof {
                assert(hunk_lines.take(lines@.len() as int) =~= hunk_lines);
                assert(file_hunks.take(h + 1).drop_last() =~= file_hunks.take(h as int));
                assert(file_hunks.take(h + 1).last().lines == hunk_lines);
            }
            h = h + 1;
        }
        proof {
            assert(file_hunks.take(hunks@.len() as int) =~= file_hunks);
            assert(all.take(f + 1).drop_last() =~= all.take(f as int));
            assert(all.take(f + 1).last().hunks == file_hunks);
        }
        f = f + 1;
    }
    assert(all.take(files as int) =~= all);
    (files, additions, deletions)
}

} // verus!
