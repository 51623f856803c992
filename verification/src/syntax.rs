//! Where the colours of syntax highlighting fall in a line.
//!
//! A highlighter hands back a line in pieces, each with a colour. The
//! ranges of the pieces in the line follow from their lengths.

use vstd::prelude::*;

verus! {

/// A colour: red, green, blue and opacity.
#[derive(Debug, Clone, Copy, PartialEq, Eq, Structural)]
pub struct Rgba {
    pub red: u8,
    pub green: u8,
    pub blue: u8,
    pub alpha: u8,
}

/// A piece of a highlighted line: its colour and its length in bytes.
#[derive(Debug, Clone, Copy, PartialEq, Eq, Structural)]
pub struct StyledPiece {
    pub color: Rgba,
    pub len: usize,
}

/// A byte range of a line and its colour.
#[derive(Debug, Clone, Copy, PartialEq, Eq, Structural)]
pub struct SyntaxHighlight {
    /// Byte offset into the line where the range starts.
    pub start: usize,
    /// Byte offset into the line where the range ends.
    pub end: usize,
    pub color: Rgba,
}

/// The length of the pieces together.
pub open spec fn pieces_len(pieces: Seq<StyledPiece>) -> nat
    decreases pieces.len(),
{
    if pieces.len() == 0 {
        0
    } else {
        pieces_len(pieces.drop_last()) + pieces.last().len as nat
    }
}

/// The ranges of the pieces in a line of `line_len` bytes: each piece
/// begins where the pieces before it end, and ends no later than the line.
/// A piece of which nothing lies in the line has no range.
pub open spec fn highlights_of(line_len: usize, pieces: Seq<StyledPiece>) -> Seq<SyntaxHighlight>
    decreases pieces.len(),
{
    if pieces.len() == 0 {
        seq![]
    } else {
        let earlier = highlights_of(line_len, pieces.drop_last());
        let start = pieces_len(pieces.drop_last());
        let end = start + pieces.last().len;
        if start < line_len && start < end {
            earlier.push(
                SyntaxHighlight {
                    start: start as usize,
                    end: if end < line_len {
                        end as usize
                    } else {
                        line_len
                    },
                    color: pieces.last().color,
                },
            )
        } else {
            earlier
        }
    }
}

/// Every range lies in the line, is not empty, and begins where the range
/// before it ends or later.
pub proof fn lemma_highlights_in_line(line_len: usize, pieces: Seq<StyledPiece>)
    ensures
        forall|k: int|
            0 <= k < highlights_of(line_len, pieces).len() ==> (#[trigger] highlights_of(
                line_len,
                pieces,
            )[k]).start < highlights_of(line_len, pieces)[k].end <= line_len,
        forall|k: int|
            0 <= k < highlights_of(line_len, pieces).len() ==> (#[trigger] highlights_of(
                line_len,
                pieces,
            )[k]).end <= pieces_len(pieces),
        forall|k: int|
            0 < k < highlights_of(line_len, pieces).len() ==> highlights_of(line_len, pieces)[k
                - 1].end <= (#[trigger] highlights_of(line_len, pieces)[k]).start,
    decreases pieces.len(),
{
    if pieces.len() > 0 {
        let before = pieces.drop_last();
        lemma_highlights_in_line(line_len, before);
        let earlier = highlights_of(line_len, before);
        let all = highlights_of(line_len, pieces);
        assert forall|k: int| 0 <= k < all.len() implies (#[trigger] all[k]).start < all[k].end
            <= line_len && all[k].end <= pieces_len(pieces) by {
            if k < earlier.len() {
                assert(all[k] == earlier[k]);
            }
        }
        assert forall|k: int| 0 < k < all.len() implies
        all[k - 1].end <= (#[trigger] all[k]).start by {
            if k < earlier.len() {
                assert(all[k] == earlier[k]);
                assert(all[k - 1] == earlier[k - 1]);
            } else {
                assert(all[k - 1] == earlier[k - 1]);
            }
        }
    }
}

/// Lays the pieces of a highlighted line out as byte ranges in the line.
pub fn highlight_ranges(line_len: usize, pieces: &[StyledPiece]) -> (ranges: Vec<SyntaxHighlight>)
    ensures
        ranges@ == highlights_of(line_len, pieces@),
{
    let mut ranges: Vec<SyntaxHighlight> = Vec::new();
    let mut offset: usize = 0;
    let mut at: usize = 0;
    assert(pieces@.take(0) =~= Seq::<StyledPiece>::empty());
    while at < pieces.len()
        invariant
            at <= pieces@.len(),
            ranges@ == highlights_of(line_len, pieces@.take(at as int)),
            offset == if pieces_len(pieces@.take(at as int)) > usize::MAX {
                usize::MAX
            } else {
                pieces_len(pieces@.take(at as int)) as usize
            },
        decreases pieces@.len() - at,
    {
        proof {
            assert(pieces@.take(at + 1).drop_last() =~= pieces@.take(at as int));
            assert(pieces@.take(at + 1).last() == pieces@[at as int]);
        }
        let end = offset.saturating_add(pieces[at].len);
        // Clamp to the line
        let clamped_end = if end < line_len {
            end
        } else {
            line_len
        };
        if offset < clamped_end {
            ranges.push(
                SyntaxHighlight { start: offset, end: clamped_end, color: pieces[at].color },
            );
        }
        offset = end;
        at = at + 1;
    }
    assert(pieces@.take(at as int) =~= pieces@);
    ranges
}

} // verus!
