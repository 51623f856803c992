use dd_merge::syntax::{highlight_ranges, Rgba, StyledPiece, SyntaxHighlight};

const RED: Rgba = Rgba { red: 255, green: 0, blue: 0, alpha: 255 };
const BLUE: Rgba = Rgba { red: 0, green: 0, blue: 255, alpha: 255 };

fn piece(color: Rgba, len: usize) -> StyledPiece {
    StyledPiece { color, len }
}

#[test]
fn pieces_follow_one_another() {
    // "let x" and the newline that the highlighter was given
    let ranges = highlight_ranges(5, &[piece(RED, 3), piece(BLUE, 1), piece(RED, 1), piece(BLUE, 1)]);
    assert_eq!(
        ranges,
        vec![
            SyntaxHighlight { start: 0, end: 3, color: RED },
            SyntaxHighlight { start: 3, end: 4, color: BLUE },
            SyntaxHighlight { start: 4, end: 5, color: RED },
        ]
    );
}

#[test]
fn a_piece_across_the_end_is_cut() {
    let ranges = highlight_ranges(4, &[piece(RED, 3), piece(BLUE, 5), piece(RED, 2)]);
    assert_eq!(
        ranges,
        vec![
            SyntaxHighlight { start: 0, end: 3, color: RED },
            SyntaxHighlight { start: 3, end: 4, color: BLUE },
        ]
    );
}

#[test]
fn empty_pieces_and_empty_lines_have_no_range() {
    assert!(highlight_ranges(0, &[piece(RED, 1)]).is_empty());
    assert!(highlight_ranges(3, &[]).is_empty());
    let ranges = highlight_ranges(3, &[piece(RED, 0), piece(BLUE, 2), piece(RED, 0)]);
    assert_eq!(ranges, vec![SyntaxHighlight { start: 0, end: 2, color: BLUE }]);
}

#[test]
fn lengths_beyond_the_machine_do_not_wrap() {
    let ranges = highlight_ranges(10, &[piece(RED, usize::MAX), piece(BLUE, 7), piece(RED, 7)]);
    assert_eq!(ranges, vec![SyntaxHighlight { start: 0, end: 10, color: RED }]);
}
