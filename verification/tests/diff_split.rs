use dd_merge::{split_hunk_lines, DiffLine, LineOrigin};
use std::sync::Arc;

fn ctx(content: &str, old: u32, new: u32) -> DiffLine {
    DiffLine {
        origin: LineOrigin::Context,
        content: content.to_string(),
        old_line_no: Some(old),
        new_line_no: Some(new),
        change_spans: Vec::new(),
    }
}

fn del(content: &str, old: u32) -> DiffLine {
    DiffLine {
        origin: LineOrigin::Deletion,
        content: content.to_string(),
        old_line_no: Some(old),
        new_line_no: None,
        change_spans: Vec::new(),
    }
}

fn add(content: &str, new: u32) -> DiffLine {
    DiffLine {
        origin: LineOrigin::Addition,
        content: content.to_string(),
        old_line_no: None,
        new_line_no: Some(new),
        change_spans: Vec::new(),
    }
}

#[test]
fn test_empty_input() {
    let rows = split_hunk_lines(&[]);
    assert!(rows.is_empty());
}

#[test]
fn test_all_context() {
    let lines = vec![ctx("a", 1, 1), ctx("b", 2, 2), ctx("c", 3, 3)];
    let rows = split_hunk_lines(&lines);

    assert_eq!(rows.len(), 3);
    for row in &rows {
        assert!(row.left.is_some());
        assert!(row.right.is_some());
    }
    assert_eq!(rows[0].left.as_ref().unwrap().content, "a");
    assert_eq!(rows[0].right.as_ref().unwrap().content, "a");
}

#[test]
fn test_equal_del_add() {
    let lines = vec![
        del("old1", 1),
        del("old2", 2),
        add("new1", 1),
        add("new2", 2),
    ];
    let rows = split_hunk_lines(&lines);

    assert_eq!(rows.len(), 2);
    assert_eq!(rows[0].left.as_ref().unwrap().content, "old1");
    assert_eq!(rows[0].right.as_ref().unwrap().content, "new1");
    assert_eq!(rows[1].left.as_ref().unwrap().content, "old2");
    assert_eq!(rows[1].right.as_ref().unwrap().content, "new2");
}

#[test]
fn test_more_del_than_add() {
    let lines = vec![
        del("old1", 1),
        del("old2", 2),
        del("old3", 3),
        add("new1", 1),
    ];
    let rows = split_hunk_lines(&lines);

    assert_eq!(rows.len(), 3);
    // First row: paired
    assert_eq!(rows[0].left.as_ref().unwrap().content, "old1");
    assert_eq!(rows[0].right.as_ref().unwrap().content, "new1");
    // Remaining: excess deletions
    assert_eq!(rows[1].left.as_ref().unwrap().content, "old2");
    assert!(rows[1].right.is_none());
    assert_eq!(rows[2].left.as_ref().unwrap().content, "old3");
    assert!(rows[2].right.is_none());
}

#[test]
fn test_more_add_than_del() {
    let lines = vec![
        del("old1", 1),
        add("new1", 1),
        add("new2", 2),
        add("new3", 3),
    ];
    let rows = split_hunk_lines(&lines);

    assert_eq!(rows.len(), 3);
    // First row: paired
    assert_eq!(rows[0].left.as_ref().unwrap().content, "old1");
    assert_eq!(rows[0].right.as_ref().unwrap().content, "new1");
    // Remaining: excess additions
    assert!(rows[1].left.is_none());
    assert_eq!(rows[1].right.as_ref().unwrap().content, "new2");
    assert!(rows[2].left.is_none());
    assert_eq!(rows[2].right.as_ref().unwrap().content, "new3");
}

#[test]
fn test_standalone_addition() {
    let lines = vec![ctx("a", 1, 1), add("inserted", 2), ctx("b", 2, 3)];
    let rows = split_hunk_lines(&lines);

    assert_eq!(rows.len(), 3);
    // Context
    assert!(rows[0].left.is_some());
    assert!(rows[0].right.is_some());
    // Standalone addition
    assert!(rows[1].left.is_none());
    assert_eq!(rows[1].right.as_ref().unwrap().content, "inserted");
    // Context
    assert!(rows[2].left.is_some());
    assert!(rows[2].right.is_some());
}

#[test]
fn test_standalone_deletion() {
    let lines = vec![ctx("a", 1, 1), del("removed", 2), ctx("b", 3, 2)];
    let rows = split_hunk_lines(&lines);

    assert_eq!(rows.len(), 3);
    // Context
    assert!(rows[0].left.is_some());
    assert!(rows[0].right.is_some());
    // Standalone deletion (no following addition)
    assert_eq!(rows[1].left.as_ref().unwrap().content, "removed");
    assert!(rows[1].right.is_none());
    // Context
    assert!(rows[2].left.is_some());
    assert!(rows[2].right.is_some());
}

#[test]
fn test_mixed_sequence() {
    // context, del+add pair, standalone add, context, standalone del
    let lines = vec![
        ctx("line1", 1, 1),
        del("old2", 2),
        add("new2", 2),
        add("extra", 3),
        ctx("line3", 3, 4),
        del("gone", 4),
    ];
    let rows = split_hunk_lines(&lines);

    assert_eq!(rows.len(), 5);

    // Row 0: context
    assert_eq!(rows[0].left.as_ref().unwrap().content, "line1");
    assert_eq!(rows[0].right.as_ref().unwrap().content, "line1");

    // Row 1: paired del+add
    assert_eq!(rows[1].left.as_ref().unwrap().content, "old2");
    assert_eq!(rows[1].right.as_ref().unwrap().content, "new2");

    // Row 2: excess addition
    assert!(rows[2].left.is_none());
    assert_eq!(rows[2].right.as_ref().unwrap().content, "extra");

    // Row 3: context
    assert_eq!(rows[3].left.as_ref().unwrap().content, "line3");
    assert_eq!(rows[3].right.as_ref().unwrap().content, "line3");

    // Row 4: standalone deletion
    assert_eq!(rows[4].left.as_ref().unwrap().content, "gone");
    assert!(rows[4].right.is_none());
}

#[test]
fn context_row_shares_one_line() {
    let rows = split_hunk_lines(&[ctx("a", 4, 5)]);
    let left = rows[0].left.as_ref().unwrap();
    let right = rows[0].right.as_ref().unwrap();
    assert!(Arc::ptr_eq(left, right));
    assert_eq!((left.old_line_no, left.new_line_no), (Some(4), Some(5)));
}

#[test]
fn additions_after_an_addition_run_pair_with_nothing() {
    // the additions follow a context line, so the deletions behind them
    // start a block of their own
    let lines = vec![ctx("a", 1, 1), add("x", 2), add("y", 3), del("p", 2), del("q", 3), add("z", 4)];
    let rows = split_hunk_lines(&lines);
    assert_eq!(rows.len(), 5);
    assert!(rows[1].left.is_none());
    assert_eq!(rows[1].right.as_ref().unwrap().content, "x");
    assert!(rows[2].left.is_none());
    assert_eq!(rows[3].left.as_ref().unwrap().content, "p");
    assert_eq!(rows[3].right.as_ref().unwrap().content, "z");
    assert_eq!(rows[4].left.as_ref().unwrap().content, "q");
    assert!(rows[4].right.is_none());
}

#[test]
fn rows_keep_the_lines_whole() {
    let mut line = del("old text", 9);
    line.change_spans.push(dd_merge::InlineSpan { start: 0, end: 3 });
    let rows = split_hunk_lines(&[line]);
    let left = rows[0].left.as_ref().unwrap();
    assert_eq!(left.origin, LineOrigin::Deletion);
    assert_eq!(left.old_line_no, Some(9));
    assert_eq!(left.new_line_no, None);
    assert_eq!(left.change_spans.len(), 1);
    assert_eq!(left.change_spans[0].end, 3);
}

#[test]
fn every_line_stands_once_on_its_side() {
    let lines = vec![
        ctx("a", 1, 1),
        del("b", 2),
        del("c", 3),
        add("d", 2),
        add("e", 3),
        add("f", 4),
        del("g", 4),
        ctx("h", 5, 5),
        add("i", 6),
    ];
    let rows = split_hunk_lines(&lines);
    let left: Vec<&str> =
        rows.iter().filter_map(|r| r.left.as_ref()).map(|l| l.content.as_str()).collect();
    let right: Vec<&str> =
        rows.iter().filter_map(|r| r.right.as_ref()).map(|l| l.content.as_str()).collect();
    assert_eq!(left, ["a", "b", "c", "g", "h"]);
    assert_eq!(right, ["a", "d", "e", "f", "h", "i"]);
    assert_eq!(rows.len(), 1 + 3 + 1 + 1 + 1);
    assert!(rows.iter().all(|r| r.left.is_some() || r.right.is_some()));
    let copy = rows[1].clone();
    assert!(Arc::ptr_eq(copy.left.as_ref().unwrap(), rows[1].left.as_ref().unwrap()));
}

/// The rows of the lines, as indices on the left and on the right, by a
/// scan of the runs.
fn rows_by_scan(origins: &[LineOrigin]) -> Vec<(Option<usize>, Option<usize>)> {
    let mut rows = Vec::new();
    let mut i = 0;
    while i < origins.len() {
        match origins[i] {
            LineOrigin::Context => {
                rows.push((Some(i), Some(i)));
                i += 1;
            }
            LineOrigin::Addition => {
                rows.push((None, Some(i)));
                i += 1;
            }
            LineOrigin::Deletion => {
                let del_start = i;
                while i < origins.len() && origins[i] == LineOrigin::Deletion {
                    i += 1;
                }
                let add_start = i;
                while i < origins.len() && origins[i] == LineOrigin::Addition {
                    i += 1;
                }
                let (del_count, add_count) = (add_start - del_start, i - add_start);
                let pairs = del_count.min(add_count);
                for p in 0..pairs {
                    rows.push((Some(del_start + p), Some(add_start + p)));
                }
                for p in pairs..del_count {
                    rows.push((Some(del_start + p), None));
                }
                for p in pairs..add_count {
                    rows.push((None, Some(add_start + p)));
                }
            }
        }
    }
    rows
}

#[test]
fn rows_are_those_of_a_scan_of_the_runs() {
    let origins = [LineOrigin::Context, LineOrigin::Deletion, LineOrigin::Addition];
    // every sequence of up to six origins
    for len in 0..=6u32 {
        for code in 0..3usize.pow(len) {
            let kinds: Vec<LineOrigin> =
                (0..len).map(|place| origins[code / 3usize.pow(place) % 3]).collect();
            let lines: Vec<DiffLine> = kinds
                .iter()
                .enumerate()
                .map(|(k, origin)| DiffLine {
                    origin: *origin,
                    content: format!("line {k}"),
                    old_line_no: Some(k as u32),
                    new_line_no: None,
                    change_spans: Vec::new(),
                })
                .collect();
            let rows: Vec<(Option<usize>, Option<usize>)> = split_hunk_lines(&lines)
                .iter()
                .map(|row| {
                    let index = |side: &Option<Arc<DiffLine>>| {
                        side.as_ref().map(|line| line.old_line_no.unwrap() as usize)
                    };
                    (index(&row.left), index(&row.right))
                })
                .collect();
            assert_eq!(rows, rows_by_scan(&kinds), "origins {kinds:?}");
        }
    }
}
