use dd_merge::diff::header::{parse_diff_header, parse_hunk_header, parse_number, parse_range};
use dd_merge::{parse_unified_diff, FileStatus, LineOrigin};

#[test]
fn test_parse_hunk_header() {
    let (os, oc, ns, nc) = parse_hunk_header("@@ -1,3 +1,4 @@ fn main()");
    assert_eq!((os, oc, ns, nc), (1, 3, 1, 4));
}

#[test]
fn test_parse_hunk_header_single_line() {
    let (os, oc, ns, nc) = parse_hunk_header("@@ -0,0 +1 @@");
    assert_eq!((os, oc, ns, nc), (0, 0, 1, 1));
}

#[test]
fn test_parse_unified_diff() {
    let diff = "diff --git a/file.txt b/file.txt\n\
index abc..def 100644\n\
--- a/file.txt\n\
+++ b/file.txt\n\
@@ -1,3 +1,3 @@\n\
 line1\n\
-old line\n\
+new line\n\
 line3";
    let files = parse_unified_diff(diff);
    assert_eq!(files.len(), 1);
    assert_eq!(files[0].path, "file.txt");
    assert_eq!(files[0].status, FileStatus::Modified);
    assert_eq!(files[0].hunks.len(), 1);

    let hunk = &files[0].hunks[0];
    assert_eq!(hunk.old_start, 1);
    assert_eq!(hunk.old_count, 3);
    assert_eq!(hunk.new_start, 1);
    assert_eq!(hunk.new_count, 3);
    assert_eq!(hunk.lines.len(), 4);
    assert_eq!(hunk.lines[0].origin, LineOrigin::Context);
    assert_eq!(hunk.lines[1].origin, LineOrigin::Deletion);
    assert_eq!(hunk.lines[2].origin, LineOrigin::Addition);
    assert_eq!(hunk.lines[3].origin, LineOrigin::Context);

    // Verify line numbers computed during parsing
    assert_eq!(hunk.lines[0].old_line_no, Some(1));
    assert_eq!(hunk.lines[0].new_line_no, Some(1));
    assert_eq!(hunk.lines[1].old_line_no, Some(2)); // deletion
    assert_eq!(hunk.lines[1].new_line_no, None);
    assert_eq!(hunk.lines[2].old_line_no, None); // addition
    assert_eq!(hunk.lines[2].new_line_no, Some(2));
    assert_eq!(hunk.lines[3].old_line_no, Some(3));
    assert_eq!(hunk.lines[3].new_line_no, Some(3));

    // change_spans should be empty (populated later by inline diff)
    assert!(hunk.lines.iter().all(|l| l.change_spans.is_empty()));
}

#[test]
fn test_parse_new_file_diff() {
    let diff = "\
diff --git a/new.txt b/new.txt
new file mode 100644
index 0000000..abc1234
--- /dev/null
+++ b/new.txt
@@ -0,0 +1,2 @@
+hello
+world
";
    let files = parse_unified_diff(diff);
    assert_eq!(files.len(), 1);
    assert_eq!(files[0].status, FileStatus::Added);
    assert_eq!(files[0].hunks[0].lines.len(), 2);
    assert!(files[0].hunks[0]
        .lines
        .iter()
        .all(|l| l.origin == LineOrigin::Addition));
}

#[test]
fn test_parse_deleted_file_diff() {
    let diff = "\
diff --git a/old.txt b/old.txt
deleted file mode 100644
index abc1234..0000000
--- a/old.txt
+++ /dev/null
@@ -1,2 +0,0 @@
-hello
-world
";
    let files = parse_unified_diff(diff);
    assert_eq!(files.len(), 1);
    assert_eq!(files[0].status, FileStatus::Deleted);
    assert_eq!(files[0].path, "old.txt");
    assert!(files[0].hunks[0]
        .lines
        .iter()
        .all(|l| l.origin == LineOrigin::Deletion));
}

#[test]
fn test_parse_renamed_file_diff() {
    let diff = "\
diff --git a/old_name.txt b/new_name.txt
similarity index 100%
rename from old_name.txt
rename to new_name.txt
";
    let files = parse_unified_diff(diff);
    assert_eq!(files.len(), 1);
    assert_eq!(files[0].status, FileStatus::Renamed);
    assert_eq!(files[0].path, "new_name.txt");
    assert_eq!(files[0].old_path.as_deref(), Some("old_name.txt"));
    assert!(files[0].hunks.is_empty());
}

#[test]
fn test_parse_empty_diff() {
    let files = parse_unified_diff("");
    assert!(files.is_empty());
}

#[test]
fn test_parse_multi_file_diff() {
    let diff = "\
diff --git a/a.txt b/a.txt
index abc..def 100644
--- a/a.txt
+++ b/a.txt
@@ -1 +1 @@
-old a
+new a
diff --git a/b.txt b/b.txt
new file mode 100644
index 0000000..abc1234
--- /dev/null
+++ b/b.txt
@@ -0,0 +1 @@
+new b
";
    let files = parse_unified_diff(diff);
    assert_eq!(files.len(), 2);
    assert_eq!(files[0].path, "a.txt");
    assert_eq!(files[0].status, FileStatus::Modified);
    assert_eq!(files[1].path, "b.txt");
    assert_eq!(files[1].status, FileStatus::Added);
}

#[test]
fn hunk_body_lines_are_numbered_from_the_header() {
    let files = parse_unified_diff("diff --git a/f b/f\n@@ -7,2 +9,2 @@\n ctx\n-old\n+new\n");
    let lines = &files[0].hunks[0].lines;
    assert_eq!(lines.len(), 3);
    assert_eq!(lines[0].origin, LineOrigin::Context);
    assert_eq!(lines[1].origin, LineOrigin::Deletion);
    assert_eq!(lines[2].origin, LineOrigin::Addition);
    assert_eq!((lines[0].old_line_no, lines[0].new_line_no), (Some(7), Some(9)));
    assert_eq!((lines[1].old_line_no, lines[1].new_line_no), (Some(8), None));
    assert_eq!((lines[2].old_line_no, lines[2].new_line_no), (None, Some(10)));
    assert_eq!(lines[0].content, "ctx");
    assert_eq!(lines[1].content, "old");
    assert_eq!(lines[2].content, "new");
}

#[test]
fn new_file_lines_have_no_old_number() {
    let files = parse_unified_diff(
        "diff --git a/n b/n\nnew file mode 100644\n--- /dev/null\n+++ b/n\n@@ -0,0 +1,3 @@\n+a\n+b\n+c\n",
    );
    assert_eq!(files[0].status, FileStatus::Added);
    let lines = &files[0].hunks[0].lines;
    assert_eq!(lines.len(), 3);
    for (k, line) in lines.iter().enumerate() {
        assert_eq!(line.origin, LineOrigin::Addition);
        assert_eq!(line.old_line_no, None);
        assert_eq!(line.new_line_no, Some(k as u32 + 1));
    }
}

#[test]
fn no_newline_marker_makes_no_line() {
    let files = parse_unified_diff(
        "diff --git a/f b/f\n@@ -1 +1 @@\n-old\n\\ No newline at end of file\n+new\n\\ No newline at end of file\n",
    );
    let lines = &files[0].hunks[0].lines;
    assert_eq!(lines.len(), 2);
    assert_eq!(lines[0].origin, LineOrigin::Deletion);
    assert_eq!(lines[0].old_line_no, Some(1));
    assert_eq!(lines[1].origin, LineOrigin::Addition);
    assert_eq!(lines[1].new_line_no, Some(1));
}

#[test]
fn unmarked_body_line_is_context_with_whole_line() {
    let files = parse_unified_diff("diff --git a/f b/f\n@@ -3 +3 @@\nstray\n\n+x\n");
    let lines = &files[0].hunks[0].lines;
    assert_eq!(lines.len(), 3);
    assert_eq!(lines[0].origin, LineOrigin::Context);
    assert_eq!(lines[0].content, "stray");
    assert_eq!((lines[0].old_line_no, lines[0].new_line_no), (Some(3), Some(3)));
    assert_eq!(lines[1].origin, LineOrigin::Context);
    assert_eq!(lines[1].content, "");
    assert_eq!((lines[1].old_line_no, lines[1].new_line_no), (Some(4), Some(4)));
    assert_eq!(lines[2].new_line_no, Some(5));
}

#[test]
fn round_trip_of_a_hunk_body() {
    let body = " ctx\n-old\n+new\n\\ No newline at end of file\n rest\n";
    let text = format!("diff --git a/f b/f\n@@ -1,3 +1,3 @@\n{body}");
    let files = parse_unified_diff(&text);
    let mut rebuilt = String::new();
    for line in &files[0].hunks[0].lines {
        rebuilt.push(match line.origin {
            LineOrigin::Context => ' ',
            LineOrigin::Addition => '+',
            LineOrigin::Deletion => '-',
        });
        rebuilt.push_str(&line.content);
        rebuilt.push('\n');
    }
    assert_eq!(rebuilt, " ctx\n-old\n+new\n rest\n");
}

#[test]
fn carriage_returns_before_line_feeds_are_dropped() {
    let files = parse_unified_diff("diff --git a/f b/f\r\n@@ -1 +1 @@\r\n-a\r\n+b\r");
    assert_eq!(files[0].path, "f");
    let lines = &files[0].hunks[0].lines;
    assert_eq!(lines[0].content, "a");
    assert_eq!(lines[1].content, "b\r");
}

#[test]
fn a_path_may_hold_spaces() {
    let (path, status) = parse_diff_header("diff --git a/my file.txt b/my file.txt");
    assert_eq!(path, "my file.txt");
    assert_eq!(status, FileStatus::Modified);
    assert_eq!(parse_diff_header("diff --git a/a b c/d e b/a b c/d e").0, "a b c/d e");
    assert_eq!(parse_diff_header("diff --git a/x b/y b/x b/y").0, "x b/y");
    assert_eq!(parse_diff_header("diff --git my file my file").0, "my file");
    assert_eq!(parse_diff_header("diff --git a/\u{e9} t\u{e9} b/\u{e9} t\u{e9}").0, "\u{e9} t\u{e9}");
    let files = parse_unified_diff(
        "diff --git a/my file.txt b/my file.txt\n--- a/my file.txt\n+++ b/my file.txt\n@@ -1 +1 @@\n-a\n+b\n",
    );
    assert_eq!(files.len(), 1);
    assert_eq!(files[0].path, "my file.txt");
    assert_eq!(files[0].old_path, None);
}

#[test]
fn the_path_of_a_renamed_file_is_the_new_name() {
    assert_eq!(parse_diff_header("diff --git a/old.txt b/new.txt").0, "new.txt");
    assert_eq!(parse_diff_header("diff --git a/old name.txt b/new name.txt").0, "new name.txt");
    assert_eq!(parse_diff_header("diff --git a/old name b/new").0, "new");
    assert_eq!(parse_diff_header("diff --git a/old b/new name").0, "new name");
    // the second name begins behind the last space that b/ follows
    assert_eq!(parse_diff_header("diff --git a/x b/y b/z").0, "z");
    // without any b/ it begins behind the last space
    assert_eq!(parse_diff_header("diff --git old name new").0, "new");
    let files = parse_unified_diff(
        "diff --git a/old name.txt b/new name.txt\nsimilarity index 100%\nrename from old name.txt\nrename to new name.txt\n",
    );
    assert_eq!(files[0].status, FileStatus::Renamed);
    assert_eq!(files[0].path, "new name.txt");
    assert_eq!(files[0].old_path.as_deref(), Some("old name.txt"));
}

#[test]
fn only_a_renamed_file_has_an_old_path() {
    let texts = [
        "diff --git a/f b/f\nrename from f\nnew file mode 100644\n",
        "diff --git a/f b/g\nrename from f\nrename to g\ndeleted file mode 100644\n",
        "diff --git a/f b/g\nnew file\nrename from f\n",
        "diff --git a/f b/g\nrename to g\n",
        "diff --git a/f b/f\nindex 1..2\n",
    ];
    let expected = [
        (FileStatus::Added, None),
        (FileStatus::Deleted, None),
        (FileStatus::Renamed, Some("f")),
        (FileStatus::Renamed, None),
        (FileStatus::Modified, None),
    ];
    for (text, (status, old_path)) in texts.iter().zip(expected) {
        let files = parse_unified_diff(text);
        assert_eq!(files[0].status, status, "diff {text:?}");
        assert_eq!(files[0].old_path.as_deref(), old_path, "diff {text:?}");
    }
}

#[test]
fn header_without_path_is_unknown() {
    assert_eq!(parse_diff_header("diff --git").0, "unknown");
    assert_eq!(parse_diff_header("diff --git a/x").0, "unknown");
    assert_eq!(parse_diff_header("diff --git a/x b/y z").0, "y z");
    assert_eq!(parse_diff_header("diff --git a/x c/y").0, "c/y");
    assert_eq!(parse_diff_header("diff --git a/x b/y").1, FileStatus::Modified);
}

#[test]
fn numbers_that_cannot_be_read() {
    assert_eq!(parse_number(b"42"), Some(42));
    assert_eq!(parse_number(b"+42"), Some(42));
    assert_eq!(parse_number(b"007"), Some(7));
    assert_eq!(parse_number(b"4294967295"), Some(u32::MAX));
    assert_eq!(parse_number(b"4294967296"), None);
    assert_eq!(parse_number(b""), None);
    assert_eq!(parse_number(b"+"), None);
    assert_eq!(parse_number(b"-1"), None);
    assert_eq!(parse_number(b"1a"), None);
    assert_eq!(parse_number(b"++1"), None);
    for text in ["42", "+42", "007", "4294967295", "4294967296", "", "+", "-1", "1a", " 1"] {
        assert_eq!(parse_number(text.as_bytes()), text.parse::<u32>().ok());
    }
}

#[test]
fn ranges_and_their_defaults() {
    assert_eq!(parse_range("5"), (5, 1));
    assert_eq!(parse_range("5,7"), (5, 7));
    assert_eq!(parse_range("5,"), (5, 0));
    assert_eq!(parse_range(",7"), (0, 7));
    assert_eq!(parse_range("x,y"), (0, 0));
    assert_eq!(parse_range("1,2,3"), (1, 0));
    assert_eq!(parse_range("1,,"), (1, 0));
    assert_eq!(parse_range("1,+2"), (1, 2));
    assert_eq!(parse_range(""), (0, 1));
}

#[test]
fn hunk_headers_that_are_short_or_odd() {
    assert_eq!(parse_hunk_header("@@"), (0, 0, 0, 0));
    assert_eq!(parse_hunk_header("@@ -1,2"), (0, 0, 0, 0));
    assert_eq!(parse_hunk_header("  @@\t-1,2\u{a0}+3,4\u{2003}@@  "), (1, 2, 3, 4));
    assert_eq!(parse_hunk_header("@@ 1,2 3,4 @@"), (1, 2, 3, 4));
    assert_eq!(parse_hunk_header("@@ -x +y @@"), (0, 1, 0, 1));
    assert_eq!(parse_hunk_header("@@ -99999999999,1 +1,99999999999 @@"), (0, 1, 1, 0));
}

#[test]
fn line_numbers_wrap_around() {
    let files = parse_unified_diff("diff --git a/f b/f\n@@ -4294967295 +4294967295 @@\n a\n b\n");
    let lines = &files[0].hunks[0].lines;
    assert_eq!(lines[0].old_line_no, Some(u32::MAX));
    assert_eq!(lines[1].old_line_no, Some(0));
    assert_eq!(lines[1].new_line_no, Some(0));
}

#[test]
fn text_before_the_first_file_is_passed_over() {
    let files = parse_unified_diff("commit abc\n@@ -1 +1 @@\n+x\nBinary\ndiff --git a/f b/f\nBinary files differ\n");
    assert_eq!(files.len(), 1);
    assert_eq!(files[0].path, "f");
    assert!(files[0].hunks.is_empty());
    assert_eq!(files[0].old_path, None);
}

#[test]
fn equal_starts_number_both_sides_alike() {
    let files = parse_unified_diff("diff --git a/f b/f\n@@ -5,2 +5,2 @@\n ctx\n-old\n+new\n");
    let hunk = &files[0].hunks[0];
    assert_eq!((hunk.old_start, hunk.new_start), (5, 5));
    let lines = &hunk.lines;
    assert_eq!((lines[0].old_line_no, lines[0].new_line_no), (Some(5), Some(5)));
    assert_eq!((lines[1].old_line_no, lines[1].new_line_no), (Some(6), None));
    assert_eq!((lines[2].old_line_no, lines[2].new_line_no), (None, Some(6)));
}

#[test]
fn any_text_is_read() {
    let texts = [
        "\n\n\n",
        "@@",
        "@@ -1 +1 @@\n+x",
        "diff --git",
        "diff --git \n@@\n\\",
        "diff --git a b\nrename from \nrename to\n--- \n--- \n+++ \n@@ -,, +,, @@\n\r\n",
        "diff --git a/\u{e9} b/\u{e9}\n@@ -1 +1 @@\n-\u{1f600}\n+\u{2028}\n",
        "diff --git a/f b/f\nnew file\ndeleted file\nrename from x\n@@ -1 +1 @@\n",
        "\u{feff}diff --git a/f b/f\n",
    ];
    for text in texts {
        let files = parse_unified_diff(text);
        for file in &files {
            for hunk in &file.hunks {
                assert!(hunk.header.starts_with("@@"));
                for line in &hunk.lines {
                    assert!(line.change_spans.is_empty());
                    match line.origin {
                        LineOrigin::Context => {
                            assert!(line.old_line_no.is_some() && line.new_line_no.is_some())
                        }
                        LineOrigin::Deletion => {
                            assert!(line.old_line_no.is_some() && line.new_line_no.is_none())
                        }
                        LineOrigin::Addition => {
                            assert!(line.old_line_no.is_none() && line.new_line_no.is_some())
                        }
                    }
                }
            }
        }
    }
    assert!(parse_unified_diff("\u{feff}diff --git a/f b/f\n").is_empty());
}

#[test]
fn the_last_header_line_with_a_say_gives_the_status() {
    let files = parse_unified_diff(
        "diff --git a/f b/g\nrename from f\nrename to g\ndeleted file mode 100644\nindex 1..2\n",
    );
    assert_eq!(files[0].status, FileStatus::Deleted);
    assert_eq!(files[0].old_path, None);
    let files = parse_unified_diff("diff --git a/f b/g\nrename from f\nrename from h\nrename to g\n");
    assert_eq!(files[0].status, FileStatus::Renamed);
    assert_eq!(files[0].old_path.as_deref(), Some("h"));
    assert_eq!(files[0].path, "g");
}

#[test]
fn a_hunk_is_read_from_its_header_line() {
    let lines = vec!["junk", "@@ -3,1 +4,2 @@ fn f()", " a", "+b", "@@ -9 +9 @@", "-c"];
    let (hunk, next) = dd_merge::parse_hunk(&lines, 1);
    assert_eq!(next, 4);
    assert_eq!(hunk.header, "@@ -3,1 +4,2 @@ fn f()");
    assert_eq!((hunk.old_start, hunk.old_count, hunk.new_start, hunk.new_count), (3, 1, 4, 2));
    assert_eq!(hunk.lines.len(), 2);
    assert_eq!(hunk.lines[1].new_line_no, Some(5));
    let (last, end) = dd_merge::parse_hunk(&lines, 4);
    assert_eq!(end, 6);
    assert_eq!(last.lines[0].old_line_no, Some(9));
    // a line that is no header is taken for one all the same
    let (odd, end) = dd_merge::parse_hunk(&lines, 0);
    assert_eq!(end, 1);
    assert_eq!(odd.header, "junk");
    assert_eq!((odd.old_start, odd.old_count, odd.new_start, odd.new_count), (0, 0, 0, 0));
    assert!(odd.lines.is_empty());
}

#[test]
fn behind_the_last_line_a_hunk_is_empty() {
    let lines = vec!["@@ -1 +1 @@", "+x"];
    for at in [2, 3, usize::MAX] {
        let (hunk, end) = dd_merge::parse_hunk(&lines, at);
        assert_eq!(end, at);
        assert_eq!(hunk.header, "");
        assert_eq!((hunk.old_start, hunk.old_count, hunk.new_start, hunk.new_count), (0, 0, 0, 0));
        assert!(hunk.lines.is_empty());
    }
    let (hunk, end) = dd_merge::parse_hunk(&Vec::new(), 0);
    assert_eq!(end, 0);
    assert!(hunk.header.is_empty() && hunk.lines.is_empty());
}
