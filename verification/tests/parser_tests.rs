use diff2html::parser::{DiffParser, LineType};

#[test]
fn minimal_unified_diff_one_hunk() {
    let input = "--- a/file.txt\n+++ b/file.txt\n@@ -1,3 +1,4 @@\n ctx\n-del\n+add1\n+add2\n ctx2\n";
    let mut p = DiffParser::new();
    let files = p.parse_diff(input);
    assert_eq!(files.len(), 1);
    let f = &files[0];
    assert_eq!(f.old_name.as_deref(), Some("file.txt"));
    assert_eq!(f.new_name.as_deref(), Some("file.txt"));
    assert_eq!(f.blocks.len(), 1);
    let b = &f.blocks[0];
    assert_eq!(b.header.as_deref(), Some("@@ -1,3 +1,4 @@"));
    assert_eq!(b.lines[0].old_number, Some(1));
    assert_eq!(b.lines[0].new_number, Some(1));
    assert_eq!(b.lines[0].line_type, Some(LineType::Context));
    assert_eq!(f.added_lines, 2);
    assert_eq!(f.deleted_lines, 1);
    // Running counters advance by sign.
    assert_eq!(b.lines[1].old_number, Some(2));
    assert_eq!(b.lines[1].new_number, None);
    assert_eq!(b.lines[2].old_number, None);
    assert_eq!(b.lines[2].new_number, Some(2));
    assert_eq!(b.lines[4].old_number, Some(3));
    assert_eq!(b.lines[4].new_number, Some(4));
}

#[test]
fn rename_header_without_hunk() {
    let input = "diff --git a/x.rs b/y.rs\nsimilarity index 97%\nrename from x.rs\nrename to y.rs\n";
    let mut p = DiffParser::new();
    let files = p.parse_diff(input);
    assert_eq!(files.len(), 1);
    let f = &files[0];
    assert!(f.is_rename);
    assert_eq!(f.old_name.as_deref(), Some("x.rs"));
    assert_eq!(f.new_name.as_deref(), Some("y.rs"));
    assert_eq!(f.unchanged_percentage, Some(97));
    assert_eq!(f.blocks.len(), 0);
}

#[test]
fn binary_files_marker() {
    let input = "diff --git a/img.png b/img.png\nBinary files a/img.png and b/img.png differ\n";
    let mut p = DiffParser::new();
    let files = p.parse_diff(input);
    assert_eq!(files.len(), 1);
    let f = &files[0];
    assert!(f.is_binary);
    assert_eq!(f.new_name.as_deref(), Some("img.png"));
    assert_eq!(f.blocks.len(), 1);
    assert_eq!(f.blocks[0].header.as_deref(), Some("Binary file"));
    assert_eq!(f.blocks[0].lines.len(), 0);
}

#[test]
fn git_metadata_lines() {
    let input = "diff --git a/m.c b/m.c\nold mode 100644\nnew mode 100755\nindex abc1234..def5678 100755\n--- a/m.c\n+++ b/m.c\n@@ -1 +1 @@\n-x\n+y\n";
    let mut p = DiffParser::new();
    let files = p.parse_diff(input);
    assert_eq!(files.len(), 1);
    let f = &files[0];
    assert_eq!(f.old_mode, Some(vec!["100644".to_owned()]));
    assert_eq!(f.new_mode.as_deref(), Some("100755"));
    assert_eq!(f.checksum_before, Some(vec!["abc1234".to_owned()]));
    assert_eq!(f.checksum_after.as_deref(), Some("def5678"));
    assert_eq!(f.mode.as_deref(), Some("100755"));
    assert_eq!(f.added_lines, 1);
    assert_eq!(f.deleted_lines, 1);
}

#[test]
fn new_and_deleted_file_modes() {
    let input = "diff --git a/n.txt b/n.txt\nnew file mode 100644\n--- /dev/null\n+++ b/n.txt\n@@ -0,0 +1 @@\n+hello\ndiff --git a/d.txt b/d.txt\ndeleted file mode 100644\n--- a/d.txt\n+++ /dev/null\n@@ -1 +0,0 @@\n-bye\n";
    let mut p = DiffParser::new();
    let files = p.parse_diff(input);
    assert_eq!(files.len(), 2);
    assert!(files[0].is_new);
    assert_eq!(files[0].new_file_mode.as_deref(), Some("100644"));
    assert!(files[1].is_deleted);
    assert_eq!(files[1].deleted_file_mode.as_deref(), Some("100644"));
}

#[test]
fn combined_diff_hunk() {
    let input = "diff --combined desc.c\nindex fabadb8,cc95eb0..4866510\nmode 100644,100644..100644\n--- a/desc.c\n+++ b/desc.c\n@@@ -98,20 -98,12 +98,20 @@@\n++new line\n  ctx\n";
    let mut p = DiffParser::new();
    let files = p.parse_diff(input);
    assert_eq!(files.len(), 1);
    let f = &files[0];
    assert!(f.is_combined);
    assert_eq!(
        f.checksum_before,
        Some(vec!["fabadb8".to_owned(), "cc95eb0".to_owned()])
    );
    assert_eq!(f.checksum_after.as_deref(), Some("4866510"));
    assert_eq!(
        f.old_mode,
        Some(vec!["100644".to_owned(), "100644".to_owned()])
    );
    assert_eq!(f.new_mode.as_deref(), Some("100644"));
    let b = &f.blocks[0];
    assert_eq!(b.lines[0].line_type, Some(LineType::Inserts));
    assert_eq!(b.lines[0].new_number, Some(98));
    assert_eq!(b.lines[1].old_number, Some(98));
}

#[test]
fn unparseable_hunk_header_defaults_to_zero() {
    let input = "--- a/f\n+++ b/f\n@@ broken @@\n+x\n";
    let mut p = DiffParser::new();
    let files = p.parse_diff(input);
    assert_eq!(files.len(), 1);
    let b = &files[0].blocks[0];
    assert_eq!(b.lines[0].new_number, Some(0));
    assert_eq!(b.lines[0].old_number, None);
}

#[test]
fn crlf_and_no_newline_marker_normalized() {
    let input = "--- a/f\r\n+++ b/f\r\n@@ -1 +1 @@\r\n-x\r\n+y\\ No newline at end of file\r\n";
    let mut p = DiffParser::new();
    let files = p.parse_diff(input);
    assert_eq!(files.len(), 1);
    let b = &files[0].blocks[0];
    assert_eq!(b.lines.len(), 2);
    assert_eq!(b.lines[1].content, "+y");
}

#[test]
fn empty_input_no_files() {
    let mut p = DiffParser::new();
    assert_eq!(p.parse_diff("").len(), 0);
}

#[test]
fn quoted_and_timestamped_names() {
    // A quote closed before a timestamp stays in the captured name (the
    // optional closing quote only matches at the end of the line); the
    // repository prefix and the tab-separated timestamp are stripped.
    let input = "--- \"a/sp file.txt\"\t2002-02-21 23:30:39.942229878 -0800\n+++ \"b/sp file.txt\"\n@@ -1 +1 @@\n-x\n+y\n";
    let mut p = DiffParser::new();
    let files = p.parse_diff(input);
    assert_eq!(files.len(), 1);
    assert_eq!(files[0].old_name.as_deref(), Some("sp file.txt\""));
    assert_eq!(files[0].new_name.as_deref(), Some("sp file.txt"));
}
