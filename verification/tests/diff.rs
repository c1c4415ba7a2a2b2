use commit_review::diff::{parse, FileDiff, Kind, Line, Status};

fn line(kind: Kind, old: Option<u32>, new: Option<u32>, text: &str) -> Line {
    Line {
        kind,
        old,
        new,
        text: text.to_string(),
    }
}

fn first(diff: &str) -> FileDiff {
    parse(diff).remove(0)
}

#[test]
fn source_context_preserves_gaps_and_line_numbers() {
    let file = first("diff --git a/f b/f\n--- a/f\n+++ b/f\n@@ -3 +3,2 @@\n-3\n+three\n+extra\n@@ -7 +7,0 @@\n-7\n");
    let gaps = file.context("1\n2\n3\n4\n5\n6\n7\n8\n9\n10\n\n").unwrap();
    assert_eq!(
        gaps[0],
        vec![
            line(Kind::Context, Some(1), Some(1), "1"),
            line(Kind::Context, Some(2), Some(2), "2")
        ]
    );
    assert_eq!(
        gaps[1],
        vec![
            line(Kind::Context, Some(4), Some(5), "4"),
            line(Kind::Context, Some(5), Some(6), "5"),
            line(Kind::Context, Some(6), Some(7), "6"),
        ]
    );
    assert_eq!(gaps[2][0], line(Kind::Context, Some(8), Some(8), "8"));
    assert_eq!(
        gaps[2].last().unwrap(),
        &line(Kind::Context, Some(11), Some(11), "")
    );
    assert!(file.context("1\n2\nwrong\n").is_err());
}

#[test]
fn source_context_handles_empty_ranges_and_unchanged_renames() {
    let file = first("diff --git a/f b/f\n--- a/f\n+++ b/f\n@@ -0,0 +1 @@\n+prefix\n@@ -2,0 +4 @@\n+suffix\n");
    let gaps = file.context("one\ntwo\n").unwrap();
    assert!(gaps[0].is_empty() && gaps[2].is_empty());
    assert_eq!(
        gaps[1],
        vec![
            line(Kind::Context, Some(1), Some(2), "one"),
            line(Kind::Context, Some(2), Some(3), "two"),
        ]
    );
    let file = first("diff --git a/f b/g\nrename from f\nrename to g\n");
    assert!(file.source.is_none());
    assert_eq!(
        file.context("one\n").unwrap(),
        vec![vec![line(Kind::Context, Some(1), Some(1), "one")]]
    );
}

#[test]
fn numbers_lines_of_a_modified_file() {
    let diff = "diff --git a/src/a.rs b/src/a.rs\nindex 1..2 100644\n--- a/src/a.rs\n+++ b/src/a.rs\n@@ -3,4 +3,5 @@ fn main() {\n ctx\n-old\n+new\n+more\n ctx2\n\\ No newline at end of file\n";
    let files = parse(diff);
    assert_eq!(files.len(), 1);
    let file = &files[0];
    assert_eq!(file.path, "src/a.rs");
    assert_eq!(file.status, Status::Modified);
    assert_eq!(file.hunks[0].header, "@@ -3,4 +3,5 @@ fn main() {");
    assert_eq!(
        file.hunks[0].lines,
        vec![
            line(Kind::Context, Some(3), Some(3), "ctx"),
            line(Kind::Del, Some(4), None, "old"),
            line(Kind::Add, None, Some(4), "new"),
            line(Kind::Add, None, Some(5), "more"),
            line(Kind::Context, Some(5), Some(6), "ctx2"),
        ]
    );
}

#[test]
fn added_renamed_and_binary_files() {
    let diff = "diff --git a/new.txt b/new.txt\nnew file mode 100644\n--- /dev/null\n+++ b/new.txt\n@@ -0,0 +1,2 @@\n+one\n+two\ndiff --git a/old.rs b/moved.rs\nsimilarity index 90%\nrename from old.rs\nrename to moved.rs\n--- a/old.rs\n+++ b/moved.rs\n@@ -1 +1 @@\n-a\n+b\ndiff --git a/img.png b/img.png\nBinary files a/img.png and b/img.png differ\n";
    let files = parse(diff);
    assert_eq!(files.len(), 3);
    assert_eq!(
        (files[0].status, files[0].path.as_str()),
        (Status::Added, "new.txt")
    );
    assert_eq!(
        files[0].hunks[0].lines[1],
        line(Kind::Add, None, Some(2), "two")
    );
    assert_eq!(files[1].status, Status::Renamed);
    assert_eq!(files[1].old_path.as_deref(), Some("old.rs"));
    assert_eq!(files[1].path, "moved.rs");
    assert!(files[2].binary);
    assert_eq!(files[2].path, "img.png");
    assert!(files[2].hunks.is_empty());
}

#[test]
fn hunk_lines_that_look_like_headers_stay_lines() {
    let diff = "diff --git a/f b/f\n--- a/f\n+++ b/f\n@@ -1,2 +1,2 @@\n--- not a header\n+++ not one either\n";
    let lines = &parse(diff)[0].hunks[0].lines;
    assert_eq!(lines[0], line(Kind::Del, Some(1), None, "-- not a header"));
    assert_eq!(
        lines[1],
        line(Kind::Add, None, Some(1), "++ not one either")
    );
}

#[test]
fn quoting_a_line_gives_back_the_line_of_the_diff() {
    let diff = "diff --git a/src/a.rs b/src/a.rs\n--- a/src/a.rs\n+++ b/src/a.rs\n@@ -3,4 +3,5 @@ fn main() {\n ctx\n-old\n+new\n+more\n ctx2\n\\ No newline at end of file\n";
    let files = parse(diff);
    let quoted: Vec<String> = files[0].lines().into_iter().map(|line| line.quoted()).collect();
    assert_eq!(quoted, vec![" ctx", "-old", "+new", "+more", " ctx2"]);
    assert!(quoted.iter().all(|q| diff.lines().any(|l| l == q)));
}

#[test]
fn gaps_and_old_sides_give_back_the_source() {
    let file = first("diff --git a/f b/f\n--- a/f\n+++ b/f\n@@ -2,2 +2,1 @@\n-b\n c\n");
    let source = "a\nb\nc\nd\n";
    let gaps = file.context(source).unwrap();
    assert_eq!(gaps.len(), file.hunks.len() + 1);
    let mut rebuilt: Vec<String> = Vec::new();
    for (index, gap) in gaps.iter().enumerate() {
        rebuilt.extend(gap.iter().map(|l| l.text.clone()));
        if let Some(hunk) = file.hunks.get(index) {
            rebuilt.extend(hunk.lines.iter().filter(|l| l.old.is_some()).map(|l| l.text.clone()));
        }
    }
    assert_eq!(rebuilt, vec!["a", "b", "c", "d"]);
    assert!(gaps.iter().flatten().all(|l| l.kind == Kind::Context));
    assert_eq!(gaps[1][0], line(Kind::Context, Some(4), Some(3), "d"));
}

#[test]
fn each_hunk_quotes_the_body_lines_after_its_own_header() {
    let diff = "diff --git a/f b/f\n--- a/f\n+++ b/f\n@@ -1,2 +1,2 @@\n-a\n+b\n c\n@@ -9 +9 @@\n x\n\\ No newline at end of file\ndiff --git a/g b/g\n--- a/g\n+++ b/g\n@@ -1 +1 @@\n-y\n+z\n";
    let files = parse(diff);
    let quoted = |f: usize, h: usize| -> Vec<String> {
        files[f].hunks[h].lines.iter().map(|line| line.quoted()).collect()
    };
    assert_eq!(files[0].hunks[0].header, "@@ -1,2 +1,2 @@");
    assert_eq!(quoted(0, 0), vec!["-a", "+b", " c"]);
    assert_eq!(files[0].hunks[1].header, "@@ -9 +9 @@");
    assert_eq!(quoted(0, 1), vec![" x"]);
    assert_eq!(quoted(1, 0), vec!["-y", "+z"]);
}
