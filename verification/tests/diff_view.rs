use commit_review::diff::parse;
use commit_review::diff_view::{rows, Context, ContextAction, LineRef, Row, RowKind};
use commit_review::review::{Change, File};

fn context(total: Option<usize>, before: usize, after: usize) -> Context {
    Context { total, before, after }
}

#[test]
fn expanding_grows_by_twenty_within_the_gap() {
    let mut c = context(Some(50), 0, 0);
    c.expand(50, ContextAction::Above);
    assert_eq!((c.before, c.after), (0, 20));
    c.expand(50, ContextAction::Below);
    assert_eq!((c.before, c.after), (20, 20));
    c.expand(50, ContextAction::Both);
    assert_eq!((c.before, c.after), (30, 20));
    c.expand(50, ContextAction::Collapse);
    assert_eq!((c.before, c.after), (0, 0));
    c.expand(50, ContextAction::All);
    assert_eq!((c.before, c.after), (50, 0));
    let mut near = context(Some(50), 40, 0);
    near.expand(50, ContextAction::Below);
    assert_eq!((near.before, near.after), (50, 0));
    let mut both = context(Some(50), 0, 0);
    both.expand(50, ContextAction::Both);
    assert_eq!((both.before, both.after), (20, 20));
    assert_eq!(both.total, Some(50));
}

#[test]
fn the_expand_control_depends_on_the_gap_and_what_remains() {
    assert_eq!(context(Some(50), 0, 0).expand_action(0, 2), Some(ContextAction::Above));
    assert_eq!(context(Some(50), 0, 0).expand_action(2, 2), Some(ContextAction::Below));
    assert_eq!(context(Some(50), 0, 0).expand_action(1, 2), Some(ContextAction::Both));
    assert_eq!(context(Some(50), 20, 20).expand_action(1, 2), Some(ContextAction::All));
    assert_eq!(context(Some(50), 30, 20).expand_action(1, 2), None);
    assert_eq!(context(None, 0, 0).expand_action(1, 2), Some(ContextAction::Both));
    assert!(context(Some(5), 1, 0).collapsible());
    assert!(!context(Some(5), 0, 0).collapsible());
    let mut loaded = Context::default();
    loaded.loaded(7);
    assert_eq!((loaded.total, loaded.before, loaded.after), (Some(7), 0, 0));
}

fn review_file(diff: &str, collapsed: bool) -> File {
    File::from_change(Change { diff: parse(diff).remove(0), viewed: collapsed, restored: Vec::new() })
}

fn contexts(file: &File) -> Vec<Context> {
    (0..=file.diff.hunks.len()).map(|_| Context::default()).collect()
}

const ONE_HUNK: &str = "diff --git a/f b/f\n--- a/f\n+++ b/f\n@@ -3 +3,2 @@\n-3\n+three\n+extra\n";

fn code(left: Option<LineRef>, right: Option<LineRef>) -> Row {
    Row { file: 0, kind: RowKind::Code { left, right } }
}

fn at(line: usize) -> Option<LineRef> {
    Some(LineRef::Diff { hunk: 0, line, flat: line })
}

#[test]
fn one_column_shows_each_line_on_a_row() {
    let file = review_file(ONE_HUNK, false);
    let list = rows(&[file], &[contexts(&review_file(ONE_HUNK, false))], &[true], false);
    assert_eq!(
        list,
        vec![
            Row { file: 0, kind: RowKind::Header },
            Row { file: 0, kind: RowKind::Separator { heading: Some(0), context: None } },
            code(at(0), None),
            code(at(1), None),
            code(at(2), None),
        ]
    );
}

#[test]
fn side_by_side_pairs_deleted_and_added_lines() {
    let file = review_file(ONE_HUNK, false);
    let c = contexts(&file);
    let list = rows(&[file], &[c], &[true], true);
    assert_eq!(
        list,
        vec![
            Row { file: 0, kind: RowKind::Header },
            Row { file: 0, kind: RowKind::Separator { heading: Some(0), context: None } },
            code(at(0), at(1)),
            code(None, at(2)),
        ]
    );
}

#[test]
fn filtered_or_collapsed_files_show_little_or_nothing() {
    let file = review_file(ONE_HUNK, false);
    let c = contexts(&file);
    assert_eq!(rows(&[file], &[c], &[false], false), vec![Row { file: 0, kind: RowKind::Empty }]);
    let none: Vec<File> = Vec::new();
    assert_eq!(rows(&none, &[], &[], false), vec![Row { file: 0, kind: RowKind::Empty }]);
    let first = review_file(ONE_HUNK, true);
    let second = review_file(ONE_HUNK, true);
    let cs = vec![contexts(&first), contexts(&second)];
    assert_eq!(
        rows(&[first, second], &cs, &[true, true], false),
        vec![
            Row { file: 0, kind: RowKind::Header },
            Row { file: 0, kind: RowKind::Gap },
            Row { file: 1, kind: RowKind::Header },
        ]
    );
}

#[test]
fn a_readable_source_puts_controls_in_the_gaps() {
    let mut file = review_file(ONE_HUNK, false);
    file.diff.source = Some("HEAD:f".to_string());
    let c = vec![context(Some(2), 1, 0), context(Some(0), 0, 0)];
    let list = rows(&[file], &[c], &[true], false);
    let source = Some(LineRef::Source { gap: 0, line: 0 });
    assert_eq!(
        list,
        vec![
            Row { file: 0, kind: RowKind::Header },
            code(source, source),
            Row { file: 0, kind: RowKind::Separator { heading: Some(0), context: Some(0) } },
            code(at(0), None),
            code(at(1), None),
            code(at(2), None),
        ]
    );
}

use commit_review::diff_view::target_row;
use commit_review::review::Anchor;

#[test]
fn comments_scroll_to_their_last_line_or_header() {
    let file = review_file(ONE_HUNK, false);
    let c = contexts(&file);
    let list = rows(&[file], &[c], &[true], true);
    assert_eq!(target_row(&list, 0, Anchor::File), Some(0));
    assert_eq!(target_row(&list, 0, Anchor::Lines { start: 0, end: 1 }), Some(2));
    assert_eq!(target_row(&list, 0, Anchor::Lines { start: 0, end: 2 }), Some(3));
    assert_eq!(target_row(&list, 0, Anchor::Lines { start: 0, end: 9 }), None);
    assert_eq!(target_row(&list, 1, Anchor::File), None);
}
