use commit_review::diff::parse;
use commit_review::review::tree::{Entry, Tree};
use commit_review::review::{scope_label, Anchor, Change, Drag, File, Restored};
use commit_review::scope::Scope;

#[test]
fn scope_labels_name_what_the_commit_takes() {
    assert_eq!(scope_label(Scope::Staged), "Staged changes only: plain git commit");
    assert_eq!(scope_label(Scope::TrackedFiles), "Tracked files as they are: git commit -a");
    assert_eq!(
        scope_label(Scope::Worktree),
        "Working tree, untracked files included: git add runs first"
    );
}

#[test]
fn a_drag_anchors_the_lines_it_covers_either_way() {
    assert_eq!(Drag { file: 1, start: 5, end: 2 }.anchor(), Anchor::Lines { start: 2, end: 5 });
    assert_eq!(Drag { file: 1, start: 2, end: 7 }.anchor(), Anchor::Lines { start: 2, end: 7 });
    assert_eq!(Drag { file: 0, start: 3, end: 3 }.anchor(), Anchor::Lines { start: 3, end: 3 });
}

#[test]
fn a_file_takes_its_header_texts_and_earlier_comments() {
    let diff = parse(
        "diff --git a/old.rs b/new.rs\nrename from old.rs\nrename to new.rs\n--- a/old.rs\n+++ b/new.rs\n@@ -1,2 +1,3 @@\n ctx\n-a\n+b\n+c\n",
    )
    .remove(0);
    let restored = vec![
        Restored::Lines { start: 0, end: 1, text: "x".to_string() },
        Restored::Outdated { quote: vec!["-a".to_string()], text: "y".to_string() },
        Restored::File { text: "z".to_string() },
    ];
    let file = File::from_change(Change { diff: diff.clone(), viewed: true, restored });
    assert_eq!(file.diff, diff);
    assert_eq!(file.display_path, "old.rs -> new.rs");
    assert_eq!(file.added_label, "+2");
    assert_eq!(file.removed_label, "-1");
    assert!(file.viewed && file.collapsed);
    assert_eq!(file.comments.len(), 2);
    assert_eq!(file.comments[0].anchor, Anchor::Lines { start: 0, end: 1 });
    assert_eq!(file.comments[0].text, "x");
    assert!(file.comments[0].earlier);
    assert_eq!(file.comments[1].anchor, Anchor::File);
    assert_eq!(file.comments[1].text, "z");
    assert_eq!(file.outdated.len(), 1);
    assert_eq!(file.outdated[0].quote, vec!["-a".to_string()]);
    assert_eq!(file.outdated[0].text, "y");
}

#[test]
fn a_plain_file_shows_its_path_and_zero_counts() {
    let diff = parse("diff --git a/src/lib.rs b/src/lib.rs\n--- a/src/lib.rs\n+++ b/src/lib.rs\n").remove(0);
    let file = File::from_change(Change { diff, viewed: false, restored: Vec::new() });
    assert_eq!(file.display_path, "src/lib.rs");
    assert_eq!(file.added_label, "+0");
    assert_eq!(file.removed_label, "-0");
    assert!(!file.viewed && !file.collapsed);
    assert!(file.comments.is_empty() && file.outdated.is_empty());
}

fn dir(entry: &Entry) -> (String, String, usize, usize) {
    match entry {
        Entry::Dir { path, name, depth, end } => (path.clone(), name.clone(), *depth, *end),
        Entry::File { .. } => panic!("a file where a directory was expected"),
    }
}

fn file(entry: &Entry) -> (usize, String, usize) {
    match entry {
        Entry::File { index, name, depth } => (*index, name.clone(), *depth),
        Entry::Dir { .. } => panic!("a directory where a file was expected"),
    }
}

const PATHS: [&str; 4] = ["src/b.rs", "README.md", "src/a/x.rs", "src/a.rs"];

#[test]
fn the_tree_lists_directories_before_files_by_name() {
    let tree = Tree::new(&PATHS);
    assert_eq!(tree.all.len(), 6);
    assert_eq!(dir(&tree.all[0]), ("src/".to_string(), "src".to_string(), 0, 5));
    assert_eq!(dir(&tree.all[1]), ("src/a/".to_string(), "a".to_string(), 1, 3));
    assert_eq!(file(&tree.all[2]), (2, "x.rs".to_string(), 2));
    assert_eq!(file(&tree.all[3]), (3, "a.rs".to_string(), 1));
    assert_eq!(file(&tree.all[4]), (0, "b.rs".to_string(), 1));
    assert_eq!(file(&tree.all[5]), (1, "README.md".to_string(), 0));
    assert_eq!(tree.shown, vec![true; 4]);
    assert!(tree.visible.is_empty());
    assert!(tree.dirty);
}

#[test]
fn the_filter_shows_matching_paths_and_their_directories() {
    let mut tree = Tree::new(&PATHS);
    tree.update(&PATHS, "", &[]);
    assert_eq!(tree.visible, vec![0, 1, 2, 3, 4, 5]);
    tree.update(&PATHS, " A.RS ", &[]);
    assert_eq!(tree.filter, "A.RS");
    assert_eq!(tree.shown, vec![false, false, false, true]);
    assert_eq!(tree.visible, vec![0, 3]);
    assert!(!tree.dirty);
}

#[test]
fn a_closed_directory_hides_what_it_holds() {
    let mut tree = Tree::new(&PATHS);
    tree.update(&PATHS, "", &["src/a/".to_string()]);
    assert_eq!(tree.visible, vec![0, 1, 3, 4, 5]);
    tree.dirty = true;
    tree.update(&PATHS, "", &["src/".to_string()]);
    assert_eq!(tree.visible, vec![0, 5]);
}

use commit_review::diff::Status;
use commit_review::review::{pending, status_tag, viewed, Act, HeaderAction};
use commit_review::theme::Swatch;

fn commented_file() -> File {
    let diff = parse("diff --git a/f b/f\n--- a/f\n+++ b/f\n@@ -1 +1 @@\n-a\n+b\n").remove(0);
    let restored = vec![
        Restored::Lines { start: 0, end: 1, text: "first".to_string() },
        Restored::Outdated { quote: vec!["-x".to_string()], text: "old".to_string() },
        Restored::Lines { start: 1, end: 1, text: "second".to_string() },
    ];
    File::from_change(Change { diff, viewed: false, restored })
}

#[test]
fn clicks_among_comments_change_them() {
    let mut file = commented_file();
    assert!(!file.apply(Act::Reopen(0)));
    assert!(file.outdated.is_empty());
    assert_eq!(file.comments.len(), 3);
    assert_eq!(file.comments[2].anchor, Anchor::File);
    assert_eq!(file.comments[2].text, "old");
    assert!(!file.comments[2].earlier);
    assert!(file.apply(Act::Delete(0)));
    assert_eq!(file.comments[0].text, "second");
    assert!(file.apply(Act::Close));
    let mut other = commented_file();
    assert!(!other.apply(Act::Dismiss(0)));
    assert!(other.outdated.is_empty());
    assert_eq!(other.comments.len(), 2);
}

#[test]
fn the_header_folds_marks_and_comments() {
    let mut file = commented_file();
    assert!(file.header_action(HeaderAction::Viewed));
    assert!(file.viewed && file.collapsed);
    assert!(file.header_action(HeaderAction::Collapse));
    assert!(!file.collapsed);
    assert!(!file.header_action(HeaderAction::Comment));
    assert_eq!(file.comments.len(), 2);
    file.outdated.clear();
    assert!(!file.header_action(HeaderAction::Comment));
    assert_eq!(file.comments.len(), 3);
    assert_eq!(file.comments[2].anchor, Anchor::File);
    assert_eq!(file.comments[2].text, "");
    assert!(!file.header_action(HeaderAction::Comment));
    assert_eq!(file.comments.len(), 3);
}

#[test]
fn counts_of_comments_and_viewed_files() {
    let mut files = vec![commented_file(), commented_file()];
    assert_eq!(pending(&files), 4);
    assert_eq!(viewed(&files), (0, 2));
    files[1].viewed = true;
    assert_eq!(viewed(&files), (1, 2));
}

#[test]
fn status_tags_name_and_color_the_status() {
    assert_eq!(status_tag(Status::Added), ("added", Swatch::Success));
    assert_eq!(status_tag(Status::Deleted), ("deleted", Swatch::Danger));
    assert_eq!(status_tag(Status::Renamed), ("renamed", Swatch::Purple));
    assert_eq!(status_tag(Status::Modified), ("modified", Swatch::Accent));
}

#[test]
fn the_filter_ignores_case_beyond_ascii() {
    let paths = ["docs/Éclair.md", "src/eclair.rs"];
    let mut tree = Tree::new(&paths);
    tree.update(&paths, "ÉCLAIR", &[]);
    assert_eq!(tree.shown, vec![true, false]);
}

use commit_review::review::tree::write_label;

#[test]
fn tree_labels_indent_and_mark_their_entries() {
    let tree = Tree::new(&PATHS);
    let mut label = "stale".to_string();
    write_label(&mut label, &tree.all[0], false, false);
    assert_eq!(label, "▾  src");
    write_label(&mut label, &tree.all[1], true, false);
    assert_eq!(label, "    ▸  a");
    write_label(&mut label, &tree.all[2], false, true);
    assert_eq!(label, "            x.rs  ✓");
    write_label(&mut label, &tree.all[5], false, false);
    assert_eq!(label, "    README.md");
}

use commit_review::review::{open, quote_text};

#[test]
fn quotes_join_their_lines() {
    assert_eq!(quote_text(&["-a".to_string(), "+b".to_string()]), "-a\n+b");
    assert_eq!(quote_text(&["only".to_string()]), "only");
    assert_eq!(quote_text(&[]), "");
}

#[test]
fn opening_a_review_builds_its_files_and_tree() {
    let diffs = parse(
        "diff --git a/src/b.rs b/src/b.rs\n--- a/src/b.rs\n+++ b/src/b.rs\ndiff --git a/README.md b/README.md\n--- a/README.md\n+++ b/README.md\n",
    );
    let changes = diffs
        .into_iter()
        .map(|diff| Change { diff, viewed: false, restored: Vec::new() })
        .collect();
    let (files, tree) = open(changes);
    assert_eq!(files.len(), 2);
    assert_eq!(files[0].display_path, "src/b.rs");
    assert_eq!(files[1].display_path, "README.md");
    assert_eq!(tree.all.len(), 3);
    assert_eq!(dir(&tree.all[0]), ("src/".to_string(), "src".to_string(), 0, 2));
    assert_eq!(file(&tree.all[1]), (0, "b.rs".to_string(), 1));
    assert_eq!(file(&tree.all[2]), (1, "README.md".to_string(), 0));
}

#[test]
fn a_finished_drag_starts_a_comment_unless_one_line_already_has_one() {
    let mut file = commented_file();
    assert_eq!(file.finish_drag(Drag { file: 0, start: 1, end: 1 }), 1);
    assert_eq!(file.comments.len(), 2);
    assert_eq!(file.finish_drag(Drag { file: 0, start: 3, end: 2 }), 3);
    assert_eq!(file.comments.len(), 3);
    assert_eq!(file.comments[2].anchor, Anchor::Lines { start: 2, end: 3 });
    assert_eq!(file.comments[2].text, "");
    assert!(!file.comments[2].earlier);
    assert_eq!(file.finish_drag(Drag { file: 0, start: 0, end: 1 }), 1);
    assert_eq!(file.comments.len(), 4);
    assert!(Anchor::Lines { start: 2, end: 4 }.at(Some(3)));
    assert!(!Anchor::Lines { start: 2, end: 4 }.at(Some(5)));
    assert!(Anchor::File.at(None));
    assert!(!Anchor::File.at(Some(0)));
}

#[test]
fn a_directory_range_holds_exactly_what_lies_under_its_path() {
    let paths = ["src/a.rs", "src/ui/b.rs", "srcs/c.rs", "src/ui/a.rs", "top.rs"];
    let tree = Tree::new(&paths);
    for (q, entry) in tree.all.iter().enumerate() {
        if let Entry::Dir { path, end, .. } = entry {
            for (p, other) in tree.all.iter().enumerate() {
                let under = match other {
                    Entry::File { index, .. } => paths[*index].starts_with(path.as_str()),
                    Entry::Dir { path: inner, .. } => inner != path && inner.starts_with(path.as_str()),
                };
                assert_eq!(q < p && p < *end, under, "{path} and entry {p}");
            }
        }
    }
}
