use commit_review::diff::{
    base, base_query, changes, diff_args, listing_args, untracked_args, untracked_paths, Status, EMPTY_TREE,
};
use commit_review::scope::Scope;

fn words(list: &[&str]) -> Vec<String> {
    list.iter().map(|a| a.to_string()).collect()
}

#[test]
fn the_base_is_head_or_its_parent_else_the_empty_tree() {
    assert_eq!(base_query(false), words(&["rev-parse", "--verify", "--quiet", "HEAD"]));
    assert_eq!(base_query(true), words(&["rev-parse", "--verify", "--quiet", "HEAD~1"]));
    assert_eq!(base(Ok("abc123".to_string())), "abc123");
    assert_eq!(base(Err("no commit".to_string())), EMPTY_TREE);
    assert_eq!(base(Err(String::new())), "4b825dc642cb6eb9a060e54bf8d69288fbee4904");
}

#[test]
fn staged_changes_are_diffed_from_the_index() {
    assert_eq!(
        diff_args(Scope::Staged, "HEAD"),
        words(&["diff", "--no-color", "--no-ext-diff", "--find-renames", "-U3", "--cached", "HEAD"])
    );
    assert_eq!(
        diff_args(Scope::Worktree, "abc"),
        words(&["diff", "--no-color", "--no-ext-diff", "--find-renames", "-U3", "abc"])
    );
    assert_eq!(listing_args(), words(&["ls-files", "--others", "--exclude-standard"]));
    assert_eq!(untracked_args("a b.txt"), words(&["diff", "--no-color", "--no-index", "/dev/null", "a b.txt"]));
    assert_eq!(untracked_paths("a.txt\nsub/b.txt\n"), words(&["a.txt", "sub/b.txt"]));
}

const TRACKED: &str = "diff --git a/f b/f\n--- a/f\n+++ b/f\n@@ -1 +1 @@\n-a\n+b\ndiff --git a/old b/new\nrename from old\nrename to new\ndiff --git a/gone b/gone\n--- a/gone\n+++ /dev/null\n@@ -1 +0,0 @@\n-x\ndiff --git a/img b/img\nBinary files a/img and b/img differ\n";

#[test]
fn text_files_that_stay_know_where_their_old_side_is() {
    let files = changes(Scope::Staged, "HEAD", TRACKED, &[]).unwrap();
    assert_eq!(files.len(), 4);
    assert_eq!(files[0].source.as_deref(), Some("HEAD:f"));
    assert_eq!(files[1].status, Status::Renamed);
    assert_eq!(files[1].source.as_deref(), Some("HEAD:old"));
    assert_eq!(files[2].status, Status::Deleted);
    assert_eq!(files[2].source, None);
    assert!(files[3].binary);
    assert_eq!(files[3].source, None);
}

#[test]
fn untracked_files_join_only_the_working_tree() {
    let untracked = vec!["diff --git a/n b/n\nnew file mode 100644\n--- /dev/null\n+++ b/n\n@@ -0,0 +1 @@\n+hi\n".to_string()];
    let staged = changes(Scope::Staged, "HEAD", TRACKED, &untracked).unwrap();
    assert_eq!(staged.len(), 4);
    let all = changes(Scope::Worktree, "HEAD", TRACKED, &untracked).unwrap();
    assert_eq!(all.len(), 5);
    assert_eq!(all[4].path, "n");
    assert_eq!(all[4].status, Status::Added);
    assert_eq!(all[4].source, None);
}

#[test]
fn line_numbers_past_u32_give_no_changes() {
    let huge = "diff --git a/f b/f\n@@ -4294967295 +1 @@\n x\n";
    assert!(changes(Scope::Staged, "HEAD", huge, &[]).is_none());
    assert!(changes(Scope::Worktree, "HEAD", "", &[huge.to_string()]).is_none());
    assert_eq!(changes(Scope::Staged, "HEAD", "", &[huge.to_string()]).map(|f| f.len()), Some(0));
}
