use commit_review::command::{amends, command_scope, is_git_commit, split_words};
use commit_review::scope::Scope;

#[test]
fn words_are_the_runs_between_white_space() {
    let words: Vec<String> = split_words("  git\tcommit \u{3000}-m  x\n").into_iter().map(|w| w.into_iter().collect()).collect();
    assert_eq!(words, vec!["git", "commit", "-m", "x"]);
    assert!(split_words(" \t\n").is_empty());
    let std_words: Vec<&str> = "a\u{85}b\u{a0}c d".split_whitespace().collect();
    let ours: Vec<String> = split_words("a\u{85}b\u{a0}c d").into_iter().map(|w| w.into_iter().collect()).collect();
    assert_eq!(ours, std_words);
}

#[test]
fn a_commit_is_git_then_commit_as_its_first_operand() {
    assert!(is_git_commit("git commit -m 'x'"));
    assert!(is_git_commit("cd repo && git --no-pager commit -a"));
    assert!(!is_git_commit("git status"));
    assert!(!is_git_commit("git log commit"));
    assert!(!is_git_commit("echo commit"));
    assert!(!is_git_commit("gitcommit"));
    assert!(!is_git_commit(""));
    assert!(is_git_commit("git status; git commit"));
}

#[test]
fn all_flags_commit_the_tracked_files() {
    assert_eq!(command_scope("git commit -a -m x"), Scope::TrackedFiles);
    assert_eq!(command_scope("git commit --all"), Scope::TrackedFiles);
    assert_eq!(command_scope("git commit -am x"), Scope::Staged);
    assert_eq!(command_scope("git commit -m x"), Scope::Staged);
}

#[test]
fn amend_is_a_word_of_its_own() {
    assert!(amends("git commit --amend --no-edit"));
    assert!(!amends("git commit -m --amended"));
}
