use commit_review::decision::{
    crashed, deny, failed_to_open, finish, flag_value, notes, scope_of, Output, Reply, CLOSED_UNDECIDED, EXIT_DENIED,
};
use commit_review::scope::Scope;

fn args(list: &[&str]) -> Vec<String> {
    list.iter().map(|a| a.to_string()).collect()
}

#[test]
fn a_manual_launch_exits_ten_on_deny_and_zero_on_accept() {
    let denied = finish(Output::Plain, false, "needs work");
    assert_eq!(denied.code, EXIT_DENIED);
    assert_eq!(denied.code, 10);
    assert!(matches!(denied.reply, Reply::Text(ref text) if text == "needs work"));
    let accepted = finish(Output::Plain, true, "");
    assert_eq!(accepted.code, 0);
    assert!(matches!(accepted.reply, Reply::Text(ref text) if text.is_empty()));
}

#[test]
fn a_hook_exits_zero_and_answers_in_its_reply() {
    let denied = finish(Output::Hook, false, "fix the test");
    assert_eq!(denied.code, 0);
    assert!(matches!(denied.reply, Reply::Deny { ref reason } if reason == "fix the test"));
    let allowed = finish(Output::Hook, true, "looks good");
    assert_eq!(allowed.code, 0);
    assert!(matches!(allowed.reply, Reply::Allow { ref context } if context == "looks good"));
    let silent = finish(Output::Hook, true, "");
    assert_eq!(silent.code, 0);
    assert!(matches!(silent.reply, Reply::Silent));
}

#[test]
fn closing_the_window_denies() {
    let exit = deny(Output::Hook, CLOSED_UNDECIDED);
    assert!(matches!(exit.reply, Reply::Deny { ref reason } if reason == "Review window closed without a decision: commit denied."));
    assert_eq!(deny(Output::Plain, CLOSED_UNDECIDED).code, 10);
}

#[test]
fn deny_reasons_carry_the_error() {
    assert_eq!(failed_to_open("no display"), "Review window failed to open, commit denied: no display");
    assert_eq!(crashed("panicked at x"), "commit-review crashed: panicked at x");
}

#[test]
fn notes_lose_the_white_space_around_them() {
    assert_eq!(notes("  keep this\n\n"), "keep this");
    assert_eq!(notes(" \t\n"), "");
    assert_eq!(notes("a b"), "a b");
}

#[test]
fn flags_take_the_next_argument_or_what_follows_the_equals_sign() {
    assert_eq!(flag_value(&args(&["--command", "git commit -m x"]), "command"), Some("git commit -m x".to_string()));
    assert_eq!(flag_value(&args(&["--command=git commit"]), "command"), Some("git commit".to_string()));
    assert_eq!(flag_value(&args(&["--command"]), "command"), None);
    assert_eq!(flag_value(&args(&["--commander", "x"]), "command"), None);
    assert_eq!(flag_value(&args(&["x", "--command=", "--command", "y"]), "command"), Some(String::new()));
    assert_eq!(flag_value(&args(&[]), "command"), None);
}

#[test]
fn a_manual_launch_reviews_the_whole_working_tree() {
    assert_eq!(scope_of(None), Scope::Worktree);
    assert_eq!(scope_of(Some(Scope::Staged)), Scope::Staged);
    assert_eq!(scope_of(Some(Scope::TrackedFiles)), Scope::TrackedFiles);
}

#[test]
fn white_space_is_what_std_calls_white_space() {
    for code in 0u32..=0x10FFFF {
        if let Some(c) = char::from_u32(code) {
            assert_eq!(commit_review::chars::is_white_space(c), c.is_whitespace(), "{code:#x}");
        }
    }
}
