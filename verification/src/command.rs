//! What a shell command that the agent runs asks of git: whether it makes a
//! commit, what that commit takes, and whether it amends the last one.

use vstd::prelude::*;

use crate::chars::{chars_of, is_text, is_white_space, views, white_space};
use crate::scope::Scope;

verus! {

/// The word that runs git.
pub const GIT: &'static str = "git";

/// The git command that makes a commit.
pub const COMMIT: &'static str = "commit";

/// The short option that commits every tracked file as it is.
pub const ALL_SHORT: &'static str = "-a";

/// The long option that commits every tracked file as it is.
pub const ALL_LONG: &'static str = "--all";

/// The option that replaces the last commit.
pub const AMEND: &'static str = "--amend";

/// The words of `s`: its longest runs of characters that are not white
/// space, in order, as `str::split_whitespace` yields them.
pub open spec fn words(s: Seq<char>) -> Seq<Seq<char>>
    decreases s.len(),
{
    if s.len() == 0 {
        Seq::empty()
    } else {
        let before = words(s.drop_last());
        let c = s.last();
        if white_space(c) {
            before
        } else if s.len() >= 2 && !white_space(s[s.len() - 2]) {
            before.update(before.len() - 1, before.last().push(c))
        } else {
            before.push(seq![c])
        }
    }
}

/// A text that ends in a character that is not white space has a word.
proof fn lemma_words_nonempty(s: Seq<char>)
    requires
        s.len() > 0,
        !white_space(s.last()),
    ensures
        words(s).len() > 0,
    decreases s.len(),
{
    if s.len() >= 2 && !white_space(s[s.len() - 2]) {
        assert(s.drop_last().last() == s[s.len() - 2]);
        lemma_words_nonempty(s.drop_last());
    }
}

/// The words of the command, each as its characters.
pub fn split_words(command: &str) -> (ws: Vec<Vec<char>>)
    ensures
        views(ws@) == words(command@),
{
    let v = chars_of(command);
    let mut ws: Vec<Vec<char>> = Vec::new();
    let mut i: usize = 0;
    assert(v@.take(0) =~= Seq::<char>::empty());
    while i < v.len()
        invariant
            i <= v@.len(),
            v@ == command@,
            views(ws@) == words(v@.take(i as int)),
        decreases v@.len() - i,
    {
        let ghost before = views(ws@);
        let c = v[i];
        assert(v@.take(i + 1).drop_last() =~= v@.take(i as int));
        assert(v@.take(i + 1).last() == c);
        if is_white_space(c) {
        } else if i > 0 && !is_white_space(v[i - 1]) {
            proof {
                assert(v@.take(i + 1)[i - 1] == v@[i - 1]);
                assert(v@.take(i as int).last() == v@[i - 1]);
                lemma_words_nonempty(v@.take(i as int));
            }
            let mut last = ws.pop().unwrap();
            last.push(c);
            ws.push(last);
            assert(views(ws@) =~= before.update(before.len() - 1, before.last().push(c)));
        } else {
            proof {
                if i > 0 {
                    assert(v@.take(i + 1)[i - 1] == v@[i - 1]);
                }
            }
            let mut word: Vec<char> = Vec::new();
            word.push(c);
            ws.push(word);
            assert(views(ws@) =~= before.push(seq![c]));
        }
        i += 1;
    }
    assert(v@.take(v@.len() as int) =~= v@);
    ws
}

/// The word starts with `-`: it is an option.
pub open spec fn is_option(word: Seq<char>) -> bool {
    word.len() > 0 && word[0] == '-'
}

/// The first word from `i` on that is not an option.
pub open spec fn first_operand(ws: Seq<Seq<char>>, i: int) -> Option<Seq<char>>
    decreases ws.len() - i,
{
    if i < 0 || i >= ws.len() {
        None
    } else if is_option(ws[i]) {
        first_operand(ws, i + 1)
    } else {
        Some(ws[i])
    }
}

/// One of the words is `git`, and the first word after it that is not an
/// option is `commit`.
pub open spec fn commits(ws: Seq<Seq<char>>) -> bool {
    exists|at: int| 0 <= at < ws.len() && #[trigger] ws[at] == GIT@ && first_operand(ws, at + 1) == Some(COMMIT@)
}

/// Where the first word from `from` on that is not an option stands.
fn first_operand_at(ws: &Vec<Vec<char>>, from: usize) -> (r: Option<usize>)
    ensures
        match r {
            Some(k) => from <= k < ws@.len() && first_operand(views(ws@), from as int) == Some(views(ws@)[k as int]),
            None => first_operand(views(ws@), from as int) is None,
        },
{
    let ghost vs = views(ws@);
    let mut i = from;
    while i < ws.len()
        invariant
            from <= i,
            vs == views(ws@),
            first_operand(vs, from as int) == first_operand(vs, i as int),
        decreases ws@.len() - i,
    {
        assert(vs[i as int] == ws@[i as int]@);
        if ws[i].len() > 0 && ws[i][0] == '-' {
            i += 1;
        } else {
            return Some(i);
        }
    }
    None
}

/// Whether the command makes a commit: one of its words is `git`, and the
/// first word after it that is not an option is `commit`.
pub fn is_git_commit(command: &str) -> (r: bool)
    ensures
        r == commits(words(command@)),
{
    let ws = split_words(command);
    let ghost vs = views(ws@);
    let mut at: usize = 0;
    while at < ws.len()
        invariant
            at <= ws@.len(),
            vs == views(ws@),
            vs == words(command@),
            forall|j: int| 0 <= j < at ==> !(#[trigger] vs[j] == GIT@ && first_operand(vs, j + 1) == Some(COMMIT@)),
        decreases ws@.len() - at,
    {
        assert(vs[at as int] == ws@[at as int]@);
        if is_text(ws[at].as_slice(), GIT) {
            if let Some(k) = first_operand_at(&ws, at + 1) {
                assert(vs[k as int] == ws@[k as int]@);
                if is_text(ws[k].as_slice(), COMMIT) {
                    assert(vs[at as int] == GIT@ && first_operand(vs, at + 1) == Some(COMMIT@));
                    return true;
                }
            }
        }
        at += 1;
    }
    false
}

/// Whether one of the words is `text`.
fn has_word(ws: &Vec<Vec<char>>, text: &str) -> (r: bool)
    ensures
        r == views(ws@).contains(text@),
{
    let ghost vs = views(ws@);
    let mut i: usize = 0;
    while i < ws.len()
        invariant
            i <= ws@.len(),
            vs == views(ws@),
            forall|j: int| 0 <= j < i ==> #[trigger] vs[j] != text@,
        decreases ws@.len() - i,
    {
        assert(vs[i as int] == ws@[i as int]@);
        if is_text(ws[i].as_slice(), text) {
            return true;
        }
        i += 1;
    }
    false
}

/// What a commit command takes: every tracked file as it is where one of
/// its words is `-a` or `--all`, else what is staged.
pub fn command_scope(command: &str) -> (scope: Scope)
    ensures
        scope == if words(command@).contains(ALL_SHORT@) || words(command@).contains(ALL_LONG@) {
            Scope::TrackedFiles
        } else {
            Scope::Staged
        },
{
    let ws = split_words(command);
    if has_word(&ws, ALL_SHORT) || has_word(&ws, ALL_LONG) {
        Scope::TrackedFiles
    } else {
        Scope::Staged
    }
}

/// Whether the command replaces the last commit: one of its words is
/// `--amend`.
pub fn amends(command: &str) -> (r: bool)
    ensures
        r == words(command@).contains(AMEND@),
{
    let ws = split_words(command);
    has_word(&ws, AMEND)
}

} // verus!
