//! Which changes a commit takes.

use vstd::prelude::*;

verus! {

/// What `git commit` will commit: the staged changes, every tracked file as
/// it is, or the whole working tree with untracked files.
#[derive(Debug, PartialEq, Eq, Structural, Clone, Copy, Hash)]
pub enum Scope {
    Staged,
    TrackedFiles,
    Worktree,
}

} // verus!
