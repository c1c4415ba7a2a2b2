# commit-review

A review gate for commits that a coding agent starts: the agent's hook hands
the `git commit` command over, and the commit is meant to go through only once
a person approves the diff in the review window. The window's toolkit is not
part of this build, so the program in `app/` cannot open it and, as built,
denies every commit it is asked about. This crate is the verified core of that gate, written in
Verus: Verus checks every function in `src/`, and proves each contract; the
calls into syntect, itoa and std that it cannot read stand behind small
trusted wrappers whose contracts say what those libraries do, and are
believed, not proved.

## Layout

- `src/diff.rs`: unified diffs parsed into files, hunks and numbered lines;
  the source around the hunks; the git arguments and the files a commit of
  each scope takes.
- `src/review/`: the files of a review with their comments, and the file tree
  beside them with its filter and closed directories.
- `src/diff_view.rs`: the rows of the diff view, in one column or side by
  side, and the opening of the source between hunks.
- `src/syntax.rs`: syntax colors from syntect, each line split into colored
  byte ranges that cover it.
- `src/lines.rs`, `src/widgets.rs`, `src/theme.rs`, `src/marked.rs`: how lines,
  buttons and marked text are drawn.
- `src/panels.rs`, `src/text_area.rs`: the keys of the window and the editing
  of its text fields.
- `src/command.rs`: whether the agent's shell command makes a commit, what
  that commit takes, and whether it amends the last one.
- `src/decision.rs`: how a decision leaves the process, as the hook's answer or
  as an exit code.
- `app/main.rs`: the program around the library: arguments, stdin, git, and
  the hook's JSON.
