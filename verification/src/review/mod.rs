//! The diff review, in the style of GitHub's "Files changed": a file tree
//! beside the files, each with its header, comments and diff.

pub mod tree;

use vstd::prelude::*;

use crate::chars::{append_text, decimal, push_decimal, texts};
use tree::{path_views, Tree};
use crate::diff::{all_lines, FileDiff, FileDiffView, Kind, LineView};
use crate::scope::Scope;
use crate::theme::{Swatch, WARNING};
use crate::diff::Status;

verus! {

/// What the summary says a plain `git commit` takes.
pub const STAGED_LABEL: &'static str = "Staged changes only: plain git commit";

/// What the summary says `git commit -a` takes.
pub const TRACKED_LABEL: &'static str = "Tracked files as they are: git commit -a";

/// What the summary says a commit of the whole working tree takes.
pub const WORKTREE_LABEL: &'static str = "Working tree, untracked files included: git add runs first";

/// What separates the old path of a renamed file from its new one.
pub const RENAMED_TO: &'static str = " -> ";

/// The sentence that says which changes the commit takes.
pub fn scope_label(scope: Scope) -> (label: &'static str)
    ensures
        scope == Scope::Staged ==> label@ == STAGED_LABEL@,
        scope == Scope::TrackedFiles ==> label@ == TRACKED_LABEL@,
        scope == Scope::Worktree ==> label@ == WORKTREE_LABEL@,
{
    match scope {
        Scope::Staged => STAGED_LABEL,
        Scope::TrackedFiles => TRACKED_LABEL,
        Scope::Worktree => WORKTREE_LABEL,
    }
}

/// Where a comment points: the whole file, or a run of its lines, counted
/// over all hunks of the file from zero.
#[derive(Debug, PartialEq, Eq, Structural, Clone, Copy, Hash)]
pub enum Anchor {
    File,
    Lines { start: usize, end: usize },
}

/// A comment of an earlier attempt, as it comes back for a file.
pub enum Restored {
    /// Its lines are unchanged: it stands on them again.
    Lines { start: usize, end: usize, text: String },
    /// It was about the whole file.
    File { text: String },
    /// Its lines changed: the lines it quoted, and what it said.
    Outdated { quote: Vec<String>, text: String },
}

/// A file of the diff with what an earlier attempt left on it.
pub struct Change {
    pub diff: FileDiff,
    /// Marked viewed earlier and unchanged since.
    pub viewed: bool,
    pub restored: Vec<Restored>,
}

/// A file of the review.
pub struct File {
    pub diff: FileDiff,
    pub display_path: String,
    pub added_label: String,
    pub removed_label: String,
    pub viewed: bool,
    pub collapsed: bool,
    /// Pending comments, sent with the decision.
    pub comments: Vec<Comment>,
    /// Comments of an earlier attempt whose lines changed: not sent unless reopened.
    pub outdated: Vec<Outdated>,
}

pub struct Comment {
    pub anchor: Anchor,
    pub text: String,
    /// Carried over from an earlier attempt.
    pub earlier: bool,
}

pub struct Outdated {
    pub quote: Vec<String>,
    pub text: String,
}

/// Lines selected by dragging a "+" button, flat indices in one file.
#[derive(Debug, PartialEq, Eq, Structural, Clone, Copy)]
pub struct Drag {
    pub file: usize,
    pub start: usize,
    pub end: usize,
}

/// A comment, its text as characters.
pub struct CommentView {
    pub anchor: Anchor,
    pub text: Seq<char>,
    pub earlier: bool,
}

/// An outdated comment, its texts as characters.
pub struct OutdatedView {
    pub quote: Seq<Seq<char>>,
    pub text: Seq<char>,
}

/// A restored comment, its texts as characters.
pub enum RestoredView {
    Lines { start: usize, end: usize, text: Seq<char> },
    File { text: Seq<char> },
    Outdated { quote: Seq<Seq<char>>, text: Seq<char> },
}

impl View for Comment {
    type V = CommentView;

    open spec fn view(&self) -> CommentView {
        CommentView { anchor: self.anchor, text: self.text@, earlier: self.earlier }
    }
}

impl View for Outdated {
    type V = OutdatedView;

    open spec fn view(&self) -> OutdatedView {
        OutdatedView { quote: texts(self.quote@), text: self.text@ }
    }
}

impl View for Restored {
    type V = RestoredView;

    open spec fn view(&self) -> RestoredView {
        match self {
            Restored::Lines { start, end, text } => RestoredView::Lines { start: *start, end: *end, text: text@ },
            Restored::File { text } => RestoredView::File { text: text@ },
            Restored::Outdated { quote, text } => RestoredView::Outdated { quote: texts(quote@), text: text@ },
        }
    }
}

pub open spec fn comment_views(s: Seq<Comment>) -> Seq<CommentView> {
    s.map_values(|c: Comment| c@)
}

pub open spec fn outdated_views(s: Seq<Outdated>) -> Seq<OutdatedView> {
    s.map_values(|o: Outdated| o@)
}

pub open spec fn restored_views(s: Seq<Restored>) -> Seq<RestoredView> {
    s.map_values(|r: Restored| r@)
}

/// The path a file header shows: `old -> new` for a rename.
pub open spec fn display_path(diff: FileDiffView) -> Seq<char> {
    match diff.old_path {
        Some(old) => old + RENAMED_TO@ + diff.path,
        None => diff.path,
    }
}

/// How many of `lines` are of `kind`.
pub open spec fn count_kind(lines: Seq<LineView>, kind: Kind) -> nat
    decreases lines.len(),
{
    if lines.len() == 0 {
        0
    } else {
        count_kind(lines.drop_last(), kind) + if lines.last().kind == kind { 1nat } else { 0nat }
    }
}

/// The count a file header shows, after its sign.
pub open spec fn count_label(sign: char, count: nat) -> Seq<char> {
    seq![sign] + decimal(count)
}

/// The earlier comments that stand on the file again, in order.
pub open spec fn restored_comments(rs: Seq<RestoredView>) -> Seq<CommentView>
    decreases rs.len(),
{
    if rs.len() == 0 {
        Seq::empty()
    } else {
        let before = restored_comments(rs.drop_last());
        match rs.last() {
            RestoredView::Lines { start, end, text } => before.push(
                CommentView { anchor: Anchor::Lines { start, end }, text, earlier: true },
            ),
            RestoredView::File { text } => before.push(CommentView { anchor: Anchor::File, text, earlier: true }),
            RestoredView::Outdated { .. } => before,
        }
    }
}

/// The earlier comments whose lines changed, in order.
pub open spec fn restored_outdated(rs: Seq<RestoredView>) -> Seq<OutdatedView>
    decreases rs.len(),
{
    if rs.len() == 0 {
        Seq::empty()
    } else {
        let before = restored_outdated(rs.drop_last());
        match rs.last() {
            RestoredView::Outdated { quote, text } => before.push(OutdatedView { quote, text }),
            _ => before,
        }
    }
}

impl Drag {
    /// The lines the drag covers, whichever way it went.
    pub fn anchor(&self) -> (anchor: Anchor)
        ensures
            anchor == (Anchor::Lines {
                start: if self.start <= self.end { self.start } else { self.end },
                end: if self.start <= self.end { self.end } else { self.start },
            }),
    {
        if self.start <= self.end {
            Anchor::Lines { start: self.start, end: self.end }
        } else {
            Anchor::Lines { start: self.end, end: self.start }
        }
    }
}

impl File {
    /// The review of a file: its header texts, and the comments an earlier
    /// attempt left on it. A file viewed earlier starts collapsed.
    pub fn from_change(change: Change) -> (file: File)
        ensures
            file.diff == change.diff,
            file.display_path@ == display_path(change.diff@),
            file.added_label@ == count_label('+', count_kind(all_lines(change.diff@.hunks), Kind::Add)),
            file.removed_label@ == count_label('-', count_kind(all_lines(change.diff@.hunks), Kind::Del)),
            file.viewed == change.viewed,
            file.collapsed == change.viewed,
            comment_views(file.comments@) == restored_comments(restored_views(change.restored@)),
            outdated_views(file.outdated@) == restored_outdated(restored_views(change.restored@)),
    {
        let Change { diff, viewed, restored } = change;
        let mut display = String::new();
        match &diff.old_path {
            Some(old) => {
                append_text(&mut display, old.as_str());
                append_text(&mut display, RENAMED_TO);
                append_text(&mut display, diff.path.as_str());
            },
            None => append_text(&mut display, diff.path.as_str()),
        }
        let (added, removed) = count_changes(&diff);
        let mut added_label = String::new();
        added_label.push('+');
        push_decimal(&mut added_label, added);
        let mut removed_label = String::new();
        removed_label.push('-');
        push_decimal(&mut removed_label, removed);
        let ghost all = restored_views(restored@);
        let mut comments: Vec<Comment> = Vec::new();
        let mut outdated: Vec<Outdated> = Vec::new();
        let ghost rs = restored@;
        for next in it: restored
            invariant
                all == restored_views(rs),
                it.seq() == rs,
                comment_views(comments@) == restored_comments(all.take(it.index() as int)),
                outdated_views(outdated@) == restored_outdated(all.take(it.index() as int)),
        {
            let ghost i = it.index();
            proof {
                assert(next@ == all[i as int]);
                assert(all.take(i + 1).drop_last() =~= all.take(i as int));
            }
            match next {
                Restored::Lines { start, end, text } => {
                    comments.push(Comment { anchor: Anchor::Lines { start, end }, text, earlier: true });
                },
                Restored::File { text } => {
                    comments.push(Comment { anchor: Anchor::File, text, earlier: true });
                },
                Restored::Outdated { quote, text } => {
                    outdated.push(Outdated { quote, text });
                },
            }
            proof {
                assert(comment_views(comments@) =~= restored_comments(all.take(i + 1)));
                assert(outdated_views(outdated@) =~= restored_outdated(all.take(i + 1)));
            }
        }
        assert(all.take(all.len() as int) =~= all);
        File {
            diff,
            display_path: display,
            added_label,
            removed_label,
            viewed,
            collapsed: viewed,
            comments,
            outdated,
        }
    }
}

/// How many lines the diff adds and how many it removes.
fn count_changes(diff: &FileDiff) -> (counts: (usize, usize))
    ensures
        counts.0 == count_kind(all_lines(diff@.hunks), Kind::Add),
        counts.1 == count_kind(all_lines(diff@.hunks), Kind::Del),
{
    let lines = diff.lines();
    let ghost views = lines@.map_values(|l: &crate::diff::Line| l@);
    let mut added: usize = 0;
    let mut removed: usize = 0;
    let mut i: usize = 0;
    while i < lines.len()
        invariant
            i <= lines@.len(),
            views == lines@.map_values(|l: &crate::diff::Line| l@),
            views == all_lines(diff@.hunks),
            added == count_kind(views.take(i as int), Kind::Add),
            removed == count_kind(views.take(i as int), Kind::Del),
            added <= i,
            removed <= i,
        decreases lines@.len() - i,
    {
        proof {
            assert(views.take(i + 1).drop_last() =~= views.take(i as int));
        }
        match lines[i].kind {
            Kind::Add => added += 1,
            Kind::Del => removed += 1,
            Kind::Context => {},
        }
        i += 1;
    }
    assert(views.take(i as int) =~= views);
    (added, removed)
}

/// Every comment an earlier attempt left comes back once: on the file's
/// lines or on the file, or among the outdated ones.
pub proof fn restored_law(rs: Seq<RestoredView>)
    ensures
        restored_comments(rs).len() + restored_outdated(rs).len() == rs.len(),
    decreases rs.len(),
{
    if rs.len() > 0 {
        restored_law(rs.drop_last());
    }
}

/// What a click among the comments of a file asks for.
#[derive(Debug, PartialEq, Eq, Structural, Clone, Copy)]
pub enum Act {
    /// Deletes the pending comment at that index.
    Delete(usize),
    /// Drops the outdated comment at that index.
    Dismiss(usize),
    /// Makes the outdated comment at that index a pending comment on the
    /// file again.
    Reopen(usize),
    /// Closes the comments.
    Close,
}

impl File {
    /// Applies what was clicked among the comments of the file; says
    /// whether the comments close.
    pub fn apply(&mut self, act: Act) -> (closes: bool)
        requires
            act matches Act::Delete(i) ==> i < old(self).comments@.len(),
            act matches Act::Dismiss(i) ==> i < old(self).outdated@.len(),
            act matches Act::Reopen(i) ==> i < old(self).outdated@.len(),
        ensures
            closes == (act is Delete || act is Close),
            final(self).diff == old(self).diff,
            final(self).display_path == old(self).display_path,
            final(self).added_label == old(self).added_label,
            final(self).removed_label == old(self).removed_label,
            final(self).viewed == old(self).viewed,
            final(self).collapsed == old(self).collapsed,
            match act {
                Act::Delete(i) => comment_views(final(self).comments@) == comment_views(old(self).comments@).remove(
                    i as int,
                ) && outdated_views(final(self).outdated@) == outdated_views(old(self).outdated@),
                Act::Dismiss(i) => comment_views(final(self).comments@) == comment_views(old(self).comments@)
                    && outdated_views(final(self).outdated@) == outdated_views(old(self).outdated@).remove(i as int),
                Act::Reopen(i) => comment_views(final(self).comments@) == comment_views(old(self).comments@).push(
                    CommentView { anchor: Anchor::File, text: old(self).outdated@[i as int].text@, earlier: false },
                ) && outdated_views(final(self).outdated@) == outdated_views(old(self).outdated@).remove(i as int),
                Act::Close => comment_views(final(self).comments@) == comment_views(old(self).comments@)
                    && outdated_views(final(self).outdated@) == outdated_views(old(self).outdated@),
            },
    {
        match act {
            Act::Delete(i) => {
                self.comments.remove(i);
                assert(comment_views(self.comments@) =~= comment_views(old(self).comments@).remove(i as int));
                true
            },
            Act::Dismiss(i) => {
                self.outdated.remove(i);
                assert(outdated_views(self.outdated@) =~= outdated_views(old(self).outdated@).remove(i as int));
                false
            },
            Act::Reopen(i) => {
                let outdated = self.outdated.remove(i);
                assert(outdated_views(self.outdated@) =~= outdated_views(old(self).outdated@).remove(i as int));
                let comment = Comment { anchor: Anchor::File, text: outdated.text, earlier: false };
                let ghost before = comment_views(self.comments@);
                self.comments.push(comment);
                assert(comment_views(self.comments@) =~= before.push(comment@));
                false
            },
            Act::Close => true,
        }
    }
}

/// How many comments wait to be sent with the decision.
pub fn pending(files: &[File]) -> (count: usize)
    requires
        comments_total(files@, files@.len() as int) <= usize::MAX,
    ensures
        count == comments_total(files@, files@.len() as int),
{
    let mut count: usize = 0;
    let mut i: usize = 0;
    while i < files.len()
        invariant
            i <= files@.len(),
            count == comments_total(files@, i as int),
            comments_total(files@, files@.len() as int) <= usize::MAX,
        decreases files@.len() - i,
    {
        proof {
            lemma_comments_total_grows(files@, i + 1, files@.len() as int);
        }
        count = count + files[i].comments.len();
        i += 1;
    }
    count
}

/// How many comments the first `k` files hold.
pub open spec fn comments_total(files: Seq<File>, k: int) -> int
    decreases k,
{
    if k <= 0 {
        0
    } else {
        comments_total(files, k - 1) + files[k - 1].comments@.len()
    }
}

/// More files hold no fewer comments.
proof fn lemma_comments_total_grows(files: Seq<File>, j: int, k: int)
    requires
        0 <= j <= k,
    ensures
        comments_total(files, j) <= comments_total(files, k),
    decreases k - j,
{
    if j < k {
        lemma_comments_total_grows(files, j, k - 1);
    }
}

/// How many of the first `k` files are marked viewed.
pub open spec fn viewed_count(files: Seq<File>, k: int) -> int
    decreases k,
{
    if k <= 0 {
        0
    } else {
        viewed_count(files, k - 1) + if files[k - 1].viewed { 1int } else { 0int }
    }
}

/// How many files are marked viewed, and how many there are.
pub fn viewed(files: &[File]) -> (counts: (usize, usize))
    ensures
        counts.0 == viewed_count(files@, files@.len() as int),
        counts.1 == files@.len(),
{
    let mut count: usize = 0;
    let mut i: usize = 0;
    while i < files.len()
        invariant
            i <= files@.len(),
            count == viewed_count(files@, i as int),
            count <= i,
        decreases files@.len() - i,
    {
        if files[i].viewed {
            count += 1;
        }
        i += 1;
    }
    (count, files.len())
}

/// The tag a file header shows for the file's status, and its color.
pub fn status_tag(status: Status) -> (tag: (&'static str, Swatch))
    ensures
        status == Status::Added ==> tag.0@ == "added"@ && tag.1 == Swatch::Success,
        status == Status::Deleted ==> tag.0@ == "deleted"@ && tag.1 == Swatch::Danger,
        status == Status::Renamed ==> tag.0@ == "renamed"@ && tag.1 == Swatch::Purple,
        status == Status::Modified ==> tag.0@ == "modified"@ && tag.1 == WARNING,
{
    match status {
        Status::Added => ("added", Swatch::Success),
        Status::Deleted => ("deleted", Swatch::Danger),
        Status::Renamed => ("renamed", Swatch::Purple),
        Status::Modified => ("modified", WARNING),
    }
}

/// What a click on a file header asks for.
#[derive(Debug, PartialEq, Eq, Structural, Clone, Copy)]
pub enum HeaderAction {
    /// Folds or unfolds the diff.
    Collapse,
    /// Marks the file viewed, folding it, or not viewed, unfolding it.
    Viewed,
    /// Opens a comment on the whole file.
    Comment,
}

impl File {
    /// Applies a click on the file's header; says whether the file folded
    /// or unfolded. A comment on the file unfolds it and starts an empty
    /// comment on the file, unless one is there or outdated ones wait.
    pub fn header_action(&mut self, action: HeaderAction) -> (refolded: bool)
        ensures
            refolded == (final(self).collapsed != old(self).collapsed),
            final(self).diff == old(self).diff,
            final(self).display_path == old(self).display_path,
            final(self).added_label == old(self).added_label,
            final(self).removed_label == old(self).removed_label,
            final(self).outdated == old(self).outdated,
            action == HeaderAction::Collapse ==> final(self).collapsed == !old(self).collapsed && final(self).viewed
                == old(self).viewed && comment_views(final(self).comments@) == comment_views(old(self).comments@),
            action == HeaderAction::Viewed ==> final(self).viewed == !old(self).viewed && final(self).collapsed
                == final(self).viewed && comment_views(final(self).comments@) == comment_views(old(self).comments@),
            action == HeaderAction::Comment ==> !final(self).collapsed && final(self).viewed == old(self).viewed
                && comment_views(final(self).comments@) == (if old(self).outdated@.len() > 0 || exists|i: int|
                0 <= i < old(self).comments@.len() && #[trigger] old(self).comments@[i].anchor == Anchor::File {
                comment_views(old(self).comments@)
            } else {
                comment_views(old(self).comments@).push(
                    CommentView { anchor: Anchor::File, text: Seq::empty(), earlier: false },
                )
            }),
    {
        let collapsed = self.collapsed;
        match action {
            HeaderAction::Collapse => self.collapsed = !self.collapsed,
            HeaderAction::Viewed => {
                self.viewed = !self.viewed;
                self.collapsed = self.viewed;
            },
            HeaderAction::Comment => {
                self.collapsed = false;
                let mut existing = self.outdated.len() > 0;
                let mut i: usize = 0;
                while i < self.comments.len() && !existing
                    invariant
                        i <= self.comments@.len(),
                        existing == (old(self).outdated@.len() > 0 || exists|j: int|
                            0 <= j < i && #[trigger] self.comments@[j].anchor == Anchor::File),
                        self.comments == old(self).comments,
                        self.outdated == old(self).outdated,
                    decreases self.comments@.len() - i,
                {
                    if self.comments[i].anchor == Anchor::File {
                        existing = true;
                    }
                    i += 1;
                }
                if !existing {
                    assert(forall|j: int| 0 <= j < old(self).comments@.len() ==> #[trigger] old(self).comments@[j].anchor != Anchor::File);
                    let comment = Comment { anchor: Anchor::File, text: String::new(), earlier: false };
                    let ghost before = comment_views(self.comments@);
                    self.comments.push(comment);
                    assert(comment_views(self.comments@) =~= before.push(comment@));
                }
            },
        }
        self.collapsed != collapsed
    }
}

/// The lines an outdated comment quoted, one under the other.
pub open spec fn joined_lines(quote: Seq<Seq<char>>) -> Seq<char>
    decreases quote.len(),
{
    if quote.len() == 0 {
        Seq::empty()
    } else if quote.len() == 1 {
        quote[0]
    } else {
        joined_lines(quote.drop_last()) + seq!['\n'] + quote.last()
    }
}

/// The quote of an outdated comment as one text, a line break between its
/// lines.
pub fn quote_text(quote: &[String]) -> (text: String)
    ensures
        text@ == joined_lines(texts(quote@)),
{
    let ghost q = texts(quote@);
    let mut text = String::new();
    let mut i: usize = 0;
    assert(q.take(0) =~= Seq::<Seq<char>>::empty());
    while i < quote.len()
        invariant
            i <= quote@.len(),
            q == texts(quote@),
            text@ == joined_lines(q.take(i as int)),
        decreases quote@.len() - i,
    {
        if i > 0 {
            text.push('\n');
        }
        append_text(&mut text, quote[i].as_str());
        assert(q.take(i + 1).drop_last() =~= q.take(i as int));
        i += 1;
    }
    assert(q.take(i as int) =~= q);
    text
}

/// The files of a review opened on the given changes, and the tree of
/// their paths.
pub fn open(changes: Vec<Change>) -> (opened: (Vec<File>, Tree))
    ensures
        opened.0@.len() == changes@.len(),
        forall|i: int|
            0 <= i < changes@.len() ==> {
                let file = #[trigger] opened.0@[i];
                let change = changes@[i];
                &&& file.diff == change.diff
                &&& file.display_path@ == display_path(change.diff@)
                &&& file.added_label@ == count_label('+', count_kind(all_lines(change.diff@.hunks), Kind::Add))
                &&& file.removed_label@ == count_label('-', count_kind(all_lines(change.diff@.hunks), Kind::Del))
                &&& file.viewed == change.viewed
                &&& file.collapsed == change.viewed
                &&& comment_views(file.comments@) == restored_comments(restored_views(change.restored@))
                &&& outdated_views(file.outdated@) == restored_outdated(restored_views(change.restored@))
            },
        opened.1.lists(opened.0@.map_values(|f: File| f.diff.path@)),
        opened.1.wf(),
        opened.1.shown@ == Seq::new(changes@.len(), |i: int| true),
        opened.1.visible@.len() == 0,
        opened.1.filter@.len() == 0,
        opened.1.label@.len() == 0,
        opened.1.dirty,
{
    let ghost cs = changes@;
    let mut files: Vec<File> = Vec::new();
    for change in it: changes
        invariant
            it.seq() == cs,
            files@.len() == it.index(),
            forall|i: int|
                0 <= i < files@.len() ==> {
                    let file = #[trigger] files@[i];
                    let change = cs[i];
                    &&& file.diff == change.diff
                    &&& file.display_path@ == display_path(change.diff@)
                    &&& file.added_label@ == count_label('+', count_kind(all_lines(change.diff@.hunks), Kind::Add))
                    &&& file.removed_label@ == count_label('-', count_kind(all_lines(change.diff@.hunks), Kind::Del))
                    &&& file.viewed == change.viewed
                    &&& file.collapsed == change.viewed
                    &&& comment_views(file.comments@) == restored_comments(restored_views(change.restored@))
                    &&& outdated_views(file.outdated@) == restored_outdated(restored_views(change.restored@))
                },
    {
        files.push(File::from_change(change));
    }
    let mut paths: Vec<&str> = Vec::new();
    let mut i: usize = 0;
    while i < files.len()
        invariant
            i <= files@.len(),
            paths@.len() == i,
            forall|j: int| 0 <= j < i ==> (#[trigger] paths@[j])@ == files@[j].diff.path@,
        decreases files@.len() - i,
    {
        paths.push(files[i].diff.path.as_str());
        i += 1;
    }
    let tree = Tree::new(paths.as_slice());
    assert(path_views(paths@) =~= files@.map_values(|f: File| f.diff.path@));
    (files, tree)
}

impl Anchor {
    /// The comment stands at `line`: on the whole file for `None`, else on
    /// a run of lines that includes it.
    pub open spec fn at_spec(self, line: Option<usize>) -> bool {
        match (self, line) {
            (Anchor::File, None) => true,
            (Anchor::Lines { start, end }, Some(l)) => start <= l <= end,
            _ => false,
        }
    }

    /// Whether the comment stands at `line`.
    pub fn at(&self, line: Option<usize>) -> (r: bool)
        ensures
            r == self.at_spec(line),
    {
        match (self, line) {
            (Anchor::File, None) => true,
            (Anchor::Lines { start, end }, Some(l)) => *start <= l && l <= *end,
            _ => false,
        }
    }
}

/// The lines a drag covers, whichever way it went.
pub open spec fn drag_anchor(drag: Drag) -> Anchor {
    Anchor::Lines {
        start: if drag.start <= drag.end { drag.start } else { drag.end },
        end: if drag.start <= drag.end { drag.end } else { drag.start },
    }
}

impl File {
    /// Ends a drag over the "+" buttons of this file where the pointer is
    /// released: an empty comment on the dragged lines starts, unless the
    /// drag stayed on one line that a comment already stands at. Gives the
    /// last dragged line, where the comments open.
    pub fn finish_drag(&mut self, drag: Drag) -> (last: usize)
        ensures
            last == (if drag.start <= drag.end { drag.end } else { drag.start }),
            final(self).diff == old(self).diff,
            final(self).display_path == old(self).display_path,
            final(self).added_label == old(self).added_label,
            final(self).removed_label == old(self).removed_label,
            final(self).viewed == old(self).viewed,
            final(self).collapsed == old(self).collapsed,
            final(self).outdated == old(self).outdated,
            comment_views(final(self).comments@) == (if drag.start == drag.end && exists|i: int|
                0 <= i < old(self).comments@.len() && (#[trigger] old(self).comments@[i]).anchor.at_spec(
                    Some(drag.end),
                ) {
                comment_views(old(self).comments@)
            } else {
                comment_views(old(self).comments@).push(
                    CommentView { anchor: drag_anchor(drag), text: Seq::empty(), earlier: false },
                )
            }),
    {
        let anchor = drag.anchor();
        let last = if drag.start <= drag.end { drag.end } else { drag.start };
        let mut existing = false;
        if drag.start == drag.end {
            let mut i: usize = 0;
            while i < self.comments.len() && !existing
                invariant
                    i <= self.comments@.len(),
                    self.comments == old(self).comments,
                    existing == exists|j: int|
                        0 <= j < i && (#[trigger] self.comments@[j]).anchor.at_spec(Some(drag.end)),
                decreases self.comments@.len() - i,
            {
                if self.comments[i].anchor.at(Some(drag.end)) {
                    existing = true;
                }
                i += 1;
            }
            if !existing {
                assert(forall|j: int|
                    0 <= j < old(self).comments@.len() ==> !(#[trigger] old(self).comments@[j]).anchor.at_spec(
                        Some(drag.end),
                    ));
            }
        }
        if !existing {
            let comment = Comment { anchor, text: String::new(), earlier: false };
            let ghost before = comment_views(self.comments@);
            self.comments.push(comment);
            assert(comment_views(self.comments@) =~= before.push(comment@));
        }
        last
    }
}

} // verus!
