//! The rows of the diff view: each shown file as a header, the source
//! around its hunks as far as it was opened, and the lines of its
//! hunks, side by side or in one column.

use vstd::prelude::*;

use crate::diff::{all_lines, line_views, FileDiff, FileDiffView, HunkView, Kind, Line, LineView};
use crate::review::{Anchor, File};

verus! {

/// How many more source lines one click shows.
pub const EXPAND_STEP: usize = 20;

/// How much of the source between two hunks is shown: `before` lines from
/// the top of the gap and `after` lines from its bottom, out of `total`
/// once the source was read.
pub struct Context {
    pub total: Option<usize>,
    pub before: usize,
    pub after: usize,
}

impl Default for Context {
    fn default() -> (context: Self)
        ensures
            context.total is None,
            context.before == 0,
            context.after == 0,
    {
        Context { total: None, before: 0, after: 0 }
    }
}

/// What a click on the controls of a gap asks for.
#[derive(Debug, PartialEq, Eq, Structural, Clone, Copy, Hash)]
pub enum ContextAction {
    /// More lines at the bottom of the gap, just above the next hunk.
    Above,
    /// More lines at the top of the gap, just below the previous hunk.
    Below,
    /// More lines at both ends.
    Both,
    /// The whole gap.
    All,
    /// Nothing of the gap.
    Collapse,
}

/// The smaller of two counts.
pub open spec fn min(a: int, b: int) -> int {
    if a <= b {
        a
    } else {
        b
    }
}

impl Context {
    /// What is shown fits the gap: nothing before the source was read.
    pub open spec fn wf(&self) -> bool {
        self.before + self.after <= match self.total {
            Some(total) => total as int,
            None => 0,
        }
    }

    /// The lines of the gap not shown yet.
    pub open spec fn remaining(&self) -> Option<int> {
        match self.total {
            Some(total) => Some(total - self.before - self.after),
            None => None,
        }
    }

    /// What `before` and `after` become when `action` is applied to a gap
    /// of `count` lines.
    pub open spec fn expanded(&self, count: int, action: ContextAction) -> (int, int) {
        let before = self.before as int;
        let after = self.after as int;
        let step = EXPAND_STEP as int;
        match action {
            ContextAction::Collapse => (0, 0),
            ContextAction::All => (count, 0),
            ContextAction::Above => (before, min(after + step, count - before)),
            ContextAction::Below => (min(before + step, count - after), after),
            ContextAction::Both => {
                let grown = min(before + step, count - after);
                (grown, min(after + step, count - grown))
            },
        }
    }

    /// The source of the gap was read: it has `count` lines.
    pub fn loaded(&mut self, count: usize)
        ensures
            final(self).total == Some(count),
            final(self).before == old(self).before,
            final(self).after == old(self).after,
    {
        self.total = Some(count);
    }

    /// Applies `action` to a gap of `count` lines, of which no more are shown
    /// than there are.
    pub fn expand(&mut self, count: usize, action: ContextAction)
        requires
            old(self).before + old(self).after <= count,
        ensures
            (final(self).before as int, final(self).after as int) == old(self).expanded(count as int, action),
            final(self).before + final(self).after <= count,
            final(self).total == old(self).total,
    {
        let before = self.before;
        let after = self.after;
        let (b, a) = match action {
            ContextAction::Collapse => (0, 0),
            ContextAction::All => (count, 0),
            ContextAction::Above => (before, smaller(after.saturating_add(EXPAND_STEP), count - before)),
            ContextAction::Below => (smaller(before.saturating_add(EXPAND_STEP), count - after), after),
            ContextAction::Both => {
                let grown = smaller(before.saturating_add(EXPAND_STEP), count - after);
                (grown, smaller(after.saturating_add(EXPAND_STEP), count - grown))
            },
        };
        self.before = b;
        self.after = a;
    }

    /// What the expand control of gap `gap`, among `hunks` hunks, does:
    /// the whole gap when few lines remain, else more lines toward the
    /// hunks around it; nothing when the whole gap is shown.
    pub fn expand_action(&self, gap: usize, hunks: usize) -> (action: Option<ContextAction>)
        requires
            self.wf(),
        ensures
            self.remaining() == Some(0int) ==> action is None,
            self.remaining() != Some(0int) ==> action == Some(
                if self.remaining() matches Some(r) && r <= EXPAND_STEP {
                    ContextAction::All
                } else if gap == 0 {
                    ContextAction::Above
                } else if gap == hunks {
                    ContextAction::Below
                } else {
                    ContextAction::Both
                },
            ),
    {
        let remaining = match self.total {
            Some(total) => Some(total - self.before - self.after),
            None => None,
        };
        let small = match remaining {
            Some(count) => {
                if count == 0 {
                    return None;
                }
                count <= EXPAND_STEP
            },
            None => false,
        };
        if small {
            Some(ContextAction::All)
        } else if gap == 0 {
            Some(ContextAction::Above)
        } else if gap == hunks {
            Some(ContextAction::Below)
        } else {
            Some(ContextAction::Both)
        }
    }

    /// Whether the collapse control shows: some of the gap is open.
    pub fn collapsible(&self) -> (r: bool)
        ensures
            r == (self.before + self.after > 0),
    {
        self.before > 0 || self.after > 0
    }
}

/// The smaller of two counts.
fn smaller(a: usize, b: usize) -> (m: usize)
    ensures
        m == min(a as int, b as int),
{
    if a <= b {
        a
    } else {
        b
    }
}

// ---------------------------------------------------------------------------
// The rows of the view.

/// A line a row shows: a line of a hunk, with its index among all lines of
/// the file, or a source line of a gap.
#[derive(Debug, PartialEq, Eq, Structural, Clone, Copy, Hash)]
pub enum LineRef {
    Diff { hunk: usize, line: usize, flat: usize },
    Source { gap: usize, line: usize },
}

/// What a row of the view is.
#[derive(Debug, PartialEq, Eq, Structural, Clone, Copy, Hash)]
pub enum RowKind {
    /// The header of a file.
    Header,
    /// The bar before a hunk or in a gap: the hunk whose heading it shows,
    /// the gap whose controls it holds.
    Separator { heading: Option<usize>, context: Option<usize> },
    /// A line on the left, and on the right when side by side.
    Code { left: Option<LineRef>, right: Option<LineRef> },
    /// The note that a binary file has no diff.
    Binary,
    /// The space after a file.
    Gap,
    /// The note that nothing is shown.
    Empty,
}

#[derive(Debug, PartialEq, Eq, Structural, Clone, Copy, Hash)]
pub struct Row {
    pub file: usize,
    pub kind: RowKind,
}

/// The row of a line pair.
pub open spec fn code_row(file: int, left: Option<LineRef>, right: Option<LineRef>) -> Row {
    Row { file: file as usize, kind: RowKind::Code { left, right } }
}

/// The line `line` of hunk `hunk`, `flat` lines into the file.
pub open spec fn diff_ref(hunk: int, line: int, flat: int) -> LineRef {
    LineRef::Diff { hunk: hunk as usize, line: line as usize, flat: flat as usize }
}

/// The end of the run of lines of `kind` that starts at `from`.
pub open spec fn run_end(lines: Seq<LineView>, from: int, kind: Kind) -> int
    decreases lines.len() - from,
{
    if 0 <= from < lines.len() && lines[from].kind == kind {
        run_end(lines, from + 1, kind)
    } else {
        from
    }
}

/// The rows of the lines `ls..le` beside the lines `rs..re`: pairs while
/// both sides have lines, then the longer side alone. The right side is
/// empty unless the view is side by side.
pub open spec fn pair_rows(file: int, hunk: int, flat: int, ls: int, le: int, rs: int, re: int, split: bool) -> Seq<Row> {
    Seq::new(
        (if le - ls >= re - rs { le - ls } else { re - rs }) as nat,
        |o: int|
            code_row(
                file,
                if ls + o < le { Some(diff_ref(hunk, ls + o, flat + ls + o)) } else { None },
                if split && rs + o < re { Some(diff_ref(hunk, rs + o, flat + rs + o)) } else { None },
            ),
    )
}

/// Where the group of lines that starts at `start` ends: side by side, a
/// change is its deleted lines beside the added lines that follow them;
/// any other line stands alone.
pub open spec fn group_end(lines: Seq<LineView>, start: int, split: bool) -> int {
    if split && lines[start].kind != Kind::Context {
        run_end(lines, run_end(lines, start, Kind::Del), Kind::Add)
    } else {
        start + 1
    }
}

/// A run ends no sooner than it starts, and one of a kind that the line at
/// its start has ends after it.
pub proof fn lemma_run_end(lines: Seq<LineView>, from: int, kind: Kind)
    requires
        0 <= from <= lines.len(),
    ensures
        from <= run_end(lines, from, kind) <= lines.len(),
        from < lines.len() && lines[from].kind == kind ==> from < run_end(lines, from, kind),
        forall|i: int| from <= i < run_end(lines, from, kind) ==> lines[i].kind == kind,
        run_end(lines, from, kind) < lines.len() ==> lines[run_end(lines, from, kind)].kind != kind,
    decreases lines.len() - from,
{
    if from < lines.len() && lines[from].kind == kind {
        lemma_run_end(lines, from + 1, kind);
    }
}

/// A group holds at least its first line.
pub proof fn lemma_group_end(lines: Seq<LineView>, start: int, split: bool)
    requires
        0 <= start < lines.len(),
    ensures
        start < group_end(lines, start, split) <= lines.len(),
{
    lemma_run_end(lines, start, Kind::Del);
    lemma_run_end(lines, run_end(lines, start, Kind::Del), Kind::Add);
}

/// The rows of the lines of hunk `hunk` from `start` on.
pub open spec fn hunk_rows(file: int, hunk: int, lines: Seq<LineView>, flat: int, split: bool, start: int) -> Seq<Row>
    decreases lines.len() - start,
{
    if start < 0 || start >= lines.len() {
        Seq::empty()
    } else {
        let end = group_end(lines, start, split);
        proof {
            lemma_group_end(lines, start, split);
        }
        let group = if split && lines[start].kind != Kind::Context {
            let added = run_end(lines, start, Kind::Del);
            pair_rows(file, hunk, flat, start, added, added, end, split)
        } else {
            pair_rows(file, hunk, flat, start, end, start, end, split)
        };
        group + hunk_rows(file, hunk, lines, flat, split, end)
    }
}

/// The rows of the source lines `from..to` of gap `gap`.
pub open spec fn source_rows(file: int, gap: int, from: int, to: int) -> Seq<Row> {
    Seq::new(
        (to - from) as nat,
        |k: int|
            code_row(
                file,
                Some(LineRef::Source { gap: gap as usize, line: (from + k) as usize }),
                Some(LineRef::Source { gap: gap as usize, line: (from + k) as usize }),
            ),
    )
}

/// The source lines a gap has, as far as they were read.
pub open spec fn length(ctx: Context) -> int {
    match ctx.total {
        Some(total) => total as int,
        None => 0,
    }
}

/// The gap has controls: its source can be read and is not empty.
pub open spec fn has_controls(has_source: bool, ctx: Context) -> bool {
    has_source && ctx.total != Some(0usize)
}

/// The bar that holds the controls of a gap whose source can be read; it
/// shows the heading of the next hunk once nothing is open at the gap's
/// bottom.
pub open spec fn bar_rows(file: int, hunks: int, has_source: bool, ctx: Context, gap: int) -> Seq<Row> {
    if has_controls(has_source, ctx) {
        seq![
            Row {
                file: file as usize,
                kind: RowKind::Separator {
                    heading: if ctx.after == 0 && gap < hunks { Some(gap as usize) } else { None },
                    context: Some(gap as usize),
                },
            },
        ]
    } else {
        Seq::empty()
    }
}

/// The heading of the hunk after a gap, unless the gap's bar shows it or
/// the hunk follows the previous one without a line between them.
pub open spec fn heading_rows(file: int, has_source: bool, ctx: Context, gap: int) -> Seq<Row> {
    let len = length(ctx);
    if (!has_controls(has_source, ctx) || ctx.after > 0) && (gap == 0 || len == 0 || ctx.before + ctx.after < len) {
        seq![Row { file: file as usize, kind: RowKind::Separator { heading: Some(gap as usize), context: None } }]
    } else {
        Seq::empty()
    }
}

/// The rows of a gap: its top, its bar and its bottom.
pub open spec fn around_rows(file: int, hunks: int, has_source: bool, ctx: Context, gap: int) -> Seq<Row> {
    let len = length(ctx);
    source_rows(file, gap, 0, ctx.before as int) + bar_rows(file, hunks, has_source, ctx, gap) + source_rows(
        file,
        gap,
        len - ctx.after,
        len,
    )
}

/// The rows of the hunk after gap `gap`: its heading and its lines.
pub open spec fn hunk_part(
    file: int,
    has_source: bool,
    ctx: Context,
    gap: int,
    lines: Seq<LineView>,
    flat: int,
    split: bool,
) -> Seq<Row> {
    heading_rows(file, has_source, ctx, gap) + hunk_rows(file, gap, lines, flat, split, 0)
}

/// The rows of gap `gap` and of the hunk after it, if there is one: the
/// top of the gap, its bar, its bottom, the hunk's heading and the hunk's
/// lines.
#[verifier::opaque]
pub open spec fn gap_rows(
    file: int,
    hunks: Seq<HunkView>,
    has_source: bool,
    ctx: Context,
    gap: int,
    flat: int,
    split: bool,
) -> Seq<Row> {
    around_rows(file, hunks.len() as int, has_source, ctx, gap) + if gap < hunks.len() {
        hunk_part(file, has_source, ctx, gap, hunks[gap].lines, flat, split)
    } else {
        Seq::empty()
    }
}

/// The rows of the gaps before `k` and of their hunks.
pub open spec fn gaps_rows(
    file: int,
    hunks: Seq<HunkView>,
    has_source: bool,
    contexts: Seq<Context>,
    split: bool,
    k: int,
) -> Seq<Row>
    decreases k,
{
    if k <= 0 {
        Seq::empty()
    } else {
        gaps_rows(file, hunks, has_source, contexts, split, k - 1) + gap_rows(
            file,
            hunks,
            has_source,
            contexts[k - 1],
            k - 1,
            all_lines(hunks.take(k - 1)).len() as int,
            split,
        )
    }
}

/// The rows of a file: its header, unless collapsed its binary note and
/// its gaps and hunks, and the space after it; nothing when filtered out.
pub open spec fn file_rows(
    index: int,
    diff: FileDiffView,
    collapsed: bool,
    contexts: Seq<Context>,
    shown: bool,
    split: bool,
) -> Seq<Row> {
    if !shown {
        Seq::empty()
    } else {
        let body = if collapsed {
            Seq::empty()
        } else {
            (if diff.binary { seq![Row { file: index as usize, kind: RowKind::Binary }] } else { Seq::empty() })
                + gaps_rows(index, diff.hunks, diff.source is Some, contexts, split, diff.hunks.len() + 1int)
        };
        seq![Row { file: index as usize, kind: RowKind::Header }] + body + seq![
            Row { file: index as usize, kind: RowKind::Gap },
        ]
    }
}

/// What the view needs of a file of the review.
pub struct Shape {
    pub diff: FileDiffView,
    pub collapsed: bool,
}

pub open spec fn shapes(files: Seq<File>) -> Seq<Shape> {
    files.map_values(|f: File| Shape { diff: f.diff@, collapsed: f.collapsed })
}

/// The rows of the files before `k`.
pub open spec fn files_rows(
    files: Seq<Shape>,
    contexts: Seq<Seq<Context>>,
    shown: Seq<bool>,
    split: bool,
    k: int,
) -> Seq<Row>
    decreases k,
{
    if k <= 0 {
        Seq::empty()
    } else {
        files_rows(files, contexts, shown, split, k - 1) + file_rows(
            k - 1,
            files[k - 1].diff,
            files[k - 1].collapsed,
            contexts[k - 1],
            shown[k - 1],
            split,
        )
    }
}

/// The rows of the view: those of every file without the space after the
/// last one, or the note that nothing is shown.
pub open spec fn rows_spec(files: Seq<Shape>, contexts: Seq<Seq<Context>>, shown: Seq<bool>, split: bool) -> Seq<Row> {
    let all = files_rows(files, contexts, shown, split, files.len() as int);
    if all.len() == 0 {
        seq![Row { file: 0, kind: RowKind::Empty }]
    } else {
        all.drop_last()
    }
}

/// The contexts of a file: one per gap, each fitting its gap.
pub open spec fn contexts_fit(diff: FileDiffView, contexts: Seq<Context>) -> bool {
    &&& contexts.len() == diff.hunks.len() + 1
    &&& forall|g: int| 0 <= g < contexts.len() ==> (#[trigger] contexts[g]).wf()
}

/// Appends the rows of the lines `ls..le` beside the lines `rs..re`.
fn push_pairs(
    rows: &mut Vec<Row>,
    file: usize,
    hunk: usize,
    flat: usize,
    ls: usize,
    le: usize,
    rs: usize,
    re: usize,
    split: bool,
)
    requires
        ls <= le,
        rs <= re,
        flat + le <= usize::MAX,
        flat + re <= usize::MAX,
    ensures
        final(rows)@ == old(rows)@ + pair_rows(
            file as int,
            hunk as int,
            flat as int,
            ls as int,
            le as int,
            rs as int,
            re as int,
            split,
        ),
{
    let n = if le - ls >= re - rs { le - ls } else { re - rs };
    let ghost pairs = pair_rows(file as int, hunk as int, flat as int, ls as int, le as int, rs as int, re as int, split);
    let ghost start = rows@;
    let mut o: usize = 0;
    while o < n
        invariant
            o <= n,
            n == pairs.len(),
            ls <= le,
            rs <= re,
            flat + le <= usize::MAX,
            flat + re <= usize::MAX,
            n == (if le - ls >= re - rs { le - ls } else { re - rs }),
            pairs == pair_rows(file as int, hunk as int, flat as int, ls as int, le as int, rs as int, re as int, split),
            rows@ == start + pairs.take(o as int),
        decreases n - o,
    {
        let left = if o < le - ls {
            Some(LineRef::Diff { hunk, line: ls + o, flat: flat + ls + o })
        } else {
            None
        };
        let right = if split && o < re - rs {
            Some(LineRef::Diff { hunk, line: rs + o, flat: flat + rs + o })
        } else {
            None
        };
        rows.push(Row { file, kind: RowKind::Code { left, right } });
        assert(pairs[o as int] == Row { file, kind: RowKind::Code { left, right } });
        o += 1;
        assert(rows@ =~= start + pairs.take(o as int));
    }
    assert(pairs.take(o as int) =~= pairs);
}

/// The end of the run of lines of `kind` from `from`.
fn run_end_of(lines: &Vec<Line>, from: usize, kind: Kind) -> (end: usize)
    requires
        from <= lines@.len(),
    ensures
        end == run_end(line_views(lines@), from as int, kind),
{
    let ghost ls = line_views(lines@);
    let mut end = from;
    while end < lines.len() && lines[end].kind == kind
        invariant
            from <= end <= lines@.len(),
            ls == line_views(lines@),
            run_end(ls, from as int, kind) == run_end(ls, end as int, kind),
        decreases lines@.len() - end,
    {
        end += 1;
    }
    end
}

/// Appends the rows of the lines of hunk `hunk`, `flat` lines into its
/// file.
fn push_hunk_rows(rows: &mut Vec<Row>, file: usize, hunk: usize, lines: &Vec<Line>, flat: usize, split: bool)
    requires
        flat + lines@.len() <= usize::MAX,
    ensures
        final(rows)@ == old(rows)@ + hunk_rows(file as int, hunk as int, line_views(lines@), flat as int, split, 0),
{
    let ghost ls = line_views(lines@);
    let ghost start_rows = rows@;
    let mut line: usize = 0;
    while line < lines.len()
        invariant
            line <= lines@.len(),
            ls == line_views(lines@),
            flat + lines@.len() <= usize::MAX,
            start_rows + hunk_rows(file as int, hunk as int, ls, flat as int, split, 0) == rows@ + hunk_rows(
                file as int,
                hunk as int,
                ls,
                flat as int,
                split,
                line as int,
            ),
        decreases lines@.len() - line,
    {
        let start = line;
        let ghost before = rows@;
        proof {
            lemma_group_end(ls, start as int, split);
        }
        if split && lines[line].kind != Kind::Context {
            let added = run_end_of(lines, line, Kind::Del);
            proof {
                lemma_run_end(ls, start as int, Kind::Del);
                lemma_run_end(ls, added as int, Kind::Add);
            }
            let end = run_end_of(lines, added, Kind::Add);
            push_pairs(rows, file, hunk, flat, start, added, added, end, split);
            line = end;
        } else {
            push_pairs(rows, file, hunk, flat, start, start + 1, start, start + 1, split);
            line = start + 1;
        }
        assert(line as int == group_end(ls, start as int, split));
        assert(hunk_rows(file as int, hunk as int, ls, flat as int, split, start as int) == rows@.skip(before.len() as int)
            + hunk_rows(file as int, hunk as int, ls, flat as int, split, line as int));
        assert(before + hunk_rows(file as int, hunk as int, ls, flat as int, split, start as int) =~= rows@
            + hunk_rows(file as int, hunk as int, ls, flat as int, split, line as int));
    }
}

/// Appends the rows of the source lines `from..to` of gap `gap`.
fn push_source_rows(rows: &mut Vec<Row>, file: usize, gap: usize, from: usize, to: usize)
    requires
        from <= to,
    ensures
        final(rows)@ == old(rows)@ + source_rows(file as int, gap as int, from as int, to as int),
{
    let ghost all = source_rows(file as int, gap as int, from as int, to as int);
    let ghost start = rows@;
    let mut line = from;
    while line < to
        invariant
            from <= line <= to,
            all == source_rows(file as int, gap as int, from as int, to as int),
            rows@ == start + all.take(line - from),
        decreases to - line,
    {
        let source = Some(LineRef::Source { gap, line });
        rows.push(Row { file, kind: RowKind::Code { left: source, right: source } });
        assert(all[line - from] == Row { file, kind: RowKind::Code { left: source, right: source } });
        line += 1;
        assert(rows@ =~= start + all.take(line - from));
    }
    assert(all.take(to - from) =~= all);
}

/// Appends the rows of a gap: its top, its bar and its bottom.
fn push_around_rows(rows: &mut Vec<Row>, file: usize, hunks: usize, has_source: bool, ctx: &Context, gap: usize)
    requires
        ctx.wf(),
    ensures
        final(rows)@ == old(rows)@ + around_rows(file as int, hunks as int, has_source, *ctx, gap as int),
{
    let len = match ctx.total {
        Some(total) => total,
        None => 0,
    };
    let controls = has_source && !matches!(ctx.total, Some(0));
    push_source_rows(rows, file, gap, 0, ctx.before);
    let ghost a = rows@;
    if controls {
        let heading = if ctx.after == 0 && gap < hunks {
            Some(gap)
        } else {
            None
        };
        rows.push(Row { file, kind: RowKind::Separator { heading, context: Some(gap) } });
    }
    assert(rows@ =~= a + bar_rows(file as int, hunks as int, has_source, *ctx, gap as int));
    push_source_rows(rows, file, gap, len - ctx.after, len);
    assert(rows@ =~= old(rows)@ + around_rows(file as int, hunks as int, has_source, *ctx, gap as int));
}

/// Appends the rows of the hunk after gap `gap`: its heading and its
/// lines.
fn push_hunk_part(
    rows: &mut Vec<Row>,
    file: usize,
    has_source: bool,
    ctx: &Context,
    gap: usize,
    lines: &Vec<Line>,
    flat: usize,
    split: bool,
)
    requires
        ctx.wf(),
        flat + lines@.len() <= usize::MAX,
    ensures
        final(rows)@ == old(rows)@ + hunk_part(
            file as int,
            has_source,
            *ctx,
            gap as int,
            line_views(lines@),
            flat as int,
            split,
        ),
{
    let len = match ctx.total {
        Some(total) => total,
        None => 0,
    };
    let controls = has_source && !matches!(ctx.total, Some(0));
    if (!controls || ctx.after > 0) && (gap == 0 || len == 0 || ctx.before + ctx.after < len) {
        rows.push(Row { file, kind: RowKind::Separator { heading: Some(gap), context: None } });
    }
    assert(rows@ =~= old(rows)@ + heading_rows(file as int, has_source, *ctx, gap as int));
    push_hunk_rows(rows, file, gap, lines, flat, split);
    assert(rows@ =~= old(rows)@ + hunk_part(
        file as int,
        has_source,
        *ctx,
        gap as int,
        line_views(lines@),
        flat as int,
        split,
    ));
}

/// Appends the rows of gap `gap` of `diff` and of the hunk after it.
fn push_gap_rows(rows: &mut Vec<Row>, file: usize, diff: &FileDiff, ctx: &Context, gap: usize, flat: usize, split: bool)
    requires
        ctx.wf(),
        gap <= diff.hunks@.len(),
        gap < diff.hunks@.len() ==> flat + diff.hunks@[gap as int].lines@.len() <= usize::MAX,
    ensures
        final(rows)@ == old(rows)@ + gap_rows(
            file as int,
            diff@.hunks,
            diff@.source is Some,
            *ctx,
            gap as int,
            flat as int,
            split,
        ),
{
    let ghost hunks = diff@.hunks;
    let has_source = diff.source.is_some();
    push_around_rows(rows, file, diff.hunks.len(), has_source, ctx, gap);
    let ghost around = rows@;
    if gap < diff.hunks.len() {
        let lines = &diff.hunks[gap].lines;
        assert(hunks[gap as int].lines == line_views(lines@));
        push_hunk_part(rows, file, has_source, ctx, gap, lines, flat, split);
    }
    reveal(gap_rows);
    assert(rows@ =~= old(rows)@ + gap_rows(file as int, hunks, has_source, *ctx, gap as int, flat as int, split));
}

/// The lines of the first hunks are no more than those of all hunks.
proof fn lemma_all_lines_prefix(hunks: Seq<HunkView>, k: int)
    requires
        0 <= k <= hunks.len(),
    ensures
        all_lines(hunks.take(k)).len() <= all_lines(hunks).len(),
    decreases hunks.len(),
{
    if k == hunks.len() {
        assert(hunks.take(k) =~= hunks);
    } else {
        assert(hunks.drop_last().take(k) =~= hunks.take(k));
        lemma_all_lines_prefix(hunks.drop_last(), k);
    }
}

/// Appends the rows of file `index` of the review.
fn push_file_rows(rows: &mut Vec<Row>, index: usize, file: &File, contexts: &Vec<Context>, shown: bool, split: bool)
    requires
        contexts_fit(file.diff@, contexts@),
        all_lines(file.diff@.hunks).len() <= usize::MAX,
    ensures
        final(rows)@ == old(rows)@ + file_rows(index as int, file.diff@, file.collapsed, contexts@, shown, split),
{
    if !shown {
        assert(rows@ =~= old(rows)@ + file_rows(index as int, file.diff@, file.collapsed, contexts@, shown, split));
        return;
    }
    rows.push(Row { file: index, kind: RowKind::Header });
    let ghost headed = rows@;
    if !file.collapsed {
        let diff = &file.diff;
        if diff.binary {
            rows.push(Row { file: index, kind: RowKind::Binary });
        }
        let ghost noted = rows@;
        let ghost hunks = diff@.hunks;
        let mut flat: usize = 0;
        let mut gap: usize = 0;
        assert(hunks.take(0) =~= Seq::<HunkView>::empty());
        while gap <= diff.hunks.len()
            invariant
                gap <= diff.hunks@.len() + 1,
                hunks == diff@.hunks,
                contexts_fit(diff@, contexts@),
                all_lines(hunks).len() <= usize::MAX,
                gap <= diff.hunks@.len() ==> flat == all_lines(hunks.take(gap as int)).len(),
                rows@ == noted + gaps_rows(index as int, hunks, diff@.source is Some, contexts@, split, gap as int),
            decreases diff.hunks@.len() + 1 - gap,
        {
            proof {
                if gap < diff.hunks.len() {
                    assert(hunks.take(gap + 1).drop_last() =~= hunks.take(gap as int));
                    lemma_all_lines_prefix(hunks, gap + 1);
                }
            }
            assert(contexts@.len() == contexts.len());
            push_gap_rows(rows, index, diff, &contexts[gap], gap, flat, split);
            if gap < diff.hunks.len() {
                flat = flat + diff.hunks[gap].lines.len();
            }
            gap += 1;
        }
        assert(rows@ =~= headed + (if diff@.binary {
            seq![Row { file: index, kind: RowKind::Binary }]
        } else {
            Seq::empty()
        }) + gaps_rows(index as int, hunks, diff@.source is Some, contexts@, split, hunks.len() + 1int));
    }
    rows.push(Row { file: index, kind: RowKind::Gap });
    assert(rows@ =~= old(rows)@ + file_rows(index as int, file.diff@, file.collapsed, contexts@, shown, split));
}

/// The contexts of each file.
pub open spec fn context_views(contexts: Seq<Vec<Context>>) -> Seq<Seq<Context>> {
    contexts.map_values(|c: Vec<Context>| c@)
}

/// The rows of the view: each file the filter shows, in order, as its
/// header, its gaps as far as they are open, its hunks side by side or in
/// one column, and the space before the next file; the note that nothing
/// is shown when no file is.
pub fn rows(files: &[File], contexts: &[Vec<Context>], shown: &[bool], split: bool) -> (r: Vec<Row>)
    requires
        contexts@.len() == files@.len(),
        shown@.len() == files@.len(),
        forall|i: int|
            0 <= i < files@.len() ==> contexts_fit(#[trigger] files@[i].diff@, contexts@[i]@) && all_lines(
                files@[i].diff@.hunks,
            ).len() <= usize::MAX,
    ensures
        r@ == rows_spec(shapes(files@), context_views(contexts@), shown@, split),
{
    let ghost fs = shapes(files@);
    let ghost cs = context_views(contexts@);
    let mut all: Vec<Row> = Vec::new();
    let mut i: usize = 0;
    while i < files.len()
        invariant
            i <= files@.len(),
            contexts@.len() == files@.len(),
            shown@.len() == files@.len(),
            fs == shapes(files@),
            cs == context_views(contexts@),
            forall|i: int|
                0 <= i < files@.len() ==> contexts_fit(#[trigger] files@[i].diff@, contexts@[i]@) && all_lines(
                    files@[i].diff@.hunks,
                ).len() <= usize::MAX,
            all@ == files_rows(fs, cs, shown@, split, i as int),
        decreases files@.len() - i,
    {
        assert(contexts_fit(files@[i as int].diff@, contexts@[i as int]@));
        push_file_rows(&mut all, i, &files[i], &contexts[i], shown[i], split);
        assert(fs[i as int].diff == files@[i as int].diff@);
        assert(cs[i as int] == contexts@[i as int]@);
        i += 1;
    }
    if all.len() == 0 {
        all.push(Row { file: 0, kind: RowKind::Empty });
        assert(all@ =~= seq![Row { file: 0, kind: RowKind::Empty }]);
    } else {
        all.pop();
    }
    all
}

/// The files before `k` have rows exactly when one of them is shown.
proof fn lemma_files_rows_empty(files: Seq<Shape>, contexts: Seq<Seq<Context>>, shown: Seq<bool>, split: bool, k: int)
    requires
        0 <= k <= files.len(),
        shown.len() == files.len(),
    ensures
        (files_rows(files, contexts, shown, split, k).len() == 0) == (forall|i: int| 0 <= i < k ==> !shown[i]),
    decreases k,
{
    if k > 0 {
        lemma_files_rows_empty(files, contexts, shown, split, k - 1);
        if shown[k - 1] {
            assert(file_rows(k - 1, files[k - 1].diff, files[k - 1].collapsed, contexts[k - 1], true, split).len() > 0);
        }
    }
}

/// The view notes that nothing is shown exactly when the filter shows no
/// file; otherwise it starts with the header of the first shown file.
pub proof fn empty_view_law(files: Seq<Shape>, contexts: Seq<Seq<Context>>, shown: Seq<bool>, split: bool)
    requires
        shown.len() == files.len(),
    ensures
        (rows_spec(files, contexts, shown, split) == seq![Row { file: 0, kind: RowKind::Empty }]) == (forall|i: int|
            0 <= i < files.len() ==> !shown[i]),
{
    lemma_files_rows_empty(files, contexts, shown, split, files.len() as int);
    let all = files_rows(files, contexts, shown, split, files.len() as int);
    if all.len() > 0 {
        lemma_no_empty_row(files, contexts, shown, split, files.len() as int);
        let r = rows_spec(files, contexts, shown, split);
        assert(r == all.drop_last());
        if r == seq![Row { file: 0, kind: RowKind::Empty }] {
            assert(r.len() == 1);
            assert(all.drop_last()[0] == all[0]);
            assert(all[0].kind != RowKind::Empty);
        }
    }
}

/// No file row is the note that nothing is shown.
proof fn lemma_no_empty_row(files: Seq<Shape>, contexts: Seq<Seq<Context>>, shown: Seq<bool>, split: bool, k: int)
    requires
        0 <= k <= files.len(),
    ensures
        forall|j: int|
            0 <= j < files_rows(files, contexts, shown, split, k).len() ==> (#[trigger] files_rows(
                files,
                contexts,
                shown,
                split,
                k,
            )[j]).kind != RowKind::Empty,
    decreases k,
{
    if k > 0 {
        lemma_no_empty_row(files, contexts, shown, split, k - 1);
        let d = files[k - 1].diff;
        lemma_no_empty_in_gaps(k - 1, d.hunks, d.source is Some, contexts[k - 1], split, d.hunks.len() + 1int);
        let before = files_rows(files, contexts, shown, split, k - 1);
        let f = file_rows(k - 1, d, files[k - 1].collapsed, contexts[k - 1], shown[k - 1], split);
        assert forall|j: int| 0 <= j < (before + f).len() implies (#[trigger] (before + f)[j]).kind != RowKind::Empty by {
            if j >= before.len() {
                assert((before + f)[j] == f[j - before.len()]);
            }
        }
    }
}

/// No row of the gaps before `k` is the note that nothing is shown.
proof fn lemma_no_empty_in_gaps(
    file: int,
    hunks: Seq<HunkView>,
    has_source: bool,
    contexts: Seq<Context>,
    split: bool,
    k: int,
)
    ensures
        forall|j: int|
            0 <= j < gaps_rows(file, hunks, has_source, contexts, split, k).len() ==> (#[trigger] gaps_rows(
                file,
                hunks,
                has_source,
                contexts,
                split,
                k,
            )[j]).kind != RowKind::Empty,
    decreases k,
{
    if k > 0 {
        lemma_no_empty_in_gaps(file, hunks, has_source, contexts, split, k - 1);
        let flat = all_lines(hunks.take(k - 1)).len() as int;
        let g = gap_rows(file, hunks, has_source, contexts[k - 1], k - 1, flat, split);
        reveal(gap_rows);
        if k - 1 < hunks.len() {
            lemma_no_empty_in_hunk(file, k - 1, hunks[k - 1].lines, flat, split, 0);
        }
        let before = gaps_rows(file, hunks, has_source, contexts, split, k - 1);
        assert forall|j: int| 0 <= j < (before + g).len() implies (#[trigger] (before + g)[j]).kind != RowKind::Empty by {
            if j >= before.len() {
                assert((before + g)[j] == g[j - before.len()]);
            }
        }
    }
}

/// No row of a hunk is the note that nothing is shown.
proof fn lemma_no_empty_in_hunk(file: int, hunk: int, lines: Seq<LineView>, flat: int, split: bool, start: int)
    ensures
        forall|j: int|
            0 <= j < hunk_rows(file, hunk, lines, flat, split, start).len() ==> (#[trigger] hunk_rows(
                file,
                hunk,
                lines,
                flat,
                split,
                start,
            )[j]).kind != RowKind::Empty,
    decreases lines.len() - start,
{
    if 0 <= start < lines.len() {
        lemma_group_end(lines, start, split);
        lemma_no_empty_in_hunk(file, hunk, lines, flat, split, group_end(lines, start, split));
    }
}

/// The row shows where `anchor` points in file `file`: the file's header
/// for the whole file, else a row with the last line of the run on either
/// side.
pub open spec fn points_at(row: Row, file: usize, anchor: Anchor) -> bool {
    row.file == file && match anchor {
        Anchor::File => row.kind == RowKind::Header,
        Anchor::Lines { end, .. } => match row.kind {
            RowKind::Code { left, right } => (left matches Some(LineRef::Diff { flat, .. }) && flat == end) || (
            right matches Some(LineRef::Diff { flat, .. }) && flat == end),
            _ => false,
        },
    }
}

/// Whether a line of a row is the line of the diff at `flat`.
fn is_flat(line: Option<LineRef>, flat: usize) -> (r: bool)
    ensures
        r == (line matches Some(LineRef::Diff { flat: f, .. }) && f == flat),
{
    match line {
        Some(LineRef::Diff { flat: f, .. }) => f == flat,
        _ => false,
    }
}

/// The first row that shows where a comment points, to scroll to.
pub fn target_row(rows: &[Row], file: usize, anchor: Anchor) -> (r: Option<usize>)
    ensures
        r matches Some(i) ==> i < rows@.len() && points_at(rows@[i as int], file, anchor) && forall|j: int|
            0 <= j < i ==> !points_at(#[trigger] rows@[j], file, anchor),
        r is None ==> forall|j: int| 0 <= j < rows@.len() ==> !points_at(#[trigger] rows@[j], file, anchor),
{
    let mut i: usize = 0;
    while i < rows.len()
        invariant
            i <= rows@.len(),
            forall|j: int| 0 <= j < i ==> !points_at(#[trigger] rows@[j], file, anchor),
        decreases rows@.len() - i,
    {
        let row = rows[i];
        let found = row.file == file && match anchor {
            Anchor::File => row.kind == RowKind::Header,
            Anchor::Lines { end, .. } => match row.kind {
                RowKind::Code { left, right } => is_flat(left, end) || is_flat(right, end),
                _ => false,
            },
        };
        if found {
            return Some(i);
        }
        i += 1;
    }
    None
}

// ---------------------------------------------------------------------------
// What the rows point at.

/// The lines of the first hunks begin the lines of all hunks.
proof fn lemma_all_lines_take(hunks: Seq<HunkView>, k: int)
    requires
        0 <= k <= hunks.len(),
    ensures
        all_lines(hunks.take(k)).len() <= all_lines(hunks).len(),
        all_lines(hunks).take(all_lines(hunks.take(k)).len() as int) == all_lines(hunks.take(k)),
    decreases hunks.len(),
{
    if k == hunks.len() {
        assert(hunks.take(k) =~= hunks);
        assert(all_lines(hunks).take(all_lines(hunks).len() as int) =~= all_lines(hunks));
    } else {
        assert(hunks.drop_last().take(k) =~= hunks.take(k));
        lemma_all_lines_take(hunks.drop_last(), k);
        let a = all_lines(hunks.drop_last());
        assert(all_lines(hunks) == a + hunks.last().lines);
        assert(all_lines(hunks).take(all_lines(hunks.take(k)).len() as int) =~= a.take(
            all_lines(hunks.take(k)).len() as int,
        ));
    }
}

/// The lines of hunk `h` stand in the lines of all hunks right after those
/// of the hunks before it.
proof fn lemma_all_lines_at(hunks: Seq<HunkView>, h: int, line: int)
    requires
        0 <= h < hunks.len(),
        0 <= line < hunks[h].lines.len(),
    ensures
        all_lines(hunks.take(h)).len() + line < all_lines(hunks).len(),
        all_lines(hunks)[all_lines(hunks.take(h)).len() + line] == hunks[h].lines[line],
{
    lemma_all_lines_take(hunks, h + 1);
    assert(hunks.take(h + 1).drop_last() =~= hunks.take(h));
    let before = all_lines(hunks.take(h));
    assert(all_lines(hunks.take(h + 1)) == before + hunks[h].lines);
    let i = before.len() + line;
    assert(all_lines(hunks)[i] == all_lines(hunks).take(all_lines(hunks.take(h + 1)).len() as int)[i]);
}

/// The reference points at a line of the hunks, and its `flat` index is
/// that line's place among the lines of all hunks: the lines of the hunks
/// before it, then its place in its hunk.
pub open spec fn ref_fits(hunks: Seq<HunkView>, r: LineRef) -> bool {
    match r {
        LineRef::Diff { hunk, line, flat } => {
            &&& hunk < hunks.len()
            &&& line < hunks[hunk as int].lines.len()
            &&& flat == all_lines(hunks.take(hunk as int)).len() + line
            &&& flat < all_lines(hunks).len()
            &&& all_lines(hunks)[flat as int] == hunks[hunk as int].lines[line as int]
        },
        LineRef::Source { .. } => true,
    }
}

/// The side shows a context line of the hunks.
pub open spec fn shows_context(hunks: Seq<HunkView>, side: Option<LineRef>) -> bool {
    side matches Some(LineRef::Diff { hunk, line, .. }) && hunks[hunk as int].lines[line as int].kind == Kind::Context
}

/// The sides of a row of lines: each points where it says, and side by
/// side a context line stands on both sides at once.
pub open spec fn row_sides_fit(hunks: Seq<HunkView>, split: bool, left: Option<LineRef>, right: Option<LineRef>) -> bool {
    &&& (left matches Some(r) ==> ref_fits(hunks, r))
    &&& (right matches Some(r) ==> ref_fits(hunks, r))
    &&& (split && shows_context(hunks, left) ==> right == left)
    &&& (split && shows_context(hunks, right) ==> left == right)
    &&& (!split ==> right is None || right matches Some(LineRef::Source { .. }))
}

/// A row of lines of file `file` whose sides fit the file's hunks.
pub open spec fn row_fits(hunks: Seq<HunkView>, file: int, split: bool, row: Row) -> bool {
    row.file == file && (row.kind matches RowKind::Code { left, right } ==> row_sides_fit(hunks, split, left, right))
}

/// The hunks and their lines can be counted in a `usize`.
pub open spec fn hunks_fit(hunks: Seq<HunkView>) -> bool {
    hunks.len() <= usize::MAX && all_lines(hunks).len() <= usize::MAX
}

/// The rows of the lines of a hunk fit the file's hunks.
proof fn lemma_hunk_rows_fit(file: int, hunks: Seq<HunkView>, h: int, split: bool, start: int)
    requires
        0 <= file <= usize::MAX,
        0 <= h < hunks.len(),
        hunks_fit(hunks),
        0 <= start,
    ensures
        forall|j: int|
            0 <= j < hunk_rows(file, h, hunks[h].lines, all_lines(hunks.take(h)).len() as int, split, start).len()
                ==> row_fits(
                hunks,
                file,
                split,
                #[trigger] hunk_rows(file, h, hunks[h].lines, all_lines(hunks.take(h)).len() as int, split, start)[j],
            ),
    decreases hunks[h].lines.len() - start,
{
    let lines = hunks[h].lines;
    let flat = all_lines(hunks.take(h)).len() as int;
    if start < lines.len() {
        let end = group_end(lines, start, split);
        lemma_group_end(lines, start, split);
        lemma_hunk_rows_fit(file, hunks, h, split, end);
        let added = run_end(lines, start, Kind::Del);
        lemma_run_end(lines, start, Kind::Del);
        lemma_run_end(lines, added, Kind::Add);
        let (ls, le, rs, re) = if split && lines[start].kind != Kind::Context {
            (start, added, added, end)
        } else {
            (start, end, start, end)
        };
        let group = pair_rows(file, h, flat, ls, le, rs, re, split);
        assert forall|o: int| 0 <= o < group.len() implies row_fits(hunks, file, split, #[trigger] group[o]) by {
            if ls + o < le {
                lemma_all_lines_at(hunks, h, ls + o);
            }
            if rs + o < re {
                lemma_all_lines_at(hunks, h, rs + o);
            }
        }
        let rest = hunk_rows(file, h, lines, flat, split, end);
        assert(hunk_rows(file, h, lines, flat, split, start) == group + rest);
        assert forall|j: int| 0 <= j < (group + rest).len() implies row_fits(hunks, file, split, #[trigger] (group
            + rest)[j]) by {
            if j >= group.len() {
                assert((group + rest)[j] == rest[j - group.len()]);
            }
        }
    }
}

/// The rows of the gaps before `k` and of their hunks fit the file's hunks.
proof fn lemma_gaps_rows_fit(file: int, hunks: Seq<HunkView>, has_source: bool, contexts: Seq<Context>, split: bool, k: int)
    requires
        0 <= file <= usize::MAX,
        hunks_fit(hunks),
        k <= hunks.len() + 1,
    ensures
        forall|j: int|
            0 <= j < gaps_rows(file, hunks, has_source, contexts, split, k).len() ==> row_fits(
                hunks,
                file,
                split,
                #[trigger] gaps_rows(file, hunks, has_source, contexts, split, k)[j],
            ),
    decreases k,
{
    if k > 0 {
        lemma_gaps_rows_fit(file, hunks, has_source, contexts, split, k - 1);
        let flat = all_lines(hunks.take(k - 1)).len() as int;
        let ctx = contexts[k - 1];
        let g = gap_rows(file, hunks, has_source, ctx, k - 1, flat, split);
        reveal(gap_rows);
        let around = around_rows(file, hunks.len() as int, has_source, ctx, k - 1);
        let len = length(ctx);
        let top = source_rows(file, k - 1, 0, ctx.before as int);
        let bar = bar_rows(file, hunks.len() as int, has_source, ctx, k - 1);
        let bottom = source_rows(file, k - 1, len - ctx.after, len);
        assert forall|j: int| 0 <= j < around.len() implies row_fits(hunks, file, split, #[trigger] around[j]) by {
            if j < top.len() {
                assert(around[j] == top[j]);
            } else if j < top.len() + bar.len() {
                assert(around[j] == bar[j - top.len()]);
            } else {
                assert(around[j] == bottom[j - top.len() - bar.len()]);
            }
        }
        let tail = if k - 1 < hunks.len() {
            hunk_part(file, has_source, ctx, k - 1, hunks[k - 1].lines, flat, split)
        } else {
            Seq::empty()
        };
        if k - 1 < hunks.len() {
            lemma_hunk_rows_fit(file, hunks, k - 1, split, 0);
            let head = heading_rows(file, has_source, ctx, k - 1);
            let body = hunk_rows(file, k - 1, hunks[k - 1].lines, flat, split, 0);
            assert forall|j: int| 0 <= j < tail.len() implies row_fits(hunks, file, split, #[trigger] tail[j]) by {
                if j >= head.len() {
                    assert(tail[j] == body[j - head.len()]);
                }
            }
        }
        assert(g == around + tail);
        let before = gaps_rows(file, hunks, has_source, contexts, split, k - 1);
        assert forall|j: int| 0 <= j < (before + g).len() implies row_fits(hunks, file, split, #[trigger] (before
            + g)[j]) by {
            if j >= before.len() {
                let i = j - before.len();
                assert((before + g)[j] == g[i]);
                if i >= around.len() {
                    assert(g[i] == tail[i - around.len()]);
                } else {
                    assert(g[i] == around[i]);
                }
            }
        }
    }
}

/// A row of the view fits the hunks of the file it belongs to.
pub open spec fn view_row_fits(files: Seq<Shape>, split: bool, row: Row) -> bool {
    row.kind matches RowKind::Code { .. } ==> row.file < files.len() && row_fits(
        files[row.file as int].diff.hunks,
        row.file as int,
        split,
        row,
    )
}

/// The rows of the files before `k` fit their files.
proof fn lemma_files_rows_fit(files: Seq<Shape>, contexts: Seq<Seq<Context>>, shown: Seq<bool>, split: bool, k: int)
    requires
        0 <= k <= files.len(),
        files.len() <= usize::MAX,
        forall|i: int| 0 <= i < files.len() ==> hunks_fit(#[trigger] files[i].diff.hunks),
    ensures
        forall|j: int|
            0 <= j < files_rows(files, contexts, shown, split, k).len() ==> view_row_fits(
                files,
                split,
                #[trigger] files_rows(files, contexts, shown, split, k)[j],
            ),
    decreases k,
{
    if k > 0 {
        lemma_files_rows_fit(files, contexts, shown, split, k - 1);
        let d = files[k - 1].diff;
        assert(hunks_fit(files[k - 1].diff.hunks));
        lemma_gaps_rows_fit(k - 1, d.hunks, d.source is Some, contexts[k - 1], split, d.hunks.len() + 1int);
        let before = files_rows(files, contexts, shown, split, k - 1);
        let f = file_rows(k - 1, d, files[k - 1].collapsed, contexts[k - 1], shown[k - 1], split);
        let gaps = gaps_rows(k - 1, d.hunks, d.source is Some, contexts[k - 1], split, d.hunks.len() + 1int);
        assert forall|i: int| 0 <= i < f.len() implies view_row_fits(files, split, #[trigger] f[i]) by {
            if shown[k - 1] && !files[k - 1].collapsed {
                let note = if d.binary { seq![Row { file: (k - 1) as usize, kind: RowKind::Binary }] } else { Seq::empty() };
                let body = note + gaps;
                assert(f == seq![Row { file: (k - 1) as usize, kind: RowKind::Header }] + body + seq![
                    Row { file: (k - 1) as usize, kind: RowKind::Gap },
                ]);
                if 1 <= i < 1 + body.len() {
                    assert(f[i] == body[i - 1]);
                    if i - 1 >= note.len() {
                        assert(body[i - 1] == gaps[i - 1 - note.len()]);
                    }
                }
            }
        }
        assert forall|j: int| 0 <= j < (before + f).len() implies view_row_fits(files, split, #[trigger] (before
            + f)[j]) by {
            if j >= before.len() {
                assert((before + f)[j] == f[j - before.len()]);
            }
        }
    }
}

/// Every line a row of the view shows is where the row says: a line of a
/// hunk of the row's file, whose `flat` index is its place among the
/// lines of all the file's hunks, the lines of the earlier hunks first.
/// Side by side, a context line stands on both sides of its row; in one
/// column, the right side shows no line of a hunk.
pub proof fn line_refs_law(files: Seq<Shape>, contexts: Seq<Seq<Context>>, shown: Seq<bool>, split: bool)
    requires
        files.len() <= usize::MAX,
        forall|i: int| 0 <= i < files.len() ==> hunks_fit(#[trigger] files[i].diff.hunks),
    ensures
        forall|j: int|
            0 <= j < rows_spec(files, contexts, shown, split).len() ==> view_row_fits(
                files,
                split,
                #[trigger] rows_spec(files, contexts, shown, split)[j],
            ),
{
    lemma_files_rows_fit(files, contexts, shown, split, files.len() as int);
    let all = files_rows(files, contexts, shown, split, files.len() as int);
    let r = rows_spec(files, contexts, shown, split);
    if all.len() > 0 {
        assert forall|j: int| 0 <= j < r.len() implies view_row_fits(files, split, #[trigger] r[j]) by {
            assert(r[j] == all[j]);
        }
    }
}

/// The row shows the line `r` of file `file`, on one side or both.
pub open spec fn row_shows(row: Row, file: int, r: LineRef) -> bool {
    &&& row.file == file
    &&& row.kind matches RowKind::Code { left, right }
    &&& (left == Some(r) || right == Some(r))
}

/// Some row shows the line `r` of file `file`.
pub open spec fn rows_show(rows: Seq<Row>, file: int, r: LineRef) -> bool {
    exists|j: int| 0 <= j < rows.len() && #[trigger] row_shows(rows[j], file, r)
}

/// Rows that some rows show stay shown among more rows around them.
proof fn lemma_rows_show_within(a: Seq<Row>, b: Seq<Row>, c: Seq<Row>, file: int, r: LineRef)
    requires
        rows_show(b, file, r),
    ensures
        rows_show(a + b + c, file, r),
{
    let j = choose|j: int| 0 <= j < b.len() && #[trigger] row_shows(b[j], file, r);
    assert((a + b + c)[a.len() + j] == b[j]);
    assert(row_shows((a + b + c)[a.len() + j], file, r));
}

/// Every line of a hunk from `start` on has a row.
proof fn lemma_hunk_rows_show(file: int, h: int, lines: Seq<LineView>, flat: int, split: bool, start: int, l: int)
    requires
        0 <= file <= usize::MAX,
        0 <= start <= l < lines.len(),
    ensures
        rows_show(hunk_rows(file, h, lines, flat, split, start), file, diff_ref(h, l, flat + l)),
    decreases lines.len() - start,
{
    let end = group_end(lines, start, split);
    lemma_group_end(lines, start, split);
    let added = run_end(lines, start, Kind::Del);
    lemma_run_end(lines, start, Kind::Del);
    lemma_run_end(lines, added, Kind::Add);
    let (ls, le, rs, re) = if split && lines[start].kind != Kind::Context {
        (start, added, added, end)
    } else {
        (start, end, start, end)
    };
    let group = pair_rows(file, h, flat, ls, le, rs, re, split);
    let rest = hunk_rows(file, h, lines, flat, split, end);
    assert(hunk_rows(file, h, lines, flat, split, start) == group + rest);
    let r = diff_ref(h, l, flat + l);
    if l < end {
        if l < le {
            let o = l - ls;
            assert(flat + ls + o == flat + l);
            assert(row_shows(group[o], file, r));
        } else {
            let o = l - rs;
            assert(flat + rs + o == flat + l);
            assert(row_shows(group[o], file, r));
        }
        lemma_rows_show_within(Seq::empty(), group, rest, file, r);
        assert(Seq::<Row>::empty() + group + rest =~= group + rest);
    } else {
        lemma_hunk_rows_show(file, h, lines, flat, split, end, l);
        lemma_rows_show_within(group, rest, Seq::empty(), file, r);
        assert(group + rest + Seq::<Row>::empty() =~= group + rest);
    }
}

/// Every line of the hunks before gap `k` has a row among the gaps' rows.
proof fn lemma_gaps_rows_show(
    file: int,
    hunks: Seq<HunkView>,
    has_source: bool,
    contexts: Seq<Context>,
    split: bool,
    k: int,
    h: int,
    l: int,
)
    requires
        0 <= file <= usize::MAX,
        0 <= h < hunks.len(),
        h < k <= hunks.len() + 1,
        0 <= l < hunks[h].lines.len(),
    ensures
        rows_show(
            gaps_rows(file, hunks, has_source, contexts, split, k),
            file,
            diff_ref(h, l, all_lines(hunks.take(h)).len() + l),
        ),
    decreases k,
{
    let r = diff_ref(h, l, all_lines(hunks.take(h)).len() + l);
    let before = gaps_rows(file, hunks, has_source, contexts, split, k - 1);
    let flat = all_lines(hunks.take(k - 1)).len() as int;
    let ctx = contexts[k - 1];
    let g = gap_rows(file, hunks, has_source, ctx, k - 1, flat, split);
    assert(gaps_rows(file, hunks, has_source, contexts, split, k) == before + g);
    if h < k - 1 {
        lemma_gaps_rows_show(file, hunks, has_source, contexts, split, k - 1, h, l);
        lemma_rows_show_within(Seq::empty(), before, g, file, r);
        assert(Seq::<Row>::empty() + before + g =~= before + g);
    } else {
        reveal(gap_rows);
        let around = around_rows(file, hunks.len() as int, has_source, ctx, k - 1);
        let head = heading_rows(file, has_source, ctx, k - 1);
        let body = hunk_rows(file, h, hunks[h].lines, flat, split, 0);
        lemma_hunk_rows_show(file, h, hunks[h].lines, flat, split, 0, l);
        assert(g == around + (head + body));
        lemma_rows_show_within(before + around + head, body, Seq::empty(), file, r);
        assert(before + around + head + body + Seq::<Row>::empty() =~= before + g);
    }
}

/// Every line of the hunks of a file that is shown and not collapsed has
/// a row among the file's rows.
proof fn lemma_files_rows_show(
    files: Seq<Shape>,
    contexts: Seq<Seq<Context>>,
    shown: Seq<bool>,
    split: bool,
    k: int,
    i: int,
    h: int,
    l: int,
)
    requires
        0 <= i < k <= files.len(),
        files.len() <= usize::MAX,
        shown[i],
        !files[i].collapsed,
        0 <= h < files[i].diff.hunks.len(),
        0 <= l < files[i].diff.hunks[h].lines.len(),
    ensures
        rows_show(
            files_rows(files, contexts, shown, split, k),
            i,
            diff_ref(h, l, all_lines(files[i].diff.hunks.take(h)).len() + l),
        ),
    decreases k,
{
    let r = diff_ref(h, l, all_lines(files[i].diff.hunks.take(h)).len() + l);
    let before = files_rows(files, contexts, shown, split, k - 1);
    let d = files[k - 1].diff;
    let f = file_rows(k - 1, d, files[k - 1].collapsed, contexts[k - 1], shown[k - 1], split);
    if i < k - 1 {
        lemma_files_rows_show(files, contexts, shown, split, k - 1, i, h, l);
        lemma_rows_show_within(Seq::empty(), before, f, i, r);
        assert(Seq::<Row>::empty() + before + f =~= before + f);
    } else {
        let gaps = gaps_rows(k - 1, d.hunks, d.source is Some, contexts[k - 1], split, d.hunks.len() + 1int);
        lemma_gaps_rows_show(k - 1, d.hunks, d.source is Some, contexts[k - 1], split, d.hunks.len() + 1int, h, l);
        let note = if d.binary { seq![Row { file: (k - 1) as usize, kind: RowKind::Binary }] } else { Seq::empty() };
        let header = seq![Row { file: (k - 1) as usize, kind: RowKind::Header }];
        let tail = seq![Row { file: (k - 1) as usize, kind: RowKind::Gap }];
        assert(f == header + (note + gaps) + tail);
        lemma_rows_show_within(before + header + note, gaps, tail, i, r);
        assert(before + header + note + gaps + tail =~= before + f);
    }
}

/// The rows of the files before `k`, where there are any, end with the
/// space after a file.
proof fn lemma_files_rows_last(files: Seq<Shape>, contexts: Seq<Seq<Context>>, shown: Seq<bool>, split: bool, k: int)
    requires
        0 <= k <= files.len(),
    ensures
        files_rows(files, contexts, shown, split, k).len() > 0 ==> files_rows(files, contexts, shown, split, k).last().kind
            == RowKind::Gap,
    decreases k,
{
    if k > 0 {
        lemma_files_rows_last(files, contexts, shown, split, k - 1);
    }
}

/// Every line of every hunk of a file that is shown and not collapsed has
/// a row of the view, as the `l`-th line of hunk `h` and the line counted
/// after the lines of the hunks before it. Side by side, a context line's
/// row shows it on both sides (`line_refs_law`).
pub proof fn every_line_shown_law(
    files: Seq<Shape>,
    contexts: Seq<Seq<Context>>,
    shown: Seq<bool>,
    split: bool,
    i: int,
    h: int,
    l: int,
)
    requires
        0 <= i < files.len(),
        files.len() <= usize::MAX,
        shown.len() == files.len(),
        shown[i],
        !files[i].collapsed,
        0 <= h < files[i].diff.hunks.len(),
        0 <= l < files[i].diff.hunks[h].lines.len(),
    ensures
        rows_show(
            rows_spec(files, contexts, shown, split),
            i,
            diff_ref(h, l, all_lines(files[i].diff.hunks.take(h)).len() + l),
        ),
{
    let r = diff_ref(h, l, all_lines(files[i].diff.hunks.take(h)).len() + l);
    let all = files_rows(files, contexts, shown, split, files.len() as int);
    lemma_files_rows_show(files, contexts, shown, split, files.len() as int, i, h, l);
    lemma_files_rows_last(files, contexts, shown, split, files.len() as int);
    let j = choose|j: int| 0 <= j < all.len() && #[trigger] row_shows(all[j], i, r);
    assert(j < all.len() - 1);
    assert(rows_spec(files, contexts, shown, split)[j] == all[j]);
    assert(row_shows(rows_spec(files, contexts, shown, split)[j], i, r));
}

} // verus!
