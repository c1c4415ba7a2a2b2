//! The changes a commit will contain, as parsed unified diffs.

use std::ops::Range;

use vstd::prelude::*;

use crate::scope::Scope;

use crate::chars::{
    append_text, chars_of, copy_range, find, find_from, find_text, has_prefix, is_text, lemma_split_nonempty, lines,
    lines_of, parse_number, parse_u32, same_chars, split, split_chars, starts_with, string_of,
    texts, views,
};

verus! {

/// Start of the header line of each file.
pub const DIFF_HEADER: &'static str = "diff --git ";

/// Start of the header line of each hunk.
pub const HUNK_HEADER: &'static str = "@@ ";

/// The old side of an added file.
pub const OLD_ABSENT: &'static str = "--- /dev/null";

/// The new side of a deleted file.
pub const NEW_ABSENT: &'static str = "+++ /dev/null";

/// Start of the line naming the new side of a file.
pub const NEW_PATH: &'static str = "+++ b/";

/// Start of the line naming the previous path of a renamed file.
pub const RENAME_FROM: &'static str = "rename from ";

/// Start of the line git writes for a binary file.
pub const BINARY: &'static str = "Binary files ";

/// What precedes the new path in a file header.
pub const NEW_SIDE: &'static str = " b/";

/// `Clone` of a range, which the derived `Clone` of `Hunk` calls; nothing
/// is claimed of the copy.
pub assume_specification<Idx: Clone>[ <Range<Idx> as Clone>::clone ](range: &Range<Idx>) -> Range<Idx>;

#[derive(Debug, PartialEq, Eq, Structural, Clone, Copy, Hash)]
pub enum Status {
    Added,
    Deleted,
    Modified,
    Renamed,
}

#[derive(Debug, PartialEq, Eq, Structural, Clone, Copy, Hash)]
pub enum Kind {
    Context,
    Add,
    Del,
}

#[derive(Debug, PartialEq, Eq, Clone)]
pub struct Line {
    pub kind: Kind,
    /// Line number in the old file, absent for an added line.
    pub old: Option<u32>,
    /// Line number in the new file, absent for a deleted line.
    pub new: Option<u32>,
    pub text: String,
}

#[derive(Debug, PartialEq, Eq, Clone)]
pub struct Hunk {
    pub header: String,
    pub old: Range<u32>,
    pub new: Range<u32>,
    pub lines: Vec<Line>,
}

#[derive(Debug, PartialEq, Eq, Clone)]
pub struct FileDiff {
    pub path: String,
    /// Previous path of a renamed file.
    pub old_path: Option<String>,
    pub status: Status,
    pub binary: bool,
    pub hunks: Vec<Hunk>,
    /// Immutable base blob for optional source context.
    pub source: Option<String>,
}

/// A line of a hunk, its text as characters.
pub struct LineView {
    pub kind: Kind,
    pub old: Option<u32>,
    pub new: Option<u32>,
    pub text: Seq<char>,
}

/// A hunk, its texts as characters.
pub struct HunkView {
    pub header: Seq<char>,
    pub old: Range<u32>,
    pub new: Range<u32>,
    pub lines: Seq<LineView>,
}

/// The diff of a file, its texts as characters.
pub struct FileDiffView {
    pub path: Seq<char>,
    pub old_path: Option<Seq<char>>,
    pub status: Status,
    pub binary: bool,
    pub hunks: Seq<HunkView>,
    pub source: Option<Seq<char>>,
}

impl View for Line {
    type V = LineView;

    open spec fn view(&self) -> LineView {
        LineView { kind: self.kind, old: self.old, new: self.new, text: self.text@ }
    }
}

impl View for Hunk {
    type V = HunkView;

    open spec fn view(&self) -> HunkView {
        HunkView { header: self.header@, old: self.old, new: self.new, lines: line_views(self.lines@) }
    }
}

impl View for FileDiff {
    type V = FileDiffView;

    open spec fn view(&self) -> FileDiffView {
        FileDiffView {
            path: self.path@,
            old_path: text_option(self.old_path),
            status: self.status,
            binary: self.binary,
            hunks: hunk_views(self.hunks@),
            source: text_option(self.source),
        }
    }
}

/// The characters of an optional string.
pub open spec fn text_option(s: Option<String>) -> Option<Seq<char>> {
    match s {
        Some(s) => Some(s@),
        None => None,
    }
}

pub open spec fn line_views(s: Seq<Line>) -> Seq<LineView> {
    s.map_values(|l: Line| l@)
}

pub open spec fn hunk_views(s: Seq<Hunk>) -> Seq<HunkView> {
    s.map_values(|h: Hunk| h@)
}

pub open spec fn file_views(s: Seq<FileDiff>) -> Seq<FileDiffView> {
    s.map_values(|f: FileDiff| f@)
}

// ---------------------------------------------------------------------------
// What `parse` reads from a diff, one line at a time.

/// The parser between two lines: the files so far, and the line numbers
/// that the next lines of the current hunk take.
pub struct ParseState {
    pub files: Seq<FileDiffView>,
    pub old_no: u32,
    pub new_no: u32,
}

/// A file as its header line opens it.
pub open spec fn new_file(path: Seq<char>) -> FileDiffView {
    FileDiffView {
        path,
        old_path: None,
        status: Status::Modified,
        binary: false,
        hunks: Seq::empty(),
        source: None,
    }
}

/// The new path of `a/old b/new`: what follows the first ` b/`, or the
/// whole header when there is none.
pub open spec fn header_new_path(header: Seq<char>) -> Seq<char> {
    match find(header, NEW_SIDE@) {
        Some(k) => header.skip(k + NEW_SIDE@.len()),
        None => header,
    }
}

/// The line range that one side of `-start,count +start,count` names.
/// A missing start reads as 0, a missing count as 1, an unreadable count as
/// 0; an empty range begins after its start. `None` where the end does not
/// fit in a `u32`.
pub open spec fn side_range(part: Option<Seq<char>>, sign: char) -> Option<Range<u32>> {
    let text = match part {
        Some(p) => if p.len() > 0 && p[0] == sign { p.drop_first() } else { Seq::empty() },
        None => Seq::empty(),
    };
    let numbers = split(text, ',');
    let start: int = match parse_u32(numbers[0]) {
        Some(n) => n as int,
        None => 0,
    };
    let count: int = if numbers.len() > 1 {
        match parse_u32(numbers[1]) {
            Some(n) => n as int,
            None => 0,
        }
    } else {
        1
    };
    let first = start + if count == 0 { 1int } else { 0int };
    if first + count <= u32::MAX {
        Some(Range { start: first as u32, end: (first + count) as u32 })
    } else {
        None
    }
}

/// The old and new ranges of a hunk header after its `@@ `.
pub open spec fn hunk_ranges(rest: Seq<char>) -> Option<(Range<u32>, Range<u32>)> {
    let parts = split(rest, ' ');
    let new_part = if parts.len() > 1 { Some(parts[1]) } else { None };
    match (side_range(Some(parts[0]), '-'), side_range(new_part, '+')) {
        (Some(old), Some(new)) => Some((old, new)),
        _ => None,
    }
}

/// The files with their last one replaced.
pub open spec fn with_last(files: Seq<FileDiffView>, file: FileDiffView) -> Seq<FileDiffView> {
    files.update(files.len() - 1, file)
}

/// The file with a line added to its last hunk.
pub open spec fn with_line(file: FileDiffView, line: LineView) -> FileDiffView {
    let hunk = file.hunks.last();
    FileDiffView {
        hunks: file.hunks.update(
            file.hunks.len() - 1,
            HunkView { lines: hunk.lines.push(line), ..hunk },
        ),
        ..file
    }
}

/// A line inside a hunk: `+` added, `-` deleted, ` ` context, numbered
/// from the counters, which then advance; anything else (`\ No newline at
/// end of file`) is skipped. `None` where a counter would pass `u32::MAX`.
pub open spec fn hunk_line(st: ParseState, line: Seq<char>) -> Option<ParseState> {
    let file = st.files.last();
    let text = line.drop_first();
    if line.len() == 0 {
        Some(st)
    } else if line[0] == '+' {
        if st.new_no == u32::MAX {
            None
        } else {
            let added = LineView { kind: Kind::Add, old: None, new: Some(st.new_no), text };
            Some(ParseState {
                files: with_last(st.files, with_line(file, added)),
                new_no: (st.new_no + 1) as u32,
                ..st
            })
        }
    } else if line[0] == '-' {
        if st.old_no == u32::MAX {
            None
        } else {
            let deleted = LineView { kind: Kind::Del, old: Some(st.old_no), new: None, text };
            Some(ParseState {
                files: with_last(st.files, with_line(file, deleted)),
                old_no: (st.old_no + 1) as u32,
                ..st
            })
        }
    } else if line[0] == ' ' {
        if st.old_no == u32::MAX || st.new_no == u32::MAX {
            None
        } else {
            let context = LineView {
                kind: Kind::Context,
                old: Some(st.old_no),
                new: Some(st.new_no),
                text,
            };
            Some(ParseState {
                files: with_last(st.files, with_line(file, context)),
                old_no: (st.old_no + 1) as u32,
                new_no: (st.new_no + 1) as u32,
            })
        }
    } else {
        Some(st)
    }
}

/// What a line outside any hunk says of the current file.
pub open spec fn header_line(file: FileDiffView, line: Seq<char>) -> FileDiffView {
    if line == OLD_ABSENT@ {
        FileDiffView { status: Status::Added, ..file }
    } else if line == NEW_ABSENT@ {
        FileDiffView { status: Status::Deleted, ..file }
    } else if starts_with(line, NEW_PATH@) {
        FileDiffView { path: line.skip(NEW_PATH@.len() as int), ..file }
    } else if starts_with(line, RENAME_FROM@) {
        FileDiffView {
            status: Status::Renamed,
            old_path: Some(line.skip(RENAME_FROM@.len() as int)),
            ..file
        }
    } else if starts_with(line, BINARY@) {
        FileDiffView { binary: true, ..file }
    } else {
        file
    }
}

/// The parser after one more line: a file header opens a file, a hunk
/// header opens a hunk of the current file, later lines belong to that
/// hunk, and lines before the first hunk describe the file. Lines before
/// the first file are ignored.
pub open spec fn step(st: ParseState, line: Seq<char>) -> Option<ParseState> {
    if starts_with(line, DIFF_HEADER@) {
        let path = header_new_path(line.skip(DIFF_HEADER@.len() as int));
        Some(ParseState { files: st.files.push(new_file(path)), ..st })
    } else if st.files.len() == 0 {
        Some(st)
    } else if starts_with(line, HUNK_HEADER@) {
        let file = st.files.last();
        match hunk_ranges(line.skip(HUNK_HEADER@.len() as int)) {
            Some((old, new)) => Some(
                ParseState {
                    files: with_last(
                        st.files,
                        FileDiffView {
                            hunks: file.hunks.push(
                                HunkView { header: line, old, new, lines: Seq::empty() },
                            ),
                            ..file
                        },
                    ),
                    old_no: old.start,
                    new_no: new.start,
                },
            ),
            None => None,
        }
    } else if st.files.last().hunks.len() > 0 {
        hunk_line(st, line)
    } else {
        Some(ParseState { files: with_last(st.files, header_line(st.files.last(), line)), ..st })
    }
}

/// The parser after the given lines, from no file and counters at 0.
pub open spec fn run(lines: Seq<Seq<char>>) -> Option<ParseState>
    decreases lines.len(),
{
    if lines.len() == 0 {
        Some(ParseState { files: Seq::empty(), old_no: 0, new_no: 0 })
    } else {
        match run(lines.drop_last()) {
            Some(st) => step(st, lines.last()),
            None => None,
        }
    }
}

/// The files that a diff describes; `None` where a line number would pass
/// `u32::MAX`.
pub open spec fn parse_result(diff: Seq<char>) -> Option<Seq<FileDiffView>> {
    match run(lines(diff)) {
        Some(st) => Some(st.files),
        None => None,
    }
}

/// Once the parser has failed, later lines change nothing.
pub proof fn lemma_run_failed(lines: Seq<Seq<char>>, k: int)
    requires
        0 <= k <= lines.len(),
        run(lines.take(k)) is None,
    ensures
        run(lines) is None,
    decreases lines.len(),
{
    if k == lines.len() {
        assert(lines.take(k) =~= lines);
    } else {
        assert(lines.drop_last().take(k) =~= lines.take(k));
        lemma_run_failed(lines.drop_last(), k);
    }
}


/// Where `find_from` finds the pattern, it occurs, at or after the start.
pub proof fn lemma_find_from(s: Seq<char>, pattern: Seq<char>, i: int)
    ensures
        find_from(s, pattern, i) matches Some(k) ==> i <= k <= s.len() && starts_with(
            s.skip(k),
            pattern,
        ),
    decreases s.len() + 1 - i,
{
    if 0 <= i <= s.len() && !starts_with(s.skip(i), pattern) {
        lemma_find_from(s, pattern, i + 1);
    }
}

/// The new path of a file header, as `header_new_path` states it.
pub fn path_from_header(header: &[char]) -> (path: String)
    ensures
        path@ == header_new_path(header@),
{
    match find_text(header, NEW_SIDE) {
        Some(k) => {
            proof {
                lemma_find_from(header@, NEW_SIDE@, 0);
            }
            let n = NEW_SIDE.unicode_len();
            assert(find_from(header@, NEW_SIDE@, 0) == Some(k as int));
            assert(starts_with(header@.skip(k as int), NEW_SIDE@));
            let len = header.len();
            assert(k + n <= len);
            string_of(header, k + n, len)
        },
        None => {
            let path = string_of(header, 0, header.len());
            assert(header@.subrange(0, header@.len() as int) =~= header@);
            path
        },
    }
}

/// The characters of an optional vector.
pub open spec fn chars_option(part: Option<&Vec<char>>) -> Option<Seq<char>> {
    match part {
        Some(p) => Some(p@),
        None => None,
    }
}

/// One side of a hunk header, as `side_range` states it.
fn side(part: Option<&Vec<char>>, sign: char) -> (r: Option<Range<u32>>)
    ensures
        r == side_range(chars_option(part), sign),
{
    let text: Vec<char> = match part {
        Some(p) => if p.len() > 0 && p[0] == sign {
            copy_range(p.as_slice(), 1, p.len())
        } else {
            Vec::new()
        },
        None => Vec::new(),
    };
    proof {
        if let Some(p) = part {
            if p@.len() > 0 && p@[0] == sign {
                assert(p@.subrange(1, p@.len() as int) =~= p@.drop_first());
            }
        }
        assert(text@ =~= (match chars_option(part) {
            Some(p) => if p.len() > 0 && p[0] == sign { p.drop_first() } else { Seq::empty() },
            None => Seq::empty(),
        }));
        lemma_split_nonempty(text@, ',');
    }
    let numbers = split_chars(text.as_slice(), ',');
    assert(numbers@[0]@ == split(text@, ',')[0]);
    let start: u64 = match parse_number(numbers[0].as_slice()) {
        Some(n) => n as u64,
        None => 0,
    };
    let count: u64 = if numbers.len() > 1 {
        assert(numbers@[1]@ == split(text@, ',')[1]);
        match parse_number(numbers[1].as_slice()) {
            Some(n) => n as u64,
            None => 0,
        }
    } else {
        1
    };
    let first = if count == 0 { start + 1 } else { start };
    if first + count <= u32::MAX as u64 {
        Some(Range { start: first as u32, end: (first + count) as u32 })
    } else {
        None
    }
}

/// The ranges of a hunk header after its `@@ `, as `hunk_ranges` states them.
pub fn hunk_starts(rest: &[char]) -> (r: Option<(Range<u32>, Range<u32>)>)
    ensures
        r == hunk_ranges(rest@),
{
    proof {
        lemma_split_nonempty(rest@, ' ');
    }
    let parts = split_chars(rest, ' ');
    assert(parts@[0]@ == split(rest@, ' ')[0]);
    let old = side(Some(&parts[0]), '-');
    let new = if parts.len() > 1 {
        assert(parts@[1]@ == split(rest@, ' ')[1]);
        side(Some(&parts[1]), '+')
    } else {
        side(None, '+')
    };
    match (old, new) {
        (Some(old), Some(new)) => Some((old, new)),
        _ => None,
    }
}


/// Replacing the last file of a vector replaces the last view.
proof fn lemma_replace_last_file(fs: Seq<FileDiff>, f: FileDiff)
    requires
        fs.len() > 0,
    ensures
        file_views(fs.drop_last().push(f)) == with_last(file_views(fs), f@),
{
    assert(file_views(fs.drop_last().push(f)) =~= with_last(file_views(fs), f@));
}

/// A file as its header line opens it.
fn opened_file(path: String) -> (f: FileDiff)
    ensures
        f@ == new_file(path@),
{
    let f = FileDiff {
        path,
        old_path: None,
        status: Status::Modified,
        binary: false,
        hunks: Vec::new(),
        source: None,
    };
    assert(hunk_views(f.hunks@) =~= Seq::empty());
    f
}

/// The characters of `line` after a prefix of `n` characters, as a string.
fn after(line: &[char], n: usize) -> (s: String)
    requires
        n <= line@.len(),
    ensures
        s@ == line@.skip(n as int),
{
    let s = string_of(line, n, line.len());
    assert(s@ =~= line@.skip(n as int));
    s
}

/// A line inside a hunk of the last file, as `hunk_line` states it.
fn apply_hunk_line(files: &mut Vec<FileDiff>, old_no: &mut u32, new_no: &mut u32, line: &[char]) -> (ok: bool)
    requires
        old(files)@.len() > 0,
        old(files)@.last().hunks@.len() > 0,
    ensures
        hunk_line(
            ParseState { files: file_views(old(files)@), old_no: *old(old_no), new_no: *old(new_no) },
            line@,
        ) == (if ok {
            Some(ParseState { files: file_views(final(files)@), old_no: *final(old_no), new_no: *final(new_no) })
        } else {
            None
        }),
{
    let ghost st = ParseState { files: file_views(files@), old_no: *old_no, new_no: *new_no };
    if line.len() == 0 {
        return true;
    }
    let c = line[0];
    let (kind, o, n) = if c == '+' {
        if *new_no == u32::MAX {
            return false;
        }
        let n = *new_no;
        *new_no = n + 1;
        (Kind::Add, None, Some(n))
    } else if c == '-' {
        if *old_no == u32::MAX {
            return false;
        }
        let o = *old_no;
        *old_no = o + 1;
        (Kind::Del, Some(o), None)
    } else if c == ' ' {
        if *old_no == u32::MAX || *new_no == u32::MAX {
            return false;
        }
        let o = *old_no;
        let n = *new_no;
        *old_no = o + 1;
        *new_no = n + 1;
        (Kind::Context, Some(o), Some(n))
    } else {
        return true;
    };
    let text = after(line, 1);
    let added = Line { kind, old: o, new: n, text };
    let ghost fs = files@;
    let mut file = files.pop().unwrap();
    let ghost fv = file@;
    let ghost hs = file.hunks@;
    let mut hunk = file.hunks.pop().unwrap();
    let ghost hv = hunk@;
    let ghost ls = hunk.lines@;
    hunk.lines.push(added);
    assert(line_views(hunk.lines@) =~= hv.lines.push(added@));
    file.hunks.push(hunk);
    assert(hunk_views(file.hunks@) =~= fv.hunks.update(fv.hunks.len() - 1, HunkView { lines: hv.lines.push(added@), ..hv }));
    assert(file@ == with_line(fv, added@));
    files.push(file);
    proof {
        lemma_replace_last_file(fs, file);
    }
    true
}

/// A line before the first hunk of the last file, as `header_line` states it.
fn apply_header_line(file: &mut FileDiff, line: &[char])
    ensures
        final(file)@ == header_line(old(file)@, line@),
{
    if is_text(line, OLD_ABSENT) {
        file.status = Status::Added;
    } else if is_text(line, NEW_ABSENT) {
        file.status = Status::Deleted;
    } else if has_prefix(line, NEW_PATH) {
        file.path = after(line, NEW_PATH.unicode_len());
    } else if has_prefix(line, RENAME_FROM) {
        file.status = Status::Renamed;
        file.old_path = Some(after(line, RENAME_FROM.unicode_len()));
    } else if has_prefix(line, BINARY) {
        file.binary = true;
    }
}

/// The parser after one more line, as `step` states it; `false` where a
/// line number would pass `u32::MAX`.
fn apply_line(files: &mut Vec<FileDiff>, old_no: &mut u32, new_no: &mut u32, line: &[char]) -> (ok: bool)
    ensures
        step(
            ParseState { files: file_views(old(files)@), old_no: *old(old_no), new_no: *old(new_no) },
            line@,
        ) == (if ok {
            Some(ParseState { files: file_views(final(files)@), old_no: *final(old_no), new_no: *final(new_no) })
        } else {
            None
        }),
{
    let ghost st = ParseState { files: file_views(files@), old_no: *old_no, new_no: *new_no };
    if has_prefix(line, DIFF_HEADER) {
        let header = copy_range(line, DIFF_HEADER.unicode_len(), line.len());
        assert(header@ =~= line@.skip(DIFF_HEADER@.len() as int));
        let path = path_from_header(header.as_slice());
        let ghost path_view = path@;
        files.push(opened_file(path));
        assert(file_views(files@) =~= st.files.push(new_file(path_view)));
        return true;
    }
    if files.len() == 0 {
        return true;
    }
    if has_prefix(line, HUNK_HEADER) {
        let rest = copy_range(line, HUNK_HEADER.unicode_len(), line.len());
        assert(rest@ =~= line@.skip(HUNK_HEADER@.len() as int));
        match hunk_starts(rest.as_slice()) {
            None => {
                return false;
            },
            Some((old, new)) => {
                let ghost fs = files@;
                let mut file = files.pop().unwrap();
                let ghost fv = file@;
                let header = string_of(line, 0, line.len());
                assert(header@ =~= line@);
                *old_no = old.start;
                *new_no = new.start;
                let hunk = Hunk { header, old, new, lines: Vec::new() };
                assert(line_views(hunk.lines@) =~= Seq::empty());
                file.hunks.push(hunk);
                assert(hunk_views(file.hunks@) =~= fv.hunks.push(hunk@));
                files.push(file);
                proof {
                    lemma_replace_last_file(fs, file);
                }
                return true;
            },
        }
    }
    assert(files@.last()@ == st.files.last());
    if files[files.len() - 1].hunks.len() > 0 {
        return apply_hunk_line(files, old_no, new_no, line);
    }
    let ghost fs = files@;
    let mut file = files.pop().unwrap();
    apply_header_line(&mut file, line);
    files.push(file);
    proof {
        lemma_replace_last_file(fs, file);
    }
    true
}

/// The files a diff describes, or `None` where a line number would pass
/// `u32::MAX`.
pub fn parse_checked(diff: &str) -> (r: Option<Vec<FileDiff>>)
    ensures
        r matches Some(files) ==> parse_result(diff@) == Some(file_views(files@)),
        r is None ==> parse_result(diff@) is None,
{
    let ls = lines_of(diff);
    let ghost all = views(ls@);
    let mut files: Vec<FileDiff> = Vec::new();
    let mut old_no: u32 = 0;
    let mut new_no: u32 = 0;
    let mut i: usize = 0;
    assert(all.take(0) =~= Seq::<Seq<char>>::empty());
    assert(file_views(files@) =~= Seq::empty());
    while i < ls.len()
        invariant
            all == views(ls@),
            all == lines(diff@),
            i <= ls@.len(),
            run(all.take(i as int)) == Some(ParseState { files: file_views(files@), old_no, new_no }),
        decreases ls@.len() - i,
    {
        assert(all.take(i + 1).drop_last() =~= all.take(i as int));
        assert(all.take(i + 1).last() == ls@[i as int]@);
        let ok = apply_line(&mut files, &mut old_no, &mut new_no, ls[i].as_slice());
        if !ok {
            proof {
                lemma_run_failed(all, i + 1);
            }
            return None;
        }
        i += 1;
    }
    assert(all.take(ls@.len() as int) =~= all);
    Some(files)
}

/// The files a diff describes: a `diff --git` line opens each, a `@@` line
/// each of its hunks, and the lines of a hunk are numbered in the old and
/// new file from the starts its header gives.
pub fn parse(diff: &str) -> (files: Vec<FileDiff>)
    requires
        parse_result(diff@) is Some,
    ensures
        Some(file_views(files@)) == parse_result(diff@),
{
    match parse_checked(diff) {
        Some(files) => files,
        None => Vec::new(),
    }
}


// ---------------------------------------------------------------------------
// The lines of a file, and the source around its hunks.

/// The lines of all hunks in order.
pub open spec fn all_lines(hunks: Seq<HunkView>) -> Seq<LineView>
    decreases hunks.len(),
{
    if hunks.len() == 0 {
        Seq::empty()
    } else {
        all_lines(hunks.drop_last()) + hunks.last().lines
    }
}

/// The marker a diff shows before a line of each kind.
pub open spec fn marker(kind: Kind) -> char {
    match kind {
        Kind::Context => ' ',
        Kind::Add => '+',
        Kind::Del => '-',
    }
}

impl Line {
    /// The line as the diff shows it, marker first.
    pub fn quoted(&self) -> (s: String)
        ensures
            s@ == seq![marker(self.kind)] + self.text@,
    {
        let mut s = String::new();
        s.push(
            match self.kind {
                Kind::Context => ' ',
                Kind::Add => '+',
                Kind::Del => '-',
            },
        );
        let text = chars_of(self.text.as_str());
        let mut i: usize = 0;
        while i < text.len()
            invariant
                i <= text@.len(),
                text@ == self.text@,
                s@ == seq![marker(self.kind)] + text@.take(i as int),
            decreases text@.len() - i,
        {
            s.push(text[i]);
            i += 1;
            assert(s@ =~= seq![marker(self.kind)] + text@.take(i as int));
        }
        assert(text@.take(i as int) =~= text@);
        s
    }
}

/// What `FileDiff::context` reports when the source is not the old side of
/// the diff.
pub const MISMATCH: &'static str = "Source does not match the diff";

/// Context lines for the given source lines, numbered from `old` and `new`.
pub open spec fn numbered(texts: Seq<Seq<char>>, old: int, new: int) -> Seq<LineView> {
    Seq::new(
        texts.len(),
        |i: int|
            LineView {
                kind: Kind::Context,
                old: Some((old + i) as u32),
                new: Some((new + i) as u32),
                text: texts[i],
            },
    )
}

/// The texts of the lines that the old file holds: context and deleted.
pub open spec fn old_side(lines: Seq<LineView>) -> Seq<Seq<char>>
    decreases lines.len(),
{
    if lines.len() == 0 {
        Seq::empty()
    } else if lines.last().old is Some {
        old_side(lines.drop_last()).push(lines.last().text)
    } else {
        old_side(lines.drop_last())
    }
}

/// Reading the source between hunks: the next source line, the numbers
/// the next gap line takes, and the gaps so far; or how it went wrong.
pub enum Reading {
    /// A line number would pass `u32::MAX`.
    Overflow,
    /// The source ran out, or differs from the old side of a hunk.
    Mismatch,
    Open { pos: int, old: u32, new: u32, gaps: Seq<Seq<LineView>> },
}

/// The reading after one more hunk: the source lines before its old start
/// form a gap, then the source must hold the hunk's old side, and the
/// numbers continue at the ends of its ranges.
pub open spec fn read_hunk(r: Reading, hunk: HunkView, src: Seq<Seq<char>>) -> Reading {
    match r {
        Reading::Open { pos, old, new, gaps } => {
            let need: int = if old < hunk.old.start { hunk.old.start - old } else { 0 };
            let avail: int = if pos + need <= src.len() { need } else { src.len() - pos };
            let after = pos + need;
            let olds = old_side(hunk.lines);
            if avail > 0 && new + avail > u32::MAX {
                Reading::Overflow
            } else if avail < need {
                Reading::Mismatch
            } else if after + olds.len() <= src.len() && src.subrange(after, after + olds.len())
                == olds {
                Reading::Open {
                    pos: after + olds.len(),
                    old: hunk.old.end,
                    new: hunk.new.end,
                    gaps: gaps.push(numbered(src.subrange(pos, after), old as int, new as int)),
                }
            } else {
                Reading::Mismatch
            }
        },
        _ => r,
    }
}

/// The reading after the given hunks, from the first source line, numbered
/// from 1.
pub open spec fn read_hunks(hunks: Seq<HunkView>, src: Seq<Seq<char>>) -> Reading
    decreases hunks.len(),
{
    if hunks.len() == 0 {
        Reading::Open { pos: 0, old: 1, new: 1, gaps: Seq::empty() }
    } else {
        read_hunk(read_hunks(hunks.drop_last(), src), hunks.last(), src)
    }
}

/// The gaps of source around the hunks: one before each hunk and one after
/// the last, every line numbered in both files. `Some(Err(()))` where the
/// source does not match the diff, `None` where a number would pass
/// `u32::MAX`.
pub open spec fn context_result(hunks: Seq<HunkView>, source: Seq<char>) -> Option<
    Result<Seq<Seq<LineView>>, ()>,
> {
    let src = lines(source);
    match read_hunks(hunks, src) {
        Reading::Overflow => None,
        Reading::Mismatch => Some(Err(())),
        Reading::Open { pos, old, new, gaps } => {
            let rest = src.skip(pos);
            if rest.len() > 0 && (old + rest.len() > u32::MAX || new + rest.len() > u32::MAX) {
                None
            } else {
                Some(Ok(gaps.push(numbered(rest, old as int, new as int))))
            }
        },
    }
}

/// The views of the gaps.
pub open spec fn gap_views(gaps: Seq<Vec<Line>>) -> Seq<Seq<LineView>> {
    gaps.map_values(|g: Vec<Line>| line_views(g@))
}

/// The context line for a source line.
fn context_line(text: &Vec<char>, old: u32, new: u32) -> (l: Line)
    ensures
        l@ == (LineView { kind: Kind::Context, old: Some(old), new: Some(new), text: text@ }),
{
    let t = string_of(text.as_slice(), 0, text.len());
    assert(text@.subrange(0, text@.len() as int) =~= text@);
    Line { kind: Kind::Context, old: Some(old), new: Some(new), text: t }
}

/// The source lines from `pos` on, as context numbered from `old` and
/// `new`; `None` where a number would pass `u32::MAX`.
fn rest_gap(src: &Vec<Vec<char>>, pos: usize, old: u32, new: u32) -> (r: Option<Vec<Line>>)
    requires
        pos <= src@.len(),
    ensures
        ({
            let rest = views(src@).skip(pos as int);
            let overflow = rest.len() > 0 && (old + rest.len() > u32::MAX || new + rest.len()
                > u32::MAX);
            match r {
                Some(g) => !overflow && line_views(g@) == numbered(rest, old as int, new as int),
                None => overflow,
            }
        }),
{
    let ghost rest = views(src@).skip(pos as int);
    let mut gap: Vec<Line> = Vec::new();
    let mut o = old;
    let mut n = new;
    let mut p = pos;
    while p < src.len()
        invariant
            pos <= p <= src@.len(),
            rest == views(src@).skip(pos as int),
            o == old + (p - pos),
            n == new + (p - pos),
            line_views(gap@) == numbered(rest.take(p - pos), old as int, new as int),
        decreases src@.len() - p,
    {
        if o == u32::MAX || n == u32::MAX {
            return None;
        }
        let l = context_line(&src[p], o, n);
        let ghost before = line_views(gap@);
        gap.push(l);
        assert(line_views(gap@) =~= before.push(l@));
        p += 1;
        assert(line_views(gap@) =~= numbered(rest.take(p - pos), old as int, new as int));
        o += 1;
        n += 1;
    }
    assert(rest.take(p - pos) =~= rest);
    Some(gap)
}


/// The old side of a hunk's lines, as `old_side` states it.
fn old_texts(lines: &Vec<Line>) -> (texts: Vec<Vec<char>>)
    ensures
        views(texts@) == old_side(line_views(lines@)),
{
    let mut texts: Vec<Vec<char>> = Vec::new();
    let mut i: usize = 0;
    assert(line_views(lines@).take(0) =~= Seq::<LineView>::empty());
    while i < lines.len()
        invariant
            i <= lines@.len(),
            views(texts@) == old_side(line_views(lines@).take(i as int)),
        decreases lines@.len() - i,
    {
        let ghost before = views(texts@);
        assert(line_views(lines@).take(i + 1).drop_last() =~= line_views(lines@).take(i as int));
        if lines[i].old.is_some() {
            let t = chars_of(lines[i].text.as_str());
            texts.push(t);
            assert(views(texts@) =~= before.push(t@));
        }
        i += 1;
    }
    assert(line_views(lines@).take(lines@.len() as int) =~= line_views(lines@));
    texts
}

/// The gap before a hunk and the check of its old side, as `read_hunk`
/// states them: `None` on overflow, `Some(false)` on a mismatch.
fn read_one(
    hunk: &Hunk,
    src: &Vec<Vec<char>>,
    pos: &mut usize,
    old_no: &mut u32,
    new_no: &mut u32,
    gaps: &mut Vec<Vec<Line>>,
) -> (r: Option<bool>)
    requires
        *old(pos) <= src@.len(),
    ensures
        ({
            let before = Reading::Open {
                pos: *old(pos) as int,
                old: *old(old_no),
                new: *old(new_no),
                gaps: gap_views(old(gaps)@),
            };
            let after = read_hunk(before, hunk@, views(src@));
            match r {
                None => after == Reading::Overflow,
                Some(false) => after == Reading::Mismatch,
                Some(true) => *final(pos) <= src@.len() && after == (Reading::Open {
                    pos: *final(pos) as int,
                    old: *final(old_no),
                    new: *final(new_no),
                    gaps: gap_views(final(gaps)@),
                }),
            }
        }),
{
    let ghost src_v = views(src@);
    let ghost p0 = *pos as int;
    let ghost o0 = *old_no;
    let ghost n0 = *new_no;
    let ghost need: int = if o0 < hunk.old.start { hunk.old.start - o0 } else { 0 };
    let mut gap: Vec<Line> = Vec::new();
    while *old_no < hunk.old.start
        invariant
            p0 == *old(pos),
            o0 == *old(old_no),
            n0 == *old(new_no),
            gaps@ == old(gaps)@,
            p0 <= *pos <= src@.len(),
            src_v == views(src@),
            o0 <= *old_no <= hunk.old.start || (o0 >= hunk.old.start && *old_no == o0),
            need == (if o0 < hunk.old.start { hunk.old.start - o0 } else { 0 }),
            *old_no == o0 + (*pos - p0),
            *new_no == n0 + (*pos - p0),
            *pos - p0 <= need,
            line_views(gap@) == numbered(src_v.subrange(p0, *pos as int), o0 as int, n0 as int),
        decreases hunk.old.start - *old_no,
    {
        if *pos >= src.len() {
            return Some(false);
        }
        if *new_no == u32::MAX {
            return None;
        }
        let l = context_line(&src[*pos], *old_no, *new_no);
        let ghost before = line_views(gap@);
        gap.push(l);
        assert(line_views(gap@) =~= before.push(l@));
        *pos += 1;
        assert(line_views(gap@) =~= numbered(src_v.subrange(p0, *pos as int), o0 as int, n0 as int));
        *old_no += 1;
        *new_no += 1;
    }
    assert(*pos - p0 == need);
    let texts = old_texts(&hunk.lines);
    let ghost olds = views(texts@);
    let mut k: usize = 0;
    let ghost after = *pos as int;
    while k < texts.len()
        invariant
            p0 == *old(pos),
            o0 == *old(old_no),
            n0 == *old(new_no),
            gaps@ == old(gaps)@,
            need == (if o0 < hunk.old.start { hunk.old.start - o0 } else { 0 }),
            line_views(gap@) == numbered(src_v.subrange(p0, after), o0 as int, n0 as int),
            need > 0 ==> n0 + need <= u32::MAX,
            olds == old_side(hunk@.lines),
            after == p0 + need,
            *pos == after + k,
            after <= src@.len(),
            k <= texts@.len(),
            olds == views(texts@),
            src_v == views(src@),
            forall|j: int| 0 <= j < k ==> src_v[after + j] == olds[j],
            *pos <= src@.len(),
        decreases texts@.len() - k,
    {
        if *pos >= src.len() {
            return Some(false);
        }
        if !same_chars(src[*pos].as_slice(), texts[k].as_slice()) {
            proof {
                assert(src_v[*pos as int] == src@[*pos as int]@);
                assert(olds[k as int] == texts@[k as int]@);
                if after + olds.len() <= src_v.len() {
                    assert(src_v.subrange(after, after + olds.len())[k as int] != olds[k as int]);
                }
            }
            return Some(false);
        }
        *pos += 1;
        k += 1;
    }
    assert(src_v.subrange(after, after + olds.len()) =~= olds);
    *old_no = hunk.old.end;
    *new_no = hunk.new.end;
    let ghost before_gaps = gap_views(gaps@);
    gaps.push(gap);
    assert(gap_views(gaps@) =~= before_gaps.push(numbered(src_v.subrange(p0, after), o0 as int, n0 as int)));
    Some(true)
}

impl FileDiff {
    /// All lines of all hunks in order: what the review indexes.
    pub fn lines(&self) -> (r: Vec<&Line>)
        ensures
            r@.map_values(|l: &Line| l@) == all_lines(self@.hunks),
    {
        let mut r: Vec<&Line> = Vec::new();
        let mut h: usize = 0;
        assert(self@.hunks.take(0) =~= Seq::<HunkView>::empty());
        while h < self.hunks.len()
            invariant
                h <= self.hunks@.len(),
                r@.map_values(|l: &Line| l@) == all_lines(self@.hunks.take(h as int)),
            decreases self.hunks@.len() - h,
        {
            let hunk = &self.hunks[h];
            let ghost start = r@.map_values(|l: &Line| l@);
            let mut i: usize = 0;
            while i < hunk.lines.len()
                invariant
                    i <= hunk.lines@.len(),
                    h < self.hunks@.len(),
                    hunk == &self.hunks@[h as int],
                    r@.map_values(|l: &Line| l@) == start + line_views(hunk.lines@).take(i as int),
                decreases hunk.lines@.len() - i,
            {
                let ghost prev = r@.map_values(|l: &Line| l@);
                let item = &hunk.lines[i];
                assert(item@ == line_views(hunk.lines@)[i as int]);
                r.push(item);
                assert(r@.map_values(|l: &Line| l@) =~= prev.push(item@));
                assert(line_views(hunk.lines@).take(i + 1) =~= line_views(hunk.lines@).take(i as int).push(item@));
                i += 1;
                assert(r@.map_values(|l: &Line| l@) =~= start + line_views(hunk.lines@).take(i as int));
            }
            assert(line_views(hunk.lines@).take(i as int) =~= line_views(hunk.lines@));
            assert(self@.hunks.take(h + 1).drop_last() =~= self@.hunks.take(h as int));
            h += 1;
        }
        assert(self@.hunks.take(h as int) =~= self@.hunks);
        r
    }

    /// The gaps of `source`, the old file, around the hunks, as
    /// `context_result` states them; `None` where a line number would pass
    /// `u32::MAX`.
    fn context_checked(&self, source: &str) -> (r: Option<Result<Vec<Vec<Line>>, String>>)
        ensures
            match r {
                None => context_result(self@.hunks, source@) is None,
                Some(Ok(gaps)) => context_result(self@.hunks, source@) == Some(
                    Ok::<Seq<Seq<LineView>>, ()>(gap_views(gaps@)),
                ),
                Some(Err(e)) => context_result(self@.hunks, source@) == Some(
                    Err::<Seq<Seq<LineView>>, ()>(()),
                ) && e@ == MISMATCH@,
            },
    {
        let src = lines_of(source);
        let ghost src_v = views(src@);
        let mut gaps: Vec<Vec<Line>> = Vec::new();
        let mut pos: usize = 0;
        let mut old: u32 = 1;
        let mut new: u32 = 1;
        let mut h: usize = 0;
        assert(self@.hunks.take(0) =~= Seq::<HunkView>::empty());
        assert(gap_views(gaps@) =~= Seq::empty());
        while h < self.hunks.len()
            invariant
                h <= self.hunks@.len(),
                src_v == views(src@),
                src_v == lines(source@),
                pos <= src@.len(),
                read_hunks(self@.hunks.take(h as int), src_v) == (Reading::Open {
                    pos: pos as int,
                    old,
                    new,
                    gaps: gap_views(gaps@),
                }),
            decreases self.hunks@.len() - h,
        {
            assert(self@.hunks.take(h + 1).drop_last() =~= self@.hunks.take(h as int));
            match read_one(&self.hunks[h], &src, &mut pos, &mut old, &mut new, &mut gaps) {
                None => {
                    proof {
                        lemma_read_stuck(self@.hunks, src_v, h + 1);
                    }
                    return None;
                },
                Some(false) => {
                    proof {
                        lemma_read_stuck(self@.hunks, src_v, h + 1);
                    }
                    return Some(Err(MISMATCH.to_owned()));
                },
                Some(true) => {},
            }
            h += 1;
        }
        assert(self@.hunks.take(h as int) =~= self@.hunks);
        match rest_gap(&src, pos, old, new) {
            None => None,
            Some(gap) => {
                let ghost before = gap_views(gaps@);
                gaps.push(gap);
                assert(gap_views(gaps@) =~= before.push(line_views(gap@)));
                Some(Ok(gaps))
            },
        }
    }

    /// The old file around the hunks: the lines of `source` before, between
    /// and after them, numbered in both files. An error where `source` runs
    /// out before a hunk or differs from its old side.
    pub fn context(&self, source: &str) -> (r: Result<Vec<Vec<Line>>, String>)
        requires
            context_result(self@.hunks, source@) is Some,
        ensures
            match r {
                Ok(gaps) => context_result(self@.hunks, source@) == Some(
                    Ok::<Seq<Seq<LineView>>, ()>(gap_views(gaps@)),
                ),
                Err(e) => context_result(self@.hunks, source@) == Some(
                    Err::<Seq<Seq<LineView>>, ()>(()),
                ) && e@ == MISMATCH@,
            },
    {
        match self.context_checked(source) {
            Some(r) => r,
            None => Err(MISMATCH.to_owned()),
        }
    }
}

/// Once the reading went wrong, later hunks change nothing.
proof fn lemma_read_stuck(hunks: Seq<HunkView>, src: Seq<Seq<char>>, k: int)
    requires
        0 <= k <= hunks.len(),
        !(read_hunks(hunks.take(k), src) is Open),
    ensures
        read_hunks(hunks, src) == read_hunks(hunks.take(k), src),
    decreases hunks.len(),
{
    if k == hunks.len() {
        assert(hunks.take(k) =~= hunks);
    } else {
        assert(hunks.drop_last().take(k) =~= hunks.take(k));
        lemma_read_stuck(hunks.drop_last(), src, k);
    }
}

// ---------------------------------------------------------------------------
// The changes a commit takes, from what git reports.

/// The tree git compares against when there is no commit to measure from.
pub const EMPTY_TREE: &'static str = "4b825dc642cb6eb9a060e54bf8d69288fbee4904";

/// The commit the changes are measured against.
pub const HEAD_REV: &'static str = "HEAD";

/// The commit an amending commit is measured against.
pub const PARENT_REV: &'static str = "HEAD~1";

/// The git arguments that resolve the commit the changes are measured
/// against: the parent of HEAD when the commit amends HEAD.
pub open spec fn base_query_spec(amend: bool) -> Seq<Seq<char>> {
    seq!["rev-parse"@, "--verify"@, "--quiet"@, if amend { PARENT_REV@ } else { HEAD_REV@ }]
}

/// The git arguments of the diff a commit of `scope` takes against `base`.
pub open spec fn diff_args_spec(scope: Scope, base: Seq<char>) -> Seq<Seq<char>> {
    let common = seq!["diff"@, "--no-color"@, "--no-ext-diff"@, "--find-renames"@, "-U3"@];
    if scope == Scope::Staged {
        common.push("--cached"@).push(base)
    } else {
        common.push(base)
    }
}

/// The git arguments that list the untracked files.
pub open spec fn listing_args_spec() -> Seq<Seq<char>> {
    seq!["ls-files"@, "--others"@, "--exclude-standard"@]
}

/// The git arguments of the diff that adds an untracked file.
pub open spec fn untracked_args_spec(path: Seq<char>) -> Seq<Seq<char>> {
    seq!["diff"@, "--no-color"@, "--no-index"@, "/dev/null"@, path]
}

/// Where the old side of a file can be read from: `base:path` at its old
/// path, for a text file that existed before and still exists.
pub open spec fn source_of(base: Seq<char>, file: FileDiffView) -> Option<Seq<char>> {
    if !file.binary && file.status != Status::Added && file.status != Status::Deleted {
        Some(
            base + seq![':'] + match file.old_path {
                Some(old) => old,
                None => file.path,
            },
        )
    } else {
        file.source
    }
}

/// `file` with the place of its old side.
pub open spec fn with_source(base: Seq<char>, file: FileDiffView) -> FileDiffView {
    FileDiffView {
        path: file.path,
        old_path: file.old_path,
        status: file.status,
        binary: file.binary,
        hunks: file.hunks,
        source: source_of(base, file),
    }
}

/// The files of each diff in turn; `None` where one of them overflows.
pub open spec fn parse_all(diffs: Seq<Seq<char>>) -> Option<Seq<FileDiffView>>
    decreases diffs.len(),
{
    if diffs.len() == 0 {
        Some(Seq::empty())
    } else {
        match (parse_all(diffs.drop_last()), parse_result(diffs.last())) {
            (Some(before), Some(last)) => Some(before + last),
            _ => None,
        }
    }
}

/// The files a commit of `scope` takes: those of the diff against `base`,
/// each with the place of its old side, and for the whole working tree the
/// files of each untracked file's diff after them.
pub open spec fn changes_result(
    scope: Scope,
    base: Seq<char>,
    diff: Seq<char>,
    untracked: Seq<Seq<char>>,
) -> Option<Seq<FileDiffView>> {
    match parse_result(diff) {
        None => None,
        Some(files) => {
            let files = files.map_values(|f: FileDiffView| with_source(base, f));
            if scope == Scope::Worktree {
                match parse_all(untracked) {
                    Some(more) => Some(files + more),
                    None => None,
                }
            } else {
                Some(files)
            }
        },
    }
}

/// A vector of the given words.
fn words(list: Vec<&str>) -> (args: Vec<String>)
    ensures
        texts(args@) == list@.map_values(|w: &str| w@),
{
    let mut args: Vec<String> = Vec::new();
    let mut i: usize = 0;
    while i < list.len()
        invariant
            i <= list@.len(),
            texts(args@) == list@.take(i as int).map_values(|w: &str| w@),
        decreases list@.len() - i,
    {
        let word: String = list[i].to_owned();
        assert(word@ == list@[i as int]@);
        let ghost before = texts(args@);
        args.push(word);
        assert(texts(args@) == before.push(word@));
        i += 1;
        assert(texts(args@) =~= list@.take(i as int).map_values(|w: &str| w@));
    }
    assert(list@.take(i as int) =~= list@);
    args
}

/// The git arguments that resolve the commit the changes are measured
/// against.
pub fn base_query(amend: bool) -> (args: Vec<String>)
    ensures
        texts(args@) == base_query_spec(amend),
{
    let rev = if amend { PARENT_REV } else { HEAD_REV };
    let args = words(vec!["rev-parse", "--verify", "--quiet", rev]);
    assert(texts(args@) =~= base_query_spec(amend));
    args
}

/// The commit the changes are measured against, from what resolving it
/// gave; the empty tree when there is none, as for a root commit.
pub fn base(resolved: Result<String, String>) -> (b: String)
    ensures
        resolved matches Ok(rev) ==> b@ == rev@,
        resolved is Err ==> b@ == EMPTY_TREE@,
{
    match resolved {
        Ok(rev) => rev,
        Err(_) => EMPTY_TREE.to_owned(),
    }
}

/// The git arguments of the diff a commit of `scope` takes against `base`.
pub fn diff_args(scope: Scope, base: &str) -> (args: Vec<String>)
    ensures
        texts(args@) == diff_args_spec(scope, base@),
{
    let mut args = words(vec!["diff", "--no-color", "--no-ext-diff", "--find-renames", "-U3"]);
    let ghost common = texts(args@);
    if scope == Scope::Staged {
        args.push("--cached".to_owned());
        assert(texts(args@) == common.push("--cached"@));
    }
    let ghost before = texts(args@);
    let last = base.to_owned();
    args.push(last);
    assert(texts(args@) == before.push(base@));
    assert(texts(args@) =~= diff_args_spec(scope, base@));
    args
}

/// The git arguments that list the untracked files.
pub fn listing_args() -> (args: Vec<String>)
    ensures
        texts(args@) == listing_args_spec(),
{
    let args = words(vec!["ls-files", "--others", "--exclude-standard"]);
    assert(texts(args@) =~= listing_args_spec());
    args
}

/// The untracked files of a listing, one per line.
pub fn untracked_paths(listing: &str) -> (paths: Vec<String>)
    ensures
        texts(paths@) == lines(listing@),
{
    let ls = lines_of(listing);
    let mut paths: Vec<String> = Vec::new();
    let mut i: usize = 0;
    while i < ls.len()
        invariant
            i <= ls@.len(),
            views(ls@) == lines(listing@),
            texts(paths@) == views(ls@).take(i as int),
        decreases ls@.len() - i,
    {
        let line = &ls[i];
        let path = string_of(line.as_slice(), 0, line.len());
        assert(path@ =~= views(ls@)[i as int]);
        let ghost before = texts(paths@);
        paths.push(path);
        assert(texts(paths@) == before.push(path@));
        i += 1;
        assert(texts(paths@) =~= views(ls@).take(i as int));
    }
    assert(views(ls@).take(i as int) =~= views(ls@));
    paths
}

/// The git arguments of the diff that adds the untracked file `path`.
pub fn untracked_args(path: &str) -> (args: Vec<String>)
    ensures
        texts(args@) == untracked_args_spec(path@),
{
    let args = words(vec!["diff", "--no-color", "--no-index", "/dev/null", path]);
    assert(texts(args@) =~= untracked_args_spec(path@));
    args
}

/// `base:path` for a text file that existed before and still exists.
fn set_source(base: &str, file: &mut FileDiff)
    ensures
        final(file)@ == with_source(base@, old(file)@),
{
    if !file.binary && file.status != Status::Added && file.status != Status::Deleted {
        let mut source = base.to_owned();
        source.push(':');
        assert(source@ == base@ + seq![':']);
        match &file.old_path {
            Some(old) => append_text(&mut source, old.as_str()),
            None => append_text(&mut source, file.path.as_str()),
        }
        assert(Some(source@) == source_of(base@, file@));
        file.source = Some(source);
        assert(file@.source == source_of(base@, old(file)@));
    }
    assert(file@.path == old(file)@.path);
    assert(file@.hunks == old(file)@.hunks);
}

/// The files a commit of `scope` takes, from the diff of the files git tracks
/// against `base` and, for the whole working tree, the diff that adds each
/// untracked file; `None` where a line number would pass `u32::MAX`.
pub fn changes(scope: Scope, base: &str, diff: &str, untracked: &[String]) -> (r: Option<Vec<FileDiff>>)
    ensures
        r matches Some(files) ==> changes_result(scope, base@, diff@, texts(untracked@)) == Some(
            file_views(files@),
        ),
        r is None ==> changes_result(scope, base@, diff@, texts(untracked@)) is None,
{
    let parsed = match parse_checked(diff) {
        Some(parsed) => parsed,
        None => return None,
    };
    let ghost fs = file_views(parsed@);
    let mut files: Vec<FileDiff> = Vec::new();
    for file in it: parsed
        invariant
            it.seq() == parsed@,
            fs == file_views(parsed@),
            file_views(files@) == fs.take(it.index() as int).map_values(|f: FileDiffView| with_source(base@, f)),
    {
        let ghost i = it.index();
        let mut file = file;
        set_source(base, &mut file);
        let ghost before = file_views(files@);
        files.push(file);
        assert(file_views(files@) == before.push(file@));
        assert(file@ == with_source(base@, fs[i as int]));
        assert(file_views(files@) =~= fs.take(i + 1).map_values(|f: FileDiffView| with_source(base@, f)));
    }
    assert(fs.take(fs.len() as int) =~= fs);
    if scope != Scope::Worktree {
        return Some(files);
    }
    let ghost ts = texts(untracked@);
    let ghost start = file_views(files@);
    let mut i: usize = 0;
    assert(ts.take(0) =~= Seq::<Seq<char>>::empty());
    assert(start + Seq::<FileDiffView>::empty() =~= start);
    while i < untracked.len()
        invariant
            i <= untracked@.len(),
            ts == texts(untracked@),
            parse_result(diff@) == Some(fs),
            scope == Scope::Worktree,
            parse_all(ts.take(i as int)) matches Some(more) && file_views(files@) == start + more,
        decreases untracked@.len() - i,
    {
        assert(ts.take(i + 1).drop_last() =~= ts.take(i as int));
        assert(ts.take(i + 1).last() == untracked@[i as int]@);
        let mut more = match parse_checked(untracked[i].as_str()) {
            Some(more) => more,
            None => {
                proof {
                    lemma_parse_all_failed(ts, i + 1);
                }
                return None;
            },
        };
        let ghost before = file_views(files@);
        files.append(&mut more);
        i += 1;
        assert(file_views(files@) =~= before + parse_result(ts[i - 1]).unwrap());
    }
    assert(ts.take(i as int) =~= ts);
    Some(files)
}

/// Once one diff overflows, the whole list does.
proof fn lemma_parse_all_failed(diffs: Seq<Seq<char>>, k: int)
    requires
        0 <= k <= diffs.len(),
        parse_all(diffs.take(k)) is None,
    ensures
        parse_all(diffs) is None,
    decreases diffs.len(),
{
    if k == diffs.len() {
        assert(diffs.take(k) =~= diffs);
    } else {
        assert(diffs.drop_last().take(k) =~= diffs.take(k));
        lemma_parse_all_failed(diffs.drop_last(), k);
    }
}

// ---------------------------------------------------------------------------
// What the source context keeps.

/// The texts of a gap's lines.
pub open spec fn gap_texts(gap: Seq<LineView>) -> Seq<Seq<char>> {
    gap.map_values(|l: LineView| l.text)
}

/// The first `k` gaps, each followed by the old side of the hunk after it.
pub open spec fn interleaved(gaps: Seq<Seq<LineView>>, hunks: Seq<HunkView>, k: int) -> Seq<Seq<char>>
    decreases k,
{
    if k <= 0 {
        Seq::empty()
    } else {
        interleaved(gaps, hunks, k - 1) + gap_texts(gaps[k - 1]) + old_side(hunks[k - 1].lines)
    }
}

/// The interleaving of the first `k` gaps and hunks depends on those alone.
proof fn lemma_interleaved_prefix(
    gaps: Seq<Seq<LineView>>,
    hunks: Seq<HunkView>,
    gaps2: Seq<Seq<LineView>>,
    hunks2: Seq<HunkView>,
    k: int,
)
    requires
        0 <= k <= gaps.len(),
        k <= gaps2.len(),
        k <= hunks.len(),
        k <= hunks2.len(),
        gaps.take(k) == gaps2.take(k),
        hunks.take(k) == hunks2.take(k),
    ensures
        interleaved(gaps, hunks, k) == interleaved(gaps2, hunks2, k),
    decreases k,
{
    if k > 0 {
        assert(gaps.take(k - 1) =~= gaps2.take(k - 1));
        assert(hunks.take(k - 1) =~= hunks2.take(k - 1));
        assert(gaps[k - 1] == gaps.take(k)[k - 1]);
        assert(gaps2[k - 1] == gaps2.take(k)[k - 1]);
        assert(hunks[k - 1] == hunks.take(k)[k - 1]);
        assert(hunks2[k - 1] == hunks2.take(k)[k - 1]);
        lemma_interleaved_prefix(gaps, hunks, gaps2, hunks2, k - 1);
    }
}

/// Every line of a gap is a context line.
pub open spec fn all_context(gaps: Seq<Seq<LineView>>) -> bool {
    forall|g: int, i: int| 0 <= g < gaps.len() && 0 <= i < gaps[g].len() ==> (#[trigger] gaps[g][i]).kind == Kind::Context
}

/// While the reading goes on, it has read the source up to its position,
/// as a gap before each hunk and the hunk's old side after it.
proof fn lemma_reading(hunks: Seq<HunkView>, src: Seq<Seq<char>>)
    ensures
        read_hunks(hunks, src) matches Reading::Open { pos, gaps, .. } ==> {
            &&& 0 <= pos <= src.len()
            &&& gaps.len() == hunks.len()
            &&& interleaved(gaps, hunks, hunks.len() as int) == src.take(pos)
            &&& all_context(gaps)
        },
    decreases hunks.len(),
{
    if hunks.len() > 0 {
        let prev = hunks.drop_last();
        lemma_reading(prev, src);
        let r = read_hunks(prev, src);
        if let Reading::Open { pos, old, new, gaps } = r {
            let hunk = hunks.last();
            let need: int = if old < hunk.old.start { hunk.old.start - old } else { 0 };
            let after = pos + need;
            let olds = old_side(hunk.lines);
            if let Reading::Open { pos: pos2, gaps: gaps2, .. } = read_hunks(hunks, src) {
                let gap = numbered(src.subrange(pos, after), old as int, new as int);
                assert(gaps2 == gaps.push(gap));
                assert(pos2 == after + olds.len());
                assert(gaps2.take(prev.len() as int) =~= gaps);
                assert(hunks.take(prev.len() as int) =~= prev);
                assert(gaps.take(prev.len() as int) =~= gaps);
                assert(prev.take(prev.len() as int) =~= prev);
                lemma_interleaved_prefix(gaps2, hunks, gaps, prev, prev.len() as int);
                assert(gap_texts(gap) =~= src.subrange(pos, after));
                assert(src.take(pos2) =~= src.take(pos) + src.subrange(pos, after) + olds);
                assert(interleaved(gaps2, hunks, hunks.len() as int) =~= src.take(pos2));
                assert forall|g: int, i: int| 0 <= g < gaps2.len() && 0 <= i < gaps2[g].len() implies (
                #[trigger] gaps2[g][i]).kind == Kind::Context by {
                    if g < gaps.len() {
                        assert(gaps2[g] == gaps[g]);
                    }
                }
            }
        }
    }
}

/// The source around the hunks keeps every line of the source: the gaps,
/// one before each hunk and one after the last, with the old side of each
/// hunk between them, give back the source's lines in order; and every
/// line of a gap is a context line.
pub proof fn context_law(hunks: Seq<HunkView>, source: Seq<char>)
    requires
        context_result(hunks, source) matches Some(Ok(_)),
    ensures
        context_result(hunks, source) matches Some(Ok(gaps)) && {
            &&& gaps.len() == hunks.len() + 1
            &&& interleaved(gaps, hunks, hunks.len() as int) + gap_texts(gaps.last()) == lines(source)
            &&& all_context(gaps)
        },
{
    let src = lines(source);
    lemma_reading(hunks, src);
    if let Reading::Open { pos, old, new, gaps } = read_hunks(hunks, src) {
        let last = numbered(src.skip(pos), old as int, new as int);
        let all = gaps.push(last);
        assert(all.take(hunks.len() as int) =~= gaps);
        assert(gaps.take(hunks.len() as int) =~= gaps);
        assert(hunks.take(hunks.len() as int) =~= hunks);
        lemma_interleaved_prefix(all, hunks, gaps, hunks, hunks.len() as int);
        assert(gap_texts(last) =~= src.skip(pos));
        assert(src.take(pos) + src.skip(pos) =~= src);
        assert forall|g: int, i: int| 0 <= g < all.len() && 0 <= i < all[g].len() implies (#[trigger] all[g][i]).kind
            == Kind::Context by {
            if g < gaps.len() {
                assert(all[g] == gaps[g]);
            }
        }
    }
}

// ---------------------------------------------------------------------------
// How `parse` numbers the lines of a hunk.

/// How many of the first `k` lines the old file holds.
pub open spec fn old_count(lines: Seq<LineView>, k: int) -> int
    decreases k,
{
    if k <= 0 {
        0
    } else {
        old_count(lines, k - 1) + if lines[k - 1].old is Some { 1int } else { 0int }
    }
}

/// How many of the first `k` lines the new file holds.
pub open spec fn new_count(lines: Seq<LineView>, k: int) -> int
    decreases k,
{
    if k <= 0 {
        0
    } else {
        new_count(lines, k - 1) + if lines[k - 1].new is Some { 1int } else { 0int }
    }
}

/// A line has a number in the files that hold it, and only in those.
pub open spec fn sides_fit(line: LineView) -> bool {
    match line.kind {
        Kind::Add => line.old is None && line.new is Some,
        Kind::Del => line.old is Some && line.new is None,
        Kind::Context => line.old is Some && line.new is Some,
    }
}

/// Each line of the hunk is numbered on its sides, from the starts of the
/// hunk's ranges on.
pub open spec fn hunk_numbered(hunk: HunkView) -> bool {
    forall|k: int|
        0 <= k < hunk.lines.len() ==> {
            &&& sides_fit(#[trigger] hunk.lines[k])
            &&& (hunk.lines[k].old matches Some(n) ==> n == hunk.old.start + old_count(hunk.lines, k))
            &&& (hunk.lines[k].new matches Some(n) ==> n == hunk.new.start + new_count(hunk.lines, k))
        }
}

/// Every hunk of every file is numbered.
pub open spec fn files_numbered(files: Seq<FileDiffView>) -> bool {
    forall|f: int, h: int|
        0 <= f < files.len() && 0 <= h < files[f].hunks.len() ==> hunk_numbered(#[trigger] files[f].hunks[h])
}

/// The counters hold the numbers the next lines of the current hunk take.
pub open spec fn counters_match(st: ParseState) -> bool {
    st.files.len() > 0 && st.files.last().hunks.len() > 0 ==> {
        let hunk = st.files.last().hunks.last();
        &&& st.old_no == hunk.old.start + old_count(hunk.lines, hunk.lines.len() as int)
        &&& st.new_no == hunk.new.start + new_count(hunk.lines, hunk.lines.len() as int)
    }
}

/// Counting the first lines looks at those alone.
proof fn lemma_count_prefix(a: Seq<LineView>, b: Seq<LineView>, k: int)
    requires
        0 <= k <= a.len(),
        k <= b.len(),
        a.take(k) == b.take(k),
    ensures
        old_count(a, k) == old_count(b, k),
        new_count(a, k) == new_count(b, k),
    decreases k,
{
    if k > 0 {
        assert(a.take(k - 1) =~= b.take(k - 1));
        assert(a[k - 1] == a.take(k)[k - 1]);
        assert(b[k - 1] == b.take(k)[k - 1]);
        lemma_count_prefix(a, b, k - 1);
    }
}

/// A hunk stays numbered with one more line numbered where it stands.
proof fn lemma_push_line(hunk: HunkView, line: LineView, old_no: u32, new_no: u32)
    requires
        hunk_numbered(hunk),
        old_no == hunk.old.start + old_count(hunk.lines, hunk.lines.len() as int),
        new_no == hunk.new.start + new_count(hunk.lines, hunk.lines.len() as int),
        sides_fit(line),
        line.old matches Some(n) ==> n == old_no,
        line.new matches Some(n) ==> n == new_no,
    ensures
        hunk_numbered(HunkView { lines: hunk.lines.push(line), ..hunk }),
        old_no + (if line.old is Some { 1int } else { 0int }) == hunk.old.start + old_count(
            hunk.lines.push(line),
            hunk.lines.len() + 1int,
        ),
        new_no + (if line.new is Some { 1int } else { 0int }) == hunk.new.start + new_count(
            hunk.lines.push(line),
            hunk.lines.len() + 1int,
        ),
{
    let lines = hunk.lines.push(line);
    let n = hunk.lines.len() as int;
    let grown = HunkView { lines, ..hunk };
    assert(lines.take(n) =~= hunk.lines.take(n));
    lemma_count_prefix(lines, hunk.lines, n);
    assert forall|k: int| 0 <= k < lines.len() implies {
        &&& sides_fit(#[trigger] lines[k])
        &&& (lines[k].old matches Some(m) ==> m == hunk.old.start + old_count(lines, k))
        &&& (lines[k].new matches Some(m) ==> m == hunk.new.start + new_count(lines, k))
    } by {
        if k < n {
            assert(lines.take(k) =~= hunk.lines.take(k));
            lemma_count_prefix(lines, hunk.lines, k);
            assert(lines[k] == hunk.lines[k]);
        }
    }
    assert(grown.lines == lines);
}

/// One more line of a diff keeps every hunk numbered, and the counters at
/// the numbers the next lines take.
proof fn lemma_step_numbered(st: ParseState, line: Seq<char>)
    requires
        files_numbered(st.files),
        counters_match(st),
    ensures
        step(st, line) matches Some(next) ==> files_numbered(next.files) && counters_match(next),
{
    if let Some(next) = step(st, line) {
        let files = st.files;
        if starts_with(line, DIFF_HEADER@) {
            assert forall|f: int, h: int|
                0 <= f < next.files.len() && 0 <= h < next.files[f].hunks.len() implies hunk_numbered(
                #[trigger] next.files[f].hunks[h],
            ) by {
                assert(f < files.len());
                assert(next.files[f] == files[f]);
            }
        } else if files.len() == 0 {
        } else if starts_with(line, HUNK_HEADER@) {
            let file = files.last();
            let last = next.files.last();
            assert forall|f: int, h: int|
                0 <= f < next.files.len() && 0 <= h < next.files[f].hunks.len() implies hunk_numbered(
                #[trigger] next.files[f].hunks[h],
            ) by {
                if f < files.len() - 1 {
                    assert(next.files[f] == files[f]);
                } else if h < file.hunks.len() {
                    assert(next.files[f].hunks[h] == file.hunks[h]);
                }
            }
        } else if files.last().hunks.len() > 0 {
            let file = files.last();
            let hunk = file.hunks.last();
            let text = line.drop_first();
            if line.len() > 0 && (line[0] == '+' || line[0] == '-' || line[0] == ' ') {
                let added = if line[0] == '+' {
                    LineView { kind: Kind::Add, old: None, new: Some(st.new_no), text }
                } else if line[0] == '-' {
                    LineView { kind: Kind::Del, old: Some(st.old_no), new: None, text }
                } else {
                    LineView { kind: Kind::Context, old: Some(st.old_no), new: Some(st.new_no), text }
                };
                assert(hunk_numbered(hunk));
                lemma_push_line(hunk, added, st.old_no, st.new_no);
                let grown = with_line(file, added);
                assert(next.files == with_last(files, grown));
                assert(grown.hunks.last() == (HunkView { lines: hunk.lines.push(added), ..hunk }));
                assert forall|f: int, h: int|
                    0 <= f < next.files.len() && 0 <= h < next.files[f].hunks.len() implies hunk_numbered(
                    #[trigger] next.files[f].hunks[h],
                ) by {
                    if f < files.len() - 1 {
                        assert(next.files[f] == files[f]);
                    } else if h < file.hunks.len() - 1 {
                        assert(next.files[f].hunks[h] == file.hunks[h]);
                    }
                }
            }
        } else {
            let file = files.last();
            assert(header_line(file, line).hunks == file.hunks);
            assert forall|f: int, h: int|
                0 <= f < next.files.len() && 0 <= h < next.files[f].hunks.len() implies hunk_numbered(
                #[trigger] next.files[f].hunks[h],
            ) by {
                if f < files.len() - 1 {
                    assert(next.files[f] == files[f]);
                }
            }
        }
    }
}

/// Every hunk is numbered after any lines.
proof fn lemma_run_numbered(lines: Seq<Seq<char>>)
    ensures
        run(lines) matches Some(st) ==> files_numbered(st.files) && counters_match(st),
    decreases lines.len(),
{
    if lines.len() > 0 {
        lemma_run_numbered(lines.drop_last());
        if let Some(st) = run(lines.drop_last()) {
            lemma_step_numbered(st, lines.last());
        }
    }
}

/// Every line of every hunk that `parse` gives is numbered where it
/// stands: an added line in the new file only, a deleted line in the old
/// file only, a context line in both; and each number continues from the
/// start its hunk header gives, one more for each line before it on the
/// same side.
pub proof fn numbering_law(diff: Seq<char>)
    requires
        parse_result(diff) is Some,
    ensures
        files_numbered(parse_result(diff).unwrap()),
{
    lemma_run_numbered(lines(diff));
}

// ---------------------------------------------------------------------------
// What quoting a line gives back.

/// The line as a diff writes it: its marker, then its text.
pub open spec fn quote(line: LineView) -> Seq<char> {
    seq![marker(line.kind)] + line.text
}

/// Every line of every hunk, quoted, is one of `source`.
pub open spec fn quotes_from(files: Seq<FileDiffView>, source: Seq<Seq<char>>) -> bool {
    forall|f: int, h: int, k: int|
        0 <= f < files.len() && 0 <= h < files[f].hunks.len() && 0 <= k < files[f].hunks[h].lines.len()
            ==> source.contains(quote(#[trigger] files[f].hunks[h].lines[k]))
}

/// After the first lines, each line of a hunk quotes one of them.
proof fn lemma_run_quotes(lines: Seq<Seq<char>>)
    ensures
        run(lines) matches Some(st) ==> quotes_from(st.files, lines),
    decreases lines.len(),
{
    if lines.len() > 0 {
        let before = lines.drop_last();
        let line = lines.last();
        lemma_run_quotes(before);
        if let Some(st) = run(before) {
            if let Some(next) = step(st, line) {
                let files = st.files;
                assert forall|f: int, h: int, k: int|
                    0 <= f < next.files.len() && 0 <= h < next.files[f].hunks.len() && 0 <= k
                        < next.files[f].hunks[h].lines.len() implies lines.contains(
                    quote(#[trigger] next.files[f].hunks[h].lines[k]),
                ) by {
                    let l = next.files[f].hunks[h].lines[k];
                    if f < files.len() && h < files[f].hunks.len() && k < files[f].hunks[h].lines.len() && l
                        == files[f].hunks[h].lines[k] {
                        assert(before.contains(quote(l)));
                        let i = choose|i: int| 0 <= i < before.len() && before[i] == quote(l);
                        assert(lines[i] == before[i]);
                    } else {
                        lemma_new_line_quotes(st, line, f, h, k);
                        assert(lines[lines.len() - 1] == line);
                    }
                }
            }
        }
    }
}

/// A line of a hunk that one more line of the diff added is that line.
proof fn lemma_new_line_quotes(st: ParseState, line: Seq<char>, f: int, h: int, k: int)
    requires
        step(st, line) matches Some(next) && 0 <= f < next.files.len() && 0 <= h < next.files[f].hunks.len()
            && 0 <= k < next.files[f].hunks[h].lines.len(),
        !(f < st.files.len() && h < st.files[f].hunks.len() && k < st.files[f].hunks[h].lines.len()
            && step(st, line).unwrap().files[f].hunks[h].lines[k] == st.files[f].hunks[h].lines[k]),
    ensures
        quote(step(st, line).unwrap().files[f].hunks[h].lines[k]) == line,
{
    let next = step(st, line).unwrap();
    let files = st.files;
    if starts_with(line, DIFF_HEADER@) {
        assert(f < files.len() ==> next.files[f] == files[f]);
    } else if files.len() == 0 {
    } else if starts_with(line, HUNK_HEADER@) {
        if f < files.len() - 1 {
            assert(next.files[f] == files[f]);
        } else {
            assert(h < files[f].hunks.len() ==> next.files[f].hunks[h] == files[f].hunks[h]);
        }
    } else if files.last().hunks.len() > 0 {
        if f < files.len() - 1 {
            assert(next.files[f] == files[f]);
        } else if h < files[f].hunks.len() - 1 {
            assert(next.files[f].hunks[h] == files[f].hunks[h]);
        } else if line.len() > 0 && (line[0] == '+' || line[0] == '-' || line[0] == ' ') {
            let hunk = files[f].hunks[h];
            assert(k < hunk.lines.len() ==> next.files[f].hunks[h].lines[k] == hunk.lines[k]);
            assert(k == hunk.lines.len());
            let l = next.files[f].hunks[h].lines[k];
            assert(l.text == line.drop_first());
            assert(marker(l.kind) == line[0]);
            assert(quote(l) =~= line);
        }
    } else {
        if f < files.len() - 1 {
            assert(next.files[f] == files[f]);
        }
        assert(header_line(files.last(), line).hunks == files.last().hunks);
    }
}

/// Quoting a line of a hunk gives back the line of the diff it was read
/// from: its marker, then its text.
pub proof fn quoting_law(diff: Seq<char>)
    requires
        parse_result(diff) is Some,
    ensures
        quotes_from(parse_result(diff).unwrap(), lines(diff)),
{
    lemma_run_quotes(lines(diff));
}

/// A line that ends a hunk: a file header or a hunk header.
pub open spec fn is_boundary(line: Seq<char>) -> bool {
    starts_with(line, DIFF_HEADER@) || starts_with(line, HUNK_HEADER@)
}

/// A line of a hunk's body: added, deleted or context.
pub open spec fn is_marker(line: Seq<char>) -> bool {
    line.len() > 0 && (line[0] == '+' || line[0] == '-' || line[0] == ' ')
}

/// The first line from `j` on that ends a hunk, or the number of lines.
pub open spec fn next_boundary(ls: Seq<Seq<char>>, j: int) -> int
    decreases ls.len() - j,
{
    if j < 0 || j >= ls.len() {
        ls.len() as int
    } else if is_boundary(ls[j]) {
        j
    } else {
        next_boundary(ls, j + 1)
    }
}

/// The body lines among `ls[from..to]`, in order.
pub open spec fn markers(ls: Seq<Seq<char>>, from: int, to: int) -> Seq<Seq<char>>
    decreases to - from,
{
    if to <= from {
        Seq::empty()
    } else {
        let before = markers(ls, from, to - 1);
        if is_marker(ls[to - 1]) {
            before.push(ls[to - 1])
        } else {
            before
        }
    }
}

/// The lines of a hunk, quoted.
pub open spec fn quoted_lines(hunk: HunkView) -> Seq<Seq<char>> {
    hunk.lines.map_values(|l: LineView| quote(l))
}

/// The hunk was read from the diff lines `ls`: its header is the line at
/// `a`, and its lines, quoted, are the body lines after the header up to
/// the next header.
pub open spec fn read_at(ls: Seq<Seq<char>>, hunk: HunkView, a: int) -> bool {
    &&& 0 <= a < ls.len()
    &&& ls[a] == hunk.header
    &&& quoted_lines(hunk) == markers(ls, a + 1, next_boundary(ls, a + 1))
}

/// One more line moves the next header only where none was found.
proof fn lemma_next_boundary_push(ls: Seq<Seq<char>>, line: Seq<char>, j: int)
    requires
        0 <= j <= ls.len(),
    ensures
        next_boundary(ls.push(line), j) == if next_boundary(ls, j) < ls.len() {
            next_boundary(ls, j)
        } else if is_boundary(line) {
            ls.len() as int
        } else {
            ls.len() + 1int
        },
        next_boundary(ls, j) <= ls.len(),
        j <= next_boundary(ls, j),
    decreases ls.len() - j,
{
    if j < ls.len() {
        assert(ls.push(line)[j] == ls[j]);
        if !is_boundary(ls[j]) {
            lemma_next_boundary_push(ls, line, j + 1);
        }
    } else {
        assert(ls.push(line)[j] == line);
        assert(next_boundary(ls.push(line), j + 1) == ls.len() + 1);
    }
}

/// The body lines of a range are those of any lines that agree on it.
proof fn lemma_markers_push(ls: Seq<Seq<char>>, line: Seq<char>, from: int, to: int)
    requires
        0 <= from,
        to <= ls.len(),
    ensures
        markers(ls.push(line), from, to) == markers(ls, from, to),
    decreases to - from,
{
    if to > from {
        assert(ls.push(line)[to - 1] == ls[to - 1]);
        lemma_markers_push(ls, line, from, to - 1);
    }
}

/// A hunk read from `ls` is read at the same place from one more line,
/// its body growing by the line where no header came after it.
proof fn lemma_read_push(ls: Seq<Seq<char>>, line: Seq<char>, hunk: HunkView, a: int)
    requires
        read_at(ls, hunk, a),
    ensures
        next_boundary(ls, a + 1) <= ls.len(),
        next_boundary(ls, a + 1) < ls.len() ==> read_at(ls.push(line), hunk, a) && next_boundary(ls.push(line), a + 1)
            == next_boundary(ls, a + 1),
        next_boundary(ls, a + 1) == ls.len() && is_boundary(line) ==> read_at(ls.push(line), hunk, a)
            && next_boundary(ls.push(line), a + 1) == ls.len(),
        next_boundary(ls, a + 1) == ls.len() && !is_boundary(line) ==> next_boundary(ls.push(line), a + 1) == ls.len()
            + 1 && markers(ls.push(line), a + 1, ls.len() + 1int) == if is_marker(line) {
            quoted_lines(hunk).push(line)
        } else {
            quoted_lines(hunk)
        },
{
    let nl = ls.push(line);
    lemma_next_boundary_push(ls, line, a + 1);
    assert(nl[a] == ls[a]);
    lemma_markers_push(ls, line, a + 1, next_boundary(ls, a + 1));
    if next_boundary(ls, a + 1) == ls.len() && !is_boundary(line) {
        assert(nl[ls.len() as int] == line);
        lemma_markers_push(ls, line, a + 1, ls.len() as int);
    }
}

/// Some line of `ls` opens a file.
pub open spec fn opens_file(ls: Seq<Seq<char>>) -> bool
    decreases ls.len(),
{
    ls.len() > 0 && (opens_file(ls.drop_last()) || starts_with(ls.last(), DIFF_HEADER@))
}

/// Where the hunk headers of the diff lines `ls` stand, in order: every
/// line that starts with `@@ ` after a line that opens a file.
pub open spec fn hunk_headers(ls: Seq<Seq<char>>) -> Seq<int>
    decreases ls.len(),
{
    if ls.len() == 0 {
        Seq::empty()
    } else {
        let before = hunk_headers(ls.drop_last());
        let line = ls.last();
        if !starts_with(line, DIFF_HEADER@) && starts_with(line, HUNK_HEADER@) && opens_file(ls.drop_last()) {
            before.push(ls.len() - 1)
        } else {
            before
        }
    }
}

/// Every hunk of every file, in order.
pub open spec fn all_hunks(files: Seq<FileDiffView>) -> Seq<HunkView>
    decreases files.len(),
{
    if files.len() == 0 {
        Seq::empty()
    } else {
        all_hunks(files.drop_last()) + files.last().hunks
    }
}

/// The hunks of the files so far were each read at its own header, the
/// `k`-th hunk at the `k`-th header; all but the last are closed by a
/// later header, and the last is still open exactly when the last file
/// has hunks.
pub open spec fn headers_read(files: Seq<FileDiffView>, ls: Seq<Seq<char>>) -> bool {
    let hunks = all_hunks(files);
    let at = hunk_headers(ls);
    &&& (files.len() > 0) == opens_file(ls)
    &&& hunks.len() == at.len()
    &&& forall|k: int| #![trigger hunks[k]] 0 <= k < hunks.len() ==> read_at(ls, hunks[k], at[k])
    &&& forall|k: int| #![trigger at[k]] 0 <= k < at.len() - 1 ==> next_boundary(ls, at[k] + 1) < ls.len()
    &&& at.len() > 0 ==> ((next_boundary(ls, at.last() + 1) == ls.len()) == (files.last().hunks.len() > 0))
}

/// The hunks of the files with one file replaced at the end.
proof fn lemma_all_hunks_last(files: Seq<FileDiffView>, file: FileDiffView)
    requires
        files.len() > 0,
    ensures
        all_hunks(with_last(files, file)) == all_hunks(files.drop_last()) + file.hunks,
        all_hunks(files) == all_hunks(files.drop_last()) + files.last().hunks,
{
    assert(with_last(files, file).drop_last() =~= files.drop_last());
}

/// The hunks of the files with one more file at the end.
proof fn lemma_all_hunks_push(files: Seq<FileDiffView>, file: FileDiffView)
    ensures
        all_hunks(files.push(file)) == all_hunks(files) + file.hunks,
{
    assert(files.push(file).drop_last() =~= files);
}

/// One more line of the diff keeps every hunk read at its own header.
proof fn lemma_step_headers(st: ParseState, ls: Seq<Seq<char>>, line: Seq<char>)
    requires
        headers_read(st.files, ls),
    ensures
        step(st, line) matches Some(next) ==> headers_read(next.files, ls.push(line)),
{
    if let Some(next) = step(st, line) {
        let files = st.files;
        let nl = ls.push(line);
        let n = ls.len() as int;
        let hunks = all_hunks(files);
        let at = hunk_headers(ls);
        let nhunks = all_hunks(next.files);
        let heads = hunk_headers(nl);
        assert(nl.drop_last() =~= ls);
        assert(nl.last() == line);
        // Each hunk read so far stays read at its header.
        assert forall|k: int| 0 <= k < hunks.len() implies {
            &&& next_boundary(ls, at[k] + 1) <= ls.len()
            &&& next_boundary(ls, at[k] + 1) < ls.len() ==> read_at(nl, hunks[k], at[k]) && next_boundary(nl, at[k] + 1)
                == next_boundary(ls, at[k] + 1)
            &&& next_boundary(ls, at[k] + 1) == ls.len() && is_boundary(line) ==> read_at(nl, hunks[k], at[k])
                && next_boundary(nl, at[k] + 1) == ls.len()
            &&& next_boundary(ls, at[k] + 1) == ls.len() && !is_boundary(line) ==> next_boundary(nl, at[k] + 1) == ls.len()
                + 1 && markers(nl, at[k] + 1, ls.len() + 1int) == if is_marker(line) {
                quoted_lines(hunks[k]).push(line)
            } else {
                quoted_lines(hunks[k])
            }
        } by {
            assert(read_at(ls, hunks[k], at[k]));
            lemma_read_push(ls, line, hunks[k], at[k]);
        }
        if starts_with(line, DIFF_HEADER@) {
            lemma_all_hunks_push(files, new_file(header_new_path(line.skip(DIFF_HEADER@.len() as int))));
            assert(nhunks =~= hunks);
            assert(heads == at);
            assert(is_boundary(line));
        } else if files.len() == 0 {
            assert(heads == at);
        } else if starts_with(line, HUNK_HEADER@) {
            let file = files.last();
            let nh = next.files.last().hunks.last();
            assert(next.files == with_last(files, FileDiffView { hunks: file.hunks.push(nh), ..file }));
            lemma_all_hunks_last(files, FileDiffView { hunks: file.hunks.push(nh), ..file });
            assert(nhunks =~= hunks.push(nh));
            assert(heads == at.push(n));
            assert(nh.header == line && nh.lines.len() == 0);
            assert(is_boundary(line));
            assert(next_boundary(nl, n + 1) == nl.len());
            assert(quoted_lines(nh) =~= markers(nl, n + 1, n + 1));
            assert(read_at(nl, nh, n));
            assert forall|k: int| #![trigger nhunks[k]] 0 <= k < nhunks.len() implies read_at(nl, nhunks[k], heads[k]) by {
                if k < hunks.len() {
                    assert(nhunks[k] == hunks[k]);
                    assert(heads[k] == at[k]);
                }
            }
            assert forall|k: int| #![trigger heads[k]] 0 <= k < heads.len() - 1 implies next_boundary(nl, heads[k] + 1)
                < nl.len() by {
                assert(heads[k] == at[k]);
            }
        } else if files.last().hunks.len() > 0 {
            assert(!is_boundary(line));
            assert(heads == at);
            let file = files.last();
            lemma_all_hunks_last(files, file);
            assert(hunks.len() > 0);
            let last = hunks.len() - 1;
            assert(hunks[last] == file.hunks.last());
            assert(next_boundary(ls, at[last] + 1) == ls.len());
            if is_marker(line) {
                let nfile = next.files.last();
                let l = nfile.hunks.last().lines.last();
                assert(next.files == with_last(files, with_line(file, l)));
                lemma_all_hunks_last(files, with_line(file, l));
                let old_h = file.hunks.last();
                let new_h = HunkView { lines: old_h.lines.push(l), ..old_h };
                assert(nhunks =~= hunks.update(last, new_h));
                assert(l.text == line.drop_first());
                assert(marker(l.kind) == line[0]);
                assert(quote(l) =~= line);
                assert(quoted_lines(new_h) =~= quoted_lines(old_h).push(line));
            } else {
                assert(next == st);
            }
            assert forall|k: int| #![trigger nhunks[k]] 0 <= k < nhunks.len() implies read_at(nl, nhunks[k], heads[k]) by {
                if k < last {
                    assert(nhunks[k] == hunks[k]);
                    assert(next_boundary(ls, at[k] + 1) < ls.len());
                }
            }
            assert forall|k: int| #![trigger heads[k]] 0 <= k < heads.len() - 1 implies next_boundary(nl, heads[k] + 1)
                < nl.len() by {
                assert(next_boundary(ls, at[k] + 1) < ls.len());
            }
        } else {
            assert(!is_boundary(line));
            assert(heads == at);
            let file = files.last();
            assert(header_line(file, line).hunks == file.hunks);
            lemma_all_hunks_last(files, header_line(file, line));
            assert(nhunks =~= hunks);
            assert forall|k: int| #![trigger nhunks[k]] 0 <= k < nhunks.len() implies read_at(nl, nhunks[k], heads[k]) by {
                assert(next_boundary(ls, at[k] + 1) < ls.len()) by {
                    if k == at.len() - 1 {
                    }
                }
            }
            assert forall|k: int| #![trigger heads[k]] 0 <= k < heads.len() - 1 implies next_boundary(nl, heads[k] + 1)
                < nl.len() by {
                assert(next_boundary(ls, at[k] + 1) < ls.len());
            }
        }
    }
}

/// After the first lines, every hunk was read at its own header.
proof fn lemma_run_headers(ls: Seq<Seq<char>>)
    ensures
        run(ls) matches Some(st) ==> headers_read(st.files, ls),
    decreases ls.len(),
{
    if ls.len() > 0 {
        lemma_run_headers(ls.drop_last());
        if let Some(st) = run(ls.drop_last()) {
            lemma_step_headers(st, ls.drop_last(), ls.last());
            assert(ls.drop_last().push(ls.last()) =~= ls);
        }
    } else {
        assert(all_hunks(Seq::<FileDiffView>::empty()) =~= Seq::<HunkView>::empty());
    }
}

/// The hunks that `parse` gives, in order, stand one for one at the hunk
/// headers of the diff, in order: the `k`-th hunk was read at the `k`-th
/// line that starts with `@@ ` after a file header, and its lines, quoted,
/// are exactly the added, deleted and context lines that follow that
/// header up to the next header, in order.
pub proof fn hunk_quoting_law(diff: Seq<char>)
    requires
        parse_result(diff) is Some,
    ensures
        ({
            let hunks = all_hunks(parse_result(diff).unwrap());
            let at = hunk_headers(lines(diff));
            &&& hunks.len() == at.len()
            &&& forall|k: int| 0 <= k < hunks.len() ==> #[trigger] read_at(lines(diff), hunks[k], at[k])
        }),
{
    lemma_run_headers(lines(diff));
    let hunks = all_hunks(parse_result(diff).unwrap());
    let at = hunk_headers(lines(diff));
    assert forall|k: int| 0 <= k < hunks.len() implies #[trigger] read_at(lines(diff), hunks[k], at[k]) by {
        assert(hunks[k] == hunks[k]);
    }
}

// ---------------------------------------------------------------------------
// Where the old side of each file is read.

/// No file has a source yet.
pub open spec fn sourceless(files: Seq<FileDiffView>) -> bool {
    forall|i: int| 0 <= i < files.len() ==> (#[trigger] files[i]).source is None
}

/// Parsing leaves every file without a source.
proof fn lemma_run_sourceless(ls: Seq<Seq<char>>)
    ensures
        run(ls) matches Some(st) ==> sourceless(st.files),
    decreases ls.len(),
{
    if ls.len() > 0 {
        lemma_run_sourceless(ls.drop_last());
        if let Some(st) = run(ls.drop_last()) {
            let line = ls.last();
            if let Some(next) = step(st, line) {
                assert forall|i: int| 0 <= i < next.files.len() implies (#[trigger] next.files[i]).source is None by {
                    if i < st.files.len() {
                        assert(st.files[i].source is None);
                    }
                }
            }
        }
    }
}

/// The diffs of untracked files leave every file without a source.
proof fn lemma_parse_all_sourceless(diffs: Seq<Seq<char>>)
    ensures
        parse_all(diffs) matches Some(files) ==> sourceless(files),
    decreases diffs.len(),
{
    if diffs.len() > 0 {
        lemma_parse_all_sourceless(diffs.drop_last());
        lemma_run_sourceless(lines(diffs.last()));
        if let (Some(before), Some(last)) = (parse_all(diffs.drop_last()), parse_result(diffs.last())) {
            assert forall|i: int| 0 <= i < (before + last).len() implies (#[trigger] (before + last)[i]).source is None by {
                if i >= before.len() {
                    assert((before + last)[i] == last[i - before.len()]);
                }
            }
        }
    }
}

/// The files a commit takes are those the diffs describe, in order: the
/// tracked files first, each as parsed but for its source, then for the
/// whole working tree the untracked files as parsed. A tracked text file
/// that existed before and still exists is read from `base:` and its old
/// path; a file that was added or deleted, a binary file and an untracked
/// file have no source to read.
pub proof fn source_law(scope: Scope, base: Seq<char>, diff: Seq<char>, untracked: Seq<Seq<char>>)
    requires
        changes_result(scope, base, diff, untracked) is Some,
    ensures
        ({
            let files = changes_result(scope, base, diff, untracked).unwrap();
            let parsed = parse_result(diff).unwrap();
            &&& parsed.len() <= files.len()
            &&& scope != Scope::Worktree ==> files.len() == parsed.len()
            &&& forall|i: int|
                0 <= i < files.len() ==> ((#[trigger] files[i]).binary || files[i].status == Status::Added
                    || files[i].status == Status::Deleted) ==> files[i].source is None
            &&& forall|i: int|
                0 <= i < parsed.len() ==> {
                    &&& (#[trigger] files[i]).path == parsed[i].path
                    &&& files[i].old_path == parsed[i].old_path
                    &&& files[i].status == parsed[i].status
                    &&& files[i].binary == parsed[i].binary
                    &&& files[i].hunks == parsed[i].hunks
                    &&& (!parsed[i].binary && parsed[i].status != Status::Added && parsed[i].status
                        != Status::Deleted) ==> files[i].source == Some(
                        base + seq![':'] + match parsed[i].old_path {
                            Some(old) => old,
                            None => parsed[i].path,
                        },
                    )
                }
            &&& forall|i: int| parsed.len() <= i < files.len() ==> (#[trigger] files[i]).source is None
        }),
{
    let parsed = parse_result(diff).unwrap();
    lemma_run_sourceless(lines(diff));
    lemma_parse_all_sourceless(untracked);
    let sourced = parsed.map_values(|f: FileDiffView| with_source(base, f));
    let files = changes_result(scope, base, diff, untracked).unwrap();
    assert forall|i: int| 0 <= i < files.len() implies ((#[trigger] files[i]).binary || files[i].status == Status::Added
        || files[i].status == Status::Deleted) ==> files[i].source is None by {
        if i < parsed.len() {
            assert(files[i] == sourced[i]);
            assert(parsed[i].source is None);
        } else {
            let more = parse_all(untracked).unwrap();
            assert(files[i] == more[i - parsed.len()]);
        }
    }
    assert forall|i: int| parsed.len() <= i < files.len() implies (#[trigger] files[i]).source is None by {
        let more = parse_all(untracked).unwrap();
        assert(files[i] == more[i - parsed.len()]);
    }
    assert forall|i: int| 0 <= i < parsed.len() implies (#[trigger] files[i]) == sourced[i] by {
        if scope == Scope::Worktree {
            let more = parse_all(untracked).unwrap();
            assert(files == sourced + more);
        }
    }
}

} // verus!
