//! Syntax colors for the lines of a diff, from syntect's default syntaxes:
//! each line split into colored byte ranges that cover it end to end.

use std::ops::Range;
use std::path::Path;
use std::str::FromStr;

use syntect::easy::HighlightLines;
use syntect::highlighting::{Color as SyntaxColor, ScopeSelectors, StyleModifier, Theme, ThemeItem, ThemeSettings};
use syntect::parsing::{SyntaxReference, SyntaxSet};

use vstd::prelude::*;
use vstd::utf8::{
    encode_scalar, encode_utf8, encode_utf8_first_scalar, encode_utf8_valid_utf8, is_char_boundary, pop_first_scalar,
};

use crate::theme::{channels, color, Swatch};
use crate::diff::{all_lines, line_views, old_side, sides_fit, text_option, FileDiff, HunkView, Kind, Line, LineView};

verus! {

#[verifier::external_type_specification]
#[verifier::external_body]
pub struct ExSyntaxSet(SyntaxSet);

#[verifier::external_type_specification]
#[verifier::external_body]
pub struct ExSyntaxReference(SyntaxReference);

#[verifier::external_type_specification]
#[verifier::external_body]
pub struct ExTheme(Theme);

#[verifier::external_type_specification]
#[verifier::external_body]
pub struct ExThemeItem(ThemeItem);

#[verifier::external_type_specification]
#[verifier::external_body]
pub struct ExHighlightLines<'a>(HighlightLines<'a>);

#[verifier::external_type_specification]
#[verifier::external_body]
pub struct ExSyntectError(syntect::Error);

/// A color, eight bits a channel.
#[derive(Debug, PartialEq, Eq, Structural, Clone, Copy, Hash)]
pub struct Rgba {
    pub red: u8,
    pub green: u8,
    pub blue: u8,
    pub alpha: u8,
}

/// An opaque color.
pub fn rgb(red: u8, green: u8, blue: u8) -> (color: Rgba)
    ensures
        color == (Rgba { red, green, blue, alpha: 255 }),
{
    Rgba { red, green, blue, alpha: 255 }
}

/// A colored byte range of a line.
pub struct Highlight {
    pub range: Range<usize>,
    pub color: Rgba,
}

/// The colored ranges of every line of a diff: those of line `i` are
/// `spans[lines[i]]`.
pub struct Highlights {
    pub spans: Vec<Highlight>,
    pub lines: Vec<Range<usize>>,
}

/// A colored byte range, its ends as numbers.
pub struct HighlightView {
    pub start: usize,
    pub end: usize,
    pub color: Rgba,
}

impl View for Highlight {
    type V = HighlightView;

    open spec fn view(&self) -> HighlightView {
        HighlightView { start: self.range.start, end: self.range.end, color: self.color }
    }
}

pub open spec fn highlight_views(s: Seq<Highlight>) -> Seq<HighlightView> {
    s.map_values(|h: Highlight| h@)
}

/// The length of `s` in UTF-8, as `str::len` counts it.
pub open spec fn byte_len(s: Seq<char>) -> int {
    encode_utf8(s).len() as int
}

/// A piece of a line as text: its color and its characters.
pub open spec fn piece_views(pieces: Seq<(Rgba, String)>) -> Seq<(Rgba, Seq<char>)> {
    pieces.map_values(|p: (Rgba, String)| (p.0, p.1@))
}

/// The texts of the pieces one after another.
pub open spec fn joined(pieces: Seq<(Rgba, Seq<char>)>) -> Seq<char>
    decreases pieces.len(),
{
    if pieces.len() == 0 {
        Seq::empty()
    } else {
        joined(pieces.drop_last()) + pieces.last().1
    }
}

/// The colored byte ranges of the pieces of a line, each piece's range
/// where its text stands in the line.
pub open spec fn piece_spans(pieces: Seq<(Rgba, Seq<char>)>) -> Seq<HighlightView> {
    Seq::new(
        pieces.len(),
        |k: int|
            HighlightView {
                start: byte_len(joined(pieces.take(k))) as usize,
                end: byte_len(joined(pieces.take(k + 1))) as usize,
                color: pieces[k].0,
            },
    )
}

/// `spans` cover `text` end to end, each starting where the one before
/// ends, each starting and ending on a character boundary of the text; or
/// there are none.
pub open spec fn tiles(spans: Seq<HighlightView>, text: Seq<char>) -> bool {
    spans.len() == 0 || {
        &&& spans[0].start == 0
        &&& spans.last().end == byte_len(text)
        &&& forall|k: int| 0 <= k < spans.len() ==> (#[trigger] spans[k]).start <= spans[k].end
        &&& forall|k: int| 0 <= k < spans.len() - 1 ==> (#[trigger] spans[k]).end == spans[k + 1].start
        &&& forall|k: int|
            0 <= k < spans.len() ==> is_char_boundary(encode_utf8(text), (#[trigger] spans[k]).start as int)
                && is_char_boundary(encode_utf8(text), spans[k].end as int)
    }
}

/// The spans of line `i`.
pub open spec fn line_spans_at(spans: Seq<HighlightView>, lines: Seq<Range<usize>>, i: int) -> Seq<HighlightView> {
    spans.subrange(lines[i].start as int, lines[i].end as int)
}

/// The ranges of the lines follow one another over all spans, and the
/// spans of each line cover it end to end or are none.
pub open spec fn covers(spans: Seq<HighlightView>, lines: Seq<Range<usize>>, texts: Seq<LineView>) -> bool {
    &&& lines.len() == texts.len()
    &&& lines.len() == 0 ==> spans.len() == 0
    &&& lines.len() > 0 ==> lines[0].start == 0 && lines.last().end == spans.len()
    &&& forall|i: int| 0 <= i < lines.len() ==> (#[trigger] lines[i]).start <= lines[i].end <= spans.len()
    &&& forall|i: int| 0 <= i < lines.len() - 1 ==> (#[trigger] lines[i]).end == lines[i + 1].start
    &&& forall|i: int| 0 <= i < lines.len() ==> tiles(#[trigger] line_spans_at(spans, lines, i), texts[i].text)
}

/// The spans of the pieces expected for a line, or none where syntect
/// fails on it.
pub open spec fn spans_of(expected: Option<Seq<(Rgba, Seq<char>)>>) -> Seq<HighlightView> {
    match expected {
        Some(pieces) => piece_spans(pieces),
        None => Seq::empty(),
    }
}

/// The spans of each line are those of the pieces expected for it, and
/// none where syntect fails on it.
pub open spec fn colored(
    spans: Seq<HighlightView>,
    lines: Seq<Range<usize>>,
    expected: Seq<Option<Seq<(Rgba, Seq<char>)>>>,
) -> bool {
    &&& lines.len() == expected.len()
    &&& forall|i: int| 0 <= i < lines.len() ==> #[trigger] line_spans_at(spans, lines, i) == spans_of(expected[i])
}

/// UTF-8 encodes a concatenation piece by piece.
pub proof fn lemma_encode_concat(a: Seq<char>, b: Seq<char>)
    ensures
        encode_utf8(a + b) == encode_utf8(a) + encode_utf8(b),
    decreases a.len(),
{
    if a.len() > 0 {
        lemma_encode_concat(a.drop_first(), b);
        assert((a + b).drop_first() =~= a.drop_first() + b);
        assert((a + b)[0] == a[0]);
        assert(encode_utf8(a + b) =~= encode_utf8(a) + encode_utf8(b));
    } else {
        assert(a + b =~= b);
    }
}

/// Where one text ends in a concatenation, a character starts.
proof fn lemma_boundary_at_join(a: Seq<char>, b: Seq<char>)
    ensures
        is_char_boundary(encode_utf8(a + b), encode_utf8(a).len() as int),
    decreases a.len(),
{
    encode_utf8_valid_utf8(a + b);
    if a.len() > 0 {
        let c = a + b;
        let bytes = encode_utf8(c);
        encode_utf8_first_scalar(c);
        assert(c.drop_first() =~= a.drop_first() + b);
        assert(pop_first_scalar(bytes) =~= encode_utf8(c.drop_first()));
        assert(c[0] == a[0]);
        lemma_boundary_at_join(a.drop_first(), b);
        lemma_encode_concat(a, b);
        assert(encode_utf8(a).len() == encode_scalar(a[0] as u32).len() + encode_utf8(a.drop_first()).len());
    }
}

/// The pieces before `k` and those from `k` on make the whole.
proof fn lemma_joined_split(pieces: Seq<(Rgba, Seq<char>)>, k: int)
    requires
        0 <= k <= pieces.len(),
    ensures
        joined(pieces) == joined(pieces.take(k)) + joined(pieces.skip(k)),
    decreases pieces.len(),
{
    if k == pieces.len() {
        assert(pieces.take(k) =~= pieces);
        assert(pieces.skip(k) =~= Seq::<(Rgba, Seq<char>)>::empty());
        assert(joined(pieces.take(k)) + Seq::<char>::empty() =~= joined(pieces.take(k)));
    } else {
        lemma_joined_split(pieces.drop_last(), k);
        assert(pieces.drop_last().take(k) =~= pieces.take(k));
        assert(pieces.skip(k).drop_last() =~= pieces.drop_last().skip(k));
        assert(pieces.skip(k).last() == pieces.last());
        assert(joined(pieces) =~= joined(pieces.take(k)) + joined(pieces.skip(k)));
    }
}

/// The pieces before `k` take the first bytes of the whole, and end on a
/// character boundary of it.
proof fn lemma_joined_prefix(pieces: Seq<(Rgba, Seq<char>)>, k: int)
    requires
        0 <= k <= pieces.len(),
    ensures
        byte_len(joined(pieces.take(k))) <= byte_len(joined(pieces)),
        is_char_boundary(encode_utf8(joined(pieces)), byte_len(joined(pieces.take(k)))),
        k < pieces.len() ==> byte_len(joined(pieces.take(k + 1))) == byte_len(joined(pieces.take(k))) + byte_len(
            pieces[k].1,
        ),
{
    lemma_joined_split(pieces, k);
    lemma_encode_concat(joined(pieces.take(k)), joined(pieces.skip(k)));
    lemma_boundary_at_join(joined(pieces.take(k)), joined(pieces.skip(k)));
    if k < pieces.len() {
        assert(pieces.take(k + 1).drop_last() =~= pieces.take(k));
        lemma_encode_concat(joined(pieces.take(k)), pieces[k].1);
    }
}

/// The spans of the pieces of a line cover the line end to end, each
/// starting and ending on a character boundary.
pub proof fn tiling_law(pieces: Seq<(Rgba, Seq<char>)>)
    requires
        byte_len(joined(pieces)) <= usize::MAX,
    ensures
        tiles(piece_spans(pieces), joined(pieces)),
{
    let s = piece_spans(pieces);
    if pieces.len() > 0 {
        assert(pieces.take(0) =~= Seq::<(Rgba, Seq<char>)>::empty());
        assert(pieces.take(pieces.len() as int) =~= pieces);
        assert forall|k: int| 0 <= k < s.len() implies (#[trigger] s[k]).start <= s[k].end && is_char_boundary(
            encode_utf8(joined(pieces)),
            s[k].start as int,
        ) && is_char_boundary(encode_utf8(joined(pieces)), s[k].end as int) by {
            lemma_joined_prefix(pieces, k);
            lemma_joined_prefix(pieces, k + 1);
        }
        lemma_joined_prefix(pieces, 0);
        assert(s.last().end == byte_len(joined(pieces)));
    }
}

/// The colored byte ranges of the pieces of a line, each piece's range
/// where its text stands in the line.
pub fn line_spans(pieces: &[(Rgba, String)]) -> (spans: Vec<Highlight>)
    requires
        byte_len(joined(piece_views(pieces@))) <= usize::MAX,
    ensures
        highlight_views(spans@) == piece_spans(piece_views(pieces@)),
{
    let ghost pv = piece_views(pieces@);
    let mut spans: Vec<Highlight> = Vec::new();
    let mut offset: usize = 0;
    let mut k: usize = 0;
    assert(pv.take(0) =~= Seq::<(Rgba, Seq<char>)>::empty());
    while k < pieces.len()
        invariant
            k <= pieces@.len(),
            pv == piece_views(pieces@),
            byte_len(joined(pv)) <= usize::MAX,
            offset == byte_len(joined(pv.take(k as int))),
            highlight_views(spans@) == piece_spans(pv).take(k as int),
        decreases pieces@.len() - k,
    {
        proof {
            lemma_joined_prefix(pv, k as int);
            lemma_joined_prefix(pv, k + 1);
        }
        let text = pieces[k].1.as_str();
        let n = text.len();
        assert(n == byte_len(pv[k as int].1));
        let end = offset + n;
        let span = Highlight { range: Range { start: offset, end }, color: pieces[k].0 };
        let ghost before = highlight_views(spans@);
        assert(span@ == piece_spans(pv)[k as int]);
        spans.push(span);
        assert(highlight_views(spans@) == before.push(span@));
        offset = end;
        k += 1;
        assert(highlight_views(spans@) =~= piece_spans(pv).take(k as int));
    }
    assert(piece_spans(pv).take(k as int) =~= piece_spans(pv));
    spans
}

/// The colors of the review and the syntaxes syntect knows: always
/// syntect's default syntaxes and a theme, with the text color, background
/// color and rules that the theme was built from.
pub struct Assets {
    syntaxes: SyntaxSet,
    theme: Theme,
    text: Ghost<Rgba>,
    background: Ghost<Rgba>,
    rules: Ghost<Seq<(Seq<char>, Rgba)>>,
}

/// The color of a swatch, as a value.
pub open spec fn swatch_color(swatch: Swatch) -> Rgba {
    let c = channels(swatch);
    Rgba { red: c.0, green: c.1, blue: c.2, alpha: c.3 }
}

/// `ScopeSelectors::from_str`: the theme rule that colors what `scope`
/// selects; `None` where syntect does not read the selector. Nothing is
/// claimed of the rule, nor of when it is `None`: besides the text, that
/// depends on how many scope atoms syntect's process-wide repository has
/// taken in.
#[verifier::external_body]
fn theme_item(scope: &str, foreground: Rgba) -> Option<ThemeItem> {
    let color = SyntaxColor { r: foreground.red, g: foreground.green, b: foreground.blue, a: foreground.alpha };
    let style = StyleModifier { foreground: Some(color), background: None, font_style: None };
    ScopeSelectors::from_str(scope).ok().map(|scope| ThemeItem { scope, style })
}

/// A syntect `Theme` of the given rules, over the default settings with
/// the given text and background colors. Nothing is claimed of it.
#[verifier::external_body]
fn theme(text: Rgba, background: Rgba, scopes: Vec<ThemeItem>) -> Theme {
    let color = |c: Rgba| SyntaxColor { r: c.red, g: c.green, b: c.blue, a: c.alpha };
    let settings =
        ThemeSettings { foreground: Some(color(text)), background: Some(color(background)), ..ThemeSettings::default() };
    Theme { settings, scopes, ..Theme::default() }
}

/// `SyntaxSet::load_defaults_nonewlines`: syntect's default syntaxes, for
/// lines without their line break. Nothing is claimed of the set.
#[verifier::external_body]
fn load_syntaxes() -> SyntaxSet {
    SyntaxSet::load_defaults_nonewlines()
}

/// Whether syntect's default syntaxes hold one for files with this
/// extension, compared without regard to ASCII case.
pub uninterp spec fn default_syntax_known(extension: Seq<char>) -> bool;

/// The pieces, as colors and texts, that syntect gives for `line` with a
/// theme of the text color `text` and the selector rules `rules`, in the
/// default syntax found for the extension `key`, after the lines `before`
/// were highlighted from the start; `None` where syntect fails on the line.
pub uninterp spec fn default_pieces(
    text: Rgba,
    rules: Seq<(Seq<char>, Rgba)>,
    key: Seq<char>,
    before: Seq<Seq<char>>,
    line: Seq<char>,
) -> Option<
    Seq<(Rgba, Seq<char>)>,
>;

/// The pieces of a highlighting outcome, or `None` where it failed.
pub open spec fn outcome<E>(r: Result<Vec<(Rgba, String)>, E>) -> Option<Seq<(Rgba, Seq<char>)>> {
    match r {
        Ok(pieces) => Some(piece_views(pieces@)),
        Err(_) => None,
    }
}

/// `SyntaxSet::find_syntax_by_extension` on the default syntaxes: the
/// syntax of files with the given extension, if there is one. Which one is
/// not claimed; that there is one is named.
#[verifier::external_body]
fn syntax_by_extension<'a>(assets: &'a Assets, extension: &str) -> (r: Option<&'a SyntaxReference>)
    ensures
        r is Some == default_syntax_known(extension@),
{
    assets.syntaxes.find_syntax_by_extension(extension)
}

/// `HighlightLines::new`: a highlighter at the start of a text in the given
/// syntax. Nothing is claimed of it.
#[verifier::external_body]
fn highlighter<'a>(syntax: &SyntaxReference, theme: &'a Theme) -> HighlightLines<'a> {
    HighlightLines::new(syntax, theme)
}

/// A syntax of the default set, with the extension that found it.
pub struct Syntax<'a> {
    syntax: &'a SyntaxReference,
    key: Ghost<Seq<char>>,
}

impl<'a> Syntax<'a> {
    /// The extension that found the syntax.
    pub closed spec fn key(&self) -> Seq<char> {
        self.key@
    }

    /// The default syntax of files with the given extension, if syntect
    /// has one.
    pub fn find(assets: &'a Assets, extension: &str) -> (r: Option<Syntax<'a>>)
        ensures
            r is Some == default_syntax_known(extension@),
            r matches Some(s) ==> s.key() == extension@,
    {
        match syntax_by_extension(assets, extension) {
            Some(syntax) => Some(Syntax { syntax, key: Ghost(extension@) }),
            None => None,
        }
    }
}

/// A highlighter, with the text color and rules of its theme, the syntax it
/// was started in and the lines it was given so far.
struct Highlighter<'a> {
    lines: HighlightLines<'a>,
    text: Ghost<Rgba>,
    rules: Ghost<Seq<(Seq<char>, Rgba)>>,
    key: Ghost<Seq<char>>,
    fed: Ghost<Seq<Seq<char>>>,
}

impl<'a> Highlighter<'a> {
    spec fn text(&self) -> Rgba {
        self.text@
    }

    spec fn rules(&self) -> Seq<(Seq<char>, Rgba)> {
        self.rules@
    }

    spec fn key(&self) -> Seq<char> {
        self.key@
    }

    spec fn fed(&self) -> Seq<Seq<char>> {
        self.fed@
    }

    /// A highlighter at the start of a text in the syntax, with the theme
    /// of `assets`.
    fn start(syntax: &Syntax, assets: &'a Assets) -> (h: Highlighter<'a>)
        ensures
            h.text() == assets.text(),
            h.rules() == assets.rules(),
            h.key() == syntax.key(),
            h.fed() == Seq::<Seq<char>>::empty(),
    {
        Highlighter {
            lines: highlighter(syntax.syntax, &assets.theme),
            text: Ghost(assets.text@),
            rules: Ghost(assets.rules@),
            key: Ghost(syntax.key@),
            fed: Ghost(Seq::empty()),
        }
    }
}

/// `HighlightLines::highlight_line`: the pieces of the line, each with its
/// foreground color; the highlighter moves past the line. As syntect's
/// documentation of the iterator it collects says, the texts of the pieces
/// make the line when put one after another. What they are is named: a
/// function of the theme's text color and rules, the syntax, the lines
/// highlighted before and the line, the syntaxes being always syntect's
/// default ones; so is whether syntect fails on the line.
#[verifier::external_body]
fn highlight_line(h: &mut Highlighter<'_>, line: &str, assets: &Assets) -> (r: Result<Vec<(Rgba, String)>, syntect::Error>)
    ensures
        final(h).text() == old(h).text(),
        final(h).rules() == old(h).rules(),
        final(h).key() == old(h).key(),
        final(h).fed() == old(h).fed().push(line@),
        r matches Ok(pieces) ==> joined(piece_views(pieces@)) == line@,
        outcome(r) == default_pieces(old(h).text(), old(h).rules(), old(h).key(), old(h).fed(), line@),
{
    h.lines.highlight_line(line, &assets.syntaxes).map(
        |regions| regions.into_iter().map(|(style, text)| (Rgba { red: style.foreground.r, green: style.foreground.g, blue: style.foreground.b, alpha: style.foreground.a }, text.to_owned())).collect(),
    )
}

/// What `Path::file_name` gives for a path, as text.
pub uninterp spec fn path_file_name(path: Seq<char>) -> Option<Seq<char>>;

/// What `Path::extension` gives for a path, as text.
pub uninterp spec fn path_extension(path: Seq<char>) -> Option<Seq<char>>;

/// `Path::file_name`: the last component of the path, if it is a name.
#[verifier::external_body]
fn file_name(path: &str) -> (name: Option<String>)
    ensures
        text_option(name) == path_file_name(path@),
{
    Path::new(path).file_name().and_then(|name| name.to_str()).map(|name| name.to_owned())
}

/// `Path::extension`: what follows the last dot of the file name, if any.
#[verifier::external_body]
fn extension(path: &str) -> (ext: Option<String>)
    ensures
        text_option(ext) == path_extension(path@),
{
    Path::new(path).extension().and_then(|ext| ext.to_str()).map(|ext| ext.to_owned())
}

impl Default for Highlights {
    fn default() -> (h: Self)
        ensures
            h.spans@.len() == 0,
            h.lines@.len() == 0,
    {
        Highlights { spans: Vec::new(), lines: Vec::new() }
    }
}

impl Highlights {
    /// The colored ranges of line `index`: none past the last line.
    pub fn line(&self, index: usize) -> (spans: &[Highlight])
        requires
            index < self.lines@.len() ==> self.lines@[index as int].start <= self.lines@[index as int].end
                <= self.spans@.len(),
        ensures
            index < self.lines@.len() ==> spans@ == self.spans@.subrange(
                self.lines@[index as int].start as int,
                self.lines@[index as int].end as int,
            ),
            index >= self.lines@.len() ==> spans@.len() == 0,
    {
        if index < self.lines.len() {
            let range = &self.lines[index];
            let all = self.spans.as_slice();
            &all[range.start..range.end]
        } else {
            &[]
        }
    }
}

/// The rules of the review's theme: a selector of syntect scopes and the
/// color of what it selects.
pub open spec fn theme_rules_spec() -> Seq<(Seq<char>, Rgba)> {
    let muted = channels(Swatch::Muted);
    let success = channels(Swatch::Success);
    let hover = channels(Swatch::AccentHover);
    let accent = channels(Swatch::Accent);
    let purple = channels(Swatch::Purple);
    seq![
        ("comment"@, Rgba { red: muted.0, green: muted.1, blue: muted.2, alpha: muted.3 }),
        ("string"@, Rgba { red: success.0, green: success.1, blue: success.2, alpha: success.3 }),
        (
            "constant.numeric, constant.language, constant.character"@,
            Rgba { red: 143, green: 187, blue: 194, alpha: 255 },
        ),
        ("keyword, storage"@, Rgba { red: hover.0, green: hover.1, blue: hover.2, alpha: hover.3 }),
        (
            "entity.name.function, support.function"@,
            Rgba { red: accent.0, green: accent.1, blue: accent.2, alpha: accent.3 },
        ),
        (
            "entity.name.type, entity.name.class, support.type, support.class, entity.name.tag"@,
            Rgba { red: purple.0, green: purple.1, blue: purple.2, alpha: purple.3 },
        ),
        ("entity.other.attribute-name"@, Rgba { red: accent.0, green: accent.1, blue: accent.2, alpha: accent.3 }),
    ]
}

/// The theme of the review: comments, strings, constants, keywords,
/// functions, types and attributes each in a color of their own.
pub fn theme_rules() -> (rules: Vec<(&'static str, Rgba)>)
    ensures
        rules@.map_values(|r: (&'static str, Rgba)| (r.0@, r.1)) == theme_rules_spec(),
{
    let rules = vec![
        ("comment", color(Swatch::Muted)),
        ("string", color(Swatch::Success)),
        ("constant.numeric, constant.language, constant.character", rgb(143, 187, 194)),
        ("keyword, storage", color(Swatch::AccentHover)),
        ("entity.name.function, support.function", color(Swatch::Accent)),
        (
            "entity.name.type, entity.name.class, support.type, support.class, entity.name.tag",
            color(Swatch::Purple),
        ),
        ("entity.other.attribute-name", color(Swatch::Accent)),
    ];
    assert(rules@.map_values(|r: (&'static str, Rgba)| (r.0@, r.1)) =~= theme_rules_spec());
    rules
}

impl Assets {
    /// The text color the theme was built with.
    pub closed spec fn text(&self) -> Rgba {
        self.text@
    }

    /// The background color the theme was built with.
    pub closed spec fn background(&self) -> Rgba {
        self.background@
    }

    /// The selector rules the theme was built with, in order.
    pub closed spec fn rules(&self) -> Seq<(Seq<char>, Rgba)> {
        self.rules@
    }

    /// syntect's default syntaxes and the review's theme: the text and
    /// background swatches and the rules of `theme_rules`; `None` where
    /// syntect does not read a selector of the theme, which depends on the
    /// scopes the process has read before, not on anything given here.
    pub fn new() -> (r: Option<Assets>)
        ensures
            r matches Some(a) ==> {
                &&& a.text() == swatch_color(Swatch::Text)
                &&& a.background() == swatch_color(Swatch::Background)
                &&& a.rules() == theme_rules_spec()
            },
    {
        let rules = theme_rules();
        let mut items: Vec<ThemeItem> = Vec::new();
        let ghost mut passed: Seq<(Seq<char>, Rgba)> = Seq::empty();
        let mut i: usize = 0;
        while i < rules.len()
            invariant
                i <= rules@.len(),
                rules@.map_values(|r: (&'static str, Rgba)| (r.0@, r.1)) == theme_rules_spec(),
                passed == theme_rules_spec().take(i as int),
            decreases rules@.len() - i,
        {
            let (scope, color) = rules[i];
            match theme_item(scope, color) {
                Some(item) => items.push(item),
                None => return None,
            }
            proof {
                passed = passed.push((scope@, color));
                assert(theme_rules_spec()[i as int] == (scope@, color));
                assert(passed =~= theme_rules_spec().take(i + 1));
            }
            i += 1;
        }
        assert(passed =~= theme_rules_spec());
        let text = color(Swatch::Text);
        let background = color(Swatch::Background);
        Some(
            Assets {
                syntaxes: load_syntaxes(),
                theme: theme(text, background, items),
                text: Ghost(text),
                background: Ghost(background),
                rules: Ghost(passed),
            },
        )
    }
}

/// The lines before `l` of a hunk that the highlighter of the old side
/// (`old`) or of the new side was given: the old side takes deleted and
/// context lines, the new side added and context lines.
pub open spec fn side_history(lines: Seq<LineView>, l: int, old: bool) -> Seq<Seq<char>>
    decreases l,
{
    if l <= 0 {
        Seq::empty()
    } else {
        let before = side_history(lines, l - 1, old);
        let line = lines[l - 1];
        if (old && line.kind != Kind::Add) || (!old && line.kind != Kind::Del) {
            before.push(line.text)
        } else {
            before
        }
    }
}

/// The pieces expected for line `l` of a hunk: a deleted line highlighted
/// after the old side of the hunk so far, any other after the new side.
pub open spec fn expected_line(
    text: Rgba,
    rules: Seq<(Seq<char>, Rgba)>,
    key: Seq<char>,
    lines: Seq<LineView>,
    l: int,
) -> Option<Seq<(Rgba, Seq<char>)>> {
    default_pieces(text, rules, key, side_history(lines, l, lines[l].kind == Kind::Del), lines[l].text)
}

/// The pieces expected for each line of every hunk, in order, each hunk
/// highlighted afresh.
pub open spec fn expected_all(
    text: Rgba,
    rules: Seq<(Seq<char>, Rgba)>,
    key: Seq<char>,
    hunks: Seq<HunkView>,
) -> Seq<Option<Seq<(Rgba, Seq<char>)>>>
    decreases hunks.len(),
{
    if hunks.len() == 0 {
        Seq::empty()
    } else {
        let lines = hunks.last().lines;
        expected_all(text, rules, key, hunks.drop_last()) + Seq::new(
            lines.len(),
            |l: int| expected_line(text, rules, key, lines, l),
        )
    }
}

/// Every line of every hunk has a length in bytes that a `usize` holds.
pub open spec fn lines_fit(hunks: Seq<HunkView>) -> bool {
    forall|h: int, l: int|
        0 <= h < hunks.len() && 0 <= l < hunks[h].lines.len() ==> byte_len(#[trigger] hunks[h].lines[l].text)
            <= usize::MAX
}

/// Appends the spans of one more line: those of its pieces, where
/// highlighting it worked, else none.
fn push_line(
    result: &mut Highlights,
    regions: Result<Vec<(Rgba, String)>, syntect::Error>,
    line: &Line,
    Ghost(done): Ghost<Seq<LineView>>,
    Ghost(expected): Ghost<Seq<Option<Seq<(Rgba, Seq<char>)>>>>,
    Ghost(wanted): Ghost<Option<Seq<(Rgba, Seq<char>)>>>,
)
    requires
        covers(highlight_views(old(result).spans@), old(result).lines@, done),
        colored(highlight_views(old(result).spans@), old(result).lines@, expected),
        regions matches Ok(p) ==> joined(piece_views(p@)) == line.text@,
        outcome(regions) == wanted,
        byte_len(line.text@) <= usize::MAX,
    ensures
        covers(highlight_views(final(result).spans@), final(result).lines@, done.push(line@)),
        colored(highlight_views(final(result).spans@), final(result).lines@, expected.push(wanted)),
{
    let ghost old_spans = highlight_views(result.spans@);
    let ghost old_lines = result.lines@;
    let start = result.spans.len();
    match regions {
        Ok(pieces) => {
            let mut spans = line_spans(pieces.as_slice());
            proof {
                tiling_law(piece_views(pieces@));
            }
            result.spans.append(&mut spans);
            assert(highlight_views(result.spans@) =~= old_spans + piece_spans(piece_views(pieces@)));
        },
        Err(_) => {},
    }
    let end = result.spans.len();
    let ghost part = highlight_views(result.spans@).skip(start as int);
    assert(highlight_views(result.spans@) =~= old_spans + part);
    assert(tiles(part, line.text@));
    assert(part == spans_of(wanted));
    result.lines.push(Range { start, end });
    proof {
        lemma_covers_push(old_spans, old_lines, done, expected, part, line@, wanted);
    }
}

/// One more line whose spans cover it, after those of the lines before.
proof fn lemma_covers_push(
    spans: Seq<HighlightView>,
    lines: Seq<Range<usize>>,
    done: Seq<LineView>,
    expected: Seq<Option<Seq<(Rgba, Seq<char>)>>>,
    part: Seq<HighlightView>,
    line: LineView,
    wanted: Option<Seq<(Rgba, Seq<char>)>>,
)
    requires
        covers(spans, lines, done),
        colored(spans, lines, expected),
        tiles(part, line.text),
        part == spans_of(wanted),
        spans.len() + part.len() <= usize::MAX,
    ensures
        covers(
            spans + part,
            lines.push(Range { start: spans.len() as usize, end: (spans.len() + part.len()) as usize }),
            done.push(line),
        ),
        colored(
            spans + part,
            lines.push(Range { start: spans.len() as usize, end: (spans.len() + part.len()) as usize }),
            expected.push(wanted),
        ),
{
    let all = spans + part;
    let ls = lines.push(Range { start: spans.len() as usize, end: (spans.len() + part.len()) as usize });
    let ds = done.push(line);
    let es = expected.push(wanted);
    assert forall|i: int| 0 <= i < ls.len() implies (#[trigger] ls[i]).start <= ls[i].end <= all.len() by {
        if i < lines.len() {
            assert(ls[i] == lines[i]);
        }
    }
    assert forall|i: int| 0 <= i < ls.len() - 1 implies (#[trigger] ls[i]).end == ls[i + 1].start by {
        if i < lines.len() - 1 {
            assert(ls[i] == lines[i]);
            assert(ls[i + 1] == lines[i + 1]);
        } else {
            assert(ls[i] == lines.last());
        }
    }
    assert forall|i: int| 0 <= i < ls.len() implies tiles(#[trigger] line_spans_at(all, ls, i), ds[i].text) && (
    line_spans_at(all, ls, i) == spans_of(es[i])) by {
        if i < lines.len() {
            assert(ls[i] == lines[i]);
            assert(ds[i] == done[i]);
            assert(es[i] == expected[i]);
            assert(line_spans_at(all, ls, i) =~= line_spans_at(spans, lines, i));
        } else {
            assert(line_spans_at(all, ls, i) =~= part);
        }
    }
}

/// Syntax colors for every line of the file's hunks in the given syntax:
/// one range of spans per line, in order, the spans of each line covering
/// it end to end on character boundaries, or none where syntect fails on
/// the line. Deleted lines are colored as the old file goes and the others
/// as the new one, each hunk afresh: each line gets the pieces syntect
/// gives, with the theme of `assets`, after the lines of its side before it
/// in the hunk.
#[verifier::spinoff_prover]
#[verifier::rlimit(40)]
pub fn highlight_with(file: &FileDiff, assets: &Assets, syntax: &Syntax) -> (r: Highlights)
    requires
        lines_fit(file@.hunks),
    ensures
        covers(highlight_views(r.spans@), r.lines@, all_lines(file@.hunks)),
        colored(highlight_views(r.spans@), r.lines@, expected_all(assets.text(), assets.rules(), syntax.key(), file@.hunks)),
{
    let ghost hunks = file@.hunks;
    let ghost key = syntax.key();
    let mut result = Highlights { spans: Vec::new(), lines: Vec::new() };
    let mut h: usize = 0;
    assert(hunks.take(0) =~= Seq::<HunkView>::empty());
    while h < file.hunks.len()
        invariant
            h <= hunks.len(),
            hunks == file@.hunks,
            key == syntax.key(),
            lines_fit(hunks),
            covers(highlight_views(result.spans@), result.lines@, all_lines(hunks.take(h as int))),
            colored(highlight_views(result.spans@), result.lines@, expected_all(assets.text(), assets.rules(), key, hunks.take(h as int))),
        decreases hunks.len() - h,
    {
        let hunk = &file.hunks[h];
        let ghost lv = line_views(hunk.lines@);
        let ghost before = all_lines(hunks.take(h as int));
        let ghost earlier = expected_all(assets.text(), assets.rules(), key, hunks.take(h as int));
        let ghost this = Seq::new(lv.len(), |l: int| expected_line(assets.text(), assets.rules(), key, lv, l));
        assert(hunks[h as int].lines == lv);
        let mut old = Highlighter::start(syntax, assets);
        let mut new = Highlighter::start(syntax, assets);
        let mut l: usize = 0;
        assert(before + lv.take(0) =~= before);
        assert(earlier + this.take(0) =~= earlier);
        while l < hunk.lines.len()
            invariant
                l <= hunk.lines@.len(),
                h < hunks.len(),
                hunks == file@.hunks,
                lines_fit(hunks),
                lv == line_views(hunk.lines@),
                hunks[h as int].lines == lv,
                this == Seq::new(lv.len(), |l: int| expected_line(assets.text(), assets.rules(), key, lv, l)),
                old.key() == key,
                new.key() == key,
                old.text() == assets.text(),
                new.text() == assets.text(),
                old.rules() == assets.rules(),
                new.rules() == assets.rules(),
                old.fed() == side_history(lv, l as int, true),
                new.fed() == side_history(lv, l as int, false),
                covers(highlight_views(result.spans@), result.lines@, before + lv.take(l as int)),
                colored(highlight_views(result.spans@), result.lines@, earlier + this.take(l as int)),
            decreases hunk.lines@.len() - l,
        {
            let line = &hunk.lines[l];
            assert(lv[l as int] == line@);
            assert(hunks[h as int].lines[l as int] == line@);
            assert(byte_len(hunks[h as int].lines[l as int].text) <= usize::MAX);
            let regions = if line.kind == Kind::Del {
                highlight_line(&mut old, line.text.as_str(), assets)
            } else {
                highlight_line(&mut new, line.text.as_str(), assets)
            };
            assert(this[l as int] == expected_line(assets.text(), assets.rules(), key, lv, l as int));
            push_line(
                &mut result,
                regions,
                line,
                Ghost(before + lv.take(l as int)),
                Ghost(earlier + this.take(l as int)),
                Ghost(this[l as int]),
            );
            if line.kind == Kind::Context {
                let _ = highlight_line(&mut old, line.text.as_str(), assets);
            }
            l += 1;
            assert(before + lv.take(l as int) =~= (before + lv.take(l - 1)).push(line@));
            assert(earlier + this.take(l as int) =~= (earlier + this.take(l - 1)).push(this[l - 1]));
        }
        assert(hunks.take(h + 1).drop_last() =~= hunks.take(h as int));
        assert(lv.take(l as int) =~= lv);
        assert(this.take(l as int) =~= this);
        h += 1;
    }
    assert(hunks.take(h as int) =~= hunks);
    result
}

/// A path's name or extension, or nothing where it has none.
pub open spec fn or_empty(part: Option<Seq<char>>) -> Seq<char> {
    match part {
        Some(p) => p,
        None => Seq::empty(),
    }
}

/// Syntax colors for every line of a text file's hunks, in the default
/// syntax of the file's name, else of its extension. Each line is split
/// into colored byte ranges that cover it end to end, as `highlight_with`
/// says. Nothing for a binary file, a file without hunks, or one whose
/// name and extension syntect does not know.
pub fn highlight(file: &FileDiff, assets: &Assets) -> (r: Highlights)
    requires
        lines_fit(file@.hunks),
    ensures
        ({
            let name = or_empty(path_file_name(file.path@));
            let ext = or_empty(path_extension(file.path@));
            let known = default_syntax_known(name) || default_syntax_known(ext);
            &&& (file.binary || file@.hunks.len() == 0 || !known) ==> r.lines@.len() == 0 && r.spans@.len() == 0
            &&& (!file.binary && file@.hunks.len() > 0 && known) ==> {
                &&& covers(highlight_views(r.spans@), r.lines@, all_lines(file@.hunks))
                &&& colored(
                    highlight_views(r.spans@),
                    r.lines@,
                    expected_all(
                        assets.text(),
                        assets.rules(),
                        if default_syntax_known(name) { name } else { ext },
                        file@.hunks,
                    ),
                )
            }
        }),
{
    let empty = Highlights { spans: Vec::new(), lines: Vec::new() };
    if file.binary || file.hunks.len() == 0 {
        return empty;
    }
    let name = match file_name(file.path.as_str()) {
        Some(name) => name,
        None => String::new(),
    };
    let ext = match extension(file.path.as_str()) {
        Some(ext) => ext,
        None => String::new(),
    };
    assert(name@ == or_empty(path_file_name(file.path@)));
    assert(ext@ == or_empty(path_extension(file.path@)));
    let syntax = match Syntax::find(assets, name.as_str()) {
        Some(syntax) => syntax,
        None => match Syntax::find(assets, ext.as_str()) {
            Some(syntax) => syntax,
            None => return empty,
        },
    };
    highlight_with(file, assets, &syntax)
}

// ---------------------------------------------------------------------------
// What each side's highlighter is fed.

/// The texts of the lines that the new file holds: context and added.
pub open spec fn new_side(lines: Seq<LineView>) -> Seq<Seq<char>>
    decreases lines.len(),
{
    if lines.len() == 0 {
        Seq::empty()
    } else if lines.last().new is Some {
        new_side(lines.drop_last()).push(lines.last().text)
    } else {
        new_side(lines.drop_last())
    }
}

/// Before line `l`, the old side's highlighter was fed the old file's
/// lines of the hunk so far, and the new side's the new file's.
proof fn lemma_side_history(lines: Seq<LineView>, l: int)
    requires
        0 <= l <= lines.len(),
        forall|k: int| 0 <= k < lines.len() ==> sides_fit(#[trigger] lines[k]),
    ensures
        side_history(lines, l, true) == old_side(lines.take(l)),
        side_history(lines, l, false) == new_side(lines.take(l)),
    decreases l,
{
    if l > 0 {
        lemma_side_history(lines, l - 1);
        assert(lines.take(l).drop_last() =~= lines.take(l - 1));
        assert(lines.take(l).last() == lines[l - 1]);
        assert(sides_fit(lines[l - 1]));
    } else {
        assert(lines.take(0) =~= Seq::<LineView>::empty());
    }
}

/// The pieces expected for the hunks hold one entry per line, the lines of
/// hunk `h` after those of the hunks before it.
proof fn lemma_expected_at(
    text: Rgba,
    rules: Seq<(Seq<char>, Rgba)>,
    key: Seq<char>,
    hunks: Seq<HunkView>,
    h: int,
    l: int,
)
    requires
        0 <= h < hunks.len(),
        0 <= l < hunks[h].lines.len(),
    ensures
        expected_all(text, rules, key, hunks).len() == all_lines(hunks).len(),
        expected_all(text, rules, key, hunks)[all_lines(hunks.take(h)).len() + l] == expected_line(
            text,
            rules,
            key,
            hunks[h].lines,
            l,
        ),
    decreases hunks.len(),
{
    lemma_expected_len(text, rules, key, hunks.drop_last());
    let front = hunks.drop_last();
    if h < hunks.len() - 1 {
        lemma_expected_at(text, rules, key, front, h, l);
        assert(front.take(h) =~= hunks.take(h));
        assert(front[h] == hunks[h]);
        lemma_all_lines_take_len(front, h);
    } else {
        assert(hunks.take(h) =~= front);
    }
}

/// The pieces expected for the hunks hold one entry per line.
proof fn lemma_expected_len(text: Rgba, rules: Seq<(Seq<char>, Rgba)>, key: Seq<char>, hunks: Seq<HunkView>)
    ensures
        expected_all(text, rules, key, hunks).len() == all_lines(hunks).len(),
    decreases hunks.len(),
{
    if hunks.len() > 0 {
        lemma_expected_len(text, rules, key, hunks.drop_last());
    }
}

/// The first hunks have no more lines than all.
proof fn lemma_all_lines_take_len(hunks: Seq<HunkView>, h: int)
    requires
        0 <= h < hunks.len(),
    ensures
        all_lines(hunks.take(h)).len() + hunks[h].lines.len() <= all_lines(hunks).len(),
    decreases hunks.len(),
{
    if h < hunks.len() - 1 {
        assert(hunks.drop_last().take(h) =~= hunks.take(h));
        lemma_all_lines_take_len(hunks.drop_last(), h);
    } else {
        assert(hunks.take(h) =~= hunks.drop_last());
    }
}

/// Each line of a hunk is highlighted after the lines of its own side
/// before it in the hunk: a deleted line after every line the old file
/// holds, context lines included, any other line after every line the new
/// file holds. The expected pieces, which `highlight_with` and `highlight`
/// color each line with, hold one entry per line of the hunks, in order.
pub proof fn highlight_feed_law(
    text: Rgba,
    rules: Seq<(Seq<char>, Rgba)>,
    key: Seq<char>,
    hunks: Seq<HunkView>,
    h: int,
    l: int,
)
    requires
        0 <= h < hunks.len(),
        0 <= l < hunks[h].lines.len(),
        forall|k: int| 0 <= k < hunks[h].lines.len() ==> sides_fit(#[trigger] hunks[h].lines[k]),
    ensures
        expected_all(text, rules, key, hunks).len() == all_lines(hunks).len(),
        expected_all(text, rules, key, hunks)[all_lines(hunks.take(h)).len() + l] == default_pieces(
            text,
            rules,
            key,
            if hunks[h].lines[l].kind == Kind::Del {
                old_side(hunks[h].lines.take(l))
            } else {
                new_side(hunks[h].lines.take(l))
            },
            hunks[h].lines[l].text,
        ),
{
    lemma_expected_at(text, rules, key, hunks, h, l);
    lemma_side_history(hunks[h].lines, l);
}

} // verus!
