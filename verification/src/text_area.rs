//! The editing of a multi-line text field, for the notes and the comments:
//! the selection between cursor and anchor, what each key does, and how
//! typed or pasted text replaces the selection.

use vstd::prelude::*;
use vstd::string::StringSliceAdditionalSpecFns;
use vstd::utf8::{
    encode_utf8, encode_utf8_valid_utf8, is_char_boundary, is_char_boundary_iff_not_is_continuation_byte,
    is_char_boundary_start_end_of_seq, valid_utf8, valid_utf8_split,
};

use crate::chars::{append_text, chars_of};
use crate::syntax::{byte_len, lemma_encode_concat};

verus! {

/// Where the cursor of a field is and where the selection started, as
/// byte offsets into its text.
#[derive(Debug, PartialEq, Eq, Structural, Clone, Copy)]
pub struct Caret {
    pub cursor: usize,
    pub anchor: usize,
}

/// A key a field reacts to.
#[derive(Debug, PartialEq, Eq, Structural, Clone, Copy)]
pub enum FieldKey {
    Escape,
    Enter,
    ArrowUp,
    ArrowDown,
    Character(char),
    Other,
}

/// What a key does to a field.
#[derive(Debug, PartialEq, Eq, Structural, Clone, Copy)]
pub enum Edit {
    /// The field is done with.
    Close,
    /// A line break replaces the selection.
    Newline,
    /// The cursor moves a line up or down, the selection growing with it
    /// when `extend`.
    Up { extend: bool },
    Down { extend: bool },
    /// The clipboard replaces the selection.
    Paste,
    /// The selection goes to the clipboard.
    Copy,
    /// The selection goes to the clipboard and leaves the text.
    Cut,
    /// The single-line editing of the toolkit handles the key.
    Other,
}

/// What a key does: Escape and Ctrl+Enter (or Cmd+Enter) close the field,
/// Enter breaks the line, the arrows move between lines, and with Ctrl or
/// Cmd, `v` pastes, `c` copies and `x` cuts, in either case.
pub open spec fn edit_spec(key: FieldKey, command: bool, shift: bool) -> Edit {
    match key {
        FieldKey::Escape => Edit::Close,
        FieldKey::Enter => if command {
            Edit::Close
        } else {
            Edit::Newline
        },
        FieldKey::ArrowUp => Edit::Up { extend: shift },
        FieldKey::ArrowDown => Edit::Down { extend: shift },
        FieldKey::Character(c) => if command && (c == 'v' || c == 'V') {
            Edit::Paste
        } else if command && (c == 'c' || c == 'C') {
            Edit::Copy
        } else if command && (c == 'x' || c == 'X') {
            Edit::Cut
        } else {
            Edit::Other
        },
        FieldKey::Other => Edit::Other,
    }
}

/// What a key does to a field, with Ctrl or Cmd held (`command`) and with
/// Shift held.
pub fn edit_for(key: FieldKey, command: bool, shift: bool) -> (edit: Edit)
    ensures
        edit == edit_spec(key, command, shift),
{
    match key {
        FieldKey::Escape => Edit::Close,
        FieldKey::Enter => if command {
            Edit::Close
        } else {
            Edit::Newline
        },
        FieldKey::ArrowUp => Edit::Up { extend: shift },
        FieldKey::ArrowDown => Edit::Down { extend: shift },
        FieldKey::Character(c) => if command && (c == 'v' || c == 'V') {
            Edit::Paste
        } else if command && (c == 'c' || c == 'C') {
            Edit::Copy
        } else if command && (c == 'x' || c == 'X') {
            Edit::Cut
        } else {
            Edit::Other
        },
        FieldKey::Other => Edit::Other,
    }
}

/// The smaller of two offsets.
pub open spec fn least(a: int, b: int) -> int {
    if a <= b {
        a
    } else {
        b
    }
}

/// The selected bytes of a text of `len` bytes: from the nearer of cursor
/// and anchor to the farther, neither past the end.
pub open spec fn selection_spec(caret: Caret, len: int) -> (int, int) {
    let low = least(caret.cursor as int, caret.anchor as int);
    let high = if caret.cursor <= caret.anchor { caret.anchor as int } else { caret.cursor as int };
    (least(low, len), least(high, len))
}

/// The selected bytes of `value`.
pub fn selection(caret: Caret, value: &str) -> (range: (usize, usize))
    requires
        value.spec_bytes().len() <= usize::MAX,
    ensures
        (range.0 as int, range.1 as int) == selection_spec(caret, value.spec_bytes().len() as int),
{
    let len = value.len();
    let low = if caret.cursor <= caret.anchor { caret.cursor } else { caret.anchor };
    let high = if caret.cursor <= caret.anchor { caret.anchor } else { caret.cursor };
    (if low <= len { low } else { len }, if high <= len { high } else { len })
}

/// A character boundary of a text is one of any of its beginnings that
/// reaches that far.
proof fn lemma_boundary_in_prefix(bytes: Seq<u8>, end: int, i: int)
    requires
        valid_utf8(bytes),
        is_char_boundary(bytes, end),
        is_char_boundary(bytes, i),
        0 <= i <= end <= bytes.len(),
    ensures
        valid_utf8(bytes.subrange(0, end)),
        is_char_boundary(bytes.subrange(0, end), i),
{
    let prefix = bytes.subrange(0, end);
    valid_utf8_split(bytes, end);
    if i == end {
        is_char_boundary_start_end_of_seq(prefix);
    } else {
        is_char_boundary_iff_not_is_continuation_byte(bytes, i);
        is_char_boundary_iff_not_is_continuation_byte(prefix, i);
        assert(prefix[i] == bytes[i]);
    }
}

/// Replaces the selection of `value` with `text` and puts the cursor, and
/// the anchor, after it; says whether the text changed.
pub fn insert(caret: &mut Caret, value: &mut String, text: &str) -> (changed: bool)
    requires
        ({
            let bytes = encode_utf8(old(value)@);
            let (start, end) = selection_spec(*old(caret), bytes.len() as int);
            &&& bytes.len() + byte_len(text@) <= usize::MAX
            &&& is_char_boundary(bytes, start)
            &&& is_char_boundary(bytes, end)
        }),
    ensures
        ({
            let bytes = encode_utf8(old(value)@);
            let (start, end) = selection_spec(*old(caret), bytes.len() as int);
            &&& encode_utf8(final(value)@) == bytes.subrange(0, start) + encode_utf8(text@) + bytes.subrange(
                end,
                bytes.len() as int,
            )
            &&& final(caret).cursor == start + byte_len(text@)
            &&& final(caret).anchor == final(caret).cursor
            &&& changed == (start != end || text@.len() > 0)
        }),
{
    let ghost bytes = encode_utf8(value@);
    proof {
        encode_utf8_valid_utf8(value@);
    }
    let (start, end) = selection(*caret, value.as_str());
    let (upto, tail) = value.as_str().split_at(end);
    proof {
        lemma_boundary_in_prefix(bytes, end as int, start as int);
    }
    let (head, _) = upto.split_at(start);
    let mut result = String::new();
    append_text(&mut result, head);
    append_text(&mut result, text);
    append_text(&mut result, tail);
    proof {
        assert(result@ == head@ + text@ + tail@);
        lemma_encode_concat(head@ + text@, tail@);
        lemma_encode_concat(head@, text@);
        assert(head.spec_bytes() =~= bytes.subrange(0, start as int));
        assert(tail.spec_bytes() =~= bytes.subrange(end as int, bytes.len() as int));
    }
    *value = result;
    let n = text.len();
    caret.cursor = start + n;
    caret.anchor = caret.cursor;
    start != end || n != 0
}

/// `s` with every `\r\n` a `\n`.
pub open spec fn unix_lines(s: Seq<char>) -> Seq<char>
    decreases s.len(),
{
    if s.len() == 0 {
        s
    } else if s.len() >= 2 && s[0] == '\r' && s[1] == '\n' {
        seq!['\n'] + unix_lines(s.skip(2))
    } else {
        seq![s[0]] + unix_lines(s.skip(1))
    }
}

/// Pasted text with its Windows line breaks made plain ones.
pub fn unix_newlines(text: &str) -> (r: String)
    ensures
        r@ == unix_lines(text@),
{
    let v = chars_of(text);
    let mut r = String::new();
    let mut i: usize = 0;
    assert(v@.skip(0) =~= v@);
    while i < v.len()
        invariant
            i <= v@.len(),
            v@ == text@,
            r@ + unix_lines(v@.skip(i as int)) == unix_lines(text@),
        decreases v@.len() - i,
    {
        let ghost before = r@;
        let ghost rest = v@.skip(i as int);
        if i + 1 < v.len() && v[i] == '\r' && v[i + 1] == '\n' {
            r.push('\n');
            assert(rest.skip(2) =~= v@.skip(i + 2));
            assert(unix_lines(rest) == seq!['\n'] + unix_lines(rest.skip(2)));
            i += 2;
        } else {
            r.push(v[i]);
            assert(rest.skip(1) =~= v@.skip(i + 1));
            assert(unix_lines(rest) == seq![v@[i as int]] + unix_lines(rest.skip(1)));
            i += 1;
        }
        assert(r@ + unix_lines(v@.skip(i as int)) =~= before + unix_lines(rest));
    }
    assert(r@ + unix_lines(v@.skip(i as int)) =~= r@);
    r
}

} // verus!
