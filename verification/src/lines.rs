//! How a line of the diff view is drawn: its colors and marker, its line
//! numbers, and the "+" button that starts a comment on it.

use vstd::prelude::*;

use crate::chars::decimal;
use crate::diff::{Kind, Line};
use crate::theme::{Swatch, WARNING};

verus! {

#[verifier::external_type_specification]
#[verifier::external_body]
pub struct ExNumberBuffer(itoa::Buffer);

/// `itoa::Buffer::new`: room to print an integer in. Nothing is claimed of
/// it.
#[verifier::external_body]
fn number_buffer() -> itoa::Buffer {
    itoa::Buffer::new()
}

/// `itoa::Buffer::format`: the decimal digits of `n`, as the crate prints
/// integers.
#[verifier::external_body]
fn format_number(buffer: &mut itoa::Buffer, n: u32) -> (s: String)
    ensures
        s@ == decimal(n as nat),
{
    buffer.format(n).to_owned()
}

/// The colors of a line and the marker before its text.
#[derive(Debug, PartialEq, Eq, Structural, Clone, Copy)]
pub struct RowLook {
    pub line: Swatch,
    pub numbers: Swatch,
    pub marker: char,
    /// The bar at the left edge: tinted where a comment stands on the line.
    pub bar: Swatch,
}

/// The look of a line of `kind`: added lines green, deleted ones red, both
/// taking the selection color while selected, and the bar tinted when a
/// comment stands on the line.
pub open spec fn row_look_spec(kind: Kind, selected: bool, commented: bool) -> RowLook {
    let (line, numbers, marker) = match kind {
        Kind::Add => (Swatch::AddLine, Swatch::AddNumber, '+'),
        Kind::Del => (Swatch::DelLine, Swatch::DelNumber, '-'),
        Kind::Context => (Swatch::Background, Swatch::Surface, ' '),
    };
    RowLook {
        line: if selected { Swatch::Selected } else { line },
        numbers: if selected { Swatch::Selected } else { numbers },
        marker,
        bar: if commented { WARNING } else { Swatch::Transparent },
    }
}

/// The look of a line.
pub fn row_look(kind: Kind, selected: bool, commented: bool) -> (look: RowLook)
    ensures
        look == row_look_spec(kind, selected, commented),
{
    let (line, numbers, marker) = match kind {
        Kind::Add => (Swatch::AddLine, Swatch::AddNumber, '+'),
        Kind::Del => (Swatch::DelLine, Swatch::DelNumber, '-'),
        Kind::Context => (Swatch::Background, Swatch::Surface, ' '),
    };
    RowLook {
        line: if selected { Swatch::Selected } else { line },
        numbers: if selected { Swatch::Selected } else { numbers },
        marker,
        bar: if commented { WARNING } else { Swatch::Transparent },
    }
}

/// A line takes comments when it is a line of the diff (it has a flat
/// index), unless it stands on the left of the side-by-side view without
/// being a deleted line.
pub fn takes_comments(flat: Option<usize>, side: Option<bool>, kind: Kind) -> (r: bool)
    ensures
        r == (flat is Some && (side != Some(false) || kind == Kind::Del)),
{
    flat.is_some() && (match side {
        Some(right) => right,
        None => true,
    } || kind == Kind::Del)
}

/// The "+" button shows on a line that takes comments: as asked, or while
/// the pointer is over the line or the button.
pub fn plus_shown(takes: bool, asked: Option<bool>, pointed: bool) -> (r: bool)
    ensures
        r == (takes && match asked {
            Some(shown) => shown,
            None => pointed,
        }),
{
    takes && match asked {
        Some(shown) => shown,
        None => pointed,
    }
}

/// The label of the "+" button: a dot where a comment stands on the line,
/// unless the line is selected.
pub fn plus_label(commented: bool, selected: bool) -> (label: &'static str)
    ensures
        label@ == (if commented && !selected { "•"@ } else { "+"@ }),
{
    if commented && !selected {
        "•"
    } else {
        "+"
    }
}

/// The number a column shows: nothing where the line has none.
pub open spec fn number_text(number: Option<u32>) -> Seq<char> {
    match number {
        Some(n) => decimal(n as nat),
        None => Seq::empty(),
    }
}

/// The texts of the two number columns of a line: the old number and the
/// new one in one column; side by side, the left shows only old numbers
/// and the right only new ones (`None` for a column not shown).
pub fn number_cells(line: &Line, side: Option<bool>) -> (cells: (Option<String>, Option<String>))
    ensures
        side != Some(true) ==> (cells.0 matches Some(t) && t@ == number_text(line.old)),
        side == Some(true) ==> cells.0 is None,
        side != Some(false) ==> (cells.1 matches Some(t) && t@ == number_text(line.new)),
        side == Some(false) ==> cells.1 is None,
{
    let mut buffer = number_buffer();
    let old = if side == Some(true) {
        None
    } else {
        Some(
            match line.old {
                Some(n) => format_number(&mut buffer, n),
                None => String::new(),
            },
        )
    };
    let new = if side == Some(false) {
        None
    } else {
        Some(
            match line.new {
                Some(n) => format_number(&mut buffer, n),
                None => String::new(),
            },
        )
    };
    (old, new)
}

} // verus!
