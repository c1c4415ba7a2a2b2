//! The colors of the review: warm graphite surfaces and restrained
//! instrument colors.

use vstd::prelude::*;

use crate::syntax::Rgba;

verus! {

/// A color of the palette.
#[derive(Debug, PartialEq, Eq, Structural, Clone, Copy, Hash)]
pub enum Swatch {
    Background,
    Surface,
    Raised,
    Border,
    Text,
    Muted,
    Accent,
    AccentHover,
    Danger,
    Success,
    Purple,
    AddLine,
    AddNumber,
    DelLine,
    DelNumber,
    Hunk,
    Selected,
    Transparent,
}

/// The warning color is the accent.
pub const WARNING: Swatch = Swatch::Accent;

/// The channels of each color of the palette.
pub open spec fn channels(swatch: Swatch) -> (u8, u8, u8, u8) {
    match swatch {
        Swatch::Background => (18, 19, 17, 255),
        Swatch::Surface => (25, 27, 24, 255),
        Swatch::Raised => (38, 41, 35, 255),
        Swatch::Border => (65, 69, 59, 255),
        Swatch::Text => (227, 226, 211, 255),
        Swatch::Muted => (151, 155, 137, 255),
        Swatch::Accent => (226, 174, 79, 255),
        Swatch::AccentHover => (246, 201, 116, 255),
        Swatch::Danger => (224, 127, 112, 255),
        Swatch::Success => (153, 188, 127, 255),
        Swatch::Purple => (180, 165, 190, 255),
        Swatch::AddLine => (28, 37, 27, 255),
        Swatch::AddNumber => (37, 49, 32, 255),
        Swatch::DelLine => (43, 29, 26, 255),
        Swatch::DelNumber => (57, 36, 30, 255),
        Swatch::Hunk => (34, 37, 31, 255),
        Swatch::Selected => (66, 54, 29, 255),
        Swatch::Transparent => (0, 0, 0, 0),
    }
}

/// The color of a swatch.
pub fn color(swatch: Swatch) -> (c: Rgba)
    ensures
        (c.red, c.green, c.blue, c.alpha) == channels(swatch),
{
    let (red, green, blue, alpha) = match swatch {
        Swatch::Background => (18, 19, 17, 255),
        Swatch::Surface => (25, 27, 24, 255),
        Swatch::Raised => (38, 41, 35, 255),
        Swatch::Border => (65, 69, 59, 255),
        Swatch::Text => (227, 226, 211, 255),
        Swatch::Muted => (151, 155, 137, 255),
        Swatch::Accent => (226, 174, 79, 255),
        Swatch::AccentHover => (246, 201, 116, 255),
        Swatch::Danger => (224, 127, 112, 255),
        Swatch::Success => (153, 188, 127, 255),
        Swatch::Purple => (180, 165, 190, 255),
        Swatch::AddLine => (28, 37, 27, 255),
        Swatch::AddNumber => (37, 49, 32, 255),
        Swatch::DelLine => (43, 29, 26, 255),
        Swatch::DelNumber => (57, 36, 30, 255),
        Swatch::Hunk => (34, 37, 31, 255),
        Swatch::Selected => (66, 54, 29, 255),
        Swatch::Transparent => (0, 0, 0, 0),
    };
    Rgba { red, green, blue, alpha }
}

} // verus!
