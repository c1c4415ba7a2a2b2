//! How the controls of the review are drawn.

use vstd::prelude::*;

use crate::theme::{Swatch, WARNING};

verus! {

/// How a button is drawn.
#[derive(Debug, PartialEq, Eq, Structural, Clone, Copy, Hash)]
pub enum Look {
    Plain,
    Selected,
    Primary,
    Danger,
    Warning,
    /// No border until hovered: icons and links.
    Quiet,
}

/// The colors of a button: its background, its border if it has one, and
/// its label.
pub struct Colors {
    pub background: Swatch,
    pub border: Option<Swatch>,
    pub label: Swatch,
}

/// The colors of a button of `look`, pressed or under the pointer.
pub open spec fn colors_spec(look: Look, active: bool, hovered: bool) -> (Swatch, Option<Swatch>, Swatch) {
    if active {
        if look == Look::Danger {
            (Swatch::DelNumber, Some(Swatch::Danger), Swatch::Danger)
        } else {
            (Swatch::Selected, Some(Swatch::Accent), Swatch::Text)
        }
    } else {
        match look {
            Look::Selected => (Swatch::Selected, Some(Swatch::Accent), Swatch::Accent),
            Look::Plain => (
                if hovered { Swatch::Raised } else { Swatch::Surface },
                Some(if hovered { Swatch::Accent } else { Swatch::Border }),
                Swatch::Text,
            ),
            Look::Primary => (if hovered { Swatch::AccentHover } else { Swatch::Accent }, Some(Swatch::Accent), Swatch::Background),
            Look::Danger => (if hovered { Swatch::DelNumber } else { Swatch::Surface }, Some(Swatch::Danger), Swatch::Danger),
            Look::Warning => (if hovered { Swatch::Selected } else { Swatch::Surface }, Some(WARNING), WARNING),
            Look::Quiet => (
                if hovered { Swatch::Raised } else { Swatch::Transparent },
                None,
                if hovered { Swatch::Accent } else { Swatch::Muted },
            ),
        }
    }
}

/// The colors of a button of `look`: pressed, every look but danger takes
/// the selection colors; else hovering lights it.
pub fn colors(look: Look, active: bool, hovered: bool) -> (c: Colors)
    ensures
        (c.background, c.border, c.label) == colors_spec(look, active, hovered),
{
    if active {
        return if look == Look::Danger {
            Colors { background: Swatch::DelNumber, border: Some(Swatch::Danger), label: Swatch::Danger }
        } else {
            Colors { background: Swatch::Selected, border: Some(Swatch::Accent), label: Swatch::Text }
        };
    }
    let lit = hovered;
    match look {
        Look::Selected => Colors { background: Swatch::Selected, border: Some(Swatch::Accent), label: Swatch::Accent },
        Look::Plain => Colors {
            background: if lit { Swatch::Raised } else { Swatch::Surface },
            border: Some(if lit { Swatch::Accent } else { Swatch::Border }),
            label: Swatch::Text,
        },
        Look::Primary => Colors {
            background: if lit { Swatch::AccentHover } else { Swatch::Accent },
            border: Some(Swatch::Accent),
            label: Swatch::Background,
        },
        Look::Danger => Colors {
            background: if lit { Swatch::DelNumber } else { Swatch::Surface },
            border: Some(Swatch::Danger),
            label: Swatch::Danger,
        },
        Look::Warning => Colors {
            background: if lit { Swatch::Selected } else { Swatch::Surface },
            border: Some(WARNING),
            label: WARNING,
        },
        Look::Quiet => Colors {
            background: if lit { Swatch::Raised } else { Swatch::Transparent },
            border: None,
            label: if lit { Swatch::Accent } else { Swatch::Muted },
        },
    }
}

} // verus!
