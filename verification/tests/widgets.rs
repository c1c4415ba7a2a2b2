use commit_review::syntax::Rgba;
use commit_review::theme::{color, Swatch};
use commit_review::widgets::{colors, Look};

#[test]
fn a_pressed_button_takes_the_selection_colors_but_danger() {
    let pressed = colors(Look::Plain, true, true);
    assert_eq!((pressed.background, pressed.border, pressed.label), (Swatch::Selected, Some(Swatch::Accent), Swatch::Text));
    let danger = colors(Look::Danger, true, false);
    assert_eq!((danger.background, danger.border, danger.label), (Swatch::DelNumber, Some(Swatch::Danger), Swatch::Danger));
}

#[test]
fn hovering_lights_a_button() {
    let plain = colors(Look::Plain, false, false);
    assert_eq!((plain.background, plain.border, plain.label), (Swatch::Surface, Some(Swatch::Border), Swatch::Text));
    let lit = colors(Look::Plain, false, true);
    assert_eq!((lit.background, lit.border, lit.label), (Swatch::Raised, Some(Swatch::Accent), Swatch::Text));
    let quiet = colors(Look::Quiet, false, false);
    assert_eq!((quiet.background, quiet.border, quiet.label), (Swatch::Transparent, None, Swatch::Muted));
    let warning = colors(Look::Warning, false, false);
    assert_eq!((warning.background, warning.border, warning.label), (Swatch::Surface, Some(Swatch::Accent), Swatch::Accent));
}

#[test]
fn the_palette_holds_the_review_colors() {
    assert_eq!(color(Swatch::Text), Rgba { red: 227, green: 226, blue: 211, alpha: 255 });
    assert_eq!(color(Swatch::Transparent), Rgba { red: 0, green: 0, blue: 0, alpha: 0 });
    assert_eq!(color(Swatch::Accent), Rgba { red: 226, green: 174, blue: 79, alpha: 255 });
}
