use commit_review::diff::{Kind, Line};
use commit_review::lines::{number_cells, plus_label, plus_shown, row_look, takes_comments, RowLook};
use commit_review::theme::Swatch;

fn line(kind: Kind, old: Option<u32>, new: Option<u32>) -> Line {
    Line { kind, old, new, text: "x".to_string() }
}

#[test]
fn lines_take_the_colors_of_their_kind() {
    assert_eq!(
        row_look(Kind::Add, false, false),
        RowLook { line: Swatch::AddLine, numbers: Swatch::AddNumber, marker: '+', bar: Swatch::Transparent }
    );
    assert_eq!(
        row_look(Kind::Del, false, true),
        RowLook { line: Swatch::DelLine, numbers: Swatch::DelNumber, marker: '-', bar: Swatch::Accent }
    );
    assert_eq!(
        row_look(Kind::Context, true, false),
        RowLook { line: Swatch::Selected, numbers: Swatch::Selected, marker: ' ', bar: Swatch::Transparent }
    );
}

#[test]
fn numbers_show_in_their_columns() {
    let context = line(Kind::Context, Some(7), Some(12));
    assert_eq!(number_cells(&context, None), (Some("7".to_string()), Some("12".to_string())));
    assert_eq!(number_cells(&context, Some(false)), (Some("7".to_string()), None));
    assert_eq!(number_cells(&context, Some(true)), (None, Some("12".to_string())));
    let added = line(Kind::Add, None, Some(4294967295));
    assert_eq!(number_cells(&added, None), (Some(String::new()), Some("4294967295".to_string())));
}

#[test]
fn the_plus_button_shows_on_lines_that_take_comments() {
    assert!(takes_comments(Some(3), None, Kind::Add));
    assert!(!takes_comments(None, None, Kind::Context));
    assert!(!takes_comments(Some(3), Some(false), Kind::Context));
    assert!(takes_comments(Some(3), Some(false), Kind::Del));
    assert!(takes_comments(Some(3), Some(true), Kind::Add));
    assert!(plus_shown(true, None, true));
    assert!(!plus_shown(true, None, false));
    assert!(!plus_shown(true, Some(false), true));
    assert!(plus_shown(true, Some(true), false));
    assert!(!plus_shown(false, Some(true), true));
    assert_eq!(plus_label(true, false), "•");
    assert_eq!(plus_label(true, true), "+");
    assert_eq!(plus_label(false, false), "+");
}
