use commit_review::text_area::{edit_for, insert, selection, unix_newlines, Caret, Edit, FieldKey};

#[test]
fn keys_map_to_edits() {
    assert_eq!(edit_for(FieldKey::Escape, false, false), Edit::Close);
    assert_eq!(edit_for(FieldKey::Enter, true, false), Edit::Close);
    assert_eq!(edit_for(FieldKey::Enter, false, false), Edit::Newline);
    assert_eq!(edit_for(FieldKey::ArrowUp, false, true), Edit::Up { extend: true });
    assert_eq!(edit_for(FieldKey::ArrowDown, false, false), Edit::Down { extend: false });
    assert_eq!(edit_for(FieldKey::Character('V'), true, false), Edit::Paste);
    assert_eq!(edit_for(FieldKey::Character('c'), true, false), Edit::Copy);
    assert_eq!(edit_for(FieldKey::Character('X'), true, false), Edit::Cut);
    assert_eq!(edit_for(FieldKey::Character('v'), false, false), Edit::Other);
    assert_eq!(edit_for(FieldKey::Other, true, true), Edit::Other);
}

#[test]
fn the_selection_runs_between_cursor_and_anchor_within_the_text() {
    assert_eq!(selection(Caret { cursor: 4, anchor: 1 }, "hello"), (1, 4));
    assert_eq!(selection(Caret { cursor: 2, anchor: 9 }, "hello"), (2, 5));
    assert_eq!(selection(Caret { cursor: 3, anchor: 3 }, "hello"), (3, 3));
}

#[test]
fn typed_text_replaces_the_selection() {
    let mut caret = Caret { cursor: 1, anchor: 4 };
    let mut value = "héllo".to_string();
    assert!(insert(&mut caret, &mut value, "a"));
    assert_eq!(value, "halo");
    assert_eq!(caret, Caret { cursor: 2, anchor: 2 });
    let mut caret = Caret { cursor: 3, anchor: 3 };
    assert!(insert(&mut caret, &mut value, "\n€"));
    assert_eq!(value, "hal\n€o");
    assert_eq!(caret, Caret { cursor: 7, anchor: 7 });
    let mut still = Caret { cursor: 0, anchor: 0 };
    assert!(!insert(&mut still, &mut value, ""));
    assert_eq!(value, "hal\n€o");
}

#[test]
fn pasted_windows_line_breaks_become_plain() {
    assert_eq!(unix_newlines("a\r\nb\r\n"), "a\nb\n");
    assert_eq!(unix_newlines("a\rb\n\r"), "a\rb\n\r");
    assert_eq!(unix_newlines("\r\r\n"), "\r\n");
}
