use commit_review::panels::{
    add_note_line, comments_label, progress_label, repo_name, toggled, Action, KeyPress, Panel, Panels,
};

fn closed() -> Panels {
    Panels { open: None, performance: false }
}

#[test]
fn keys_open_and_close_panels() {
    let mut panels = closed();
    assert_eq!(panels.on_key(KeyPress::Text('?'), false), None);
    assert_eq!(panels.open, Some(Panel::Help));
    assert_eq!(panels.on_key(KeyPress::Text('?'), false), None);
    assert_eq!(panels.open, None);
    panels.on_key(KeyPress::Text('c'), false);
    assert_eq!(panels.open, Some(Panel::Details));
    panels.on_key(KeyPress::Text('n'), false);
    assert_eq!(panels.open, Some(Panel::Details));
    panels.on_key(KeyPress::Escape, true);
    assert_eq!(panels.open, None);
    panels.on_key(KeyPress::Text('n'), false);
    assert_eq!(panels.open, Some(Panel::Feedback));
    panels.on_key(KeyPress::Text('n'), true);
    assert_eq!(panels.open, Some(Panel::Feedback));
}

#[test]
fn typing_keeps_the_shortcuts_quiet() {
    let mut panels = closed();
    assert_eq!(panels.on_key(KeyPress::Text('c'), true), None);
    assert_eq!(panels.open, None);
    assert_eq!(panels.on_key(KeyPress::CommandEnter, true), None);
    assert_eq!(panels.on_key(KeyPress::Text('p'), true), None);
    assert!(!panels.performance);
    assert_eq!(panels.on_key(KeyPress::Text('p'), false), None);
    assert!(panels.performance);
}

#[test]
fn approving_from_the_keyboard_needs_a_clear_window() {
    let mut panels = closed();
    assert_eq!(panels.on_key(KeyPress::CommandEnter, false), Some(Action::Accept));
    let mut open = Panels { open: Some(Panel::Comments), performance: false };
    assert_eq!(open.on_key(KeyPress::CommandEnter, false), None);
    assert_eq!(open.settle(Some(Action::Deny)), None);
    assert_eq!(closed().settle(Some(Action::Deny)), Some(Action::Deny));
}

#[test]
fn a_trigger_toggles_its_panel() {
    assert_eq!(toggled(None, Panel::Help), Some(Panel::Help));
    assert_eq!(toggled(Some(Panel::Help), Panel::Help), None);
    assert_eq!(toggled(Some(Panel::Details), Panel::Help), Some(Panel::Help));
}

#[test]
fn the_bar_names_the_repository_and_the_progress() {
    assert_eq!(repo_name(" /home/me/project \n"), "project");
    assert_eq!(repo_name("project"), "project");
    assert_eq!(repo_name("/srv/"), "");
    assert_eq!(progress_label(3, 12), "3 / 12 reviewed");
    assert_eq!(comments_label(0), "Comments 0");
    assert_eq!(comments_label(105), "Comments 105");
}

#[test]
fn picked_lines_join_the_notes_on_lines_of_their_own() {
    let mut notes = String::new();
    add_note_line(&mut notes, "first");
    assert_eq!(notes, "first\n");
    add_note_line(&mut notes, "second");
    assert_eq!(notes, "first\nsecond\n");
    let mut typed = "typed".to_string();
    add_note_line(&mut typed, "more");
    assert_eq!(typed, "typed\nmore\n");
}
