//! The panels of the review window and the keys that open and close them.

use vstd::prelude::*;

use crate::chars::{append_text, chars_of, decimal, push_decimal, string_of, trim, trimmed};

verus! {

/// A panel over the review.
#[derive(Debug, PartialEq, Eq, Structural, Clone, Copy, Hash)]
pub enum Panel {
    Details,
    Help,
    Comments,
    Feedback,
}

/// A key the window reacts to.
#[derive(Debug, PartialEq, Eq, Structural, Clone, Copy, Hash)]
pub enum KeyPress {
    Escape,
    /// Enter with Ctrl, or with Cmd.
    CommandEnter,
    /// A typed character.
    Text(char),
    /// Any other key.
    Other,
}

/// What the window decides.
#[derive(Debug, PartialEq, Eq, Structural, Clone, Copy, Hash)]
pub enum Action {
    Deny,
    Accept,
}

/// Which panel is open, and whether the performance monitor shows.
#[derive(Debug, PartialEq, Eq, Structural, Clone, Copy)]
pub struct Panels {
    pub open: Option<Panel>,
    pub performance: bool,
}

/// The panel a character opens.
pub open spec fn panel_key(c: char) -> Option<Panel> {
    if c == '?' {
        Some(Panel::Help)
    } else if c == 'c' {
        Some(Panel::Details)
    } else if c == 'n' {
        Some(Panel::Feedback)
    } else {
        None
    }
}

/// A panel's trigger closes it when it is open and opens it otherwise.
pub open spec fn toggled_spec(open: Option<Panel>, panel: Panel) -> Option<Panel> {
    if open == Some(panel) {
        None
    } else {
        Some(panel)
    }
}

/// The panels after a key, and what it decides: Escape closes the open
/// panel; Ctrl+Enter approves when nothing is typed into and no panel is
/// open; `?`, `c` and `n` toggle their panel when nothing is typed into
/// and no panel is open, and close their own panel (the feedback panel
/// takes `n` as text); `p` toggles the performance monitor under the same
/// conditions.
pub open spec fn key_spec(panels: Panels, key: KeyPress, typing: bool) -> (Panels, Option<Action>) {
    let free = !typing && panels.open is None;
    match key {
        KeyPress::Escape => if panels.open is Some {
            (Panels { open: None, ..panels }, None)
        } else {
            (panels, None)
        },
        KeyPress::CommandEnter => (panels, if free { Some(Action::Accept) } else { None }),
        KeyPress::Text(c) => match panel_key(c) {
            Some(p) => if free || (panels.open == Some(p) && p != Panel::Feedback) {
                (Panels { open: toggled_spec(panels.open, p), ..panels }, None)
            } else {
                (panels, None)
            },
            None => if c == 'p' && free {
                (Panels { performance: !panels.performance, ..panels }, None)
            } else {
                (panels, None)
            },
        },
        KeyPress::Other => (panels, None),
    }
}

/// The panel a character opens.
fn panel_of(c: char) -> (p: Option<Panel>)
    ensures
        p == panel_key(c),
{
    if c == '?' {
        Some(Panel::Help)
    } else if c == 'c' {
        Some(Panel::Details)
    } else if c == 'n' {
        Some(Panel::Feedback)
    } else {
        None
    }
}

/// A panel's trigger was clicked: it closes when open, else it opens in
/// place of any other.
pub fn toggled(open: Option<Panel>, panel: Panel) -> (r: Option<Panel>)
    ensures
        r == toggled_spec(open, panel),
{
    match open {
        Some(p) => if p == panel {
            None
        } else {
            Some(panel)
        },
        None => Some(panel),
    }
}

impl Panels {
    /// Applies a key; says what it decides.
    pub fn on_key(&mut self, key: KeyPress, typing: bool) -> (action: Option<Action>)
        ensures
            (*final(self), action) == key_spec(*old(self), key, typing),
    {
        let free = !typing && self.open.is_none();
        match key {
            KeyPress::Escape => {
                if self.open.is_some() {
                    self.open = None;
                }
                None
            },
            KeyPress::CommandEnter => if free {
                Some(Action::Accept)
            } else {
                None
            },
            KeyPress::Text(c) => {
                match panel_of(c) {
                    Some(p) => {
                        let own = match self.open {
                            Some(q) => q == p && p != Panel::Feedback,
                            None => false,
                        };
                        if free || own {
                            self.open = toggled(self.open, p);
                        }
                    },
                    None => {
                        if c == 'p' && free {
                            self.performance = !self.performance;
                        }
                    },
                }
                None
            },
            KeyPress::Other => None,
        }
    }

    /// What a frame decides in the end: nothing while a panel is open.
    pub fn settle(&self, action: Option<Action>) -> (r: Option<Action>)
        ensures
            r == (if self.open is Some { None } else { action }),
    {
        if self.open.is_some() {
            None
        } else {
            action
        }
    }
}

/// The commit is never approved from the keyboard while something is
/// typed or a panel is open, and Escape always leaves no panel open.
pub proof fn keyboard_law(panels: Panels, key: KeyPress, typing: bool)
    ensures
        key_spec(panels, key, typing).1 == Some(Action::Accept) ==> !typing && panels.open is None && key
            == KeyPress::CommandEnter,
        key == KeyPress::Escape ==> key_spec(panels, key, typing).0.open is None,
        key_spec(panels, key, typing).1 != Some(Action::Deny),
{
}

/// What follows the last `/` of `s`, or all of it when it has none.
pub open spec fn last_component(s: Seq<char>) -> Seq<char>
    decreases s.len(),
{
    if s.len() == 0 {
        s
    } else if s.last() == '/' {
        Seq::empty()
    } else {
        last_component(s.drop_last()).push(s.last())
    }
}

/// The name of the repository at `root`: the last component of its path.
pub fn repo_name(root: &str) -> (name: String)
    ensures
        name@ == last_component(trim(root@)),
{
    let v = trimmed(root);
    let mut i = v.len();
    assert(v@.take(i as int) =~= v@);
    assert(v@.skip(i as int) =~= Seq::<char>::empty());
    assert(last_component(v@) + Seq::<char>::empty() =~= last_component(v@));
    while i > 0 && v[i - 1] != '/'
        invariant
            i <= v@.len(),
            last_component(v@) == last_component(v@.take(i as int)) + v@.skip(i as int),
        decreases i,
    {
        assert(v@.take(i as int).drop_last() =~= v@.take(i - 1));
        assert(v@.skip(i - 1) =~= seq![v@[i - 1]] + v@.skip(i as int));
        assert(last_component(v@.take(i as int)) == last_component(v@.take(i - 1)).push(v@[i - 1]));
        i -= 1;
    }
    assert(last_component(v@.take(i as int)) =~= Seq::<char>::empty());
    assert(v@.skip(i as int) =~= v@.subrange(i as int, v@.len() as int));
    string_of(v.as_slice(), i, v.len())
}

/// The progress the window's bar shows: `<viewed> / <total> reviewed`.
pub fn progress_label(viewed: usize, total: usize) -> (label: String)
    ensures
        label@ == decimal(viewed as nat) + " / "@ + decimal(total as nat) + " reviewed"@,
{
    let mut label = String::new();
    push_decimal(&mut label, viewed);
    append_text(&mut label, " / ");
    push_decimal(&mut label, total);
    append_text(&mut label, " reviewed");
    label
}

/// The label of the comments button: `Comments <pending>`.
pub fn comments_label(pending: usize) -> (label: String)
    ensures
        label@ == "Comments "@ + decimal(pending as nat),
{
    let mut label = "Comments ".to_owned();
    push_decimal(&mut label, pending);
    label
}

/// Adds a line the details panel picked to the notes, on a line of its own.
pub fn add_note_line(notes: &mut String, line: &str)
    ensures
        final(notes)@ == (if old(notes)@.len() > 0 && old(notes)@.last() != '\n' {
            old(notes)@.push('\n')
        } else {
            old(notes)@
        }) + line@ + seq!['\n'],
{
    let v = chars_of(notes.as_str());
    if v.len() > 0 && v[v.len() - 1] != '\n' {
        notes.push('\n');
    }
    append_text(notes, line);
    notes.push('\n');
}

} // verus!
