//! Keyboard policy of the screensaver: which key presses end it.

use vstd::prelude::*;

verus! {

/// A key press as the screensaver sees it.
#[derive(Clone, Copy, Debug, PartialEq, Eq, Structural)]
pub enum Key {
    Char(char),
    Esc,
    /// Any key the screensaver does not react to.
    Other,
}

/// `q`, `Esc`, or `c` with the control modifier held end the screensaver;
/// every other key press is ignored.
pub fn quit_requested(key: Key, control: bool) -> (quit: bool)
    ensures
        quit == (key == Key::Char('q') || key == Key::Esc || (key == Key::Char('c') && control)),
{
    match key {
        Key::Char('q') | Key::Esc => true,
        Key::Char('c') => control,
        _ => false,
    }
}

} // verus!
