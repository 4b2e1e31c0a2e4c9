//! The keybindings page: a fixed reference, with no state to change.

use vstd::prelude::*;

verus! {

/// The keybindings page holds nothing.
#[derive(Debug, Clone)]
pub struct KeybindingsState;

impl Default for KeybindingsState {
    fn default() -> (s: Self) {
        KeybindingsState
    }
}

} // verus!
