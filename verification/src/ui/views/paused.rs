//! What the user chose on the paused view.

use vstd::prelude::*;

verus! {

#[derive(Debug, Clone, Copy, PartialEq, Eq, Structural)]
pub enum PausedAction {
    NoAction,
    Resume,
    Disconnect,
}

} // verus!
