//! What the user chose on the capture-mode view.

use vstd::prelude::*;

use crate::ui::messages::CaptureMode;

verus! {

#[derive(Debug, Clone, Copy, PartialEq, Eq, Structural)]
pub enum ModeAction {
    NoAction,
    Start(CaptureMode),
    RequestWindowList,
    StartRegionSelect,
}

} // verus!
