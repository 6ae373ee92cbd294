//! Window enumeration on Windows.

use vstd::prelude::*;

use crate::ui::messages::WindowInfo;

verus! {

/// The capturable windows on Windows: enumeration is not implemented, so
/// the list is empty.
pub fn list_windows_windows() -> (windows: Vec<WindowInfo>)
    ensures
        windows@.len() == 0,
{
    Vec::new()
}

} // verus!
