//! Capture configuration and errors, the list of capturable windows,
//! screenshots, and drawing the cursor into captured frames.

use vstd::prelude::*;

use crate::text::append_str;
use crate::ui::messages::{CaptureMode, WindowInfo};

pub mod cursor;
pub mod screenshot;
pub mod windows;

verus! {

#[derive(Debug)]
pub enum CaptureError {
    TargetLost,
    PermissionDenied,
    DeviceError(String),
}

impl CaptureError {
    /// The error in words.
    pub fn message(&self) -> (m: String)
        ensures
            m@ == match self {
                CaptureError::TargetLost => "capture target lost"@,
                CaptureError::PermissionDenied => "permission denied"@,
                CaptureError::DeviceError(msg) => "device error: "@ + msg@,
            },
    {
        match self {
            CaptureError::TargetLost => "capture target lost".to_string(),
            CaptureError::PermissionDenied => "permission denied".to_string(),
            CaptureError::DeviceError(msg) => {
                let mut m = "device error: ".to_string();
                append_str(&mut m, msg.as_str());
                m
            },
        }
    }
}

#[derive(Debug, Clone, Copy, PartialEq, Eq, Structural)]
pub struct CaptureConfig {
    pub mode: CaptureMode,
    pub fps: u32,
    pub width: u32,
    pub height: u32,
}

/// The windows that can be captured.  Enumerating windows needs a desktop
/// platform backend; without one the list is empty.
pub fn list_windows() -> (windows: Vec<WindowInfo>)
    ensures
        windows@.len() == 0,
{
    Vec::new()
}

} // verus!
