//! The streaming view: its title and resolution text, and what the user
//! chose on it.

use vstd::prelude::*;

use crate::text::{append_str, decimal, decimal_string};

verus! {

#[derive(Debug, Clone, Copy, PartialEq, Eq, Structural)]
pub enum StreamingAction {
    NoAction,
    Pause,
    Disconnect,
}

/// The title while streaming to `device_name`.
pub fn streaming_title(device_name: &str) -> (s: String)
    ensures
        s@ == "📺 "@ + device_name@ + " · 投屏中"@,
{
    let mut s = "📺 ".to_string();
    append_str(&mut s, device_name);
    append_str(&mut s, " · 投屏中");
    s
}

/// The resolution as `W × H`.
pub fn resolution_text(width: u32, height: u32) -> (s: String)
    ensures
        s@ == decimal(width as nat) + " × "@ + decimal(height as nat),
{
    let mut s = decimal_string(width as u64);
    append_str(&mut s, " × ");
    let h = decimal_string(height as u64);
    append_str(&mut s, h.as_str());
    s
}

} // verus!
