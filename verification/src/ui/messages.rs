//! Commands from the user interface to the backend and events back.

use vstd::prelude::*;

use crate::discovery::browser::DiscoveredReceiver;
use crate::text::append_str;

verus! {

#[derive(Debug, Clone, Copy, PartialEq, Eq, Structural)]
pub enum CaptureMode {
    FullScreen,
}

/// A window that could be captured.
#[derive(Debug, Clone)]
pub struct WindowInfo {
    pub title: String,
    pub app_name: String,
}

impl WindowInfo {
    /// How the window is listed: its title, after its application's name
    /// when known.
    pub fn label(&self) -> (s: String)
        ensures
            s@ == if self.app_name@.len() == 0 {
                self.title@
            } else {
                self.app_name@ + " — "@ + self.title@
            },
    {
        if self.app_name.as_str().is_empty() {
            self.title.clone()
        } else {
            let mut s = self.app_name.clone();
            append_str(&mut s, " — ");
            append_str(&mut s, self.title.as_str());
            s
        }
    }
}

/// A command to the backend; `A` is the address type of receivers.
#[derive(Debug)]
pub enum UiCommand<A> {
    Connect { addr: A, pin: String },
    VerifyPin { pin: String },
    StartStreaming { mode: CaptureMode },
    Pause,
    Resume,
    Disconnect,
}

/// An event from the backend; `A` is the address type of receivers and `S`
/// the type of streaming statistics.
#[derive(Debug)]
pub enum BackendEvent<A, S> {
    DevicesUpdated(Vec<DiscoveredReceiver<A>>),
    PairingSuccess,
    PairingFailed(String),
    PairingTimeout,
    PinMatched { device_name: String, addr: A },
    PinNotFound,
    StreamingStarted,
    StatsUpdate(S),
    Disconnected(String),
}

} // verus!
