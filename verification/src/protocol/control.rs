//! Messages of the encrypted control channel once streaming runs.  Their
//! JSON encoding (`{"type": ...}`) is done where serde is available.

use vstd::prelude::*;

verus! {

#[derive(Debug, Clone, Copy, PartialEq, Eq, Structural)]
pub enum ControlMessage {
    Disconnect { reason: DisconnectReason },
    Ping,
    Pong,
    BitrateAdjust { bitrate: u32 },
}

#[derive(Debug, Clone, Copy, PartialEq, Eq, Structural)]
pub enum DisconnectReason {
    SenderInitiated,
    ReceiverInitiated,
}

} // verus!
