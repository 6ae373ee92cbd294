//! Verified core of a LAN screen-mirroring system: PIN pairing and the
//! authenticated encryption of control and media traffic, replay
//! protection, RTP packetization of H.264 with XOR parity for lost packets,
//! session negotiation, the receiving pipeline from datagram to NAL units
//! and audio, audio playout, receiver discovery data, and the sender's
//! user-interface and command state machines.

pub mod security;
pub mod transport;
pub mod protocol;
pub mod audio;
pub mod sync;
pub mod decode;
pub mod encode;
pub mod discovery;
pub mod ui;
pub mod capture;
pub mod receiver;
pub mod text;
