pub mod fec;
pub mod jitter;
pub mod rtp;
