//! Audio stream parameters.

pub mod playout;

use vstd::prelude::*;

verus! {

#[derive(Debug, Clone, Copy, PartialEq, Eq, Structural)]
pub struct AudioConfig {
    pub sample_rate: u32,
    pub channels: u16,
    pub bitrate: u32,
    pub frame_duration_ms: u32,
}

impl AudioConfig {
    /// Samples in one frame, all channels together: the samples per channel
    /// in `frame_duration_ms` (rounded down), times the channel count.
    pub fn frame_size(&self) -> (n: usize)
        requires
            self.sample_rate * self.frame_duration_ms <= u32::MAX,
            (self.sample_rate * self.frame_duration_ms / 1000) * self.channels <= usize::MAX,
        ensures
            n == (self.sample_rate * self.frame_duration_ms / 1000) * self.channels,
    {
        let per_channel = self.sample_rate * self.frame_duration_ms / 1000;
        proof {
            assert(per_channel * self.channels <= usize::MAX);
        }
        (per_channel as usize) * (self.channels as usize)
    }
}

} // verus!
