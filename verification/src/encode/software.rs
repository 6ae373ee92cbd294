//! The software encoder path and the choice among encoders.  The software
//! encoder does not compress yet: each frame yields an empty keyframe
//! carrying the frame's timestamp, so that the pipeline keeps moving.
//! Its output waits in a queue of at most `SOFTWARE_QUEUE_LEN` packets;
//! further packets are dropped until the queue is drained.

use std::collections::VecDeque;
use vstd::prelude::*;

use crate::encode::{EncodedPacket, EncoderConfig};

verus! {

/// Packets the software encoder holds before it drops new ones.
pub const SOFTWARE_QUEUE_LEN: usize = 16;

/// What an encoder hands out, as the contracts see it: data, keyframe flag,
/// timestamp and NAL units.
pub open spec fn packet_view(p: EncodedPacket) -> (Seq<u8>, bool, u64, Seq<Seq<u8>>) {
    (p.data@, p.is_keyframe, p.timestamp, p.nal_units@.map_values(|n: Vec<u8>| n@))
}

pub struct X264Encoder {
    width: u32,
    height: u32,
    queue: VecDeque<EncodedPacket>,
}

impl X264Encoder {
    /// Timestamps of the packets waiting, oldest first.
    pub closed spec fn pending(&self) -> Seq<u64> {
        self.queue@.map_values(|p: EncodedPacket| p.timestamp)
    }

    /// The waiting packets are empty keyframes.
    pub closed spec fn wf(&self) -> bool {
        &&& self.queue@.len() <= SOFTWARE_QUEUE_LEN
        &&& forall|i: int|
            0 <= i < self.queue@.len() ==> #[trigger] packet_view(self.queue@[i]) == (
                Seq::<u8>::empty(),
                true,
                self.queue@[i].timestamp,
                Seq::<Seq<u8>>::empty(),
            )
    }

    pub closed spec fn size(&self) -> (u32, u32) {
        (self.width, self.height)
    }

    pub fn new(config: &EncoderConfig) -> (e: Self)
        ensures
            e.wf(),
            e.pending() == Seq::<u64>::empty(),
            e.size() == (config.width, config.height),
    {
        let e = X264Encoder {
            width: config.width,
            height: config.height,
            queue: VecDeque::new(),
        };
        assert(e.pending() =~= Seq::<u64>::empty());
        e
    }

    /// Encodes the frame captured at `timestamp_ns`: queues an empty
    /// keyframe with that timestamp, unless the queue is full.
    pub fn encode(&mut self, timestamp_ns: u64)
        requires
            old(self).wf(),
        ensures
            final(self).wf(),
            final(self).size() == old(self).size(),
            final(self).pending() == if old(self).pending().len() < SOFTWARE_QUEUE_LEN {
                old(self).pending().push(timestamp_ns)
            } else {
                old(self).pending()
            },
    {
        if self.queue.len() < SOFTWARE_QUEUE_LEN {
            let ghost before = self.queue@;
            let packet = EncodedPacket {
                data: Vec::new(),
                is_keyframe: true,
                timestamp: timestamp_ns,
                nal_units: Vec::new(),
            };
            proof {
                assert(packet.data@ =~= Seq::<u8>::empty());
                assert(packet.nal_units@.map_values(|n: Vec<u8>| n@) =~= Seq::<Seq<u8>>::empty());
            }
            self.queue.push_back(packet);
            proof {
                assert(self.pending() =~= before.map_values(|p: EncodedPacket| p.timestamp).push(
                    timestamp_ns,
                ));
                assert forall|i: int| 0 <= i < self.queue@.len() implies #[trigger] packet_view(
                    self.queue@[i],
                ) == (Seq::<u8>::empty(), true, self.queue@[i].timestamp, Seq::<Seq<u8>>::empty()) by {
                    if i < before.len() {
                        assert(self.queue@[i] == before[i]);
                    }
                }
            }
        }
    }

    /// The oldest waiting packet, if any.
    pub fn next_encoded(&mut self) -> (p: Option<EncodedPacket>)
        requires
            old(self).wf(),
        ensures
            final(self).wf(),
            final(self).size() == old(self).size(),
            old(self).pending().len() == 0 ==> p is None && final(self).pending() == old(
                self,
            ).pending(),
            old(self).pending().len() > 0 ==> p is Some && packet_view(p->0) == (
                Seq::<u8>::empty(),
                true,
                old(self).pending()[0],
                Seq::<Seq<u8>>::empty(),
            ) && final(self).pending() == old(self).pending().drop_first(),
    {
        let ghost before = self.queue@;
        let p = self.queue.pop_front();
        proof {
            if before.len() > 0 {
                assert(self.queue@ =~= before.drop_first());
                assert(self.pending() =~= before.map_values(|q: EncodedPacket| q.timestamp).drop_first());
                assert(packet_view(before[0]) == (
                    Seq::<u8>::empty(),
                    true,
                    before[0].timestamp,
                    Seq::<Seq<u8>>::empty(),
                ));
                assert forall|i: int| 0 <= i < self.queue@.len() implies #[trigger] packet_view(
                    self.queue@[i],
                ) == (Seq::<u8>::empty(), true, self.queue@[i].timestamp, Seq::<Seq<u8>>::empty()) by {
                    assert(self.queue@[i] == before[i + 1]);
                }
            }
        }
        p
    }
}

/// The hardware encoder through NVENC, which this build does not offer.
pub struct NvencEncoder;

/// Why an encoder could not be created.
#[derive(Debug, Clone, Copy, PartialEq, Eq, Structural)]
pub enum EncoderUnavailable {
    Nvenc,
}

impl NvencEncoder {
    /// Always fails: NVENC is not available.
    pub fn new(config: &EncoderConfig) -> (r: Result<NvencEncoder, EncoderUnavailable>)
        ensures
            r == Err::<NvencEncoder, EncoderUnavailable>(EncoderUnavailable::Nvenc),
    {
        Err(EncoderUnavailable::Nvenc)
    }
}

/// The encoders a sender can use, best first.
#[derive(Debug, Clone, Copy, PartialEq, Eq, Structural)]
pub enum EncoderBackend {
    Nvenc,
    MediaFoundation,
    Software,
}

/// The encoder to use: NVENC if it could be created, else the Media
/// Foundation hardware encoder if it could, else software.
pub fn choose_backend(nvenc_ok: bool, media_foundation_ok: bool) -> (b: EncoderBackend)
    ensures
        b == (if nvenc_ok {
            EncoderBackend::Nvenc
        } else if media_foundation_ok {
            EncoderBackend::MediaFoundation
        } else {
            EncoderBackend::Software
        }),
{
    if nvenc_ok {
        EncoderBackend::Nvenc
    } else if media_foundation_ok {
        EncoderBackend::MediaFoundation
    } else {
        EncoderBackend::Software
    }
}

} // verus!
