//! Decoder parameters, and what the hardware decoder does with each NAL
//! unit: parameter sets are kept and, once both are known, the decoding
//! session is (re)built from them; slices are decoded once a session
//! exists and dropped before; everything else is ignored.  Slices go to the
//! decoder in AVCC framing.

use vstd::prelude::*;
use vstd::slice::slice_to_vec;

verus! {

#[derive(Debug, Clone, Copy, PartialEq, Eq, Structural)]
pub struct DecoderConfig {
    pub width: u32,
    pub height: u32,
}

/// What to do with a NAL unit.
#[derive(Debug, Clone, Copy, PartialEq, Eq, Structural)]
pub enum NalAction {
    /// Nothing to do.
    Ignore,
    /// Both parameter sets are known: rebuild the session from them.
    Rebuild,
    /// Decode the slice.
    Decode,
    /// A slice before any session exists: drop it.
    Drop,
}

/// The NAL unit type: the low five bits of the first byte.
pub open spec fn nal_type(nal: Seq<u8>) -> u8 {
    nal[0] & 0x1Fu8
}

/// The parameter sets the decoder keeps and whether a session is up.
pub struct ParameterSets {
    sps: Option<Vec<u8>>,
    pps: Option<Vec<u8>>,
    session: bool,
}

pub open spec fn opt_bytes(o: Option<Vec<u8>>) -> Option<Seq<u8>> {
    match o {
        Some(v) => Some(v@),
        None => None,
    }
}

impl ParameterSets {
    pub closed spec fn sps(&self) -> Option<Seq<u8>> {
        opt_bytes(self.sps)
    }

    pub closed spec fn pps(&self) -> Option<Seq<u8>> {
        opt_bytes(self.pps)
    }

    pub closed spec fn has_session(&self) -> bool {
        self.session
    }

    pub fn new() -> (p: Self)
        ensures
            p.sps() is None,
            p.pps() is None,
            !p.has_session(),
    {
        ParameterSets { sps: None, pps: None, session: false }
    }

    /// Takes a NAL unit (without start code or length prefix): an SPS (type
    /// 7) or PPS (type 8) is kept, and asks for a rebuild when both are
    /// known; a slice (type 1 or 5) is decoded when a session exists and
    /// dropped otherwise; anything else, or an empty unit, is ignored.
    pub fn on_nal(&mut self, nal: &[u8]) -> (a: NalAction)
        ensures
            final(self).has_session() == old(self).has_session(),
            nal@.len() == 0 ==> a == NalAction::Ignore && final(self).sps() == old(self).sps()
                && final(self).pps() == old(self).pps(),
            nal@.len() > 0 && nal_type(nal@) == 7 ==> {
                &&& final(self).sps() == Some(nal@)
                &&& final(self).pps() == old(self).pps()
                &&& a == if old(self).pps() is Some {
                    NalAction::Rebuild
                } else {
                    NalAction::Ignore
                }
            },
            nal@.len() > 0 && nal_type(nal@) == 8 ==> {
                &&& final(self).pps() == Some(nal@)
                &&& final(self).sps() == old(self).sps()
                &&& a == if old(self).sps() is Some {
                    NalAction::Rebuild
                } else {
                    NalAction::Ignore
                }
            },
            nal@.len() > 0 && nal_type(nal@) != 7 && nal_type(nal@) != 8 ==> {
                &&& final(self).sps() == old(self).sps()
                &&& final(self).pps() == old(self).pps()
                &&& a == if nal_type(nal@) == 1 || nal_type(nal@) == 5 {
                    if old(self).has_session() {
                        NalAction::Decode
                    } else {
                        NalAction::Drop
                    }
                } else {
                    NalAction::Ignore
                }
            },
    {
        if nal.len() == 0 {
            return NalAction::Ignore;
        }
        let t = nal[0] & 0x1Fu8;
        if t == 7 {
            self.sps = Some(slice_to_vec(nal));
            if self.pps.is_some() {
                NalAction::Rebuild
            } else {
                NalAction::Ignore
            }
        } else if t == 8 {
            self.pps = Some(slice_to_vec(nal));
            if self.sps.is_some() {
                NalAction::Rebuild
            } else {
                NalAction::Ignore
            }
        } else if t == 1 || t == 5 {
            if self.session {
                NalAction::Decode
            } else {
                NalAction::Drop
            }
        } else {
            NalAction::Ignore
        }
    }

    /// A rebuild finished: the old session is gone, and a new one is up if
    /// building it succeeded.
    pub fn on_rebuilt(&mut self, ok: bool)
        ensures
            final(self).has_session() == ok,
            final(self).sps() == old(self).sps(),
            final(self).pps() == old(self).pps(),
    {
        self.session = ok;
    }
}

/// A NAL unit in AVCC framing: its length as 4 big-endian bytes, then the
/// unit.
pub open spec fn avcc_frame_bytes(nal: Seq<u8>) -> Seq<u8> {
    let n = nal.len();
    seq![(n / 0x100_0000) as u8, ((n / 0x1_0000) % 256) as u8, ((n / 256) % 256) as u8, (n % 256) as u8]
        + nal
}

pub fn avcc_frame(nal: &[u8]) -> (out: Vec<u8>)
    requires
        nal@.len() <= u32::MAX,
    ensures
        out@ == avcc_frame_bytes(nal@),
{
    let n = nal.len() as u32;
    let mut out: Vec<u8> = Vec::new();
    out.push((n >> 24u32) as u8);
    out.push((n >> 16u32) as u8);
    out.push((n >> 8u32) as u8);
    out.push(n as u8);
    proof {
        assert((n >> 24u32) as u8 == n / 0x100_0000) by (bit_vector);
        assert((n >> 16u32) as u8 == (n / 0x1_0000) % 256) by (bit_vector);
        assert((n >> 8u32) as u8 == (n / 256) % 256) by (bit_vector);
        assert(n as u8 == n % 256) by (bit_vector);
    }
    let mut i: usize = 0;
    let ghost head = out@;
    while i < nal.len()
        invariant
            i <= nal@.len(),
            out@ == head + nal@.take(i as int),
        decreases nal@.len() - i,
    {
        out.push(nal[i]);
        i = i + 1;
        assert(out@ =~= head + nal@.take(i as int));
    }
    assert(nal@.take(i as int) =~= nal@);
    assert(out@ =~= avcc_frame_bytes(nal@));
    out
}

} // verus!
