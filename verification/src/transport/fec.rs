//! XOR forward error correction over groups of RTP packets.
//!
//! The encoder sends, after every `group_size` media packets, one parity
//! packet whose payload is a 4-byte header (first sequence number, group
//! length, media payload type) followed by the XOR of the group's payloads,
//! each padded with zeros to the longest.  The decoder can rebuild any single
//! packet of a group that went missing.

use std::collections::HashMap;
use std::time::{SystemTime, UNIX_EPOCH};
use vstd::prelude::*;
use vstd::slice::slice_to_vec;

use crate::transport::rtp::{
    be16,
    from_be16,
    lemma_be16_bytes,
    lemma_be16_roundtrip,
    RtpHeader,
    RtpPacket,
};

verus! {

broadcast use vstd::std_specs::hash::group_hash_axioms;

/// Payload type of parity packets.
const FEC_PT: u8 = 127;

#[derive(Debug, Clone, Copy, PartialEq, Eq, Structural)]
pub struct FecHeader {
    pub base_seq: u16,
    pub group_len: u8,
    pub media_pt: u8,
}

/// The 4 bytes that encode a parity header.
pub open spec fn fec_header_bytes(h: FecHeader) -> Seq<u8> {
    be16(h.base_seq) + seq![h.group_len, h.media_pt]
}

/// The parity header that the first 4 bytes of `b` encode.
pub open spec fn fec_header_from_bytes(b: Seq<u8>) -> FecHeader {
    FecHeader { base_seq: from_be16(b[0], b[1]), group_len: b[2], media_pt: b[3] }
}

impl FecHeader {
    pub fn serialize(&self) -> (buf: [u8; 4])
        ensures
            buf@ == fec_header_bytes(*self),
    {
        let buf: [u8; 4] = [
            (self.base_seq >> 8u16) as u8,
            self.base_seq as u8,
            self.group_len,
            self.media_pt,
        ];
        assert(buf@ =~= fec_header_bytes(*self));
        buf
    }

    /// Parses a parity header; `None` when fewer than 4 bytes are given.
    pub fn parse(buf: &[u8]) -> (h: Option<FecHeader>)
        ensures
            buf@.len() < 4 ==> h.is_none(),
            buf@.len() >= 4 ==> h == Some(fec_header_from_bytes(buf@)),
    {
        if buf.len() < 4 {
            return None;
        }
        Some(
            FecHeader {
                base_seq: ((buf[0] as u16) << 8u16) | (buf[1] as u16),
                group_len: buf[2],
                media_pt: buf[3],
            },
        )
    }
}

/// Parsing the bytes of a parity header gives the header back.
pub proof fn fec_header_roundtrip(h: FecHeader)
    ensures
        fec_header_from_bytes(fec_header_bytes(h)) == h,
{
    lemma_be16_roundtrip(h.base_seq);
}

/// Serializing a parsed parity header gives back the first 4 bytes.
pub proof fn fec_header_bytes_roundtrip(b: Seq<u8>)
    requires
        b.len() >= 4,
    ensures
        fec_header_bytes(fec_header_from_bytes(b)) == b.subrange(0, 4),
{
    lemma_be16_bytes(b[0], b[1]);
    assert(fec_header_bytes(fec_header_from_bytes(b)) =~= b.subrange(0, 4));
}

// ── XOR of payloads ─────────────────────────────────────────────────────────

/// Byte `i` of `p`, or zero past its end.
pub open spec fn byte_or_zero(p: Seq<u8>, i: int) -> u8 {
    if 0 <= i < p.len() {
        p[i]
    } else {
        0u8
    }
}

/// XOR of byte `i` of every payload in `ps`, short payloads padded with zeros.
pub open spec fn xor_column(ps: Seq<Seq<u8>>, i: int) -> u8
    decreases ps.len(),
{
    if ps.len() == 0 {
        0u8
    } else {
        xor_column(ps.drop_last(), i) ^ byte_or_zero(ps.last(), i)
    }
}

/// Length of the longest payload in `ps` (zero when there is none).
pub open spec fn max_len(ps: Seq<Seq<u8>>) -> nat
    decreases ps.len(),
{
    if ps.len() == 0 {
        0
    } else if ps.last().len() > max_len(ps.drop_last()) {
        ps.last().len()
    } else {
        max_len(ps.drop_last())
    }
}

/// XOR of all payloads, each padded with zeros to the longest.
pub open spec fn xor_all(ps: Seq<Seq<u8>>) -> Seq<u8> {
    Seq::new(max_len(ps), |i: int| xor_column(ps, i))
}

/// The byte views of a sequence of byte vectors.
pub open spec fn views(ps: Seq<Vec<u8>>) -> Seq<Seq<u8>> {
    ps.map_values(|p: Vec<u8>| p@)
}

proof fn lemma_max_len_bounds(ps: Seq<Seq<u8>>)
    ensures
        forall|j: int| 0 <= j < ps.len() ==> (#[trigger] ps[j]).len() <= max_len(ps),
    decreases ps.len(),
{
    if ps.len() > 0 {
        lemma_max_len_bounds(ps.drop_last());
        assert forall|j: int| 0 <= j < ps.len() implies (#[trigger] ps[j]).len() <= max_len(
            ps,
        ) by {
            if j < ps.len() - 1 {
                assert(ps[j] == ps.drop_last()[j]);
            }
        }
    }
}

proof fn lemma_xor_zero(x: u8)
    ensures
        x ^ 0u8 == x,
        0u8 ^ x == x,
{
    assert(x ^ 0u8 == x) by (bit_vector);
    assert(0u8 ^ x == x) by (bit_vector);
}

fn xor_payloads(payloads: &[Vec<u8>]) -> (r: Vec<u8>)
    ensures
        r@ == xor_all(views(payloads@)),
{
    let ghost ps = views(payloads@);
    let mut max: usize = 0;
    let mut k: usize = 0;
    while k < payloads.len()
        invariant
            k <= payloads@.len(),
            ps == views(payloads@),
            max == max_len(ps.take(k as int)),
        decreases payloads@.len() - k,
    {
        assert(ps.take(k as int + 1).drop_last() =~= ps.take(k as int));
        if payloads[k].len() > max {
            max = payloads[k].len();
        }
        k = k + 1;
    }
    assert(ps.take(payloads@.len() as int) =~= ps);
    proof {
        lemma_max_len_bounds(ps);
    }
    let mut result: Vec<u8> = vec![0u8; max];
    let mut k: usize = 0;
    assert forall|i: int| 0 <= i < max implies result@[i] == xor_column(ps.take(0), i) by {
        assert(ps.take(0).len() == 0);
    }
    while k < payloads.len()
        invariant
            k <= payloads@.len(),
            ps == views(payloads@),
            max == max_len(ps),
            forall|j: int| 0 <= j < ps.len() ==> (#[trigger] ps[j]).len() <= max,
            result@.len() == max,
            forall|i: int| 0 <= i < max ==> result@[i] == xor_column(ps.take(k as int), i),
        decreases payloads@.len() - k,
    {
        let p = &payloads[k];
        assert(p@ == ps[k as int]);
        let mut j: usize = 0;
        assert forall|i: int| 0 <= i < max implies result@[i] == xor_column(
            ps.take(k as int),
            i,
        ) ^ (if i < j {
            p@[i]
        } else {
            0u8
        }) by {
            lemma_xor_zero(xor_column(ps.take(k as int), i));
        }
        while j < p.len()
            invariant
                j <= p@.len(),
                p@.len() <= max,
                result@.len() == max,
                forall|i: int|
                    0 <= i < max ==> result@[i] == xor_column(ps.take(k as int), i) ^ (if i
                        < j {
                        p@[i]
                    } else {
                        0u8
                    }),
            decreases p@.len() - j,
        {
            let v = result[j];
            result.set(j, v ^ p[j]);
            j = j + 1;
            assert forall|i: int| 0 <= i < max implies result@[i] == xor_column(
                ps.take(k as int),
                i,
            ) ^ (if i < j {
                p@[i]
            } else {
                0u8
            }) by {
                if i == j - 1 {
                    lemma_xor_zero(xor_column(ps.take(k as int), i));
                }
            }
        }
        assert forall|i: int| 0 <= i < max implies result@[i] == xor_column(
            ps.take(k as int + 1),
            i,
        ) by {
            assert(ps.take(k as int + 1).drop_last() =~= ps.take(k as int));
            assert(ps.take(k as int + 1).last() == p@);
            if i >= p@.len() {
                lemma_xor_zero(xor_column(ps.take(k as int), i));
            }
        }
        k = k + 1;
    }
    assert(ps.take(payloads@.len() as int) =~= ps);
    assert(result@ =~= xor_all(ps));
    result
}

// ── Encoder ─────────────────────────────────────────────────────────────────

/// Reads the system clock, in nanoseconds since the Unix epoch (zero when
/// the clock stands before the epoch).  Nothing is stated of the reading.
#[verifier::external_body]
fn clock_nanos() -> u128 {
    SystemTime::now().duration_since(UNIX_EPOCH).unwrap_or_default().as_nanos()
}

/// A synchronisation source identifier taken from the clock.
fn rand_ssrc() -> u32 {
    let t = clock_nanos() as u32;
    t ^ 0xDEAD_BEEFu32
}

/// The RTP header of the parity packet with sequence number `seq`.
pub open spec fn fec_rtp_header(seq: u16, ssrc: u32) -> RtpHeader {
    RtpHeader {
        version: 2,
        padding: false,
        extension: false,
        marker: false,
        payload_type: 127,
        sequence_number: seq,
        timestamp: 0,
        ssrc,
    }
}

/// Payload of the parity packet for a group of media packets.
pub open spec fn fec_payload(group: Seq<RtpPacket>, media_pt: u8) -> Seq<u8> {
    fec_header_bytes(
        FecHeader {
            base_seq: group[0].header.sequence_number,
            group_len: (group.len() % 256) as u8,
            media_pt,
        },
    ) + xor_all(packet_payloads(group))
}

/// The payload views of a sequence of packets.
pub open spec fn packet_payloads(ps: Seq<RtpPacket>) -> Seq<Seq<u8>> {
    ps.map_values(|p: RtpPacket| p.payload@)
}

/// Equal header and payload bytes.
pub open spec fn same_packet(a: RtpPacket, b: RtpPacket) -> bool {
    a.header == b.header && a.payload@ == b.payload@
}

/// One `push` of `pkt` on `before`: with `pkt` added, a group that reaches
/// the group size gives its parity packet (numbered `before.next_seq()`) and
/// starts afresh; a smaller one is kept; size, payload type and SSRC stay.
pub open spec fn fec_push_step(
    before: FecEncoder,
    pkt: RtpPacket,
    fec: Option<RtpPacket>,
    after: FecEncoder,
) -> bool {
    &&& after.group_size() == before.group_size()
    &&& after.media_pt() == before.media_pt()
    &&& after.ssrc() == before.ssrc()
    &&& ({
        let group = before.pending().push(pkt);
        if group.len() >= before.group_size() {
            &&& fec is Some
            &&& fec->0.header == fec_rtp_header(before.next_seq(), before.ssrc())
            &&& fec->0.payload@ == fec_payload(group, before.media_pt())
            &&& after.pending().len() == 0
            &&& after.next_seq() == before.next_seq().wrapping_add(1)
        } else {
            &&& fec is None
            &&& after.pending().len() == group.len()
            &&& forall|i: int|
                0 <= i < group.len() ==> same_packet(#[trigger] after.pending()[i], group[i])
            &&& after.next_seq() == before.next_seq()
        }
    })
}

pub struct FecEncoder {
    group_size: usize,
    media_pt: u8,
    ssrc: u32,
    seq: u16,
    buffer: Vec<RtpPacket>,
}

impl FecEncoder {
    pub closed spec fn group_size(&self) -> usize {
        self.group_size
    }

    pub closed spec fn media_pt(&self) -> u8 {
        self.media_pt
    }

    pub closed spec fn ssrc(&self) -> u32 {
        self.ssrc
    }

    /// Sequence number of the next parity packet.
    pub closed spec fn next_seq(&self) -> u16 {
        self.seq
    }

    /// Media packets of the group being collected.
    pub closed spec fn pending(&self) -> Seq<RtpPacket> {
        self.buffer@
    }

    /// A new encoder; its SSRC is taken from the clock.
    pub fn new(group_size: usize, media_pt: u8) -> (e: Self)
        ensures
            e.group_size() == group_size,
            e.media_pt() == media_pt,
            e.next_seq() == 0,
            e.pending() == Seq::<RtpPacket>::empty(),
    {
        FecEncoder {
            group_size,
            media_pt,
            ssrc: rand_ssrc(),
            seq: 0,
            buffer: Vec::with_capacity(group_size),
        }
    }

    /// Adds a media packet to the group; once the group holds `group_size`
    /// packets, returns its parity packet and starts a new group.
    pub fn push(&mut self, pkt: &RtpPacket) -> (fec: Option<RtpPacket>)
        requires
            old(self).pending().len() < usize::MAX,
        ensures
            fec_push_step(*old(self), *pkt, fec, *final(self)),
    {
        let ghost group = self.buffer@.push(*pkt);
        let copy = RtpPacket { header: pkt.header, payload: slice_to_vec(pkt.payload.as_slice()) };
        self.buffer.push(copy);
        assert(packet_payloads(self.buffer@) =~= packet_payloads(group)) by {
            assert forall|i: int| 0 <= i < group.len() implies #[trigger] packet_payloads(
                self.buffer@,
            )[i] == packet_payloads(group)[i] by {
                if i < group.len() - 1 {
                    assert(self.buffer@[i] == group[i]);
                }
            }
        }
        if self.buffer.len() >= self.group_size {
            Some(self.generate_fec())
        } else {
            assert forall|i: int| 0 <= i < group.len() implies same_packet(
                #[trigger] self.buffer@[i],
                group[i],
            ) by {
                if i < group.len() - 1 {
                    assert(self.buffer@[i] == group[i]);
                }
            }
            None
        }
    }

    /// Closes the group early: its parity packet, if it holds any packet.
    pub fn flush(&mut self) -> (fec: Option<RtpPacket>)
        ensures
            final(self).group_size() == old(self).group_size(),
            final(self).media_pt() == old(self).media_pt(),
            final(self).ssrc() == old(self).ssrc(),
            old(self).pending().len() == 0 ==> fec is None && final(self).next_seq() == old(
                self,
            ).next_seq() && final(self).pending().len() == 0,
            old(self).pending().len() > 0 ==> {
                &&& fec is Some
                &&& fec->0.header == fec_rtp_header(old(self).next_seq(), old(self).ssrc())
                &&& fec->0.payload@ == fec_payload(old(self).pending(), old(self).media_pt())
                &&& final(self).pending().len() == 0
                &&& final(self).next_seq() == old(self).next_seq().wrapping_add(1)
            },
    {
        if self.buffer.len() == 0 {
            None
        } else {
            Some(self.generate_fec())
        }
    }

    fn generate_fec(&mut self) -> (fec: RtpPacket)
        requires
            old(self).buffer@.len() > 0,
        ensures
            final(self).group_size == old(self).group_size,
            final(self).media_pt == old(self).media_pt,
            final(self).ssrc == old(self).ssrc,
            final(self).buffer@.len() == 0,
            final(self).seq == old(self).seq.wrapping_add(1),
            fec.header == fec_rtp_header(old(self).seq, old(self).ssrc),
            fec.payload@ == fec_payload(old(self).buffer@, old(self).media_pt),
    {
        let base_seq = self.buffer[0].header.sequence_number;
        let count: usize = self.buffer.len();
        let group_len = count as u8;
        assert(group_len == (count % 256) as u8) by (bit_vector)
            requires
                group_len == count as u8,
        ;

        let mut payloads: Vec<Vec<u8>> = Vec::with_capacity(self.buffer.len());
        let mut k: usize = 0;
        while k < self.buffer.len()
            invariant
                k <= self.buffer@.len(),
                payloads@.len() == k,
                forall|i: int| 0 <= i < k ==> (#[trigger] payloads@[i])@ == self.buffer@[i].payload@,
            decreases self.buffer@.len() - k,
        {
            payloads.push(slice_to_vec(self.buffer[k].payload.as_slice()));
            k = k + 1;
        }
        assert(views(payloads@) =~= packet_payloads(self.buffer@));
        let xor_data = xor_payloads(payloads.as_slice());

        let fec_header = FecHeader { base_seq, group_len, media_pt: self.media_pt };
        let header_bytes = fec_header.serialize();

        let mut payload: Vec<u8> = Vec::new();
        let mut i: usize = 0;
        while i < 4
            invariant
                i <= 4,
                payload@ == header_bytes@.subrange(0, i as int),
            decreases 4 - i,
        {
            payload.push(header_bytes[i]);
            i = i + 1;
            assert(payload@ =~= header_bytes@.subrange(0, i as int));
        }
        let mut j: usize = 0;
        while j < xor_data.len()
            invariant
                j <= xor_data@.len(),
                payload@ == header_bytes@ + xor_data@.subrange(0, j as int),
            decreases xor_data@.len() - j,
        {
            payload.push(xor_data[j]);
            j = j + 1;
            assert(payload@ =~= header_bytes@ + xor_data@.subrange(0, j as int));
        }
        assert(xor_data@.subrange(0, xor_data@.len() as int) =~= xor_data@);

        let seq = self.seq;
        self.seq = self.seq.wrapping_add(1);
        self.buffer.clear();

        RtpPacket {
            header: RtpHeader {
                version: 2,
                padding: false,
                extension: false,
                marker: false,
                payload_type: FEC_PT,
                sequence_number: seq,
                timestamp: 0,
                ssrc: self.ssrc,
            },
            payload,
        }
    }
}


// ── Decoder ─────────────────────────────────────────────────────────────────

/// Offset of `seq` from `base` in the wrapping 16-bit sequence space.
pub open spec fn seq_offset(seq: u16, base: u16) -> int {
    (seq as int - base as int) % 65536
}

/// Sequence number `offset` places after `base`, modulo 2^16.
pub open spec fn seq_at(base: u16, offset: int) -> u16 {
    ((base as int + offset) % 65536) as u16
}

/// `seq` lies in the `len` sequence numbers that start at `base`.
pub open spec fn in_group(seq: u16, base: u16, len: u8) -> bool {
    seq_offset(seq, base) < len
}

/// `a` comes strictly before `b` in the wrapping sequence space.
pub open spec fn seq_before(a: u16, b: u16) -> bool {
    seq_offset(a, b) > 0x7FFF
}

/// A parity group as the decoder holds it.
pub struct FecGroupView {
    pub base_seq: u16,
    pub group_len: u8,
    pub xor_payload: Seq<u8>,
    pub received: Map<u16, Seq<u8>>,
}

/// The payloads received for the first `n` sequence numbers of a group,
/// in sequence order.
pub open spec fn present_payloads(received: Map<u16, Seq<u8>>, base: u16, n: int) -> Seq<Seq<u8>>
    decreases n,
{
    if n <= 0 {
        Seq::empty()
    } else if received.contains_key(seq_at(base, n - 1)) {
        present_payloads(received, base, n - 1).push(received[seq_at(base, n - 1)])
    } else {
        present_payloads(received, base, n - 1)
    }
}

/// What a group rebuilds for `missing`: the XOR of the received payloads
/// and the parity payload, when `missing` belongs to the group and is the
/// only one of its packets that has not arrived.
pub open spec fn group_recovery(g: FecGroupView, missing: u16) -> Option<Seq<u8>> {
    if in_group(missing, g.base_seq, g.group_len) && g.received.dom().len() == g.group_len - 1
        && !g.received.contains_key(missing) {
        Some(
            xor_all(present_payloads(g.received, g.base_seq, g.group_len as int).push(g.xor_payload)),
        )
    } else {
        None
    }
}

/// What the first group that can rebuild `missing` gives, if any.
pub open spec fn recover_from(groups: Seq<FecGroupView>, missing: u16) -> Option<Seq<u8>>
    decreases groups.len(),
{
    if groups.len() == 0 {
        None
    } else if group_recovery(groups[0], missing) is Some {
        group_recovery(groups[0], missing)
    } else {
        recover_from(groups.drop_first(), missing)
    }
}

/// The groups of `groups`, in order, whose first sequence number does not
/// come before `before`.
pub open spec fn groups_not_before(groups: Seq<FecGroupView>, before: u16) -> Seq<FecGroupView>
    decreases groups.len(),
{
    if groups.len() == 0 {
        Seq::empty()
    } else if seq_before(groups.last().base_seq, before) {
        groups_not_before(groups.drop_last(), before)
    } else {
        groups_not_before(groups.drop_last(), before).push(groups.last())
    }
}

/// The group after a media packet `seq` with payload `payload` arrived.
pub open spec fn group_after_media(g: FecGroupView, seq: u16, payload: Seq<u8>) -> FecGroupView {
    if in_group(seq, g.base_seq, g.group_len) {
        FecGroupView { received: g.received.insert(seq, payload), ..g }
    } else {
        g
    }
}

/// One `push_media` of `pkt`: every group records it when its range holds
/// the packet's sequence number, and no group is added or dropped.
pub open spec fn media_push_step(before: FecDecoder, pkt: RtpPacket, after: FecDecoder) -> bool {
    &&& after.groups().len() == before.groups().len()
    &&& forall|i: int|
        0 <= i < before.groups().len() ==> #[trigger] after.groups()[i] == group_after_media(
            before.groups()[i],
            pkt.header.sequence_number,
            pkt.payload@,
        )
}

struct FecGroup {
    base_seq: u16,
    group_len: u8,
    xor_payload: Vec<u8>,
    received: HashMap<u16, Vec<u8>>,
}

spec fn group_view(g: FecGroup) -> FecGroupView {
    FecGroupView {
        base_seq: g.base_seq,
        group_len: g.group_len,
        xor_payload: g.xor_payload@,
        received: g.received@.map_values(|v: Vec<u8>| v@),
    }
}

pub struct FecDecoder {
    groups: Vec<FecGroup>,
}

impl Default for FecDecoder {
    fn default() -> (d: Self)
        ensures
            d.groups() == Seq::<FecGroupView>::empty(),
    {
        FecDecoder::new()
    }
}

fn seq_in_range(seq: u16, base: u16, end: u16) -> (r: bool)
    ensures
        r == (seq_offset(seq, base) < seq_offset(end, base)),
{
    let offset = seq.wrapping_sub(base);
    let len = end.wrapping_sub(base);
    offset < len
}

fn seq_before_exec(a: u16, b: u16) -> (r: bool)
    ensures
        r == seq_before(a, b),
{
    let diff = a.wrapping_sub(b);
    diff > 0x7FFF
}

proof fn lemma_group_end(base: u16, len: u8)
    ensures
        seq_offset(seq_at(base, len as int), base) == len,
{
}

impl FecDecoder {
    /// The groups held, in the order their parity packets arrived.
    pub closed spec fn groups(&self) -> Seq<FecGroupView> {
        self.groups@.map_values(|g: FecGroup| group_view(g))
    }

    pub fn new() -> (d: Self)
        ensures
            d.groups() == Seq::<FecGroupView>::empty(),
    {
        FecDecoder { groups: Vec::new() }
    }

    /// Records a media packet in every group whose range holds its sequence
    /// number.
    pub fn push_media(&mut self, pkt: &RtpPacket)
        ensures
            media_push_step(*old(self), *pkt, *final(self)),
    {
        let seq = pkt.header.sequence_number;
        let mut i: usize = 0;
        while i < self.groups.len()
            invariant
                i <= self.groups@.len(),
                self.groups@.len() == old(self).groups@.len(),
                forall|j: int|
                    0 <= j < i ==> #[trigger] group_view(self.groups@[j]) == group_after_media(
                        group_view(old(self).groups@[j]),
                        seq,
                        pkt.payload@,
                    ),
                forall|j: int|
                    i <= j < self.groups@.len() ==> #[trigger] self.groups@[j] == old(
                        self,
                    ).groups@[j],
            decreases self.groups@.len() - i,
        {
            let end_seq = self.groups[i].base_seq.wrapping_add(self.groups[i].group_len as u16);
            proof {
                lemma_group_end(self.groups@[i as int].base_seq, self.groups@[i as int].group_len);
            }
            if seq_in_range(seq, self.groups[i].base_seq, end_seq) {
                let ghost before = self.groups@;
                let copy = slice_to_vec(pkt.payload.as_slice());
                self.groups[i].received.insert(seq, copy);
                proof {
                    let g0 = group_view(before[i as int]);
                    assert(group_view(self.groups@[i as int]).received =~= g0.received.insert(
                        seq,
                        pkt.payload@,
                    ));
                    assert forall|j: int| 0 <= j < self.groups@.len() && j != i implies #[trigger] self.groups@[j] == before[j] by {}
                }
            }
            i = i + 1;
        }
        proof {
            assert forall|j: int| 0 <= j < old(self).groups().len() implies #[trigger] self.groups()[j]
                == group_after_media(old(self).groups()[j], seq, pkt.payload@) by {
                assert(self.groups()[j] == group_view(self.groups@[j]));
            }
        }
    }

    /// Opens a group from a parity packet; a payload shorter than the parity
    /// header is ignored.
    pub fn push_fec(&mut self, pkt: &RtpPacket)
        ensures
            pkt.payload@.len() < 4 ==> final(self).groups() == old(self).groups(),
            pkt.payload@.len() >= 4 ==> final(self).groups() == old(self).groups().push(
                FecGroupView {
                    base_seq: fec_header_from_bytes(pkt.payload@).base_seq,
                    group_len: fec_header_from_bytes(pkt.payload@).group_len,
                    xor_payload: pkt.payload@.subrange(4, pkt.payload@.len() as int),
                    received: Map::empty(),
                },
            ),
    {
        let fec_header = match FecHeader::parse(pkt.payload.as_slice()) {
            Some(h) => h,
            None => return ,
        };
        let xor_payload = slice_to_vec(&pkt.payload.as_slice()[4..pkt.payload.len()]);
        let received: HashMap<u16, Vec<u8>> = HashMap::new();
        let ghost old_groups = self.groups@;
        self.groups.push(
            FecGroup {
                base_seq: fec_header.base_seq,
                group_len: fec_header.group_len,
                xor_payload,
                received,
            },
        );
        proof {
            assert(group_view(self.groups@.last()).received =~= Map::<u16, Seq<u8>>::empty());
            assert(self.groups() =~= old(self).groups().push(group_view(self.groups@.last())));
        }
    }

    /// Rebuilds the payload of the media packet `missing` from the first
    /// group that holds every other packet of its range.
    pub fn recover(&mut self, missing_seq: u16) -> (r: Option<Vec<u8>>)
        ensures
            final(self).groups() == old(self).groups(),
            match r {
                Some(v) => recover_from(old(self).groups(), missing_seq) == Some(v@),
                None => recover_from(old(self).groups(), missing_seq) is None,
            },
    {
        let ghost gs = self.groups();
        let mut i: usize = 0;
        assert(gs.subrange(0, gs.len() as int) =~= gs);
        while i < self.groups.len()
            invariant
                i <= self.groups@.len(),
                gs == self.groups(),
                recover_from(gs, missing_seq) == recover_from(gs.subrange(i as int, gs.len() as int), missing_seq),
            decreases self.groups@.len() - i,
        {
            let ghost rest = gs.subrange(i as int, gs.len() as int);
            assert(rest.drop_first() =~= gs.subrange(i + 1, gs.len() as int));
            assert(rest[0] == group_view(self.groups@[i as int]));
            let group = &self.groups[i];
            let end_seq = group.base_seq.wrapping_add(group.group_len as u16);
            proof {
                lemma_group_end(group.base_seq, group.group_len);
            }
            if seq_in_range(missing_seq, group.base_seq, end_seq) {
                let expected = group.group_len as usize;
                proof {
                    assert(group_view(*group).received.dom() =~= group.received@.dom());
                }
                if group.received.len() == expected - 1 && !group.received.contains_key(&missing_seq) {
                    let mut payloads: Vec<Vec<u8>> = Vec::new();
                    let mut o: u8 = 0;
                    while o < group.group_len
                        invariant
                            o <= group.group_len,
                            views(payloads@) == present_payloads(
                                group_view(*group).received,
                                group.base_seq,
                                o as int,
                            ),
                        decreases group.group_len - o,
                    {
                        let key = group.base_seq.wrapping_add(o as u16);
                        assert(key == seq_at(group.base_seq, o as int));
                        let ghost before = payloads@;
                        match group.received.get(&key) {
                            Some(v) => {
                                payloads.push(slice_to_vec(v.as_slice()));
                                assert(views(payloads@) =~= views(before).push(v@));
                            },
                            None => {},
                        }
                        o = o + 1;
                    }
                    let ghost before = payloads@;
                    payloads.push(slice_to_vec(group.xor_payload.as_slice()));
                    assert(views(payloads@) =~= views(before).push(group.xor_payload@));
                    let r = xor_payloads(payloads.as_slice());
                    assert(group_recovery(rest[0], missing_seq) == Some(r@));
                    return Some(r);
                }
            }
            i = i + 1;
        }
        assert(gs.subrange(i as int, gs.len() as int).len() == 0);
        None
    }

    /// Drops the groups whose first sequence number comes before
    /// `before_seq`.
    pub fn remove_old_groups(&mut self, before_seq: u16)
        ensures
            final(self).groups() == groups_not_before(old(self).groups(), before_seq),
    {
        let mut old_groups: Vec<FecGroup> = Vec::new();
        std::mem::swap(&mut old_groups, &mut self.groups);
        let ghost gs = old_groups@.map_values(|g: FecGroup| group_view(g));
        let mut kept: Vec<FecGroup> = Vec::new();
        for g in it: old_groups
            invariant
                gs == it.seq().map_values(|g: FecGroup| group_view(g)),
                kept@.map_values(|g: FecGroup| group_view(g)) == groups_not_before(
                    gs.take(it.index()),
                    before_seq,
                ),
        {
            assert(gs.take(it.index() + 1).drop_last() =~= gs.take(it.index()));
            if !seq_before_exec(g.base_seq, before_seq) {
                kept.push(g);
            }
            assert(kept@.map_values(|g: FecGroup| group_view(g)) =~= groups_not_before(
                gs.take(it.index() + 1),
                before_seq,
            ));
        }
        assert(gs.take(gs.len() as int) =~= gs);
        self.groups = kept;
    }
}


// ── Recovery ────────────────────────────────────────────────────────────────

/// `p` padded with zeros (or cut) to `n` bytes.
pub open spec fn zero_pad(p: Seq<u8>, n: nat) -> Seq<u8> {
    Seq::new(n, |i: int| byte_or_zero(p, i))
}

proof fn lemma_xor_cancel(a: u8, b: u8, c: u8)
    ensures
        (a ^ c) ^ b == (a ^ b) ^ c,
        (a ^ b) ^ b == a,
        (a ^ b) ^ a == b,
{
    assert((a ^ c) ^ b == (a ^ b) ^ c) by (bit_vector);
    assert((a ^ b) ^ b == a) by (bit_vector);
    assert((a ^ b) ^ a == b) by (bit_vector);
}

proof fn lemma_present_prefix(
    payloads: Seq<Seq<u8>>,
    base: u16,
    m: int,
    received: Map<u16, Seq<u8>>,
    n: int,
)
    requires
        payloads.len() <= 255,
        0 <= m < payloads.len(),
        0 <= n <= payloads.len(),
        forall|j: int|
            0 <= j < payloads.len() && j != m ==> received.contains_key(#[trigger] seq_at(base, j))
                && received[seq_at(base, j)] == payloads[j],
        !received.contains_key(seq_at(base, m)),
    ensures
        max_len(present_payloads(received, base, n)) <= max_len(payloads),
        forall|i: int|
            #![trigger xor_column(present_payloads(received, base, n), i)]
            xor_column(present_payloads(received, base, n), i) == xor_column(payloads.take(n), i)
                ^ (if m < n {
                byte_or_zero(payloads[m], i)
            } else {
                0u8
            }),
    decreases n,
{
    let pr = present_payloads(received, base, n);
    if n == 0 {
        assert forall|i: int| #![trigger xor_column(pr, i)] xor_column(pr, i) == xor_column(payloads.take(n), i) ^ (if m < n {
            byte_or_zero(payloads[m], i)
        } else {
            0u8
        }) by {
            assert(payloads.take(0).len() == 0);
            lemma_xor_zero(0u8);
        }
    } else {
        lemma_present_prefix(payloads, base, m, received, n - 1);
        lemma_max_len_bounds(payloads);
        let prev = present_payloads(received, base, n - 1);
        assert(payloads.take(n).drop_last() =~= payloads.take(n - 1));
        assert(payloads.take(n).last() == payloads[n - 1]);
        if n - 1 == m {
            assert(pr == prev);
            assert forall|i: int| #![trigger xor_column(pr, i)] xor_column(pr, i) == xor_column(payloads.take(n), i) ^ (if m < n {
                byte_or_zero(payloads[m], i)
            } else {
                0u8
            }) by {
                let a = xor_column(payloads.take(n - 1), i);
                assert(xor_column(payloads.take(n), i) == a ^ byte_or_zero(payloads[m], i));
                assert(xor_column(prev, i) == a ^ 0u8);
                lemma_xor_zero(a);
                lemma_xor_cancel(a, byte_or_zero(payloads[m], i), 0u8);
            }
        } else {
            assert(pr == prev.push(payloads[n - 1]));
            assert(pr.drop_last() =~= prev);
            assert forall|i: int| #![trigger xor_column(pr, i)] xor_column(pr, i) == xor_column(payloads.take(n), i) ^ (if m < n {
                byte_or_zero(payloads[m], i)
            } else {
                0u8
            }) by {
                let a = xor_column(payloads.take(n - 1), i);
                let b = byte_or_zero(payloads[n - 1], i);
                assert(xor_column(pr, i) == xor_column(prev, i) ^ b);
                assert(xor_column(payloads.take(n), i) == a ^ b);
                if m < n - 1 {
                    lemma_xor_cancel(a, b, byte_or_zero(payloads[m], i));
                } else {
                    lemma_xor_zero(a);
                    lemma_xor_zero(a ^ b);
                }
            }
        }
    }
}

/// A group that holds every packet of a media group but the one at offset
/// `m`, together with the parity of the whole group, rebuilds the payload of
/// that packet, padded with zeros to the longest payload of the group.
pub proof fn fec_recovers_single_loss(payloads: Seq<Seq<u8>>, m: int, g: FecGroupView)
    requires
        1 <= payloads.len() <= 255,
        0 <= m < payloads.len(),
        g.group_len == payloads.len(),
        g.xor_payload == xor_all(payloads),
        forall|j: int|
            0 <= j < payloads.len() && j != m ==> g.received.contains_key(
                #[trigger] seq_at(g.base_seq, j),
            ) && g.received[seq_at(g.base_seq, j)] == payloads[j],
        !g.received.contains_key(seq_at(g.base_seq, m)),
        g.received.dom().len() == payloads.len() - 1,
    ensures
        group_recovery(g, seq_at(g.base_seq, m)) == Some(
            zero_pad(payloads[m], max_len(payloads)),
        ),
{
    let n = payloads.len() as int;
    lemma_present_prefix(payloads, g.base_seq, m, g.received, n);
    let pr = present_payloads(g.received, g.base_seq, n);
    let q = pr.push(g.xor_payload);
    assert(payloads.take(n) =~= payloads);
    assert(q.drop_last() =~= pr);
    assert(max_len(q) == max_len(payloads));
    assert(in_group(seq_at(g.base_seq, m), g.base_seq, g.group_len));
    assert forall|i: int| 0 <= i < max_len(payloads) implies #[trigger] xor_column(q, i)
        == byte_or_zero(payloads[m], i) by {
        assert(xor_column(pr, i) == xor_column(payloads, i) ^ byte_or_zero(payloads[m], i));
        lemma_xor_cancel(xor_column(payloads, i), byte_or_zero(payloads[m], i), 0u8);
    }
    assert(xor_all(q) =~= zero_pad(payloads[m], max_len(payloads)));
}

/// The parity packet of a group opens, at the decoder, a group with the
/// first sequence number, the length and the XOR of the payloads that the
/// encoder used.
pub proof fn fec_payload_opens_group(group: Seq<RtpPacket>, media_pt: u8)
    requires
        group.len() >= 1,
    ensures
        fec_payload(group, media_pt).len() >= 4,
        fec_header_from_bytes(fec_payload(group, media_pt)) == (FecHeader {
            base_seq: group[0].header.sequence_number,
            group_len: (group.len() % 256) as u8,
            media_pt,
        }),
        fec_payload(group, media_pt).subrange(4, fec_payload(group, media_pt).len() as int)
            == xor_all(packet_payloads(group)),
{
    let h = FecHeader {
        base_seq: group[0].header.sequence_number,
        group_len: (group.len() % 256) as u8,
        media_pt,
    };
    let p = fec_payload(group, media_pt);
    fec_header_roundtrip(h);
    assert(p.subrange(0, 4) =~= fec_header_bytes(h));
    assert(fec_header_from_bytes(p) == fec_header_from_bytes(fec_header_bytes(h)));
    assert(p.subrange(4, p.len() as int) =~= xor_all(packet_payloads(group)));
}

/// Every sequence number that a group has recorded lies in its range.
pub open spec fn keys_in_range(groups: Seq<FecGroupView>) -> bool {
    forall|i: int, k: u16|
        0 <= i < groups.len() && #[trigger] groups[i].received.contains_key(k) ==> in_group(
            k,
            groups[i].base_seq,
            groups[i].group_len,
        )
}

/// The decoder only ever records a media packet in a group whose range
/// holds its sequence number.
pub proof fn decoder_keeps_keys_in_range(groups: Seq<FecGroupView>, seq: u16, payload: Seq<u8>, before: u16)
    requires
        keys_in_range(groups),
    ensures
        keys_in_range(Seq::new(groups.len(), |i: int| group_after_media(groups[i], seq, payload))),
        keys_in_range(groups_not_before(groups, before)),
        forall|g: FecGroupView| g.received == Map::<u16, Seq<u8>>::empty() ==> keys_in_range(#[trigger] groups.push(g)),
    decreases groups.len(),
{
    let after = Seq::new(groups.len(), |i: int| group_after_media(groups[i], seq, payload));
    assert forall|i: int, k: u16|
        0 <= i < after.len() && #[trigger] after[i].received.contains_key(k) implies in_group(
        k,
        after[i].base_seq,
        after[i].group_len,
    ) by {
        assert(groups[i].received.contains_key(k) || k == seq);
    }
    assert forall|g: FecGroupView| g.received == Map::<u16, Seq<u8>>::empty() implies keys_in_range(#[trigger] groups.push(g)) by {
        assert forall|i: int, k: u16|
            0 <= i < groups.push(g).len() && #[trigger] groups.push(g)[i].received.contains_key(k) implies in_group(
            k,
            groups.push(g)[i].base_seq,
            groups.push(g)[i].group_len,
        ) by {
            if i < groups.len() {
                assert(groups.push(g)[i] == groups[i]);
            }
        }
    }
    if groups.len() > 0 {
        let rest = groups.drop_last();
        assert(keys_in_range(rest)) by {
            assert forall|i: int, k: u16| 0 <= i < rest.len() && #[trigger] rest[i].received.contains_key(k) implies in_group(k, rest[i].base_seq, rest[i].group_len) by {
                assert(rest[i] == groups[i]);
            }
        }
        decoder_keeps_keys_in_range(rest, seq, payload, before);
        let kept = groups_not_before(rest, before);
        if !seq_before(groups.last().base_seq, before) {
            assert(groups_not_before(groups, before) == kept.push(groups.last()));
            assert forall|i: int, k: u16| 0 <= i < kept.push(groups.last()).len() && #[trigger] kept.push(groups.last())[i].received.contains_key(k) implies in_group(k, kept.push(groups.last())[i].base_seq, kept.push(groups.last())[i].group_len) by {
                if i < kept.len() {
                    assert(kept.push(groups.last())[i] == kept[i]);
                }
            }
        }
    }
}

/// Pushing packets into a fresh encoder (as `new` leaves it) with group size
/// `g >= 1`: the push of packet `i` gives a parity packet exactly when it
/// completes a group of `g`, i.e. when `(i + 1) % g == 0`; that parity
/// packet is numbered `(i + 1) / g - 1` (modulo 2^16), carries the encoder's
/// SSRC, and covers packets `i + 1 - g` to `i`.
pub proof fn fec_encoder_run(
    states: Seq<FecEncoder>,
    pkts: Seq<RtpPacket>,
    outs: Seq<Option<RtpPacket>>,
)
    requires
        states.len() == pkts.len() + 1,
        outs.len() == pkts.len(),
        states[0].group_size() >= 1,
        states[0].next_seq() == 0,
        states[0].pending().len() == 0,
        forall|i: int|
            #![trigger pkts[i]]
            0 <= i < pkts.len() ==> fec_push_step(states[i], pkts[i], outs[i], states[i + 1]),
    ensures
        forall|i: int|
            0 <= i < pkts.len() ==> ((#[trigger] outs[i]) is Some <==> (i + 1) % (states[0].group_size() as int) == 0),
        forall|i: int|
            0 <= i < pkts.len() && (#[trigger] outs[i]) is Some ==> {
                let g = states[0].group_size() as int;
                &&& outs[i]->0.header == fec_rtp_header(
                    (((i + 1) / g - 1) % 65536) as u16,
                    states[0].ssrc(),
                )
                &&& outs[i]->0.payload@ == fec_payload(
                    pkts.subrange(i + 1 - g, i + 1),
                    states[0].media_pt(),
                )
            },
{
    let g = states[0].group_size() as int;
    lemma_fec_run_state(states, pkts, outs, pkts.len() as int);
    assert forall|i: int| 0 <= i < pkts.len() implies ((#[trigger] outs[i]) is Some <==> (i + 1) % g
        == 0) && (outs[i] is Some ==> {
        &&& outs[i]->0.header == fec_rtp_header((((i + 1) / g - 1) % 65536) as u16, states[0].ssrc())
        &&& outs[i]->0.payload@ == fec_payload(pkts.subrange(i + 1 - g, i + 1), states[0].media_pt())
    }) by {
        lemma_fec_run_one(states, pkts, outs, i);
    }
}

/// The encoder after the first `i` pushes of a run from a fresh encoder.
pub open spec fn fec_run_state(e: FecEncoder, e0: FecEncoder, pkts: Seq<RtpPacket>, i: int) -> bool {
    let g = e0.group_size() as int;
    &&& e.group_size() == e0.group_size()
    &&& e.media_pt() == e0.media_pt()
    &&& e.ssrc() == e0.ssrc()
    &&& e.pending().len() == i % g
    &&& forall|k: int|
        0 <= k < i % g ==> same_packet(#[trigger] e.pending()[k], pkts[i - i % g + k])
    &&& e.next_seq() == ((i / g) % 65536) as u16
}

proof fn lemma_fec_run_one(
    states: Seq<FecEncoder>,
    pkts: Seq<RtpPacket>,
    outs: Seq<Option<RtpPacket>>,
    i: int,
)
    requires
        states.len() == pkts.len() + 1,
        outs.len() == pkts.len(),
        states[0].group_size() >= 1,
        forall|i: int|
            #![trigger pkts[i]]
            0 <= i < pkts.len() ==> fec_push_step(states[i], pkts[i], outs[i], states[i + 1]),
        forall|j: int| 0 <= j <= pkts.len() ==> fec_run_state(#[trigger] states[j], states[0], pkts, j),
        0 <= i < pkts.len(),
    ensures
        ({
            let g = states[0].group_size() as int;
            &&& (outs[i] is Some <==> (i + 1) % g == 0)
            &&& outs[i] is Some ==> {
                &&& outs[i]->0.header == fec_rtp_header(
                    (((i + 1) / g - 1) % 65536) as u16,
                    states[0].ssrc(),
                )
                &&& outs[i]->0.payload@ == fec_payload(
                    pkts.subrange(i + 1 - g, i + 1),
                    states[0].media_pt(),
                )
            }
        }),
{
    let g = states[0].group_size() as int;
    let e = states[i];
    assert(fec_run_state(e, states[0], pkts, i));
    assert(fec_push_step(states[i], pkts[i], outs[i], states[i + 1]));
    let r = i % g;
    let q = i / g;
    lemma_div_step(i, g);
    let group = e.pending().push(pkts[i]);
    if r + 1 >= g {
        assert((q + 1 - 1) % 65536 == q % 65536);
        let sub = pkts.subrange(i + 1 - g, i + 1);
        assert(group.len() == sub.len());
        assert forall|k: int| 0 <= k < group.len() implies same_packet(#[trigger] group[k], sub[k]) by {
            if k < r {
                assert(same_packet(e.pending()[k], pkts[i - r + k]));
            }
        }
        lemma_fec_payload_same(group, sub, e.media_pt());
    }
}

proof fn lemma_div_step(i: int, g: int)
    requires
        i >= 0,
        g >= 1,
    ensures
        0 <= i % g < g,
        i == g * (i / g) + i % g,
        i % g + 1 >= g ==> (i + 1) % g == 0 && (i + 1) / g == i / g + 1,
        i % g + 1 < g ==> (i + 1) % g == i % g + 1 && (i + 1) / g == i / g,
        i / g >= 0,
{
    vstd::arithmetic::div_mod::lemma_fundamental_div_mod(i, g);
    vstd::arithmetic::div_mod::lemma_mod_pos_bound(i, g);
    let q = i / g;
    let r = i % g;
    assert(q >= 0) by (nonlinear_arith)
        requires
            i == g * q + r,
            0 <= r < g,
            i >= 0,
    ;
    if r + 1 >= g {
        assert(i + 1 == (q + 1) * g + 0) by (nonlinear_arith)
            requires
                i == g * q + r,
                r + 1 == g,
        ;
        vstd::arithmetic::div_mod::lemma_fundamental_div_mod_converse_mod(i + 1, g, q + 1, 0);
        vstd::arithmetic::div_mod::lemma_fundamental_div_mod_converse_div(i + 1, g, q + 1, 0);
    } else {
        assert(i + 1 == q * g + (r + 1)) by (nonlinear_arith)
            requires
                i == g * q + r,
        ;
        vstd::arithmetic::div_mod::lemma_fundamental_div_mod_converse_mod(i + 1, g, q, r + 1);
        vstd::arithmetic::div_mod::lemma_fundamental_div_mod_converse_div(i + 1, g, q, r + 1);
    }
}

proof fn lemma_fec_payload_same(a: Seq<RtpPacket>, b: Seq<RtpPacket>, media_pt: u8)
    requires
        a.len() == b.len(),
        a.len() > 0,
        forall|k: int| 0 <= k < a.len() ==> same_packet(#[trigger] a[k], b[k]),
    ensures
        fec_payload(a, media_pt) == fec_payload(b, media_pt),
{
    assert(same_packet(a[0], b[0]));
    assert(packet_payloads(a) =~= packet_payloads(b)) by {
        assert forall|k: int| 0 <= k < a.len() implies #[trigger] packet_payloads(a)[k]
            == packet_payloads(b)[k] by {
            assert(same_packet(a[k], b[k]));
        }
    }
}

proof fn lemma_fec_run_state(
    states: Seq<FecEncoder>,
    pkts: Seq<RtpPacket>,
    outs: Seq<Option<RtpPacket>>,
    n: int,
)
    requires
        states.len() == pkts.len() + 1,
        outs.len() == pkts.len(),
        states[0].group_size() >= 1,
        states[0].next_seq() == 0,
        states[0].pending().len() == 0,
        forall|i: int|
            #![trigger pkts[i]]
            0 <= i < pkts.len() ==> fec_push_step(states[i], pkts[i], outs[i], states[i + 1]),
        0 <= n <= pkts.len(),
    ensures
        forall|j: int| 0 <= j <= n ==> fec_run_state(#[trigger] states[j], states[0], pkts, j),
    decreases n,
{
    let g = states[0].group_size() as int;
    if n == 0 {
        assert forall|j: int| 0 <= j <= n implies fec_run_state(#[trigger] states[j], states[0], pkts, j) by {
            assert(j == 0);
            lemma_div_step(0, g);
            assert(0int / g == 0) by {
                vstd::arithmetic::div_mod::lemma_fundamental_div_mod_converse_div(0, g, 0, 0);
            }
        }
    } else {
        lemma_fec_run_state(states, pkts, outs, n - 1);
        let i = n - 1;
        let e = states[i];
        assert(fec_run_state(e, states[0], pkts, i));
        assert(fec_push_step(states[i], pkts[i], outs[i], states[i + 1]));
        assert(states[n] == states[i + 1]);
        lemma_div_step(i, g);
        let r = i % g;
        let q = i / g;
        let group = e.pending().push(pkts[i]);
        let e1 = states[n];
        if r + 1 >= g {
            assert(e1.next_seq() == ((q + 1) % 65536) as u16);
        } else {
            assert forall|k: int| 0 <= k < n % g implies same_packet(#[trigger] e1.pending()[k], pkts[n - n % g + k]) by {
                assert(same_packet(e1.pending()[k], group[k]));
                if k < r {
                    assert(same_packet(e.pending()[k], pkts[i - r + k]));
                }
            }
        }
        assert(fec_run_state(e1, states[0], pkts, n));
        assert forall|j: int| 0 <= j <= n implies fec_run_state(#[trigger] states[j], states[0], pkts, j) by {
            if j == n {
                assert(states[j] == states[i + 1]);
            }
        }
    }
}

/// The payloads a decoder group has recorded after the media packets
/// `present[0..k]`, in order, all inside its range.
pub open spec fn received_after(present: Seq<RtpPacket>, k: int) -> Map<u16, Seq<u8>>
    decreases k,
{
    if k <= 0 {
        Map::empty()
    } else {
        received_after(present, k - 1).insert(
            present[k - 1].header.sequence_number,
            present[k - 1].payload@,
        )
    }
}

/// End to end: a fresh decoder that gets the parity packet the encoder made
/// for a group of `n` media packets with consecutive sequence numbers
/// (`1 <= n <= 255`), then every packet of the group but the one at offset
/// `m`, in order, rebuilds that packet's payload, padded with zeros to the
/// longest payload of the group.
#[verifier::rlimit(40)]
pub proof fn fec_recovers_after_run(
    group: Seq<RtpPacket>,
    media_pt: u8,
    fec: RtpPacket,
    m: int,
    decoders: Seq<FecDecoder>,
    r: Option<Vec<u8>>,
)
    requires
        1 <= group.len() <= 255,
        0 <= m < group.len(),
        forall|k: int|
            0 <= k < group.len() ==> (#[trigger] group[k]).header.sequence_number == seq_at(
                group[0].header.sequence_number,
                k,
            ),
        fec.payload@ == fec_payload(group, media_pt),
        decoders.len() == group.len() + 1,
        decoders[0].groups() == Seq::<FecGroupView>::empty(),
        fec.payload@.len() >= 4 ==> decoders[1].groups() == decoders[0].groups().push(
            FecGroupView {
                base_seq: fec_header_from_bytes(fec.payload@).base_seq,
                group_len: fec_header_from_bytes(fec.payload@).group_len,
                xor_payload: fec.payload@.subrange(4, fec.payload@.len() as int),
                received: Map::empty(),
            },
        ),
        forall|t: int|
            #![trigger group.remove(m)[t]]
            0 <= t < group.len() - 1 ==> media_push_step(
                decoders[t + 1],
                group.remove(m)[t],
                decoders[t + 2],
            ),
        match r {
            Some(v) => recover_from(decoders.last().groups(), group[m].header.sequence_number)
                == Some(v@),
            None => recover_from(decoders.last().groups(), group[m].header.sequence_number) is None,
        },
    ensures
        r is Some,
        r->0@ == zero_pad(group[m].payload@, max_len(packet_payloads(group))),
{
    let n = group.len() as int;
    let base = group[0].header.sequence_number;
    let present = group.remove(m);
    let payloads = packet_payloads(group);
    fec_payload_opens_group(group, media_pt);
    let g0 = FecGroupView {
        base_seq: base,
        group_len: n as u8,
        xor_payload: xor_all(payloads),
        received: Map::empty(),
    };
    assert(decoders[1].groups() =~= seq![g0]);
    lemma_decoder_after_media(group, m, decoders, g0, n - 1);
    lemma_received_after(group, m, n - 1);
    let gf = FecGroupView { received: received_after(present, n - 1), ..g0 };
    assert(decoders.last() == decoders[n]);
    assert(decoders.last().groups() =~= seq![gf]);
    assert forall|j: int| 0 <= j < payloads.len() && j != m implies gf.received.contains_key(
        #[trigger] seq_at(gf.base_seq, j),
    ) && gf.received[seq_at(gf.base_seq, j)] == payloads[j] by {
        let t = if j < m {
            j
        } else {
            j - 1
        };
        assert(present[t] == group[j]);
        assert(group[j].header.sequence_number == seq_at(base, j));
    }
    assert(gf.received.dom().len() == payloads.len() - 1);
    fec_recovers_single_loss(payloads, m, gf);
    assert(group[m].header.sequence_number == seq_at(base, m));
    assert(payloads[m] == group[m].payload@);
    assert(seq![gf].drop_first().len() == 0);
}

proof fn lemma_seq_at_offset(base: u16, j: int)
    requires
        0 <= j < 65536,
    ensures
        seq_offset(seq_at(base, j), base) == j,
{
}

proof fn lemma_received_after(group: Seq<RtpPacket>, m: int, k: int)
    requires
        1 <= group.len() <= 255,
        0 <= m < group.len(),
        forall|t: int|
            0 <= t < group.len() ==> (#[trigger] group[t]).header.sequence_number == seq_at(
                group[0].header.sequence_number,
                t,
            ),
        0 <= k <= group.len() - 1,
    ensures
        received_after(group.remove(m), k).dom().finite(),
        received_after(group.remove(m), k).dom().len() == k,
        forall|t: int|
            0 <= t < k ==> received_after(group.remove(m), k).contains_key(
                (#[trigger] group.remove(m)[t]).header.sequence_number,
            ) && received_after(group.remove(m), k)[group.remove(m)[t].header.sequence_number]
                == group.remove(m)[t].payload@,
        forall|s: u16|
            #[trigger] received_after(group.remove(m), k).contains_key(s) ==> exists|t: int|
                0 <= t < k && s == group.remove(m)[t].header.sequence_number,
    decreases k,
{
    let present = group.remove(m);
    let base = group[0].header.sequence_number;
    if k > 0 {
        lemma_received_after(group, m, k - 1);
        let prev = received_after(present, k - 1);
        let s = present[k - 1].header.sequence_number;
        let idx = |t: int|
            if t < m {
                t
            } else {
                t + 1
            };
        assert forall|t: int| 0 <= t < group.len() - 1 implies #[trigger] present[t]
            == group[idx(t)] by {}
        assert(!prev.contains_key(s)) by {
            if prev.contains_key(s) {
                let t = choose|t: int| 0 <= t < k - 1 && s == present[t].header.sequence_number;
                assert(present[t] == group[idx(t)]);
                assert(present[k - 1] == group[idx(k - 1)]);
                lemma_seq_at_offset(base, idx(t));
                lemma_seq_at_offset(base, idx(k - 1));
            }
        }
        assert(received_after(present, k).dom() =~= prev.dom().insert(s));
        assert forall|s2: u16| #[trigger] received_after(present, k).contains_key(s2) implies exists|t: int|
            0 <= t < k && s2 == present[t].header.sequence_number by {
            if s2 != s {
                let t = choose|t: int| 0 <= t < k - 1 && s2 == present[t].header.sequence_number;
                assert(0 <= t < k && s2 == present[t].header.sequence_number);
            } else {
                assert(0 <= k - 1 < k && s2 == present[k - 1].header.sequence_number);
            }
        }
        assert forall|t: int| 0 <= t < k implies received_after(present, k).contains_key(
            (#[trigger] present[t]).header.sequence_number,
        ) && received_after(present, k)[present[t].header.sequence_number] == present[t].payload@ by {
            if t < k - 1 {
                assert(present[t] == group[idx(t)]);
                assert(present[k - 1] == group[idx(k - 1)]);
                lemma_seq_at_offset(base, idx(t));
                lemma_seq_at_offset(base, idx(k - 1));
                assert(present[t].header.sequence_number != s);
            }
        }
    }
}

proof fn lemma_decoder_after_media(
    group: Seq<RtpPacket>,
    m: int,
    decoders: Seq<FecDecoder>,
    g0: FecGroupView,
    k: int,
)
    requires
        1 <= group.len() <= 255,
        0 <= m < group.len(),
        forall|t: int|
            0 <= t < group.len() ==> (#[trigger] group[t]).header.sequence_number == seq_at(
                group[0].header.sequence_number,
                t,
            ),
        decoders.len() == group.len() + 1,
        g0.base_seq == group[0].header.sequence_number,
        g0.group_len == group.len(),
        g0.received == Map::<u16, Seq<u8>>::empty(),
        decoders[1].groups() == seq![g0],
        forall|t: int|
            #![trigger group.remove(m)[t]]
            0 <= t < group.len() - 1 ==> media_push_step(
                decoders[t + 1],
                group.remove(m)[t],
                decoders[t + 2],
            ),
        0 <= k <= group.len() - 1,
    ensures
        decoders[k + 1].groups() == seq![FecGroupView { received: received_after(group.remove(m), k), ..g0 }],
    decreases k,
{
    if k == 0 {
        assert(received_after(group.remove(m), 0) == Map::<u16, Seq<u8>>::empty());
        assert(FecGroupView { received: received_after(group.remove(m), 0), ..g0 } == g0);
    } else {
        lemma_decoder_after_media(group, m, decoders, g0, k - 1);
        let present = group.remove(m);
        let j = k - 1;
        let p = present[j];
        let idx = if j < m {
            j
        } else {
            j + 1
        };
        assert(p == group[idx]);
        lemma_seq_at_offset(g0.base_seq, idx);
        assert(in_group(p.header.sequence_number, g0.base_seq, g0.group_len));
        let before = decoders[j + 1].groups();
        assert(media_push_step(decoders[j + 1], present[j], decoders[j + 2]));
        assert(decoders[j + 2].groups().len() == before.len());
        assert(decoders[j + 2].groups()[0] == group_after_media(before[0], p.header.sequence_number, p.payload@));
        assert(decoders[k + 1] == decoders[j + 2]);
        assert(decoders[k + 1].groups() =~= seq![FecGroupView { received: received_after(present, k), ..g0 }]);
    }
}

} // verus!


