//! RTP (RFC 3550) fixed header, packets, and H.264 payload packetization
//! (RFC 6184): single NAL unit packets and FU-A fragmentation.

use vstd::prelude::*;
use vstd::slice::slice_to_vec;

verus! {

/// Size of the fixed RTP header in bytes.
pub const RTP_HEADER_SIZE: usize = 12;

/// NAL unit type of an FU-A fragmentation unit.
pub const FU_A_TYPE: u8 = 28;

#[derive(Debug, Clone, Copy, PartialEq, Eq, Structural)]
pub struct RtpHeader {
    pub version: u8,
    pub padding: bool,
    pub extension: bool,
    pub marker: bool,
    pub payload_type: u8,
    pub sequence_number: u16,
    pub timestamp: u32,
    pub ssrc: u32,
}

pub open spec fn bit_u8(b: bool) -> u8 {
    if b {
        1u8
    } else {
        0u8
    }
}

/// First header byte: version, padding and extension bits (CSRC count 0).
pub open spec fn rtp_byte0(h: RtpHeader) -> u8 {
    (h.version << 6u8) | (bit_u8(h.padding) << 5u8) | (bit_u8(h.extension) << 4u8)
}

/// Second header byte: marker bit and payload type.
pub open spec fn rtp_byte1(h: RtpHeader) -> u8 {
    (bit_u8(h.marker) << 7u8) | (h.payload_type & 0x7Fu8)
}

/// Big-endian bytes of a 16-bit value.
pub open spec fn be16(x: u16) -> Seq<u8> {
    seq![(x >> 8u16) as u8, x as u8]
}

/// Big-endian bytes of a 32-bit value.
pub open spec fn be32(x: u32) -> Seq<u8> {
    seq![(x >> 24u32) as u8, (x >> 16u32) as u8, (x >> 8u32) as u8, x as u8]
}

/// Value of two big-endian bytes.
pub open spec fn from_be16(b0: u8, b1: u8) -> u16 {
    ((b0 as u16) << 8u16) | (b1 as u16)
}

/// Value of four big-endian bytes.
pub open spec fn from_be32(b0: u8, b1: u8, b2: u8, b3: u8) -> u32 {
    ((b0 as u32) << 24u32) | ((b1 as u32) << 16u32) | ((b2 as u32) << 8u32) | (b3 as u32)
}

/// The 12 bytes that encode a header on the wire.
pub open spec fn rtp_header_bytes(h: RtpHeader) -> Seq<u8> {
    seq![rtp_byte0(h), rtp_byte1(h)] + be16(h.sequence_number) + be32(h.timestamp) + be32(h.ssrc)
}

/// The header that the first 12 bytes of `b` encode.
pub open spec fn rtp_header_from_bytes(b: Seq<u8>) -> RtpHeader {
    RtpHeader {
        version: (b[0] >> 6u8) & 0x03u8,
        padding: (b[0] >> 5u8) & 0x01u8 == 1u8,
        extension: (b[0] >> 4u8) & 0x01u8 == 1u8,
        marker: (b[1] >> 7u8) & 0x01u8 == 1u8,
        payload_type: b[1] & 0x7Fu8,
        sequence_number: from_be16(b[2], b[3]),
        timestamp: from_be32(b[4], b[5], b[6], b[7]),
        ssrc: from_be32(b[8], b[9], b[10], b[11]),
    }
}

impl RtpHeader {
    pub const SIZE: usize = 12;

    pub fn serialize(&self) -> (buf: [u8; 12])
        ensures
            buf@ == rtp_header_bytes(*self),
    {
        let p: u8 = if self.padding {
            1
        } else {
            0
        };
        let x: u8 = if self.extension {
            1
        } else {
            0
        };
        let m: u8 = if self.marker {
            1
        } else {
            0
        };
        let b0: u8 = (self.version << 6u8) | (p << 5u8) | (x << 4u8);
        let b1: u8 = (m << 7u8) | (self.payload_type & 0x7Fu8);
        let seq = self.sequence_number;
        let ts = self.timestamp;
        let ssrc = self.ssrc;
        let buf: [u8; 12] = [
            b0,
            b1,
            (seq >> 8u16) as u8,
            seq as u8,
            (ts >> 24u32) as u8,
            (ts >> 16u32) as u8,
            (ts >> 8u32) as u8,
            ts as u8,
            (ssrc >> 24u32) as u8,
            (ssrc >> 16u32) as u8,
            (ssrc >> 8u32) as u8,
            ssrc as u8,
        ];
        assert(buf@ =~= rtp_header_bytes(*self));
        buf
    }

    /// Parses the fixed header; `None` when fewer than 12 bytes are given.
    pub fn parse(buf: &[u8]) -> (h: Option<RtpHeader>)
        ensures
            buf@.len() < 12 ==> h.is_none(),
            buf@.len() >= 12 ==> h == Some(rtp_header_from_bytes(buf@)),
    {
        if buf.len() < 12 {
            return None;
        }
        Some(
            RtpHeader {
                version: (buf[0] >> 6u8) & 0x03u8,
                padding: (buf[0] >> 5u8) & 0x01u8 == 1u8,
                extension: (buf[0] >> 4u8) & 0x01u8 == 1u8,
                marker: (buf[1] >> 7u8) & 0x01u8 == 1u8,
                payload_type: buf[1] & 0x7Fu8,
                sequence_number: ((buf[2] as u16) << 8u16) | (buf[3] as u16),
                timestamp: ((buf[4] as u32) << 24u32) | ((buf[5] as u32) << 16u32) | ((
                buf[6] as u32) << 8u32) | (buf[7] as u32),
                ssrc: ((buf[8] as u32) << 24u32) | ((buf[9] as u32) << 16u32) | ((buf[10] as u32)
                    << 8u32) | (buf[11] as u32),
            },
        )
    }
}

proof fn lemma_byte0_fields(v: u8, p: u8, x: u8)
    requires
        v < 4,
        p < 2,
        x < 2,
    ensures
        ((((v << 6u8) | (p << 5u8) | (x << 4u8)) >> 6u8) & 0x03u8) == v,
        ((((v << 6u8) | (p << 5u8) | (x << 4u8)) >> 5u8) & 0x01u8) == p,
        ((((v << 6u8) | (p << 5u8) | (x << 4u8)) >> 4u8) & 0x01u8) == x,
{
    assert(((((v << 6u8) | (p << 5u8) | (x << 4u8)) >> 6u8) & 0x03u8) == v) by (bit_vector)
        requires
            v < 4,
            p < 2,
            x < 2,
    ;
    assert(((((v << 6u8) | (p << 5u8) | (x << 4u8)) >> 5u8) & 0x01u8) == p) by (bit_vector)
        requires
            v < 4,
            p < 2,
            x < 2,
    ;
    assert(((((v << 6u8) | (p << 5u8) | (x << 4u8)) >> 4u8) & 0x01u8) == x) by (bit_vector)
        requires
            v < 4,
            p < 2,
            x < 2,
    ;
}

proof fn lemma_byte1_fields(m: u8, pt: u8)
    requires
        m < 2,
        pt < 128,
    ensures
        ((((m << 7u8) | (pt & 0x7Fu8)) >> 7u8) & 0x01u8) == m,
        (((m << 7u8) | (pt & 0x7Fu8)) & 0x7Fu8) == pt,
{
    assert(((((m << 7u8) | (pt & 0x7Fu8)) >> 7u8) & 0x01u8) == m) by (bit_vector)
        requires
            m < 2,
    ;
    assert((((m << 7u8) | (pt & 0x7Fu8)) & 0x7Fu8) == pt) by (bit_vector)
        requires
            pt < 128,
    ;
}

pub(crate) proof fn lemma_be16_roundtrip(x: u16)
    ensures
        from_be16((x >> 8u16) as u8, x as u8) == x,
{
    assert((((((x >> 8u16) as u8) as u16) << 8u16) | ((x as u8) as u16)) == x) by (bit_vector);
}

pub(crate) proof fn lemma_be32_roundtrip(x: u32)
    ensures
        from_be32((x >> 24u32) as u8, (x >> 16u32) as u8, (x >> 8u32) as u8, x as u8) == x,
{
    assert((((((x >> 24u32) as u8) as u32) << 24u32) | ((((x >> 16u32) as u8) as u32) << 16u32)
        | ((((x >> 8u32) as u8) as u32) << 8u32) | ((x as u8) as u32)) == x) by (bit_vector);
}

pub(crate) proof fn lemma_be16_bytes(b0: u8, b1: u8)
    ensures
        be16(from_be16(b0, b1)) == seq![b0, b1],
{
    let v = from_be16(b0, b1);
    assert((((((b0 as u16) << 8u16) | (b1 as u16)) >> 8u16) as u8) == b0) by (bit_vector);
    assert(((((b0 as u16) << 8u16) | (b1 as u16)) as u8) == b1) by (bit_vector);
    assert(be16(v) =~= seq![b0, b1]);
}

proof fn lemma_be32_bytes(b0: u8, b1: u8, b2: u8, b3: u8)
    ensures
        be32(from_be32(b0, b1, b2, b3)) == seq![b0, b1, b2, b3],
{
    let v = from_be32(b0, b1, b2, b3);
    assert(((((((b0 as u32) << 24u32) | ((b1 as u32) << 16u32) | ((b2 as u32) << 8u32) | (
    b3 as u32)) >> 24u32) as u8) == b0)) by (bit_vector);
    assert(((((((b0 as u32) << 24u32) | ((b1 as u32) << 16u32) | ((b2 as u32) << 8u32) | (
    b3 as u32)) >> 16u32) as u8) == b1)) by (bit_vector);
    assert(((((((b0 as u32) << 24u32) | ((b1 as u32) << 16u32) | ((b2 as u32) << 8u32) | (
    b3 as u32)) >> 8u32) as u8) == b2)) by (bit_vector);
    assert((((((b0 as u32) << 24u32) | ((b1 as u32) << 16u32) | ((b2 as u32) << 8u32) | (
    b3 as u32)) as u8) == b3)) by (bit_vector);
    assert(be32(v) =~= seq![b0, b1, b2, b3]);
}

/// Parsing the bytes of a header gives the header back, for every header
/// whose version fits in two bits and whose payload type fits in seven.
pub proof fn rtp_header_roundtrip(h: RtpHeader)
    requires
        h.version < 4,
        h.payload_type < 128,
    ensures
        rtp_header_from_bytes(rtp_header_bytes(h)) == h,
{
    let b = rtp_header_bytes(h);
    lemma_byte0_fields(h.version, bit_u8(h.padding), bit_u8(h.extension));
    lemma_byte1_fields(bit_u8(h.marker), h.payload_type);
    lemma_be16_roundtrip(h.sequence_number);
    lemma_be32_roundtrip(h.timestamp);
    lemma_be32_roundtrip(h.ssrc);
    assert(b[0] == rtp_byte0(h));
    assert(b[1] == rtp_byte1(h));
    assert(b[2] == (h.sequence_number >> 8u16) as u8 && b[3] == h.sequence_number as u8);
    assert(b[4] == (h.timestamp >> 24u32) as u8 && b[7] == h.timestamp as u8);
    assert(b[5] == (h.timestamp >> 16u32) as u8 && b[6] == (h.timestamp >> 8u32) as u8);
    assert(b[8] == (h.ssrc >> 24u32) as u8 && b[11] == h.ssrc as u8);
    assert(b[9] == (h.ssrc >> 16u32) as u8 && b[10] == (h.ssrc >> 8u32) as u8);
}

/// Serializing a parsed header gives back the first 12 bytes, for every
/// buffer whose first byte has its four low bits (CSRC count) clear.
pub proof fn rtp_header_bytes_roundtrip(b: Seq<u8>)
    requires
        b.len() >= 12,
        b[0] & 0x0Fu8 == 0,
    ensures
        rtp_header_bytes(rtp_header_from_bytes(b)) == b.subrange(0, 12),
{
    let h = rtp_header_from_bytes(b);
    let b0 = b[0];
    let b1 = b[1];
    assert(((((b0 >> 6u8) & 0x03u8) << 6u8) | ((if (b0 >> 5u8) & 0x01u8 == 1u8 {
        1u8
    } else {
        0u8
    }) << 5u8) | ((if (b0 >> 4u8) & 0x01u8 == 1u8 {
        1u8
    } else {
        0u8
    }) << 4u8)) == b0) by (bit_vector)
        requires
            b0 & 0x0Fu8 == 0,
    ;
    assert((((if (b1 >> 7u8) & 0x01u8 == 1u8 {
        1u8
    } else {
        0u8
    }) << 7u8) | ((b1 & 0x7Fu8) & 0x7Fu8)) == b1) by (bit_vector);
    lemma_be16_bytes(b[2], b[3]);
    lemma_be32_bytes(b[4], b[5], b[6], b[7]);
    lemma_be32_bytes(b[8], b[9], b[10], b[11]);
    assert(rtp_header_bytes(h) =~= b.subrange(0, 12));
}

#[derive(Debug, Clone)]
pub struct RtpPacket {
    pub header: RtpHeader,
    pub payload: Vec<u8>,
}

impl RtpPacket {
    pub fn serialize(&self) -> (buf: Vec<u8>)
        ensures
            buf@ == rtp_header_bytes(self.header) + self.payload@,
    {
        let header_bytes = self.header.serialize();
        let mut buf: Vec<u8> = Vec::with_capacity(12);
        let mut i: usize = 0;
        while i < 12
            invariant
                i <= 12,
                buf@ == header_bytes@.subrange(0, i as int),
            decreases 12 - i,
        {
            buf.push(header_bytes[i]);
            i = i + 1;
            assert(buf@ =~= header_bytes@.subrange(0, i as int));
        }
        let mut j: usize = 0;
        while j < self.payload.len()
            invariant
                j <= self.payload@.len(),
                buf@ == header_bytes@ + self.payload@.subrange(0, j as int),
            decreases self.payload@.len() - j,
        {
            buf.push(self.payload[j]);
            j = j + 1;
            assert(buf@ =~= header_bytes@ + self.payload@.subrange(0, j as int));
        }
        assert(self.payload@.subrange(0, self.payload@.len() as int) =~= self.payload@);
        buf
    }

    /// Parses a packet: the fixed header and everything after it as payload.
    pub fn parse(buf: &[u8]) -> (p: Option<RtpPacket>)
        ensures
            buf@.len() < 12 ==> p.is_none(),
            buf@.len() >= 12 ==> p is Some && p->0.header == rtp_header_from_bytes(buf@)
                && p->0.payload@ == buf@.subrange(12, buf@.len() as int),
    {
        let header = match RtpHeader::parse(buf) {
            Some(h) => h,
            None => return None,
        };
        let payload = slice_to_vec(&buf[12..buf.len()]);
        Some(RtpPacket { header, payload })
    }
}

// ── H.264 packetization ─────────────────────────────────────────────────────

/// Sequence number `i` packets after `seq0`, modulo 2^16.
pub open spec fn seq_add(seq0: u16, i: int) -> u16 {
    ((seq0 as int + i) % 65536) as u16
}

/// Number of FU-A fragments needed for `data_len` bytes in pieces of
/// `piece` bytes: the least `n >= 1` with `n * piece >= data_len`.
pub open spec fn fua_count_ok(n: int, data_len: int, piece: int) -> bool {
    n >= 1 && n * piece >= data_len && (n - 1) * piece < data_len
}

/// FU indicator byte: the NRI bits of the NAL header and type 28.
pub open spec fn fu_indicator(nal_header: u8) -> u8 {
    28u8 | (nal_header & 0x60u8)
}

/// FU header byte: start and end flags and the fragmented unit's NAL type.
pub open spec fn fu_header(nal_header: u8, is_start: bool, is_end: bool) -> u8 {
    (bit_u8(is_start) << 7u8) | (bit_u8(is_end) << 6u8) | (nal_header & 0x1Fu8)
}

/// Payload of FU-A fragment `i` of `n` for `nal`, with pieces of `piece`
/// bytes of the NAL unit body (everything after its header byte).
pub open spec fn fua_payload(nal: Seq<u8>, piece: int, i: int, n: int) -> Seq<u8> {
    let data_len = nal.len() - 1;
    let start = i * piece;
    let end = if (i + 1) * piece < data_len {
        (i + 1) * piece
    } else {
        data_len
    };
    seq![fu_indicator(nal[0]), fu_header(nal[0], i == 0, i == n - 1)] + nal.subrange(
        1 + start,
        1 + end,
    )
}

/// The numbering of one `packetize` call: packet `i` of `packets` carries
/// the sequence number `i` after the one `before` was at, and `after` is at
/// the number following the last packet.
pub open spec fn packetize_numbering(
    before: H264Packetizer,
    after: H264Packetizer,
    packets: Seq<RtpPacket>,
) -> bool {
    &&& after.next_sequence() == seq_add(before.next_sequence(), packets.len() as int)
    &&& forall|i: int|
        0 <= i < packets.len() ==> (#[trigger] packets[i]).header.sequence_number == seq_add(
            before.next_sequence(),
            i,
        )
}

/// Total number of packets in a list of `packetize` outputs.
pub open spec fn packet_total(outputs: Seq<Seq<RtpPacket>>) -> int
    decreases outputs.len(),
{
    if outputs.len() == 0 {
        0
    } else {
        packet_total(outputs.drop_last()) + outputs.last().len()
    }
}

pub struct H264Packetizer {
    payload_type: u8,
    ssrc: u32,
    max_payload: usize,
    sequence_number: u16,
}

impl H264Packetizer {
    pub closed spec fn payload_type(&self) -> u8 {
        self.payload_type
    }

    pub closed spec fn ssrc(&self) -> u32 {
        self.ssrc
    }

    /// Largest RTP payload: the MTU less the fixed header.
    pub closed spec fn max_payload(&self) -> usize {
        self.max_payload
    }

    /// Sequence number of the next packet.
    pub closed spec fn next_sequence(&self) -> u16 {
        self.sequence_number
    }

    pub fn new(payload_type: u8, ssrc: u32, mtu: usize) -> (p: Self)
        requires
            mtu >= RTP_HEADER_SIZE,
        ensures
            p.payload_type() == payload_type,
            p.ssrc() == ssrc,
            p.max_payload() == mtu - 12,
            p.next_sequence() == 0,
    {
        H264Packetizer { payload_type, ssrc, max_payload: mtu - RTP_HEADER_SIZE, sequence_number: 0 }
    }

    /// Whether `nal` is sent as one packet (rather than FU-A fragments).
    pub open spec fn is_single(&self, nal: Seq<u8>) -> bool {
        nal.len() <= self.max_payload()
    }

    /// Splits one NAL unit into RTP packets: a single NAL unit packet when it
    /// fits, FU-A fragments otherwise.  Every packet carries `timestamp`; the
    /// last one has the marker bit; sequence numbers are consecutive.
    pub fn packetize(&mut self, nal: &[u8], timestamp: u32) -> (packets: Vec<RtpPacket>)
        requires
            nal@.len() > old(self).max_payload() ==> old(self).max_payload() >= 3,
        ensures
            final(self).payload_type() == old(self).payload_type(),
            final(self).ssrc() == old(self).ssrc(),
            final(self).max_payload() == old(self).max_payload(),
            packetize_numbering(*old(self), *final(self), packets@),
            old(self).is_single(nal@) ==> packets@.len() == 1 && packets@[0].payload@ == nal@,
            !old(self).is_single(nal@) ==> fua_count_ok(
                packets@.len() as int,
                nal@.len() - 1,
                old(self).max_payload() - 2,
            ),
            forall|i: int|
                0 <= i < packets@.len() ==> {
                    &&& (#[trigger] packets@[i]).header.version == 2
                    &&& !packets@[i].header.padding
                    &&& !packets@[i].header.extension
                    &&& packets@[i].header.marker == (i == packets@.len() - 1)
                    &&& packets@[i].header.payload_type == old(self).payload_type()
                    &&& packets@[i].header.timestamp == timestamp
                    &&& packets@[i].header.ssrc == old(self).ssrc()
                    &&& !old(self).is_single(nal@) ==> packets@[i].payload@ == fua_payload(
                        nal@,
                        old(self).max_payload() - 2,
                        i,
                        packets@.len() as int,
                    )
                },
    {
        if nal.len() <= self.max_payload {
            self.single_nal(nal, timestamp)
        } else {
            self.fragment_fua(nal, timestamp)
        }
    }

    fn next_seq(&mut self) -> (seq: u16)
        ensures
            seq == old(self).sequence_number,
            final(self).sequence_number == seq_add(seq, 1),
            final(self).payload_type == old(self).payload_type,
            final(self).ssrc == old(self).ssrc,
            final(self).max_payload == old(self).max_payload,
    {
        let seq = self.sequence_number;
        self.sequence_number = self.sequence_number.wrapping_add(1);
        seq
    }

    fn single_nal(&mut self, nal: &[u8], timestamp: u32) -> (packets: Vec<RtpPacket>)
        ensures
            final(self).payload_type == old(self).payload_type,
            final(self).ssrc == old(self).ssrc,
            final(self).max_payload == old(self).max_payload,
            final(self).sequence_number == seq_add(old(self).sequence_number, 1),
            packets@.len() == 1,
            packets@[0].payload@ == nal@,
            packets@[0].header == (RtpHeader {
                version: 2,
                padding: false,
                extension: false,
                marker: true,
                payload_type: old(self).payload_type,
                sequence_number: old(self).sequence_number,
                timestamp,
                ssrc: old(self).ssrc,
            }),
    {
        let seq = self.next_seq();
        let mut packets: Vec<RtpPacket> = Vec::new();
        packets.push(
            RtpPacket {
                header: RtpHeader {
                    version: 2,
                    padding: false,
                    extension: false,
                    marker: true,
                    payload_type: self.payload_type,
                    sequence_number: seq,
                    timestamp,
                    ssrc: self.ssrc,
                },
                payload: slice_to_vec(nal),
            },
        );
        proof {
            assert(seq_add(old(self).sequence_number, 0) == old(self).sequence_number);
        }
        packets
    }

    fn fragment_fua(&mut self, nal: &[u8], timestamp: u32) -> (packets: Vec<RtpPacket>)
        requires
            nal@.len() > old(self).max_payload,
            old(self).max_payload >= 3,
        ensures
            final(self).payload_type == old(self).payload_type,
            final(self).ssrc == old(self).ssrc,
            final(self).max_payload == old(self).max_payload,
            final(self).sequence_number == seq_add(old(self).sequence_number, packets@.len() as int),
            fua_count_ok(packets@.len() as int, nal@.len() - 1, old(self).max_payload - 2),
            forall|i: int|
                0 <= i < packets@.len() ==> {
                    &&& (#[trigger] packets@[i]).header == RtpHeader {
                        version: 2,
                        padding: false,
                        extension: false,
                        marker: i == packets@.len() - 1,
                        payload_type: old(self).payload_type,
                        sequence_number: seq_add(old(self).sequence_number, i),
                        timestamp,
                        ssrc: old(self).ssrc,
                    }
                    &&& packets@[i].payload@ == fua_payload(
                        nal@,
                        old(self).max_payload - 2,
                        i,
                        packets@.len() as int,
                    )
                },
    {
        let nal_header = nal[0];
        let nal_type = nal_header & 0x1Fu8;
        let nri = nal_header & 0x60u8;
        let data_len = nal.len() - 1;
        let fua_max = self.max_payload - 2;
        let ghost seq0 = self.sequence_number;
        let ghost piece = fua_max as int;

        let mut packets: Vec<RtpPacket> = Vec::new();
        let mut offset: usize = 0;
        assert(packets@.len() * piece == 0);

        while offset < data_len
            invariant
                data_len == nal@.len() - 1,
                fua_max == self.max_payload - 2,
                fua_max >= 1,
                piece == fua_max as int,
                self.payload_type == old(self).payload_type,
                self.ssrc == old(self).ssrc,
                self.max_payload == old(self).max_payload,
                nal_header == nal@[0],
                nal_type == nal_header & 0x1Fu8,
                nri == nal_header & 0x60u8,
                offset <= data_len,
                offset as int == if packets@.len() * piece < data_len {
                    packets@.len() * piece
                } else {
                    data_len as int
                },
                packets@.len() > 0 ==> (packets@.len() - 1) * piece < data_len,
                self.sequence_number == seq_add(seq0, packets@.len() as int),
                forall|i: int|
                    0 <= i < packets@.len() ==> {
                        &&& (#[trigger] packets@[i]).header == RtpHeader {
                            version: 2,
                            padding: false,
                            extension: false,
                            marker: (i + 1) * piece >= data_len,
                            payload_type: old(self).payload_type,
                            sequence_number: seq_add(seq0, i),
                            timestamp,
                            ssrc: old(self).ssrc,
                        }
                        &&& packets@[i].payload@ == seq![
                            fu_indicator(nal_header),
                            fu_header(nal_header, i == 0, (i + 1) * piece >= data_len),
                        ] + nal@.subrange(
                            1 + i * piece,
                            1 + if (i + 1) * piece < data_len {
                                (i + 1) * piece
                            } else {
                                data_len as int
                            },
                        )
                    },
            decreases data_len - offset,
        {
            let ghost k = packets@.len() as int;
            let end = if data_len - offset > fua_max {
                offset + fua_max
            } else {
                data_len
            };
            let is_start = offset == 0;
            let is_end = end == data_len;

            let fu_ind = 28u8 | nri;
            let s: u8 = if is_start {
                1
            } else {
                0
            };
            let e: u8 = if is_end {
                1
            } else {
                0
            };
            let fu_hdr = (s << 7u8) | (e << 6u8) | nal_type;

            let mut payload: Vec<u8> = Vec::with_capacity(2 + (end - offset));
            payload.push(fu_ind);
            payload.push(fu_hdr);
            let mut j: usize = offset;
            while j < end
                invariant
                    offset <= j <= end,
                    end <= data_len,
                    data_len == nal@.len() - 1,
                    payload@ == seq![fu_ind, fu_hdr] + nal@.subrange(1 + offset, 1 + j),
                decreases end - j,
            {
                payload.push(nal[j + 1]);
                j = j + 1;
                assert(payload@ =~= seq![fu_ind, fu_hdr] + nal@.subrange(1 + offset, 1 + j));
            }

            let seq = self.next_seq();
            let ghost old_packets = packets@;
            packets.push(
                RtpPacket {
                    header: RtpHeader {
                        version: 2,
                        padding: false,
                        extension: false,
                        marker: is_end,
                        payload_type: self.payload_type,
                        sequence_number: seq,
                        timestamp,
                        ssrc: self.ssrc,
                    },
                    payload,
                },
            );
            proof {
                assert((k + 1) * piece == k * piece + piece) by (nonlinear_arith);
                assert(is_start == (k == 0)) by (nonlinear_arith)
                    requires
                        offset == k * piece,
                        piece >= 1,
                        k >= 0,
                        is_start == (offset == 0),
                ;
                assert(is_end == ((k + 1) * piece >= data_len));
                assert(end == if (k + 1) * piece < data_len {
                    (k + 1) * piece
                } else {
                    data_len as int
                });
                assert(seq_add(seq_add(seq0, k), 1) == seq_add(seq0, k + 1));
                assert forall|i: int| 0 <= i < packets@.len() implies {
                    &&& (#[trigger] packets@[i]).header == RtpHeader {
                        version: 2,
                        padding: false,
                        extension: false,
                        marker: (i + 1) * piece >= data_len,
                        payload_type: old(self).payload_type,
                        sequence_number: seq_add(seq0, i),
                        timestamp,
                        ssrc: old(self).ssrc,
                    }
                    &&& packets@[i].payload@ == seq![
                        fu_indicator(nal_header),
                        fu_header(nal_header, i == 0, (i + 1) * piece >= data_len),
                    ] + nal@.subrange(
                        1 + i * piece,
                        1 + if (i + 1) * piece < data_len {
                            (i + 1) * piece
                        } else {
                            data_len as int
                        },
                    )
                } by {
                    if i < k {
                        assert(packets@[i] == old_packets[i]);
                    } else {
                        lemma_fu_header_bytes(nal_header, is_start, is_end);
                    }
                }
            }
            offset = end;
        }
        proof {
            let n = packets@.len() as int;
            assert(n >= 1);
            assert forall|i: int| #![trigger packets@[i]] 0 <= i < n implies ((i + 1) * piece >= data_len) == (i == n
                - 1) by {
                if i < n - 1 {
                    assert((i + 1) * piece <= (n - 1) * piece) by (nonlinear_arith)
                        requires
                            i + 1 <= n - 1,
                            piece >= 1,
                    ;
                }
            }
        }
        packets
    }
}

proof fn lemma_fu_header_bytes(nal_header: u8, is_start: bool, is_end: bool)
    ensures
        28u8 | (nal_header & 0x60u8) == fu_indicator(nal_header),
        ((bit_u8(is_start) << 7u8) | (bit_u8(is_end) << 6u8) | (nal_header & 0x1Fu8)) == fu_header(
            nal_header,
            is_start,
            is_end,
        ),
{
}

// ── Depacketization ─────────────────────────────────────────────────────────

/// State of a depacketizer: the NAL unit being assembled and whether an
/// FU-A fragment sequence is in progress.
pub open spec fn depack_step(buffer: Seq<u8>, in_fragment: bool, payload: Seq<u8>) -> (Seq<u8>, bool) {
    if payload.len() == 0 {
        (buffer, in_fragment)
    } else if payload[0] & 0x1Fu8 == 28u8 {
        if payload.len() < 2 {
            (buffer, in_fragment)
        } else {
            let is_start = (payload[1] >> 7u8) & 1u8 == 1u8;
            let b1 = if is_start {
                seq![(payload[0] & 0x60u8) | (payload[1] & 0x1Fu8)]
            } else {
                buffer
            };
            let f1 = if is_start {
                true
            } else {
                in_fragment
            };
            if f1 {
                (b1 + payload.subrange(2, payload.len() as int), f1)
            } else {
                (b1, f1)
            }
        }
    } else {
        (payload, false)
    }
}

/// Depacketizer state after the payloads `ps`, in order.
pub open spec fn depack_run(buffer: Seq<u8>, in_fragment: bool, ps: Seq<Seq<u8>>) -> (Seq<u8>, bool)
    decreases ps.len(),
{
    if ps.len() == 0 {
        (buffer, in_fragment)
    } else {
        let (b, f) = depack_step(buffer, in_fragment, ps[0]);
        depack_run(b, f, ps.drop_first())
    }
}

pub struct H264Depacketizer {
    buffer: Vec<u8>,
    in_fragment: bool,
}

impl Default for H264Depacketizer {
    fn default() -> (d: Self)
        ensures
            d.buffer() == Seq::<u8>::empty(),
            !d.in_fragment(),
    {
        H264Depacketizer::new()
    }
}

impl H264Depacketizer {
    /// The NAL unit assembled so far.
    pub closed spec fn buffer(&self) -> Seq<u8> {
        self.buffer@
    }

    /// An FU-A fragment sequence is in progress.
    pub closed spec fn in_fragment(&self) -> bool {
        self.in_fragment
    }

    pub fn new() -> (d: Self)
        ensures
            d.buffer() == Seq::<u8>::empty(),
            !d.in_fragment(),
    {
        H264Depacketizer { buffer: Vec::new(), in_fragment: false }
    }

    /// Feeds one RTP packet: a single NAL unit replaces the buffer, an FU-A
    /// start fragment restarts it, and further fragments are appended.
    pub fn push(&mut self, packet: &RtpPacket)
        ensures
            final(self).buffer() == depack_step(
                old(self).buffer(),
                old(self).in_fragment(),
                packet.payload@,
            ).0,
            final(self).in_fragment() == depack_step(
                old(self).buffer(),
                old(self).in_fragment(),
                packet.payload@,
            ).1,
    {
        let ghost p = packet.payload@;
        if packet.payload.len() == 0 {
            return;
        }
        let first_byte = packet.payload[0];
        let nal_type = first_byte & 0x1Fu8;

        if nal_type == 28 {
            if packet.payload.len() < 2 {
                return;
            }
            let fu_hdr = packet.payload[1];
            let is_start = (fu_hdr >> 7u8) & 1u8 == 1u8;
            let unit_type = fu_hdr & 0x1Fu8;
            let nri = first_byte & 0x60u8;

            if is_start {
                self.buffer.clear();
                self.buffer.push(nri | unit_type);
                self.in_fragment = true;
            }
            if self.in_fragment {
                let ghost b0 = self.buffer@;
                let mut j: usize = 2;
                while j < packet.payload.len()
                    invariant
                        2 <= j <= packet.payload@.len(),
                        packet.payload@ == p,
                        self.in_fragment,
                        self.buffer@ == b0 + p.subrange(2, j as int),
                    decreases packet.payload@.len() - j,
                {
                    self.buffer.push(packet.payload[j]);
                    j = j + 1;
                    assert(self.buffer@ =~= b0 + p.subrange(2, j as int));
                }
            }
            proof {
                if is_start {
                    assert(self.buffer@.subrange(0, 1) =~= seq![(p[0] & 0x60u8) | (p[1] & 0x1Fu8)]);
                }
            }
        } else {
            self.buffer = slice_to_vec(packet.payload.as_slice());
            self.in_fragment = false;
        }
    }

    /// Takes the assembled NAL unit, if any, leaving the buffer empty.
    pub fn pop_nal(&mut self) -> (nal: Option<Vec<u8>>)
        ensures
            old(self).buffer().len() == 0 ==> nal.is_none(),
            old(self).buffer().len() > 0 ==> nal is Some && nal->0@ == old(self).buffer(),
            final(self).buffer() == Seq::<u8>::empty(),
            final(self).in_fragment() == old(self).in_fragment(),
    {
        if self.buffer.len() == 0 {
            None
        } else {
            let mut out: Vec<u8> = Vec::new();
            std::mem::swap(&mut out, &mut self.buffer);
            Some(out)
        }
    }
}


// ── Packetization round trip ────────────────────────────────────────────────

/// The NAL unit as reassembled after the first `k` FU-A fragments.
spec fn fua_prefix(nal: Seq<u8>, piece: int, k: int) -> Seq<u8> {
    let data_len = nal.len() - 1;
    seq![nal[0]] + nal.subrange(1, 1 + if k * piece < data_len {
        k * piece
    } else {
        data_len
    })
}

proof fn lemma_fu_bits(h: u8, s: bool, e: bool)
    requires
        h & 0x80u8 == 0,
    ensures
        fu_indicator(h) & 0x1Fu8 == 28u8,
        ((fu_header(h, s, e) >> 7u8) & 1u8 == 1u8) == s,
        (fu_indicator(h) & 0x60u8) | (fu_header(h, s, e) & 0x1Fu8) == h,
{
    let si = bit_u8(s);
    let ei = bit_u8(e);
    assert((28u8 | (h & 0x60u8)) & 0x1Fu8 == 28u8) by (bit_vector);
    assert(((((si << 7u8) | (ei << 6u8) | (h & 0x1Fu8)) >> 7u8) & 1u8 == 1u8) == (si == 1u8))
        by (bit_vector)
        requires
            si < 2,
            ei < 2,
    ;
    assert(((28u8 | (h & 0x60u8)) & 0x60u8) | (((si << 7u8) | (ei << 6u8) | (h & 0x1Fu8))
        & 0x1Fu8) == h) by (bit_vector)
        requires
            h & 0x80u8 == 0,
            si < 2,
            ei < 2,
    ;
}

proof fn lemma_fua_tail(nal: Seq<u8>, piece: int, n: int, k: int, payloads: Seq<Seq<u8>>)
    requires
        nal.len() >= 2,
        piece >= 1,
        fua_count_ok(n, nal.len() - 1, piece),
        nal[0] & 0x80u8 == 0,
        payloads.len() == n,
        forall|i: int| 0 <= i < n ==> #[trigger] payloads[i] == fua_payload(nal, piece, i, n),
        1 <= k <= n,
    ensures
        depack_run(fua_prefix(nal, piece, k), true, payloads.subrange(k, n)) == (nal, true),
    decreases n - k,
{
    let data_len = nal.len() - 1;
    if k == n {
        assert(fua_prefix(nal, piece, k) =~= nal);
        assert(payloads.subrange(k, n).len() == 0);
    } else {
        assert(k * piece <= (n - 1) * piece) by (nonlinear_arith)
            requires
                k <= n - 1,
                piece >= 1,
        ;
        assert((k + 1) * piece == k * piece + piece) by (nonlinear_arith);
        let p = payloads[k];
        lemma_fu_bits(nal[0], k == 0, k == n - 1);
        assert(p[0] == fu_indicator(nal[0]));
        assert(p[1] == fu_header(nal[0], false, k == n - 1));
        let end = if (k + 1) * piece < data_len {
            (k + 1) * piece
        } else {
            data_len
        };
        assert(p.subrange(2, p.len() as int) =~= nal.subrange(1 + k * piece, 1 + end));
        assert(fua_prefix(nal, piece, k) + p.subrange(2, p.len() as int) =~= fua_prefix(
            nal,
            piece,
            k + 1,
        ));
        assert(depack_step(fua_prefix(nal, piece, k), true, p) == (
            fua_prefix(nal, piece, k + 1),
            true,
        ));
        assert(payloads.subrange(k, n).drop_first() =~= payloads.subrange(k + 1, n));
        lemma_fua_tail(nal, piece, n, k + 1, payloads);
    }
}

/// Depacketizing the payloads that `H264Packetizer::packetize` produces for
/// a NAL unit gives that NAL unit back, whatever state the depacketizer was
/// in: for a unit sent whole, when its type is not FU-A; for a fragmented
/// unit, when its forbidden-zero bit is clear.
pub proof fn h264_packetize_roundtrip(
    nal: Seq<u8>,
    max_payload: int,
    payloads: Seq<Seq<u8>>,
    buffer: Seq<u8>,
    in_fragment: bool,
)
    requires
        nal.len() >= 1,
        nal.len() <= max_payload ==> payloads == seq![nal] && nal[0] & 0x1Fu8 != 28u8,
        nal.len() > max_payload ==> {
            &&& max_payload >= 3
            &&& nal[0] & 0x80u8 == 0
            &&& fua_count_ok(payloads.len() as int, nal.len() - 1, max_payload - 2)
            &&& forall|i: int|
                0 <= i < payloads.len() ==> #[trigger] payloads[i] == fua_payload(
                    nal,
                    max_payload - 2,
                    i,
                    payloads.len() as int,
                )
        },
    ensures
        depack_run(buffer, in_fragment, payloads).0 == nal,
{
    if nal.len() <= max_payload {
        assert(payloads.drop_first().len() == 0);
        assert(depack_step(buffer, in_fragment, nal) == (nal, false));
        assert(depack_run(buffer, in_fragment, payloads) == depack_run(
            nal,
            false,
            payloads.drop_first(),
        ));
    } else {
        let piece = max_payload - 2;
        let n = payloads.len() as int;
        let p = payloads[0];
        lemma_fu_bits(nal[0], true, n == 1);
        assert(p[0] == fu_indicator(nal[0]));
        assert(p[1] == fu_header(nal[0], true, n == 1));
        let end = if piece < nal.len() - 1 {
            piece
        } else {
            nal.len() - 1
        };
        assert(1 * piece == piece);
        assert(p.subrange(2, p.len() as int) =~= nal.subrange(1, 1 + end));
        assert(seq![nal[0]] + p.subrange(2, p.len() as int) =~= fua_prefix(nal, piece, 1));
        assert(seq![(p[0] & 0x60u8) | (p[1] & 0x1Fu8)] =~= seq![nal[0]]);
        assert(depack_step(buffer, in_fragment, p) == (fua_prefix(nal, piece, 1), true));
        assert(payloads.drop_first() =~= payloads.subrange(1, n));
        lemma_fua_tail(nal, piece, n, 1, payloads);
        assert(depack_run(buffer, in_fragment, payloads) == depack_run(
            fua_prefix(nal, piece, 1),
            true,
            payloads.subrange(1, n),
        ));
    }
}

/// Packetizing from a fresh packetizer (sequence 0, as `new` leaves it):
/// packet `i` of the `c`-th call is numbered `n + i` modulo 2^16, where `n`
/// is the number of packets of all earlier calls, and the packetizer then
/// stands at the total count modulo 2^16.
pub proof fn packetize_run_numbering(
    states: Seq<H264Packetizer>,
    outputs: Seq<Seq<RtpPacket>>,
)
    requires
        states.len() == outputs.len() + 1,
        states[0].next_sequence() == 0,
        forall|c: int|
            #![trigger outputs[c]]
            0 <= c < outputs.len() ==> packetize_numbering(states[c], states[c + 1], outputs[c]),
    ensures
        forall|c: int, i: int|
            0 <= c < outputs.len() && 0 <= i < outputs[c].len() ==> (
            #[trigger] outputs[c][i]).header.sequence_number == (packet_total(outputs.take(c)) + i)
                % 65536,
        states.last().next_sequence() == packet_total(outputs) % 65536,
{
    lemma_numbering_prefix(states, outputs, outputs.len() as int);
    assert(outputs.take(outputs.len() as int) =~= outputs);
    assert forall|c: int, i: int|
        0 <= c < outputs.len() && 0 <= i < outputs[c].len() implies (
        #[trigger] outputs[c][i]).header.sequence_number == (packet_total(outputs.take(c)) + i)
            % 65536 by {
        assert(packetize_numbering(states[c], states[c + 1], outputs[c]));
        let t = packet_total(outputs.take(c));
        lemma_packet_total_nonneg(outputs.take(c));
        assert(states[c].next_sequence() == t % 65536);
        assert(outputs[c][i].header.sequence_number == seq_add(states[c].next_sequence(), i));
        assert(((t % 65536) + i) % 65536 == (t + i) % 65536) by (nonlinear_arith)
            requires
                t >= 0,
                i >= 0,
        ;
    }
}

proof fn lemma_packet_total_nonneg(outputs: Seq<Seq<RtpPacket>>)
    ensures
        packet_total(outputs) >= 0,
    decreases outputs.len(),
{
    if outputs.len() > 0 {
        lemma_packet_total_nonneg(outputs.drop_last());
    }
}

proof fn lemma_numbering_prefix(states: Seq<H264Packetizer>, outputs: Seq<Seq<RtpPacket>>, n: int)
    requires
        states.len() == outputs.len() + 1,
        states[0].next_sequence() == 0,
        forall|c: int|
            #![trigger outputs[c]]
            0 <= c < outputs.len() ==> packetize_numbering(states[c], states[c + 1], outputs[c]),
        0 <= n <= outputs.len(),
    ensures
        forall|c: int|
            0 <= c <= n ==> #[trigger] states[c].next_sequence() == packet_total(outputs.take(c))
                % 65536,
    decreases n,
{
    if n == 0 {
        assert(outputs.take(0) =~= Seq::<Seq<RtpPacket>>::empty());
        assert forall|c: int| 0 <= c <= n implies #[trigger] states[c].next_sequence()
            == packet_total(outputs.take(c)) % 65536 by {
            assert(c == 0);
            assert(outputs.take(c) =~= Seq::<Seq<RtpPacket>>::empty());
        }
    } else {
        lemma_numbering_prefix(states, outputs, n - 1);
        let j = n - 1;
        assert(packetize_numbering(states[j], states[j + 1], outputs[j]));
        assert(outputs.take(n).drop_last() =~= outputs.take(j));
        assert(outputs.take(n).last() == outputs[j]);
        let t = packet_total(outputs.take(j));
        lemma_packet_total_nonneg(outputs.take(j));
        let m = outputs[j].len() as int;
        assert(((t % 65536) + m) % 65536 == (t + m) % 65536) by (nonlinear_arith)
            requires
                t >= 0,
                m >= 0,
        ;
        assert(states[n] == states[j + 1]);
        assert forall|c: int| 0 <= c <= n implies #[trigger] states[c].next_sequence()
            == packet_total(outputs.take(c)) % 65536 by {
            if c == n {
                assert(states[c] == states[j + 1]);
            }
        }
    }
}

/// Every packet that `packetize` made of a NAL unit, pushed in order into
/// a depacketizer in any state, leaves exactly that NAL unit in its buffer,
/// which `pop_nal` then hands out.  The NAL unit has its forbidden bit
/// clear and is not itself of the FU-A type.
pub proof fn packetize_then_depacketize(
    pk: H264Packetizer,
    nal: Seq<u8>,
    packets: Seq<RtpPacket>,
    ds: Seq<H264Depacketizer>,
)
    requires
        nal.len() >= 1,
        nal[0] & 0x80u8 == 0,
        nal[0] & 0x1Fu8 != 28u8,
        nal.len() > pk.max_payload() ==> pk.max_payload() >= 3,
        pk.is_single(nal) ==> packets.len() == 1 && packets[0].payload@ == nal,
        !pk.is_single(nal) ==> fua_count_ok(
            packets.len() as int,
            nal.len() - 1,
            pk.max_payload() - 2,
        ),
        forall|i: int|
            0 <= i < packets.len() ==> !pk.is_single(nal) ==> (#[trigger] packets[i]).payload@
                == fua_payload(nal, pk.max_payload() - 2, i, packets.len() as int),
        ds.len() == packets.len() + 1,
        forall|i: int|
            #![trigger packets[i]]
            0 <= i < packets.len() ==> ds[i + 1].buffer() == depack_step(
                ds[i].buffer(),
                ds[i].in_fragment(),
                packets[i].payload@,
            ).0 && ds[i + 1].in_fragment() == depack_step(
                ds[i].buffer(),
                ds[i].in_fragment(),
                packets[i].payload@,
            ).1,
    ensures
        ds.last().buffer() == nal,
{
    let n = packets.len() as int;
    let payloads = Seq::new(packets.len(), |i: int| packets[i].payload@);
    lemma_depack_steps(packets, ds, 0);
    assert(payloads.subrange(0, n) =~= payloads);
    if pk.is_single(nal) {
        assert(payloads =~= seq![nal]);
    } else {
        assert forall|i: int| 0 <= i < payloads.len() implies #[trigger] payloads[i] == fua_payload(
            nal,
            pk.max_payload() - 2,
            i,
            payloads.len() as int,
        ) by {
            assert(payloads[i] == packets[i].payload@);
        }
    }
    h264_packetize_roundtrip(
        nal,
        pk.max_payload() as int,
        payloads,
        ds[0].buffer(),
        ds[0].in_fragment(),
    );
}

proof fn lemma_depack_steps(packets: Seq<RtpPacket>, ds: Seq<H264Depacketizer>, k: int)
    requires
        ds.len() == packets.len() + 1,
        forall|i: int|
            #![trigger packets[i]]
            0 <= i < packets.len() ==> ds[i + 1].buffer() == depack_step(
                ds[i].buffer(),
                ds[i].in_fragment(),
                packets[i].payload@,
            ).0 && ds[i + 1].in_fragment() == depack_step(
                ds[i].buffer(),
                ds[i].in_fragment(),
                packets[i].payload@,
            ).1,
        0 <= k <= packets.len(),
    ensures
        depack_run(
            ds[k].buffer(),
            ds[k].in_fragment(),
            Seq::new(packets.len(), |i: int| packets[i].payload@).subrange(k, packets.len() as int),
        ) == (ds.last().buffer(), ds.last().in_fragment()),
    decreases packets.len() - k,
{
    let payloads = Seq::new(packets.len(), |i: int| packets[i].payload@);
    let n = packets.len() as int;
    if k == n {
        assert(payloads.subrange(k, n).len() == 0);
        assert(ds.last() == ds[k]);
    } else {
        lemma_depack_steps(packets, ds, k + 1);
        let rest = payloads.subrange(k, n);
        assert(rest[0] == packets[k].payload@);
        assert(rest.drop_first() =~= payloads.subrange(k + 1, n));
        assert(ds[k + 1].buffer() == depack_step(ds[k].buffer(), ds[k].in_fragment(), packets[k].payload@).0);
    }
}

} // verus!


