//! The receiving side of a media stream: each datagram is decrypted,
//! checked against replays and parsed; video packets are reassembled into
//! NAL units, audio packets handed on for decoding, parity packets kept to
//! rebuild lost packets of their group.  Decoding and playback are the
//! caller's.

use vstd::prelude::*;

use crate::protocol::negotiate::{Answer, AnswerAudio, AnswerTransport, AnswerVideo};
use crate::security::cipher::{
    opened_packet,
    sealed_packet,
    Cipher,
    MAX_PLAINTEXT_LEN,
    NONCE_COUNTER_LEN,
    TAG_LEN,
};
use crate::ui::backend::{
    audio_header,
    fua_count,
    nal_packets,
    packet_bytes,
    video_header,
    PacketView,
    VIDEO_MTU,
};
use crate::security::replay::{replay_accepts, replay_next_seen, replay_next_top, ReplayWindow};
use crate::transport::fec::{
    fec_header_from_bytes,
    group_after_media,
    groups_not_before,
    recover_from,
    seq_before,
    seq_offset,
    FecDecoder,
    FecGroupView,
    FecHeader,
};
use crate::transport::rtp::{
    depack_run,
    depack_step,
    rtp_header_bytes,
    rtp_header_from_bytes,
    rtp_header_roundtrip,
    fua_count_ok,
    h264_packetize_roundtrip,
    seq_add,
    H264Depacketizer,
    RtpHeader,
    RtpPacket,
};

verus! {

/// The nonce prefix of the sender's media packets.
pub open spec fn media_prefix() -> Seq<u8> {
    seq![0u8, 0u8, 0u8, 1u8]
}

pub const PT_VIDEO: u8 = 96;

pub const PT_AUDIO: u8 = 111;

pub const PT_FEC: u8 = 127;

/// Every this many packets, parity groups far behind are dropped.
pub const PRUNE_INTERVAL: u64 = 1000;

/// How far behind the last sequence number a parity group must start to
/// be dropped.
pub const PRUNE_DISTANCE: u16 = 100;

/// What the receiver answers to an offer, with its media socket on
/// `udp_port`: at most 1920x1080 at 60 frames per second in H.264, and
/// Opus 48 kHz stereo.
pub fn receiver_answer(udp_port: u16) -> (a: Answer)
    ensures
        a.video.codec@ == "h264"@,
        a.video.max_width == 1920,
        a.video.max_height == 1080,
        a.video.max_fps == 60,
        a.audio.codec@ == "opus"@,
        a.audio.sample_rate == 48000,
        a.audio.channels == 2,
        a.transport.udp_port == udp_port,
{
    Answer {
        video: AnswerVideo {
            codec: "h264".to_string(),
            max_width: 1920,
            max_height: 1080,
            max_fps: 60,
        },
        audio: AnswerAudio { codec: "opus".to_string(), sample_rate: 48000, channels: 2 },
        transport: AnswerTransport { udp_port },
    }
}

/// Largest pairing message accepted, in bytes.
pub const MAX_PAIRING_MSG_LEN: usize = 256;

/// Length of a pairing message announced by a 4-byte big-endian prefix, or
/// `None` when it exceeds `MAX_PAIRING_MSG_LEN`.
pub fn pairing_msg_len(len_bytes: [u8; 4]) -> (n: Option<usize>)
    ensures
        ({
            let v = ((len_bytes@[0] as u32) << 24u32) | ((len_bytes@[1] as u32) << 16u32) | ((
            len_bytes@[2] as u32) << 8u32) | (len_bytes@[3] as u32);
            if v > MAX_PAIRING_MSG_LEN {
                n is None
            } else {
                n == Some(v as usize)
            }
        }),
{
    let v: u32 = ((len_bytes[0] as u32) << 24u32) | ((len_bytes[1] as u32) << 16u32) | ((
    len_bytes[2] as u32) << 8u32) | (len_bytes[3] as u32);
    if v > 256 {
        None
    } else {
        Some(v as usize)
    }
}

/// What a datagram gives the caller.
#[derive(Debug, PartialEq, Eq)]
pub enum MediaOutput {
    /// A complete NAL unit to decode, with the RTP timestamp of its frame.
    VideoNal { nal: Vec<u8>, timestamp: u64 },
    /// An audio payload to decode.
    Audio(Vec<u8>),
    /// A lost audio packet that could not be rebuilt: conceal it.
    AudioLost,
}

/// The value of a `MediaOutput`.
pub enum OutputView {
    VideoNal(Seq<u8>, u64),
    Audio(Seq<u8>),
    AudioLost,
}

pub open spec fn output_view(o: MediaOutput) -> OutputView {
    match o {
        MediaOutput::VideoNal { nal, timestamp } => OutputView::VideoNal(nal@, timestamp),
        MediaOutput::Audio(p) => OutputView::Audio(p@),
        MediaOutput::AudioLost => OutputView::AudioLost,
    }
}

pub open spec fn output_views(os: Seq<MediaOutput>) -> Seq<OutputView> {
    os.map_values(|o: MediaOutput| output_view(o))
}

/// The sequence numbers skipped between the last packet `prev` and `seq`.
pub open spec fn gap(prev: Option<u16>, seq: u16) -> Seq<u16> {
    match prev {
        None => Seq::empty(),
        Some(p) => Seq::new(
            ((seq as int - p as int - 1) % 65536) as nat,
            |i: int| ((p as int + 1 + i) % 65536) as u16,
        ),
    }
}

/// What the parity groups rebuild of the sequence numbers `ss`, in order,
/// leaving out those they cannot.
pub open spec fn rebuilt(groups: Seq<FecGroupView>, ss: Seq<u16>) -> Seq<Seq<u8>>
    decreases ss.len(),
{
    if ss.len() == 0 {
        Seq::empty()
    } else {
        let r = rebuilt(groups, ss.drop_last());
        match recover_from(groups, ss.last()) {
            Some(p) => r.push(p),
            None => r,
        }
    }
}

/// The audio outputs for the sequence numbers `ss`: the rebuilt payload,
/// or a loss to conceal.
pub open spec fn audio_gap_outputs(groups: Seq<FecGroupView>, ss: Seq<u16>) -> Seq<OutputView> {
    Seq::new(
        ss.len(),
        |i: int|
            match recover_from(groups, ss[i]) {
                Some(p) => OutputView::Audio(p),
                None => OutputView::AudioLost,
            },
    )
}

/// The groups after a media packet was recorded in them.
pub open spec fn groups_after_media(groups: Seq<FecGroupView>, seq: u16, payload: Seq<u8>) -> Seq<
    FecGroupView,
> {
    Seq::new(groups.len(), |i: int| group_after_media(groups[i], seq, payload))
}

/// The state of a receiver as the contracts see it.
#[verifier::ext_equal]
pub struct ReceiverView {
    /// Newest counter accepted, and the counters remembered in its window.
    pub top: u64,
    pub seen: Set<u64>,
    /// The NAL unit being reassembled and whether a fragmented one is open.
    pub buffer: Seq<u8>,
    pub in_fragment: bool,
    pub video_groups: Seq<FecGroupView>,
    pub last_video_seq: Option<u16>,
    pub audio_groups: Seq<FecGroupView>,
    pub last_audio_seq: Option<u16>,
    /// Packets accepted so far.
    pub total_packets: u64,
}

/// A video packet: it is recorded in the parity groups, the skipped packets
/// that they can rebuild are fed to the reassembly first, then the packet;
/// at the end of a frame (marker) the NAL unit assembled, if any, is output.
pub open spec fn video_step(s: ReceiverView, h: RtpHeader, payload: Seq<u8>) -> (
    ReceiverView,
    Seq<OutputView>,
) {
    let seq = h.sequence_number;
    let groups = groups_after_media(s.video_groups, seq, payload);
    let r1 = depack_run(s.buffer, s.in_fragment, rebuilt(groups, gap(s.last_video_seq, seq)));
    let r2 = depack_step(r1.0, r1.1, payload);
    let s1 = ReceiverView { video_groups: groups, last_video_seq: Some(seq), ..s };
    if h.marker && r2.0.len() > 0 {
        (
            ReceiverView { buffer: Seq::empty(), in_fragment: r2.1, ..s1 },
            seq![OutputView::VideoNal(r2.0, h.timestamp as u64)],
        )
    } else {
        (ReceiverView { buffer: r2.0, in_fragment: r2.1, ..s1 }, Seq::empty())
    }
}

/// An audio packet: it is recorded in the parity groups; each skipped packet
/// gives its rebuilt payload or a loss, then the packet's payload follows.
pub open spec fn audio_step(s: ReceiverView, h: RtpHeader, payload: Seq<u8>) -> (
    ReceiverView,
    Seq<OutputView>,
) {
    let seq = h.sequence_number;
    let groups = groups_after_media(s.audio_groups, seq, payload);
    (
        ReceiverView { audio_groups: groups, last_audio_seq: Some(seq), ..s },
        audio_gap_outputs(groups, gap(s.last_audio_seq, seq)).push(OutputView::Audio(payload)),
    )
}

/// The groups after a parity packet with payload `payload` was taken in.
pub open spec fn groups_after_fec(groups: Seq<FecGroupView>, payload: Seq<u8>) -> Seq<FecGroupView> {
    groups.push(
        FecGroupView {
            base_seq: fec_header_from_bytes(payload).base_seq,
            group_len: fec_header_from_bytes(payload).group_len,
            xor_payload: payload.subrange(4, payload.len() as int),
            received: Map::empty(),
        },
    )
}

/// A parity packet opens a group of the stream its header names; one too
/// short for a header, or naming another stream, is ignored.
pub open spec fn fec_step(s: ReceiverView, payload: Seq<u8>) -> ReceiverView {
    if payload.len() < 4 {
        s
    } else if fec_header_from_bytes(payload).media_pt == PT_VIDEO {
        ReceiverView { video_groups: groups_after_fec(s.video_groups, payload), ..s }
    } else if fec_header_from_bytes(payload).media_pt == PT_AUDIO {
        ReceiverView { audio_groups: groups_after_fec(s.audio_groups, payload), ..s }
    } else {
        s
    }
}

/// `PRUNE_DISTANCE` sequence numbers before `seq`, modulo 2^16.
pub open spec fn prune_before(seq: u16) -> u16 {
    ((seq as int - PRUNE_DISTANCE as int + 65536) % 65536) as u16
}

/// The groups kept when pruning behind the last sequence number `last`.
pub open spec fn pruned_groups(groups: Seq<FecGroupView>, last: Option<u16>) -> Seq<FecGroupView> {
    match last {
        Some(q) => groups_not_before(groups, prune_before(q)),
        None => groups,
    }
}

/// Every `PRUNE_INTERVAL` accepted packets, the parity groups that start
/// far behind the last packet of their stream are dropped.
pub open spec fn prune_step(s: ReceiverView) -> ReceiverView {
    if s.total_packets % PRUNE_INTERVAL == 0 {
        ReceiverView {
            video_groups: pruned_groups(s.video_groups, s.last_video_seq),
            audio_groups: pruned_groups(s.audio_groups, s.last_audio_seq),
            ..s
        }
    } else {
        s
    }
}

/// A packet opened with counter `counter` and plaintext `plain`: checked
/// against replays and parsed; an accepted packet is counted, the parity
/// groups pruned when due, and the packet handled by its payload type.
/// A replay leaves the state as it was; an unparsable packet leaves it
/// after the replay window took it in.
pub open spec fn accept_step(s: ReceiverView, counter: u64, plain: Seq<u8>) -> (
    ReceiverView,
    Seq<OutputView>,
) {
    if !replay_accepts(s.top, s.seen, counter) {
        (s, Seq::empty())
    } else {
        let s1 = ReceiverView {
            top: replay_next_top(s.top, counter),
            seen: replay_next_seen(s.top, s.seen, counter),
            ..s
        };
        if plain.len() < 12 {
            (s1, Seq::empty())
        } else {
            let h = rtp_header_from_bytes(plain);
            let payload = plain.subrange(12, plain.len() as int);
            let s2 = prune_step(ReceiverView { total_packets: (s1.total_packets + 1) as u64, ..s1 });
            if h.payload_type == PT_VIDEO {
                video_step(s2, h, payload)
            } else if h.payload_type == PT_AUDIO {
                audio_step(s2, h, payload)
            } else if h.payload_type == PT_FEC {
                (fec_step(s2, payload), Seq::empty())
            } else {
                (s2, Seq::empty())
            }
        }
    }
}

/// One datagram: it is opened with `key` and the sender's prefix (a
/// datagram that does not open leaves the state as it was), then accepted
/// as `accept_step` says.
pub open spec fn receive_step(s: ReceiverView, key: Seq<u8>, datagram: Seq<u8>) -> (
    ReceiverView,
    Seq<OutputView>,
) {
    match opened_packet(key, media_prefix(), datagram) {
        Err(_) => (s, Seq::empty()),
        Ok((counter, plain)) => accept_step(s, counter, plain),
    }
}

pub struct MediaReceiver {
    cipher: Cipher,
    replay_window: ReplayWindow,
    depacketizer: H264Depacketizer,
    video_fec: FecDecoder,
    last_video_seq: Option<u16>,
    audio_fec: FecDecoder,
    last_audio_seq: Option<u16>,
    total_packets: u64,
}

impl View for MediaReceiver {
    type V = ReceiverView;

    closed spec fn view(&self) -> ReceiverView {
        ReceiverView {
            top: self.replay_window.top(),
            seen: self.replay_window.seen(),
            buffer: self.depacketizer.buffer(),
            in_fragment: self.depacketizer.in_fragment(),
            video_groups: self.video_fec.groups(),
            last_video_seq: self.last_video_seq,
            audio_groups: self.audio_fec.groups(),
            last_audio_seq: self.last_audio_seq,
            total_packets: self.total_packets,
        }
    }
}

impl MediaReceiver {
    /// The media key the receiver opens packets with.
    pub closed spec fn key(&self) -> Seq<u8> {
        self.cipher.key()
    }

    pub closed spec fn wf(&self) -> bool {
        &&& self.replay_window.wf()
        &&& self.cipher.prefix() == media_prefix()
    }

    /// A receiver for one session, opening packets sealed with the media
    /// key and the sender's prefix `00 00 00 01`.
    pub fn new(media_key: &[u8; 32]) -> (r: Self)
        ensures
            r.wf(),
            r.key() == media_key@,
            r@ == (ReceiverView {
                top: 0,
                seen: Set::empty(),
                buffer: Seq::empty(),
                in_fragment: false,
                video_groups: Seq::empty(),
                last_video_seq: None,
                audio_groups: Seq::empty(),
                last_audio_seq: None,
                total_packets: 0,
            }),
    {
        let r = MediaReceiver {
            cipher: Cipher::new(media_key, [0, 0, 0, 1]),
            replay_window: ReplayWindow::new(),
            depacketizer: H264Depacketizer::new(),
            video_fec: FecDecoder::new(),
            last_video_seq: None,
            audio_fec: FecDecoder::new(),
            last_audio_seq: None,
            total_packets: 0,
        };
        assert(r.cipher.prefix() =~= media_prefix());
        assert(r@ =~= ReceiverView {
            top: 0,
            seen: Set::empty(),
            buffer: Seq::empty(),
            in_fragment: false,
            video_groups: Seq::empty(),
            last_video_seq: None,
            audio_groups: Seq::empty(),
            last_audio_seq: None,
            total_packets: 0,
        });
        r
    }

    /// Packets accepted so far.
    pub fn packets_received(&self) -> (n: u64)
        ensures
            n == self@.total_packets,
    {
        self.total_packets
    }

    /// A video packet: recorded for parity, the skipped packets that the
    /// parity groups can rebuild fed to the reassembly first, then the
    /// packet; at the end of a frame (marker) the NAL unit assembled, if
    /// any, is output.
    fn handle_video(&mut self, pkt: &RtpPacket) -> (out: Vec<MediaOutput>)
        requires
            old(self).wf(),
        ensures
            final(self).wf(),
            final(self).key() == old(self).key(),
            final(self)@ == video_step(old(self)@, pkt.header, pkt.payload@).0,
            output_views(out@) == video_step(old(self)@, pkt.header, pkt.payload@).1,
    {
        let seq = pkt.header.sequence_number;
        self.video_fec.push_media(pkt);
        let ghost groups = self.video_fec.groups();
        proof {
            assert(groups =~= groups_after_media(old(self)@.video_groups, seq, pkt.payload@));
        }
        match self.last_video_seq {
            Some(prev) => feed_rebuilt(&mut self.depacketizer, &mut self.video_fec, pkt.header, prev, seq),
            None => {},
        }
        self.last_video_seq = Some(seq);
        let marker = pkt.header.marker;
        let ts = pkt.header.timestamp as u64;
        self.depacketizer.push(pkt);
        let mut out: Vec<MediaOutput> = Vec::new();
        if marker {
            match self.depacketizer.pop_nal() {
                Some(nal) => {
                    let ghost nv = nal@;
                    out.push(MediaOutput::VideoNal { nal, timestamp: ts });
                    proof {
                        assert(output_views(out@) =~= seq![OutputView::VideoNal(nv, ts)]);
                    }
                },
                None => {},
            }
        }
        proof {
            assert(self@ =~= video_step(old(self)@, pkt.header, pkt.payload@).0);
        }
        out
    }

    /// An audio packet: recorded for parity; each skipped packet gives its
    /// rebuilt payload or a loss to conceal, then the packet's payload.
    fn handle_audio(&mut self, pkt: &RtpPacket) -> (out: Vec<MediaOutput>)
        requires
            old(self).wf(),
        ensures
            final(self).wf(),
            final(self).key() == old(self).key(),
            final(self)@ == audio_step(old(self)@, pkt.header, pkt.payload@).0,
            output_views(out@) == audio_step(old(self)@, pkt.header, pkt.payload@).1,
    {
        let seq = pkt.header.sequence_number;
        self.audio_fec.push_media(pkt);
        let ghost groups = self.audio_fec.groups();
        proof {
            assert(groups =~= groups_after_media(old(self)@.audio_groups, seq, pkt.payload@));
        }
        let mut out = match self.last_audio_seq {
            Some(prev) => audio_gap(&mut self.audio_fec, prev, seq),
            None => Vec::new(),
        };
        self.last_audio_seq = Some(seq);
        let ghost before = out@;
        out.push(MediaOutput::Audio(pkt.payload.clone()));
        proof {
            assert(output_views(out@) =~= output_views(before).push(OutputView::Audio(pkt.payload@)));
            assert(self@ =~= audio_step(old(self)@, pkt.header, pkt.payload@).0);
        }
        out
    }

    /// A parity packet, kept by the stream its header names.
    fn handle_fec(&mut self, pkt: &RtpPacket)
        requires
            old(self).wf(),
        ensures
            final(self).wf(),
            final(self).key() == old(self).key(),
            final(self)@ == fec_step(old(self)@, pkt.payload@),
    {
        match FecHeader::parse(pkt.payload.as_slice()) {
            Some(h) => {
                if h.media_pt == PT_VIDEO {
                    self.video_fec.push_fec(pkt);
                } else if h.media_pt == PT_AUDIO {
                    self.audio_fec.push_fec(pkt);
                }
            },
            None => {},
        }
        proof {
            assert(self@ =~= fec_step(old(self)@, pkt.payload@));
        }
    }

    /// Handles one datagram from the media socket and returns what it gives
    /// to decode or conceal.  See `receive_step`.
    pub fn receive(&mut self, datagram: &[u8]) -> (out: Vec<MediaOutput>)
        requires
            old(self).wf(),
            old(self)@.total_packets < u64::MAX,
        ensures
            final(self).wf(),
            final(self).key() == old(self).key(),
            final(self)@ == receive_step(old(self)@, old(self).key(), datagram@).0,
            output_views(out@) == receive_step(old(self)@, old(self).key(), datagram@).1,
            forall|counter: u64, p: Seq<u8>|
                p.len() < MAX_PLAINTEXT_LEN && datagram@.len() == NONCE_COUNTER_LEN + p.len()
                    + TAG_LEN && datagram@ == #[trigger] sealed_packet(
                    old(self).key(),
                    media_prefix(),
                    counter,
                    p,
                ) ==> receive_step(old(self)@, old(self).key(), datagram@) == accept_step(
                    old(self)@,
                    counter,
                    p,
                ),
    {
        let (counter, plaintext) = match self.cipher.open(datagram) {
            Ok(r) => r,
            Err(_) => {
                proof {
                    assert(output_views(Seq::<MediaOutput>::empty()) =~= Seq::<OutputView>::empty());
                }
                return Vec::new();
            },
        };
        if !self.replay_window.check_and_mark(counter) {
            proof {
                assert(output_views(Seq::<MediaOutput>::empty()) =~= Seq::<OutputView>::empty());
                assert(self@ =~= old(self)@);
            }
            return Vec::new();
        }
        let pkt = match RtpPacket::parse(plaintext.as_slice()) {
            Some(p) => p,
            None => {
                proof {
                    assert(output_views(Seq::<MediaOutput>::empty()) =~= Seq::<OutputView>::empty());
                    assert(self@ =~= receive_step(old(self)@, old(self).key(), datagram@).0);
                }
                return Vec::new();
            },
        };
        self.total_packets = self.total_packets + 1;
        if self.total_packets % PRUNE_INTERVAL == 0 {
            match self.last_video_seq {
                Some(q) => self.video_fec.remove_old_groups(q.wrapping_sub(PRUNE_DISTANCE)),
                None => {},
            }
            match self.last_audio_seq {
                Some(q) => self.audio_fec.remove_old_groups(q.wrapping_sub(PRUNE_DISTANCE)),
                None => {},
            }
        }
        let ghost s2 = self@;
        proof {
            let plain = plaintext@;
            let s1 = ReceiverView {
                top: replay_next_top(old(self)@.top, counter),
                seen: replay_next_seen(old(self)@.top, old(self)@.seen, counter),
                ..old(self)@
            };
            assert(s2 =~= prune_step(
                ReceiverView { total_packets: (s1.total_packets + 1) as u64, ..s1 },
            ));
        }
        if pkt.header.payload_type == PT_VIDEO {
            self.handle_video(&pkt)
        } else if pkt.header.payload_type == PT_AUDIO {
            self.handle_audio(&pkt)
        } else if pkt.header.payload_type == PT_FEC {
            self.handle_fec(&pkt);
            proof {
                assert(output_views(Seq::<MediaOutput>::empty()) =~= Seq::<OutputView>::empty());
            }
            Vec::new()
        } else {
            proof {
                assert(output_views(Seq::<MediaOutput>::empty()) =~= Seq::<OutputView>::empty());
            }
            Vec::new()
        }
    }
}


/// A datagram delivered twice is handled once: the second delivery outputs
/// nothing and leaves the receiver as the first left it.
pub proof fn receive_ignores_duplicate(s: ReceiverView, key: Seq<u8>, datagram: Seq<u8>)
    ensures
        receive_step(receive_step(s, key, datagram).0, key, datagram).0 == receive_step(
            s,
            key,
            datagram,
        ).0,
        receive_step(receive_step(s, key, datagram).0, key, datagram).1 == Seq::<OutputView>::empty(),
{
    let s1 = receive_step(s, key, datagram).0;
    match opened_packet(key, media_prefix(), datagram) {
        Err(_) => {},
        Ok((counter, plain)) => {
            if replay_accepts(s.top, s.seen, counter) {
                assert(s1.top == replay_next_top(s.top, counter));
                assert(s1.seen == replay_next_seen(s.top, s.seen, counter));
                assert(s1.seen.contains(counter));
                assert(!replay_accepts(s1.top, s1.seen, counter));
            }
        },
    }
}

/// The plaintext of an RTP packet parses back to its header and payload.
proof fn lemma_packet_parses(h: RtpHeader, payload: Seq<u8>)
    requires
        h.version < 4,
        h.payload_type < 128,
    ensures
        (rtp_header_bytes(h) + payload).len() >= 12,
        rtp_header_from_bytes(rtp_header_bytes(h) + payload) == h,
        (rtp_header_bytes(h) + payload).subrange(12, (rtp_header_bytes(h) + payload).len() as int)
            == payload,
{
    let plain = rtp_header_bytes(h) + payload;
    let hb = rtp_header_bytes(h);
    assert(hb.len() == 12);
    assert forall|i: int| 0 <= i < 12 implies plain[i] == hb[i] by {}
    assert(rtp_header_from_bytes(plain) == rtp_header_from_bytes(hb));
    rtp_header_roundtrip(h);
    assert(plain.subrange(12, plain.len() as int) =~= payload);
}

/// `seq` follows `last` directly (or nothing came before).
pub open spec fn follows(last: Option<u16>, seq: u16) -> bool {
    match last {
        Some(p) => seq as int == (p as int + 1) % 65536,
        None => true,
    }
}

/// An audio packet as the sender builds it, accepted fresh and right after
/// the previous audio packet (or as the first), is handed on exactly as
/// sent.
pub proof fn sent_audio_is_played(s: ReceiverView, counter: u64, seq: u16, ts: u32, payload: Seq<u8>)
    requires
        replay_accepts(s.top, s.seen, counter),
        s.total_packets < u64::MAX,
        follows(s.last_audio_seq, seq),
    ensures
        accept_step(s, counter, packet_bytes((audio_header(seq, ts), payload))).1 == seq![
            OutputView::Audio(payload),
        ],
        accept_step(s, counter, packet_bytes((audio_header(seq, ts), payload))).0.last_audio_seq
            == Some(seq),
{
    let h = audio_header(seq, ts);
    lemma_packet_parses(h, payload);
    let r = accept_step(s, counter, packet_bytes((h, payload)));
    let s1 = ReceiverView {
        top: replay_next_top(s.top, counter),
        seen: replay_next_seen(s.top, s.seen, counter),
        ..s
    };
    let s2 = prune_step(ReceiverView { total_packets: (s1.total_packets + 1) as u64, ..s1 });
    assert(r == audio_step(s2, h, payload));
    assert(gap(s2.last_audio_seq, seq).len() == 0);
    let groups = groups_after_media(s2.audio_groups, seq, payload);
    assert(audio_gap_outputs(groups, gap(s2.last_audio_seq, seq)) =~= Seq::<OutputView>::empty());
    assert(r.1 =~= seq![OutputView::Audio(payload)]);
}

/// Packets accepted in turn, with the counters `counters`: the state after
/// them and their outputs in order.
pub open spec fn accept_run(s: ReceiverView, counters: Seq<u64>, plains: Seq<Seq<u8>>) -> (
    ReceiverView,
    Seq<OutputView>,
)
    decreases plains.len(),
{
    if plains.len() == 0 {
        (s, Seq::empty())
    } else {
        let r1 = accept_step(s, counters[0], plains[0]);
        let r2 = accept_run(r1.0, counters.drop_first(), plains.drop_first());
        (r2.0, r1.1 + r2.1)
    }
}

/// The plaintexts of the video packets of one frame as the sender numbers
/// them from `seq`, one per payload, the last marking the frame's end.
pub open spec fn frame_run(seq: u16, ts: u32, payloads: Seq<Seq<u8>>) -> Seq<Seq<u8>> {
    Seq::new(
        payloads.len(),
        |i: int|
            packet_bytes(
                (video_header(seq_add(seq, i), i == payloads.len() - 1, ts), payloads[i]),
            ),
    )
}

/// The plaintexts of packets.
pub open spec fn packets_bytes(ps: Seq<PacketView>) -> Seq<Seq<u8>> {
    ps.map_values(|p: PacketView| packet_bytes(p))
}

/// Counters that rise strictly, all above `top`.
pub open spec fn fresh_counters(top: u64, counters: Seq<u64>) -> bool {
    &&& forall|i: int, j: int| 0 <= i < j < counters.len() ==> counters[i] < counters[j]
    &&& counters.len() > 0 ==> counters[0] > top
}

proof fn lemma_frame_run(s: ReceiverView, counters: Seq<u64>, seq: u16, ts: u32, payloads: Seq<Seq<u8>>)
    requires
        payloads.len() >= 1,
        counters.len() == payloads.len(),
        fresh_counters(s.top, counters),
        s.total_packets + payloads.len() <= u64::MAX,
        follows(s.last_video_seq, seq),
    ensures
        ({
            let b = depack_run(s.buffer, s.in_fragment, payloads).0;
            accept_run(s, counters, frame_run(seq, ts, payloads)).1 == if b.len() > 0 {
                seq![OutputView::VideoNal(b, ts as u64)]
            } else {
                Seq::<OutputView>::empty()
            }
        }),
    decreases payloads.len(),
{
    let n = payloads.len();
    let plains = frame_run(seq, ts, payloads);
    let h = video_header(seq, n == 1, ts);
    assert(seq_add(seq, 0) == seq);
    assert(plains[0] == packet_bytes((h, payloads[0])));
    lemma_packet_parses(h, payloads[0]);
    let r1 = accept_step(s, counters[0], plains[0]);
    let s1 = ReceiverView {
        top: replay_next_top(s.top, counters[0]),
        seen: replay_next_seen(s.top, s.seen, counters[0]),
        ..s
    };
    let s2 = prune_step(ReceiverView { total_packets: (s1.total_packets + 1) as u64, ..s1 });
    assert(r1 == video_step(s2, h, payloads[0]));
    let groups = groups_after_media(s2.video_groups, seq, payloads[0]);
    assert(gap(s2.last_video_seq, seq) =~= Seq::<u16>::empty());
    assert(rebuilt(groups, Seq::<u16>::empty()) =~= Seq::<Seq<u8>>::empty());
    assert(depack_run(s2.buffer, s2.in_fragment, Seq::<Seq<u8>>::empty()) == (s2.buffer, s2.in_fragment));
    let st = depack_step(s.buffer, s.in_fragment, payloads[0]);
    assert(depack_run(s.buffer, s.in_fragment, payloads) == depack_run(st.0, st.1, payloads.drop_first()));
    if n == 1 {
        assert(payloads.drop_first() =~= Seq::<Seq<u8>>::empty());
        assert(plains.drop_first() =~= Seq::<Seq<u8>>::empty());
        assert(accept_run(r1.0, counters.drop_first(), plains.drop_first()).1 =~= Seq::<OutputView>::empty());
        assert(accept_run(s, counters, plains).1 =~= r1.1);
    } else {
        assert(r1.1 =~= Seq::<OutputView>::empty());
        assert(r1.0.buffer == st.0 && r1.0.in_fragment == st.1);
        assert(r1.0.top == counters[0]);
        assert(r1.0.last_video_seq == Some(seq));
        let next = seq_add(seq, 1);
        let rest = payloads.drop_first();
        assert forall|i: int| 0 <= i < rest.len() implies #[trigger] plains.drop_first()[i] == frame_run(
            next,
            ts,
            rest,
        )[i] by {
            assert(seq_add(seq, i + 1) == seq_add(next, i));
        }
        assert(plains.drop_first() =~= frame_run(next, ts, rest));
        assert(fresh_counters(r1.0.top, counters.drop_first())) by {
            assert(counters[0] < counters[1]);
        }
        lemma_frame_run(r1.0, counters.drop_first(), next, ts, rest);
        assert(accept_run(s, counters, plains).1 =~= r1.1 + accept_run(
            r1.0,
            counters.drop_first(),
            plains.drop_first(),
        ).1);
    }
}

/// `fua_count` pieces cover the data, and one fewer would not.
proof fn lemma_fua_count_ok(data_len: int, piece: int)
    requires
        data_len >= 1,
        piece >= 1,
    ensures
        fua_count_ok(fua_count(data_len, piece), data_len, piece),
{
    let q = fua_count(data_len, piece);
    vstd::arithmetic::div_mod::lemma_fundamental_div_mod(data_len + piece - 1, piece);
    let r = (data_len + piece - 1) % piece;
    assert(piece * q + r == data_len + piece - 1);
    assert(0 <= r < piece) by {
        vstd::arithmetic::div_mod::lemma_mod_bound(data_len + piece - 1, piece);
    }
    assert(q * piece == piece * q) by (nonlinear_arith);
    assert((q - 1) * piece == q * piece - piece) by (nonlinear_arith);
    assert(q >= 1) by (nonlinear_arith)
        requires
            piece * q + r == data_len + piece - 1,
            0 <= r < piece,
            data_len >= 1,
            piece >= 1,
    ;
}

/// A NAL unit of a frame, as the sender sends it (whole, or in FU-A
/// fragments when it does not fit), arrives whole: received in order with
/// fresh counters and right after the previous video packet (or first), its
/// packets output that NAL unit with the frame's timestamp, once.
pub proof fn sent_nal_is_reassembled(
    s: ReceiverView,
    counters: Seq<u64>,
    seq: u16,
    ts: u32,
    nal: Seq<u8>,
)
    requires
        nal.len() >= 1,
        nal.len() <= VIDEO_MTU - 12 ==> nal[0] & 0x1Fu8 != 28u8,
        nal.len() > VIDEO_MTU - 12 ==> nal[0] & 0x80u8 == 0,
        counters.len() == nal_packets(nal, seq, (VIDEO_MTU - 12) as int, ts).len(),
        fresh_counters(s.top, counters),
        s.total_packets + counters.len() <= u64::MAX,
        follows(s.last_video_seq, seq),
    ensures
        accept_run(
            s,
            counters,
            packets_bytes(nal_packets(nal, seq, (VIDEO_MTU - 12) as int, ts)),
        ).1 == seq![OutputView::VideoNal(nal, ts as u64)],
{
    let mp = (VIDEO_MTU - 12) as int;
    let ps = nal_packets(nal, seq, mp, ts);
    let payloads = ps.map_values(|p: PacketView| p.1);
    if nal.len() > mp {
        lemma_fua_count_ok(nal.len() - 1, mp - 2);
    } else {
        assert(payloads =~= seq![nal]);
    }
    assert forall|i: int| 0 <= i < ps.len() implies #[trigger] packets_bytes(ps)[i] == frame_run(
        seq,
        ts,
        payloads,
    )[i] by {
        assert(ps[i] == (video_header(seq_add(seq, i), i == ps.len() - 1, ts), payloads[i]));
    }
    assert(packets_bytes(ps) =~= frame_run(seq, ts, payloads));
    lemma_frame_run(s, counters, seq, ts, payloads);
    h264_packetize_roundtrip(nal, mp, payloads, s.buffer, s.in_fragment);
}

/// The outputs for the audio packets after `prev` and before `seq`: each
/// rebuilt payload, or a loss where the parity groups cannot rebuild it.
fn audio_gap(fec: &mut FecDecoder, prev: u16, seq: u16) -> (out: Vec<MediaOutput>)
    ensures
        final(fec).groups() == old(fec).groups(),
        output_views(out@) == audio_gap_outputs(old(fec).groups(), gap(Some(prev), seq)),
{
    let ghost groups = fec.groups();
    let ghost g = gap(Some(prev), seq);
    let mut out: Vec<MediaOutput> = Vec::new();
    assert(output_views(out@) =~= audio_gap_outputs(groups, g.take(0)));
    let mut s = prev.wrapping_add(1);
    let ghost mut k: int = 0;
    while s != seq
        invariant
            fec.groups() == groups,
            g == gap(Some(prev), seq),
            0 <= k <= g.len(),
            s == ((prev as int + 1 + k) % 65536) as u16,
            output_views(out@) == audio_gap_outputs(groups, g.take(k)),
        decreases g.len() - k,
    {
        proof {
            lemma_gap_position(prev, seq, k);
        }
        let ghost before = out@;
        let r = fec.recover(s);
        let ghost item = match recover_from(groups, s) {
            Some(p) => OutputView::Audio(p),
            None => OutputView::AudioLost,
        };
        match r {
            Some(recovered) => out.push(MediaOutput::Audio(recovered)),
            None => out.push(MediaOutput::AudioLost),
        }
        proof {
            assert(g.take(k).len() == k);
            assert(output_views(before).len() == before.len());
            assert(before.len() == k);
            assert(g.take(k + 1)[k] == s);
            assert(output_view(out@[k]) == item);
            assert(output_views(out@) =~= output_views(before).push(item));
            assert(audio_gap_outputs(groups, g.take(k + 1)) =~= audio_gap_outputs(groups, g.take(k)).push(item));
            lemma_wrapping_next(s, prev, k);
        }
        s = s.wrapping_add(1);
        proof {
            k = k + 1;
        }
    }
    proof {
        lemma_gap_position(prev, seq, k);
        assert(g.take(k) =~= g);
    }
    out
}

/// Feeds the reassembly, in order, the packets after `prev` and before
/// `seq` that the parity groups can rebuild, each with the header `header`.
fn feed_rebuilt(
    depacketizer: &mut H264Depacketizer,
    fec: &mut FecDecoder,
    header: RtpHeader,
    prev: u16,
    seq: u16,
)
    ensures
        final(fec).groups() == old(fec).groups(),
        (final(depacketizer).buffer(), final(depacketizer).in_fragment()) == depack_run(
            old(depacketizer).buffer(),
            old(depacketizer).in_fragment(),
            rebuilt(old(fec).groups(), gap(Some(prev), seq)),
        ),
{
    let ghost groups = fec.groups();
    let ghost g = gap(Some(prev), seq);
    let ghost b0 = depacketizer.buffer();
    let ghost f0 = depacketizer.in_fragment();
    assert(g.take(0) =~= Seq::<u16>::empty());
    let mut s = prev.wrapping_add(1);
    let ghost mut k: int = 0;
    while s != seq
        invariant
            fec.groups() == groups,
            g == gap(Some(prev), seq),
            0 <= k <= g.len(),
            s == ((prev as int + 1 + k) % 65536) as u16,
            (depacketizer.buffer(), depacketizer.in_fragment()) == depack_run(
                b0,
                f0,
                rebuilt(groups, g.take(k)),
            ),
        decreases g.len() - k,
    {
        proof {
            lemma_gap_position(prev, seq, k);
            assert(g.take(k + 1).drop_last() =~= g.take(k));
        }
        match fec.recover(s) {
            Some(recovered) => {
                let recovered_pkt = RtpPacket { header, payload: recovered };
                depacketizer.push(&recovered_pkt);
                proof {
                    lemma_depack_run_push(b0, f0, rebuilt(groups, g.take(k)), recovered_pkt.payload@);
                }
            },
            None => {},
        }
        proof {
            lemma_wrapping_next(s, prev, k);
        }
        s = s.wrapping_add(1);
        proof {
            k = k + 1;
        }
    }
    proof {
        lemma_gap_position(prev, seq, k);
        assert(g.take(k) =~= g);
    }
}

/// Position `k` of the gap after `prev` holds `seq` exactly at its end.
proof fn lemma_gap_position(prev: u16, seq: u16, k: int)
    requires
        0 <= k <= gap(Some(prev), seq).len(),
    ensures
        (((prev as int + 1 + k) % 65536) as u16 == seq) <==> k == gap(Some(prev), seq).len(),
        k < gap(Some(prev), seq).len() ==> gap(Some(prev), seq)[k] == ((prev as int + 1 + k)
            % 65536) as u16,
{
    let n = (seq as int - prev as int - 1) % 65536;
    assert(0 <= n < 65536);
    assert(seq as int == (prev as int + 1 + n) % 65536);
    if k < n {
        assert((prev as int + 1 + k) % 65536 != (prev as int + 1 + n) % 65536);
    }
}

proof fn lemma_wrapping_next(s: u16, prev: u16, k: int)
    requires
        0 <= k,
        s == ((prev as int + 1 + k) % 65536) as u16,
    ensures
        s.wrapping_add(1) == ((prev as int + 1 + (k + 1)) % 65536) as u16,
{
}

proof fn lemma_depack_run_push(b: Seq<u8>, f: bool, xs: Seq<Seq<u8>>, y: Seq<u8>)
    ensures
        depack_run(b, f, xs.push(y)) == depack_step(depack_run(b, f, xs).0, depack_run(b, f, xs).1, y),
    decreases xs.len(),
{
    let ys = xs.push(y);
    if xs.len() == 0 {
        let s1 = depack_step(b, f, y);
        assert(ys.drop_first() =~= Seq::<Seq<u8>>::empty());
        assert(depack_run(s1.0, s1.1, ys.drop_first()) == s1);
        assert(depack_run(b, f, ys) == depack_run(s1.0, s1.1, ys.drop_first()));
    } else {
        let s1 = depack_step(b, f, xs[0]);
        assert(ys[0] == xs[0]);
        assert(ys.drop_first() =~= xs.drop_first().push(y));
        lemma_depack_run_push(s1.0, s1.1, xs.drop_first(), y);
        assert(depack_run(b, f, ys) == depack_run(s1.0, s1.1, ys.drop_first()));
        assert(depack_run(b, f, xs) == depack_run(s1.0, s1.1, xs.drop_first()));
    }
}

/// Pruning behind the last sequence number `last` keeps, in order, exactly
/// the parity groups that start at most 100 (`PRUNE_DISTANCE`) sequence
/// numbers before `last`, or at `last`, or up to `0x7FFF - 100` after it
/// (modulo 2^16); a group that starts just after `last` survives.  With no
/// packet seen yet, nothing is pruned.
pub proof fn prune_keeps_recent_groups(groups: Seq<FecGroupView>, last: u16)
    ensures
        pruned_groups(groups, Some(last)) == groups.filter(
            |g: FecGroupView|
                seq_offset(last, g.base_seq) <= 100 || seq_offset(g.base_seq, last) <= 0x7FFF - 100,
        ),
        pruned_groups(groups, None) == groups,
    decreases groups.len(),
{
    reveal(Seq::filter);
    let keep = |g: FecGroupView|
        seq_offset(last, g.base_seq) <= 100 || seq_offset(g.base_seq, last) <= 0x7FFF - 100;
    if groups.len() > 0 {
        prune_keeps_recent_groups(groups.drop_last(), last);
        lemma_prune_keeps(groups.last().base_seq, last);
        assert(seq_before(groups.last().base_seq, prune_before(last)) == !keep(groups.last()));
    }
}

proof fn lemma_prune_keeps(base: u16, last: u16)
    ensures
        seq_before(base, prune_before(last)) == !(seq_offset(last, base) <= 100 || seq_offset(
            base,
            last,
        ) <= 0x7FFF - 100),
{
    let x = (base as int - last as int) % 65536;
    let b = base as int;
    let l = last as int;
    if b >= l {
        assert(x == b - l);
        assert(seq_offset(last, base) == (l - b) % 65536);
        if b == l {
            assert(seq_offset(last, base) == 0);
        } else {
            assert(seq_offset(last, base) == l - b + 65536);
        }
    } else {
        assert(x == b - l + 65536);
        assert(seq_offset(last, base) == l - b);
    }
}

/// At the receiver: when the accepted-packet count reaches a multiple of
/// 1000 (`PRUNE_INTERVAL`), each stream with a last sequence number `q`
/// keeps exactly its parity groups that start at most 100 before `q` or up
/// to `0x7FFF - 100` after it; between those counts, and
/// for a stream not seen yet, no group is dropped.  Nothing else changes.
pub proof fn receiver_prune_keeps_recent_groups(s: ReceiverView)
    ensures
        ({
            let p = prune_step(s);
            let due = s.total_packets % 1000 == 0;
            &&& p.video_groups == (match s.last_video_seq {
                Some(q) if due => s.video_groups.filter(
                    |g: FecGroupView|
                        seq_offset(q, g.base_seq) <= 100 || seq_offset(g.base_seq, q) <= 0x7FFF - 100,
                ),
                _ => s.video_groups,
            })
            &&& p.audio_groups == (match s.last_audio_seq {
                Some(q) if due => s.audio_groups.filter(
                    |g: FecGroupView|
                        seq_offset(q, g.base_seq) <= 100 || seq_offset(g.base_seq, q) <= 0x7FFF - 100,
                ),
                _ => s.audio_groups,
            })
            &&& p == ReceiverView { video_groups: p.video_groups, audio_groups: p.audio_groups, ..s }
        }),
{
    if let Some(q) = s.last_video_seq {
        prune_keeps_recent_groups(s.video_groups, q);
    }
    if let Some(q) = s.last_audio_seq {
        prune_keeps_recent_groups(s.audio_groups, q);
    }
}

} // verus!


