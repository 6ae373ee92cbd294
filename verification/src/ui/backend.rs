//! Decisions of the sender's backend: which user commands it acts on in
//! each phase of a session, how a failed pairing is reported, what the
//! sender offers, and how one encoded frame or audio frame becomes the
//! encrypted datagrams that are sent.  Sockets, threads and the encoders
//! are driven by the caller.

use vstd::prelude::*;
use vstd::string::StringSliceAdditionalSpecFns;
use vstd::utf8::encode_utf8;

use crate::protocol::negotiate::{Offer, OfferAudio, OfferTransport, OfferVideo};
use crate::security::cipher::{sealed_packet, Cipher, MAX_PLAINTEXT_LEN};
use crate::transport::fec::{
    fec_header_bytes,
    fec_payload,
    fec_rtp_header,
    packet_payloads,
    xor_all,
    FecEncoder,
    FecHeader,
};
use crate::transport::rtp::{
    fua_count_ok,
    fua_payload,
    rtp_header_bytes,
    seq_add,
    H264Packetizer,
    RtpHeader,
    RtpPacket,
};
use crate::ui::messages::{BackendEvent, UiCommand};

verus! {

/// Phase of the backend's session with a receiver.
#[derive(Debug, Clone, Copy, PartialEq, Eq, Structural)]
pub enum HandlerPhase {
    /// No session: waiting for a connect command.
    AwaitConnect,
    /// Paired: waiting for the user to start streaming.
    AwaitStart,
    /// Streaming.
    Streaming,
}

/// What the backend does for a command.
#[derive(Debug)]
pub enum HandlerAction<A> {
    /// Ignore the command.
    Ignore,
    /// Look the PIN up among the known receivers.
    LookUpPin { pin: String },
    /// Connect to `addr` and pair with `pin`.
    Pair { addr: A, pin: String },
    /// Negotiate with the paired receiver and start streaming.
    StartStreaming,
    /// Close the paired session and report a disconnection without error.
    CloseSession,
    /// Pause or resume the running stream.
    SetPaused(bool),
    /// Stop the running stream.
    StopStreaming,
}

/// The phase after a command and the action it calls for: a connect
/// starts pairing (a PIN lookup is served) while no session exists; once
/// paired, starting streams and disconnecting closes; while streaming,
/// pause and resume are relayed and disconnecting (or a new connect) stops
/// the stream.  Everything else is ignored.
pub open spec fn command_step<A>(phase: HandlerPhase, cmd: UiCommand<A>) -> (HandlerPhase, HandlerAction<A>) {
    match phase {
        HandlerPhase::AwaitConnect => match cmd {
            UiCommand::Connect { addr, pin } => (
                HandlerPhase::AwaitConnect,
                HandlerAction::Pair { addr, pin },
            ),
            UiCommand::VerifyPin { pin } => (
                HandlerPhase::AwaitConnect,
                HandlerAction::LookUpPin { pin },
            ),
            _ => (HandlerPhase::AwaitConnect, HandlerAction::Ignore),
        },
        HandlerPhase::AwaitStart => match cmd {
            UiCommand::StartStreaming { .. } => (
                HandlerPhase::AwaitStart,
                HandlerAction::StartStreaming,
            ),
            UiCommand::Disconnect => (HandlerPhase::AwaitConnect, HandlerAction::CloseSession),
            _ => (HandlerPhase::AwaitStart, HandlerAction::Ignore),
        },
        HandlerPhase::Streaming => match cmd {
            UiCommand::Pause => (HandlerPhase::Streaming, HandlerAction::SetPaused(true)),
            UiCommand::Resume => (HandlerPhase::Streaming, HandlerAction::SetPaused(false)),
            UiCommand::Disconnect => (HandlerPhase::AwaitConnect, HandlerAction::StopStreaming),
            UiCommand::Connect { .. } => (HandlerPhase::AwaitConnect, HandlerAction::StopStreaming),
            _ => (HandlerPhase::Streaming, HandlerAction::Ignore),
        },
    }
}

/// The backend's session phase.
pub struct CommandHandler {
    pub phase: HandlerPhase,
}

impl CommandHandler {
    pub fn new() -> (h: Self)
        ensures
            h.phase == HandlerPhase::AwaitConnect,
    {
        CommandHandler { phase: HandlerPhase::AwaitConnect }
    }

    /// Takes one command from the user interface.
    pub fn on_command<A>(&mut self, cmd: UiCommand<A>) -> (action: HandlerAction<A>)
        ensures
            (final(self).phase, action) == command_step(old(self).phase, cmd),
    {
        match self.phase {
            HandlerPhase::AwaitConnect => match cmd {
                UiCommand::Connect { addr, pin } => HandlerAction::Pair { addr, pin },
                UiCommand::VerifyPin { pin } => HandlerAction::LookUpPin { pin },
                _ => HandlerAction::Ignore,
            },
            HandlerPhase::AwaitStart => match cmd {
                UiCommand::StartStreaming { .. } => HandlerAction::StartStreaming,
                UiCommand::Disconnect => {
                    self.phase = HandlerPhase::AwaitConnect;
                    HandlerAction::CloseSession
                },
                _ => HandlerAction::Ignore,
            },
            HandlerPhase::Streaming => match cmd {
                UiCommand::Pause => HandlerAction::SetPaused(true),
                UiCommand::Resume => HandlerAction::SetPaused(false),
                UiCommand::Disconnect => {
                    self.phase = HandlerPhase::AwaitConnect;
                    HandlerAction::StopStreaming
                },
                UiCommand::Connect { .. } => {
                    self.phase = HandlerPhase::AwaitConnect;
                    HandlerAction::StopStreaming
                },
                _ => HandlerAction::Ignore,
            },
        }
    }

    /// Pairing finished: on success the session waits for the start; the
    /// event for the user interface is returned (see `pairing_event`).
    pub fn on_pairing_result<A, S>(&mut self, error: Option<String>) -> (event: BackendEvent<A, S>)
        requires
            old(self).phase == HandlerPhase::AwaitConnect,
        ensures
            final(self).phase == (if error is None {
                HandlerPhase::AwaitStart
            } else {
                HandlerPhase::AwaitConnect
            }),
            match error {
                None => event is PairingSuccess,
                Some(msg) => if mentions_timeout(msg@) {
                    event is PairingTimeout
                } else {
                    event == BackendEvent::<A, S>::PairingFailed(msg)
                },
            },
    {
        match error {
            None => {
                self.phase = HandlerPhase::AwaitStart;
                BackendEvent::PairingSuccess
            },
            Some(msg) => pairing_event(msg),
        }
    }

    /// Streaming started (negotiation and the media socket succeeded), or
    /// the session ended because they failed.
    pub fn on_stream_setup(&mut self, started: bool)
        requires
            old(self).phase == HandlerPhase::AwaitStart,
        ensures
            final(self).phase == (if started {
                HandlerPhase::Streaming
            } else {
                HandlerPhase::AwaitConnect
            }),
    {
        self.phase = if started {
            HandlerPhase::Streaming
        } else {
            HandlerPhase::AwaitConnect
        };
    }

    /// The stream ended on its own.
    pub fn on_stream_ended(&mut self)
        ensures
            final(self).phase == HandlerPhase::AwaitConnect,
    {
        self.phase = HandlerPhase::AwaitConnect;
    }
}

/// `s` holds `pat` starting at position `i`.
pub open spec fn occurs_at(s: Seq<u8>, pat: Seq<u8>, i: int) -> bool {
    0 <= i && i + pat.len() <= s.len() && s.subrange(i, i + pat.len()) == pat
}

/// The message speaks of a timeout: its bytes contain those of "timed
/// out" or of "timeout".
pub open spec fn mentions_timeout(msg: Seq<char>) -> bool {
    let b = encode_utf8(msg);
    (exists|i: int| occurs_at(b, "timed out".spec_bytes(), i)) || (exists|i: int|
        occurs_at(b, "timeout".spec_bytes(), i))
}

fn contains_bytes(s: &[u8], pat: &[u8]) -> (r: bool)
    ensures
        r == exists|i: int| occurs_at(s@, pat@, i),
{
    let n = s.len();
    let m = pat.len();
    if m > n {
        assert forall|i: int| !occurs_at(s@, pat@, i) by {}
        return false;
    }
    let mut i: usize = 0;
    while i <= n - m
        invariant
            n == s@.len(),
            m == pat@.len(),
            m <= n,
            i <= n - m + 1,
            forall|k: int| 0 <= k < i ==> !occurs_at(s@, pat@, k),
        decreases n - m + 1 - i,
    {
        let mut j: usize = 0;
        let mut same = true;
        while j < m
            invariant
                n == s@.len(),
                m == pat@.len(),
                i + m <= n,
                j <= m,
                same == forall|t: int| 0 <= t < j ==> s@[i + t] == pat@[t],
            decreases m - j,
        {
            if s[i + j] != pat[j] {
                same = false;
            }
            j = j + 1;
        }
        if same {
            assert(s@.subrange(i as int, i + pat@.len()) =~= pat@);
            assert(occurs_at(s@, pat@, i as int));
            return true;
        }
        assert(!occurs_at(s@, pat@, i as int)) by {
            if occurs_at(s@, pat@, i as int) {
                let t = choose|t: int| 0 <= t < pat@.len() && s@[i + t] != pat@[t];
                assert(s@.subrange(i as int, i + pat@.len())[t] == s@[i + t]);
            }
        }
        i = i + 1;
    }
    assert forall|k: int| !occurs_at(s@, pat@, k) by {
        if k >= i {
            assert(k + pat@.len() > s@.len());
        }
    }
    false
}

/// The event reporting a failed pairing: a timeout when the error message
/// speaks of one, otherwise the failure with its message.
pub fn pairing_event<A, S>(msg: String) -> (event: BackendEvent<A, S>)
    ensures
        if mentions_timeout(msg@) {
            event is PairingTimeout
        } else {
            event == BackendEvent::<A, S>::PairingFailed(msg)
        },
{
    let bytes = msg.as_str().as_bytes();
    if contains_bytes(bytes, "timed out".as_bytes()) || contains_bytes(
        bytes,
        "timeout".as_bytes(),
    ) {
        BackendEvent::PairingTimeout
    } else {
        BackendEvent::PairingFailed(msg)
    }
}


// ── Offer ───────────────────────────────────────────────────────────────────

/// Video bitrate offered for a capture of `pixels` pixels: 15 Mbit/s per
/// 1080p worth of pixels (cut to 32 bits), at most 40 Mbit/s.
pub open spec fn offered_bitrate(pixels: int) -> u32 {
    let b = (pixels * 15_000_000 / 2_073_600int) as u32;
    if b <= 40_000_000 {
        b
    } else {
        40_000_000
    }
}

/// Frame rate offered: 30 above 1920x1200 pixels, 60 otherwise.
pub open spec fn offered_fps(pixels: int) -> u32 {
    if pixels > 1920 * 1200 {
        30
    } else {
        60
    }
}

/// What the sender offers for a capture of `width` x `height` pixels, with
/// its media socket on `udp_port`: H.264 at the capture size with the
/// bitrate and frame rate above, Opus 48 kHz stereo at 128 kbit/s, and FEC
/// groups of six packets.
pub fn sender_offer(width: u32, height: u32, udp_port: u16) -> (offer: Offer)
    requires
        width * height * 15_000_000 <= u64::MAX,
    ensures
        offer.video.codec@ == "h264"@,
        offer.video.width == width,
        offer.video.height == height,
        offer.video.fps == offered_fps(width * height),
        offer.video.bitrate == offered_bitrate(width * height),
        offer.audio.codec@ == "opus"@,
        offer.audio.sample_rate == 48000,
        offer.audio.channels == 2,
        offer.audio.bitrate == 128_000,
        offer.transport.udp_port == udp_port,
        offer.transport.fec_group_size == 6,
{
    let pixels: u64 = width as u64 * height as u64;
    let raw = (pixels * 15_000_000 / (1920 * 1080)) as u32;
    let bitrate = if raw <= 40_000_000 {
        raw
    } else {
        40_000_000
    };
    let fps: u32 = if pixels > 1920 * 1200 {
        30
    } else {
        60
    };
    Offer {
        video: OfferVideo { codec: "h264".to_string(), width, height, fps, bitrate },
        audio: OfferAudio {
            codec: "opus".to_string(),
            sample_rate: 48000,
            channels: 2,
            bitrate: 128_000,
        },
        transport: OfferTransport { udp_port, fec_group_size: 6 },
    }
}

// ── Media sending ───────────────────────────────────────────────────────────

pub const VIDEO_PT: u8 = 96;

pub const AUDIO_PT: u8 = 111;

pub const VIDEO_SSRC: u32 = 0x12345678;

pub const AUDIO_SSRC: u32 = 0x87654321;

/// Largest datagram the video packetizer fills.
pub const VIDEO_MTU: usize = 1400;

/// Nanoseconds per tick of the 90 kHz RTP video clock (rounded).
pub const NS_PER_RTP_TICK: u64 = 11_111;

/// RTP timestamp step of one 10 ms audio frame at 48 kHz.
pub const AUDIO_TS_STEP: u32 = 480;

/// Largest audio payload accepted.
pub const MAX_AUDIO_PAYLOAD: usize = 65_536;

/// A packet as sent: its header and payload bytes.
pub type PacketView = (RtpHeader, Seq<u8>);

pub open spec fn packet_view(p: RtpPacket) -> PacketView {
    (p.header, p.payload@)
}

/// The bytes of a packet on the wire, before encryption.
pub open spec fn packet_bytes(v: PacketView) -> Seq<u8> {
    rtp_header_bytes(v.0) + v.1
}

/// Header of a video packet.
pub open spec fn video_header(seq: u16, marker: bool, ts: u32) -> RtpHeader {
    RtpHeader {
        version: 2,
        padding: false,
        extension: false,
        marker,
        payload_type: VIDEO_PT,
        sequence_number: seq,
        timestamp: ts,
        ssrc: VIDEO_SSRC,
    }
}

/// Header of an audio packet.
pub open spec fn audio_header(seq: u16, ts: u32) -> RtpHeader {
    RtpHeader {
        version: 2,
        padding: false,
        extension: false,
        marker: false,
        payload_type: AUDIO_PT,
        sequence_number: seq,
        timestamp: ts,
        ssrc: AUDIO_SSRC,
    }
}

/// Number of FU-A fragments: `data_len / piece` rounded up.
pub open spec fn fua_count(data_len: int, piece: int) -> int {
    (data_len + piece - 1) / piece
}

/// The video packets of one NAL unit, the first numbered `seq`: the unit
/// whole if it fits in `max_payload` bytes, FU-A fragments otherwise.
pub open spec fn nal_packets(nal: Seq<u8>, seq: u16, max_payload: int, ts: u32) -> Seq<PacketView> {
    if nal.len() <= max_payload {
        seq![(video_header(seq, true, ts), nal)]
    } else {
        let piece = max_payload - 2;
        let n = fua_count(nal.len() - 1, piece);
        Seq::new(
            n as nat,
            |i: int| (video_header(seq_add(seq, i), i == n - 1, ts), fua_payload(nal, piece, i, n)),
        )
    }
}

/// The parity packet, numbered `seq`, of a group of packets.
pub open spec fn parity_packet(group: Seq<PacketView>, seq: u16, media_pt: u8, ssrc: u32) -> PacketView {
    (
        fec_rtp_header(seq, ssrc),
        fec_header_bytes(
            FecHeader {
                base_seq: group[0].0.sequence_number,
                group_len: (group.len() % 256) as u8,
                media_pt,
            },
        ) + xor_all(group.map_values(|v: PacketView| v.1)),
    )
}

/// State of a parity encoder: the packets of the open group and the number
/// of the next parity packet.
pub type FecView = (Seq<PacketView>, u16);

/// Sending packet `p` through a parity encoder: `p` itself, then the
/// parity packet when `p` completes a group of `group_size`.
pub open spec fn fec_send(
    st: FecView,
    group_size: usize,
    media_pt: u8,
    ssrc: u32,
    p: PacketView,
) -> (Seq<PacketView>, FecView) {
    let g = st.0.push(p);
    if g.len() >= group_size {
        (seq![p, parity_packet(g, st.1, media_pt, ssrc)], (Seq::empty(), st.1.wrapping_add(1)))
    } else {
        (seq![p], (g, st.1))
    }
}

/// Sending the first `k` packets of `ps` through a parity encoder.
pub open spec fn fec_send_all(
    st: FecView,
    group_size: usize,
    media_pt: u8,
    ssrc: u32,
    ps: Seq<PacketView>,
    k: int,
) -> (Seq<PacketView>, FecView)
    decreases k,
{
    if k <= 0 {
        (Seq::empty(), st)
    } else {
        let (out, st1) = fec_send_all(st, group_size, media_pt, ssrc, ps, k - 1);
        let (more, st2) = fec_send(st1, group_size, media_pt, ssrc, ps[k - 1]);
        (out + more, st2)
    }
}

/// Closing the open group of a parity encoder: its parity packet, if it
/// holds any packet.
pub open spec fn fec_close(st: FecView, media_pt: u8, ssrc: u32) -> (Seq<PacketView>, FecView) {
    if st.0.len() == 0 {
        (Seq::empty(), st)
    } else {
        (seq![parity_packet(st.0, st.1, media_pt, ssrc)], (Seq::empty(), st.1.wrapping_add(1)))
    }
}

/// The video packets for the first `k` NAL units of a frame, in sending
/// order, with the next video sequence number and parity state after them.
pub open spec fn frame_prefix(
    seq: u16,
    st: FecView,
    group_size: usize,
    fec_ssrc: u32,
    nals: Seq<Seq<u8>>,
    ts: u32,
    k: int,
) -> (Seq<PacketView>, u16, FecView)
    decreases k,
{
    if k <= 0 {
        (Seq::empty(), seq, st)
    } else {
        let (out, seq1, st1) = frame_prefix(seq, st, group_size, fec_ssrc, nals, ts, k - 1);
        let ps = nal_packets(nals[k - 1], seq1, (VIDEO_MTU - 12) as int, ts);
        let (more, st2) = fec_send_all(st1, group_size, VIDEO_PT, fec_ssrc, ps, ps.len() as int);
        (out + more, seq_add(seq1, ps.len() as int), st2)
    }
}

/// The video packets of a whole frame: those of its NAL units, then the
/// parity of the open group, if the frame has any NAL unit.
pub open spec fn frame_packets(
    seq: u16,
    st: FecView,
    group_size: usize,
    fec_ssrc: u32,
    nals: Seq<Seq<u8>>,
    ts: u32,
) -> (Seq<PacketView>, u16, FecView) {
    let (out, seq1, st1) = frame_prefix(seq, st, group_size, fec_ssrc, nals, ts, nals.len() as int);
    if nals.len() == 0 {
        (out, seq1, st1)
    } else {
        let (more, st2) = fec_close(st1, VIDEO_PT, fec_ssrc);
        (out + more, seq1, st2)
    }
}

/// The packets `ps` sealed in turn, with counters from `c0` on.
pub open spec fn seal_seq(key: Seq<u8>, prefix: Seq<u8>, c0: int, ps: Seq<PacketView>) -> Seq<
    Seq<u8>,
> {
    Seq::new(
        ps.len(),
        |k: int| sealed_packet(key, prefix, (c0 + k) as u64, packet_bytes(ps[k])),
    )
}

/// The byte views of datagrams.
pub open spec fn datagram_views(v: Seq<Vec<u8>>) -> Seq<Seq<u8>> {
    v.map_values(|d: Vec<u8>| d@)
}

/// The RTP timestamp of a frame captured at `timestamp_ns`: 90 kHz ticks,
/// cut to 32 bits.
pub open spec fn rtp_timestamp(timestamp_ns: u64) -> u32 {
    (timestamp_ns / NS_PER_RTP_TICK) as u32
}

proof fn lemma_seal_seq_concat(key: Seq<u8>, prefix: Seq<u8>, c0: int, a: Seq<PacketView>, b: Seq<PacketView>)
    ensures
        seal_seq(key, prefix, c0, a + b) == seal_seq(key, prefix, c0, a) + seal_seq(
            key,
            prefix,
            c0 + a.len(),
            b,
        ),
{
    assert(seal_seq(key, prefix, c0, a + b) =~= seal_seq(key, prefix, c0, a) + seal_seq(
        key,
        prefix,
        c0 + a.len(),
        b,
    ));
}

proof fn lemma_fua_count_unique(n: int, data_len: int, piece: int)
    requires
        piece >= 1,
        data_len >= 1,
        fua_count_ok(n, data_len, piece),
    ensures
        n == fua_count(data_len, piece),
{
    let q = fua_count(data_len, piece);
    vstd::arithmetic::div_mod::lemma_fundamental_div_mod(data_len + piece - 1, piece);
    let r = (data_len + piece - 1) % piece;
    assert(q * piece + r == data_len + piece - 1);
    assert(0 <= r < piece);
    if n > q {
        assert((n - 1) * piece >= q * piece) by (nonlinear_arith)
            requires
                n - 1 >= q,
                piece >= 1,
        ;
    } else if n < q {
        assert(n * piece <= (q - 1) * piece) by (nonlinear_arith)
            requires
                n <= q - 1,
                piece >= 1,
        ;
        assert((q - 1) * piece == q * piece - piece) by (nonlinear_arith);
    }
}

proof fn lemma_max_len_at_most(ps: Seq<Seq<u8>>, bound: int)
    requires
        forall|i: int| 0 <= i < ps.len() ==> (#[trigger] ps[i]).len() <= bound,
        bound >= 0,
    ensures
        crate::transport::fec::max_len(ps) <= bound,
    decreases ps.len(),
{
    if ps.len() > 0 {
        assert forall|i: int| 0 <= i < ps.drop_last().len() implies (
        #[trigger] ps.drop_last()[i]).len() <= bound by {
            assert(ps.drop_last()[i] == ps[i]);
        }
        lemma_max_len_at_most(ps.drop_last(), bound);
    }
}

proof fn lemma_fec_send_all_grows(
    st: FecView,
    gs: usize,
    pt: u8,
    ssrc: u32,
    ps: Seq<PacketView>,
    j: int,
    k: int,
)
    requires
        0 <= j <= k,
    ensures
        fec_send_all(st, gs, pt, ssrc, ps, j).0.len() <= fec_send_all(st, gs, pt, ssrc, ps, k).0.len(),
    decreases k - j,
{
    if j < k {
        lemma_fec_send_all_grows(st, gs, pt, ssrc, ps, j, k - 1);
    }
}

proof fn lemma_frame_prefix_grows(
    seq: u16,
    st: FecView,
    gs: usize,
    fec_ssrc: u32,
    nals: Seq<Seq<u8>>,
    ts: u32,
    j: int,
    k: int,
)
    requires
        0 <= j <= k,
    ensures
        frame_prefix(seq, st, gs, fec_ssrc, nals, ts, j).0.len() <= frame_prefix(
            seq,
            st,
            gs,
            fec_ssrc,
            nals,
            ts,
            k,
        ).0.len(),
    decreases k - j,
{
    if j < k {
        lemma_frame_prefix_grows(seq, st, gs, fec_ssrc, nals, ts, j, k - 1);
    }
}

/// Encrypts and frames the media of one streaming session: H.264 frames
/// and Opus frames become RTP packets, parity packets are added per group,
/// and every packet is sealed with the media key in sending order.
pub struct MediaSender {
    cipher: Cipher,
    packetizer: H264Packetizer,
    video_fec: FecEncoder,
    audio_fec: FecEncoder,
    audio_seq: u16,
    audio_ts: u32,
}

pub open spec fn fec_view(e: FecEncoder) -> FecView {
    (e.pending().map_values(|p: RtpPacket| packet_view(p)), e.next_seq())
}

/// The packets of a parity group all carry at most `bound` payload bytes.
pub open spec fn payloads_at_most(ps: Seq<PacketView>, bound: int) -> bool {
    forall|i: int| 0 <= i < ps.len() ==> (#[trigger] ps[i]).1.len() <= bound
}

impl MediaSender {
    pub closed spec fn key(&self) -> Seq<u8> {
        self.cipher.key()
    }

    /// Counter of the next datagram sealed.
    pub closed spec fn counter(&self) -> u64 {
        self.cipher.send_counter()
    }

    /// Sequence number of the next video packet.
    pub closed spec fn video_seq(&self) -> u16 {
        self.packetizer.next_sequence()
    }

    pub closed spec fn video_fec(&self) -> FecView {
        fec_view(self.video_fec)
    }

    pub closed spec fn video_fec_ssrc(&self) -> u32 {
        self.video_fec.ssrc()
    }

    pub closed spec fn audio_fec(&self) -> FecView {
        fec_view(self.audio_fec)
    }

    pub closed spec fn audio_fec_ssrc(&self) -> u32 {
        self.audio_fec.ssrc()
    }

    pub closed spec fn fec_group_size(&self) -> usize {
        self.video_fec.group_size()
    }

    /// Sequence number and timestamp of the next audio packet.
    pub closed spec fn audio_position(&self) -> (u16, u32) {
        (self.audio_seq, self.audio_ts)
    }

    pub closed spec fn wf(&self) -> bool {
        &&& self.cipher.prefix() == seq![0u8, 0u8, 0u8, 1u8]
        &&& self.packetizer.payload_type() == VIDEO_PT
        &&& self.packetizer.ssrc() == VIDEO_SSRC
        &&& self.packetizer.max_payload() == VIDEO_MTU - 12
        &&& self.video_fec.media_pt() == VIDEO_PT
        &&& self.audio_fec.media_pt() == AUDIO_PT
        &&& self.audio_fec.group_size() == self.video_fec.group_size()
        &&& (self.video_fec.pending().len() == 0 || self.video_fec.pending().len()
            < self.video_fec.group_size())
        &&& (self.audio_fec.pending().len() == 0 || self.audio_fec.pending().len()
            < self.audio_fec.group_size())
        &&& payloads_at_most(self.video_fec().0, (VIDEO_MTU - 12) as int)
        &&& payloads_at_most(self.audio_fec().0, MAX_AUDIO_PAYLOAD as int)
    }

    /// A sender for one session: the media key with the sender's nonce
    /// prefix `00 00 00 01`, video packets of at most 1400 bytes, and parity
    /// groups of `fec_group_size` packets for video and for audio.
    pub fn new(media_key: &[u8; 32], fec_group_size: usize) -> (m: Self)
        ensures
            m.wf(),
            m.key() == media_key@,
            m.counter() == 0,
            m.video_seq() == 0,
            m.video_fec() == (Seq::<PacketView>::empty(), 0u16),
            m.audio_fec() == (Seq::<PacketView>::empty(), 0u16),
            m.fec_group_size() == fec_group_size,
            m.audio_position() == (0u16, 0u32),
    {
        let m = MediaSender {
            cipher: Cipher::new(media_key, [0, 0, 0, 1]),
            packetizer: H264Packetizer::new(VIDEO_PT, VIDEO_SSRC, VIDEO_MTU),
            video_fec: FecEncoder::new(fec_group_size, VIDEO_PT),
            audio_fec: FecEncoder::new(fec_group_size, AUDIO_PT),
            audio_seq: 0,
            audio_ts: 0,
        };
        assert(m.cipher.prefix() =~= seq![0u8, 0u8, 0u8, 1u8]);
        assert(m.video_fec().0 =~= Seq::<PacketView>::empty());
        assert(m.audio_fec().0 =~= Seq::<PacketView>::empty());
        m
    }

    /// The datagrams of one encoded audio frame: its RTP packet (next audio
    /// sequence number and timestamp), then the audio parity packet if the
    /// frame completes a group, each sealed in turn.  The audio position
    /// advances by one packet and 480 ticks.
    /// Datagrams sealed so far: the counter the next one is sealed with.
    pub fn datagrams_sealed(&self) -> (n: u64)
        ensures
            n == self.counter(),
    {
        self.cipher.next_counter()
    }

    pub fn audio_datagrams(&mut self, opus_data: &[u8]) -> (out: Vec<Vec<u8>>)
        requires
            old(self).wf(),
            opus_data@.len() <= MAX_AUDIO_PAYLOAD,
            old(self).counter() + 2 <= u64::MAX,
        ensures
            final(self).wf(),
            ({
                let (seq, ts) = old(self).audio_position();
                let (ps, st) = fec_send(
                    old(self).audio_fec(),
                    old(self).fec_group_size(),
                    AUDIO_PT,
                    old(self).audio_fec_ssrc(),
                    (audio_header(seq, ts), opus_data@),
                );
                &&& datagram_views(out@) == seal_seq(
                    old(self).key(),
                    seq![0u8, 0u8, 0u8, 1u8],
                    old(self).counter() as int,
                    ps,
                )
                &&& final(self).audio_fec() == st
                &&& final(self).counter() == old(self).counter() + ps.len()
                &&& final(self).audio_position() == (
                    seq.wrapping_add(1),
                    ts.wrapping_add(AUDIO_TS_STEP),
                )
            }),
            final(self).key() == old(self).key(),
            final(self).video_seq() == old(self).video_seq(),
            final(self).video_fec() == old(self).video_fec(),
            final(self).video_fec_ssrc() == old(self).video_fec_ssrc(),
            final(self).audio_fec_ssrc() == old(self).audio_fec_ssrc(),
            final(self).fec_group_size() == old(self).fec_group_size(),
    {
        let pkt = RtpPacket {
            header: RtpHeader {
                version: 2,
                padding: false,
                extension: false,
                marker: false,
                payload_type: AUDIO_PT,
                sequence_number: self.audio_seq,
                timestamp: self.audio_ts,
                ssrc: AUDIO_SSRC,
            },
            payload: vstd::slice::slice_to_vec(opus_data),
        };
        self.audio_seq = self.audio_seq.wrapping_add(1);
        self.audio_ts = self.audio_ts.wrapping_add(AUDIO_TS_STEP);
        let mut out: Vec<Vec<u8>> = Vec::new();
        send_with_parity(
            &mut self.cipher,
            &mut self.audio_fec,
            &pkt,
            &mut out,
            Ghost(MAX_AUDIO_PAYLOAD as int),
        );
        proof {
            assert(datagram_views(Seq::<Vec<u8>>::empty()) =~= Seq::<Seq<u8>>::empty());
        }
        out
    }

    /// The datagrams of one encoded video frame, in sending order: for each
    /// NAL unit its RTP packets (a single packet or FU-A fragments, all
    /// with the frame's RTP timestamp), each followed by the video parity
    /// packet when it completes a group; after the last NAL unit, the
    /// parity of the group still open.  Every packet is sealed in turn.
    pub fn video_datagrams(&mut self, timestamp_ns: u64, nal_units: &Vec<Vec<u8>>) -> (out: Vec<
        Vec<u8>,
    >)
        requires
            old(self).wf(),
            old(self).counter() + frame_packets(
                old(self).video_seq(),
                old(self).video_fec(),
                old(self).fec_group_size(),
                old(self).video_fec_ssrc(),
                datagram_views(nal_units@),
                rtp_timestamp(timestamp_ns),
            ).0.len() <= u64::MAX,
        ensures
            final(self).wf(),
            ({
                let (ps, seq, st) = frame_packets(
                    old(self).video_seq(),
                    old(self).video_fec(),
                    old(self).fec_group_size(),
                    old(self).video_fec_ssrc(),
                    datagram_views(nal_units@),
                    rtp_timestamp(timestamp_ns),
                );
                &&& datagram_views(out@) == seal_seq(
                    old(self).key(),
                    seq![0u8, 0u8, 0u8, 1u8],
                    old(self).counter() as int,
                    ps,
                )
                &&& final(self).video_seq() == seq
                &&& final(self).video_fec() == st
                &&& final(self).counter() == old(self).counter() + ps.len()
            }),
            final(self).key() == old(self).key(),
            final(self).audio_fec() == old(self).audio_fec(),
            final(self).audio_position() == old(self).audio_position(),
            final(self).video_fec_ssrc() == old(self).video_fec_ssrc(),
            final(self).audio_fec_ssrc() == old(self).audio_fec_ssrc(),
            final(self).fec_group_size() == old(self).fec_group_size(),
    {
        let ts = (timestamp_ns / NS_PER_RTP_TICK) as u32;
        let ghost nals = datagram_views(nal_units@);
        let ghost gs = self.video_fec.group_size();
        let ghost fssrc = self.video_fec.ssrc();
        let ghost seq0 = self.packetizer.next_sequence();
        let ghost st0 = fec_view(self.video_fec);
        let ghost c0 = self.cipher.send_counter() as int;
        let ghost key = self.cipher.key();
        let ghost pfx = self.cipher.prefix();
        let ghost total = frame_packets(seq0, st0, gs, fssrc, nals, ts).0.len();
        let mut out: Vec<Vec<u8>> = Vec::new();
        proof {
            assert(datagram_views(out@) =~= Seq::<Seq<u8>>::empty());
            assert(seal_seq(key, pfx, c0, Seq::<PacketView>::empty()) =~= Seq::<Seq<u8>>::empty());
            lemma_frame_prefix_grows(seq0, st0, gs, fssrc, nals, ts, 0, nals.len() as int);
        }
        let n = nal_units.len();
        let mut i: usize = 0;
        while i < n
            invariant
                n == nal_units@.len(),
                nals == datagram_views(nal_units@),
                i <= n,
                self.wf(),
                self.cipher.key() == key,
                self.cipher.prefix() == pfx,
                pfx == seq![0u8, 0u8, 0u8, 1u8],
                self.video_fec.group_size() == gs,
                self.video_fec.ssrc() == fssrc,
                self.audio_fec == old(self).audio_fec,
                self.audio_seq == old(self).audio_seq,
                self.audio_ts == old(self).audio_ts,
                ts == rtp_timestamp(timestamp_ns),
                c0 + total <= u64::MAX,
                total == frame_packets(seq0, st0, gs, fssrc, nals, ts).0.len(),
                frame_prefix(seq0, st0, gs, fssrc, nals, ts, n as int).0.len() <= total,
                ({
                    let (ps, seq, st) = frame_prefix(seq0, st0, gs, fssrc, nals, ts, i as int);
                    &&& datagram_views(out@) == seal_seq(key, pfx, c0, ps)
                    &&& self.packetizer.next_sequence() == seq
                    &&& fec_view(self.video_fec) == st
                    &&& self.cipher.send_counter() == c0 + ps.len()
                }),
            decreases n - i,
        {
            let ghost pre = frame_prefix(seq0, st0, gs, fssrc, nals, ts, i as int);
            let pkts = self.packetizer.packetize(nal_units[i].as_slice(), ts);
            let ghost ps = nal_packets(nals[i as int], pre.1, (VIDEO_MTU - 12) as int, ts);
            proof {
                let nal = nals[i as int];
                assert(nal == nal_units@[i as int]@);
                if nal.len() > VIDEO_MTU - 12 {
                    lemma_fua_count_unique(pkts@.len() as int, nal.len() - 1, (VIDEO_MTU - 14) as int);
                }
                assert(pkts@.map_values(|p: RtpPacket| packet_view(p)) =~= ps);
                lemma_frame_prefix_grows(seq0, st0, gs, fssrc, nals, ts, i + 1, n as int);
                lemma_fec_send_all_grows(pre.2, gs, VIDEO_PT, fssrc, ps, 0, ps.len() as int);
                assert forall|k: int| 0 <= k < pkts@.len() implies (#[trigger] pkts@[k]).payload@.len()
                    <= VIDEO_MTU - 12 by {
                    assert(packet_view(pkts@[k]) == ps[k]);
                    if nal.len() > VIDEO_MTU - 12 {
                        let piece = (VIDEO_MTU - 14) as int;
                        assert(k * piece <= (k + 1) * piece) by (nonlinear_arith)
                            requires
                                piece >= 0,
                        ;
                    }
                }
            }
            let mut j: usize = 0;
            while j < pkts.len()
                invariant
                    j <= pkts@.len(),
                    pkts@.map_values(|p: RtpPacket| packet_view(p)) == ps,
                    forall|k: int| 0 <= k < pkts@.len() ==> (#[trigger] pkts@[k]).payload@.len()
                        <= VIDEO_MTU - 12,
                    self.wf(),
                    self.cipher.key() == key,
                    self.cipher.prefix() == pfx,
                    self.video_fec.group_size() == gs,
                    self.video_fec.ssrc() == fssrc,
                    self.audio_fec == old(self).audio_fec,
                    self.audio_seq == old(self).audio_seq,
                    self.audio_ts == old(self).audio_ts,
                    self.packetizer.next_sequence() == seq_add(pre.1, ps.len() as int),
                    c0 + pre.0.len() + fec_send_all(pre.2, gs, VIDEO_PT, fssrc, ps, ps.len() as int).0.len()
                        <= u64::MAX,
                    ({
                        let (more, st) = fec_send_all(pre.2, gs, VIDEO_PT, fssrc, ps, j as int);
                        &&& datagram_views(out@) == seal_seq(key, pfx, c0, pre.0 + more)
                        &&& fec_view(self.video_fec) == st
                        &&& self.cipher.send_counter() == c0 + pre.0.len() + more.len()
                    }),
                decreases pkts@.len() - j,
            {
                let ghost prev = fec_send_all(pre.2, gs, VIDEO_PT, fssrc, ps, j as int);
                let ghost step = fec_send(prev.1, gs, VIDEO_PT, fssrc, ps[j as int]);
                proof {
                    assert(packet_view(pkts@[j as int]) == ps[j as int]);
                    lemma_fec_send_all_grows(pre.2, gs, VIDEO_PT, fssrc, ps, j + 1, ps.len() as int);
                }
                let ghost before = out@;
                send_with_parity(
                    &mut self.cipher,
                    &mut self.video_fec,
                    &pkts[j],
                    &mut out,
                    Ghost((VIDEO_MTU - 12) as int),
                );
                proof {
                    lemma_seal_seq_concat(key, pfx, c0, pre.0 + prev.0, step.0);
                    assert(pre.0 + prev.0 + step.0 =~= pre.0 + (prev.0 + step.0));
                }
                j = j + 1;
            }
            proof {
                assert(frame_prefix(seq0, st0, gs, fssrc, nals, ts, i + 1) == (
                    pre.0 + fec_send_all(pre.2, gs, VIDEO_PT, fssrc, ps, ps.len() as int).0,
                    seq_add(pre.1, ps.len() as int),
                    fec_send_all(pre.2, gs, VIDEO_PT, fssrc, ps, ps.len() as int).1,
                ));
            }
            i = i + 1;
        }
        if n > 0 {
            let ghost pre = frame_prefix(seq0, st0, gs, fssrc, nals, ts, n as int);
            let ghost pend = self.video_fec.pending();
            let ghost before = out@;
            match self.video_fec.flush() {
                Some(parity) => {
                    proof {
                        let views = pre.2.0;
                        assert(views == pend.map_values(|p: RtpPacket| packet_view(p)));
                        assert(packet_payloads(pend) =~= views.map_values(|w: PacketView| w.1));
                        let pays = views.map_values(|w: PacketView| w.1);
                        assert forall|k: int| 0 <= k < pays.len() implies (#[trigger] pays[k]).len()
                            <= VIDEO_MTU - 12 by {
                            assert(pays[k] == views[k].1);
                        }
                        lemma_max_len_at_most(pays, (VIDEO_MTU - 12) as int);
                        assert(packet_view(parity) == parity_packet(views, pre.2.1, VIDEO_PT, fssrc));
                        assert(fec_close(pre.2, VIDEO_PT, fssrc).0 =~= seq![
                            parity_packet(views, pre.2.1, VIDEO_PT, fssrc),
                        ]);
                    }
                    seal_into(&mut self.cipher, &parity, &mut out);
                    proof {
                        lemma_seal_seq_concat(key, pfx, c0, pre.0, fec_close(pre.2, VIDEO_PT, fssrc).0);
                        assert(datagram_views(out@) =~= seal_seq(key, pfx, c0, pre.0) + seal_seq(
                            key,
                            pfx,
                            c0 + pre.0.len(),
                            fec_close(pre.2, VIDEO_PT, fssrc).0,
                        ));
                        assert(fec_view(self.video_fec).0 =~= Seq::<PacketView>::empty());
                    }
                },
                None => {
                    proof {
                        assert(pre.0 + Seq::<PacketView>::empty() =~= pre.0);
                    }
                },
            }
        } else {
            proof {
                assert(nals.len() == 0);
            }
        }
        out
    }
}

fn seal_into(cipher: &mut Cipher, pkt: &RtpPacket, out: &mut Vec<Vec<u8>>)
    requires
        old(cipher).send_counter() < u64::MAX,
        pkt.payload@.len() + 12 < MAX_PLAINTEXT_LEN,
    ensures
        final(cipher).key() == old(cipher).key(),
        final(cipher).prefix() == old(cipher).prefix(),
        final(cipher).send_counter() == old(cipher).send_counter() + 1,
        datagram_views(final(out)@) == datagram_views(old(out)@).push(
            sealed_packet(
                old(cipher).key(),
                old(cipher).prefix(),
                old(cipher).send_counter(),
                packet_bytes(packet_view(*pkt)),
            ),
        ),
{
    let bytes = pkt.serialize();
    let d = cipher.seal(bytes.as_slice());
    let ghost before = out@;
    out.push(d);
    assert(datagram_views(out@) =~= datagram_views(before).push(d@));
}

/// Sends one media packet: sealed, then pushed into the parity encoder,
/// whose parity packet, if the group is complete, is sealed next.
fn send_with_parity(
    cipher: &mut Cipher,
    fec: &mut FecEncoder,
    pkt: &RtpPacket,
    out: &mut Vec<Vec<u8>>,
    Ghost(bound): Ghost<int>,
)
    requires
        old(cipher).send_counter() + fec_send(
            fec_view(*old(fec)),
            old(fec).group_size(),
            old(fec).media_pt(),
            old(fec).ssrc(),
            packet_view(*pkt),
        ).0.len() <= u64::MAX,
        0 <= bound,
        bound + 32 < MAX_PLAINTEXT_LEN,
        pkt.payload@.len() <= bound,
        payloads_at_most(fec_view(*old(fec)).0, bound),
        old(fec).pending().len() == 0 || old(fec).pending().len() < old(fec).group_size(),
    ensures
        ({
            let (ps, st) = fec_send(
                fec_view(*old(fec)),
                old(fec).group_size(),
                old(fec).media_pt(),
                old(fec).ssrc(),
                packet_view(*pkt),
            );
            &&& datagram_views(final(out)@) == datagram_views(old(out)@) + seal_seq(
                old(cipher).key(),
                old(cipher).prefix(),
                old(cipher).send_counter() as int,
                ps,
            )
            &&& fec_view(*final(fec)) == st
            &&& final(cipher).send_counter() == old(cipher).send_counter() + ps.len()
        }),
        final(cipher).key() == old(cipher).key(),
        final(cipher).prefix() == old(cipher).prefix(),
        final(fec).group_size() == old(fec).group_size(),
        final(fec).media_pt() == old(fec).media_pt(),
        final(fec).ssrc() == old(fec).ssrc(),
        final(fec).pending().len() == 0 || final(fec).pending().len() < final(fec).group_size(),
        payloads_at_most(fec_view(*final(fec)).0, bound),
{
    let ghost c0 = cipher.send_counter();
    let ghost key = cipher.key();
    let ghost prefix = cipher.prefix();
    let ghost st0 = fec_view(*fec);
    let ghost before = out@;
    let ghost group = fec.pending().push(*pkt);
    let ghost v = packet_view(*pkt);
    let ghost r = fec_send(st0, fec.group_size(), fec.media_pt(), fec.ssrc(), v);
    proof {
        assert(group.map_values(|p: RtpPacket| packet_view(p)) =~= st0.0.push(v));
    }
    seal_into(cipher, pkt, out);
    match fec.push(pkt) {
        Some(parity) => {
            proof {
                let views = st0.0.push(v);
                assert(packet_payloads(group) =~= views.map_values(|w: PacketView| w.1));
                assert(payloads_at_most(views, bound));
                let pays = views.map_values(|w: PacketView| w.1);
                assert forall|i: int| 0 <= i < pays.len() implies (#[trigger] pays[i]).len()
                    <= bound by {
                    assert(pays[i] == views[i].1);
                }
                lemma_max_len_at_most(pays, bound);
                assert(packet_view(parity) == parity_packet(
                    views,
                    st0.1,
                    fec.media_pt(),
                    fec.ssrc(),
                ));
            }
            let ghost mid = out@;
            seal_into(cipher, &parity, out);
            proof {
                assert(datagram_views(out@) =~= datagram_views(before) + seal_seq(
                    key,
                    prefix,
                    c0 as int,
                    r.0,
                ));
                assert(fec_view(*fec).0 =~= Seq::<PacketView>::empty());
            }
        },
        None => {
            proof {
                assert(datagram_views(out@) =~= datagram_views(before) + seal_seq(
                    key,
                    prefix,
                    c0 as int,
                    r.0,
                ));
                assert(fec_view(*fec).0 =~= r.1.0) by {
                    assert forall|i: int| 0 <= i < fec.pending().len() implies packet_view(
                        fec.pending()[i],
                    ) == r.1.0[i] by {
                        assert(crate::transport::fec::same_packet(fec.pending()[i], group[i]));
                    }
                }
            }
        },
    }
}

} // verus!
