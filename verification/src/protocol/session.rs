//! Framing and encryption of the control channel.
//!
//! On the wire a frame is `[4-byte big-endian length | sealed packet]`.
//! Each side seals with its own nonce prefix (the initiator `00 00 00 00`,
//! the other side `00 00 00 01`) and opens with the peer's; frames longer
//! than 1 MiB are refused, and a counter that does not rise is taken as a
//! replay.  A frame sealed by one side, whose body the other side opens,
//! gives back the message sealed.  The socket itself is driven by the
//! caller.

use vstd::prelude::*;

use crate::security::cipher::{
    be64,
    be64_roundtrip,
    from_be64,
    opened_packet,
    sealed_packet,
    Cipher,
    CipherError,
    MAX_PLAINTEXT_LEN,
    NONCE_COUNTER_LEN,
    TAG_LEN,
};
use crate::security::replay::TcpCounterCheck;

verus! {

/// Longest accepted frame body.
pub const MAX_FRAME_LEN: usize = 1048576;

#[derive(Debug, Clone, Copy, PartialEq, Eq, Structural)]
pub enum ChannelError {
    /// The length prefix announces more than `MAX_FRAME_LEN` bytes.
    FrameTooLarge(u32),
    /// The frame did not decrypt.
    Decrypt(CipherError),
    /// The frame's counter did not rise above the last one accepted.
    Replay(u64),
}

/// Nonce prefix with which a side seals.
pub open spec fn send_prefix_of(is_initiator: bool) -> Seq<u8> {
    if is_initiator {
        seq![0u8, 0u8, 0u8, 0u8]
    } else {
        seq![0u8, 0u8, 0u8, 1u8]
    }
}

/// Big-endian bytes of a 32-bit value.
pub open spec fn be32_bytes(x: u32) -> Seq<u8> {
    seq![(x >> 24u32) as u8, (x >> 16u32) as u8, (x >> 8u32) as u8, x as u8]
}

/// Value of four big-endian bytes.
pub open spec fn from_be32_bytes(b: Seq<u8>) -> u32 {
    ((b[0] as u32) << 24u32) | ((b[1] as u32) << 16u32) | ((b[2] as u32) << 8u32) | (b[3] as u32)
}

/// One `seal_frame`: `frame` is the length prefix and the packet sealed at
/// the sending counter of `before`; `after` has that counter advanced by
/// one and is otherwise `before`.
pub open spec fn seal_frame_step(before: ChannelCrypto, plaintext: Seq<u8>, after: ChannelCrypto, frame: Seq<u8>) -> bool {
    &&& ({
        let packet = sealed_packet(before.key(), before.send_prefix(), before.send_counter(), plaintext);
        frame == be32_bytes((packet.len() % 0x1_0000_0000) as u32) + packet
    })
    &&& frame.len() == 4 + NONCE_COUNTER_LEN + plaintext.len() + TAG_LEN
    &&& after.wf() == before.wf()
    &&& after.key() == before.key()
    &&& after.send_prefix() == before.send_prefix()
    &&& after.recv_prefix() == before.recv_prefix()
    &&& after.send_counter() == before.send_counter() + 1
    &&& after.last_received() == before.last_received()
}

/// One `open_frame` of `body` on `before`: the outcome of opening it with
/// the peer's prefix, refused as a replay unless its counter rises above
/// the last accepted one; a body sealed under the same key and the peer's
/// prefix with a rising counter gives its plaintext.
pub open spec fn open_frame_step(
    before: ChannelCrypto,
    body: Seq<u8>,
    after: ChannelCrypto,
    r: Result<Vec<u8>, ChannelError>,
) -> bool {
    &&& after.wf() == before.wf()
    &&& after.key() == before.key()
    &&& after.send_prefix() == before.send_prefix()
    &&& after.recv_prefix() == before.recv_prefix()
    &&& after.send_counter() == before.send_counter()
    &&& ({
        let opened = opened_packet(before.key(), before.recv_prefix(), body);
        match opened {
            Err(e) => r == Err::<Vec<u8>, ChannelError>(ChannelError::Decrypt(e))
                && after.last_received() == before.last_received(),
            Ok((counter, p)) => {
                let fresh = match before.last_received() {
                    None => true,
                    Some(prev) => counter > prev,
                };
                if fresh {
                    r is Ok && r->Ok_0@ == p && after.last_received() == Some(counter)
                } else {
                    r == Err::<Vec<u8>, ChannelError>(ChannelError::Replay(counter))
                        && after.last_received() == before.last_received()
                }
            },
        }
    })
    &&& forall|counter: u64, p: Seq<u8>|
        p.len() < MAX_PLAINTEXT_LEN && body.len() == NONCE_COUNTER_LEN + p.len() + TAG_LEN && body
            == #[trigger] sealed_packet(before.key(), before.recv_prefix(), counter, p) && (match before.last_received() {
            None => true,
            Some(prev) => counter > prev,
        }) ==> (r matches Ok(q) && q@ == p)
}

pub struct ChannelCrypto {
    send_cipher: Cipher,
    recv_cipher: Cipher,
    counter_check: TcpCounterCheck,
}

impl ChannelCrypto {
    pub closed spec fn key(&self) -> Seq<u8> {
        self.send_cipher.key()
    }

    pub closed spec fn send_prefix(&self) -> Seq<u8> {
        self.send_cipher.prefix()
    }

    pub closed spec fn recv_prefix(&self) -> Seq<u8> {
        self.recv_cipher.prefix()
    }

    /// Counter of the next frame sent.
    pub closed spec fn send_counter(&self) -> u64 {
        self.send_cipher.send_counter()
    }

    /// Counter of the last frame accepted, if any.
    pub closed spec fn last_received(&self) -> Option<u64> {
        self.counter_check.last()
    }

    pub closed spec fn wf(&self) -> bool {
        self.recv_cipher.key() == self.send_cipher.key()
    }

    /// The two ciphers of one side under the control key.
    pub fn new(control_key: &[u8; 32], is_initiator: bool) -> (c: Self)
        ensures
            c.wf(),
            c.key() == control_key@,
            c.send_prefix() == send_prefix_of(is_initiator),
            c.recv_prefix() == send_prefix_of(!is_initiator),
            c.send_counter() == 0,
            c.last_received() == None::<u64>,
    {
        let (send_prefix, recv_prefix): ([u8; 4], [u8; 4]) = if is_initiator {
            ([0u8, 0, 0, 0], [0u8, 0, 0, 1])
        } else {
            ([0u8, 0, 0, 1], [0u8, 0, 0, 0])
        };
        let c = ChannelCrypto {
            send_cipher: Cipher::new(control_key, send_prefix),
            recv_cipher: Cipher::new(control_key, recv_prefix),
            counter_check: TcpCounterCheck::new(),
        };
        assert(c.send_prefix() =~= send_prefix_of(is_initiator));
        assert(c.recv_prefix() =~= send_prefix_of(!is_initiator));
        c
    }

    /// Seals a message into a whole frame: the length of the sealed packet
    /// (modulo 2^32), big-endian, then the packet.
    pub fn seal_frame(&mut self, plaintext: &[u8]) -> (frame: Vec<u8>)
        requires
            old(self).send_counter() < u64::MAX,
            plaintext@.len() < MAX_PLAINTEXT_LEN,
        ensures
            seal_frame_step(*old(self), plaintext@, *final(self), frame@),
    {
        let sealed = self.send_cipher.seal(plaintext);
        let n: usize = sealed.len();
        let len = n as u32;
        let n64: u64 = n as u64;
        assert(len == (n64 % 0x1_0000_0000u64) as u32) by (bit_vector)
            requires
                len == n64 as u32,
        ;
        let lb: [u8; 4] = [(len >> 24u32) as u8, (len >> 16u32) as u8, (len >> 8u32) as u8, len as u8];
        assert(lb@ =~= be32_bytes(len));
        let mut frame: Vec<u8> = Vec::new();
        let mut i: usize = 0;
        while i < 4
            invariant
                i <= 4,
                frame@ == lb@.subrange(0, i as int),
            decreases 4 - i,
        {
            frame.push(lb[i]);
            i = i + 1;
            assert(frame@ =~= lb@.subrange(0, i as int));
        }
        let mut j: usize = 0;
        while j < sealed.len()
            invariant
                j <= sealed@.len(),
                frame@ == lb@ + sealed@.subrange(0, j as int),
            decreases sealed@.len() - j,
        {
            frame.push(sealed[j]);
            j = j + 1;
            assert(frame@ =~= lb@ + sealed@.subrange(0, j as int));
        }
        assert(sealed@.subrange(0, sealed@.len() as int) =~= sealed@);
        assert(lb@.subrange(0, 4) =~= lb@);
        frame
    }

    /// Length of the frame body announced by a 4-byte prefix; more than
    /// `MAX_FRAME_LEN` bytes is refused.
    pub fn frame_body_len(len_bytes: [u8; 4]) -> (r: Result<usize, ChannelError>)
        ensures
            from_be32_bytes(len_bytes@) > MAX_FRAME_LEN ==> r == Err::<usize, ChannelError>(
                ChannelError::FrameTooLarge(from_be32_bytes(len_bytes@)),
            ),
            from_be32_bytes(len_bytes@) <= MAX_FRAME_LEN ==> r == Ok::<usize, ChannelError>(
                from_be32_bytes(len_bytes@) as usize,
            ),
    {
        let len: u32 = ((len_bytes[0] as u32) << 24u32) | ((len_bytes[1] as u32) << 16u32) | ((
        len_bytes[2] as u32) << 8u32) | (len_bytes[3] as u32);
        if len > 1048576u32 {
            Err(ChannelError::FrameTooLarge(len))
        } else {
            Ok(len as usize)
        }
    }

    /// Opens a frame body: decrypts it with the peer's prefix, then accepts
    /// its counter only if it rises above the last accepted one.
    pub fn open_frame(&mut self, body: &[u8]) -> (r: Result<Vec<u8>, ChannelError>)
        requires
            old(self).wf(),
        ensures
            open_frame_step(*old(self), body@, *final(self), r),
    {
        match self.recv_cipher.open(body) {
            Err(e) => Err(ChannelError::Decrypt(e)),
            Ok((counter, plaintext)) => {
                if self.counter_check.check(counter) {
                    Ok(plaintext)
                } else {
                    Err(ChannelError::Replay(counter))
                }
            },
        }
    }
}

/// In-order delivery: frames that a fresh side seals, whose bodies (the
/// frames without their length prefix) a fresh peer under the same key opens
/// in the same order, all open, each to the message sealed in it.
pub proof fn channel_delivers_in_order(
    senders: Seq<ChannelCrypto>,
    receivers: Seq<ChannelCrypto>,
    messages: Seq<Seq<u8>>,
    frames: Seq<Seq<u8>>,
    results: Seq<Result<Vec<u8>, ChannelError>>,
)
    requires
        senders.len() == messages.len() + 1,
        receivers.len() == messages.len() + 1,
        frames.len() == messages.len(),
        results.len() == messages.len(),
        senders[0].send_counter() == 0,
        receivers[0].last_received() == None::<u64>,
        receivers[0].key() == senders[0].key(),
        receivers[0].recv_prefix() == senders[0].send_prefix(),
        forall|i: int|
            #![trigger messages[i]]
            0 <= i < messages.len() ==> messages[i].len() < MAX_PLAINTEXT_LEN && seal_frame_step(
                senders[i],
                messages[i],
                senders[i + 1],
                frames[i],
            ) && open_frame_step(
                receivers[i],
                frames[i].subrange(4, frames[i].len() as int),
                receivers[i + 1],
                results[i],
            ),
    ensures
        forall|i: int|
            0 <= i < messages.len() ==> (#[trigger] results[i] matches Ok(q) && q@ == messages[i]),
{
    lemma_channel_run(senders, receivers, messages, frames, results, messages.len() as int);
    assert forall|i: int| 0 <= i < messages.len() implies (#[trigger] results[i] matches Ok(q) && q@
        == messages[i]) by {
        lemma_channel_step(senders, receivers, messages, frames, results, i);
    }
}

/// The two sides after `i` frames of an in-order exchange.
pub open spec fn channel_run_state(
    sender: ChannelCrypto,
    receiver: ChannelCrypto,
    s0: ChannelCrypto,
    i: int,
) -> bool {
    &&& sender.key() == s0.key()
    &&& sender.send_prefix() == s0.send_prefix()
    &&& sender.send_counter() == i
    &&& receiver.key() == s0.key()
    &&& receiver.recv_prefix() == s0.send_prefix()
    &&& receiver.last_received() == (if i == 0 {
        None::<u64>
    } else {
        Some((i - 1) as u64)
    })
}

proof fn lemma_channel_step(
    senders: Seq<ChannelCrypto>,
    receivers: Seq<ChannelCrypto>,
    messages: Seq<Seq<u8>>,
    frames: Seq<Seq<u8>>,
    results: Seq<Result<Vec<u8>, ChannelError>>,
    i: int,
)
    requires
        senders.len() == messages.len() + 1,
        receivers.len() == messages.len() + 1,
        frames.len() == messages.len(),
        results.len() == messages.len(),
        forall|i: int|
            #![trigger messages[i]]
            0 <= i < messages.len() ==> messages[i].len() < MAX_PLAINTEXT_LEN && seal_frame_step(
                senders[i],
                messages[i],
                senders[i + 1],
                frames[i],
            ) && open_frame_step(
                receivers[i],
                frames[i].subrange(4, frames[i].len() as int),
                receivers[i + 1],
                results[i],
            ),
        0 <= i < messages.len(),
        channel_run_state(senders[i], receivers[i], senders[0], i),
    ensures
        results[i] matches Ok(q) && q@ == messages[i],
        channel_run_state(senders[i + 1], receivers[i + 1], senders[0], i + 1),
{
    let m = messages[i];
    assert(m.len() < MAX_PLAINTEXT_LEN);
    let s = senders[i];
    let rv = receivers[i];
    let c = i as u64;
    let packet = sealed_packet(s.key(), s.send_prefix(), s.send_counter(), m);
    let body = frames[i].subrange(4, frames[i].len() as int);
    assert(body =~= packet);
    assert(packet == sealed_packet(rv.key(), rv.recv_prefix(), c, m));
    assert(body.len() == NONCE_COUNTER_LEN + m.len() + TAG_LEN);
    let r = results[i];
    assert(r matches Ok(q) && q@ == m);
    be64_roundtrip(c);
    assert(packet.subrange(0, 8) =~= be64(c));
    assert(from_be64(packet) == from_be64(be64(c)));
    assert(body.len() >= 24);
    assert(opened_packet(rv.key(), rv.recv_prefix(), body) is Ok);
}

proof fn lemma_channel_run(
    senders: Seq<ChannelCrypto>,
    receivers: Seq<ChannelCrypto>,
    messages: Seq<Seq<u8>>,
    frames: Seq<Seq<u8>>,
    results: Seq<Result<Vec<u8>, ChannelError>>,
    n: int,
)
    requires
        senders.len() == messages.len() + 1,
        receivers.len() == messages.len() + 1,
        frames.len() == messages.len(),
        results.len() == messages.len(),
        senders[0].send_counter() == 0,
        receivers[0].last_received() == None::<u64>,
        receivers[0].key() == senders[0].key(),
        receivers[0].recv_prefix() == senders[0].send_prefix(),
        forall|i: int|
            #![trigger messages[i]]
            0 <= i < messages.len() ==> messages[i].len() < MAX_PLAINTEXT_LEN && seal_frame_step(
                senders[i],
                messages[i],
                senders[i + 1],
                frames[i],
            ) && open_frame_step(
                receivers[i],
                frames[i].subrange(4, frames[i].len() as int),
                receivers[i + 1],
                results[i],
            ),
        0 <= n <= messages.len(),
    ensures
        forall|i: int|
            0 <= i <= n ==> channel_run_state(#[trigger] senders[i], receivers[i], senders[0], i),
    decreases n,
{
    if n == 0 {
        assert forall|i: int| 0 <= i <= n implies channel_run_state(
            #[trigger] senders[i],
            receivers[i],
            senders[0],
            i,
        ) by {
            assert(i == 0);
        }
    } else {
        lemma_channel_run(senders, receivers, messages, frames, results, n - 1);
        let j = n - 1;
        assert(channel_run_state(senders[j], receivers[j], senders[0], j));
        lemma_channel_step(senders, receivers, messages, frames, results, j);
        assert(senders[n] == senders[j + 1]);
        assert(receivers[n] == receivers[j + 1]);
        assert forall|i: int| 0 <= i <= n implies channel_run_state(
            #[trigger] senders[i],
            receivers[i],
            senders[0],
            i,
        ) by {
            if i == n {
                assert(senders[i] == senders[j + 1]);
                assert(receivers[i] == receivers[j + 1]);
            }
        }
    }
}

} // verus!

