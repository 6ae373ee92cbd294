//! Authenticated encryption of packets with ChaCha20-Poly1305.
//!
//! A sealed packet is `[8-byte big-endian counter | ciphertext | 16-byte
//! tag]`; the 12-byte nonce is the sender's 4-byte prefix followed by the
//! counter, so two directions that share a key never reuse a nonce.

use chacha20poly1305::aead::{Aead, KeyInit};
use chacha20poly1305::{ChaCha20Poly1305, Nonce};
use vstd::prelude::*;

verus! {

pub const TAG_LEN: usize = 16;

pub const NONCE_COUNTER_LEN: usize = 8;

/// Longest plaintext that ChaCha20-Poly1305 accepts: fewer than
/// `u32::MAX` blocks of 64 bytes.
pub const MAX_PLAINTEXT_LEN: u64 = 274_877_906_880;

#[derive(Debug, Clone, Copy, PartialEq, Eq, Structural)]
pub enum CipherError {
    TooShort,
    AuthFailed,
}

impl CipherError {
    /// The error in words.
    pub fn message(&self) -> (m: String)
        ensures
            m@ == match self {
                CipherError::TooShort => "packet too short"@,
                CipherError::AuthFailed => "authentication failed"@,
            },
    {
        match self {
            CipherError::TooShort => "packet too short".to_string(),
            CipherError::AuthFailed => "authentication failed".to_string(),
        }
    }
}

/// Ciphertext followed by the 16-byte tag that ChaCha20-Poly1305 produces
/// for `plaintext` under `key` and `nonce`, without associated data.
pub uninterp spec fn chacha20poly1305_encrypt(
    key: Seq<u8>,
    nonce: Seq<u8>,
    plaintext: Seq<u8>,
) -> Seq<u8>;

/// What ChaCha20-Poly1305 decryption of `ciphertext` (tag included) gives
/// under `key` and `nonce`: the plaintext, or `None` when rejected.
pub uninterp spec fn chacha20poly1305_decrypt(
    key: Seq<u8>,
    nonce: Seq<u8>,
    ciphertext: Seq<u8>,
) -> Option<Seq<u8>>;

/// `ChaCha20Poly1305::encrypt` under a cipher built from `key`.  Claimed:
/// the output is the named encryption and is 16 bytes (the tag) longer
/// than the plaintext.  Plaintexts of `MAX_PLAINTEXT_LEN` bytes or more,
/// which the crate rejects, are excluded.
#[verifier::external_body]
fn aead_encrypt(key: &[u8; 32], nonce: &[u8; 12], plaintext: &[u8]) -> (ct: Vec<u8>)
    requires
        plaintext@.len() < MAX_PLAINTEXT_LEN,
    ensures
        ct@ == chacha20poly1305_encrypt(key@, nonce@, plaintext@),
        ct@.len() == plaintext@.len() + 16,
{
    ChaCha20Poly1305::new(key.into()).encrypt(Nonce::from_slice(nonce), plaintext).expect(
        "plaintext below the length limit",
    )
}

/// `ChaCha20Poly1305::decrypt` under a cipher built from `key`.  Claimed:
/// the outcome is the named decryption; input shorter than the tag is
/// rejected; and the encryption of a plaintext under the same key and nonce
/// decrypts to that plaintext.
#[verifier::external_body]
fn aead_decrypt(key: &[u8; 32], nonce: &[u8; 12], ciphertext: &[u8]) -> (r: Option<Vec<u8>>)
    ensures
        r is None <==> chacha20poly1305_decrypt(key@, nonce@, ciphertext@) is None,
        r is Some ==> chacha20poly1305_decrypt(key@, nonce@, ciphertext@) == Some(r->0@),
        ciphertext@.len() < 16 ==> r is None,
        forall|p: Seq<u8>|
            p.len() < MAX_PLAINTEXT_LEN && ciphertext@ == #[trigger] chacha20poly1305_encrypt(
                key@,
                nonce@,
                p,
            ) ==> r is Some && r->0@ == p,
{
    ChaCha20Poly1305::new(key.into()).decrypt(Nonce::from_slice(nonce), ciphertext).ok()
}

/// Big-endian bytes of a 64-bit value.
pub open spec fn be64(x: u64) -> Seq<u8> {
    seq![
        (x >> 56u64) as u8,
        (x >> 48u64) as u8,
        (x >> 40u64) as u8,
        (x >> 32u64) as u8,
        (x >> 24u64) as u8,
        (x >> 16u64) as u8,
        (x >> 8u64) as u8,
        x as u8,
    ]
}

/// Value of the first eight bytes of `b`, big-endian.
pub open spec fn from_be64(b: Seq<u8>) -> u64 {
    ((b[0] as u64) << 56u64) | ((b[1] as u64) << 48u64) | ((b[2] as u64) << 40u64) | ((
    b[3] as u64) << 32u64) | ((b[4] as u64) << 24u64) | ((b[5] as u64) << 16u64) | ((
    b[6] as u64) << 8u64) | (b[7] as u64)
}

/// Reading eight big-endian bytes back gives the value written.
pub proof fn be64_roundtrip(x: u64)
    ensures
        from_be64(be64(x)) == x,
{
    let b = be64(x);
    assert(((((x >> 56u64) as u8) as u64) << 56u64) | ((((x >> 48u64) as u8) as u64) << 48u64)
        | ((((x >> 40u64) as u8) as u64) << 40u64) | ((((x >> 32u64) as u8) as u64) << 32u64) | ((
    ((x >> 24u64) as u8) as u64) << 24u64) | ((((x >> 16u64) as u8) as u64) << 16u64) | ((((x
        >> 8u64) as u8) as u64) << 8u64) | ((x as u8) as u64) == x) by (bit_vector);
}

/// The nonce: the 4-byte direction prefix, then the counter big-endian.
pub open spec fn nonce_bytes(prefix: Seq<u8>, counter: u64) -> Seq<u8> {
    prefix + be64(counter)
}

/// The packet that sealing `plaintext` with counter `counter` produces.
pub open spec fn sealed_packet(key: Seq<u8>, prefix: Seq<u8>, counter: u64, plaintext: Seq<u8>) -> Seq<u8> {
    be64(counter) + chacha20poly1305_encrypt(key, nonce_bytes(prefix, counter), plaintext)
}

/// What opening `packet` gives: its counter and plaintext, or the error.
pub open spec fn opened_packet(key: Seq<u8>, prefix: Seq<u8>, packet: Seq<u8>) -> Result<
    (u64, Seq<u8>),
    CipherError,
> {
    if packet.len() < 24 {
        Err(CipherError::TooShort)
    } else {
        let counter = from_be64(packet);
        match chacha20poly1305_decrypt(
            key,
            nonce_bytes(prefix, counter),
            packet.subrange(8, packet.len() as int),
        ) {
            Some(p) => Ok((counter, p)),
            None => Err(CipherError::AuthFailed),
        }
    }
}

/// One `seal`: `packet` is `plaintext` sealed under the key and prefix of
/// `before` at its counter, 24 bytes longer than the plaintext, and `after`
/// is `before` with the counter advanced by one.
pub open spec fn seal_step(before: Cipher, plaintext: Seq<u8>, after: Cipher, packet: Seq<u8>) -> bool {
    &&& packet == sealed_packet(before.key(), before.prefix(), before.send_counter(), plaintext)
    &&& packet.len() == NONCE_COUNTER_LEN + plaintext.len() + TAG_LEN
    &&& after.key() == before.key()
    &&& after.prefix() == before.prefix()
    &&& after.send_counter() == before.send_counter() + 1
}

/// What `open` gives for `packet` on `c`: the outcome of
/// [`opened_packet`]; and for a packet sealed under the same key and prefix,
/// the counter and plaintext it was sealed with.
pub open spec fn open_result(
    c: Cipher,
    packet: Seq<u8>,
    r: Result<(u64, Vec<u8>), CipherError>,
) -> bool {
    &&& match r {
        Ok((counter, p)) => opened_packet(c.key(), c.prefix(), packet) == Ok::<
            (u64, Seq<u8>),
            CipherError,
        >((counter, p@)),
        Err(e) => opened_packet(c.key(), c.prefix(), packet) == Err::<(u64, Seq<u8>), CipherError>(
            e,
        ),
    }
    &&& forall|counter: u64, p: Seq<u8>|
        p.len() < MAX_PLAINTEXT_LEN && packet.len() == NONCE_COUNTER_LEN + p.len() + TAG_LEN
            && packet == #[trigger] sealed_packet(c.key(), c.prefix(), counter, p) ==> (r matches Ok(
            (k, q),
        ) && k == counter && q@ == p)
}

/// `states[0]` sealed `plaintexts[0]` into `packets[0]` and became
/// `states[1]`, and so on.
pub open spec fn seal_run(states: Seq<Cipher>, plaintexts: Seq<Seq<u8>>, packets: Seq<Seq<u8>>) -> bool {
    &&& states.len() == plaintexts.len() + 1
    &&& packets.len() == plaintexts.len()
    &&& forall|i: int|
        #![trigger packets[i]]
        0 <= i < plaintexts.len() ==> seal_step(states[i], plaintexts[i], states[i + 1], packets[i])
}

pub struct Cipher {
    key: [u8; 32],
    prefix: [u8; 4],
    send_counter: u64,
}

impl Cipher {
    pub closed spec fn key(&self) -> Seq<u8> {
        self.key@
    }

    /// The 4-byte nonce prefix of this direction.
    pub closed spec fn prefix(&self) -> Seq<u8> {
        self.prefix@
    }

    /// Counter of the next sealed packet.
    pub closed spec fn send_counter(&self) -> u64 {
        self.send_counter
    }

    /// The counter the next sealed packet carries.
    pub fn next_counter(&self) -> (n: u64)
        ensures
            n == self.send_counter(),
    {
        self.send_counter
    }

    pub fn new(key: &[u8; 32], prefix: [u8; 4]) -> (c: Self)
        ensures
            c.key() == key@,
            c.prefix() == prefix@,
            c.send_counter() == 0,
    {
        Cipher { key: *key, prefix, send_counter: 0 }
    }

    fn build_nonce(&self, counter: u64) -> (nonce: [u8; 12])
        ensures
            nonce@ == nonce_bytes(self.prefix@, counter),
    {
        let nonce: [u8; 12] = [
            self.prefix[0],
            self.prefix[1],
            self.prefix[2],
            self.prefix[3],
            (counter >> 56u64) as u8,
            (counter >> 48u64) as u8,
            (counter >> 40u64) as u8,
            (counter >> 32u64) as u8,
            (counter >> 24u64) as u8,
            (counter >> 16u64) as u8,
            (counter >> 8u64) as u8,
            counter as u8,
        ];
        assert(nonce@ =~= nonce_bytes(self.prefix@, counter));
        nonce
    }

    /// Encrypts a plaintext into `[8-byte counter | ciphertext | 16-byte tag]`
    /// and advances the counter.
    pub fn seal(&mut self, plaintext: &[u8]) -> (packet: Vec<u8>)
        requires
            old(self).send_counter() < u64::MAX,
            plaintext@.len() < MAX_PLAINTEXT_LEN,
        ensures
            seal_step(*old(self), plaintext@, *final(self), packet@),
    {
        let counter = self.send_counter;
        self.send_counter = self.send_counter + 1;
        let nonce = self.build_nonce(counter);
        let ct = aead_encrypt(&self.key, &nonce, plaintext);
        let cb: [u8; 8] = [
            (counter >> 56u64) as u8,
            (counter >> 48u64) as u8,
            (counter >> 40u64) as u8,
            (counter >> 32u64) as u8,
            (counter >> 24u64) as u8,
            (counter >> 16u64) as u8,
            (counter >> 8u64) as u8,
            counter as u8,
        ];
        assert(cb@ =~= be64(counter));
        let mut packet: Vec<u8> = Vec::new();
        let mut i: usize = 0;
        while i < 8
            invariant
                i <= 8,
                cb@ == be64(counter),
                packet@ == cb@.subrange(0, i as int),
            decreases 8 - i,
        {
            packet.push(cb[i]);
            i = i + 1;
            assert(packet@ =~= cb@.subrange(0, i as int));
        }
        assert(cb@.subrange(0, 8) =~= cb@);
        let mut j: usize = 0;
        while j < ct.len()
            invariant
                j <= ct@.len(),
                packet@ == be64(counter) + ct@.subrange(0, j as int),
            decreases ct@.len() - j,
        {
            packet.push(ct[j]);
            j = j + 1;
            assert(packet@ =~= be64(counter) + ct@.subrange(0, j as int));
        }
        assert(ct@.subrange(0, ct@.len() as int) =~= ct@);
        packet
    }

    /// Decrypts a packet into its counter and plaintext.  A packet that
    /// `seal` produced under this key and prefix opens to the counter and
    /// plaintext it was sealed with.
    pub fn open(&self, packet: &[u8]) -> (r: Result<(u64, Vec<u8>), CipherError>)
        ensures
            open_result(*self, packet@, r),
    {
        if packet.len() < NONCE_COUNTER_LEN + TAG_LEN {
            return Err(CipherError::TooShort);
        }
        let counter: u64 = ((packet[0] as u64) << 56u64) | ((packet[1] as u64) << 48u64) | ((
        packet[2] as u64) << 40u64) | ((packet[3] as u64) << 32u64) | ((packet[4] as u64)
            << 24u64) | ((packet[5] as u64) << 16u64) | ((packet[6] as u64) << 8u64) | (
        packet[7] as u64);
        let ct = &packet[8..packet.len()];
        let nonce = self.build_nonce(counter);
        let res = aead_decrypt(&self.key, &nonce, ct);
        proof {
            assert forall|c0: u64, p: Seq<u8>|
                p.len() < MAX_PLAINTEXT_LEN && packet@.len() == NONCE_COUNTER_LEN + p.len()
                    + TAG_LEN && packet@ == #[trigger] sealed_packet(
                    self.key(),
                    self.prefix(),
                    c0,
                    p,
                ) implies (res matches Some(q) && counter == c0 && q@ == p) by {
                be64_roundtrip(c0);
                assert(packet@.subrange(0, 8) =~= be64(c0));
                assert(from_be64(packet@) == from_be64(be64(c0)));
                assert(ct@ =~= chacha20poly1305_encrypt(
                    self.key(),
                    nonce_bytes(self.prefix(), c0),
                    p,
                ));
            }
        }
        match res {
            Some(plaintext) => Ok((counter, plaintext)),
            None => Err(CipherError::AuthFailed),
        }
    }
}

/// Sealing from a fresh cipher (counter 0, as `new` leaves it): after `k`
/// seals the counter is `k`, key and prefix unchanged, and the packet of
/// the `i`-th seal (from 0) carries counter `i`.
pub proof fn seal_run_counts(states: Seq<Cipher>, plaintexts: Seq<Seq<u8>>, packets: Seq<Seq<u8>>)
    requires
        seal_run(states, plaintexts, packets),
        states[0].send_counter() == 0,
    ensures
        forall|i: int|
            0 <= i < states.len() ==> #[trigger] states[i].send_counter() == i && states[i].key()
                =~= states[0].key() && states[i].prefix() =~= states[0].prefix(),
        forall|i: int|
            0 <= i < packets.len() ==> #[trigger] packets[i] == sealed_packet(
                states[0].key(),
                states[0].prefix(),
                i as u64,
                plaintexts[i],
            ) && packets[i].subrange(0, 8) == be64(i as u64),
{
    lemma_seal_run_prefix(states, plaintexts, packets, plaintexts.len() as int);
    assert forall|i: int| 0 <= i < states.len() implies #[trigger] states[i].send_counter() == i
        && states[i].key() =~= states[0].key() && states[i].prefix() =~= states[0].prefix() by {
        assert(i <= plaintexts.len());
    }
    assert forall|i: int| 0 <= i < packets.len() implies #[trigger] packets[i] == sealed_packet(
        states[0].key(),
        states[0].prefix(),
        i as u64,
        plaintexts[i],
    ) && packets[i].subrange(0, 8) == be64(i as u64) by {
        assert(seal_step(states[i], plaintexts[i], states[i + 1], packets[i]));
        assert(states[i].send_counter() == i);
        assert(packets[i].subrange(0, 8) =~= be64(i as u64));
    }
}

proof fn lemma_seal_run_prefix(
    states: Seq<Cipher>,
    plaintexts: Seq<Seq<u8>>,
    packets: Seq<Seq<u8>>,
    n: int,
)
    requires
        seal_run(states, plaintexts, packets),
        states[0].send_counter() == 0,
        0 <= n <= plaintexts.len(),
    ensures
        forall|i: int|
            0 <= i <= n ==> #[trigger] states[i].send_counter() == i && states[i].key()
                =~= states[0].key() && states[i].prefix() =~= states[0].prefix(),
    decreases n,
{
    if n > 0 {
        lemma_seal_run_prefix(states, plaintexts, packets, n - 1);
        let j = n - 1;
        assert(seal_step(states[j], plaintexts[j], states[j + 1], packets[j]));
        assert(states[n] == states[j + 1]);
        assert forall|i: int| 0 <= i <= n implies #[trigger] states[i].send_counter() == i
            && states[i].key() =~= states[0].key() && states[i].prefix() =~= states[0].prefix() by {
            if i == n {
                assert(states[i] == states[j + 1]);
            }
        }
    }
}

/// A cipher with the same key and prefix as a fresh sealing cipher opens
/// the packet of its `i`-th seal (from 0) to counter `i` and the plaintext
/// sealed.
pub proof fn open_sealed_in_run(
    states: Seq<Cipher>,
    plaintexts: Seq<Seq<u8>>,
    packets: Seq<Seq<u8>>,
    receiver: Cipher,
    i: int,
    r: Result<(u64, Vec<u8>), CipherError>,
)
    requires
        seal_run(states, plaintexts, packets),
        states[0].send_counter() == 0,
        receiver.key() == states[0].key(),
        receiver.prefix() == states[0].prefix(),
        0 <= i < packets.len(),
        plaintexts[i].len() < MAX_PLAINTEXT_LEN,
        open_result(receiver, packets[i], r),
    ensures
        r matches Ok((k, q)) && k == i && q@ == plaintexts[i],
{
    seal_run_counts(states, plaintexts, packets);
    assert(packets[i] == sealed_packet(
        states[0].key(),
        states[0].prefix(),
        i as u64,
        plaintexts[i],
    ));
    assert(seal_step(states[i], plaintexts[i], states[i + 1], packets[i]));
    assert(packets[i] == sealed_packet(receiver.key(), receiver.prefix(), i as u64, plaintexts[i]));
}

} // verus!

