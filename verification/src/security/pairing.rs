//! PIN pairing: a SPAKE2 exchange over Ed25519 between the sender (side A)
//! and the receiver (side B), with the 6-digit PIN as password; its shared
//! secret is turned into session keys.

use rand::Rng;
use spake2::{Ed25519Group, Identity, Password, Spake2};
use vstd::prelude::*;

use crate::security::keys::{control_info, hkdf_sha256_okm32, media_info, SessionKeys};
use vstd::string::StringSliceAdditionalSpecFns;
use crate::text::ascii_to_string;

verus! {

/// A running `Spake2<Ed25519Group>` exchange, as the crate keeps it between
/// `start_a`/`start_b` and `finish`: its random scalar, password scalar and
/// transcript.  The value is opaque here; what the library needs to know of
/// it is kept beside it in [`PairingState`].
#[verifier::external_body]
pub struct Spake2Session {
    state: Spake2<Ed25519Group>,
}

#[verifier::external_type_specification]
#[verifier::external_body]
pub struct ExSpake2Error(spake2::Error);

/// One side of a pairing between `start` and `finish`: the SPAKE2 exchange
/// together with the inputs it was started with (password, both
/// identities, which side) and the message it sent.  Only the start
/// functions of this module build one.
pub struct PairingState {
    session: Spake2Session,
    password: Vec<u8>,
    id_a: Vec<u8>,
    id_b: Vec<u8>,
    side_a: bool,
    own_msg: Vec<u8>,
}

impl PairingState {
    /// The password the exchange was started with.
    pub closed spec fn password_bytes(self) -> Seq<u8> {
        self.password@
    }

    /// The identity of side A.
    pub closed spec fn id_a_bytes(self) -> Seq<u8> {
        self.id_a@
    }

    /// The identity of side B.
    pub closed spec fn id_b_bytes(self) -> Seq<u8> {
        self.id_b@
    }

    /// Whether this is side A (the sender).
    pub closed spec fn is_side_a(self) -> bool {
        self.side_a
    }

    /// The message this side sent to its peer.
    pub closed spec fn own_message(self) -> Seq<u8> {
        self.own_msg@
    }
}

/// Length of a SPAKE2 message over Ed25519: a side byte and a 32-byte
/// group element.
pub const SPAKE2_MSG_LEN: usize = 33;

/// Whether 32 bytes are the compressed encoding of an Ed25519 point
/// (`CompressedEdwardsY::decompress` gives `Some`).
pub uninterp spec fn ed25519_element_decodes(bytes: Seq<u8>) -> bool;

/// The shared secret that `Spake2::<Ed25519Group>::finish` returns for
/// `password`, identities `id_a` and `id_b`, side A's message `msg_a` and
/// side B's message `msg_b` (both with their side bytes).  The group element
/// in it is fixed by the password and the two messages, so the secret is a
/// function of these values.
pub uninterp spec fn spake2_secret(
    password: Seq<u8>,
    id_a: Seq<u8>,
    id_b: Seq<u8>,
    msg_a: Seq<u8>,
    msg_b: Seq<u8>,
) -> Seq<u8>;

/// The side byte a side expects in its peer's message: `'B'` for side A,
/// `'A'` for side B.
pub open spec fn peer_side_byte(side_a: bool) -> u8 {
    if side_a {
        0x42u8
    } else {
        0x41u8
    }
}

/// A well-formed start message of one side: 33 bytes, the side byte
/// (`'A'` or `'B'`), then a point encoding.
pub open spec fn start_message(msg: Seq<u8>, side_a: bool) -> bool {
    &&& msg.len() == SPAKE2_MSG_LEN
    &&& msg[0] == (if side_a {
        0x41u8
    } else {
        0x42u8
    })
    &&& ed25519_element_decodes(msg.subrange(1, 33))
}

/// Whether `state` accepts `peer_msg` as its peer's message.
pub open spec fn pairing_accepts(state: PairingState, peer_msg: Seq<u8>) -> bool {
    &&& peer_msg.len() == SPAKE2_MSG_LEN
    &&& peer_msg[0] == peer_side_byte(state.is_side_a())
    &&& ed25519_element_decodes(peer_msg.subrange(1, 33))
}

/// The shared secret of `state` with its peer's message `peer_msg`: the
/// messages go in side A, side B order.
pub open spec fn pairing_secret(state: PairingState, peer_msg: Seq<u8>) -> Seq<u8> {
    if state.is_side_a() {
        spake2_secret(
            state.password_bytes(),
            state.id_a_bytes(),
            state.id_b_bytes(),
            state.own_message(),
            peer_msg,
        )
    } else {
        spake2_secret(
            state.password_bytes(),
            state.id_a_bytes(),
            state.id_b_bytes(),
            peer_msg,
            state.own_message(),
        )
    }
}

/// The session keys derived from `secret`.
pub open spec fn keys_from_secret(keys: SessionKeys, secret: Seq<u8>) -> bool {
    &&& keys.control_key@ == hkdf_sha256_okm32(secret, control_info())
    &&& keys.media_key@ == hkdf_sha256_okm32(secret, media_info())
}

/// What finishing `state` with `peer_msg` gives: keys exactly when the
/// message is accepted, derived from the shared secret of the exchange;
/// otherwise the one pairing error.
pub open spec fn finish_result(
    state: PairingState,
    peer_msg: Seq<u8>,
    r: Result<SessionKeys, PairingError>,
) -> bool {
    &&& (r is Ok <==> pairing_accepts(state, peer_msg))
    &&& match r {
        Ok(keys) => keys_from_secret(keys, pairing_secret(state, peer_msg)),
        Err(e) => e == PairingError::KeyAgreementFailed,
    }
}

/// Identity bytes of the sender side.
pub open spec fn sender_id() -> Seq<u8> {
    "sender".spec_bytes()
}

/// Identity bytes of the receiver side.
pub open spec fn receiver_id() -> Seq<u8> {
    "receiver".spec_bytes()
}

/// The state a start function leaves: password `pin`, identities
/// `"sender"` and `"receiver"`, the given side, and its own message `msg`.
pub open spec fn started(state: PairingState, pin: Seq<u8>, side_a: bool, msg: Seq<u8>) -> bool {
    &&& state.password_bytes() == pin
    &&& state.id_a_bytes() == sender_id()
    &&& state.id_b_bytes() == receiver_id()
    &&& state.is_side_a() == side_a
    &&& state.own_message() == msg
    &&& start_message(msg, side_a)
}

#[derive(Debug, Clone, Copy, PartialEq, Eq, Structural)]
pub enum PairingError {
    KeyAgreementFailed,
}

impl PairingError {
    /// The error in words.
    pub fn message(&self) -> (m: String)
        ensures
            m@ == "SPAKE2 key agreement failed (wrong PIN?)"@,
    {
        "SPAKE2 key agreement failed (wrong PIN?)".to_string()
    }
}

/// `Spake2::<Ed25519Group>::start_a` with the given password and
/// identities, kept with those inputs.  The state depends on a random
/// scalar, which is not stated.  Claimed of the outbound message what the
/// crate builds: the side byte `'A'` and the compressed encoding of a point
/// (33 bytes), which decompresses again.
#[verifier::external_body]
fn spake2_start_a(password: &[u8], id_a: &[u8], id_b: &[u8]) -> (r: (PairingState, Vec<u8>))
    ensures
        r.0.password_bytes() == password@,
        r.0.id_a_bytes() == id_a@,
        r.0.id_b_bytes() == id_b@,
        r.0.is_side_a(),
        r.0.own_message() == r.1@,
        r.1@.len() == 33,
        r.1@[0] == 0x41u8,
        ed25519_element_decodes(r.1@.subrange(1, 33)),
{
    let (state, msg) = Spake2::<Ed25519Group>::start_a(
        &Password::new(password),
        &Identity::new(id_a),
        &Identity::new(id_b),
    );
    let session = Spake2Session { state };
    let own = msg.clone();
    (PairingState { session, password: password.to_vec(), id_a: id_a.to_vec(), id_b: id_b.to_vec(), side_a: true, own_msg: own }, msg)
}

/// `Spake2::<Ed25519Group>::start_b` with the given password and
/// identities, kept with those inputs.  Claimed of the outbound message: the
/// side byte `'B'` and the compressed encoding of a point (33 bytes).
#[verifier::external_body]
fn spake2_start_b(password: &[u8], id_a: &[u8], id_b: &[u8]) -> (r: (PairingState, Vec<u8>))
    ensures
        r.0.password_bytes() == password@,
        r.0.id_a_bytes() == id_a@,
        r.0.id_b_bytes() == id_b@,
        !r.0.is_side_a(),
        r.0.own_message() == r.1@,
        r.1@.len() == 33,
        r.1@[0] == 0x42u8,
        ed25519_element_decodes(r.1@.subrange(1, 33)),
{
    let (state, msg) = Spake2::<Ed25519Group>::start_b(
        &Password::new(password),
        &Identity::new(id_a),
        &Identity::new(id_b),
    );
    let session = Spake2Session { state };
    let own = msg.clone();
    (PairingState { session, password: password.to_vec(), id_a: id_a.to_vec(), id_b: id_b.to_vec(), side_a: false, own_msg: own }, msg)
}

/// `Spake2::finish`.  Claimed, as the crate's source shows: the message is
/// refused exactly when it is not 33 bytes long, does not carry the peer's
/// side byte, or its last 32 bytes are no point encoding; otherwise the
/// result is the 32-byte shared secret of the exchange.
#[verifier::external_body]
fn spake2_finish(state: PairingState, msg: &[u8]) -> (r: Result<Vec<u8>, spake2::Error>)
    ensures
        r is Ok <==> (msg@.len() == 33 && msg@[0] == peer_side_byte(state.is_side_a())
            && ed25519_element_decodes(msg@.subrange(1, 33))),
        r is Ok && state.is_side_a() ==> r->Ok_0@ == spake2_secret(
            state.password_bytes(),
            state.id_a_bytes(),
            state.id_b_bytes(),
            state.own_message(),
            msg@,
        ),
        r is Ok && !state.is_side_a() ==> r->Ok_0@ == spake2_secret(
            state.password_bytes(),
            state.id_a_bytes(),
            state.id_b_bytes(),
            msg@,
            state.own_message(),
        ),
        r is Ok ==> r->Ok_0@.len() == 32,
{
    state.session.state.finish(msg)
}

/// Identity of the sender side.
fn sender_identity() -> (id: &'static str)
    ensures
        id@ == "sender"@,
{
    "sender"
}

/// Identity of the receiver side.
fn receiver_identity() -> (id: &'static str)
    ensures
        id@ == "receiver"@,
{
    "receiver"
}

/// Starts pairing on the sender side (SPAKE2 side A, password the PIN's
/// bytes): the message for the receiver and the state to finish with.
pub fn sender_start(pin: &str) -> (r: (Vec<u8>, PairingState))
    ensures
        started(r.1, pin.spec_bytes(), true, r.0@),
{
    let (state, outbound_msg) = spake2_start_a(
        pin.as_bytes(),
        sender_identity().as_bytes(),
        receiver_identity().as_bytes(),
    );
    (outbound_msg, state)
}

/// Starts pairing on the receiver side (SPAKE2 side B, password the PIN's
/// bytes): the message for the sender and the state to finish with.
pub fn receiver_start(pin: &str) -> (r: (Vec<u8>, PairingState))
    ensures
        started(r.1, pin.spec_bytes(), false, r.0@),
{
    let (state, outbound_msg) = spake2_start_b(
        pin.as_bytes(),
        sender_identity().as_bytes(),
        receiver_identity().as_bytes(),
    );
    (outbound_msg, state)
}

/// Completes the exchange with the peer's message; the session keys come
/// from the shared secret.
fn finish(state: PairingState, inbound_msg: &[u8]) -> (r: Result<SessionKeys, PairingError>)
    ensures
        finish_result(state, inbound_msg@, r),
{
    match spake2_finish(state, inbound_msg) {
        Ok(shared_secret) => {
            let keys = SessionKeys::derive(shared_secret.as_slice());
            Ok(keys)
        },
        Err(_) => Err(PairingError::KeyAgreementFailed),
    }
}

/// Completes pairing on the sender side with the receiver's message.
pub fn sender_finish(state: PairingState, inbound_msg: &[u8]) -> (r: Result<
    SessionKeys,
    PairingError,
>)
    ensures
        finish_result(state, inbound_msg@, r),
{
    finish(state, inbound_msg)
}

/// Completes pairing on the receiver side with the sender's message.
pub fn receiver_finish(state: PairingState, inbound_msg: &[u8]) -> (r: Result<
    SessionKeys,
    PairingError,
>)
    ensures
        finish_result(state, inbound_msg@, r),
{
    finish(state, inbound_msg)
}

/// A sender and a receiver that started with the same PIN and each finished
/// with the other's message get the same session keys; each side accepts
/// the other's start message.
pub proof fn matching_pins_agree(
    sender: PairingState,
    receiver: PairingState,
    pin: Seq<u8>,
    msg_a: Seq<u8>,
    msg_b: Seq<u8>,
    keys_a: Result<SessionKeys, PairingError>,
    keys_b: Result<SessionKeys, PairingError>,
)
    requires
        started(sender, pin, true, msg_a),
        started(receiver, pin, false, msg_b),
        finish_result(sender, msg_b, keys_a),
        finish_result(receiver, msg_a, keys_b),
    ensures
        keys_a is Ok,
        keys_b is Ok,
        keys_a->Ok_0.control_key@ == keys_b->Ok_0.control_key@,
        keys_a->Ok_0.media_key@ == keys_b->Ok_0.media_key@,
{
}

// ── PIN ─────────────────────────────────────────────────────────────────────

/// `rand::thread_rng().gen_range(0..bound)`: uniformly random below
/// `bound`.  Claimed: the result is below `bound`; an empty range, on which
/// the crate panics, is excluded.
#[verifier::external_body]
fn random_below(bound: u32) -> (n: u32)
    requires
        bound > 0,
    ensures
        n < bound,
{
    rand::thread_rng().gen_range(0..bound)
}

/// Decimal digit `k` (0 = most significant) of `n` written with six digits.
pub open spec fn pin_digit(n: u32, k: int) -> char {
    (48 + (n as int / pow10(5 - k)) % 10) as char
}

/// `10^e` for small `e`.
pub open spec fn pow10(e: int) -> int
    decreases e,
{
    if e <= 0 {
        1
    } else {
        10 * pow10(e - 1)
    }
}

/// The six characters of `n`, zero-padded: `format!("{n:06}")`.
pub open spec fn pin_chars(n: u32) -> Seq<char> {
    Seq::new(6, |k: int| pin_digit(n, k))
}

/// The PIN for a number below one million, zero-padded to six digits.
pub fn format_pin(n: u32) -> (pin: String)
    requires
        n < 1_000_000,
    ensures
        pin@ == pin_chars(n),
{
    let mut bytes: Vec<u8> = Vec::new();
    let mut div: u32 = 100_000;
    let mut k: usize = 0;
    proof {
        reveal_with_fuel(pow10, 6);
    }
    while k < 6
        invariant
            k <= 6,
            div as int == pow10(5 - k),
            bytes@.len() == k,
            forall|i: int| 0 <= i < k ==> bytes@[i] < 128 && (#[trigger] bytes@[i]) as char
                == pin_digit(n, i),
        decreases 6 - k,
    {
        proof {
            reveal_with_fuel(pow10, 6);
        }
        let d = (n / div) % 10;
        bytes.push(48u8 + d as u8);
        if k < 5 {
            div = div / 10;
        }
        k = k + 1;
    }
    let pin = ascii_to_string(bytes);
    assert(pin@ =~= pin_chars(n));
    pin
}

/// A random 6-digit PIN.
pub fn generate_pin() -> (pin: String)
    ensures
        exists|n: u32| n < 1_000_000 && pin@ == pin_chars(n),
{
    let n = random_below(1_000_000);
    format_pin(n)
}

} // verus!
