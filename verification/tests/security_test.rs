use screen_mirror::security::cipher::{Cipher, CipherError};
use screen_mirror::security::keys::SessionKeys;
use screen_mirror::security::pairing::{
    format_pin, generate_pin, receiver_finish, receiver_start, sender_finish, sender_start,
    PairingError,
};

#[test]
fn seal_open_roundtrip() {
    let key = [0x42u8; 32];
    let mut sender = Cipher::new(&key, [0, 0, 0, 0]);
    let receiver = Cipher::new(&key, [0, 0, 0, 0]);
    let plaintext = b"hello world";
    let sealed = sender.seal(plaintext);
    assert_eq!(sealed.len(), 8 + plaintext.len() + 16);
    let (counter, decrypted) = receiver.open(&sealed).unwrap();
    assert_eq!(counter, 0);
    assert_eq!(decrypted, plaintext);
}

#[test]
fn counter_increments() {
    let key = [0xABu8; 32];
    let mut sender = Cipher::new(&key, [0, 0, 0, 1]);
    let s1 = sender.seal(b"first");
    let s2 = sender.seal(b"second");
    let c1 = u64::from_be_bytes(s1[..8].try_into().unwrap());
    let c2 = u64::from_be_bytes(s2[..8].try_into().unwrap());
    assert_eq!(c1, 0);
    assert_eq!(c2, 1);
}

#[test]
fn tampered_packet_fails() {
    let key = [0x99u8; 32];
    let mut sender = Cipher::new(&key, [0, 0, 0, 0]);
    let receiver = Cipher::new(&key, [0, 0, 0, 0]);
    let mut sealed = sender.seal(b"secret");
    sealed[10] ^= 0xFF;
    assert_eq!(receiver.open(&sealed), Err(CipherError::AuthFailed));
}

#[test]
fn wrong_key_fails() {
    let mut sender = Cipher::new(&[0x11u8; 32], [0, 0, 0, 0]);
    let receiver = Cipher::new(&[0x22u8; 32], [0, 0, 0, 0]);
    let sealed = sender.seal(b"data");
    assert_eq!(receiver.open(&sealed), Err(CipherError::AuthFailed));
}

#[test]
fn too_short_fails() {
    let receiver = Cipher::new(&[0u8; 32], [0, 0, 0, 0]);
    assert_eq!(receiver.open(&[0u8; 20]), Err(CipherError::TooShort));
}

#[test]
fn wrong_prefix_fails() {
    let key = [0x33u8; 32];
    let mut sender = Cipher::new(&key, [0, 0, 0, 0]);
    let receiver = Cipher::new(&key, [0, 0, 0, 1]);
    let sealed = sender.seal(b"direction");
    assert_eq!(receiver.open(&sealed), Err(CipherError::AuthFailed));
}

#[test]
fn empty_plaintext_roundtrip_at_minimum_length() {
    let key = [7u8; 32];
    let mut sender = Cipher::new(&key, [1, 2, 3, 4]);
    let receiver = Cipher::new(&key, [1, 2, 3, 4]);
    sender.seal(b"skip");
    let sealed = sender.seal(b"");
    assert_eq!(sealed.len(), 24);
    assert_eq!(&sealed[..8], &[0, 0, 0, 0, 0, 0, 0, 1]);
    assert_eq!(receiver.open(&sealed), Ok((1, Vec::new())));
}

#[test]
fn derive_produces_different_keys() {
    let secret = b"test-shared-secret-from-spake2-plus";
    let keys = SessionKeys::derive(secret);
    assert_ne!(keys.control_key, keys.media_key);
}

#[test]
fn derive_is_deterministic() {
    let secret = b"reproducible";
    let k1 = SessionKeys::derive(secret);
    let k2 = SessionKeys::derive(secret);
    assert_eq!(k1.control_key, k2.control_key);
    assert_eq!(k1.media_key, k2.media_key);
}

#[test]
fn different_secrets_produce_different_keys() {
    let k1 = SessionKeys::derive(b"secret-a");
    let k2 = SessionKeys::derive(b"secret-b");
    assert_ne!(k1.control_key, k2.control_key);
    assert_ne!(k1.media_key, k2.media_key);
}

#[test]
fn matching_pin_succeeds() {
    let pin = "123456";
    let (msg_a, state_a) = sender_start(pin);
    let (msg_b, state_b) = receiver_start(pin);

    let keys_a = sender_finish(state_a, &msg_b).unwrap();
    let keys_b = receiver_finish(state_b, &msg_a).unwrap();

    assert_eq!(keys_a.control_key, keys_b.control_key);
    assert_eq!(keys_a.media_key, keys_b.media_key);
}

#[test]
fn mismatched_pin_produces_different_keys() {
    let (msg_a, state_a) = sender_start("111111");
    let (msg_b, state_b) = receiver_start("222222");

    let keys_a = sender_finish(state_a, &msg_b).unwrap();
    let keys_b = receiver_finish(state_b, &msg_a).unwrap();

    assert_ne!(keys_a.control_key, keys_b.control_key);
}

#[test]
fn generate_pin_is_6_digits() {
    for _ in 0..100 {
        let pin = generate_pin();
        assert_eq!(pin.len(), 6);
        assert!(pin.chars().all(|c| c.is_ascii_digit()));
    }
}

#[test]
fn end_to_end_with_cipher() {
    let pin = "847291";
    let (msg_a, state_a) = sender_start(pin);
    let (msg_b, state_b) = receiver_start(pin);

    let keys_a = sender_finish(state_a, &msg_b).unwrap();
    let keys_b = receiver_finish(state_b, &msg_a).unwrap();

    let mut sender_cipher = Cipher::new(&keys_a.media_key, [0, 0, 0, 1]);
    let receiver_cipher = Cipher::new(&keys_b.media_key, [0, 0, 0, 1]);

    let sealed = sender_cipher.seal(b"rtp-packet-data");
    let (counter, plaintext) = receiver_cipher.open(&sealed).unwrap();
    assert_eq!(counter, 0);
    assert_eq!(plaintext, b"rtp-packet-data");
}

#[test]
fn pairing_messages_carry_side_bytes() {
    let (msg_a, _) = sender_start("000000");
    let (msg_b, _) = receiver_start("000000");
    assert_eq!(msg_a.len(), 33);
    assert_eq!(msg_b.len(), 33);
    assert_eq!(msg_a[0], b'A');
    assert_eq!(msg_b[0], b'B');
}

#[test]
fn pairing_wrong_length_message_fails() {
    let (_, state) = sender_start("123456");
    assert_eq!(sender_finish(state, &[0x42; 10]).err(), Some(PairingError::KeyAgreementFailed));
}

#[test]
fn pairing_same_side_message_fails() {
    let (msg_a1, _) = sender_start("123456");
    let (_, state_a2) = sender_start("123456");
    assert_eq!(sender_finish(state_a2, &msg_a1).err(), Some(PairingError::KeyAgreementFailed));
}

#[test]
fn format_pin_pads_with_zeros() {
    assert_eq!(format_pin(42), "000042");
    assert_eq!(format_pin(0), "000000");
    assert_eq!(format_pin(999_999), "999999");
    assert_eq!(format_pin(120_034), "120034");
}

#[test]
fn kth_seal_opens_to_counter_k() {
    let key = [0x17u8; 32];
    let mut sender = Cipher::new(&key, [0, 0, 0, 1]);
    let receiver = Cipher::new(&key, [0, 0, 0, 1]);
    let mut packets = Vec::new();
    for msg in [&b"first"[..], &b"second"[..], &b"third"[..]] {
        packets.push(sender.seal(msg));
    }
    assert_eq!(sender.next_counter(), 3);
    for (k, p) in packets.iter().enumerate() {
        assert_eq!(&p[..8], &(k as u64).to_be_bytes());
    }
    assert_eq!(receiver.open(&packets[2]).unwrap(), (2, b"third".to_vec()));
    assert_eq!(receiver.open(&packets[0]).unwrap(), (0, b"first".to_vec()));
}

#[test]
fn peer_start_message_is_accepted_by_either_side() {
    let (msg_a, state_a) = sender_start("555555");
    let (msg_b, state_b) = receiver_start("000001");
    assert!(sender_finish(state_a, &msg_b).is_ok());
    assert!(receiver_finish(state_b, &msg_a).is_ok());
}

#[test]
fn pairing_wrong_side_byte_fails() {
    let (_, state) = receiver_start("123456");
    let (mut msg_a, _) = sender_start("123456");
    msg_a[0] = b'B';
    assert_eq!(receiver_finish(state, &msg_a).err(), Some(PairingError::KeyAgreementFailed));
}
