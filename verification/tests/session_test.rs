use screen_mirror::protocol::session::{ChannelCrypto, ChannelError};
use screen_mirror::receiver::{MediaOutput, MediaReceiver};
use screen_mirror::security::cipher::CipherError;
use screen_mirror::security::pairing;
use screen_mirror::ui::backend::MediaSender;

fn body(frame: &[u8]) -> &[u8] {
    let len = u32::from_be_bytes(frame[..4].try_into().unwrap()) as usize;
    assert_eq!(len, frame.len() - 4);
    &frame[4..]
}

#[test]
fn frames_cross_between_initiator_and_responder() {
    let key = [0x42u8; 32];
    let mut client = ChannelCrypto::new(&key, true);
    let mut server = ChannelCrypto::new(&key, false);

    let f = client.seal_frame(b"hello server");
    assert_eq!(server.open_frame(body(&f)), Ok(b"hello server".to_vec()));

    let f = server.seal_frame(b"hello client");
    assert_eq!(client.open_frame(body(&f)), Ok(b"hello client".to_vec()));
}

#[test]
fn many_frames_in_order() {
    let key = [0xAAu8; 32];
    let mut client = ChannelCrypto::new(&key, true);
    let mut server = ChannelCrypto::new(&key, false);
    let frames: Vec<Vec<u8>> = (0..10).map(|i| client.seal_frame(format!("message {i}").as_bytes())).collect();
    for (i, f) in frames.iter().enumerate() {
        assert_eq!(server.open_frame(body(f)).unwrap(), format!("message {i}").as_bytes());
    }
}

#[test]
fn replayed_frame_rejected() {
    let key = [1u8; 32];
    let mut client = ChannelCrypto::new(&key, true);
    let mut server = ChannelCrypto::new(&key, false);
    let f0 = client.seal_frame(b"a");
    let f1 = client.seal_frame(b"b");
    assert!(server.open_frame(body(&f1)).is_ok());
    assert_eq!(server.open_frame(body(&f0)), Err(ChannelError::Replay(0)));
    assert_eq!(server.open_frame(body(&f1)), Err(ChannelError::Replay(1)));
}

#[test]
fn own_frame_does_not_open() {
    let key = [2u8; 32];
    let mut client = ChannelCrypto::new(&key, true);
    let f = client.seal_frame(b"loop");
    assert_eq!(client.open_frame(body(&f)), Err(ChannelError::Decrypt(CipherError::AuthFailed)));
    assert_eq!(client.open_frame(&[0u8; 10]), Err(ChannelError::Decrypt(CipherError::TooShort)));
}

#[test]
fn frame_length_limit() {
    assert_eq!(ChannelCrypto::frame_body_len([0, 0x10, 0, 0]), Ok(1_048_576));
    assert_eq!(
        ChannelCrypto::frame_body_len([0, 0x10, 0, 1]),
        Err(ChannelError::FrameTooLarge(1_048_577))
    );
    assert_eq!(ChannelCrypto::frame_body_len([0, 0, 0, 24]), Ok(24));
}

#[test]
fn paired_sides_share_control_and_media_keys() {
    let pin = "482910";
    let (msg_a, sender_state) = pairing::sender_start(pin);
    let (msg_b, receiver_state) = pairing::receiver_start(pin);
    let receiver_keys = pairing::receiver_finish(receiver_state, &msg_a).unwrap();
    let sender_keys = pairing::sender_finish(sender_state, &msg_b).unwrap();

    let mut client = ChannelCrypto::new(&sender_keys.control_key, true);
    let mut server = ChannelCrypto::new(&receiver_keys.control_key, false);
    let f = client.seal_frame(b"{\"type\":\"ping\"}");
    assert_eq!(server.open_frame(body(&f)).unwrap(), b"{\"type\":\"ping\"}".to_vec());
    let f = server.seal_frame(b"{\"type\":\"pong\"}");
    assert_eq!(client.open_frame(body(&f)).unwrap(), b"{\"type\":\"pong\"}".to_vec());

    let mut tx = MediaSender::new(&sender_keys.media_key, 6);
    let mut rx = MediaReceiver::new(&receiver_keys.media_key);
    let d = tx.audio_datagrams(b"payload");
    assert_eq!(rx.receive(&d[0]), vec![MediaOutput::Audio(b"payload".to_vec())]);
}

#[test]
fn frames_open_in_order_to_their_messages() {
    let key = [0x33u8; 32];
    let mut client = ChannelCrypto::new(&key, true);
    let mut server = ChannelCrypto::new(&key, false);
    let msgs: [&[u8]; 3] = [b"hello", b"", b"third message"];
    let frames: Vec<Vec<u8>> = msgs.iter().map(|m| client.seal_frame(m)).collect();
    for (f, m) in frames.iter().zip(msgs.iter()) {
        assert_eq!(server.open_frame(body(f)).unwrap(), m.to_vec());
    }
}
