use screen_mirror::encode::software::{
    choose_backend, EncoderBackend, EncoderUnavailable, NvencEncoder, X264Encoder, SOFTWARE_QUEUE_LEN,
};
use screen_mirror::encode::EncoderConfig;

fn config() -> EncoderConfig {
    EncoderConfig { width: 1280, height: 720, fps: 30, bitrate: 5_000_000 }
}

#[test]
fn software_encoder_emits_empty_keyframes_in_order() {
    let mut enc = X264Encoder::new(&config());
    assert!(enc.next_encoded().is_none());
    enc.encode(100);
    enc.encode(200);
    let p = enc.next_encoded().unwrap();
    assert!(p.is_keyframe);
    assert!(p.data.is_empty());
    assert!(p.nal_units.is_empty());
    assert_eq!(p.timestamp, 100);
    assert_eq!(enc.next_encoded().unwrap().timestamp, 200);
    assert!(enc.next_encoded().is_none());
}

#[test]
fn software_encoder_drops_frames_when_its_queue_is_full() {
    let mut enc = X264Encoder::new(&config());
    for t in 0..(SOFTWARE_QUEUE_LEN as u64 + 5) {
        enc.encode(t);
    }
    let mut got = Vec::new();
    while let Some(p) = enc.next_encoded() {
        got.push(p.timestamp);
    }
    assert_eq!(got, (0..SOFTWARE_QUEUE_LEN as u64).collect::<Vec<_>>());
}

#[test]
fn nvenc_is_unavailable() {
    assert!(matches!(NvencEncoder::new(&config()), Err(EncoderUnavailable::Nvenc)));
}

#[test]
fn backend_choice_prefers_hardware() {
    assert_eq!(choose_backend(true, true), EncoderBackend::Nvenc);
    assert_eq!(choose_backend(true, false), EncoderBackend::Nvenc);
    assert_eq!(choose_backend(false, true), EncoderBackend::MediaFoundation);
    assert_eq!(choose_backend(false, false), EncoderBackend::Software);
}
