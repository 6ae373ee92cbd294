use screen_mirror::transport::jitter::AudioJitterBuffer;

#[test]
fn test_jitter_buffer_basic_push_pull() {
    let mut buf = AudioJitterBuffer::new(4);
    let frame1 = vec![1.0f32; 480];
    let frame2 = vec![2.0f32; 480];

    buf.push_frame(&frame1);
    buf.push_frame(&frame2);

    let mut out = vec![0.0f32; 480];
    assert!(buf.pull_frame(&mut out));
    assert_eq!(out[0], 1.0);

    assert!(buf.pull_frame(&mut out));
    assert_eq!(out[0], 2.0);

    assert!(!buf.pull_frame(&mut out));
}

#[test]
fn test_jitter_buffer_overflow_drops_oldest() {
    let mut buf = AudioJitterBuffer::new(2);
    buf.push_frame(&vec![1.0f32; 480]);
    buf.push_frame(&vec![2.0f32; 480]);
    buf.push_frame(&vec![3.0f32; 480]);

    let mut out = vec![0.0f32; 480];
    assert!(buf.pull_frame(&mut out));
    assert_eq!(out[0], 2.0);

    assert!(buf.pull_frame(&mut out));
    assert_eq!(out[0], 3.0);
}

#[test]
fn test_jitter_buffer_level() {
    let mut buf = AudioJitterBuffer::new(4);
    assert_eq!(buf.level(), 0);
    buf.push_frame(&vec![0.0f32; 480]);
    assert_eq!(buf.level(), 1);
    buf.push_frame(&vec![0.0f32; 480]);
    assert_eq!(buf.level(), 2);
    let mut out = vec![0.0f32; 480];
    buf.pull_frame(&mut out);
    assert_eq!(buf.level(), 1);
}

#[test]
fn jitter_short_frame_padded_with_silence() {
    let mut buf = AudioJitterBuffer::new(2);
    buf.push_frame(&[0.5f32, 0.25]);
    let mut out = vec![9.0f32; 4];
    assert!(buf.pull_frame(&mut out));
    assert_eq!(out, vec![0.5, 0.25, 0.0, 0.0]);
}

#[test]
fn jitter_long_frame_truncated() {
    let mut buf = AudioJitterBuffer::new(2);
    buf.push_frame(&[1.0f32, 2.0, 3.0]);
    let mut out = vec![0.0f32; 2];
    assert!(buf.pull_frame(&mut out));
    assert_eq!(out, vec![1.0, 2.0]);
}

#[test]
fn jitter_clear_and_is_empty() {
    let mut buf = AudioJitterBuffer::new(3);
    assert!(buf.is_empty());
    buf.push_frame(&[1i16, 2]);
    assert!(!buf.is_empty());
    buf.clear();
    assert!(buf.is_empty());
    assert_eq!(buf.level(), 0);
}

#[test]
fn jitter_level_never_exceeds_capacity() {
    let mut buf = AudioJitterBuffer::new(3);
    for i in 0..10 {
        buf.push_frame(&[i as f32]);
        assert!(buf.level() <= 3);
    }
    let mut out = [0.0f32; 1];
    assert!(buf.pull_frame(&mut out));
    assert_eq!(out[0], 7.0);
}
