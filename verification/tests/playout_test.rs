use screen_mirror::audio::playout::{Playout, FRAME_SAMPLES};
use screen_mirror::transport::jitter::AudioJitterBuffer;

fn frame(start: i32, len: usize) -> Vec<i32> {
    (0..len as i32).map(|i| start + i).collect()
}

#[test]
fn whole_frames_fill_the_request() {
    let mut jb: AudioJitterBuffer<i32> = AudioJitterBuffer::new(8);
    jb.push_frame(&frame(1, FRAME_SAMPLES));
    jb.push_frame(&frame(10_001, FRAME_SAMPLES));
    let mut p: Playout<i32> = Playout::new();
    let mut out = vec![-1i32; 2 * FRAME_SAMPLES];
    p.render(&mut jb, &mut out);
    assert_eq!(&out[..FRAME_SAMPLES], &frame(1, FRAME_SAMPLES)[..]);
    assert_eq!(&out[FRAME_SAMPLES..], &frame(10_001, FRAME_SAMPLES)[..]);
    assert_eq!(jb.level(), 0);
    assert_eq!(p.samples_played(), FRAME_SAMPLES as u64);
}

#[test]
fn leftover_of_a_frame_is_played_next_time() {
    let mut jb: AudioJitterBuffer<i32> = AudioJitterBuffer::new(8);
    jb.push_frame(&frame(1, FRAME_SAMPLES));
    jb.push_frame(&frame(5000, FRAME_SAMPLES));
    let mut p: Playout<i32> = Playout::new();
    let mut a = vec![0i32; 600];
    p.render(&mut jb, &mut a);
    assert_eq!(a, frame(1, 600));
    assert_eq!(jb.level(), 1);
    let mut b = vec![0i32; 600];
    p.render(&mut jb, &mut b);
    let mut expected = frame(601, FRAME_SAMPLES - 600);
    expected.extend(frame(5000, 600 - (FRAME_SAMPLES - 600)));
    assert_eq!(b, expected);
    assert_eq!(jb.level(), 0);
    assert_eq!(p.samples_played(), 600);
}

#[test]
fn underrun_is_filled_with_silence() {
    let mut jb: AudioJitterBuffer<i32> = AudioJitterBuffer::new(8);
    jb.push_frame(&frame(1, FRAME_SAMPLES));
    let mut p: Playout<i32> = Playout::new();
    let mut out = vec![-1i32; FRAME_SAMPLES + 100];
    p.render(&mut jb, &mut out);
    assert_eq!(&out[..FRAME_SAMPLES], &frame(1, FRAME_SAMPLES)[..]);
    assert!(out[FRAME_SAMPLES..].iter().all(|&x| x == 0));
    let mut again = vec![-1i32; 10];
    p.render(&mut jb, &mut again);
    assert_eq!(again, vec![0; 10]);
}

#[test]
fn short_frames_are_padded_and_long_ones_cut() {
    let mut jb: AudioJitterBuffer<i32> = AudioJitterBuffer::new(8);
    jb.push_frame(&frame(1, 10));
    jb.push_frame(&frame(100, FRAME_SAMPLES + 50));
    let mut p: Playout<i32> = Playout::new();
    let mut out = vec![-1i32; 2 * FRAME_SAMPLES];
    p.render(&mut jb, &mut out);
    assert_eq!(&out[..10], &frame(1, 10)[..]);
    assert!(out[10..FRAME_SAMPLES].iter().all(|&x| x == 0));
    assert_eq!(&out[FRAME_SAMPLES..], &frame(100, FRAME_SAMPLES)[..]);
}

#[test]
fn consecutive_requests_play_without_gaps() {
    let mut jb: AudioJitterBuffer<i32> = AudioJitterBuffer::new(16);
    for k in 0..5 {
        jb.push_frame(&frame(k * FRAME_SAMPLES as i32, FRAME_SAMPLES));
    }
    let mut p: Playout<i32> = Playout::new();
    let mut played = Vec::new();
    for n in [512usize, 1000, 7, 960, 1321] {
        let mut out = vec![-1i32; n];
        p.render(&mut jb, &mut out);
        played.extend(out);
    }
    assert_eq!(played, frame(0, 512 + 1000 + 7 + 960 + 1321));
}
