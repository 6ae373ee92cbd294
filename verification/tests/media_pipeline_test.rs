use screen_mirror::receiver::{pairing_msg_len, receiver_answer, MediaOutput, MediaReceiver};
use screen_mirror::ui::backend::MediaSender;

const KEY: [u8; 32] = [7u8; 32];

#[test]
fn audio_frame_reaches_the_receiver() {
    let mut tx = MediaSender::new(&KEY, 6);
    let mut rx = MediaReceiver::new(&KEY);
    let dgs = tx.audio_datagrams(&[1, 2, 3]);
    assert_eq!(dgs.len(), 1);
    assert_eq!(tx.datagrams_sealed(), 1);
    assert_eq!(rx.receive(&dgs[0]), vec![MediaOutput::Audio(vec![1, 2, 3])]);
    assert_eq!(rx.packets_received(), 1);
}

#[test]
fn duplicate_datagram_is_ignored() {
    let mut tx = MediaSender::new(&KEY, 6);
    let mut rx = MediaReceiver::new(&KEY);
    let dgs = tx.audio_datagrams(&[9, 9]);
    assert_eq!(rx.receive(&dgs[0]).len(), 1);
    assert_eq!(rx.receive(&dgs[0]), vec![]);
    assert_eq!(rx.packets_received(), 1);
}

#[test]
fn tampered_or_foreign_datagrams_are_dropped() {
    let mut tx = MediaSender::new(&KEY, 6);
    let mut rx = MediaReceiver::new(&[8u8; 32]);
    let dgs = tx.audio_datagrams(&[1, 2, 3]);
    assert_eq!(rx.receive(&dgs[0]), vec![]);

    let mut rx = MediaReceiver::new(&KEY);
    let mut bad = dgs[0].clone();
    let last = bad.len() - 1;
    bad[last] ^= 1;
    assert_eq!(rx.receive(&bad), vec![]);
    assert_eq!(rx.receive(&[0u8; 10]), vec![]);
    assert_eq!(rx.packets_received(), 0);
    assert_eq!(rx.receive(&dgs[0]), vec![MediaOutput::Audio(vec![1, 2, 3])]);
}

#[test]
fn lost_audio_is_rebuilt_from_parity() {
    let mut tx = MediaSender::new(&KEY, 2);
    let mut rx = MediaReceiver::new(&KEY);
    let first = tx.audio_datagrams(&[1, 2, 3, 4]);
    let second = tx.audio_datagrams(&[5, 6, 7, 8]);
    let third = tx.audio_datagrams(&[9, 10, 11, 12]);
    assert_eq!(first.len(), 1);
    assert_eq!(second.len(), 2);
    assert_eq!(third.len(), 1);
    // The parity packet arrives first, the second frame never.
    assert_eq!(rx.receive(&second[1]), vec![]);
    assert_eq!(rx.receive(&first[0]), vec![MediaOutput::Audio(vec![1, 2, 3, 4])]);
    assert_eq!(
        rx.receive(&third[0]),
        vec![MediaOutput::Audio(vec![5, 6, 7, 8]), MediaOutput::Audio(vec![9, 10, 11, 12])]
    );
}

#[test]
fn lost_audio_without_parity_is_concealed() {
    let mut tx = MediaSender::new(&KEY, 6);
    let mut rx = MediaReceiver::new(&KEY);
    let a = tx.audio_datagrams(&[1]);
    let _lost_b = tx.audio_datagrams(&[2]);
    let _lost_c = tx.audio_datagrams(&[3]);
    let d = tx.audio_datagrams(&[4]);
    assert_eq!(rx.receive(&a[0]), vec![MediaOutput::Audio(vec![1])]);
    assert_eq!(
        rx.receive(&d[0]),
        vec![MediaOutput::AudioLost, MediaOutput::AudioLost, MediaOutput::Audio(vec![4])]
    );
}

#[test]
fn small_nal_unit_is_output_at_the_frame_end() {
    let mut tx = MediaSender::new(&KEY, 6);
    let mut rx = MediaReceiver::new(&KEY);
    let nal = vec![0x65u8, 1, 2, 3];
    // The packet, then the parity of the group the frame end closes.
    let dgs = tx.video_datagrams(1_000_000_000, &vec![nal.clone()]);
    assert_eq!(dgs.len(), 2);
    assert_eq!(rx.receive(&dgs[0]), vec![MediaOutput::VideoNal { nal, timestamp: 90_000 }]);
    assert_eq!(rx.receive(&dgs[1]), vec![]);
}

#[test]
fn fragmented_nal_unit_is_reassembled() {
    let mut tx = MediaSender::new(&KEY, 6);
    let mut rx = MediaReceiver::new(&KEY);
    let mut nal = vec![0x65u8];
    for i in 0..3000u32 {
        nal.push((i % 251) as u8);
    }
    let dgs = tx.video_datagrams(0, &vec![nal.clone()]);
    assert_eq!(dgs.len(), 4);
    let mut outputs = Vec::new();
    for d in &dgs {
        outputs.extend(rx.receive(d));
    }
    assert_eq!(outputs, vec![MediaOutput::VideoNal { nal, timestamp: 0 }]);
}

#[test]
fn lost_video_fragment_is_rebuilt_from_parity() {
    let mut tx = MediaSender::new(&KEY, 6);
    let mut rx = MediaReceiver::new(&KEY);
    let first = vec![0x65u8, 4, 5];
    let frame_a = tx.video_datagrams(0, &vec![first.clone()]);
    let mut nal = vec![0x41u8];
    for i in 0..2000u32 {
        nal.push((i % 13) as u8);
    }
    // Two fragments, then the parity packet of their group.
    let frame_b = tx.video_datagrams(11_111, &vec![nal.clone()]);
    assert_eq!(frame_b.len(), 3);
    assert_eq!(rx.receive(&frame_a[0]), vec![MediaOutput::VideoNal { nal: first, timestamp: 0 }]);
    assert_eq!(rx.receive(&frame_b[2]), vec![]);
    // The first fragment is lost; the second one completes the frame.
    assert_eq!(rx.receive(&frame_b[1]), vec![MediaOutput::VideoNal { nal, timestamp: 1 }]);
}

#[test]
fn receiver_answers_with_its_limits() {
    let a = receiver_answer(6000);
    assert_eq!(a.video.codec, "h264");
    assert_eq!((a.video.max_width, a.video.max_height, a.video.max_fps), (1920, 1080, 60));
    assert_eq!(a.audio.codec, "opus");
    assert_eq!((a.audio.sample_rate, a.audio.channels), (48000, 2));
    assert_eq!(a.transport.udp_port, 6000);
}

#[test]
fn pairing_message_length_is_bounded() {
    assert_eq!(pairing_msg_len([0, 0, 0, 33]), Some(33));
    assert_eq!(pairing_msg_len([0, 0, 1, 0]), Some(256));
    assert_eq!(pairing_msg_len([0, 0, 1, 1]), None);
    assert_eq!(pairing_msg_len([1, 0, 0, 0]), None);
    assert_eq!(pairing_msg_len([0, 0, 0, 0]), Some(0));
}
