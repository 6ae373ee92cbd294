use screen_mirror::audio::AudioConfig;
use screen_mirror::encode::{parse_annex_b_nals, parse_avcc_nal_units};
use screen_mirror::sync::{RateAdjustment, SyncState};

#[test]
fn audio_frame_size_10ms_stereo() {
    let c = AudioConfig { sample_rate: 48000, channels: 2, bitrate: 128000, frame_duration_ms: 10 };
    assert_eq!(c.frame_size(), 960);
    let c = AudioConfig { sample_rate: 44100, channels: 1, bitrate: 64000, frame_duration_ms: 5 };
    assert_eq!(c.frame_size(), 220);
}

#[test]
fn annex_b_splits_on_both_start_codes() {
    let data = [0, 0, 0, 1, 0x67, 1, 2, 0, 0, 1, 0x68, 3, 0, 0, 0, 1, 0x65, 4, 5];
    let nals = parse_annex_b_nals(&data);
    assert_eq!(nals, vec![vec![0x67, 1, 2], vec![0x68, 3], vec![0x65, 4, 5]]);
}

#[test]
fn annex_b_without_start_code_is_empty() {
    assert!(parse_annex_b_nals(&[1, 2, 3, 4, 5]).is_empty());
    assert!(parse_annex_b_nals(&[]).is_empty());
    // A start code with nothing after it is not recognised.
    assert!(parse_annex_b_nals(&[0, 0, 1]).is_empty());
}

#[test]
fn annex_b_skips_leading_garbage() {
    let nals = parse_annex_b_nals(&[9, 9, 0, 0, 1, 0x41, 7]);
    assert_eq!(nals, vec![vec![0x41, 7]]);
}

#[test]
fn avcc_length_prefixed_units() {
    let data = [0, 0, 0, 2, 0x67, 1, 0, 0, 0, 1, 0x68, 0, 0, 0, 9, 1];
    let nals = parse_avcc_nal_units(&data, 4);
    assert_eq!(nals, vec![vec![0x67, 1], vec![0x68]]);
    assert_eq!(parse_avcc_nal_units(&[3, 1, 2, 3, 1, 9], 1), vec![vec![1, 2, 3], vec![9]]);
    assert_eq!(parse_avcc_nal_units(&[0, 2, 5], 2), Vec::<Vec<u8>>::new());
}

#[test]
fn sync_speeds_up_audio_when_video_leads() {
    let mut s = SyncState::new();
    assert_eq!(s.rate_adjustment(), RateAdjustment::Nominal);
    s.report_audio_played(48_000);
    s.report_video_rendered(0);
    // 1 s of audio, 1.1 s of video: video ahead by 100 ms.
    s.report_audio_played(96_000);
    s.report_video_rendered(99_000);
    assert_eq!(s.rate_adjustment(), RateAdjustment::SpeedUp);
    // Back within 20 ms: nominal again.
    s.report_audio_played(96_000 + 4_800);
    s.report_video_rendered(99_000);
    assert_eq!(s.rate_adjustment(), RateAdjustment::Nominal);
}

#[test]
fn sync_slows_audio_when_audio_leads_and_holds_in_between() {
    let mut s = SyncState::new();
    s.report_audio_played(1);
    s.report_video_rendered(1000);
    s.report_audio_played(1 + 48_000 + 4_800);
    s.report_video_rendered(1000 + 90_000);
    // Audio ahead by 100 ms.
    assert_eq!(s.rate_adjustment(), RateAdjustment::SlowDown);
    // Drift of -30 ms: between the thresholds, the rate stays.
    s.report_audio_played(1 + 48_000 + 1_440);
    s.report_video_rendered(1000 + 90_000);
    assert_eq!(s.rate_adjustment(), RateAdjustment::SlowDown);
}

#[test]
fn sync_needs_half_a_second_of_data() {
    let mut s = SyncState::new();
    s.report_audio_played(100);
    s.report_video_rendered(0);
    s.report_audio_played(100 + 20_000);
    s.report_video_rendered(90_000);
    assert_eq!(s.rate_adjustment(), RateAdjustment::Nominal);
}

#[test]
fn framed_units_parse_back() {
    let nals: Vec<Vec<u8>> = vec![vec![0x67, 0x42, 0x00, 0x1f, 0x00], vec![0x68, 0xce, 0x00, 0x00], vec![0x65]];
    let mut data = Vec::new();
    for n in &nals {
        data.extend_from_slice(&[0, 0, 0, 1]);
        data.extend_from_slice(n);
    }
    assert_eq!(parse_annex_b_nals(&data), nals);
}
