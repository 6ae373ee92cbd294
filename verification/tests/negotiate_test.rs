use screen_mirror::protocol::negotiate::{
    Answer, AnswerAudio, AnswerTransport, AnswerVideo, NegotiatedParams, Offer, OfferAudio,
    OfferTransport, OfferVideo,
};

fn sample_offer() -> Offer {
    Offer {
        video: OfferVideo {
            codec: "h264".to_string(),
            width: 2560,
            height: 1440,
            fps: 60,
            bitrate: 20_000_000,
        },
        audio: OfferAudio {
            codec: "opus".to_string(),
            sample_rate: 48000,
            channels: 2,
            bitrate: 128_000,
        },
        transport: OfferTransport {
            udp_port: 5004,
            fec_group_size: 6,
        },
    }
}

fn sample_answer() -> Answer {
    Answer {
        video: AnswerVideo {
            codec: "h264".to_string(),
            max_width: 1920,
            max_height: 1080,
            max_fps: 60,
        },
        audio: AnswerAudio {
            codec: "opus".to_string(),
            sample_rate: 48000,
            channels: 2,
        },
        transport: AnswerTransport { udp_port: 5004 },
    }
}

#[test]
fn resolve_takes_min() {
    let offer = sample_offer();
    let answer = sample_answer();
    let params = NegotiatedParams::resolve(&offer, &answer);
    assert_eq!(params.video_width, 1920);
    assert_eq!(params.video_height, 1080);
    assert_eq!(params.video_fps, 60);
}

#[test]
fn resolve_keeps_offered_bitrates_and_ports() {
    let mut offer = sample_offer();
    offer.video.width = 1280;
    offer.video.fps = 30;
    offer.audio.channels = 1;
    let mut answer = sample_answer();
    answer.transport.udp_port = 6000;
    answer.audio.sample_rate = 44100;
    let p = NegotiatedParams::resolve(&offer, &answer);
    assert_eq!(p.video_width, 1280);
    assert_eq!(p.video_height, 1080);
    assert_eq!(p.video_fps, 30);
    assert_eq!(p.video_bitrate, 20_000_000);
    assert_eq!(p.audio_sample_rate, 44100);
    assert_eq!(p.audio_channels, 1);
    assert_eq!(p.audio_bitrate, 128_000);
    assert_eq!(p.sender_udp_port, 5004);
    assert_eq!(p.receiver_udp_port, 6000);
    assert_eq!(p.fec_group_size, 6);
}
