use screen_mirror::ui::backend::{
    pairing_event, sender_offer, CommandHandler, HandlerAction, HandlerPhase,
};
use screen_mirror::ui::messages::{BackendEvent, CaptureMode, UiCommand};

type Command = UiCommand<u32>;
type Event = BackendEvent<u32, ()>;

#[test]
fn connect_pairs_and_pin_lookup_is_served_before_a_session() {
    let mut h = CommandHandler::new();
    assert_eq!(h.phase, HandlerPhase::AwaitConnect);
    let a = h.on_command(Command::VerifyPin { pin: "123456".to_string() });
    assert!(matches!(a, HandlerAction::LookUpPin { ref pin } if pin == "123456"));
    let a = h.on_command(Command::Pause);
    assert!(matches!(a, HandlerAction::Ignore));
    let a = h.on_command(Command::Connect { addr: 7, pin: "654321".to_string() });
    assert!(matches!(a, HandlerAction::Pair { addr: 7, ref pin } if pin == "654321"));
    assert_eq!(h.phase, HandlerPhase::AwaitConnect);
}

#[test]
fn paired_session_starts_or_closes() {
    let mut h = CommandHandler::new();
    let e: Event = h.on_pairing_result(None);
    assert!(matches!(e, BackendEvent::PairingSuccess));
    assert_eq!(h.phase, HandlerPhase::AwaitStart);
    assert!(matches!(h.on_command(Command::Resume), HandlerAction::Ignore));
    assert!(matches!(
        h.on_command(Command::StartStreaming { mode: CaptureMode::FullScreen }),
        HandlerAction::StartStreaming
    ));
    assert_eq!(h.phase, HandlerPhase::AwaitStart);
    assert!(matches!(h.on_command(Command::Disconnect), HandlerAction::CloseSession));
    assert_eq!(h.phase, HandlerPhase::AwaitConnect);
}

#[test]
fn streaming_relays_pause_and_stops_on_disconnect_or_connect() {
    let mut h = CommandHandler::new();
    let _: Event = h.on_pairing_result(None);
    h.on_stream_setup(true);
    assert_eq!(h.phase, HandlerPhase::Streaming);
    assert!(matches!(h.on_command(Command::Pause), HandlerAction::SetPaused(true)));
    assert!(matches!(h.on_command(Command::Resume), HandlerAction::SetPaused(false)));
    assert!(matches!(
        h.on_command(Command::VerifyPin { pin: "1".to_string() }),
        HandlerAction::Ignore
    ));
    assert!(matches!(h.on_command(Command::Disconnect), HandlerAction::StopStreaming));
    assert_eq!(h.phase, HandlerPhase::AwaitConnect);

    let _: Event = h.on_pairing_result(None);
    h.on_stream_setup(true);
    assert!(matches!(
        h.on_command(Command::Connect { addr: 1, pin: "1".to_string() }),
        HandlerAction::StopStreaming
    ));
    assert_eq!(h.phase, HandlerPhase::AwaitConnect);
}

#[test]
fn failed_stream_setup_and_stream_end_return_to_await_connect() {
    let mut h = CommandHandler::new();
    let _: Event = h.on_pairing_result(None);
    h.on_stream_setup(false);
    assert_eq!(h.phase, HandlerPhase::AwaitConnect);
    let _: Event = h.on_pairing_result(None);
    h.on_stream_setup(true);
    h.on_stream_ended();
    assert_eq!(h.phase, HandlerPhase::AwaitConnect);
}

#[test]
fn failed_pairing_stays_without_session() {
    let mut h = CommandHandler::new();
    let e: Event = h.on_pairing_result(Some("wrong PIN".to_string()));
    assert!(matches!(e, BackendEvent::PairingFailed(ref m) if m == "wrong PIN"));
    assert_eq!(h.phase, HandlerPhase::AwaitConnect);
}

#[test]
fn pairing_errors_that_mention_a_timeout_report_one() {
    let e: Event = pairing_event("connection timed out".to_string());
    assert!(matches!(e, BackendEvent::PairingTimeout));
    let e: Event = pairing_event("read timeout after 10s".to_string());
    assert!(matches!(e, BackendEvent::PairingTimeout));
    let e: Event = pairing_event("connection refused".to_string());
    assert!(matches!(e, BackendEvent::PairingFailed(ref m) if m == "connection refused"));
    let e: Event = pairing_event("Timeout".to_string());
    assert!(matches!(e, BackendEvent::PairingFailed(_)));
    let e: Event = pairing_event(String::new());
    assert!(matches!(e, BackendEvent::PairingFailed(ref m) if m.is_empty()));
}

#[test]
fn offer_for_1080p() {
    let o = sender_offer(1920, 1080, 5000);
    assert_eq!(o.video.codec, "h264");
    assert_eq!((o.video.width, o.video.height), (1920, 1080));
    assert_eq!(o.video.fps, 60);
    assert_eq!(o.video.bitrate, 15_000_000);
    assert_eq!(o.audio.codec, "opus");
    assert_eq!((o.audio.sample_rate, o.audio.channels, o.audio.bitrate), (48000, 2, 128_000));
    assert_eq!(o.transport.udp_port, 5000);
    assert_eq!(o.transport.fec_group_size, 6);
}

#[test]
fn offer_scales_bitrate_and_lowers_fps_for_large_captures() {
    let o = sender_offer(2560, 1440, 1);
    assert_eq!(o.video.bitrate, 26_666_666);
    assert_eq!(o.video.fps, 30);
    let o = sender_offer(3840, 2160, 1);
    assert_eq!(o.video.bitrate, 40_000_000);
    assert_eq!(o.video.fps, 30);
    let o = sender_offer(1920, 1200, 1);
    assert_eq!(o.video.fps, 60);
    let o = sender_offer(1280, 720, 1);
    assert_eq!(o.video.bitrate, 6_666_666);
    assert_eq!(o.video.fps, 60);
}
