use screen_mirror::ui::messages::{BackendEvent, CaptureMode, UiCommand, WindowInfo};
use screen_mirror::ui::views::streaming::{resolution_text, streaming_title};
use std::sync::mpsc;

/// A receiver address, as the application would give it.
#[derive(Debug, Clone, Copy, PartialEq, Eq)]
struct SocketAddr {
    ip: [u8; 4],
    port: u16,
}

fn socket(ip: [u8; 4], port: u16) -> SocketAddr {
    SocketAddr { ip, port }
}

#[derive(Debug, Clone, Default)]
struct StreamStats {
    resolution_w: u32,
    resolution_h: u32,
    fps: f32,
    bitrate_bps: u64,
    latency_ms: f32,
    packet_loss_pct: f32,
}

type Command = UiCommand<SocketAddr>;
type Event = BackendEvent<SocketAddr, StreamStats>;

fn assert_send<T: Send>() {}

#[test]
fn commands_are_send() {
    assert_send::<Command>();
}

#[test]
fn events_are_send() {
    assert_send::<Event>();
}

#[test]
fn channel_roundtrip() {
    let (tx, rx) = mpsc::channel::<Event>();
    tx.send(BackendEvent::PairingSuccess).unwrap();
    let event = rx.try_recv().unwrap();
    assert!(matches!(event, BackendEvent::PairingSuccess));
}

#[test]
fn capture_mode_is_debug() {
    let mode = CaptureMode::FullScreen;
    let debug = format!("{:?}", mode);
    assert_eq!(debug, "FullScreen");
}

#[test]
fn all_backend_events_debug() {
    let events: Vec<Event> = vec![
        BackendEvent::DevicesUpdated(vec![]),
        BackendEvent::PairingSuccess,
        BackendEvent::PairingFailed("err".to_string()),
        BackendEvent::PairingTimeout,
        BackendEvent::PinMatched { device_name: "test".to_string(), addr: socket([127, 0, 0, 1], 9000) },
        BackendEvent::PinNotFound,
        BackendEvent::StreamingStarted,
        BackendEvent::StatsUpdate(StreamStats {
            resolution_w: 0,
            resolution_h: 0,
            fps: 0.0,
            bitrate_bps: 0,
            latency_ms: 0.0,
            packet_loss_pct: 0.0,
        }),
        BackendEvent::Disconnected(String::new()),
    ];
    for event in events {
        let _ = format!("{:?}", event);
    }
}

#[test]
fn all_ui_commands_debug() {
    let commands: Vec<Command> = vec![
        UiCommand::Connect { addr: socket([127, 0, 0, 1], 9000), pin: "123456".to_string() },
        UiCommand::VerifyPin { pin: "123456".to_string() },
        UiCommand::StartStreaming { mode: CaptureMode::FullScreen },
        UiCommand::Pause,
        UiCommand::Resume,
        UiCommand::Disconnect,
    ];
    for cmd in commands {
        let _ = format!("{:?}", cmd);
    }
}

#[test]
fn command_channel_bidirectional() {
    let (cmd_tx, cmd_rx) = mpsc::channel::<Command>();
    let (evt_tx, evt_rx) = mpsc::channel::<Event>();

    cmd_tx
        .send(UiCommand::Connect { addr: socket([192, 168, 1, 100], 9000), pin: "654321".to_string() })
        .unwrap();
    evt_tx.send(BackendEvent::PairingSuccess).unwrap();

    let cmd = cmd_rx.recv().unwrap();
    let evt = evt_rx.recv().unwrap();

    assert!(matches!(cmd, UiCommand::Connect { .. }));
    assert!(matches!(evt, BackendEvent::PairingSuccess));
}

#[test]
fn window_labels() {
    let w = WindowInfo { title: "main.rs".to_string(), app_name: "Editor".to_string() };
    assert_eq!(w.label(), "Editor — main.rs");
    let bare = WindowInfo { title: "Untitled".to_string(), app_name: String::new() };
    assert_eq!(bare.label(), "Untitled");
}

#[test]
fn streaming_view_texts() {
    assert_eq!(streaming_title("客厅电视"), "📺 客厅电视 · 投屏中");
    assert_eq!(resolution_text(1920, 1080), "1920 × 1080");
    assert_eq!(resolution_text(0, 7), "0 × 7");
}
