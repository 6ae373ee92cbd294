use screen_mirror::discovery::browser::DiscoveredReceiver;
use screen_mirror::ui::app::{AppCore, AppState};
use screen_mirror::ui::messages::{BackendEvent, CaptureMode, UiCommand};
use screen_mirror::ui::tray::TrayState;
use screen_mirror::ui::views::idle::{IdleAction, PinVerifyState};
use screen_mirror::ui::views::mode::ModeAction;
use screen_mirror::ui::views::paused::PausedAction;
use screen_mirror::ui::views::streaming::StreamingAction;

/// An IPv4 socket address.
#[derive(Debug, Clone, Copy, PartialEq)]
struct SocketAddr {
    ip: [u8; 4],
    port: u16,
}

fn addr(a: u8, b: u8, c: u8, d: u8, port: u16) -> SocketAddr {
    SocketAddr { ip: [a, b, c, d], port }
}

#[derive(Debug, Clone, Default, PartialEq)]
struct StreamStats {
    resolution_w: u32,
    resolution_h: u32,
    fps: f32,
    bitrate_bps: u64,
    latency_ms: f32,
    packet_loss_pct: f32,
}

type Core = AppCore<SocketAddr, StreamStats>;
type Event = BackendEvent<SocketAddr, StreamStats>;

fn make_core() -> Core {
    AppCore::new()
}

fn dummy_device(name: &str) -> DiscoveredReceiver<SocketAddr> {
    DiscoveredReceiver {
        name: name.to_string(),
        addr: addr(127, 0, 0, 1, 9000),
    }
}

fn zero_stats() -> StreamStats {
    StreamStats {
        resolution_w: 0,
        resolution_h: 0,
        fps: 0.0,
        bitrate_bps: 0,
        latency_ms: 0.0,
        packet_loss_pct: 0.0,
    }
}

fn connecting(name: &str, at: u64) -> AppState<StreamStats> {
    AppState::Connecting { device_name: name.to_string(), started_at: at }
}


#[test]
fn initial_state_is_idle() {
    let core = make_core();
    assert!(matches!(core.state, AppState::Idle));
}

#[test]
fn tray_state_idle() {
    let core = make_core();
    assert_eq!(core.tray_state(), TrayState::Idle);
}

#[test]
fn tray_state_streaming() {
    let mut core = make_core();
    core.state = AppState::Streaming {
        device_name: "TV".to_string(),
        stats: StreamStats {
            resolution_w: 1920,
            resolution_h: 1080,
            fps: 30.0,
            bitrate_bps: 5_000_000,
            latency_ms: 10.0,
            packet_loss_pct: 0.0,
        },
    };
    assert_eq!(core.tray_state(), TrayState::Streaming);
}

#[test]
fn tray_state_paused() {
    let mut core = make_core();
    core.state = AppState::Paused { device_name: "TV".to_string() };
    assert_eq!(core.tray_state(), TrayState::Paused);
}

#[test]
fn pairing_success_transitions_to_mode_select() {
    let mut core = make_core();
    core.state = connecting("TV", 0);
    core.idle_view.connecting = true;
    core.idle_view.connecting_device = Some("TV".to_string());

    core.process_backend_event(Event::PairingSuccess);

    assert!(matches!(core.state, AppState::ModeSelect { .. }));
    assert!(!core.idle_view.connecting);
    assert!(core.idle_view.error.is_none());
}

#[test]
fn pairing_failed_returns_to_idle_with_error() {
    let mut core = make_core();
    core.state = connecting("TV", 0);
    core.idle_view.connecting = true;

    core.process_backend_event(Event::PairingFailed("wrong pin".to_string()));

    assert!(matches!(core.state, AppState::Idle));
    assert_eq!(core.idle_view.error.as_deref(), Some("wrong pin"));
}

#[test]
fn pairing_timeout_event_returns_to_idle() {
    let mut core = make_core();
    core.state = connecting("TV", 0);

    core.process_backend_event(Event::PairingTimeout);

    assert!(matches!(core.state, AppState::Idle));
    assert!(core.idle_view.error.is_some());
}

#[test]
fn streaming_started_transitions_from_mode_select() {
    let mut core = make_core();
    core.state = AppState::ModeSelect { device_name: "TV".to_string() };

    core.process_backend_event(Event::StreamingStarted);

    assert!(matches!(core.state, AppState::Streaming { .. }));
}

#[test]
fn stats_update_updates_streaming_stats() {
    let mut core = make_core();
    core.state = AppState::Streaming { device_name: "TV".to_string(), stats: zero_stats() };

    core.process_backend_event(Event::StatsUpdate(StreamStats {
        resolution_w: 1920,
        resolution_h: 1080,
        fps: 60.0,
        bitrate_bps: 8_000_000,
        latency_ms: 5.0,
        packet_loss_pct: 0.1,
    }));

    if let AppState::Streaming { stats, .. } = &core.state {
        assert_eq!(stats.resolution_w, 1920);
        assert_eq!(stats.fps, 60.0);
    } else {
        panic!("expected Streaming state");
    }
}

#[test]
fn disconnected_returns_to_idle() {
    let mut core = make_core();
    core.state = AppState::Streaming { device_name: "TV".to_string(), stats: zero_stats() };

    core.process_backend_event(Event::Disconnected("network error".to_string()));

    assert!(matches!(core.state, AppState::Idle));
    assert_eq!(core.idle_view.error.as_deref(), Some("network error"));
}

#[test]
fn connecting_timeout_resets_to_idle() {
    let mut core = make_core();
    core.state = connecting("TV", 0);
    core.idle_view.connecting = true;

    core.check_connecting_timeout(11_000);

    assert!(matches!(core.state, AppState::Idle));
    assert!(!core.idle_view.connecting);
    assert!(core.idle_view.error.is_some());
}

#[test]
fn devices_updated_populates_idle_view() {
    let mut core = make_core();
    assert!(core.idle_view.devices.is_empty());

    core.process_backend_event(Event::DevicesUpdated(vec![dummy_device("TV1"), dummy_device("TV2")]));

    assert_eq!(core.idle_view.devices.len(), 2);
    assert_eq!(core.idle_view.devices[0].name, "TV1");
}

#[test]
fn tray_state_connecting_is_idle() {
    let mut core = make_core();
    core.state = connecting("TV", 0);
    assert_eq!(core.tray_state(), TrayState::Idle);
}

#[test]
fn tray_state_mode_select_is_idle() {
    let mut core = make_core();
    core.state = AppState::ModeSelect { device_name: "TV".to_string() };
    assert_eq!(core.tray_state(), TrayState::Idle);
}

#[test]
fn connecting_not_timed_out_stays_connecting() {
    let mut core = make_core();
    core.state = connecting("TV", 0);
    core.idle_view.connecting = true;

    core.check_connecting_timeout(9_000);

    assert!(matches!(core.state, AppState::Connecting { .. }));
    assert!(core.idle_view.connecting);
}

#[test]
fn pairing_success_when_idle_ignored() {
    let mut core = make_core();
    assert!(matches!(core.state, AppState::Idle));

    core.process_backend_event(Event::PairingSuccess);

    assert!(matches!(core.state, AppState::Idle));
}

#[test]
fn streaming_started_when_idle_ignored() {
    let mut core = make_core();
    assert!(matches!(core.state, AppState::Idle));

    core.process_backend_event(Event::StreamingStarted);

    assert!(matches!(core.state, AppState::Idle));
}

#[test]
fn stats_update_when_idle_ignored() {
    let mut core = make_core();
    assert!(matches!(core.state, AppState::Idle));

    core.process_backend_event(Event::StatsUpdate(StreamStats {
        resolution_w: 1920,
        resolution_h: 1080,
        fps: 60.0,
        bitrate_bps: 8_000_000,
        latency_ms: 5.0,
        packet_loss_pct: 0.1,
    }));

    assert!(matches!(core.state, AppState::Idle));
}

#[test]
fn stats_update_when_paused_ignored() {
    let mut core = make_core();
    core.state = AppState::Paused { device_name: "TV".to_string() };

    core.process_backend_event(Event::StatsUpdate(StreamStats {
        resolution_w: 1920,
        resolution_h: 1080,
        fps: 60.0,
        bitrate_bps: 8_000_000,
        latency_ms: 5.0,
        packet_loss_pct: 0.1,
    }));

    assert!(matches!(core.state, AppState::Paused { .. }));
}

#[test]
fn streaming_started_when_connecting_ignored() {
    let mut core = make_core();
    core.state = connecting("TV", 0);

    core.process_backend_event(Event::StreamingStarted);

    assert!(matches!(core.state, AppState::Connecting { .. }));
}

#[test]
fn disconnected_empty_reason_no_error() {
    let mut core = make_core();
    core.state = AppState::Streaming { device_name: "TV".to_string(), stats: zero_stats() };

    core.process_backend_event(Event::Disconnected(String::new()));

    assert!(matches!(core.state, AppState::Idle));
    assert!(core.idle_view.error.is_none());
}

#[test]
fn disconnected_from_paused_returns_to_idle() {
    let mut core = make_core();
    core.state = AppState::Paused { device_name: "TV".to_string() };

    core.process_backend_event(Event::Disconnected("network error".to_string()));

    assert!(matches!(core.state, AppState::Idle));
    assert_eq!(core.idle_view.error.as_deref(), Some("network error"));
}

#[test]
fn disconnected_from_connecting_returns_to_idle() {
    let mut core = make_core();
    core.state = connecting("TV", 0);
    core.idle_view.connecting = true;
    core.idle_view.connecting_device = Some("TV".to_string());

    core.process_backend_event(Event::Disconnected("refused".to_string()));

    assert!(matches!(core.state, AppState::Idle));
    assert!(!core.idle_view.connecting);
    assert!(core.idle_view.connecting_device.is_none());
    assert_eq!(core.idle_view.error.as_deref(), Some("refused"));
}

#[test]
fn disconnected_from_mode_select_returns_to_idle() {
    let mut core = make_core();
    core.state = AppState::ModeSelect { device_name: "TV".to_string() };

    core.process_backend_event(Event::Disconnected("link lost".to_string()));

    assert!(matches!(core.state, AppState::Idle));
}

#[test]
fn multiple_rapid_events_all_processed() {
    let mut core = make_core();
    core.state = connecting("TV", 0);
    core.idle_view.connecting = true;

    for event in [
        Event::PairingSuccess,
        Event::StreamingStarted,
        Event::StatsUpdate(StreamStats {
            resolution_w: 2560,
            resolution_h: 1440,
            fps: 30.0,
            bitrate_bps: 20_000_000,
            latency_ms: 2.0,
            packet_loss_pct: 0.0,
        }),
    ] {
        core.process_backend_event(event);
    }

    assert!(matches!(core.state, AppState::Streaming { .. }));
    if let AppState::Streaming { stats, device_name } = &core.state {
        assert_eq!(device_name, "TV");
        assert_eq!(stats.resolution_w, 2560);
        assert_eq!(stats.fps, 30.0);
    }
}

#[test]
fn full_lifecycle_idle_to_streaming_to_disconnect() {
    let mut core = make_core();

    assert!(matches!(core.state, AppState::Idle));
    assert_eq!(core.tray_state(), TrayState::Idle);

    core.process_backend_event(Event::DevicesUpdated(vec![dummy_device("客厅电视")]));
    assert_eq!(core.idle_view.devices.len(), 1);

    core.idle_view.connecting = true;
    core.idle_view.connecting_device = Some("客厅电视".to_string());
    core.state = connecting("客厅电视", 0);
    assert_eq!(core.tray_state(), TrayState::Idle);

    core.process_backend_event(Event::PairingSuccess);
    assert!(matches!(core.state, AppState::ModeSelect { .. }));
    assert!(!core.idle_view.connecting);

    core.process_backend_event(Event::StreamingStarted);
    assert!(matches!(core.state, AppState::Streaming { .. }));
    assert_eq!(core.tray_state(), TrayState::Streaming);

    core.process_backend_event(Event::StatsUpdate(StreamStats {
        resolution_w: 1920,
        resolution_h: 1080,
        fps: 60.0,
        bitrate_bps: 10_000_000,
        latency_ms: 3.0,
        packet_loss_pct: 0.0,
    }));

    core.process_backend_event(Event::Disconnected(String::new()));
    assert!(matches!(core.state, AppState::Idle));
    assert_eq!(core.tray_state(), TrayState::Idle);
    assert!(core.idle_view.error.is_none());
}

#[test]
fn full_lifecycle_with_pause_resume() {
    let mut core = make_core();

    core.state = connecting("TV", 0);
    core.process_backend_event(Event::PairingSuccess);
    core.process_backend_event(Event::StreamingStarted);
    assert!(matches!(core.state, AppState::Streaming { .. }));

    let cmd = core.on_streaming_action(StreamingAction::Pause);
    assert!(matches!(core.state, AppState::Paused { .. }));
    assert_eq!(core.tray_state(), TrayState::Paused);
    assert!(matches!(cmd, Some(UiCommand::Pause)));

    let cmd = core.on_paused_action(PausedAction::Resume);
    assert!(matches!(core.state, AppState::Streaming { ref stats, .. } if *stats == zero_stats()));
    assert_eq!(core.tray_state(), TrayState::Streaming);
    assert!(matches!(cmd, Some(UiCommand::Resume)));
}

#[test]
fn devices_updated_during_connecting_still_updates() {
    let mut core = make_core();
    core.state = connecting("TV", 0);

    core.process_backend_event(Event::DevicesUpdated(vec![
        dummy_device("TV1"),
        dummy_device("TV2"),
        dummy_device("TV3"),
    ]));

    assert_eq!(core.idle_view.devices.len(), 3);
    assert!(matches!(core.state, AppState::Connecting { .. }));
}

#[test]
fn devices_updated_during_streaming_still_updates() {
    let mut core = make_core();
    core.state = AppState::Streaming { device_name: "TV".to_string(), stats: zero_stats() };

    core.process_backend_event(Event::DevicesUpdated(vec![dummy_device("NewTV")]));

    assert_eq!(core.idle_view.devices.len(), 1);
    assert!(matches!(core.state, AppState::Streaming { .. }));
}

#[test]
fn pairing_failed_clears_connecting_state() {
    let mut core = make_core();
    core.state = connecting("TV", 0);
    core.idle_view.connecting = true;
    core.idle_view.connecting_device = Some("TV".to_string());

    core.process_backend_event(Event::PairingFailed("bad pin".to_string()));

    assert!(matches!(core.state, AppState::Idle));
    assert!(!core.idle_view.connecting);
    assert!(core.idle_view.connecting_device.is_none());
    assert_eq!(core.idle_view.error.as_deref(), Some("bad pin"));
}

#[test]
fn pairing_success_clears_previous_error() {
    let mut core = make_core();
    core.idle_view.error = Some("previous error".to_string());
    core.state = connecting("TV", 0);

    core.process_backend_event(Event::PairingSuccess);

    assert!(matches!(core.state, AppState::ModeSelect { .. }));
    assert!(core.idle_view.error.is_none());
}

#[test]
fn device_name_preserved_through_transitions() {
    let mut core = make_core();
    core.state = connecting("会议室投影", 0);

    core.process_backend_event(Event::PairingSuccess);

    if let AppState::ModeSelect { device_name } = &core.state {
        assert_eq!(device_name, "会议室投影");
    } else {
        panic!("expected ModeSelect");
    }

    core.process_backend_event(Event::StreamingStarted);

    if let AppState::Streaming { device_name, .. } = &core.state {
        assert_eq!(device_name, "会议室投影");
    } else {
        panic!("expected Streaming");
    }
}

#[test]
fn connecting_timeout_sets_chinese_error_message() {
    let mut core = make_core();
    core.state = connecting("TV", 0);
    core.idle_view.connecting = true;
    core.idle_view.connecting_device = Some("TV".to_string());

    core.check_connecting_timeout(11_000);

    assert!(matches!(core.state, AppState::Idle));
    assert!(!core.idle_view.connecting);
    assert!(core.idle_view.connecting_device.is_none());
    assert_eq!(core.idle_view.error.as_deref(), Some("连接超时"));
}

#[test]
fn initial_idle_view_state() {
    let core = make_core();
    assert!(core.idle_view.devices.is_empty());
    assert!(core.idle_view.selected_device.is_none());
    assert!(core.idle_view.pin_input.is_empty());
    assert_eq!(core.idle_view.pin_cursor, 0);
    assert!(core.idle_view.error.is_none());
    assert!(!core.idle_view.connecting);
    assert!(core.idle_view.connecting_device.is_none());
}

#[test]
fn devices_updated_replaces_entire_list() {
    let mut core = make_core();

    core.process_backend_event(Event::DevicesUpdated(vec![dummy_device("TV1"), dummy_device("TV2")]));
    assert_eq!(core.idle_view.devices.len(), 2);

    core.process_backend_event(Event::DevicesUpdated(vec![dummy_device("TV3")]));
    assert_eq!(core.idle_view.devices.len(), 1);
    assert_eq!(core.idle_view.devices[0].name, "TV3");
}

#[test]
fn devices_updated_to_empty() {
    let mut core = make_core();

    core.process_backend_event(Event::DevicesUpdated(vec![dummy_device("TV1")]));
    assert_eq!(core.idle_view.devices.len(), 1);

    core.process_backend_event(Event::DevicesUpdated(vec![]));
    assert!(core.idle_view.devices.is_empty());
}

#[test]
fn pairing_timeout_sets_chinese_error() {
    let mut core = make_core();
    core.state = connecting("TV", 0);
    core.idle_view.connecting = true;

    core.process_backend_event(Event::PairingTimeout);

    assert!(matches!(core.state, AppState::Idle));
    assert!(!core.idle_view.connecting);
    assert_eq!(core.idle_view.error.as_deref(), Some("连接超时"));
}

#[test]
fn initial_visibility_is_true() {
    let core = make_core();
    assert!(core.visible);
}

#[test]
fn pin_verify_debounce_starts_on_6_digits() {
    let mut core = make_core();
    core.idle_view.pin_input = "123456".to_string();
    core.check_pin_verify(0);
    assert!(matches!(core.idle_view.pin_verify_state, PinVerifyState::Debouncing { .. }));
}

#[test]
fn pin_verify_resets_on_short_pin() {
    let mut core = make_core();
    core.idle_view.pin_input = "123456".to_string();
    core.check_pin_verify(0);
    core.idle_view.pin_input = "12345".to_string();
    core.check_pin_verify(0);
    assert!(matches!(core.idle_view.pin_verify_state, PinVerifyState::Idle));
}

#[test]
fn pin_matched_event_updates_state() {
    let mut core = make_core();
    core.idle_view.pin_input = "123456".to_string();
    core.idle_view.pin_verify_state = PinVerifyState::Verifying { pin: "123456".to_string() };
    let addr = addr(192, 168, 1, 100, 9000);
    core.process_backend_event(Event::PinMatched { device_name: "客厅电视".to_string(), addr });
    assert!(matches!(
        core.idle_view.pin_verify_state,
        PinVerifyState::Matched { ref device_name, .. } if device_name == "客厅电视"
    ));
}

#[test]
fn pin_not_found_event_updates_state() {
    let mut core = make_core();
    core.idle_view.pin_input = "123456".to_string();
    core.idle_view.pin_verify_state = PinVerifyState::Verifying { pin: "123456".to_string() };
    core.process_backend_event(Event::PinNotFound);
    assert!(matches!(core.idle_view.pin_verify_state, PinVerifyState::NotFound { .. }));
}

#[test]
fn connect_matched_sends_command() {
    let mut core = make_core();
    let addr = addr(192, 168, 1, 100, 9000);
    core.idle_view.pin_input = "123456".to_string();
    core.idle_view.pin_verify_state = PinVerifyState::Matched {
        device_name: "客厅电视".to_string(),
        addr,
        pin: "123456".to_string(),
    };
    let cmd = core.handle_connect_matched(0).unwrap();
    assert!(matches!(cmd, UiCommand::Connect { .. }));
    assert!(matches!(core.state, AppState::Connecting { .. }));
    assert!(core.idle_view.connecting);
}

#[test]
fn pin_verify_no_refire_when_pin_unchanged() {
    let mut core = make_core();
    core.idle_view.pin_input = "123456".to_string();
    core.idle_view.pin_verify_state = PinVerifyState::Matched {
        device_name: "TV".to_string(),
        addr: addr(192, 168, 1, 1, 9000),
        pin: "123456".to_string(),
    };
    let cmd = core.check_pin_verify(0);
    assert!(matches!(core.idle_view.pin_verify_state, PinVerifyState::Matched { .. }));
    assert!(cmd.is_none());
}

#[test]
fn pin_verify_refires_when_pin_changed() {
    let mut core = make_core();
    core.idle_view.pin_input = "654321".to_string();
    core.idle_view.pin_verify_state = PinVerifyState::Matched {
        device_name: "TV".to_string(),
        addr: addr(192, 168, 1, 1, 9000),
        pin: "123456".to_string(),
    };
    core.check_pin_verify(0);
    assert!(matches!(core.idle_view.pin_verify_state, PinVerifyState::Debouncing { .. }));
}

#[test]
fn pin_verify_debounce_fires_after_300ms() {
    let mut core = make_core();
    core.idle_view.pin_input = "123456".to_string();
    core.idle_view.pin_verify_state = PinVerifyState::Debouncing { since: 0, pin: "123456".to_string() };
    let cmd = core.check_pin_verify(301).unwrap();
    assert!(matches!(core.idle_view.pin_verify_state, PinVerifyState::Verifying { .. }));
    assert!(matches!(cmd, UiCommand::VerifyPin { .. }));
}

// ── Further cases ──

#[test]
fn pin_verify_waits_during_debounce() {
    let mut core = make_core();
    core.idle_view.pin_input = "123456".to_string();
    assert!(core.check_pin_verify(1_000).is_none());
    assert!(core.check_pin_verify(1_299).is_none());
    assert!(matches!(core.idle_view.pin_verify_state, PinVerifyState::Debouncing { since: 1_000, .. }));
    let cmd = core.check_pin_verify(1_300);
    assert!(matches!(cmd, Some(UiCommand::VerifyPin { ref pin }) if pin == "123456"));
    // The lookup runs once; later checks send nothing.
    assert!(core.check_pin_verify(5_000).is_none());
    assert!(matches!(core.idle_view.pin_verify_state, PinVerifyState::Verifying { .. }));
}

#[test]
fn pin_changed_during_debounce_restarts_it() {
    let mut core = make_core();
    core.idle_view.pin_input = "123456".to_string();
    core.check_pin_verify(0);
    core.idle_view.pin_input = "123457".to_string();
    assert!(core.check_pin_verify(400).is_none());
    assert!(matches!(
        core.idle_view.pin_verify_state,
        PinVerifyState::Debouncing { since: 400, ref pin } if pin == "123457"
    ));
}

#[test]
fn idle_connect_action_starts_connecting() {
    let mut core = make_core();
    core.process_backend_event(Event::DevicesUpdated(vec![dummy_device("TV1"), dummy_device("TV2")]));
    core.idle_view.error = Some("old".to_string());
    let cmd = core.on_idle_action(IdleAction::Connect { device_index: 1, pin: "000111".to_string() }, 42);
    assert!(matches!(cmd, Some(UiCommand::Connect { ref pin, .. }) if pin == "000111"));
    assert!(matches!(core.state, AppState::Connecting { ref device_name, started_at: 42 } if device_name == "TV2"));
    assert_eq!(core.idle_view.connecting_device.as_deref(), Some("TV2"));
    assert!(core.idle_view.error.is_none());
    // Out of range: nothing happens.
    let mut other = make_core();
    assert!(other.on_idle_action(IdleAction::Connect { device_index: 0, pin: String::new() }, 0).is_none());
    assert!(matches!(other.state, AppState::Idle));
}

#[test]
fn connect_matched_without_match_does_nothing() {
    let mut core = make_core();
    assert!(core.handle_connect_matched(0).is_none());
    assert!(core.on_idle_action(IdleAction::ConnectMatched, 0).is_none());
    assert!(matches!(core.state, AppState::Idle));
}

#[test]
fn mode_action_start_sends_start_streaming() {
    let mut core = make_core();
    core.state = AppState::ModeSelect { device_name: "TV".to_string() };
    assert!(core.on_mode_action(ModeAction::NoAction).is_none());
    let cmd = core.on_mode_action(ModeAction::Start(CaptureMode::FullScreen));
    assert!(matches!(cmd, Some(UiCommand::StartStreaming { mode: CaptureMode::FullScreen })));
    assert!(matches!(core.state, AppState::ModeSelect { .. }));
}

#[test]
fn disconnect_actions_wait_for_backend() {
    let mut core = make_core();
    core.state = AppState::Streaming { device_name: "TV".to_string(), stats: zero_stats() };
    assert!(matches!(core.on_streaming_action(StreamingAction::Disconnect), Some(UiCommand::Disconnect)));
    assert!(matches!(core.state, AppState::Streaming { .. }));
    core.state = AppState::Paused { device_name: "TV".to_string() };
    assert!(matches!(core.on_paused_action(PausedAction::Disconnect), Some(UiCommand::Disconnect)));
    assert!(matches!(core.state, AppState::Paused { .. }));
    // Actions of another screen are ignored.
    assert!(core.on_streaming_action(StreamingAction::Pause).is_none());
}

#[test]
fn debug_keys_jump_between_screens() {
    let mut core = make_core();
    let tv = addr(192, 168, 1, 100, 9000);
    let projector = addr(192, 168, 1, 101, 9000);
    core.apply_debug_key(3, tv, projector, zero_stats());
    assert!(matches!(core.state, AppState::Streaming { ref device_name, .. } if device_name == "测试设备"));
    core.apply_debug_key(5, tv, projector, zero_stats());
    assert_eq!(core.idle_view.devices.len(), 2);
    assert_eq!(core.idle_view.devices[1].name, "会议室投影");
    assert_eq!(core.idle_view.devices[1].addr, projector);
    core.apply_debug_key(6, tv, projector, zero_stats());
    assert_eq!(core.idle_view.error.as_deref(), Some("投屏码错误，请重试"));
    core.apply_debug_key(1, tv, projector, zero_stats());
    assert!(matches!(core.state, AppState::Idle));
    assert!(core.idle_view.error.is_none());
    core.idle_view.pin_input = "424242".to_string();
    core.apply_debug_key(7, tv, projector, zero_stats());
    assert!(matches!(
        core.idle_view.pin_verify_state,
        PinVerifyState::Matched { ref pin, addr, .. } if pin == "424242" && addr == tv
    ));
    core.apply_debug_key(0, tv, projector, zero_stats());
    assert!(matches!(core.idle_view.pin_verify_state, PinVerifyState::Matched { .. }));
}

#[test]
fn pin_edit_during_lookup_restarts_debounce() {
    let mut core = make_core();
    core.idle_view.pin_input = "654321".to_string();
    core.idle_view.pin_verify_state = PinVerifyState::Verifying { pin: "123456".to_string() };
    assert!(core.check_pin_verify(500).is_none());
    assert!(matches!(
        core.idle_view.pin_verify_state,
        PinVerifyState::Debouncing { ref pin, since: 500 } if pin == "654321"
    ));
}

#[test]
fn unchanged_pin_keeps_running_lookup() {
    let mut core = make_core();
    core.idle_view.pin_input = "123456".to_string();
    core.idle_view.pin_verify_state = PinVerifyState::Verifying { pin: "123456".to_string() };
    assert!(core.check_pin_verify(500).is_none());
    assert!(matches!(
        core.idle_view.pin_verify_state,
        PinVerifyState::Verifying { ref pin } if pin == "123456"
    ));
}
