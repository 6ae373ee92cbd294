//! The sender's user-interface state machine: which screen is shown and
//! what it holds, how backend events and user actions move it, and which
//! commands go to the backend.  Drawing, channels and the clock are the
//! caller's: it feeds events and actions in, passes the time in
//! milliseconds of a monotonic clock, and sends the commands returned.

use vstd::prelude::*;

use crate::discovery::browser::DiscoveredReceiver;
use crate::ui::messages::{BackendEvent, UiCommand};
use crate::ui::tray::TrayState;
use crate::ui::views::idle::{IdleAction, IdleViewState, PinVerifyState};
use crate::ui::views::mode::ModeAction;
use crate::ui::views::paused::PausedAction;
use crate::ui::views::streaming::StreamingAction;

verus! {

/// Milliseconds after which a connection attempt is given up.
pub const CONNECT_TIMEOUT_MS: u64 = 10_000;

/// Milliseconds a complete PIN must stay unchanged before it is looked up.
pub const PIN_DEBOUNCE_MS: u64 = 300;

/// Length of a complete PIN, in bytes.
pub const PIN_LEN: usize = 6;

/// The screen shown; `S` is the type of streaming statistics.
#[derive(Debug)]
pub enum AppState<S> {
    Idle,
    Connecting { device_name: String, started_at: u64 },
    ModeSelect { device_name: String },
    Streaming { device_name: String, stats: S },
    Paused { device_name: String },
}

/// The state machine: the screen, the window visibility and the idle view.
pub struct AppCore<A, S> {
    pub state: AppState<S>,
    pub visible: bool,
    pub idle_view: IdleViewState<A>,
}

/// Byte length of a string.
pub open spec fn byte_len(s: Seq<char>) -> nat {
    vstd::utf8::encode_utf8(s).len()
}

/// The error shown when a connection attempt times out.
pub open spec fn timeout_message() -> Seq<char> {
    "连接超时"@
}

/// The name shown for the sample device of the debug keys.
pub open spec fn debug_device_name() -> Seq<char> {
    "测试设备"@
}

/// Everything of the idle view but the connection status (error, whether
/// connecting, and to which device) is as in `old`.
pub open spec fn idle_same_but_status<A>(new: IdleViewState<A>, old: IdleViewState<A>) -> bool {
    &&& new.devices == old.devices
    &&& new.selected_device == old.selected_device
    &&& new.pin_input == old.pin_input
    &&& new.pin_cursor == old.pin_cursor
    &&& new.pin_verify_state == old.pin_verify_state
}

/// No connection attempt is shown.
pub open spec fn not_connecting<A>(v: IdleViewState<A>) -> bool {
    !v.connecting && v.connecting_device is None
}

/// The idle view is as in `old` except for the PIN lookup state.
pub open spec fn idle_same_but_pin_state<A>(new: IdleViewState<A>, old: IdleViewState<A>) -> bool {
    &&& new.devices == old.devices
    &&& new.selected_device == old.selected_device
    &&& new.pin_input == old.pin_input
    &&& new.pin_cursor == old.pin_cursor
    &&& new.error == old.error
    &&& new.connecting == old.connecting
    &&& new.connecting_device == old.connecting_device
}

/// A connection attempt to `name` started at `now`.
pub open spec fn started_connecting<A, S>(
    new: AppCore<A, S>,
    old: AppCore<A, S>,
    name: String,
    now: u64,
) -> bool {
    &&& new.state == AppState::<S>::Connecting { device_name: name, started_at: now }
    &&& idle_same_but_status(new.idle_view, old.idle_view)
    &&& new.idle_view.connecting
    &&& new.idle_view.connecting_device == Some(name)
    &&& new.idle_view.error is None
    &&& new.visible == old.visible
}

/// Back to the idle screen with the given error and no connection shown.
pub open spec fn back_to_idle<A, S>(new: AppCore<A, S>, old: AppCore<A, S>) -> bool {
    &&& new.state is Idle
    &&& idle_same_but_status(new.idle_view, old.idle_view)
    &&& not_connecting(new.idle_view)
    &&& new.visible == old.visible
}

/// The debounce of `pin` has run its 300 ms at `now`: the lookup is due.
pub open spec fn pin_lookup_due<A>(st: PinVerifyState<A>, pin: String, now: u64) -> bool {
    byte_len(pin@) >= 6 && (st matches PinVerifyState::Debouncing { since, pin: prev }
        && prev@ == pin@ && now >= since && now - since >= PIN_DEBOUNCE_MS)
}

/// The PIN lookup state after checking the entered `pin` at `now`: reset
/// for an incomplete PIN; a debounce (re)started for a new or changed
/// complete PIN; the lookup running once the debounce is over; otherwise
/// unchanged.
pub open spec fn pin_verify_next<A>(st: PinVerifyState<A>, pin: String, now: u64) -> PinVerifyState<A> {
    let restart = PinVerifyState::<A>::Debouncing { since: now, pin };
    if byte_len(pin@) < 6 {
        PinVerifyState::Idle
    } else if pin_lookup_due(st, pin, now) {
        PinVerifyState::Verifying { pin }
    } else {
        match st {
            PinVerifyState::Debouncing { pin: prev, .. } => if prev@ != pin@ {
                restart
            } else {
                st
            },
            PinVerifyState::Matched { pin: prev, .. } => if prev@ != pin@ {
                restart
            } else {
                st
            },
            PinVerifyState::NotFound { pin: prev } => if prev@ != pin@ {
                restart
            } else {
                st
            },
            PinVerifyState::Verifying { pin: prev } => if prev@ != pin@ {
                restart
            } else {
                st
            },
            PinVerifyState::Idle => restart,
        }
    }
}

/// A PIN is looked up at most once: after the step that sends its lookup,
/// checking the same PIN again, at any later time, sends nothing and keeps
/// the lookup running; and it was sent only after the PIN had stayed
/// unchanged for the debounce time.
pub proof fn pin_lookup_sent_once<A>(st: PinVerifyState<A>, pin: String, now: u64, later: u64)
    requires
        pin_lookup_due(st, pin, now),
    ensures
        !pin_lookup_due(pin_verify_next(st, pin, now), pin, later),
        pin_verify_next(pin_verify_next(st, pin, now), pin, later) == pin_verify_next(st, pin, now),
        st matches PinVerifyState::Debouncing { since, pin: prev } && prev@ == pin@ && now - since
            >= PIN_DEBOUNCE_MS,
{
}

/// The PIN a lookup state is about, if any.
pub open spec fn state_pin<A>(st: PinVerifyState<A>) -> Option<String> {
    match st {
        PinVerifyState::Idle => None,
        PinVerifyState::Debouncing { pin, .. } => Some(pin),
        PinVerifyState::Verifying { pin } => Some(pin),
        PinVerifyState::Matched { pin, .. } => Some(pin),
        PinVerifyState::NotFound { pin } => Some(pin),
    }
}

/// Any edit of a complete PIN starts over: whatever the lookup was doing
/// for the previous PIN (waiting, running, or answered), the new PIN starts
/// a debounce at `now` and nothing is sent.
pub proof fn edited_pin_restarts_lookup<A>(st: PinVerifyState<A>, pin: String, now: u64)
    requires
        byte_len(pin@) >= 6,
        state_pin(st) is Some,
        state_pin(st)->0@ != pin@,
    ensures
        pin_verify_next(st, pin, now) == (PinVerifyState::<A>::Debouncing { since: now, pin }),
        !pin_lookup_due(st, pin, now),
{
}

/// A PIN that has become incomplete (fewer than six bytes) resets the
/// lookup, whatever state it was in, and sends nothing.
pub proof fn short_pin_resets_lookup<A>(st: PinVerifyState<A>, pin: String, now: u64)
    requires
        byte_len(pin@) < 6,
    ensures
        pin_verify_next(st, pin, now) is Idle,
        !pin_lookup_due(st, pin, now),
{
}

fn timeout_error() -> (s: String)
    ensures
        s@ == timeout_message(),
{
    "连接超时".to_string()
}

fn debug_device() -> (s: String)
    ensures
        s@ == debug_device_name(),
{
    "测试设备".to_string()
}

impl<A: Copy, S: Default> AppCore<A, S> {
    pub fn new() -> (core: Self)
        ensures
            core.state is Idle,
            core.visible,
            core.idle_view.devices@.len() == 0,
            core.idle_view.selected_device is None,
            core.idle_view.pin_input@.len() == 0,
            core.idle_view.pin_cursor == 0,
            core.idle_view.pin_verify_state is Idle,
            core.idle_view.error is None,
            not_connecting(core.idle_view),
    {
        AppCore {
            state: AppState::Idle,
            visible: true,
            idle_view: IdleViewState {
                devices: Vec::new(),
                selected_device: None,
                pin_input: String::new(),
                pin_cursor: 0,
                pin_verify_state: PinVerifyState::Idle,
                error: None,
                connecting: false,
                connecting_device: None,
            },
        }
    }

    /// The tray shows streaming and paused; every other screen is idle.
    pub fn tray_state(&self) -> (t: TrayState)
        ensures
            t == match self.state {
                AppState::Streaming { .. } => TrayState::Streaming,
                AppState::Paused { .. } => TrayState::Paused,
                _ => TrayState::Idle,
            },
    {
        match &self.state {
            AppState::Streaming { .. } => TrayState::Streaming,
            AppState::Paused { .. } => TrayState::Paused,
            _ => TrayState::Idle,
        }
    }

    /// Applies one backend event.
    pub fn process_backend_event(&mut self, event: BackendEvent<A, S>)
        ensures
            final(self).visible == old(self).visible,
            match event {
                BackendEvent::DevicesUpdated(devices) => {
                    &&& final(self).state == old(self).state
                    &&& final(self).idle_view == IdleViewState { devices, ..old(self).idle_view }
                },
                BackendEvent::PairingSuccess => match old(self).state {
                    AppState::Connecting { device_name, .. } => {
                        &&& final(self).state == AppState::<S>::ModeSelect { device_name }
                        &&& idle_same_but_status(final(self).idle_view, old(self).idle_view)
                        &&& not_connecting(final(self).idle_view)
                        &&& final(self).idle_view.error is None
                    },
                    _ => final(self).state == old(self).state && final(self).idle_view == old(
                        self,
                    ).idle_view,
                },
                BackendEvent::PairingFailed(reason) => {
                    &&& back_to_idle(*final(self), *old(self))
                    &&& final(self).idle_view.error == Some(reason)
                },
                BackendEvent::PairingTimeout => {
                    &&& back_to_idle(*final(self), *old(self))
                    &&& (final(self).idle_view.error matches Some(e) && e@ == timeout_message())
                },
                BackendEvent::PinMatched { device_name, addr } => {
                    &&& final(self).state == old(self).state
                    &&& idle_same_but_pin_state(final(self).idle_view, old(self).idle_view)
                    &&& final(self).idle_view.pin_verify_state == PinVerifyState::Matched {
                        device_name,
                        addr,
                        pin: old(self).idle_view.pin_input,
                    }
                },
                BackendEvent::PinNotFound => {
                    &&& final(self).state == old(self).state
                    &&& idle_same_but_pin_state(final(self).idle_view, old(self).idle_view)
                    &&& final(self).idle_view.pin_verify_state == PinVerifyState::<A>::NotFound {
                        pin: old(self).idle_view.pin_input,
                    }
                },
                BackendEvent::StreamingStarted => match old(self).state {
                    AppState::ModeSelect { device_name } => {
                        &&& (final(self).state matches AppState::Streaming { device_name: d, stats }
                            && d == device_name && call_ensures(S::default, (), stats))
                        &&& final(self).idle_view == old(self).idle_view
                    },
                    _ => final(self).state == old(self).state && final(self).idle_view == old(
                        self,
                    ).idle_view,
                },
                BackendEvent::StatsUpdate(stats) => {
                    &&& final(self).state == match old(self).state {
                        AppState::Streaming { device_name, .. } => AppState::Streaming {
                            device_name,
                            stats,
                        },
                        _ => old(self).state,
                    }
                    &&& final(self).idle_view == old(self).idle_view
                },
                BackendEvent::Disconnected(reason) => {
                    &&& back_to_idle(*final(self), *old(self))
                    &&& final(self).idle_view.error == (if reason@.len() == 0 {
                        None
                    } else {
                        Some(reason)
                    })
                },
            },
    {
        match event {
            BackendEvent::DevicesUpdated(devices) => {
                self.idle_view.devices = devices;
            },
            BackendEvent::PairingSuccess => {
                if let AppState::Connecting { device_name, .. } = &self.state {
                    let name = device_name.clone();
                    self.idle_view.connecting = false;
                    self.idle_view.connecting_device = None;
                    self.idle_view.error = None;
                    self.state = AppState::ModeSelect { device_name: name };
                }
            },
            BackendEvent::PairingFailed(reason) => {
                self.idle_view.connecting = false;
                self.idle_view.connecting_device = None;
                self.idle_view.error = Some(reason);
                self.state = AppState::Idle;
            },
            BackendEvent::PairingTimeout => {
                self.idle_view.connecting = false;
                self.idle_view.connecting_device = None;
                self.idle_view.error = Some(timeout_error());
                self.state = AppState::Idle;
            },
            BackendEvent::PinMatched { device_name, addr } => {
                let pin = self.idle_view.pin_input.clone();
                self.idle_view.pin_verify_state = PinVerifyState::Matched { device_name, addr, pin };
            },
            BackendEvent::PinNotFound => {
                let pin = self.idle_view.pin_input.clone();
                self.idle_view.pin_verify_state = PinVerifyState::NotFound { pin };
            },
            BackendEvent::StreamingStarted => {
                if let AppState::ModeSelect { device_name } = &self.state {
                    let name = device_name.clone();
                    self.state = AppState::Streaming { device_name: name, stats: S::default() };
                }
            },
            BackendEvent::StatsUpdate(stats) => {
                if let AppState::Streaming { device_name, .. } = &self.state {
                    let name = device_name.clone();
                    self.state = AppState::Streaming { device_name: name, stats };
                }
            },
            BackendEvent::Disconnected(reason) => {
                self.idle_view.error = if reason.as_str().is_empty() {
                    None
                } else {
                    Some(reason)
                };
                self.idle_view.connecting = false;
                self.idle_view.connecting_device = None;
                self.state = AppState::Idle;
            },
        }
    }

    /// Advances the PIN lookup: a PIN shorter than six bytes resets it; a
    /// new or changed complete PIN starts a 300 ms debounce; once the same
    /// PIN has waited that long it is looked up (the command returned).
    /// While the lookup of the entered PIN runs, or its answer stands,
    /// nothing changes; any edit of the PIN starts over with a debounce.
    pub fn check_pin_verify(&mut self, now: u64) -> (cmd: Option<UiCommand<A>>)
        ensures
            final(self).state == old(self).state,
            final(self).visible == old(self).visible,
            idle_same_but_pin_state(final(self).idle_view, old(self).idle_view),
            final(self).idle_view.pin_verify_state == pin_verify_next(
                old(self).idle_view.pin_verify_state,
                old(self).idle_view.pin_input,
                now,
            ),
            cmd == (if pin_lookup_due(
                old(self).idle_view.pin_verify_state,
                old(self).idle_view.pin_input,
                now,
            ) {
                Some(UiCommand::<A>::VerifyPin { pin: old(self).idle_view.pin_input })
            } else {
                None
            }),
    {
        if self.idle_view.pin_input.as_str().as_bytes().len() < PIN_LEN {
            self.idle_view.pin_verify_state = PinVerifyState::Idle;
            return None;
        }
        let restart = match &self.idle_view.pin_verify_state {
            PinVerifyState::Debouncing { pin: prev, since } => {
                if *prev != self.idle_view.pin_input {
                    true
                } else {
                    if now >= *since && now - *since >= PIN_DEBOUNCE_MS {
                        let pin = self.idle_view.pin_input.clone();
                        let sent = self.idle_view.pin_input.clone();
                        self.idle_view.pin_verify_state = PinVerifyState::Verifying { pin };
                        return Some(UiCommand::VerifyPin { pin: sent });
                    }
                    false
                }
            },
            PinVerifyState::Matched { pin: prev, .. } => *prev != self.idle_view.pin_input,
            PinVerifyState::NotFound { pin: prev } => *prev != self.idle_view.pin_input,
            PinVerifyState::Verifying { pin: prev } => *prev != self.idle_view.pin_input,
            PinVerifyState::Idle => true,
        };
        if restart {
            let pin = self.idle_view.pin_input.clone();
            self.idle_view.pin_verify_state = PinVerifyState::Debouncing { since: now, pin };
        }
        None
    }

    /// Connects to the receiver that the PIN lookup found, with the entered
    /// PIN; nothing happens unless the lookup matched.
    pub fn handle_connect_matched(&mut self, now: u64) -> (cmd: Option<UiCommand<A>>)
        ensures
            match old(self).idle_view.pin_verify_state {
                PinVerifyState::Matched { device_name, addr, .. } => {
                    &&& started_connecting(*final(self), *old(self), device_name, now)
                    &&& cmd == Some(
                        UiCommand::Connect { addr, pin: old(self).idle_view.pin_input },
                    )
                },
                _ => {
                    &&& final(self).state == old(self).state
                    &&& final(self).idle_view == old(self).idle_view
                    &&& final(self).visible == old(self).visible
                    &&& cmd is None
                },
            },
    {
        if let PinVerifyState::Matched { device_name, addr, .. } = &self.idle_view.pin_verify_state {
            let addr = *addr;
            let name = device_name.clone();
            let shown = device_name.clone();
            let pin = self.idle_view.pin_input.clone();
            self.idle_view.connecting = true;
            self.idle_view.connecting_device = Some(shown);
            self.idle_view.error = None;
            self.state = AppState::Connecting { device_name: name, started_at: now };
            Some(UiCommand::Connect { addr, pin })
        } else {
            None
        }
    }

    /// Gives up a connection attempt 10 seconds after it started.
    pub fn check_connecting_timeout(&mut self, now: u64)
        ensures
            match old(self).state {
                AppState::Connecting { started_at, .. } if now >= started_at && now - started_at
                    >= CONNECT_TIMEOUT_MS => {
                    &&& back_to_idle(*final(self), *old(self))
                    &&& (final(self).idle_view.error matches Some(e) && e@ == timeout_message())
                },
                _ => {
                    &&& final(self).state == old(self).state
                    &&& final(self).idle_view == old(self).idle_view
                    &&& final(self).visible == old(self).visible
                },
            },
    {
        let timed_out = match &self.state {
            AppState::Connecting { started_at, .. } => now >= *started_at && now - *started_at
                >= CONNECT_TIMEOUT_MS,
            _ => false,
        };
        if timed_out {
            self.idle_view.connecting = false;
            self.idle_view.connecting_device = None;
            self.idle_view.error = Some(timeout_error());
            self.state = AppState::Idle;
        }
    }

    /// Acts on the choice made on the idle view (shown while idle or
    /// connecting): connect to a listed receiver with the given PIN, or to
    /// the receiver that the PIN lookup found.
    pub fn on_idle_action(&mut self, action: IdleAction, now: u64) -> (cmd: Option<UiCommand<A>>)
        ensures
            match (old(self).state, action) {
                (AppState::Idle, IdleAction::Connect { device_index, pin })
                | (AppState::Connecting { .. }, IdleAction::Connect { device_index, pin }) => {
                    if device_index < old(self).idle_view.devices@.len() {
                        let d = old(self).idle_view.devices@[device_index as int];
                        &&& started_connecting(*final(self), *old(self), d.name, now)
                        &&& cmd == Some(UiCommand::Connect { addr: d.addr, pin })
                    } else {
                        &&& final(self).state == old(self).state
                        &&& final(self).idle_view == old(self).idle_view
                        &&& final(self).visible == old(self).visible
                        &&& cmd is None
                    }
                },
                (AppState::Idle, IdleAction::ConnectMatched)
                | (AppState::Connecting { .. }, IdleAction::ConnectMatched) => {
                    match old(self).idle_view.pin_verify_state {
                        PinVerifyState::Matched { device_name, addr, .. } => {
                            &&& started_connecting(*final(self), *old(self), device_name, now)
                            &&& cmd == Some(
                                UiCommand::Connect { addr, pin: old(self).idle_view.pin_input },
                            )
                        },
                        _ => {
                            &&& final(self).state == old(self).state
                            &&& final(self).idle_view == old(self).idle_view
                            &&& final(self).visible == old(self).visible
                            &&& cmd is None
                        },
                    }
                },
                _ => {
                    &&& final(self).state == old(self).state
                    &&& final(self).idle_view == old(self).idle_view
                    &&& final(self).visible == old(self).visible
                    &&& cmd is None
                },
            },
    {
        let on_idle_view = match &self.state {
            AppState::Idle => true,
            AppState::Connecting { .. } => true,
            _ => false,
        };
        if !on_idle_view {
            return None;
        }
        match action {
            IdleAction::Connect { device_index, pin } => {
                if device_index < self.idle_view.devices.len() {
                    let addr = self.idle_view.devices[device_index].addr;
                    let name = self.idle_view.devices[device_index].name.clone();
                    let shown = self.idle_view.devices[device_index].name.clone();
                    self.idle_view.connecting = true;
                    self.idle_view.connecting_device = Some(shown);
                    self.idle_view.error = None;
                    self.state = AppState::Connecting { device_name: name, started_at: now };
                    Some(UiCommand::Connect { addr, pin })
                } else {
                    None
                }
            },
            IdleAction::ConnectMatched => self.handle_connect_matched(now),
            IdleAction::NoAction => None,
        }
    }

    /// Acts on the choice made on the mode view: starting a capture mode is
    /// sent to the backend; the screen changes when streaming has started.
    pub fn on_mode_action(&mut self, action: ModeAction) -> (cmd: Option<UiCommand<A>>)
        ensures
            final(self).state == old(self).state,
            final(self).idle_view == old(self).idle_view,
            final(self).visible == old(self).visible,
            cmd == match (old(self).state, action) {
                (AppState::ModeSelect { .. }, ModeAction::Start(mode)) => Some(
                    UiCommand::<A>::StartStreaming { mode },
                ),
                _ => None,
            },
    {
        match (&self.state, action) {
            (AppState::ModeSelect { .. }, ModeAction::Start(mode)) => Some(
                UiCommand::StartStreaming { mode },
            ),
            _ => None,
        }
    }

    /// Acts on the choice made on the streaming view: pausing switches to
    /// the paused screen; disconnecting waits for the backend's event.
    pub fn on_streaming_action(&mut self, action: StreamingAction) -> (cmd: Option<UiCommand<A>>)
        ensures
            final(self).idle_view == old(self).idle_view,
            final(self).visible == old(self).visible,
            match (old(self).state, action) {
                (AppState::Streaming { device_name, .. }, StreamingAction::Pause) => {
                    &&& final(self).state == AppState::<S>::Paused { device_name }
                    &&& cmd == Some(UiCommand::<A>::Pause)
                },
                (AppState::Streaming { .. }, StreamingAction::Disconnect) => {
                    &&& final(self).state == old(self).state
                    &&& cmd == Some(UiCommand::<A>::Disconnect)
                },
                _ => final(self).state == old(self).state && cmd is None,
            },
    {
        let name = match &self.state {
            AppState::Streaming { device_name, .. } => device_name.clone(),
            _ => {
                return None;
            },
        };
        match action {
            StreamingAction::Pause => {
                self.state = AppState::Paused { device_name: name };
                Some(UiCommand::Pause)
            },
            StreamingAction::Disconnect => Some(UiCommand::Disconnect),
            StreamingAction::NoAction => None,
        }
    }

    /// Acts on the choice made on the paused view: resuming switches back
    /// to streaming with statistics reset; disconnecting waits for the
    /// backend's event.
    pub fn on_paused_action(&mut self, action: PausedAction) -> (cmd: Option<UiCommand<A>>)
        ensures
            final(self).idle_view == old(self).idle_view,
            final(self).visible == old(self).visible,
            match (old(self).state, action) {
                (AppState::Paused { device_name }, PausedAction::Resume) => {
                    &&& (final(self).state matches AppState::Streaming { device_name: d, stats }
                        && d == device_name && call_ensures(S::default, (), stats))
                    &&& cmd == Some(UiCommand::<A>::Resume)
                },
                (AppState::Paused { .. }, PausedAction::Disconnect) => {
                    &&& final(self).state == old(self).state
                    &&& cmd == Some(UiCommand::<A>::Disconnect)
                },
                _ => final(self).state == old(self).state && cmd is None,
            },
    {
        let name = match &self.state {
            AppState::Paused { device_name } => device_name.clone(),
            _ => {
                return None;
            },
        };
        match action {
            PausedAction::Resume => {
                self.state = AppState::Streaming { device_name: name, stats: S::default() };
                Some(UiCommand::Resume)
            },
            PausedAction::Disconnect => Some(UiCommand::Disconnect),
            PausedAction::NoAction => None,
        }
    }

    /// The debug shortcuts (Ctrl/Cmd with a digit) that jump to a screen or
    /// fill in sample data: 1 idle, 2 mode select, 3 streaming with
    /// `sample_stats`, 4 paused (all three with the sample device name),
    /// 5 two sample receivers at `tv_addr` and `projector_addr`, 6 a PIN
    /// error, 7/8/9 a PIN lookup that matched the sample TV at `tv_addr`,
    /// found nothing, or runs.  Other keys change nothing.
    pub fn apply_debug_key(&mut self, key: u8, tv_addr: A, projector_addr: A, sample_stats: S)
        ensures
            final(self).visible == old(self).visible,
            key == 1 ==> back_to_idle(*final(self), *old(self)) && final(self).idle_view.error is None,
            key == 2 ==> (final(self).state matches AppState::ModeSelect { device_name }
                && device_name@ == debug_device_name()) && final(self).idle_view == old(
                self,
            ).idle_view,
            key == 3 ==> (final(self).state matches AppState::Streaming { device_name, stats }
                && device_name@ == debug_device_name() && stats == sample_stats)
                && final(self).idle_view == old(self).idle_view,
            key == 4 ==> (final(self).state matches AppState::Paused { device_name }
                && device_name@ == debug_device_name()) && final(self).idle_view == old(
                self,
            ).idle_view,
            key == 5 ==> {
                let ds = final(self).idle_view.devices@;
                &&& final(self).state == old(self).state
                &&& ds.len() == 2
                &&& ds[0].name@ == "客厅电视"@ && ds[0].addr == tv_addr
                &&& ds[1].name@ == "会议室投影"@ && ds[1].addr == projector_addr
                &&& final(self).idle_view == IdleViewState {
                    devices: final(self).idle_view.devices,
                    ..old(self).idle_view
                }
            },
            key == 6 ==> {
                &&& final(self).state == old(self).state
                &&& (final(self).idle_view.error matches Some(e) && e@ == "投屏码错误，请重试"@)
                &&& final(self).idle_view == IdleViewState {
                    error: final(self).idle_view.error,
                    ..old(self).idle_view
                }
            },
            key == 7 ==> {
                &&& final(self).state == old(self).state
                &&& idle_same_but_pin_state(final(self).idle_view, old(self).idle_view)
                &&& (final(self).idle_view.pin_verify_state matches PinVerifyState::Matched {
                    device_name,
                    addr,
                    pin,
                } && device_name@ == "测试电视"@ && addr == tv_addr && pin == old(
                    self,
                ).idle_view.pin_input)
            },
            key == 8 ==> {
                &&& final(self).state == old(self).state
                &&& idle_same_but_pin_state(final(self).idle_view, old(self).idle_view)
                &&& final(self).idle_view.pin_verify_state == PinVerifyState::<A>::NotFound {
                    pin: old(self).idle_view.pin_input,
                }
            },
            key == 9 ==> {
                &&& final(self).state == old(self).state
                &&& idle_same_but_pin_state(final(self).idle_view, old(self).idle_view)
                &&& final(self).idle_view.pin_verify_state == PinVerifyState::<A>::Verifying {
                    pin: old(self).idle_view.pin_input,
                }
            },
            (key == 0 || key > 9) ==> final(self).state == old(self).state && final(self).idle_view
                == old(self).idle_view,
    {
        if key == 1 {
            self.idle_view.connecting = false;
            self.idle_view.connecting_device = None;
            self.idle_view.error = None;
            self.state = AppState::Idle;
        } else if key == 2 {
            self.state = AppState::ModeSelect { device_name: debug_device() };
        } else if key == 3 {
            self.state = AppState::Streaming { device_name: debug_device(), stats: sample_stats };
        } else if key == 4 {
            self.state = AppState::Paused { device_name: debug_device() };
        } else if key == 5 {
            let mut devices: Vec<DiscoveredReceiver<A>> = Vec::new();
            devices.push(DiscoveredReceiver { name: "客厅电视".to_string(), addr: tv_addr });
            devices.push(
                DiscoveredReceiver { name: "会议室投影".to_string(), addr: projector_addr },
            );
            self.idle_view.devices = devices;
        } else if key == 6 {
            self.idle_view.error = Some("投屏码错误，请重试".to_string());
        } else if key == 7 {
            let pin = self.idle_view.pin_input.clone();
            self.idle_view.pin_verify_state = PinVerifyState::Matched {
                device_name: "测试电视".to_string(),
                addr: tv_addr,
                pin,
            };
        } else if key == 8 {
            let pin = self.idle_view.pin_input.clone();
            self.idle_view.pin_verify_state = PinVerifyState::NotFound { pin };
        } else if key == 9 {
            let pin = self.idle_view.pin_input.clone();
            self.idle_view.pin_verify_state = PinVerifyState::Verifying { pin };
        }
    }
}

} // verus!
