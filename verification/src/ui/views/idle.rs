//! State of the idle view (device list, PIN entry and PIN lookup) and what
//! the user chose on it.

use vstd::prelude::*;
use vstd::slice::slice_to_vec;
use vstd::utf8::{encode_utf8, is_ascii_chars, is_ascii_chars_encode_utf8};

use crate::discovery::browser::DiscoveredReceiver;
use crate::text::{append_str, ascii_to_string, decimal, decimal_string};

verus! {

/// Progress of looking up the entered PIN among the receivers: times are
/// milliseconds on the caller's monotonic clock.
#[derive(Debug, Clone)]
pub enum PinVerifyState<A> {
    Idle,
    Debouncing { since: u64, pin: String },
    Verifying { pin: String },
    Matched { device_name: String, addr: A, pin: String },
    NotFound { pin: String },
}

impl<A> Default for PinVerifyState<A> {
    fn default() -> (s: Self)
        ensures
            s is Idle,
    {
        PinVerifyState::Idle
    }
}

#[derive(Debug)]
pub struct IdleViewState<A> {
    pub devices: Vec<DiscoveredReceiver<A>>,
    pub selected_device: Option<usize>,
    pub pin_input: String,
    pub pin_cursor: usize,
    pub pin_verify_state: PinVerifyState<A>,
    pub error: Option<String>,
    pub connecting: bool,
    pub connecting_device: Option<String>,
}

/// Number of PIN boxes.
pub const PIN_BOXES: usize = 6;

/// `c` is one of `0` to `9`.
pub open spec fn is_digit(c: char) -> bool {
    '0' <= c <= '9'
}

/// The PIN after typing digit `d` into box `cursor`: padded with `0` up to
/// that box if shorter, then that box overwritten.
pub open spec fn pin_with_digit(pin: Seq<char>, cursor: int, d: char) -> Seq<char> {
    let padded = if pin.len() <= cursor {
        pin + Seq::new((cursor + 1 - pin.len()) as nat, |i: int| '0')
    } else {
        pin
    };
    padded.update(cursor, d)
}

pub open spec fn min_usize(a: usize, b: usize) -> usize {
    if a <= b {
        a
    } else {
        b
    }
}

/// All of the idle view but the PIN and its cursor is as in `old`.
pub open spec fn same_but_pin<A>(new: IdleViewState<A>, old: IdleViewState<A>) -> bool {
    &&& new.devices == old.devices
    &&& new.selected_device == old.selected_device
    &&& new.pin_verify_state == old.pin_verify_state
    &&& new.error == old.error
    &&& new.connecting == old.connecting
    &&& new.connecting_device == old.connecting_device
}

/// What the connect button of the idle view shows.
#[derive(Debug, Clone)]
pub enum ConnectButton {
    /// Enabled: "connect to" the receiver the PIN lookup found.
    ConnectTo(String),
    /// Disabled: the lookup runs.
    Matching,
    /// Disabled: no receiver knows the PIN.
    NotFound,
    /// Disabled: no PIN looked up yet.
    Start,
}

impl ConnectButton {
    /// The button's text.
    pub fn label(&self) -> (s: String)
        ensures
            s@ == match self {
                ConnectButton::ConnectTo(name) => "连接到 "@ + name@,
                ConnectButton::Matching => "匹配中..."@,
                ConnectButton::NotFound => "未找到设备"@,
                ConnectButton::Start => "开始投屏"@,
            },
    {
        match self {
            ConnectButton::ConnectTo(name) => {
                let mut s = "连接到 ".to_string();
                append_str(&mut s, name.as_str());
                s
            },
            ConnectButton::Matching => "匹配中...".to_string(),
            ConnectButton::NotFound => "未找到设备".to_string(),
            ConnectButton::Start => "开始投屏".to_string(),
        }
    }

    /// Only a found receiver can be connected to.
    pub fn enabled(&self) -> (b: bool)
        ensures
            b == (self is ConnectTo),
    {
        match self {
            ConnectButton::ConnectTo(_) => true,
            _ => false,
        }
    }
}

impl<A> IdleViewState<A> {
    /// The badge of the device list: searching while none is known, else
    /// how many are available.
    pub fn device_badge(&self) -> (s: String)
        ensures
            s@ == if self.devices@.len() == 0 {
                "搜索中..."@
            } else {
                decimal(self.devices@.len() as nat) + " 台可用"@
            },
    {
        if self.devices.len() == 0 {
            "搜索中...".to_string()
        } else {
            let mut s = decimal_string(self.devices.len() as u64);
            append_str(&mut s, " 台可用");
            s
        }
    }

    /// The text shown while connecting.
    pub fn connecting_label(&self) -> (s: String)
        ensures
            s@ == "正在连接 "@ + match self.connecting_device {
                Some(d) => d@,
                None => "设备"@,
            } + "..."@,
    {
        let mut s = "正在连接 ".to_string();
        match &self.connecting_device {
            Some(d) => append_str(&mut s, d.as_str()),
            None => append_str(&mut s, "设备"),
        }
        append_str(&mut s, "...");
        s
    }

    /// The device clicked in the list becomes the selected one.
    pub fn select_device(&mut self, index: usize)
        ensures
            final(self).selected_device == Some(index),
            final(self).devices == old(self).devices,
            final(self).pin_input == old(self).pin_input,
            final(self).pin_cursor == old(self).pin_cursor,
            final(self).pin_verify_state == old(self).pin_verify_state,
            final(self).error == old(self).error,
            final(self).connecting == old(self).connecting,
            final(self).connecting_device == old(self).connecting_device,
    {
        self.selected_device = Some(index);
    }

    fn pin_bytes(&self) -> (b: Vec<u8>)
        requires
            is_ascii_chars(self.pin_input@),
        ensures
            b@.len() == self.pin_input@.len(),
            forall|i: int| 0 <= i < b@.len() ==> b@[i] == self.pin_input@[i] as u8,
    {
        proof {
            is_ascii_chars_encode_utf8(self.pin_input@);
        }
        slice_to_vec(self.pin_input.as_str().as_bytes())
    }

    /// The connect button for the current PIN lookup state.
    pub fn connect_button(&self) -> (b: ConnectButton)
        ensures
            match self.pin_verify_state {
                PinVerifyState::Matched { device_name, .. } => b == ConnectButton::ConnectTo(
                    device_name,
                ),
                PinVerifyState::Verifying { .. } => b == ConnectButton::Matching,
                PinVerifyState::NotFound { .. } => b == ConnectButton::NotFound,
                _ => b == ConnectButton::Start,
            },
    {
        match &self.pin_verify_state {
            PinVerifyState::Matched { device_name, .. } => ConnectButton::ConnectTo(
                device_name.clone(),
            ),
            PinVerifyState::Verifying { .. } => ConnectButton::Matching,
            PinVerifyState::NotFound { .. } => ConnectButton::NotFound,
            _ => ConnectButton::Start,
        }
    }

    /// What a click on the connect button asks for: connecting to the
    /// receiver found, when the lookup matched; nothing otherwise.
    pub fn connect_clicked(&self) -> (a: IdleAction)
        ensures
            if self.pin_verify_state is Matched {
                a is ConnectMatched
            } else {
                a is NoAction
            },
    {
        match &self.pin_verify_state {
            PinVerifyState::Matched { .. } => IdleAction::ConnectMatched,
            _ => IdleAction::NoAction,
        }
    }

    /// Keeps the cursor on one of the six boxes.
    pub fn clamp_cursor(&mut self)
        ensures
            final(self).pin_cursor == min_usize(old(self).pin_cursor, 5),
            final(self).pin_input == old(self).pin_input,
            same_but_pin(*final(self), *old(self)),
    {
        if self.pin_cursor > 5 {
            self.pin_cursor = 5;
        }
    }

    /// Moves the cursor to the box clicked.
    pub fn select_box(&mut self, index: usize)
        ensures
            final(self).pin_cursor == index,
            final(self).pin_input == old(self).pin_input,
            same_but_pin(*final(self), *old(self)),
    {
        self.pin_cursor = index;
    }

    /// Types a character: a digit goes into the box under the cursor (the
    /// PIN padded with `0` up to it) and the cursor moves on, up to the
    /// last box; anything else, or a cursor past the boxes, is ignored.
    pub fn type_char(&mut self, ch: char)
        requires
            is_ascii_chars(old(self).pin_input@),
        ensures
            is_ascii_chars(final(self).pin_input@),
            same_but_pin(*final(self), *old(self)),
            if is_digit(ch) && old(self).pin_cursor < PIN_BOXES {
                &&& final(self).pin_input@ == pin_with_digit(
                    old(self).pin_input@,
                    old(self).pin_cursor as int,
                    ch,
                )
                &&& final(self).pin_cursor == min_usize((old(self).pin_cursor + 1) as usize, 5)
            } else {
                final(self).pin_input == old(self).pin_input && final(self).pin_cursor == old(
                    self,
                ).pin_cursor
            },
    {
        if '0' <= ch && ch <= '9' && self.pin_cursor < PIN_BOXES {
            let cursor = self.pin_cursor;
            let ghost p = self.pin_input@;
            let mut b = self.pin_bytes();
            while b.len() <= cursor
                invariant
                    cursor < PIN_BOXES,
                    p.len() <= b@.len(),
                    b@.len() > p.len() ==> b@.len() <= cursor + 1,
                    is_ascii_chars(p),
                    forall|i: int|
                        0 <= i < b@.len() ==> b@[i] == (if i < p.len() {
                            p[i] as u8
                        } else {
                            48u8
                        }),
                decreases cursor + 1 - b@.len(),
            {
                b.push(48u8);
            }
            b.set(cursor, ch as u8);
            proof {
                let expected = pin_with_digit(p, cursor as int, ch);
                assert forall|i: int| 0 <= i < b@.len() implies b@[i] < 128 by {}
                assert(b@.map_values(|x: u8| x as char) =~= expected);
            }
            self.pin_input = ascii_to_string(b);
            self.pin_cursor = if cursor + 1 < 5 {
                cursor + 1
            } else {
                5
            };
        }
    }

    /// Deletes the character before the cursor (or the last one, when the
    /// cursor is past the end) and moves the cursor onto its box.
    pub fn backspace(&mut self)
        requires
            is_ascii_chars(old(self).pin_input@),
        ensures
            is_ascii_chars(final(self).pin_input@),
            same_but_pin(*final(self), *old(self)),
            if old(self).pin_cursor > 0 && old(self).pin_input@.len() > 0 {
                let r = min_usize(old(self).pin_cursor, old(self).pin_input@.len() as usize) - 1;
                &&& final(self).pin_input@ == old(self).pin_input@.remove(r)
                &&& final(self).pin_cursor == r
            } else {
                final(self).pin_input == old(self).pin_input && final(self).pin_cursor == old(
                    self,
                ).pin_cursor
            },
    {
        let b = self.pin_bytes();
        if self.pin_cursor > 0 && b.len() > 0 {
            let ghost p = self.pin_input@;
            let r = (if self.pin_cursor < b.len() {
                self.pin_cursor
            } else {
                b.len()
            }) - 1;
            let mut out: Vec<u8> = Vec::new();
            let ghost q = p.remove(r as int);
            let mut i: usize = 0;
            while i < b.len()
                invariant
                    i <= b@.len(),
                    r < b@.len(),
                    b@.len() == p.len(),
                    q == p.remove(r as int),
                    forall|j: int| 0 <= j < b@.len() ==> b@[j] == p[j] as u8,
                    out@.len() == if i <= r {
                        i as int
                    } else {
                        i - 1
                    },
                    forall|j: int| 0 <= j < out@.len() ==> #[trigger] out@[j] == q[j] as u8,
                decreases b@.len() - i,
            {
                if i != r {
                    let ghost before = out@;
                    out.push(b[i]);
                    proof {
                        let k = out@.len() - 1;
                        assert(q[k] == p[i as int]);
                        assert forall|j: int| 0 <= j < out@.len() implies #[trigger] out@[j]
                            == q[j] as u8 by {
                            if j < k {
                                assert(out@[j] == before[j]);
                            }
                        }
                    }
                }
                i = i + 1;
            }
            proof {
                assert(is_ascii_chars(q));
                assert forall|j: int| 0 <= j < out@.len() implies out@[j] < 128 && (
                #[trigger] out@[j]) as char == q[j] by {
                    assert(q[j] <= '\u{7f}');
                }
                assert(out@.map_values(|x: u8| x as char) =~= q);
            }
            self.pin_input = ascii_to_string(out);
            self.pin_cursor = r;
        }
    }

    /// Moves the cursor one box left, if it is not on the first.
    pub fn cursor_left(&mut self)
        ensures
            final(self).pin_cursor == if old(self).pin_cursor > 0 {
                (old(self).pin_cursor - 1) as usize
            } else {
                0
            },
            final(self).pin_input == old(self).pin_input,
            same_but_pin(*final(self), *old(self)),
    {
        if self.pin_cursor > 0 {
            self.pin_cursor = self.pin_cursor - 1;
        }
    }

    /// Moves the cursor one box right, but not past the PIN's end nor the
    /// last box.
    pub fn cursor_right(&mut self)
        requires
            is_ascii_chars(old(self).pin_input@),
            old(self).pin_cursor < usize::MAX,
        ensures
            final(self).pin_cursor == min_usize(
                (old(self).pin_cursor + 1) as usize,
                min_usize(old(self).pin_input@.len() as usize, 5),
            ),
            final(self).pin_input == old(self).pin_input,
            same_but_pin(*final(self), *old(self)),
    {
        proof {
            is_ascii_chars_encode_utf8(self.pin_input@);
        }
        let len = self.pin_input.as_str().as_bytes().len();
        let limit = if len < 5 {
            len
        } else {
            5
        };
        let next = self.pin_cursor + 1;
        self.pin_cursor = if next < limit {
            next
        } else {
            limit
        };
    }
}

#[derive(Debug, Clone)]
pub enum IdleAction {
    NoAction,
    Connect { device_index: usize, pin: String },
    ConnectMatched,
}

} // verus!
