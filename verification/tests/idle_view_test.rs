use screen_mirror::ui::views::idle::{ConnectButton, IdleAction, IdleViewState, PinVerifyState};

type Addr = u32;

fn view(pin: &str, cursor: usize) -> IdleViewState<Addr> {
    IdleViewState {
        devices: Vec::new(),
        selected_device: None,
        pin_input: pin.to_string(),
        pin_cursor: cursor,
        pin_verify_state: PinVerifyState::Idle,
        error: None,
        connecting: false,
        connecting_device: None,
    }
}

#[test]
fn typing_digits_fills_boxes_in_order() {
    let mut v = view("", 0);
    for ch in ['1', '2', '3'] {
        v.type_char(ch);
    }
    assert_eq!(v.pin_input, "123");
    assert_eq!(v.pin_cursor, 3);
}

#[test]
fn typing_on_the_last_box_keeps_the_cursor_there() {
    let mut v = view("12345", 5);
    v.type_char('6');
    assert_eq!(v.pin_input, "123456");
    assert_eq!(v.pin_cursor, 5);
    v.type_char('9');
    assert_eq!(v.pin_input, "123459");
    assert_eq!(v.pin_cursor, 5);
}

#[test]
fn typing_past_the_end_pads_with_zeros() {
    let mut v = view("1", 0);
    v.select_box(4);
    v.type_char('7');
    assert_eq!(v.pin_input, "10007");
    assert_eq!(v.pin_cursor, 5);
}

#[test]
fn typing_overwrites_the_box_under_the_cursor() {
    let mut v = view("123456", 2);
    v.type_char('9');
    assert_eq!(v.pin_input, "129456");
    assert_eq!(v.pin_cursor, 3);
}

#[test]
fn non_digits_are_ignored() {
    let mut v = view("12", 2);
    v.type_char('a');
    v.type_char(' ');
    assert_eq!(v.pin_input, "12");
    assert_eq!(v.pin_cursor, 2);
}

#[test]
fn cursor_beyond_the_boxes_ignores_typing() {
    let mut v = view("123456", 6);
    v.type_char('1');
    assert_eq!(v.pin_input, "123456");
    assert_eq!(v.pin_cursor, 6);
    v.clamp_cursor();
    assert_eq!(v.pin_cursor, 5);
}

#[test]
fn backspace_removes_the_digit_before_the_cursor() {
    let mut v = view("1234", 2);
    v.backspace();
    assert_eq!(v.pin_input, "134");
    assert_eq!(v.pin_cursor, 1);
}

#[test]
fn backspace_past_the_end_removes_the_last_digit() {
    let mut v = view("123", 5);
    v.backspace();
    assert_eq!(v.pin_input, "12");
    assert_eq!(v.pin_cursor, 2);
}

#[test]
fn backspace_at_start_or_on_empty_pin_does_nothing() {
    let mut v = view("12", 0);
    v.backspace();
    assert_eq!(v.pin_input, "12");
    assert_eq!(v.pin_cursor, 0);
    let mut e = view("", 3);
    e.backspace();
    assert_eq!(e.pin_input, "");
    assert_eq!(e.pin_cursor, 3);
}

#[test]
fn cursor_moves_within_the_pin() {
    let mut v = view("12", 0);
    v.cursor_left();
    assert_eq!(v.pin_cursor, 0);
    v.cursor_right();
    assert_eq!(v.pin_cursor, 1);
    v.cursor_right();
    assert_eq!(v.pin_cursor, 2);
    v.cursor_right();
    assert_eq!(v.pin_cursor, 2);
    v.cursor_left();
    assert_eq!(v.pin_cursor, 1);
}

#[test]
fn cursor_right_stops_at_the_last_box() {
    let mut v = view("123456", 5);
    v.cursor_right();
    assert_eq!(v.pin_cursor, 5);
}

#[test]
fn clamp_keeps_a_cursor_on_the_boxes() {
    let mut v = view("", 3);
    v.clamp_cursor();
    assert_eq!(v.pin_cursor, 3);
    v.select_box(9);
    v.clamp_cursor();
    assert_eq!(v.pin_cursor, 5);
}

#[test]
fn editing_leaves_the_rest_of_the_view() {
    let mut v = view("12", 2);
    v.error = Some("old".to_string());
    v.selected_device = Some(1);
    v.type_char('3');
    v.backspace();
    assert_eq!(v.error.as_deref(), Some("old"));
    assert_eq!(v.selected_device, Some(1));
    assert!(matches!(v.pin_verify_state, PinVerifyState::Idle));
}

#[test]
fn connect_button_follows_the_lookup() {
    let mut v = view("123456", 5);
    assert!(matches!(v.connect_button(), ConnectButton::Start));
    assert!(matches!(v.connect_clicked(), IdleAction::NoAction));

    v.pin_verify_state = PinVerifyState::Debouncing { since: 0, pin: "123456".to_string() };
    assert!(matches!(v.connect_button(), ConnectButton::Start));

    v.pin_verify_state = PinVerifyState::Verifying { pin: "123456".to_string() };
    assert!(matches!(v.connect_button(), ConnectButton::Matching));
    assert!(matches!(v.connect_clicked(), IdleAction::NoAction));

    v.pin_verify_state = PinVerifyState::NotFound { pin: "123456".to_string() };
    assert!(matches!(v.connect_button(), ConnectButton::NotFound));

    v.pin_verify_state = PinVerifyState::Matched {
        device_name: "Living Room".to_string(),
        addr: 7,
        pin: "123456".to_string(),
    };
    match v.connect_button() {
        ConnectButton::ConnectTo(name) => assert_eq!(name, "Living Room"),
        other => panic!("unexpected {:?}", other),
    }
    assert!(matches!(v.connect_clicked(), IdleAction::ConnectMatched));
}

#[test]
fn connect_button_texts() {
    assert_eq!(ConnectButton::ConnectTo("客厅".to_string()).label(), "连接到 客厅");
    assert_eq!(ConnectButton::Matching.label(), "匹配中...");
    assert_eq!(ConnectButton::NotFound.label(), "未找到设备");
    assert_eq!(ConnectButton::Start.label(), "开始投屏");
    assert!(ConnectButton::ConnectTo(String::new()).enabled());
    assert!(!ConnectButton::Matching.enabled());
    assert!(!ConnectButton::NotFound.enabled());
    assert!(!ConnectButton::Start.enabled());
}

#[test]
fn device_badge_counts_receivers() {
    let mut v = view("", 0);
    assert_eq!(v.device_badge(), "搜索中...");
    v.devices.push(screen_mirror::discovery::browser::DiscoveredReceiver { name: "A".to_string(), addr: 1 });
    v.devices.push(screen_mirror::discovery::browser::DiscoveredReceiver { name: "B".to_string(), addr: 2 });
    assert_eq!(v.device_badge(), "2 台可用");
}

#[test]
fn connecting_label_names_the_device() {
    let mut v = view("", 0);
    assert_eq!(v.connecting_label(), "正在连接 设备...");
    v.connecting_device = Some("投影仪".to_string());
    assert_eq!(v.connecting_label(), "正在连接 投影仪...");
}

#[test]
fn clicking_a_device_selects_it() {
    let mut v = view("12", 1);
    v.select_device(3);
    assert_eq!(v.selected_device, Some(3));
    assert_eq!(v.pin_input, "12");
    assert_eq!(v.pin_cursor, 1);
}
