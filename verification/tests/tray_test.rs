use screen_mirror::ui::tray::{icon_rgba, TrayState, ICON_SIZE};

#[test]
fn state_colors() {
    assert_eq!(TrayState::Idle.icon_color(), (128, 128, 128));
    assert_eq!(TrayState::Streaming.icon_color(), (39, 174, 96));
    assert_eq!(TrayState::Paused.icon_color(), (243, 156, 18));
}

#[test]
fn icon_is_a_disc() {
    let px = icon_rgba(39, 174, 96);
    assert_eq!(px.len(), ICON_SIZE * ICON_SIZE * 4);
    let at = |x: usize, y: usize| -> [u8; 4] {
        let i = (y * 22 + x) * 4;
        [px[i], px[i + 1], px[i + 2], px[i + 3]]
    };
    assert_eq!(at(11, 11), [39, 174, 96, 255]);
    assert_eq!(at(1, 11), [39, 174, 96, 255]);
    assert_eq!(at(11, 21), [39, 174, 96, 255]);
    assert_eq!(at(0, 11), [0, 0, 0, 0]);
    assert_eq!(at(0, 0), [0, 0, 0, 0]);
    assert_eq!(at(21, 21), [0, 0, 0, 0]);
    assert_eq!(at(19, 5), [39, 174, 96, 255]);
    assert_eq!(at(19, 4), [0, 0, 0, 0]);
    let opaque = (0..22 * 22).filter(|i| px[i * 4 + 3] == 255).count();
    assert_eq!(opaque, (0..22i32).flat_map(|y| (0..22i32).map(move |x| (x, y)))
        .filter(|(x, y)| (x - 11) * (x - 11) + (y - 11) * (y - 11) <= 100).count());
}
