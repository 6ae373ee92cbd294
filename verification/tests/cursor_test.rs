use screen_mirror::capture::cursor::{composite_cursor, CursorState};

/// A `w` x `h` frame of 4-byte pixels with `pad` spare bytes per row,
/// every byte 100.
fn frame(w: usize, h: usize, pad: usize) -> (Vec<u8>, usize) {
    let pitch = w * 4 + pad;
    (vec![100u8; pitch * h], pitch)
}

fn px(f: &[u8], pitch: usize, x: usize, y: usize) -> [u8; 4] {
    let i = y * pitch + x * 4;
    [f[i], f[i + 1], f[i + 2], f[i + 3]]
}

#[test]
fn opaque_pixels_replace_and_transparent_ones_keep() {
    let (mut f, pitch) = frame(4, 3, 8);
    // 2x1 cursor: opaque red, transparent blue.
    let cursor = [0, 0, 255, 255, 255, 0, 0, 0];
    composite_cursor(&mut f, pitch, 4, 3, &cursor, 1, 1, 2, 1);
    assert_eq!(px(&f, pitch, 1, 1), [0, 0, 255, 255]);
    assert_eq!(px(&f, pitch, 2, 1), [100, 100, 100, 100]);
    assert_eq!(px(&f, pitch, 0, 1), [100, 100, 100, 100]);
    assert_eq!(px(&f, pitch, 1, 0), [100, 100, 100, 100]);
    // Row padding is never touched.
    assert!(f[pitch - 8..pitch].iter().all(|&b| b == 100));
}

#[test]
fn translucent_pixels_blend_colour_but_keep_alpha() {
    let (mut f, pitch) = frame(2, 2, 0);
    let cursor = [200, 0, 50, 128];
    composite_cursor(&mut f, pitch, 2, 2, &cursor, 0, 0, 1, 1);
    let blend = |s: u32, d: u32| ((s * 128 + d * 127) / 255) as u8;
    assert_eq!(px(&f, pitch, 0, 0), [blend(200, 100), blend(0, 100), blend(50, 100), 100]);
}

#[test]
fn cursor_is_clipped_at_the_frame_edges() {
    let (mut f, pitch) = frame(2, 2, 0);
    let opaque = [9u8, 9, 9, 255];
    let cursor: Vec<u8> = opaque.iter().cycle().take(16).cloned().collect(); // 2x2
    composite_cursor(&mut f, pitch, 2, 2, &cursor, -1, 1, 2, 2);
    assert_eq!(px(&f, pitch, 0, 1), [9, 9, 9, 255]);
    assert_eq!(px(&f, pitch, 1, 1), [100, 100, 100, 100]);
    assert_eq!(px(&f, pitch, 0, 0), [100, 100, 100, 100]);
    let (mut g, gp) = frame(2, 2, 0);
    composite_cursor(&mut g, gp, 2, 2, &cursor, 5, 5, 2, 2);
    assert!(g.iter().all(|&b| b == 100));
}

#[test]
fn short_cursor_data_draws_only_what_it_holds() {
    let (mut f, pitch) = frame(3, 1, 0);
    // Claims 3x1 pixels but holds one and a half.
    let cursor = [1, 2, 3, 255, 4, 5];
    composite_cursor(&mut f, pitch, 3, 1, &cursor, 0, 0, 3, 1);
    assert_eq!(px(&f, pitch, 0, 0), [1, 2, 3, 255]);
    assert_eq!(px(&f, pitch, 1, 0), [100, 100, 100, 100]);
    assert_eq!(px(&f, pitch, 2, 0), [100, 100, 100, 100]);
}

#[test]
fn cursor_state_follows_pointer_reports() {
    let mut c = CursorState::new();
    assert!(!c.should_draw());
    c.on_shape(vec![0, 0, 0, 255], 1, 1);
    assert!(c.should_draw());
    c.on_pointer(true, false, 10, 20);
    assert!(!c.should_draw());
    assert_eq!((c.x, c.y), (10, 20));
    c.on_pointer(false, true, 99, 99);
    assert_eq!((c.x, c.y, c.visible), (10, 20, false));
    c.on_pointer(true, true, 3, 4);
    assert!(c.should_draw());
    c.on_shape(Vec::new(), 0, 0);
    assert!(!c.should_draw());
}
