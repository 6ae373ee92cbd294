use screen_mirror::capture::screenshot::{bgra_to_rgba, screenshot_from_bgra, take_screenshot};
use screen_mirror::capture::windows::list_windows_windows;
use screen_mirror::capture::list_windows;

#[test]
fn take_screenshot_does_not_panic() {
    let _ = take_screenshot();
}

#[test]
fn bgra_to_rgba_single_pixel() {
    let bgra = vec![10, 20, 30, 255];
    let rgba = bgra_to_rgba(&bgra, 1, 1, 4);
    assert_eq!(rgba, vec![30, 20, 10, 255]);
}

#[test]
fn bgra_to_rgba_with_stride_padding() {
    let mut bgra = vec![0u8; 16];
    bgra[0] = 1;
    bgra[1] = 2;
    bgra[2] = 3;
    bgra[3] = 4;
    bgra[4] = 5;
    bgra[5] = 6;
    bgra[6] = 7;
    bgra[7] = 8;

    let rgba = bgra_to_rgba(&bgra, 2, 1, 16);
    assert_eq!(rgba, vec![3, 2, 1, 4, 7, 6, 5, 8]);
}

#[test]
fn bgra_to_rgba_multi_row() {
    let bgra = vec![
        100, 150, 200, 255, 50, 60, 70, 128, 10, 20, 30, 255, 0, 0, 0, 0,
    ];
    let rgba = bgra_to_rgba(&bgra, 2, 2, 8);
    assert_eq!(
        rgba,
        vec![200, 150, 100, 255, 70, 60, 50, 128, 30, 20, 10, 255, 0, 0, 0, 0,]
    );
}

#[test]
fn bgra_to_rgba_empty_image() {
    assert!(bgra_to_rgba(&[], 0, 5, 0).is_empty());
    assert!(bgra_to_rgba(&[1, 2, 3, 4], 1, 0, 4).is_empty());
}

#[test]
fn screenshot_from_bgra_keeps_dimensions() {
    let s = screenshot_from_bgra(&[1, 2, 3, 4, 9, 9], 1, 1, 6);
    assert_eq!((s.width, s.height), (1, 1));
    assert_eq!(s.rgba, vec![3, 2, 1, 4]);
}

#[test]
fn list_windows_returns_vec() {
    let windows = list_windows();
    assert!(windows.is_empty() || !windows.is_empty());
}

#[test]
fn list_windows_no_empty_titles() {
    let windows = list_windows();
    for w in &windows {
        assert!(!w.title.is_empty() || !w.app_name.is_empty());
    }
}

#[test]
fn list_windows_windows_is_empty() {
    assert!(list_windows_windows().is_empty());
}
