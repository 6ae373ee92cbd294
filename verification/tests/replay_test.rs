use screen_mirror::security::replay::{ReplayWindow, TcpCounterCheck, WINDOW_SIZE};

#[test]
fn sequential_packets_accepted() {
    let mut w = ReplayWindow::new();
    for i in 0..100 {
        assert!(w.check_and_mark(i), "counter {i} should be accepted");
    }
}

#[test]
fn duplicate_rejected() {
    let mut w = ReplayWindow::new();
    assert!(w.check_and_mark(5));
    assert!(!w.check_and_mark(5));
}

#[test]
fn out_of_order_within_window() {
    let mut w = ReplayWindow::new();
    assert!(w.check_and_mark(0));
    assert!(w.check_and_mark(10));
    assert!(w.check_and_mark(5));
    assert!(!w.check_and_mark(5));
}

#[test]
fn too_old_rejected() {
    let mut w = ReplayWindow::new();
    assert!(w.check_and_mark(0));
    assert!(w.check_and_mark(WINDOW_SIZE + 100));
    assert!(!w.check_and_mark(0));
    assert!(!w.check_and_mark(50));
}

#[test]
fn large_jump_resets_window() {
    let mut w = ReplayWindow::new();
    assert!(w.check_and_mark(0));
    assert!(w.check_and_mark(WINDOW_SIZE * 2));
    assert!(!w.check_and_mark(0));
    assert!(!w.check_and_mark(WINDOW_SIZE));
}

#[test]
fn tcp_counter_strictly_increasing() {
    let mut c = TcpCounterCheck::new();
    assert!(c.check(0));
    assert!(c.check(1));
    assert!(c.check(5));
    assert!(!c.check(5));
    assert!(!c.check(3));
    assert!(c.check(6));
}

#[test]
fn replay_edge_of_window_accepted_once() {
    let mut w = ReplayWindow::new();
    assert!(w.check_and_mark(WINDOW_SIZE - 1));
    assert!(w.check_and_mark(0));
    assert!(!w.check_and_mark(0));
    assert!(w.check_and_mark(WINDOW_SIZE));
    assert!(!w.check_and_mark(0));
}

#[test]
fn replay_counter_never_accepted_twice_after_many() {
    let mut w = ReplayWindow::new();
    for i in (0..500u64).rev() {
        assert!(w.check_and_mark(i));
    }
    for i in 0..500u64 {
        assert!(!w.check_and_mark(i));
    }
}

#[test]
fn tcp_counter_first_counter_any_value() {
    let mut c = TcpCounterCheck::new();
    assert!(c.check(u64::MAX));
    assert!(!c.check(u64::MAX));
    assert!(!c.check(0));
}

#[test]
fn run_from_new_follows_accepted_set() {
    let mut w = ReplayWindow::new();
    let counters = [5u64, 3, 5, 3000, 900, 953, 952, 953, 4000];
    let expected = [true, true, false, true, false, true, false, false, true];
    for (c, e) in counters.iter().zip(expected.iter()) {
        assert_eq!(w.check_and_mark(*c), *e, "counter {c}");
    }
}
