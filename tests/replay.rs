use rustyguard::replay::ReplayWindow;

#[test]
fn window_rejects_repeats_and_old_counters() {
    let mut w = ReplayWindow::new();
    assert!(w.check(0));
    w.mark(0);
    assert!(!w.check(0));
    assert!(w.check(3000));
    w.mark(3000);
    assert_eq!(w.highest(), 3000);
    // 3000 - 952 = 2048 is too far below the highest; 953 is the oldest accepted
    assert!(!w.check(952));
    assert!(w.check(953));
    assert!(!w.check(3000));
    w.mark(953);
    assert!(!w.check(953));
    assert_eq!(w.highest(), 3000);
}

#[test]
fn window_out_of_order_within_width() {
    let mut w = ReplayWindow::new();
    for c in [10u64, 5, 7, 2047, 1] {
        assert!(w.check(c));
        w.mark(c);
    }
    for c in [10u64, 5, 7, 2047, 1] {
        assert!(!w.check(c));
    }
    assert!(w.check(6));
    assert!(w.check(0));
    // a jump of more than the width forgets everything below
    w.mark(10_000);
    assert!(!w.check(2047));
    assert!(w.check(9_999));
}

#[test]
fn window_accepted_counters_stay_within_width() {
    let mut w = ReplayWindow::new();
    let mut accepted = Vec::new();
    for c in [5u64, 4000, 3000, 1953, 1952, 4001, 6000, 3953] {
        if w.check(c) {
            w.mark(c);
            accepted.push(c);
        }
    }
    assert_eq!(accepted, vec![5, 4000, 3000, 1953, 4001, 6000, 3953]);
    let h = w.highest();
    assert_eq!(h, 6000);
    for c in [5u64, 4000, 3000, 1953, 4001] {
        // refused: below the window, or already accepted
        assert!(!w.check(c));
    }
}
