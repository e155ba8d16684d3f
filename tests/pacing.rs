use srt_pacer::pacing::PacingClock;

#[test]
fn scenario_with_backwards_timestamp() {
    let s = 5_000u64;
    let mut clock = PacingClock::new();
    let ts = [1000i64, 1010, 1005, 1030];
    let nows = [s, s + 3, s + 4, s + 100];
    let got: Vec<u64> = ts.iter().zip(nows.iter()).map(|(t, n)| clock.next_deadline(*t, *n)).collect();
    assert_eq!(got, vec![s, s + 10, s + 10, s + 30]);
}

#[test]
fn first_call_anchors_at_now() {
    let mut clock = PacingClock::new();
    assert_eq!(clock.anchor(), None);
    assert_eq!(clock.next_deadline(-7, 42), 42);
    assert_eq!(clock.anchor(), Some((-7, 42)));
}

#[test]
fn monotonic_timestamps_follow_start_plus_offset() {
    let mut clock = PacingClock::new();
    let s = 1_000_000u64;
    let ts = [10i64, 11, 45, 46, 1000];
    for (i, t) in ts.iter().enumerate() {
        let now = s + 1000 * i as u64;
        assert_eq!(clock.next_deadline(*t, now), s + (*t - ts[0]) as u64);
    }
}

#[test]
fn anomaly_keeps_anchor_and_deadline() {
    let mut clock = PacingClock::new();
    clock.next_deadline(100, 0);
    let d = clock.next_deadline(200, 1);
    assert_eq!(d, 100);
    let anchor = clock.anchor();
    assert_eq!(clock.next_deadline(200, 50), d);
    assert_eq!(clock.anchor(), anchor);
    assert_eq!(clock.next_deadline(150, 60), d);
    assert_eq!(clock.anchor(), anchor);
    assert_eq!(clock.next_deadline(210, 70), 110);
}

#[test]
fn reset_forgets_anchor() {
    let mut clock = PacingClock::new();
    clock.next_deadline(100, 3);
    clock.reset();
    assert_eq!(clock.anchor(), None);
    assert_eq!(clock.next_deadline(5, 77), 77);
}

#[test]
fn deadline_saturates_at_the_largest_instant() {
    let mut clock = PacingClock::new();
    clock.next_deadline(i64::MIN, u64::MAX - 5);
    assert_eq!(clock.next_deadline(i64::MAX, 0), u64::MAX);
}
