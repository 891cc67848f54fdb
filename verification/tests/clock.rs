use libgibson::clock::{FixedStepClock, TimeSource};
use std::time::Duration;

#[test]
fn fixed_step_clock_is_exact_and_reproducible() {
    let mut a = FixedStepClock::new(Duration::from_millis(50));
    assert_eq!(a.now(), Duration::ZERO);
    assert_eq!(a.advance(), Duration::from_millis(50));
    assert_eq!(a.advance(), Duration::from_millis(100));
    assert_eq!(a.frame(), 2);

    let mut b = FixedStepClock::new(Duration::from_millis(50));
    for _ in 0..2 {
        b.advance();
    }
    assert_eq!(a.now(), b.now());
}

#[test]
fn time_source_fixed_mode_advances_deterministically() {
    let mut ts = TimeSource::fixed(Duration::from_millis(16));
    assert!(ts.is_fixed());
    assert_eq!(ts.advance(), Duration::from_millis(16));
    assert_eq!(ts.advance(), Duration::from_millis(32));
    assert_eq!(ts.now(), Duration::from_millis(32));
}

#[test]
fn real_mode_is_not_fixed() {
    let ts = TimeSource::wall_clock();
    assert!(!ts.is_fixed());
}

