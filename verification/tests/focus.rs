use libgibson::focus::{FocusId, FocusRing};

#[test]
fn cycles_with_wraparound() {
    let mut f = FocusRing::new([FocusId(1), FocusId(2), FocusId(3)]);
    assert_eq!(f.current(), Some(FocusId(1)));
    assert_eq!(f.focus_next(), Some(FocusId(2)));
    assert_eq!(f.focus_next(), Some(FocusId(3)));
    assert_eq!(f.focus_next(), Some(FocusId(1)));
    assert_eq!(f.focus_prev(), Some(FocusId(3)));
}

#[test]
fn set_only_known_ids() {
    let mut f = FocusRing::new([FocusId(7)]);
    assert!(f.set(FocusId(7)));
    assert!(!f.set(FocusId(99)));
    assert_eq!(f.current(), Some(FocusId(7)));
}

#[test]
fn capture_and_release_restores_previous_focus() {
    let mut f = FocusRing::new([FocusId(1), FocusId(2)]);
    f.set(FocusId(2));
    f.capture();
    assert!(f.is_captured());
    f.set(FocusId(1)); // modal moves focus
    assert_eq!(f.release(), Some(FocusId(2)));
    assert!(!f.is_captured());
}

#[test]
fn nested_capture_restores_in_order() {
    let mut f = FocusRing::new([FocusId(1), FocusId(2), FocusId(3)]);
    f.set(FocusId(1));
    f.capture();
    f.set(FocusId(2));
    f.capture();
    f.set(FocusId(3));
    assert_eq!(f.release(), Some(FocusId(2)));
    assert_eq!(f.release(), Some(FocusId(1)));
    // Extra release is harmless.
    assert_eq!(f.release(), Some(FocusId(1)));
}

#[test]
fn empty_ring_is_safe() {
    let mut f = FocusRing::default();
    assert!(f.is_empty());
    assert_eq!(f.current(), None);
    assert_eq!(f.focus_next(), None);
    assert_eq!(f.focus_prev(), None);
}

#[test]
fn duplicate_ids_are_ignored() {
    let f = FocusRing::new([FocusId(1), FocusId(1), FocusId(2)]);
    assert_eq!(f.ring.len(), 2);
}

#[test]
fn release_after_moves_restores_the_captured_member() {
    let mut f = FocusRing::new([FocusId(1), FocusId(2), FocusId(3)]);
    f.set(FocusId(2));
    f.capture();
    f.focus_next();
    f.focus_next();
    f.set(FocusId(1));
    f.focus_prev();
    assert_eq!(f.release(), Some(FocusId(2)));
    assert!(!f.is_captured());
    assert_eq!(f.focus_next(), Some(FocusId(3)));
    assert_eq!(f.focus_prev(), Some(FocusId(2)));
}
