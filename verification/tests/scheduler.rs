use libgibson::scheduler::{budget_reached, FrameScheduler, RenderStats};
use std::time::Duration;

#[test]
fn test_scheduler_budget_and_throttling() {
    let mut scheduler = FrameScheduler::new(30);
    assert!(!scheduler.should_render());

    scheduler.request_render();
    assert!(scheduler.should_render());

    // Record a frame
    scheduler.record_frame(10, 100, 50, false, Duration::from_micros(200));
    assert_eq!(scheduler.stats.frames, 1);
    assert_eq!(scheduler.stats.frame_bytes, 50);
    assert!(!scheduler.is_dirty);

    // Mark dirty immediately; frame budget has not elapsed
    scheduler.request_render();
    assert!(!scheduler.should_render());
    assert_eq!(scheduler.stats.skipped_frames, 1);
}

#[test]
fn test_animation_interval_clamped_to_budget() {
    let mut scheduler = FrameScheduler::new(120);
    // 120 FPS budget ~= 8.3ms; a 1ms animation must be clamped up to the budget.
    scheduler.set_animation_interval(Duration::from_millis(1));
    assert!(scheduler.animation_interval() >= scheduler.frame_budget());
    assert!(scheduler.animation_interval() >= Duration::from_millis(8));
}

#[test]
fn test_total_terminal_bytes_is_sum() {
    let s = RenderStats {
        frame_bytes: 10,
        commit_bytes: 20,
        insertion_bytes: 30,
        control_bytes: 40,
        ..Default::default()
    };
    assert_eq!(s.total_terminal_bytes(), 100);
}

#[test]
fn budget_reached_compares_elapsed_with_budget() {
    assert!(!budget_reached(Duration::from_millis(10), Duration::from_millis(9)));
    assert!(budget_reached(Duration::from_millis(10), Duration::from_millis(10)));
    assert!(budget_reached(Duration::from_millis(10), Duration::from_secs(1)));
    assert!(budget_reached(Duration::ZERO, Duration::ZERO));
}

#[test]
fn decide_render_follows_dirty_flag_and_budget() {
    let mut s = FrameScheduler::new(10); // 100 ms budget
    assert!(!s.decide_render(Some(Duration::from_secs(5))));
    assert_eq!(s.stats.skipped_frames, 0);
    s.mark_dirty();
    assert!(s.decide_render(None));
    assert!(!s.decide_render(Some(Duration::from_millis(99))));
    assert_eq!(s.stats.skipped_frames, 1);
    assert!(s.decide_render(Some(Duration::from_millis(100))));
    assert_eq!(s.stats.skipped_frames, 1);
    assert!(s.is_dirty);
}
