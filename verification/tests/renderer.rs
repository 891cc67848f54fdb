use libgibson::capability::ColorDepth;
use libgibson::cell::{Color, Style};
use libgibson::diff::compute_diff;
use libgibson::renderer::{strip_ansi_escapes, surface_lines, AnchorState, InsertStrategy, RenderMode, Renderer};
use libgibson::surface::Surface;

#[test]
fn test_observe_geometry_invalidates_only_on_change() {
    let mut r = Renderer::new(RenderMode::Inline);
    assert!(!r.observe_geometry(80, 24));
    // Simulate a prior frame having established state.
    r.previous_surface = Some(Surface::new(80, 3));
    r.live_region_height = 3;
    r.anchor = AnchorState::Stable {
        cols: 80,
        rows: 24,
        live_height: 3,
    };
    assert!(r.observe_geometry(40, 12));
    assert_eq!(r.anchor, AnchorState::Invalid);
    assert_eq!(r.anchor_resyncs, 1);
    // Same size again: no further resync.
    assert!(!r.observe_geometry(40, 12));
    assert_eq!(r.anchor_resyncs, 1);
}


#[test]
fn strip_removes_csi_and_osc_sequences() {
    assert_eq!(strip_ansi_escapes("\x1b[1;31mred\x1b[0m plain"), "red plain");
    assert_eq!(strip_ansi_escapes("a\x1b]8;;http://x\x07link\x1b]8;;\x1b\\b"), "alinkb");
    assert_eq!(strip_ansi_escapes("no escapes here"), "no escapes here");
}

#[test]
fn insertion_strategy_needs_a_stable_region_with_room() {
    let mut r = Renderer::new(RenderMode::Inline);
    assert_eq!(r.insert_strategy_for(2, 24, true), InsertStrategy::RepaintFallback);
    r.previous_surface = Some(Surface::new(10, 3));
    r.live_region_height = 3;
    r.anchor = AnchorState::Stable { cols: 10, rows: 24, live_height: 3 };
    assert_eq!(r.insert_strategy_for(2, 24, true), InsertStrategy::InsertLineFastPath);
    assert_eq!(r.insert_strategy_for(2, 24, false), InsertStrategy::RepaintFallback);
    assert_eq!(r.insert_strategy_for(22, 24, true), InsertStrategy::RepaintFallback);
    assert!(InsertStrategy::RepaintFallback.used_fallback());
    assert!(!InsertStrategy::InsertLineFastPath.used_fallback());
}

#[test]
fn clearing_the_live_region() {
    let mut r = Renderer::new(RenderMode::Inline);
    assert!(r.live_region_clear_bytes().is_empty());
    r.live_region_height = 2;
    r.last_cursor_y = 1;
    assert_eq!(r.live_region_clear_bytes(), b"\x1b[1A\r\x1b[K\r\n\x1b[K\x1b[1A\r".to_vec());
    r.record_clear(17);
    assert_eq!(r.total_control_bytes, 17);
    assert_eq!(r.live_region_height, 0);
    assert_eq!(r.anchor, AnchorState::Invalid);
}

#[test]
fn commit_bytes_clear_the_region_then_write_lines() {
    let mut r = Renderer::new(RenderMode::Inline);
    assert_eq!(r.commit_bytes(&["ok"]), b"ok\r\n".to_vec());
    r.live_region_height = 1;
    assert_eq!(r.commit_bytes(&["a", "b"]), b"\r\x1b[K\ra\r\nb\r\n".to_vec());
    r.record_commit(9, true);
    assert_eq!(r.total_commit_bytes, 9);
    assert_eq!(r.live_region_height, 0);
}

#[test]
fn fast_insert_opens_rows_above_the_region() {
    let mut r = Renderer::new(RenderMode::Inline);
    r.live_region_height = 3;
    r.last_cursor_y = 1;
    r.last_cursor_x = 4;
    let bytes = r.fast_insert_bytes(&["x"]);
    assert_eq!(bytes, b"\x1b[1B\r\n\x1b[3A\r\x1b[1Lx\r\n\x1b[1B\x1b[4C".to_vec());
}

#[test]
fn surface_lines_style_terminal_output_and_strip_the_rest() {
    let mut s = Surface::new(6, 2);
    s.print_str(0, 0, "hi", Style::new().bold().fg(Color::Red), None);
    s.print_str(3, 0, "x", Style::new(), None);
    let tty = surface_lines(&s, true, ColorDepth::TrueColor);
    assert_eq!(tty, vec!["\x1b[1;31mhi\x1b[0m x".to_string(), String::new()]);
    let plain = surface_lines(&s, false, ColorDepth::TrueColor);
    assert_eq!(plain, vec!["hi x".to_string(), String::new()]);
    let mono = surface_lines(&s, true, ColorDepth::Mono);
    assert_eq!(mono[0], "\x1b[1mhi\x1b[0m x");
}

#[test]
fn first_inline_frame_allocates_the_region_and_parks_the_cursor() {
    let mut r = Renderer::new(RenderMode::Inline);
    let mut s = Surface::new(3, 2);
    s.print_str(0, 0, "ab", Style::new(), None);
    let diff = compute_diff(None, &s);
    assert!(r.frame_needed(&diff, None));
    let h = r.frame_height(24, 2);
    assert_eq!(h, 2);
    let bytes = r.frame_bytes(&diff, h, false, None, None, Some(b"\x1b[?25l"));
    assert_eq!(bytes, b"\r\n\x1b[1A\r\x1b[?7lab\x1b[?7h\r\n\x1b[?25l".to_vec());
    assert_eq!(r.live_region_height, 2);
    assert_eq!((r.last_cursor_x, r.last_cursor_y), (0, 1));
    r.record_frame(s.clone(), None, 80, 24, h, bytes.len());
    assert_eq!(r.anchor, AnchorState::Stable { cols: 80, rows: 24, live_height: 2 });
    // The same frame again needs nothing.
    let same = compute_diff(Some(&s), &s);
    assert!(!r.frame_needed(&same, None));
}

#[test]
fn fullscreen_height_is_the_terminal_and_inline_keeps_a_row_free() {
    let full = Renderer::new(RenderMode::Fullscreen);
    assert_eq!(full.frame_height(24, 3), 24);
    let inline = Renderer::new(RenderMode::Inline);
    assert_eq!(inline.frame_height(24, 0), 1);
    assert_eq!(inline.frame_height(24, 100), 23);
    assert_eq!(inline.frame_height(1, 5), 1);
}

#[test]
fn fallback_insertion_repaints_the_live_frame() {
    let mut r = Renderer::new(RenderMode::Inline);
    let mut s = Surface::new(3, 1);
    s.print_str(0, 0, "ab", Style::new(), None);
    r.previous_surface = Some(s);
    r.live_region_height = 1;
    let bytes = r.fallback_insert_bytes(&["x"], None, Some(b"H"));
    assert_eq!(bytes, b"\r\x1b[Jx\r\n\x1b[?7lab\x1b[?7h\rH".to_vec());
    r.record_insertion(bytes.len(), InsertStrategy::RepaintFallback);
    assert_eq!(r.fallback_insertions, 1);
    assert_eq!(r.history_insertions, 1);
}

#[test]
fn stripping_twice_is_stripping_once() {
    let once = strip_ansi_escapes("\x1b[1;32mok\x1b[0m \x1b]0;t\x07done\x1b");
    assert_eq!(once, "ok done");
    assert!(!once.contains('\x1b'));
    assert_eq!(strip_ansi_escapes(&once), once);
}

#[test]
fn mirror_counters_copies_operation_counts_into_stats() {
    let mut r = Renderer::new(RenderMode::Inline);
    r.record_commit(9, false);
    r.record_insertion(5, InsertStrategy::RepaintFallback);
    r.record_insertion(3, InsertStrategy::InsertLineFastPath);
    let mut stats = libgibson::scheduler::FrameScheduler::new(30).stats;
    stats.frames = 4;
    r.mirror_counters(&mut stats);
    assert_eq!(stats.commit_bytes, 9);
    assert_eq!(stats.history_insertions, 2);
    assert_eq!(stats.fast_insertions, 1);
    assert_eq!(stats.insertion_repaints, 1);
    assert_eq!(stats.insertion_bytes, 8);
    assert_eq!(stats.frames, 4);
}
