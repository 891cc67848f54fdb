use libgibson::cell::{Color, Style};
use libgibson::clock::FixedStepClock;
use libgibson::glyph::{detect_glyph_mode, GlyphChoice, SubcellGlyphMode};
use libgibson::input::{Event, KeyCode, KeyEvent, KeyModifiers, TextInputState};
use libgibson::scheduler::FrameScheduler;
use std::time::Duration;

#[test]
fn unknown_glyph_values_are_errors_naming_their_source() {
    let none = |_: &str| None;
    assert_eq!(detect_glyph_mode(Some("garbage"), none).unwrap_err(), "unknown --glyphs value: garbage");
    let env = |k: &str| if k == "LIBGIBSON_GLYPHS" { Some("bogus".to_string()) } else { None };
    assert_eq!(detect_glyph_mode(None, env).unwrap_err(), "unknown LIBGIBSON_GLYPHS value: bogus");
    assert_eq!(GlyphChoice::parse("  Shade \t"), Some(GlyphChoice::Fixed(SubcellGlyphMode::Block)));
    assert_eq!(GlyphChoice::parse("half block"), None);
}

#[test]
fn control_keys_edit_the_line() {
    let mut input = TextInputState::with_text("hello world");
    for _ in 0..6 {
        input.move_left();
    }
    let ctrl = |c| Event::Key(KeyEvent::new(KeyCode::Char(c), KeyModifiers::control()));
    assert!(input.handle_event(&ctrl('k')));
    assert_eq!(input.text, "hello");
    assert!(input.handle_event(&ctrl('a')));
    assert_eq!(input.cursor_grapheme, 0);
    assert!(input.handle_event(&ctrl('e')));
    assert_eq!(input.cursor_grapheme, 5);
    input.move_left();
    assert!(input.handle_event(&ctrl('u')));
    assert_eq!(input.text, "o");
    assert_eq!(input.cursor_grapheme, 0);
    assert!(!input.handle_event(&ctrl('z')));
    assert!(!input.handle_event(&Event::Tick));
}

#[test]
fn cursor_out_of_range_is_clamped_before_editing() {
    let mut input = TextInputState::with_text("ab");
    input.cursor_grapheme = 10;
    input.normalize();
    assert_eq!(input.cursor_grapheme, 2);
    input.cursor_grapheme = 10;
    assert!(!input.delete());
    assert_eq!(input.cursor_grapheme, 2);
    assert_eq!(input.total_display_width(), 2);
}

#[test]
fn paste_turns_every_line_break_into_one_space() {
    assert_eq!(TextInputState::normalize_paste("a\r\n\nb\rc"), "a  b c");
    assert_eq!(TextInputState::normalize_paste("a\n\nb"), "a  b");
    assert_eq!(TextInputState::normalize_paste("\r\r\n"), "  ");
}

#[test]
fn fixed_clock_counts_frames_past_32_bits() {
    let c = FixedStepClock { step: Duration::from_nanos(1), frame: 1u64 << 32 };
    assert_eq!(c.now(), Duration::from_nanos(1u64 << 32));
    let d = FixedStepClock { step: Duration::from_millis(1500), frame: 3 };
    assert_eq!(d.now(), Duration::from_millis(4500));
}

#[test]
fn fixed_clock_time_is_step_times_frame() {
    let mut c = FixedStepClock::new(Duration::from_nanos(0));
    assert_eq!(c.step(), Duration::from_nanos(1));
    c.advance();
    c.advance();
    assert_eq!(c.now(), Duration::from_nanos(2));
}

#[test]
fn recorded_frame_duration_is_in_whole_microseconds() {
    let mut s = FrameScheduler::new(0);
    assert_eq!(s.max_fps, 1);
    assert_eq!(s.frame_budget(), Duration::from_secs(1));
    s.record_frame(1, 2, 3, true, Duration::from_nanos(2_999));
    assert_eq!(s.stats.last_render_duration_micros, 2);
    assert_eq!(s.stats.full_repaints, 1);
    assert!(!s.frame_due());
    assert!(s.time_until_next_frame() <= Duration::from_secs(1));
}

#[test]
fn style_overlay_laws_hold_on_examples() {
    let a = Style::new().fg(Color::Red).bold();
    let b = Style::new().bg(Color::Blue);
    let c = Style::new().fg(Color::Green).italic();
    assert_eq!(a.overlay(Style::new()), a);
    assert_eq!(Style::new().overlay(a), a);
    assert_eq!(a.overlay(b).overlay(c), a.overlay(b.overlay(c)));
}
