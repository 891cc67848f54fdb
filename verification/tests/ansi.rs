use libgibson::ansi::AnsiCompiler;
use libgibson::cell::Style;
use libgibson::diff::{compute_diff, SurfaceDiff};
use libgibson::surface::Surface;

#[test]
fn test_compiler_empty_diff_emits_zero_bytes() {
    let mut compiler = AnsiCompiler::new(false);
    let diff = SurfaceDiff::default();
    let bytes = compiler.compile(&diff);
    assert_eq!(bytes.len(), 0);
}

#[test]
fn test_compiler_patch_emits_text() {
    let s1 = Surface::new(10, 1);
    let mut s2 = Surface::new(10, 1);
    s2.print_str(0, 0, "hi", Style::default(), None);

    let diff = compute_diff(Some(&s1), &s2);
    let mut compiler = AnsiCompiler::new(false);
    let bytes = compiler.compile(&diff);
    let s = String::from_utf8_lossy(&bytes);
    assert!(s.contains("hi"));
}

#[test]
fn test_compiler_synchronized_update_wrap() {
    let s1 = Surface::new(10, 1);
    let mut s2 = Surface::new(10, 1);
    s2.print_str(0, 0, "a", Style::default(), None);

    let diff = compute_diff(Some(&s1), &s2);
    let mut compiler = AnsiCompiler::new(true);
    let bytes = compiler.compile(&diff);
    let s = String::from_utf8_lossy(&bytes);
    assert!(s.starts_with("\x1b[?2026h"));
    assert!(s.ends_with("\x1b[?2026l"));
}

#[test]
fn test_compiler_erase_to_eol() {
    let mut s1 = Surface::new(20, 1);
    s1.print_str(0, 0, "abcdefghij", Style::default(), None);

    let mut s2 = Surface::new(20, 1);
    s2.print_str(0, 0, "abc", Style::default(), None);

    let diff = compute_diff(Some(&s1), &s2);
    let mut compiler = AnsiCompiler::new(false);
    let bytes = compiler.compile(&diff);
    let s = String::from_utf8_lossy(&bytes);
    assert!(s.contains("\x1b[K")); // Contains CSI K
}

#[test]
fn test_compiler_autowrap_protection() {
    let s1 = Surface::new(10, 1);
    let mut s2 = Surface::new(10, 1);
    s2.print_str(0, 0, "test", Style::default(), None);

    let diff = compute_diff(Some(&s1), &s2);
    let mut compiler = AnsiCompiler::new(false);
    let bytes = compiler.compile(&diff);
    let s = String::from_utf8_lossy(&bytes);
    assert!(s.contains("\x1b[?7l")); // Disables autowrap
    assert!(s.contains("\x1b[?7h")); // Re-enables autowrap
}

#[test]
fn move_to_uses_the_shortest_sequences() {
    let mut c = AnsiCompiler::new(false);
    let mut out = Vec::new();
    c.move_to(0, 1, &mut out);
    assert_eq!(out, b"\r\n".to_vec());
    out.clear();
    c.move_to(5, 4, &mut out);
    assert_eq!(out, b"\x1b[3B\x1b[6G".to_vec());
    out.clear();
    c.move_to(0, 2, &mut out);
    assert_eq!(out, b"\x1b[2A\r".to_vec());
    out.clear();
    c.move_to(0, 2, &mut out);
    assert!(out.is_empty());
    assert_eq!((c.cursor_x, c.cursor_y), (0, 2));
}

#[test]
fn compiled_frame_resets_style_and_moves_cursor() {
    let s1 = Surface::new(4, 1);
    let mut s2 = Surface::new(4, 1);
    s2.print_str(1, 0, "x", Style::new().bold(), None);
    let diff = compute_diff(Some(&s1), &s2);
    let mut c = AnsiCompiler::new(false);
    let bytes = c.compile(&diff);
    assert_eq!(bytes, b"\x1b[?7l\x1b[2G\x1b[1mx\x1b[0m\x1b[?7h".to_vec());
    assert_eq!(c.current_style, Style::new());
    assert_eq!(c.cursor_x, 2);
}
