use libgibson::cell::Style;
use libgibson::glitch::{invert_rect, row_shift, scramble_rect_scaled, tear};
use libgibson::surface::{Rect, Surface};

fn surface_with(text: &str, w: u16, h: u16) -> Surface {
    let mut s = Surface::new(w, h);
    s.print_str(0, 0, text, Style::default(), None);
    s
}

#[test]
fn row_shift_moves_content_and_fills_with_spaces() {
    let mut s = surface_with("ABCDEF", 8, 1);
    row_shift(&mut s, Rect::new(0, 0, 8, 1), 2, 0);
    assert_eq!(s.get(0, 0).unwrap().glyph.grapheme.as_str(), " ");
    assert_eq!(s.get(2, 0).unwrap().glyph.grapheme.as_str(), "A");
    assert_eq!(s.get(7, 0).unwrap().glyph.grapheme.as_str(), "F");
}

#[test]
fn glitch_never_leaves_dangling_wide_glyphs() {
    let mut s = Surface::new(10, 1);
    s.print_str(0, 0, "你好世界", Style::default(), None);
    // Aggressive tearing/shifting must not leave a lead without continuation.
    for seed in 0..20 {
        row_shift(&mut s, Rect::new(0, 0, 10, 1), 1, seed);
    }
    for x in 0..10u16 {
        let c = s.get(x, 0).unwrap();
        if c.is_continuation && x > 0 {
            let prev = s.get(x - 1, 0).unwrap();
            assert!(
                prev.glyph.display_width == 2 && !prev.is_continuation,
                "continuation at {x} without lead"
            );
        }
        if c.glyph.display_width == 2 && !c.is_continuation {
            let next = s.get(x + 1, 0).unwrap();
            assert!(next.is_continuation, "lead at {x} without continuation");
        }
    }
}

#[test]
fn invert_only_changes_opaque_cells() {
    let mut s = Surface::new_transparent(4, 1);
    s.print_str(0, 0, "AB", Style::default(), None);
    invert_rect(&mut s, Rect::new(0, 0, 4, 1));
    assert!(s.get(0, 0).unwrap().style.reverse);
    assert!(!s.get(2, 0).unwrap().style.reverse); // transparent cell untouched
}

#[test]
fn empty_rect_is_a_noop() {
    let mut s = surface_with("X", 4, 1);
    row_shift(&mut s, Rect::new(0, 0, 0, 0), 3, 1);
    invert_rect(&mut s, Rect::new(0, 0, 0, 0));
    tear(&mut s, Rect::new(0, 0, 0, 0), 1);
    assert_eq!(s.get(0, 0).unwrap().glyph.grapheme.as_str(), "X");
}

#[test]
fn scramble_is_deterministic_and_bounded() {
    let mut a = surface_with("HACK THE PLANET", 20, 1);
    let mut b = surface_with("HACK THE PLANET", 20, 1);
    // Density 1.0 is the full threshold, 2^24.
    scramble_rect_scaled(&mut a, Rect::new(0, 0, 20, 1), &["#", "?", "@"], 1 << 24, 5, Style::default());
    scramble_rect_scaled(&mut b, Rect::new(0, 0, 20, 1), &["#", "?", "@"], 1 << 24, 5, Style::default());
    assert_eq!(a.get(0, 0).unwrap().glyph.grapheme, b.get(0, 0).unwrap().glyph.grapheme);
}

#[test]
fn scramble_with_zero_threshold_changes_nothing() {
    let mut a = surface_with("HACK", 6, 1);
    let before = a.clone();
    scramble_rect_scaled(&mut a, Rect::new(0, 0, 6, 1), &["#"], 0, 9, Style::default());
    assert_eq!(a, before);
}

#[test]
fn scramble_full_threshold_replaces_every_narrow_cell() {
    let mut a = surface_with("ab", 2, 1);
    scramble_rect_scaled(&mut a, Rect::new(0, 0, 2, 1), &["#"], 1 << 24, 3, Style::default());
    assert_eq!(a.get(0, 0).unwrap().glyph.grapheme.as_str(), "#");
    assert_eq!(a.get(1, 0).unwrap().glyph.grapheme.as_str(), "#");
}

#[test]
fn tear_only_moves_rows_sideways() {
    let mut s = surface_with("ABCDEFGH", 8, 1);
    for seed in 0..50 {
        tear(&mut s, Rect::new(0, 0, 8, 1), seed);
    }
    // Whatever moved, every cell is a space or one of the printed letters.
    for x in 0..8u16 {
        let g = s.get(x, 0).unwrap().glyph.grapheme.clone();
        assert!(g == " " || "ABCDEFGH".contains(g.as_str()));
    }
}

#[test]
fn row_shift_with_jitter_stays_within_one_cell() {
    // A non-zero seed shifts by amount - 1 up to amount + 2.
    let mut s = surface_with("A", 8, 1);
    row_shift(&mut s, Rect::new(0, 0, 8, 1), 3, 77);
    let pos: Vec<u16> = (0..8u16).filter(|&x| s.get(x, 0).unwrap().glyph.grapheme == "A").collect();
    assert_eq!(pos.len(), 1);
    assert!((2..=5).contains(&pos[0]));
}

#[test]
fn tear_is_deterministic_per_seed() {
    for seed in 0..40u64 {
        let mut a = surface_with("ABCDEFGH", 8, 4);
        let mut b = surface_with("ABCDEFGH", 8, 4);
        tear(&mut a, Rect::new(1, 0, 6, 4), seed);
        tear(&mut b, Rect::new(1, 0, 6, 4), seed);
        assert_eq!(a, b);
        // Column 0 and column 7 lie outside the rectangle.
        assert_eq!(a.get(0, 0).unwrap().glyph.grapheme.as_str(), "A");
        assert_eq!(a.get(7, 0).unwrap().glyph.grapheme.as_str(), "H");
    }
}
