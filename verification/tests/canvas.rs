use libgibson::canvas::{clip_line_to_bounds, BrailleCanvas, HalfBlockCanvas};
use libgibson::cell::Color;

#[test]
fn braille_each_dot_position_is_exact() {
    // (column, row, expected braille bit)
    let dots = [
        (0u16, 0u16, 0x01u32), // dot 1
        (0, 1, 0x02),          // dot 2
        (0, 2, 0x04),          // dot 3
        (1, 0, 0x08),          // dot 4
        (1, 1, 0x10),          // dot 5
        (1, 2, 0x20),          // dot 6
        (0, 3, 0x40),          // dot 7
        (1, 3, 0x80),          // dot 8
    ];
    for (dx, dy, bit) in dots {
        let mut c = BrailleCanvas::new(1, 1);
        c.set(dx as i32, dy as i32);
        let expected = char::from_u32(0x2800 + bit).unwrap();
        assert_eq!(c.glyph_at(0, 0), Some(expected), "dot at ({dx},{dy})");
        assert!(c.get(dx as i32, dy as i32));
    }
}

#[test]
fn braille_all_dots_is_full_block() {
    let mut c = BrailleCanvas::new(1, 1);
    for y in 0..4 {
        for x in 0..2 {
            c.set(x, y);
        }
    }
    assert_eq!(c.glyph_at(0, 0), Some('\u{28FF}'));
    assert_eq!(c.to_lines(), vec!["⣿".to_string()]);
}

#[test]
fn braille_unset_and_clear() {
    let mut c = BrailleCanvas::new(1, 1);
    c.set(0, 0);
    assert_eq!(c.glyph_at(0, 0), Some('⠁'));
    c.unset(0, 0);
    assert_eq!(c.glyph_at(0, 0), None);
    c.set(1, 3);
    c.clear();
    assert_eq!(c.glyph_at(0, 0), None);
}

#[test]
fn braille_clipping_and_out_of_bounds() {
    let mut c = BrailleCanvas::new(2, 1); // 4x4 dots
    c.set(-1, 0);
    c.set(0, -1);
    c.set(4, 0);
    c.set(0, 4);
    assert!(c.to_lines()[0].trim().is_empty());
    c.set(3, 3); // last valid dot -> dot 8
    assert_eq!(c.glyph_at(1, 0), Some('\u{2880}'));
}

#[test]
fn braille_diagonal_line_covers_endpoints() {
    let mut c = BrailleCanvas::new(4, 2); // 8x8 dots
    c.line(0, 0, 7, 7);
    assert!(c.get(0, 0));
    assert!(c.get(7, 7));
    // A diagonal has one roughly-monotonic dot per column.
    let mut cols = 0;
    for x in 0..8 {
        if (0..8).any(|y| c.get(x, y)) {
            cols += 1;
        }
    }
    assert_eq!(cols, 8);
}

#[test]
fn half_block_top_only_uses_upper_glyph() {
    let mut c = HalfBlockCanvas::new(1, 1);
    c.set_pixel(0, 0, (255, 0, 0));
    let s = c.to_surface();
    let cell = s.get(0, 0).unwrap();
    assert_eq!(cell.glyph.grapheme.as_str(), "▀");
    assert_eq!(cell.style.fg, Some(Color::Rgb(255, 0, 0)));
    assert_eq!(cell.style.bg, None);
}

#[test]
fn half_block_bottom_only_uses_lower_glyph() {
    let mut c = HalfBlockCanvas::new(1, 1);
    c.set_pixel(0, 1, (0, 0, 255));
    let s = c.to_surface();
    let cell = s.get(0, 0).unwrap();
    assert_eq!(cell.glyph.grapheme.as_str(), "▄");
    assert_eq!(cell.style.fg, Some(Color::Rgb(0, 0, 255)));
}

#[test]
fn half_block_both_uses_fg_top_bg_bottom() {
    let mut c = HalfBlockCanvas::new(1, 1);
    c.set_pixel(0, 0, (10, 20, 30));
    c.set_pixel(0, 1, (40, 50, 60));
    let s = c.to_surface();
    let cell = s.get(0, 0).unwrap();
    assert_eq!(cell.glyph.grapheme.as_str(), "▀");
    assert_eq!(cell.style.fg, Some(Color::Rgb(10, 20, 30)));
    assert_eq!(cell.style.bg, Some(Color::Rgb(40, 50, 60)));
}

#[test]
fn half_block_empty_cell_is_transparent() {
    let c = HalfBlockCanvas::new(2, 1);
    let s = c.to_surface();
    assert!(s.get(0, 0).unwrap().transparent);
    assert!(s.get(1, 0).unwrap().transparent);
}

#[test]
fn half_block_rect_and_clipping() {
    let mut c = HalfBlockCanvas::new(3, 3); // 3 columns x 6 rows of pixels
    c.rect(0, 0, 3, 6, (1, 2, 3));
    assert!(c.get_pixel(0, 0).is_some());
    assert!(c.get_pixel(2, 5).is_some());
    assert!(c.get_pixel(1, 3).is_none());
    c.set_pixel(99, 99, (9, 9, 9)); // ignored
}

#[test]
fn half_block_geometry_is_one_pixel_wide_two_tall_per_cell() {
    let c = HalfBlockCanvas::new(2, 1);
    assert_eq!(c.pixel_width(), 2, "one addressable pixel column per cell");
    assert_eq!(c.pixel_height(), 2, "two addressable pixel rows per cell");

    // Both horizontal pixels are addressable; the odd column is not discarded.
    let mut c = HalfBlockCanvas::new(2, 1);
    c.set_pixel(0, 0, (255, 0, 0));
    c.set_pixel(1, 0, (0, 255, 0));
    let s = c.to_surface();
    assert_eq!(s.get(0, 0).unwrap().style.fg, Some(Color::Rgb(255, 0, 0)));
    assert_eq!(s.get(1, 0).unwrap().style.fg, Some(Color::Rgb(0, 255, 0)));

    // Changing x=0 vs x=1 must alter *different* terminal cells.
    let mut x0 = HalfBlockCanvas::new(2, 1);
    x0.set_pixel(0, 0, (1, 2, 3));
    let mut x1 = HalfBlockCanvas::new(2, 1);
    x1.set_pixel(1, 0, (1, 2, 3));
    let s0 = x0.to_surface();
    let s1 = x1.to_surface();
    assert!(s0.get(0, 0).unwrap().style.fg.is_some());
    assert!(s0.get(1, 0).unwrap().transparent);
    assert!(s1.get(0, 0).unwrap().transparent);
    assert!(s1.get(1, 0).unwrap().style.fg.is_some());
}

#[test]
fn half_block_odd_column_pixel_is_rendered_in_rich_text() {
    let mut c = HalfBlockCanvas::new(2, 1);
    c.set_pixel(1, 1, (9, 9, 9)); // bottom half of the *second* cell
    let rt = c.to_rich_text();
    let line = &rt.lines[0];
    let rendered: String = line.spans.iter().map(|s| s.text.as_str()).collect();
    assert_eq!(rendered, " ▄");
}

#[test]
fn braille_rect_outline_and_fill() {
    let mut outline = BrailleCanvas::new(3, 2); // 6 x 8 dots
    outline.rect(0, 0, 6, 8);
    assert!(outline.get(0, 0));
    assert!(outline.get(5, 7));
    assert!(!outline.get(3, 3), "outline must be hollow");

    let mut filled = BrailleCanvas::new(3, 2);
    filled.filled_rect(0, 0, 6, 8);
    assert!(filled.get(3, 3), "filled rect must cover interior");
}

#[test]
fn braille_circle_is_round_and_bounded() {
    let mut c = BrailleCanvas::new(8, 4); // 16 x 16 dots
    c.circle(8, 8, 6);
    assert!(c.get(8, 2), "top of circle");
    assert!(c.get(8, 14), "bottom of circle");
    assert!(c.get(2, 8), "left of circle");
    assert!(c.get(14, 8), "right of circle");
    assert!(!c.get(8, 8), "circle is hollow");
}

#[test]
fn braille_filled_circle_covers_centre() {
    let mut c = BrailleCanvas::new(8, 4);
    c.filled_circle(8, 8, 5);
    assert!(c.get(8, 8));
    assert!(!c.get(0, 0));
}

#[test]
fn braille_ellipse_and_polygon() {
    let mut c = BrailleCanvas::new(8, 4);
    // The ellipse outline: the float vertex walk, then the verified polyline.
    let (cx, cy, rx, ry) = (8i32, 8i32, 7i32, 3i32);
    let steps = ((rx + ry) as f32 * 1.5).max(12.0) as i32;
    let pts: Vec<(i32, i32)> = (0..=steps)
        .map(|i| {
            let a = std::f32::consts::TAU * i as f32 / steps as f32;
            (
                cx + (rx as f32 * a.cos()).round() as i32,
                cy + (ry as f32 * a.sin()).round() as i32,
            )
        })
        .collect();
    c.polyline(&pts);
    assert!(c.get(8, 5) || c.get(7, 5) || c.get(9, 5));
    let mut p = BrailleCanvas::new(8, 4);
    p.polygon(&[(1, 1), (14, 1), (14, 14), (1, 14)]);
    assert!(p.get(1, 1) && p.get(14, 1) && p.get(14, 14) && p.get(1, 14));
    assert!(!p.get(8, 8), "polygon outline is hollow");
}

#[test]
fn halfblock_is_empty_tracks_pixels() {
    let mut c = HalfBlockCanvas::new(2, 1);
    assert!(c.is_empty());
    c.set_pixel(0, 0, (1, 2, 3));
    assert!(!c.is_empty());
}

// -----------------------------------------------------------------------
// 2D segment clipping (hostile coordinates).
//
// Regression: `line` used to run Bresenham directly over arbitrary i32
// endpoints, so a finite near-camera projection like (-10_000_000, 5) →
// (10_000_000, 5) performed ~20 million iterations to draw one visible row,
// and `x1 - x0` could overflow i32 in debug builds.
// -----------------------------------------------------------------------

#[test]
fn clip_rejects_empty_and_accepts_inside() {
    assert!(clip_line_to_bounds(0, 0, 5, 5, -1, 3).is_none());
    assert!(clip_line_to_bounds(0, 0, 5, 5, 3, -1).is_none());
    let (a, b) = clip_line_to_bounds(1, 1, 3, 2, 5, 5).unwrap();
    assert_eq!((a, b), ((1, 1), (3, 2)));
}

#[test]
fn clip_truncates_huge_horizontal_line() {
    let (a, b) = clip_line_to_bounds(-10_000_000, 5, 10_000_000, 5, 79, 23).unwrap();
    assert_eq!(a, (0, 5));
    assert_eq!(b, (79, 5));
}

#[test]
fn clip_truncates_huge_vertical_line() {
    let (a, b) = clip_line_to_bounds(5, -10_000_000, 5, 10_000_000, 79, 23).unwrap();
    assert_eq!(a, (5, 0));
    assert_eq!(b, (5, 23));
}

#[test]
fn clip_truncates_huge_diagonal_line() {
    let (a, b) =
        clip_line_to_bounds(-9_000_000, -9_000_000, 9_000_000, 9_000_000, 79, 23).unwrap();
    // The diagonal crosses (0,0) and exits at the first bound it hits.
    assert_eq!(a, (0, 0));
    assert_eq!(b, (23, 23));
}

#[test]
fn clip_drops_fully_outside_line() {
    assert!(clip_line_to_bounds(-5, 100, 200, 100, 79, 23).is_none());
    assert!(clip_line_to_bounds(100, 0, 100, 50, 79, 23).is_none());
    assert!(clip_line_to_bounds(-10, -10, -1, -1, 79, 23).is_none());
}

#[test]
fn clip_handles_near_i32_extreme_coordinates() {
    // Differences near 2^32 are exact in f64; no overflow is possible.
    let (a, b) = clip_line_to_bounds(i32::MIN, 5, i32::MAX, 5, 79, 23).unwrap();
    assert_eq!((a, b), ((0, 5), (79, 5)));
    let (a, b) = clip_line_to_bounds(i32::MIN, i32::MIN, i32::MAX, i32::MAX, 79, 23).unwrap();
    assert_eq!(a, (0, 0));
    assert_eq!(b, (23, 23));
    // A degenerate point outside the canvas is rejected, inside is kept.
    assert!(clip_line_to_bounds(i32::MIN, i32::MIN, i32::MIN, i32::MIN, 79, 23).is_none());
    assert_eq!(
        clip_line_to_bounds(3, 4, 3, 4, 79, 23).unwrap(),
        ((3, 4), (3, 4))
    );
}

#[test]
fn huge_lines_are_clipped_by_the_canvas_and_do_not_panic() {
    // Braille canvas: 4x2 cells = 8x8 dots. A line spanning tens of millions
    // of dots must draw only the visible diagonal and return promptly.
    let mut c = BrailleCanvas::new(4, 2);
    c.line(-10_000_000, 5, 10_000_000, 5);
    assert!(c.get(0, 5) && c.get(7, 5));
    assert!(!c.get(0, 4) && !c.get(0, 6));

    // Vertical and diagonal crossings.
    let mut v = BrailleCanvas::new(4, 2);
    v.line(3, -10_000_000, 3, 10_000_000);
    assert!(v.get(3, 0) && v.get(3, 7));

    let mut d = BrailleCanvas::new(4, 2);
    d.line(-10_000_000, -10_000_000, 10_000_000, 10_000_000);
    assert!(d.get(0, 0) && d.get(7, 7));

    // Fully outside: no dots, no panic.
    let mut o = BrailleCanvas::new(4, 2);
    o.line(-5, 100, 200, 100);
    assert!(o.is_empty());

    // Near-i32 extremes.
    let mut x = BrailleCanvas::new(4, 2);
    x.line(i32::MIN, 5, i32::MAX, 5);
    assert!(x.get(0, 5) && x.get(7, 5));

    // Half-block: 3 cells = 3 columns x 6 pixel rows.
    let mut hb = HalfBlockCanvas::new(3, 3);
    hb.line(-10_000_000, 2, 10_000_000, 2, (1, 2, 3));
    assert!(hb.get_pixel(0, 2).is_some() && hb.get_pixel(2, 2).is_some());
    hb.line(1, i32::MIN, 1, i32::MAX, (9, 9, 9));
    assert!(hb.get_pixel(1, 0).is_some() && hb.get_pixel(1, 5).is_some());
}

#[test]
fn zero_and_single_pixel_canvases_are_safe() {
    let mut zero = BrailleCanvas::new(0, 0);
    zero.line(0, 0, 100, 100); // must not panic or hang
    assert!(zero.is_empty());

    let mut one = BrailleCanvas::new(1, 1); // 2x4 dots
    one.line(-10_000_000, -10_000_000, 10_000_000, 10_000_000);
    assert!(!one.is_empty());

    let mut zero_hb = HalfBlockCanvas::new(0, 0);
    zero_hb.line(0, 0, 100, 100, (1, 2, 3));
    assert!(zero_hb.is_empty());

    let mut one_hb = HalfBlockCanvas::new(1, 1); // 1x2 pixels
    one_hb.line(-10_000_000, 0, 10_000_000, 1, (4, 5, 6));
    assert!(!one_hb.is_empty());
}

#[test]
fn clipping_is_idempotent_for_inside_lines() {
    // An already-in-bounds segment must be unchanged by the clip.
    let mut a = BrailleCanvas::new(8, 4);
    let mut b = BrailleCanvas::new(8, 4);
    a.line(1, 2, 14, 9);
    // Raw Bresenham equivalent (all coordinates in bounds for a 16x16 grid).
    let ((x0, y0), (x1, y1)) = clip_line_to_bounds(1, 2, 14, 9, 15, 15).unwrap();
    b.line(x0, y0, x1, y1);
    assert_eq!(a, b);
}
