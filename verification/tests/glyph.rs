use libgibson::cell::{Cell, Color, Glyph, Style};
use libgibson::glyph::{detect_glyph_mode, transcode_surface_glyphs, GlyphChoice, SubcellGlyphMode};
use libgibson::surface::Surface;

const MODES: [SubcellGlyphMode; 4] = [
    SubcellGlyphMode::Braille2x4,
    SubcellGlyphMode::HalfBlock1x2,
    SubcellGlyphMode::Block,
    SubcellGlyphMode::Ascii,
];

/// Braille2x4 must reproduce `BrailleCanvas::glyph_at`'s formula exactly, for
/// every possible mask. This is the hero-path non-regression contract.
#[test]
fn braille_mode_matches_legacy_formula() {
    for bits in 0u16..=255 {
        let bits = bits as u8;
        let expected = if bits == 0 {
            None
        } else {
            char::from_u32(0x2800 + bits as u32)
        };
        assert_eq!(SubcellGlyphMode::Braille2x4.subcell_glyph(bits), expected);
    }
}

/// Empty logical samples stay empty in every mode.
#[test]
fn empty_mask_is_none_in_every_mode() {
    for m in MODES {
        assert_eq!(m.subcell_glyph(0), None, "{m:?}");
    }
}

/// Any non-empty mask is visible (Some) in every mode: fallback never drops
/// a lit sample.
#[test]
fn nonempty_mask_is_some_in_every_mode() {
    for m in MODES {
        for bits in 1u16..=255 {
            assert!(m.subcell_glyph(bits as u8).is_some(), "{m:?} bits={bits}");
        }
    }
}

/// Full masks are the most-solid glyph in every mode.
#[test]
fn full_mask_is_full_ink() {
    assert_eq!(SubcellGlyphMode::Braille2x4.subcell_glyph(0xFF), Some('⣿'));
    assert_eq!(
        SubcellGlyphMode::HalfBlock1x2.subcell_glyph(0xFF),
        Some('█')
    );
    assert_eq!(SubcellGlyphMode::Block.subcell_glyph(0xFF), Some('█'));
    assert_eq!(SubcellGlyphMode::Ascii.subcell_glyph(0xFF), Some('@'));
}

/// Half-block partitions the mask into vertical halves.
#[test]
fn halfblock_vertical_halves() {
    let hb = SubcellGlyphMode::HalfBlock1x2;
    // Top-row-only dots (0x01 left, 0x08 right) -> upper half.
    assert_eq!(hb.subcell_glyph(0x01), Some('▀'));
    assert_eq!(hb.subcell_glyph(0x08), Some('▀'));
    assert_eq!(hb.subcell_glyph(0x02 | 0x10), Some('▀'));
    // Bottom-row-only dots (0x04/0x40 left, 0x20/0x80 right) -> lower half.
    assert_eq!(hb.subcell_glyph(0x04), Some('▄'));
    assert_eq!(hb.subcell_glyph(0x40), Some('▄'));
    assert_eq!(hb.subcell_glyph(0x80), Some('▄'));
    // One dot in each half -> full.
    assert_eq!(hb.subcell_glyph(0x01 | 0x80), Some('█'));
}

/// Block shade rises monotonically with coverage.
#[test]
fn block_density_ramp() {
    let b = SubcellGlyphMode::Block;
    assert_eq!(b.subcell_glyph(0b0000_0001), Some('░')); // 1 dot
    assert_eq!(b.subcell_glyph(0b0000_0011), Some('░')); // 2
    assert_eq!(b.subcell_glyph(0b0000_0111), Some('▒')); // 3
    assert_eq!(b.subcell_glyph(0b0001_1111), Some('▒')); // 5
    assert_eq!(b.subcell_glyph(0b0011_1111), Some('▓')); // 6
    assert_eq!(b.subcell_glyph(0b0111_1111), Some('▓')); // 7
    assert_eq!(b.subcell_glyph(0b1111_1111), Some('█')); // 8
}

/// ASCII ramp is monotonic in ink and pure ASCII.
#[test]
fn ascii_ramp_monotonic_and_ascii() {
    let a = SubcellGlyphMode::Ascii;
    let seq: Vec<char> = (1u16..=8)
        .map(|n| {
            // A mask with exactly `n` bits set.
            let bits = ((1u16 << n) - 1) as u8;
            a.subcell_glyph(bits).unwrap()
        })
        .collect();
    assert_eq!(seq, vec!['.', ':', '-', '=', '+', '*', '#', '@']);
    for c in seq {
        assert!(c.is_ascii(), "{c:?} not ASCII");
    }
}

#[test]
fn parse_round_trips_and_rejects_garbage() {
    assert_eq!(GlyphChoice::parse("auto"), Some(GlyphChoice::Auto));
    assert_eq!(GlyphChoice::parse("AUTO"), Some(GlyphChoice::Auto));
    for m in MODES {
        assert_eq!(
            GlyphChoice::parse(m.as_str()),
            Some(GlyphChoice::Fixed(m)),
            "{m:?}"
        );
    }
    assert_eq!(
        GlyphChoice::parse("half-block"),
        GlyphChoice::parse("halfblock")
    );
    assert_eq!(GlyphChoice::parse("nonsense"), None);
}

/// Detection precedence: CLI > env > auto(TERM).
#[test]
fn detection_precedence_and_auto_policy() {
    fn env(
        term: Option<&'static str>,
        glyphs: Option<&'static str>,
    ) -> impl Fn(&str) -> Option<String> {
        let term = term.map(String::from);
        let glyphs = glyphs.map(String::from);
        move |k: &str| match k {
            "TERM" => term.clone(),
            "LIBGIBSON_GLYPHS" => glyphs.clone(),
            _ => None,
        }
    }
    // Auto on a graphical terminal -> Braille (current behavior preserved).
    assert_eq!(
        detect_glyph_mode(None, env(Some("xterm-256color"), None)).unwrap(),
        SubcellGlyphMode::Braille2x4
    );
    // Auto on the Linux VT -> conservative half-block (POLICY, not a font claim).
    assert_eq!(
        detect_glyph_mode(None, env(Some("linux"), None)).unwrap(),
        SubcellGlyphMode::HalfBlock1x2
    );
    // Env override beats auto.
    assert_eq!(
        detect_glyph_mode(None, env(Some("linux"), Some("ascii"))).unwrap(),
        SubcellGlyphMode::Ascii
    );
    // CLI beats env: explicit braille on the Linux VT still forces Braille.
    assert_eq!(
        detect_glyph_mode(Some("braille"), env(Some("linux"), Some("ascii"))).unwrap(),
        SubcellGlyphMode::Braille2x4
    );
    // Explicit auto re-reads TERM.
    assert_eq!(
        detect_glyph_mode(Some("auto"), env(Some("linux"), None)).unwrap(),
        SubcellGlyphMode::HalfBlock1x2
    );
    // Garbage explicit value errors.
    assert!(detect_glyph_mode(Some("garbage"), env(None, None)).is_err());
}

fn braille_surface() -> Surface {
    // A 3x1 surface: [lit-braille, blank-braille U+2800, plain text 'X'].
    let mut s = Surface::new(3, 1);
    let style = Style::new().fg(Color::Rgb(1, 2, 3));
    s.set_cell(0, 0, Cell::new(Glyph::new(&'\u{28FF}'.to_string()), style));
    s.set_cell(1, 0, Cell::new(Glyph::new(&'\u{2800}'.to_string()), style));
    s.set_cell(2, 0, Cell::new(Glyph::new("X"), style));
    s
}

#[test]
fn transcode_braille_is_a_noop() {
    let s = braille_surface();
    let mut t = s.clone();
    transcode_surface_glyphs(&mut t, SubcellGlyphMode::Braille2x4);
    assert_eq!(s, t, "Braille2x4 transcode must be identity");
}

#[test]
fn transcode_lowers_resolution_and_preserves_style_and_text() {
    for mode in [
        SubcellGlyphMode::HalfBlock1x2,
        SubcellGlyphMode::Block,
        SubcellGlyphMode::Ascii,
    ] {
        let mut s = braille_surface();
        transcode_surface_glyphs(&mut s, mode);
        // Lit full mask -> the mode's full-ink glyph.
        assert_eq!(
            s.get(0, 0).unwrap().glyph.grapheme.as_str(),
            mode.subcell_glyph(0xFF).unwrap().to_string(),
            "{mode:?} lit cell",
        );
        // Blank braille (U+2800) -> a space.
        assert_eq!(
            s.get(1, 0).unwrap().glyph.grapheme.as_str(),
            " ",
            "{mode:?} blank"
        );
        // Plain text is untouched.
        assert_eq!(
            s.get(2, 0).unwrap().glyph.grapheme.as_str(),
            "X",
            "{mode:?} text"
        );
        // Style is preserved on every cell (orthogonal to color).
        for x in 0..3 {
            assert_eq!(
                s.get(x, 0).unwrap().style.fg,
                Some(Color::Rgb(1, 2, 3)),
                "{mode:?} style at {x}",
            );
        }
        // No Braille code points survive a non-Braille transcode.
        for c in &s.cells {
            if let Some(ch) = c.glyph.grapheme.chars().next() {
                assert!(
                    !(0x2800..=0x28FF).contains(&(ch as u32)),
                    "{mode:?} leaked braille {ch:?}",
                );
            }
        }
    }
}
