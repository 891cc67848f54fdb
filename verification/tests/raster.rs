use libgibson::cell::Color;
use libgibson::raster::RgbRaster;

#[test]
fn new_raster_is_black_and_bounded() {
    let r = RgbRaster::new(3, 5000);
    assert_eq!(r.width(), 3);
    assert_eq!(r.height(), 2048);
    assert!(r.pixels().iter().all(|&p| p == (0, 0, 0)));
}

#[test]
fn set_get_and_clear() {
    let mut r = RgbRaster::new(4, 4);
    r.set(1, 2, (9, 8, 7));
    assert_eq!(r.get(1, 2), Some((9, 8, 7)));
    assert_eq!(r.get(-1, 0), None);
    assert_eq!(r.get(4, 0), None);
    r.set(99, 99, (1, 1, 1)); // ignored
    r.clear((5, 5, 5));
    assert!(r.pixels().iter().all(|&p| p == (5, 5, 5)));
}

#[test]
fn raster_line_is_clipped() {
    let mut r = RgbRaster::new(4, 4);
    r.line(-1000, 1, 1000, 1, (1, 2, 3));
    for x in 0..4 {
        assert_eq!(r.get(x, 1), Some((1, 2, 3)));
    }
    assert_eq!(r.get(0, 0), Some((0, 0, 0)));
}

#[test]
fn half_block_surface_pairs_rows() {
    let mut r = RgbRaster::new(1, 3);
    r.set(0, 0, (10, 20, 30));
    r.set(0, 1, (40, 50, 60));
    r.set(0, 2, (70, 80, 90));
    let s = r.to_surface();
    assert_eq!(s.height, 2);
    let c = s.get(0, 0).unwrap();
    assert_eq!(c.glyph.grapheme.as_str(), "\u{2580}");
    assert_eq!(c.style.fg, Some(Color::Rgb(10, 20, 30)));
    assert_eq!(c.style.bg, Some(Color::Rgb(40, 50, 60)));
    // The unmatched bottom pixel is black.
    assert_eq!(s.get(0, 1).unwrap().style.bg, Some(Color::Rgb(0, 0, 0)));
}

#[test]
fn mono_surface_dithers_luminance() {
    let mut r = RgbRaster::new(1, 2);
    let dark = r.to_mono_surface();
    assert_eq!(dark.get(0, 0).unwrap().glyph.grapheme.as_str(), "\u{2800}");
    r.clear((255, 255, 255));
    let bright = r.to_mono_surface();
    assert_eq!(bright.get(0, 0).unwrap().glyph.grapheme.as_str(), "\u{28FF}");
    assert_eq!(bright.get(0, 0).unwrap().style.fg, None);
}

#[test]
fn ppm_bytes_have_header_and_pixels() {
    let mut r = RgbRaster::new(2, 1);
    r.set(1, 0, (1, 2, 3));
    let bytes = r.ppm_bytes();
    let mut expected = b"P6\n2 1\n255\n".to_vec();
    expected.extend_from_slice(&[0, 0, 0, 1, 2, 3]);
    assert_eq!(bytes, expected);
}
