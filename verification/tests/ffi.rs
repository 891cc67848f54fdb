use libgibson::cell::{Color, Style};
use libgibson::ffi::{color_from_ffi, style_from_ffi, GibsonColor, GibsonStats, GibsonStatus, GibsonStyle, GIBSON_ABI_VERSION};
use libgibson::scheduler::RenderStats;

fn color(t: i32, r: u8, g: u8, b: u8) -> GibsonColor {
    GibsonColor { color_type: t, r, g, b, _pad: 0 }
}

#[test]
fn ffi_colors_are_validated() {
    assert_eq!(color_from_ffi(&color(0, 0, 0, 0)), Ok(None));
    assert_eq!(color_from_ffi(&color(2, 0, 0, 0)), Ok(Some(Color::Red)));
    assert_eq!(color_from_ffi(&color(17, 200, 0, 0)), Ok(Some(Color::Ansi256(200))));
    assert_eq!(color_from_ffi(&color(18, 1, 2, 3)), Ok(Some(Color::Rgb(1, 2, 3))));
    assert_eq!(color_from_ffi(&color(19, 0, 0, 0)), Err(GibsonStatus::ErrInvalidParam));
    assert_eq!(color_from_ffi(&color(-1, 0, 0, 0)), Err(GibsonStatus::ErrInvalidParam));
}

#[test]
fn ffi_styles_are_validated() {
    let s = GibsonStyle {
        fg: color(1, 0, 0, 0),
        bg: GibsonColor::default(),
        bold: 1,
        dim: 0,
        italic: 7,
        underline: 0,
        reverse: 0,
        _reserved: [0; 3],
    };
    assert_eq!(style_from_ffi(&s), Ok(Style::new().fg(Color::Black).bold().italic()));
    let bad = GibsonStyle { bg: color(42, 0, 0, 0), ..s };
    assert_eq!(style_from_ffi(&bad), Err(GibsonStatus::ErrInvalidParam));
}

#[test]
fn status_codes_match_the_c_values() {
    assert_eq!(GibsonStatus::Success.code(), 0);
    assert_eq!(GibsonStatus::ErrInvalidParam.code(), -1);
    assert_eq!(GibsonStatus::ErrNotInitialized.code(), -4);
}

#[test]
fn stats_snapshot_copies_counters() {
    let st = RenderStats { frames: 3, control_bytes: 9, ..Default::default() };
    let g = GibsonStats::from_render_stats(&st);
    assert_eq!(g.frames, 3);
    assert_eq!(g.control_bytes, 9);
    assert_eq!(g.abi_version, GIBSON_ABI_VERSION);
    assert_eq!(g.struct_size, 120);
}

#[test]
fn ffi_enums_are_validated() {
    assert_eq!(libgibson::ffi::validate_mode(1), Ok(libgibson::renderer::RenderMode::Fullscreen));
    assert_eq!(libgibson::ffi::validate_mode(2), Err(GibsonStatus::ErrInvalidParam));
    assert_eq!(libgibson::ffi::validate_wrap(2), Ok(libgibson::node::WrapMode::WordWrap));
    assert_eq!(libgibson::ffi::validate_wrap(-1), Err(GibsonStatus::ErrInvalidParam));
    assert_eq!(libgibson::ffi::validate_align(1), Ok(libgibson::cell::TextAlign::Center));
    assert_eq!(libgibson::ffi::validate_align(3), Err(GibsonStatus::ErrInvalidParam));
}

#[test]
fn invalid_color_messages_name_the_type() {
    assert_eq!(libgibson::ffi::invalid_color_message(19), "Invalid color type: 19");
    assert_eq!(libgibson::ffi::invalid_color_message(-7), "Invalid color type: -7");
    assert_eq!(libgibson::ffi::invalid_color_message(i32::MIN), "Invalid color type: -2147483648");
}
