use libgibson::capability::{quantize_color, Capability, ColorDepth, TerminalCapabilities};
use libgibson::cell::Color;

#[test]
fn mono_env_disables_color() {
    let caps = TerminalCapabilities::from_env(|k| match k {
        "NO_COLOR" => Some("1".into()),
        _ => None,
    });
    assert_eq!(caps.color_depth, ColorDepth::Mono);
}

#[test]
fn dumb_term_is_mono() {
    let caps = TerminalCapabilities::from_env(|k| match k {
        "TERM" => Some("dumb".into()),
        _ => None,
    });
    assert_eq!(caps.color_depth, ColorDepth::Mono);
}

#[test]
fn colorterm_truecolor_detected() {
    let caps = TerminalCapabilities::from_env(|k| match k {
        "TERM" => Some("xterm-256color".into()),
        "COLORTERM" => Some("truecolor".into()),
        _ => None,
    });
    assert_eq!(caps.color_depth, ColorDepth::TrueColor);
}

#[test]
fn plain_xterm_is_ansi16() {
    let caps = TerminalCapabilities::from_env(|k| match k {
        "TERM" => Some("xterm".into()),
        _ => None,
    });
    assert_eq!(caps.color_depth, ColorDepth::Ansi16);
}

#[test]
fn quantization_ladder() {
    let rgb = Color::Rgb(200, 30, 90);
    assert_eq!(quantize_color(rgb, ColorDepth::Mono), None);
    assert_eq!(quantize_color(rgb, ColorDepth::TrueColor), Some(rgb));
    assert!(matches!(
        quantize_color(rgb, ColorDepth::Ansi256),
        Some(Color::Ansi256(_))
    ));
    assert!(matches!(
        quantize_color(rgb, ColorDepth::Ansi16),
        Some(Color::Red | Color::BrightRed | Color::Magenta | Color::BrightMagenta)
    ));
}

#[test]
fn reset_is_preserved_as_default_not_a_color() {
    assert_eq!(
        quantize_color(Color::Reset, ColorDepth::Mono),
        Some(Color::Reset)
    );
    assert_eq!(
        quantize_color(Color::Reset, ColorDepth::Ansi16),
        Some(Color::Reset)
    );
}

#[test]
fn capability_unknown_is_not_supported() {
    assert!(!Capability::Unknown.is_supported());
    assert!(!Capability::Unsupported.is_supported());
    assert!(Capability::Supported.is_supported());
}
