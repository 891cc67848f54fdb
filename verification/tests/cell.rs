use libgibson::cell::{Color, Glyph, Line, RichText, Span, Style, Theme};

#[test]
fn test_glyph_ascii() {
    let g = Glyph::new("a");
    assert_eq!(g.display_width, 1);
    assert_eq!(g.grapheme.as_str(), "a");
}

#[test]
fn test_glyph_wide_cjk() {
    let g = Glyph::new("你");
    assert_eq!(g.display_width, 2);
    assert_eq!(g.grapheme.as_str(), "你");
}

#[test]
fn test_glyph_emoji() {
    let g = Glyph::new("🦀");
    assert_eq!(g.display_width, 2);
}

#[test]
fn test_glyph_combining() {
    // e + combining acute accent
    let g = Glyph::new("e\u{0301}");
    assert_eq!(g.display_width, 1);
    assert_eq!(g.grapheme.as_str(), "é");
}

#[test]
fn test_style_builder() {
    let s = Style::new()
        .fg(Color::Red)
        .bg(Color::Blue)
        .bold()
        .underline();
    assert_eq!(s.fg, Some(Color::Red));
    assert_eq!(s.bg, Some(Color::Blue));
    assert!(s.bold);
    assert!(s.underline);
    assert!(!s.italic);
}

#[test]
fn test_theme_tokens() {
    let theme = Theme::default();
    assert_eq!(theme.text, Color::Reset);
    assert_eq!(theme.bg, Color::Reset);
    assert_eq!(theme.accent, Color::BrightCyan);
}

#[test]
fn test_theme_styles_are_semantic_roles() {
    let styles = Theme::default().styles();
    // `muted` must be "default foreground + dim", not a hardcoded BrightBlack.
    assert!(styles.muted.dim);
    assert_eq!(styles.muted.fg, None);
    // accent carries emphasis.
    assert!(styles.accent.bold);
    // No style should paint a background by default (native canvas preserved).
    assert_eq!(styles.text.bg, None);
    assert_eq!(styles.accent.bg, None);
}

#[test]
fn test_no_color_theme_adds_no_color() {
    let styles = Theme::no_color().styles();
    // No role may introduce a foreground or background color.
    for (name, s) in [
        ("text", styles.text),
        ("accent", styles.accent),
        ("success", styles.success),
        ("warning", styles.warning),
        ("error", styles.error),
        ("border", styles.border),
        ("rail", styles.rail),
        ("code", styles.code),
    ] {
        assert_eq!(s.fg, None, "{name} leaked a foreground in no-color mode");
        assert_eq!(s.bg, None, "{name} leaked a background in no-color mode");
    }
}

#[test]
fn test_span_and_line_plain_and_ansi() {
    let line = Line::new()
        .span(Span::styled("Status: ", Style::new().bold()))
        .span(Span::styled("Online", Style::new().fg(Color::Green)));

    // Plain text must contain zero ANSI escapes
    assert_eq!(line.plain_text(), "Status: Online");
    assert!(!line.plain_text().contains('\x1b'));

    // ANSI text must contain SGR escapes
    let ansi = line.to_ansi();
    assert!(ansi.contains("\x1b[1m"));
    assert!(ansi.contains("\x1b[32m"));
    assert!(ansi.ends_with("\x1b[0m"));
}

#[test]
fn test_rich_text_multi_line() {
    let mut rich = RichText::new();
    rich.push_line(Line::styled("Header", Style::new().bold()));
    rich.push_line(Line::raw("Content line 1"));
    rich.push_line(Line::raw("Content line 2"));

    assert_eq!(rich.plain_text(), "Header\nContent line 1\nContent line 2");
    assert!(!rich.plain_text().contains('\x1b'));
    assert!(rich.to_ansi().contains("\x1b[1m"));
}
