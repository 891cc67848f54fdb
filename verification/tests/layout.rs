use libgibson::layout::wrap_text;
use libgibson::node::WrapMode;
use unicode_width::UnicodeWidthStr;

#[test]
fn test_text_wrapping() {
    let text = "The quick brown fox jumps over the lazy dog";
    let wrapped = wrap_text(text, WrapMode::WordWrap, 15);
    assert!(wrapped.len() >= 3);
    for line in &wrapped {
        assert!(UnicodeWidthStr::width(&line[..]) <= 15);
    }
}

use libgibson::cell::{Line, RichText, Span, Style};
use libgibson::layout::measure_leaf;
use libgibson::node::NodeKind;
use libgibson::surface::{BorderType, Surface};

fn text_kind(text: &str, wrap: WrapMode) -> NodeKind {
    NodeKind::Text { text: text.to_string(), style: Style::new(), wrap }
}

#[test]
fn measure_leaf_text_is_widest_line_by_line_count() {
    let kind = text_kind("The quick brown fox jumps over the lazy dog", WrapMode::WordWrap);
    let lines = wrap_text("The quick brown fox jumps over the lazy dog", WrapMode::WordWrap, 15);
    let widest = lines.iter().map(|l| UnicodeWidthStr::width(&l[..])).max().unwrap();
    assert_eq!(measure_leaf(&kind, Some(15)), (widest as u32, lines.len() as u32));
    assert_eq!(measure_leaf(&text_kind("ab\ncdef", WrapMode::NoWrap), None), (4, 2));
    assert_eq!(measure_leaf(&text_kind("", WrapMode::NoWrap), None), (0, 1));
    // A zero width still wraps at one column.
    assert_eq!(measure_leaf(&text_kind("abc", WrapMode::CharWrap), Some(0)), (1, 3));
}

#[test]
fn measure_leaf_rich_text_sums_spans() {
    let mut rich = RichText::new();
    rich.lines.push(Line::new().span(Span::raw("ab")).span(Span::raw("世")));
    rich.lines.push(Line::raw("x"));
    let kind = NodeKind::RichText { text: rich, wrap: WrapMode::NoWrap };
    assert_eq!(measure_leaf(&kind, None), (4, 2));
}

#[test]
fn measure_leaf_fixed_kinds() {
    let s = Style::new();
    let rule = NodeKind::Rule { title: Some("Logs".to_string()), style: s, title_style: s };
    assert_eq!(measure_leaf(&rule, Some(80)), (10, 1));
    let bare_rule = NodeKind::Rule { title: None, style: s, title_style: s };
    assert_eq!(measure_leaf(&bare_rule, Some(80)), (4, 1));
    assert_eq!(measure_leaf(&NodeKind::Rail { style: s }, None), (2, 1));
    let border = NodeKind::Border {
        border_type: BorderType::Single,
        style: s,
        title: None,
        title_style: s,
        background: None,
    };
    assert_eq!(measure_leaf(&border, None), (2, 2));
    let boxed = NodeKind::Box { border: Some(BorderType::Rounded), border_style: s, background: None };
    assert_eq!(measure_leaf(&boxed, None), (2, 2));
    let open = NodeKind::Box { border: None, border_style: s, background: None };
    assert_eq!(measure_leaf(&open, None), (0, 0));
    assert_eq!(measure_leaf(&NodeKind::Stack, None), (0, 0));
    assert_eq!(measure_leaf(&NodeKind::Dim, None), (0, 0));
    assert_eq!(measure_leaf(&NodeKind::Viewport { offset_x: 3, offset_y: 4 }, None), (0, 0));
    let raster = NodeKind::Raster { surface: Surface::new(7, 3) };
    assert_eq!(measure_leaf(&raster, None), (7, 3));
}

#[test]
fn measure_leaf_spinner_and_input() {
    let s = Style::new();
    let spinner = NodeKind::Spinner {
        frames: vec!["-".to_string(), "世".to_string()],
        frame_index: 3,
        style: s,
        label: Some("load".to_string()),
        label_style: s,
    };
    assert_eq!(measure_leaf(&spinner, None), (7, 1));
    let empty = NodeKind::Spinner { frames: vec![], frame_index: 0, style: s, label: None, label_style: s };
    assert_eq!(measure_leaf(&empty, None), (1, 1));
    let input = |value: &str, placeholder: Option<&str>| NodeKind::TextInput {
        value: value.to_string(),
        cursor_grapheme: 0,
        placeholder: placeholder.map(|p| p.to_string()),
        style: s,
        placeholder_style: s,
        cursor_style: s,
        scroll_offset: 0,
    };
    assert_eq!(measure_leaf(&input("hi", None), None), (10, 1));
    assert_eq!(measure_leaf(&input("hi", Some("type a longer hint")), None), (19, 1));
    assert_eq!(measure_leaf(&input("0123456789ab", None), None), (13, 1));
}
