use libgibson::cell::{Color, Line, RichText, Span, Style, TextAlign};
use libgibson::node::{Node, NodeKind, WrapMode};
use libgibson::painter::{paint, paint_text_input, paint_text_input_checked, PaintContext};
use libgibson::surface::{BorderType, Rect, Surface};

#[test]
fn test_paint_text_input_cjk_emoji_scrolling() {
    // The text input node's styles: dim placeholder, reversed cursor.
    let mut surface = Surface::new(10, 1);
    let mut ctx = PaintContext::default();
    paint_text_input(
        Rect::new(0, 0, 10, 1),
        "🦀你好世界",
        3, // cursor at index 3 (after 你好)
        None,
        Style::new().fg(Color::White),
        Style::new().dim(),
        Style::new().reverse(),
        0,
        &mut surface,
        &mut ctx,
    );

    // 🦀 is 2 cols (0,1), 你 is 2 cols (2,3), 好 is 2 cols (4,5)
    // Cursor after 3 graphemes is at col 6
    assert_eq!(ctx.cursor_position, Some((6, 0)));
    assert_eq!(surface.get(0, 0).unwrap().glyph.grapheme.as_str(), "🦀");
    assert_eq!(surface.get(2, 0).unwrap().glyph.grapheme.as_str(), "你");
    assert_eq!(surface.get(4, 0).unwrap().glyph.grapheme.as_str(), "好");
}

#[test]
fn text_input_scrolls_to_keep_cursor_visible() {
    let mut surface = Surface::new(4, 1);
    let mut ctx = PaintContext::default();
    paint_text_input(
        Rect::new(0, 0, 4, 1),
        "abcdefgh",
        8,
        None,
        Style::new(),
        Style::new().dim(),
        Style::new().reverse(),
        0,
        &mut surface,
        &mut ctx,
    );
    // Cursor column 8 in a 4-wide view: scrolled to 8 - 4 + 1 = 5.
    assert_eq!(ctx.text_scroll_offset, Some(5));
    assert_eq!(surface.get(0, 0).unwrap().glyph.grapheme.as_str(), "f");
    assert_eq!(surface.get(2, 0).unwrap().glyph.grapheme.as_str(), "h");
    // The end cursor is a reversed blank after the text.
    assert_eq!(ctx.cursor_position, Some((3, 0)));
    assert!(surface.get(3, 0).unwrap().style.reverse);
}

#[test]
fn empty_text_input_shows_placeholder_and_cursor() {
    let mut surface = Surface::new(8, 1);
    let mut ctx = PaintContext::default();
    let painted = paint_text_input_checked(
        Rect::new(0, 0, 8, 1),
        "",
        0,
        Some("name"),
        Style::new(),
        Style::new().dim(),
        Style::new().reverse(),
        0,
        &mut surface,
        &mut ctx,
    );
    assert!(painted);
    assert_eq!(ctx.cursor_position, Some((0, 0)));
    assert!(surface.get(0, 0).unwrap().style.reverse);
    assert_eq!(surface.get(1, 0).unwrap().glyph.grapheme.as_str(), "a");
    assert!(surface.get(1, 0).unwrap().style.dim);
}

#[test]
fn wide_cluster_cut_by_left_edge_leaves_a_blank() {
    let mut surface = Surface::new(3, 1);
    let mut ctx = PaintContext::default();
    // Scrolled one column into the crab: it is cut at the left edge.
    paint_text_input(
        Rect::new(0, 0, 3, 1),
        "🦀ab",
        0,
        None,
        Style::new(),
        Style::new().dim(),
        Style::new().reverse(),
        1,
        &mut surface,
        &mut ctx,
    );
    // Cursor at column 0 is left of the view: the view scrolls back to 0.
    assert_eq!(ctx.text_scroll_offset, Some(0));
    assert_eq!(surface.get(0, 0).unwrap().glyph.grapheme.as_str(), "🦀");
    assert_eq!(ctx.cursor_position, Some((0, 0)));
}

// Node trees as layout leaves them: every rectangle in surface coordinates.

fn text_node(text: &str, rect: Rect) -> Node {
    Node::new(NodeKind::Text { text: text.to_string(), style: Style::default(), wrap: WrapMode::NoWrap }, rect)
}

#[test]
fn test_paint_box_with_border_and_text() {
    let root = Node::new(
        NodeKind::Box { border: Some(BorderType::Rounded), border_style: Style::default(), background: None },
        Rect::new(0, 0, 10, 3),
    )
    .child(text_node("Hi", Rect::new(1, 1, 8, 1)));
    let mut surface = Surface::new(15, 5);
    paint(&root, &mut surface);
    assert_eq!(surface.get(0, 0).unwrap().glyph.grapheme.as_str(), "╭");
    assert_eq!(surface.get(9, 0).unwrap().glyph.grapheme.as_str(), "╮");
    assert_eq!(surface.get(0, 2).unwrap().glyph.grapheme.as_str(), "╰");
    assert_eq!(surface.get(9, 2).unwrap().glyph.grapheme.as_str(), "╯");
    assert_eq!(surface.get(1, 1).unwrap().glyph.grapheme.as_str(), "H");
    assert_eq!(surface.get(2, 1).unwrap().glyph.grapheme.as_str(), "i");
}

#[test]
fn test_paint_spinner() {
    let frames: Vec<String> = ["⠋", "⠙", "⠹", "⠸", "⠼", "⠴", "⠦", "⠧", "⠇", "⠏"].iter().map(|s| s.to_string()).collect();
    let spinner = Node::new(
        NodeKind::Spinner {
            frames,
            frame_index: 2,
            style: Style::default(),
            label: Some("Loading...".to_string()),
            label_style: Style::default(),
        },
        Rect::new(0, 0, 20, 1),
    );
    let mut surface = Surface::new(20, 1);
    paint(&spinner, &mut surface);
    assert_eq!(surface.get(0, 0).unwrap().glyph.grapheme.as_str(), "⠹");
    assert_eq!(surface.get(1, 0).unwrap().glyph.grapheme.as_str(), " ");
    assert_eq!(surface.get(2, 0).unwrap().glyph.grapheme.as_str(), "L");
}

#[test]
fn test_paint_rule() {
    let rule = Node::new(
        NodeKind::Rule { title: Some("Section".to_string()), style: Style::default(), title_style: Style::default().bold() },
        Rect::new(0, 0, 20, 1),
    );
    let mut surface = Surface::new(20, 1);
    paint(&rule, &mut surface);
    assert_eq!(surface.get(0, 0).unwrap().glyph.grapheme.as_str(), "─");
    assert_eq!(surface.get(1, 0).unwrap().glyph.grapheme.as_str(), "─");
    assert_eq!(surface.get(2, 0).unwrap().glyph.grapheme.as_str(), "─");
    assert_eq!(surface.get(3, 0).unwrap().glyph.grapheme.as_str(), " ");
    assert_eq!(surface.get(4, 0).unwrap().glyph.grapheme.as_str(), "S");
    assert_eq!(surface.get(19, 0).unwrap().glyph.grapheme.as_str(), "─");
}

#[test]
fn test_paint_rail() {
    let rail = Node::new(NodeKind::Rail { style: Style::default() }, Rect::new(0, 0, 20, 2))
        .child(text_node("Content", Rect::new(2, 0, 18, 2)));
    let mut surface = Surface::new(20, 2);
    paint(&rail, &mut surface);
    assert_eq!(surface.get(0, 0).unwrap().glyph.grapheme.as_str(), "│");
    assert_eq!(surface.get(0, 1).unwrap().glyph.grapheme.as_str(), "│");
    assert_eq!(surface.get(1, 0).unwrap().glyph.grapheme.as_str(), " ");
    assert_eq!(surface.get(2, 0).unwrap().glyph.grapheme.as_str(), "C");
}

#[test]
fn panel_children_never_overwrite_the_border() {
    let root = Node::new(
        NodeKind::Border {
            border_type: BorderType::Rounded,
            style: Style::default(),
            title: Some("T".to_string()),
            title_style: Style::default().bold(),
            background: None,
        },
        Rect::new(0, 0, 12, 3),
    )
    .child(Node::new(NodeKind::RichText { text: RichText::raw("a\nb\nc\nd\ne"), wrap: WrapMode::NoWrap }, Rect::new(1, 1, 10, 5)));
    let mut s = Surface::new(12, 3);
    paint(&root, &mut s);
    assert_eq!(s.get(0, 0).unwrap().glyph.grapheme.as_str(), "╭");
    assert_eq!(s.get(0, 2).unwrap().glyph.grapheme.as_str(), "╰");
    assert_eq!(s.get(11, 2).unwrap().glyph.grapheme.as_str(), "╯");
    assert_eq!(s.get(2, 0).unwrap().glyph.grapheme.as_str(), " ");
    assert_eq!(s.get(3, 0).unwrap().glyph.grapheme.as_str(), "T");
    assert_eq!(s.get(1, 1).unwrap().glyph.grapheme.as_str(), "a");
}

#[test]
fn offscreen_nodes_are_cut_not_shifted() {
    // A text node half off the left edge shows only its visible part.
    let parent = Node::new(NodeKind::Stack, Rect::new(0, 0, 4, 1)).child({
        let mut c = text_node("abcdef", Rect::new(0, 0, 6, 1));
        c.absolute = true;
        c.offset_x = -2;
        c
    });
    let mut s = Surface::new(4, 1);
    paint(&parent, &mut s);
    assert_eq!(s.get(0, 0).unwrap().glyph.grapheme.as_str(), "c");
    assert_eq!(s.get(3, 0).unwrap().glyph.grapheme.as_str(), "f");
}

#[test]
fn paint_reports_the_text_input_cursor() {
    let input = Node::new(
        NodeKind::TextInput {
            value: "🦀你好世界".to_string(),
            cursor_grapheme: 3,
            placeholder: None,
            style: Style::new().fg(Color::White),
            placeholder_style: Style::new().dim(),
            cursor_style: Style::new().reverse(),
            scroll_offset: 0,
        },
        Rect::new(0, 0, 10, 1),
    );
    let mut surface = Surface::new(10, 1);
    let ctx = paint(&input, &mut surface);
    assert_eq!(ctx.cursor_position, Some((6, 0)));
    assert_eq!(surface.get(4, 0).unwrap().glyph.grapheme.as_str(), "好");
}

#[test]
fn stack_layers_composite_in_order() {
    // The second layer covers only the cells it paints.
    let root = Node::new(NodeKind::Stack, Rect::new(0, 0, 6, 1))
        .child(text_node("abcdef", Rect::new(0, 0, 6, 1)))
        .child(text_node("XY", Rect::new(2, 0, 2, 1)));
    let mut s = Surface::new(6, 1);
    paint(&root, &mut s);
    let row: String = (0..6u16).map(|x| s.get(x, 0).unwrap().glyph.grapheme.clone()).collect();
    assert_eq!(row, "abXYef");
}

#[test]
fn viewport_moves_children_by_minus_its_offset() {
    let root = Node::new(NodeKind::Viewport { offset_x: 2, offset_y: 0 }, Rect::new(0, 0, 4, 1))
        .child(text_node("abcdef", Rect::new(0, 0, 6, 1)));
    let mut s = Surface::new(4, 1);
    paint(&root, &mut s);
    let row: String = (0..4u16).map(|x| s.get(x, 0).unwrap().glyph.grapheme.clone()).collect();
    assert_eq!(row, "cdef");
}

#[test]
fn box_children_paint_inside_the_border_and_background() {
    let root = Node::new(
        NodeKind::Box { border: Some(BorderType::Single), border_style: Style::default(), background: Some(Color::Blue) },
        Rect::new(0, 0, 5, 3),
    )
    .child(text_node("hello", Rect::new(1, 1, 5, 1)));
    let mut s = Surface::new(5, 3);
    paint(&root, &mut s);
    assert_eq!(s.get(0, 1).unwrap().glyph.grapheme.as_str(), "│");
    assert_eq!(s.get(1, 1).unwrap().glyph.grapheme.as_str(), "h");
    assert_eq!(s.get(3, 1).unwrap().glyph.grapheme.as_str(), "l");
    assert_eq!(s.get(4, 1).unwrap().glyph.grapheme.as_str(), "│");
    assert_eq!(s.get(1, 1).unwrap().style.bg, None);
}

#[test]
fn rich_text_lines_are_aligned_within_the_rectangle() {
    let mut rich = RichText::new();
    rich.lines.push(Line::new().span(Span::raw("ab")).span(Span::raw("c")).align(TextAlign::Right));
    rich.lines.push(Line::raw("xy").align(TextAlign::Center));
    let root = Node::new(NodeKind::RichText { text: rich, wrap: WrapMode::NoWrap }, Rect::new(0, 0, 6, 2));
    let mut s = Surface::new(6, 2);
    paint(&root, &mut s);
    let row = |y: u16| -> String { (0..6u16).map(|x| s.get(x, y).unwrap().glyph.grapheme.clone()).collect() };
    assert_eq!(row(0), "   abc");
    assert_eq!(row(1), "  xy  ");
}
