use libgibson::cell::{Line, RichText, Span, Style, TextAlign};
use libgibson::layout::{wrap_rich_text, wrap_text};
use libgibson::node::WrapMode;

#[test]
fn empty_text_is_one_empty_line() {
    assert_eq!(wrap_text("", WrapMode::WordWrap, 10), vec![String::new()]);
}

#[test]
fn hard_breaks_always_split() {
    assert_eq!(wrap_text("a\n\nb", WrapMode::NoWrap, 1), vec!["a", "", "b"]);
}

#[test]
fn char_wrap_breaks_between_clusters() {
    assert_eq!(wrap_text("abcdef", WrapMode::CharWrap, 4), vec!["abcd", "ef"]);
    // A wide cluster never splits: 你 is two columns.
    assert_eq!(wrap_text("a你b", WrapMode::CharWrap, 2), vec!["a", "你", "b"]);
}

#[test]
fn char_wrap_keeps_all_text() {
    let lines = wrap_text("the quick brown fox", WrapMode::CharWrap, 5);
    assert_eq!(lines.concat(), "the quick brown fox");
}

#[test]
fn word_wrap_trims_trailing_spaces_and_breaks_long_words() {
    assert_eq!(wrap_text("hello world", WrapMode::WordWrap, 6), vec!["hello", "world"]);
    assert_eq!(wrap_text("abcdefgh xy", WrapMode::WordWrap, 3), vec!["abc", "def", "gh", "xy"]);
}

#[test]
fn rich_wrap_keeps_styles_and_alignment() {
    let bold = Style::new().bold();
    let line = Line::new().span(Span::styled("ab ", bold)).span(Span::raw("cd")).align(TextAlign::Right);
    let mut rich = RichText::new();
    rich.push_line(line);
    let out = wrap_rich_text(&rich, WrapMode::WordWrap, 3);
    assert_eq!(out.len(), 2);
    assert_eq!(out[0].align, TextAlign::Right);
    assert_eq!(out[0].spans[0].text, "ab ");
    assert!(out[0].spans[0].style.bold);
    assert_eq!(out[1].spans[0].text, "cd");
    assert!(!out[1].spans[0].style.bold);
}

#[test]
fn rich_char_wrap_gives_one_span_per_cluster() {
    let mut rich = RichText::new();
    rich.push_line(Line::raw("abc"));
    let out = wrap_rich_text(&rich, WrapMode::CharWrap, 2);
    assert_eq!(out.len(), 2);
    assert_eq!(out[0].spans.len(), 2);
    assert_eq!(out[1].spans[0].text, "c");
}

#[test]
fn rich_wrap_of_nothing_is_one_empty_line() {
    let out = wrap_rich_text(&RichText::new(), WrapMode::WordWrap, 5);
    assert_eq!(out.len(), 1);
    assert!(out[0].spans.is_empty());
}
