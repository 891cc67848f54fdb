use libgibson::input::{Event, KeyCode, KeyEvent, KeyModifiers, TextInputState};

#[test]
fn test_text_input_typing() {
    let mut input = TextInputState::new();
    input.handle_event(&Event::Key(KeyEvent::char('a')));
    input.handle_event(&Event::Key(KeyEvent::char('b')));
    input.handle_event(&Event::Key(KeyEvent::char('c')));

    assert_eq!(input.text, "abc");
    assert_eq!(input.cursor_grapheme, 3);

    input.handle_event(&Event::Key(KeyEvent::new(
        KeyCode::Backspace,
        KeyModifiers::empty(),
    )));
    assert_eq!(input.text, "ab");
    assert_eq!(input.cursor_grapheme, 2);
}

#[test]
fn test_text_input_grapheme_combining_backspace() {
    let mut input = TextInputState::new();
    // Insert 'e' followed by combining acute accent
    input.insert_str("e\u{0301}");
    assert_eq!(input.grapheme_count(), 1);
    assert_eq!(input.cursor_grapheme, 1);

    // A single backspace MUST delete the entire combining character
    input.backspace();
    assert_eq!(input.text, "");
    assert_eq!(input.cursor_grapheme, 0);
}

#[test]
fn test_text_input_emoji_navigation() {
    let mut input = TextInputState::new();
    input.insert_str("🦀🦀");
    assert_eq!(input.grapheme_count(), 2);
    assert_eq!(input.cursor_grapheme, 2);

    input.move_left();
    assert_eq!(input.cursor_grapheme, 1);

    input.insert_str("x");
    assert_eq!(input.text, "🦀x🦀");
    assert_eq!(input.cursor_grapheme, 2);
}

#[test]
fn test_bracketed_paste() {
    let mut input = TextInputState::new();
    input.insert_str("start-");
    input.handle_event(&Event::Paste("pasted content".to_string()));
    input.insert_str("-end");

    assert_eq!(input.text, "start-pasted content-end");
}

#[test]
fn test_text_input_mixed_display_width_scrolling() {
    let mut input = TextInputState::new();
    // 🦀 = 2 cols, A = 1 col, 你 = 2 cols -> 5 cols total
    input.insert_str("🦀A你");
    assert_eq!(input.cursor_grapheme, 3);
    assert_eq!(input.cursor_display_column(), 5);

    // Visible width of 3 columns
    input.update_scroll(3);
    // cursor is at col 5, visible window must contain 5, so scroll_offset = 5 - 3 + 1 = 3
    assert_eq!(input.scroll_offset, 3);

    // Move cursor back to beginning
    input.move_to_start();
    assert_eq!(input.cursor_display_column(), 0);
    input.update_scroll(3);
    assert_eq!(input.scroll_offset, 0);
}

// ---------------------------------------------------------------------
// Unicode mutation correctness (merge-across-boundary regressions)
// ---------------------------------------------------------------------

fn assert_invariant(input: &TextInputState) {
    assert!(
        input.cursor_grapheme <= input.grapheme_count(),
        "cursor {} exceeded grapheme_count {} for {:?}",
        input.cursor_grapheme,
        input.grapheme_count(),
        input.text
    );
}

#[test]
fn test_combining_accent_inserted_independently_merges() {
    // The canonical adversarial case from the hardening brief:
    // type 'e', then insert U+0301. Inserted alone it is one cluster, but
    // e + combining acute is ONE extended grapheme cluster.
    let mut input = TextInputState::new();
    input.insert_char('e');
    assert_eq!(input.cursor_grapheme, 1);
    assert_eq!(input.grapheme_count(), 1);

    input.insert_char('\u{0301}');
    // Must be re-segmented: one cluster, cursor at 1 -- never 2!
    assert_eq!(input.text, "e\u{0301}");
    assert_eq!(input.grapheme_count(), 1);
    assert_eq!(input.cursor_grapheme, 1);
    assert_invariant(&input);

    // A backspace must remove the whole cluster and must not panic.
    assert!(input.backspace());
    assert_eq!(input.text, "");
    assert_eq!(input.cursor_grapheme, 0);
}

#[test]
fn test_insert_before_following_grapheme_merges_backwards() {
    // Cursor in the middle: inserting a combining mark must merge with the
    // *preceding* character, not the following one.
    let mut input = TextInputState::with_text("ab");
    input.move_left(); // cursor between 'a' and 'b' (index 1)
    input.insert_char('\u{0301}'); // "a" + combining acute + "b"
    assert_eq!(input.text, "a\u{0301}b");
    assert_eq!(input.grapheme_count(), 2); // "á", "b"
    assert_eq!(input.cursor_grapheme, 1);
    assert_invariant(&input);

    // Typing 'b' again yields "áb"; deleting forward removes 'b'.
    assert!(input.delete());
    assert_eq!(input.text, "a\u{0301}");
}

#[test]
fn test_emoji_skin_tone_modifier_merges() {
    let mut input = TextInputState::new();
    input.insert_str("👍");
    assert_eq!(input.grapheme_count(), 1);
    input.insert_str("🏽"); // fitzpatrick type-5 modifier
    assert_eq!(input.grapheme_count(), 1);
    assert_eq!(input.cursor_grapheme, 1);
    assert_invariant(&input);
}

#[test]
fn test_zwj_emoji_sequence_merges() {
    // 👩 + ZWJ + 💻 = woman technologist (one cluster)
    let mut input = TextInputState::new();
    input.insert_str("👩");
    input.insert_char('\u{200D}');
    assert_eq!(input.grapheme_count(), 1);
    input.insert_str("💻");
    assert_eq!(input.grapheme_count(), 1);
    assert_eq!(input.cursor_grapheme, 1);
    assert_invariant(&input);
}

#[test]
fn test_regional_indicator_flags() {
    let mut input = TextInputState::new();
    // Regional indicator U and S separately form a flag; two at a time pair up.
    input.insert_str("\u{1F1FA}\u{1F1F8}"); // 🇺🇸
    assert_eq!(input.grapheme_count(), 1);
    assert_eq!(input.cursor_grapheme, 1);
    input.insert_str("\u{1F1EF}\u{1F1F5}"); // 🇯🇵
    assert_eq!(input.grapheme_count(), 2);
    assert_eq!(input.cursor_grapheme, 2);
    assert_invariant(&input);
}

#[test]
fn test_mixed_ascii_cjk_emoji_arbitrary_edits_keep_invariant() {
    // Deterministic randomized edit fuzzing with a small LCG.
    let alphabet: Vec<&str> = vec![
        "a",
        "Z",
        " ",
        "é",
        "\u{0301}",
        "\u{0308}",
        "你",
        "好",
        "🦀",
        "👍",
        "🏽",
        "👩",
        "\u{200D}",
        "💻",
        "\u{1F1FA}",
        "\u{1F1F8}",
        "\u{1F1EF}",
        "\u{1F1F5}",
    ];
    let mut state: u64 = 0x9E3779B97F4A7C15;
    let mut input = TextInputState::new();

    for step in 0..4000u64 {
        state = state
            .wrapping_mul(6364136223846793005)
            .wrapping_add(1442695040888963407);
        let op = (state >> 33) % 8;
        match op {
            0 => {
                let g = alphabet[((state >> 8) as usize) % alphabet.len()];
                input.insert_str(g);
            }
            1 => {
                input.backspace();
            }
            2 => {
                input.delete();
            }
            3 => {
                input.move_left();
            }
            4 => {
                input.move_right();
            }
            5 => {
                input.move_to_start();
            }
            6 => {
                input.move_to_end();
            }
            _ => {
                let g = alphabet[((state >> 16) as usize) % alphabet.len()];
                input.handle_event(&Event::Key(KeyEvent::char(g.chars().next().unwrap())));
                // also exercise control-U/control-K occasionally
                if step % 7 == 0 {
                    input.handle_event(&Event::Key(KeyEvent::new(
                        KeyCode::Char('u'),
                        KeyModifiers::control(),
                    )));
                }
            }
        }
        assert_invariant(&input);
    }
}

#[test]
fn test_single_line_paste_normalizes_line_breaks() {
    let mut input = TextInputState::new();
    input.handle_event(&Event::Paste(
        "line one\nline two\r\nline three\rline four".into(),
    ));
    assert_eq!(input.text, "line one line two line three line four");
    assert!(!input.text.contains('\n'));
    assert!(!input.text.contains('\r'));
    assert_invariant(&input);
}

#[test]
fn test_paste_merges_with_existing_combining_sequence() {
    let mut input = TextInputState::with_text("e");
    input.handle_event(&Event::Paste("\u{0301}".into()));
    assert_eq!(input.grapheme_count(), 1);
    assert_eq!(input.cursor_grapheme, 1);
    assert_invariant(&input);
}
