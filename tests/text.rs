use streamdown_text::scan::visible_length;
use streamdown_text::text::{simple_wrap, split_text, text_wrap, truncate_to_visible, WrappedText};

#[test]
fn test_split_text() {
    let words = split_text("hello world");
    assert_eq!(words, vec!["hello ", "world"]);
}

#[test]
fn test_split_text_with_ansi() {
    let text = "\x1b[1mhello\x1b[0m world";
    let words = split_text(text);
    assert_eq!(words.len(), 2);
    assert!(words[0].contains("\x1b[1m"));
}

#[test]
fn test_simple_wrap() {
    let lines = simple_wrap("hello world foo bar", 10);
    assert!(lines.len() >= 2);
}

#[test]
fn test_text_wrap_basic() {
    let result = text_wrap("hello world", 20, 0, "", "", false, false);
    assert_eq!(result.lines.len(), 1);
}

#[test]
fn test_text_wrap_multiline() {
    let result = text_wrap("hello world foo bar baz", 10, 0, "", "", false, false);
    assert!(result.lines.len() > 1);
}

#[test]
fn test_text_wrap_with_prefix() {
    let result = text_wrap("hello world", 20, 0, "> ", "  ", false, false);
    assert!(!result.lines.is_empty());
    assert!(result.lines[0].starts_with("> "));
}

#[test]
fn test_truncate_to_visible() {
    let text = "hello world";
    let truncated = truncate_to_visible(text, 5);
    assert_eq!(truncated, "hello");
}

#[test]
fn test_truncate_with_ansi() {
    let text = "\x1b[1mhello\x1b[0m world";
    let truncated = truncate_to_visible(text, 5);
    assert!(truncated.contains("\x1b["));
}

#[test]
fn test_truncate_to_visible_box_drawing() {
    let text = "═══════════";
    assert_eq!(text.len(), 33);
    assert_eq!(text.chars().count(), 11);

    let truncated = truncate_to_visible(text, 5);

    assert_eq!(truncated.chars().count(), 5);
    assert_eq!(truncated, "═════");
}

#[test]
fn test_truncate_to_visible_emojis() {
    let text = "🎉🎉🎉🎉🎉";
    assert_eq!(text.len(), 20);
    assert_eq!(text.chars().count(), 5);

    let truncated = truncate_to_visible(text, 4);

    assert_eq!(truncated.chars().count(), 2);
    assert_eq!(truncated, "🎉🎉");
}

#[test]
fn test_truncate_to_visible_zwj_emojis() {
    let text = format!("{}{}{}", "👨‍💻", "👨‍💻", "👨‍💻");
    assert_eq!(text.chars().count(), 9);

    let truncated = truncate_to_visible(&text, 4);

    let _ = truncated.chars().count();
}

#[test]
fn test_simple_wrap_cjk() {
    let text = "你好 世界 你好 世界";

    let lines = simple_wrap(text, 10);

    assert_eq!(lines.len(), 2);
    for line in &lines {
        let _ = line.chars().count();
    }
}

#[test]
fn test_simple_wrap_emojis() {
    let text = "🎉🎉🎉🎉 🎉🎉🎉🎉";

    let lines = simple_wrap(text, 10);

    assert!(!lines.is_empty());
}

#[test]
fn test_text_wrap_mixed_multibyte() {
    let text = "Hello 你好 ═══ 🎉 world";

    let result = text_wrap(text, 15, 0, "", "", false, false);

    assert!(!result.lines.is_empty());
}

#[test]
fn test_split_text_emoji_integrity() {
    let text = "hello 🎉 world 🌟 test";

    let words = split_text(text);

    assert_eq!(words.len(), 5);
    assert!(words[1].starts_with("🎉"));
    assert!(words[3].starts_with("🌟"));
}

#[test]
fn test_split_text_zwj_emoji() {
    let text = "Family: 👨‍👩‍👧‍👦 done";

    let words = split_text(text);

    assert_eq!(words.len(), 3);
    assert!(words[1].starts_with('👨'));
}

#[test]
fn test_force_truncate_terminates_with_multibyte_ellipsis() {
    let long_word = "supercalifragilistic";
    let result = text_wrap(long_word, 8, 0, "", "", true, false);
    assert!(!result.lines.is_empty());
    assert!(result.truncated);
    for line in &result.lines {
        assert!(
            visible_length(line) <= 8,
            "line too wide: {:?} ({} cols)",
            line,
            visible_length(line)
        );
    }
}

#[test]
fn test_force_truncate_terminates_with_multibyte_content() {
    let wide_text = "═══════════════════";
    let result = text_wrap(wide_text, 8, 0, "", "", true, false);
    assert!(!result.lines.is_empty());
    for line in &result.lines {
        assert!(
            visible_length(line) <= 8,
            "line too wide: {:?} ({} cols)",
            line,
            visible_length(line)
        );
    }
}

#[test]
fn test_split_text_preserves_osc_hyperlink() {
    let link = "\x1b]8;;https://example.com\x1b\\Click here\x1b]8;;\x1b\\";
    let words = split_text(link);
    let joined = words.join(" ");
    assert!(
        joined.contains("\x1b]8;;https://example.com\x1b\\"),
        "opening OSC sequence must be preserved"
    );
    assert!(joined.contains("\x1b]8;;\x1b\\"), "closing OSC sequence must be preserved");
}

#[test]
fn test_split_text_preserves_multiple_spaces() {
    let text = "hello  world";
    let words = split_text(text);
    let rejoined = words.join("");
    assert!(rejoined.contains("  "), "double space should be preserved, got: {:?}", rejoined);
}

#[test]
fn test_text_wrap_prefix_does_not_overflow() {
    let margin = "│ ";
    let width = 20;
    let text = "hello world foo bar baz qux";
    let result = text_wrap(text, width, 0, margin, margin, false, false);
    for line in &result.lines {
        let total = visible_length(line);
        assert!(
            total <= width,
            "line is {} cols wide, exceeds width {}: {:?}",
            total,
            width,
            line
        );
    }
}

#[test]
fn wrapped_text_accessors() {
    let e = WrappedText::empty();
    assert!(e.is_empty());
    assert_eq!(e.len(), 0);
    assert!(!e.truncated);
    let r = text_wrap("a b", 10, 0, "", "", false, false);
    assert_eq!(r.len(), 1);
    assert!(!r.is_empty());
}

#[test]
fn split_text_drops_leading_space_and_keeps_escapes() {
    assert_eq!(split_text("  hi there "), vec!["hi ", "there "]);
    assert_eq!(split_text("\x1b[1m x"), vec!["\x1b[1m ", "x"]);
    assert_eq!(split_text("a\x1b[3"), vec!["a\x1b[3"]);
    assert!(split_text("").is_empty());
}

#[test]
fn text_wrap_zero_width_returns_text() {
    let r = text_wrap("any \x1b[1mtext", 0, 2, "> ", "  ", true, false);
    assert_eq!(r.lines, vec!["any \x1b[1mtext".to_string()]);
    assert!(!r.truncated);
}

#[test]
fn text_wrap_exact_lines() {
    let r = text_wrap("hello world foo bar baz", 10, 0, "", "", false, false);
    assert_eq!(
        r.lines,
        vec![
            "hello \x1b[0m    ".to_string(),
            "world foo \x1b[0m".to_string(),
            "bar baz\x1b[0m".to_string(),
        ]
    );
    assert!(r.lines.len() > 1);
    for line in &r.lines {
        let shown = line.trim_end_matches(' ').trim_end_matches("\x1b[0m");
        assert!(visible_length(shown) <= 10);
    }
    assert!(!r.truncated);
}

#[test]
fn text_wrap_force_truncate_exact() {
    let r = text_wrap("supercalifragilistic", 8, 0, "", "", true, false);
    assert_eq!(r.lines, vec!["superca…\x1b[0m".to_string()]);
    assert!(r.truncated);
    for line in &r.lines {
        assert!(visible_length(line) <= 8);
    }
}

#[test]
fn text_wrap_carries_style_and_indent() {
    let r = text_wrap("\x1b[1mab cd", 3, 1, "", "", false, true);
    assert_eq!(r.lines, vec!["\x1b[1mab ".to_string(), " \x1b[1mcd".to_string()]);
}

#[test]
fn text_wrap_empty_text() {
    let r = text_wrap("   ", 10, 0, "", "", false, false);
    assert!(r.lines.is_empty());
    assert!(!r.truncated);
}

#[test]
fn simple_wrap_cjk_reference_split() {
    let lines = simple_wrap("你好 世界 你好 世界", 10);
    assert_eq!(lines, vec!["你好 世界".to_string(), "你好 世界".to_string()]);
}

#[test]
fn simple_wrap_edges() {
    assert_eq!(simple_wrap("", 10), vec!["".to_string()]);
    assert_eq!(simple_wrap("a  b", 0), vec!["a  b".to_string()]);
    assert_eq!(simple_wrap("   ", 4), vec!["".to_string()]);
    assert_eq!(simple_wrap("aa  bb cc", 5), vec!["aa bb".to_string(), "cc".to_string()]);
}

#[test]
fn truncate_counts_wide_characters() {
    assert_eq!(truncate_to_visible("你好世界", 3), "你");
    assert_eq!(truncate_to_visible("a🎉", 2), "a");
    assert_eq!(truncate_to_visible("ab\x1b[1mcd", 2), "ab\x1b[1m");
}

#[test]
fn text_wrap_clip_never_exceeds_width() {
    let r = text_wrap("你好你好你好", 4, 0, "", "", true, false);
    assert_eq!(r.lines, vec!["你…\x1b[0m".to_string()]);
    assert!(r.truncated);
    for line in &r.lines {
        assert!(visible_length(line) <= 4);
    }
}

#[test]
fn text_wrap_keeps_zero_width_units() {
    let r = text_wrap("a \u{301}", 10, 0, "", "", false, false);
    assert_eq!(r.lines, vec!["a \u{301}\x1b[0m".to_string()]);
    let r = text_wrap("hi \x1b[0m", 10, 0, "", "", false, true);
    assert_eq!(r.lines, vec!["hi \x1b[0m".to_string()]);
}
