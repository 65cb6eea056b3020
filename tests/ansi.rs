use streamdown_text::collapse::ansi_collapse;
use streamdown_text::scan::{
    extract_ansi_codes, is_ansi_code, remove_ansi, split_up, visible, visible_length,
};
use streamdown_text::sgr::parse_sgr_params;
use streamdown_text::wrap::wrap_ansi;

#[test]
fn test_visible() {
    assert_eq!(visible("\x1b[1mBold\x1b[0m"), "Bold");
    assert_eq!(visible("No codes"), "No codes");
    assert_eq!(visible("\x1b[38;2;255;0;0mRed\x1b[0m"), "Red");
}

#[test]
fn test_visible_length() {
    assert_eq!(visible_length("\x1b[1mHello\x1b[0m"), 5);
    assert_eq!(visible_length("Hello"), 5);
    assert_eq!(visible_length(""), 0);
}

#[test]
fn test_extract_ansi_codes() {
    let codes = extract_ansi_codes("\x1b[1mBold\x1b[0m");
    assert_eq!(codes.len(), 2);
    assert_eq!(codes[0], "\x1b[1m");
    assert_eq!(codes[1], "\x1b[0m");
}

#[test]
fn test_remove_ansi() {
    let text = "\x1b[1mBold\x1b[0m";
    let result = remove_ansi(text, &["\x1b[1m".to_string()]);
    assert_eq!(result, "Bold\x1b[0m");
}

#[test]
fn test_split_up() {
    let parts = split_up("\x1b[1mBold\x1b[0m text");
    assert!(parts.contains(&"\x1b[1m".to_string()));
    assert!(parts.contains(&"Bold".to_string()));
}

#[test]
fn test_is_ansi_code() {
    assert!(is_ansi_code("\x1b[1m"));
    assert!(is_ansi_code("\x1b[0m"));
    assert!(!is_ansi_code("hello"));
    assert!(!is_ansi_code(""));
}

#[test]
fn test_parse_sgr_params() {
    assert_eq!(parse_sgr_params("\x1b[1m"), vec![1]);
    assert_eq!(parse_sgr_params("\x1b[1;4m"), vec![1, 4]);
    assert_eq!(parse_sgr_params("\x1b[38;2;255;0;0m"), vec![38, 2, 255, 0, 0]);
}

#[test]
fn test_ansi_collapse_removes_duplicates() {
    let codes = vec!["\x1b[1m".to_string(), "\x1b[1m".to_string()];
    let collapsed = ansi_collapse(&codes, "");
    assert_eq!(collapsed.len(), 1);
    assert!(collapsed[0].contains("1"));
}

#[test]
fn test_wrap_ansi_basic() {
    let text = "Hello world";
    let lines = wrap_ansi(text, 6);
    assert!(lines.len() >= 2);
}

#[test]
fn test_ansi_collapse_preserves_256_color() {
    let codes = vec!["\x1b[38;5;196m".to_string()];
    let collapsed = ansi_collapse(&codes, "");
    assert!(
        collapsed.iter().any(|c| c.contains("38;5;196")),
        "256-color fg code should be preserved, got: {:?}",
        collapsed
    );
}

#[test]
fn test_ansi_collapse_preserves_legacy_color() {
    let codes = vec!["\x1b[31m".to_string()];
    let collapsed = ansi_collapse(&codes, "");
    assert!(
        collapsed.iter().any(|c| c == "\x1b[31m"),
        "legacy color should be preserved, got: {:?}",
        collapsed
    );
}

#[test]
fn visible_keeps_unterminated_sequences() {
    assert_eq!(visible("ab\x1b[12"), "ab\x1b[12");
    assert_eq!(visible("\x1b]8;;https://x.org\\link"), "link");
    assert_eq!(visible("a\x1b)b"), "ab");
}

#[test]
fn visible_twice_equals_once() {
    assert_eq!(visible("\x1b\x1b[1m[1m"), "");
    for s in ["\x1b[1mBold\x1b[0m", "plain", "x\x1b[3", "\x1b]8;;u\\t", "\x1b\x1b[1m[1m"] {
        let once = visible(s);
        assert_eq!(visible(&once), once);
    }
}

#[test]
fn visible_length_counts_columns() {
    assert_eq!(visible_length("\x1b[1mHello\x1b[0m"), 5);
    assert_eq!(visible_length("你好"), 4);
    assert_eq!(visible_length("a\r\nb"), 2);
    assert_eq!(visible_length("e\u{301}"), 1);
}

#[test]
fn extract_skips_non_sgr_sequences() {
    let codes = extract_ansi_codes("\x1b[2K\x1b[?25lhi\x1b[0;1m");
    assert_eq!(codes, vec!["\x1b[2K".to_string(), "\x1b[0;1m".to_string()]);
}

#[test]
fn split_up_drops_escape_without_m() {
    assert_eq!(split_up("ab\x1b[1"), vec!["ab".to_string(), "[1".to_string()]);
    assert_eq!(
        split_up("\x1b[1mBold\x1b[0m text"),
        vec!["\x1b[1m", "Bold", "\x1b[0m", " text"]
    );
}

#[test]
fn remove_ansi_in_turn_and_empty_code() {
    let codes = vec!["".to_string(), "ab".to_string(), "b".to_string()];
    assert_eq!(remove_ansi("aabbab", &codes), "a");
}

#[test]
fn parse_sgr_params_edge_cases() {
    assert_eq!(parse_sgr_params("\x1b[m"), vec![0]);
    assert_eq!(parse_sgr_params("\x1b[1;x;+4;99999999999m"), vec![1, 4]);
    assert_eq!(parse_sgr_params("\x1b[2K"), vec![2]);
    assert_eq!(parse_sgr_params("\x1b[;m"), Vec::<u32>::new());
}

#[test]
fn collapse_bold_off_and_on() {
    let codes: Vec<String> = ["\x1b[1m", "\x1b[1m", "\x1b[22m", "\x1b[1m"]
        .iter()
        .map(|s| s.to_string())
        .collect();
    assert_eq!(ansi_collapse(&codes, ""), vec!["\x1b[1m".to_string()]);
}

#[test]
fn collapse_reset_and_order() {
    let codes: Vec<String> = ["\x1b[31m", "\x1b[0m", "\x1b[5m", "\x1b[44m", "\x1b[3m", "\x1b[1m", "\x1b[38;5;2m", "\x1b[7m"]
        .iter()
        .map(|s| s.to_string())
        .collect();
    assert_eq!(
        ansi_collapse(&codes, ""),
        vec!["\x1b[1;3m", "\x1b[38;5;2m", "\x1b[44m", "\x1b[5m", "\x1b[7m"]
    );
    assert!(ansi_collapse(&[], "").is_empty());
    assert!(ansi_collapse(&["\x1b[1m".to_string(), "\x1b[0m".to_string()], "").is_empty());
}

#[test]
fn collapse_twice_equals_once() {
    let codes: Vec<String> = ["\x1b[4m", "\x1b[31m", "\x1b[48;5;7m", "\x1b[5m", "\x1b[39m"]
        .iter()
        .map(|s| s.to_string())
        .collect();
    let once = ansi_collapse(&codes, "");
    assert_eq!(ansi_collapse(&once, ""), once);
}

#[test]
fn wrap_ansi_reopens_codes() {
    let lines = wrap_ansi("\x1b[1mab cd\x1b[0m ef", 3);
    assert_eq!(lines, vec!["\x1b[1mab \x1b[0m", "\x1b[1mcd\x1b[0m ", "ef"]);
    assert_eq!(wrap_ansi("abc", 0), vec!["abc"]);
    assert_eq!(wrap_ansi("", 5), vec![""]);
}
