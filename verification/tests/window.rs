use winnow_core::window::{
    divider_position, parse_i32, parse_u8, parse_window_state, settled_divider, split_words, window_state_text,
    DEFAULT_HEIGHT, DEFAULT_INFO_WIDTH, DEFAULT_WIDTH,
};

#[test]
fn window_state_roundtrip() {
    let t = window_state_text(1400, 900, true, 333).unwrap();
    assert_eq!(t, "1400 900 1 333");
    assert_eq!(parse_window_state(&t), (1400, 900, true, 333));
    assert_eq!(window_state_text(0, 900, false, 1), None);
    assert_eq!(window_state_text(10, 20, false, -5).unwrap(), "10 20 0 -5");
}

#[test]
fn bad_or_missing_values_take_defaults() {
    assert_eq!(parse_window_state(""), (DEFAULT_WIDTH, DEFAULT_HEIGHT, false, DEFAULT_INFO_WIDTH));
    assert_eq!(parse_window_state("  -3\tx  7  9999999999 "), (DEFAULT_WIDTH, DEFAULT_HEIGHT, true, DEFAULT_INFO_WIDTH));
    assert_eq!(parse_window_state("+800 600"), (800, 600, false, DEFAULT_INFO_WIDTH));
}

#[test]
fn integers_parse_as_std_does() {
    for s in ["0", "-0", "+5", "-2147483648", "2147483647", "2147483648", "-2147483649", "", "-", "+", "1a", " 1", "007", "99999999999999999999"] {
        assert_eq!(parse_i32(s), s.parse::<i32>().ok(), "{s:?}");
    }
    for s in ["0", "255", "256", "+7", "-0", "", "12x", "0001"] {
        assert_eq!(parse_u8(s), s.parse::<u8>().ok(), "{s:?}");
    }
}

#[test]
fn words_split_on_any_whitespace() {
    assert_eq!(split_words("  a bc\t\nd \u{3000}e  "), vec!["a", "bc", "d", "e"]);
    assert!(split_words(" \t ").is_empty());
}

#[test]
fn divider_keeps_panel_width() {
    assert_eq!(divider_position(1280, 320), 960);
    assert_eq!(divider_position(300, 320), 200);
    assert_eq!(settled_divider(1000, 320), 680);
    assert_eq!(settled_divider(1000, 50), 880);
    assert_eq!(settled_divider(1000, 900), 200);
    assert_eq!(settled_divider(250, 900), 130);
}
