use board::color::color_cuts_char;
use board::parse_hex_color;
use board::text::{first_word_of, replace_all_in, trim_end_matches_all, trim_white_of, white_space};

#[test]
fn parse_hex_color_with_and_without_hash() {
    assert_eq!(parse_hex_color("#FF8000"), Some([255, 128, 0]));
    assert_eq!(parse_hex_color("ff8000"), Some([255, 128, 0]));
    assert_eq!(parse_hex_color("00aA0f"), Some([0, 170, 15]));
}

#[test]
fn parse_hex_color_rejects_bad_input() {
    assert_eq!(parse_hex_color(""), None);
    assert_eq!(parse_hex_color("#fff"), None);
    assert_eq!(parse_hex_color("GG0000"), None);
    assert_eq!(parse_hex_color("##FF8000"), None);
    assert_eq!(parse_hex_color("#FF80001"), None);
    assert_eq!(parse_hex_color("-f0000"), None);
    assert_eq!(parse_hex_color(" f0000"), None);
    assert_eq!(parse_hex_color("++0000"), None);
}

#[test]
fn parse_hex_color_accepts_plus_signs_like_from_str_radix() {
    assert_eq!(parse_hex_color("+f+f+f"), Some([15, 15, 15]));
    assert_eq!(parse_hex_color("#+a00+1"), Some([10, 0, 1]));
}

#[test]
fn parse_hex_color_non_ascii() {
    // "é" is two bytes: cut points 2 and 4 fall between characters.
    assert!(!color_cuts_char("éabcd"));
    assert_eq!(parse_hex_color("éabcd"), None);
    // A three-byte character over bytes 2..5 would be cut at byte 4.
    assert!(color_cuts_char("+f€x"));
    // A character over bytes 1..3 is cut at byte 2.
    assert!(color_cuts_char("aéabc"));
    assert!(!color_cuts_char("#FF8000"));
}

#[test]
fn trim_end_matches_repeats() {
    assert_eq!(trim_end_matches_all("Seattle City Center City Center", " City Center"), "Seattle");
    assert_eq!(trim_end_matches_all("City Center", " City Center"), "City Center");
    assert_eq!(trim_end_matches_all("", " Downtown"), "");
}

#[test]
fn replace_all_left_to_right_without_overlap() {
    assert_eq!(replace_all_in("aaa", "aa", "b"), "ba");
    assert_eq!(replace_all_in("GMT GMT", "GMT", "+0000"), "+0000 +0000");
    assert_eq!(replace_all_in("none here", "xyz", "q"), "none here");
}

#[test]
fn first_word_skips_whitespace() {
    assert_eq!(first_word_of("  45 Express "), Some("45".to_string()));
    assert_eq!(first_word_of("E\u{3000}Line"), Some("E".to_string()));
    assert_eq!(first_word_of("   "), None);
    assert_eq!(first_word_of(""), None);
}

#[test]
fn trim_white_both_ends() {
    assert_eq!(trim_white_of(" \t ab c\n"), "ab c");
    assert_eq!(trim_white_of("   "), "");
    assert_eq!(trim_white_of("\u{a0}x\u{2003}"), "x");
}

#[test]
fn white_space_agrees_with_std() {
    for u in 0u32..0x3100 {
        if let Some(c) = char::from_u32(u) {
            assert_eq!(white_space(c), c.is_whitespace(), "{:x}", u);
        }
    }
}
