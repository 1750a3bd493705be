//! Text: white space, numbers, letters.

use chd2iso_fuse::text::{
    begins_with, eq_ignore_ascii_case, find_char, find_separator, has_text, is_text, parse_u32,
    white_space,
};

fn chars(s: &str) -> Vec<char> {
    s.chars().collect()
}

#[test]
fn white_space_is_that_of_unicode() {
    for u in 0..=0x10_FFFFu32 {
        if let Some(c) = char::from_u32(u) {
            assert_eq!(white_space(c), c.is_whitespace(), "{u:#x}");
        }
    }
}

#[test]
fn numbers_are_read_as_by_the_standard_library() {
    let cases = [
        "", "+", "-", "0", "00", "+0", "-0", "7", "+12", "++1", "4294967295", "4294967296",
        "42949672950", "1 ", " 1", "1_0", "0x1", "1.0", "\u{0661}", "000000000000000000001",
    ];
    for s in cases {
        assert_eq!(parse_u32(&chars(s)), s.parse::<u32>().ok(), "{s:?}");
    }
}

#[test]
fn letters_match_in_any_case() {
    assert!(eq_ignore_ascii_case("chd", "CHD"));
    assert!(eq_ignore_ascii_case("cHd", "ChD"));
    assert!(!eq_ignore_ascii_case("chd", "chdx"));
    assert!(!eq_ignore_ascii_case("\u{e9}", "\u{c9}"));
    assert!(!eq_ignore_ascii_case("[", "{"));
    for a in 0..128u8 {
        for b in 0..128u8 {
            let (x, y) = (char::from(a).to_string(), char::from(b).to_string());
            assert_eq!(eq_ignore_ascii_case(&x, &y), x.eq_ignore_ascii_case(&y));
        }
    }
}

#[test]
fn pieces_of_text() {
    assert!(is_text(&chars("abc"), "abc"));
    assert!(!is_text(&chars("abc"), "abd"));
    assert!(!is_text(&chars("ab"), "abc"));
    assert!(begins_with(&chars("MODE2/x"), "MODE2"));
    assert!(!begins_with(&chars("MODE"), "MODE2"));
    assert!(has_text(&chars("x2048y"), "2048"));
    assert!(has_text(&chars("2048"), "2048"));
    assert!(!has_text(&chars("204"), "2048"));
    assert!(!has_text(&chars("2 048"), "2048"));
    assert_eq!(find_char(&chars("a:b:c"), ':'), Some(1));
    assert_eq!(find_char(&chars("abc"), ':'), None);
    assert_eq!(find_separator(&chars("ab,c d")), Some(2));
    assert_eq!(find_separator(&chars("abc")), None);
}
