use fate_respec::text::{chars_of, is_space_char, parse_i32, split_bounds, starts_with, text_eq, trim_bounds};

fn chars(s: &str) -> Vec<char> {
    s.chars().collect()
}

#[test]
fn chars_of_keeps_every_character() {
    assert_eq!(chars_of("aé€😀"), vec!['a', 'é', '€', '😀']);
    assert_eq!(chars_of(""), Vec::<char>::new());
}

#[test]
fn text_eq_and_prefixes() {
    assert!(text_eq("fate", "fate"));
    assert!(!text_eq("fate", "fat"));
    assert!(!text_eq("fate", "Fate"));
    assert!(starts_with("--version=fate", "--version="));
    assert!(starts_with("abc", ""));
    assert!(!starts_with("--ver", "--version="));
    assert!(!starts_with("x--version=", "--version="));
}

#[test]
fn white_space_is_unicode_white_space() {
    for c in [' ', '\t', '\n', '\u{b}', '\u{c}', '\r', '\u{85}', '\u{a0}', '\u{1680}', '\u{2000}', '\u{200a}', '\u{2028}', '\u{2029}', '\u{202f}', '\u{205f}', '\u{3000}'] {
        assert!(is_space_char(c), "{:?}", c);
        assert_eq!(is_space_char(c), c.is_whitespace());
    }
    for c in ['a', '0', '\u{200b}', '\u{feff}', '_', '\u{0}'] {
        assert!(!is_space_char(c), "{:?}", c);
        assert_eq!(is_space_char(c), c.is_whitespace());
    }
}

#[test]
fn trim_bounds_strip_both_ends() {
    let s = chars("  ab c \t");
    assert_eq!(trim_bounds(&s, 0, s.len()), (2, 6));
    assert_eq!(trim_bounds(&s, 3, 5), (3, 4));
    let blank = chars("   ");
    let (lo, hi) = trim_bounds(&blank, 0, 3);
    assert_eq!(lo, hi);
}

#[test]
fn split_bounds_between_commas() {
    let s = chars("a,,bc,");
    assert_eq!(split_bounds(&s), vec![(0, 1), (2, 2), (3, 5), (6, 6)]);
    assert_eq!(split_bounds(&chars("")), vec![(0, 0)]);
    assert_eq!(split_bounds(&chars("xyz")), vec![(0, 3)]);
}

#[test]
fn parse_i32_reads_like_from_str() {
    for text in ["0", "42", "-42", "+42", "007", "2147483647", "-2147483648", "2147483648", "-2147483649", "", "-", "+", "1 ", "4a", "--1", "99999999999999999999", "١"] {
        let s = chars(text);
        assert_eq!(parse_i32(&s, 0, s.len()), text.parse::<i32>().ok(), "{:?}", text);
    }
    let s = chars("x12y");
    assert_eq!(parse_i32(&s, 1, 3), Some(12));
}
