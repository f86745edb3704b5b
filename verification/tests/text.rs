use snippets_everywhere::number::{parse_i64, push_decimal};
use snippets_everywhere::text::{
    char_is_space, from_chars, join_range, split_lines, split_whitespace, text_is, to_chars,
    trimmed,
};

fn chars(s: &str) -> Vec<char> {
    s.chars().collect()
}

fn strings(v: Vec<Vec<char>>) -> Vec<String> {
    v.into_iter().map(|w| w.into_iter().collect()).collect()
}

#[test]
fn whitespace_is_unicode_white_space() {
    for code in 0u32..0x3100 {
        if let Some(c) = char::from_u32(code) {
            assert_eq!(char_is_space(c), c.is_whitespace(), "U+{:04X}", code);
        }
    }
}

#[test]
fn split_whitespace_agrees_with_std() {
    for s in ["", " ", "a", " a  b\tc\n", "snippet  x \"d e\" A", "\u{3000}x\u{a0}y "] {
        let expected: Vec<String> = s.split_whitespace().map(|w| w.to_string()).collect();
        assert_eq!(strings(split_whitespace(&chars(s))), expected, "{:?}", s);
    }
}

#[test]
fn trimmed_agrees_with_std() {
    for s in ["", "   ", "a", "  a b  ", "\t\na\u{2003}", "x  "] {
        let got: String = trimmed(&chars(s)).into_iter().collect();
        assert_eq!(got, s.trim(), "{:?}", s);
    }
}

#[test]
fn split_lines_agrees_with_std() {
    for s in ["", "\n", "a", "a\n", "a\nb", "a\r\nb\r\n", "a\n\nb\n\n", "a\r", "\r\n", "a\r\r\nb"] {
        let expected: Vec<String> = s.lines().map(|w| w.to_string()).collect();
        assert_eq!(strings(split_lines(&chars(s))), expected, "{:?}", s);
    }
}

#[test]
fn join_range_puts_separator_between() {
    let parts = vec![chars("a"), chars("bc"), chars(""), chars("d")];
    let got: String = join_range(&parts, 0, 4, ", ").into_iter().collect();
    assert_eq!(got, "a, bc, , d");
    let got: String = join_range(&parts, 1, 2, ", ").into_iter().collect();
    assert_eq!(got, "bc");
    let got: String = join_range(&parts, 2, 2, ", ").into_iter().collect();
    assert_eq!(got, "");
    let got: String = join_range(&parts, 0, 2, "").into_iter().collect();
    assert_eq!(got, "abc");
}

#[test]
fn chars_and_strings_convert() {
    assert_eq!(to_chars("aඞb"), vec!['a', 'ඞ', 'b']);
    assert_eq!(from_chars(&vec!['a', 'ඞ', 'b']), "aඞb");
    assert!(text_is(&chars("snippet"), "snippet"));
    assert!(!text_is(&chars("snippe"), "snippet"));
    assert!(!text_is(&chars("snippex"), "snippet"));
}

#[test]
fn parse_i64_agrees_with_std() {
    for s in [
        "", "0", "-0", "+0", "7", "-7", "+7", "007", "12345", "-", "+", "--1", "+-1", "1 ", " 1",
        "1a", "a", "9223372036854775807", "9223372036854775808", "-9223372036854775808",
        "-9223372036854775809", "99999999999999999999999999999999999999999999",
        "-00000000000000000000000000000000000000000000001", "١",
    ] {
        assert_eq!(parse_i64(&chars(s)), s.parse::<i64>().ok(), "{:?}", s);
    }
}

#[test]
fn push_decimal_writes_base_ten() {
    for n in [0i64, 1, 9, 10, 11, 99, 100, 12345, -1, -10, -12345, i64::MAX, i64::MIN] {
        let mut out = chars("x");
        push_decimal(&mut out, n);
        let got: String = out.into_iter().collect();
        assert_eq!(got, format!("x{}", n));
    }
}
