use llmctl::numbers::{parse_unsigned_chars, push_decimal};
use llmctl::sorting::text_le_chars;
use llmctl::text::{
    chars_of, contains_chars, ends_with_chars, is_whitespace_char, split_lines, split_words,
    trim_chars,
};

fn chars(s: &str) -> Vec<char> {
    s.chars().collect()
}

fn samples() -> Vec<String> {
    let mut out: Vec<String> = vec![
        "", "\n", "\n\n", "a", "a\n", "a\r\n", "a\r", "\r", "\r\n", "\r\r\n", "a\nb", "a\n\nb\n",
        "a\r\nb\r\n", "  x  y\t z ", "x\u{a0}y\u{3000}z\u{2028}w", "\u{85}a\u{200b}b",
        "+12", "-3", "+", "007", "4294967295", "4294967296", "18446744073709551615",
        "18446744073709551616", "12.5", ".5", "5.", ".", "1.25", "1.249", "+0.05", "1e3", "12.3.4",
    ]
    .into_iter()
    .map(|s| s.to_string())
    .collect();
    let alphabet = ['a', ' ', '\n', '\r', '\t', '.', '1', 'é', '\u{2003}'];
    let mut x: u32 = 12345;
    for len in 0..12 {
        for _ in 0..40 {
            let mut s = String::new();
            for _ in 0..len {
                x = x.wrapping_mul(1103515245).wrapping_add(12345);
                s.push(alphabet[((x >> 16) as usize) % alphabet.len()]);
            }
            out.push(s);
        }
    }
    out
}

#[test]
fn chars_of_gives_the_characters() {
    for s in samples() {
        assert_eq!(chars_of(&s), chars(&s));
    }
}

#[test]
fn split_lines_matches_str_lines() {
    for s in samples() {
        let expected: Vec<Vec<char>> = s.lines().map(chars).collect();
        assert_eq!(split_lines(&chars(&s)), expected, "{s:?}");
    }
}

#[test]
fn split_words_matches_split_whitespace() {
    for s in samples() {
        let expected: Vec<Vec<char>> = s.split_whitespace().map(chars).collect();
        assert_eq!(split_words(&chars(&s)), expected, "{s:?}");
    }
}

#[test]
fn whitespace_matches_char_is_whitespace() {
    for c in (0u32..0x3100).filter_map(char::from_u32) {
        assert_eq!(is_whitespace_char(c), c.is_whitespace(), "{c:?}");
    }
}

#[test]
fn unsigned_parsing_matches_str_parse() {
    for s in samples() {
        let c = chars(&s);
        assert_eq!(parse_unsigned_chars(&c, u32::MAX as u64), s.parse::<u32>().ok().map(u64::from), "{s:?}");
        assert_eq!(parse_unsigned_chars(&c, u64::MAX), s.parse::<u64>().ok(), "{s:?}");
    }
}

#[test]
fn decimals_match_to_string() {
    for n in [0u64, 1, 9, 10, 99, 100, 12345, u32::MAX as u64, u64::MAX] {
        let mut s = String::new();
        push_decimal(&mut s, n);
        assert_eq!(s, n.to_string());
    }
}

#[test]
fn text_order_matches_string_order() {
    let all = samples();
    for a in all.iter().take(120) {
        for b in all.iter().take(120) {
            assert_eq!(text_le_chars(&chars(a), &chars(b)), a <= b, "{a:?} {b:?}");
        }
    }
}

#[test]
fn searching_matches_contains_and_ends_with() {
    let all = samples();
    for a in all.iter().take(80) {
        for b in ["", "a", " a", "\n", "1.", "é"] {
            assert_eq!(contains_chars(&chars(a), &chars(b)), a.contains(b));
            assert_eq!(ends_with_chars(&chars(a), &chars(b)), a.ends_with(b));
        }
    }
}

#[test]
fn trimming_matches_trim_matches() {
    for s in ["\"\"x\"", "''", "x", "\"'x'\"", "", "\"", "a\"b"] {
        assert_eq!(trim_chars(&chars(s), '"'), chars(s.trim_matches('"')));
        assert_eq!(trim_chars(&chars(s), '\''), chars(s.trim_matches('\'')));
    }
}
