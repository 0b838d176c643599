use portkill::text::{
    chars_of, parse_u16_range, parse_u32_range, parse_u64_range, push_decimal, split_lines,
    split_words, string_from_chars, trimmed_range, white_space,
};

fn chars(s: &str) -> Vec<char> {
    s.chars().collect()
}

fn strings(v: Vec<Vec<char>>) -> Vec<String> {
    v.into_iter().map(|l| l.into_iter().collect()).collect()
}

fn u32_of(s: &str) -> Option<u32> {
    let c = chars(s);
    parse_u32_range(&c, 0, c.len())
}

#[test]
fn lines_match_str_lines() {
    for text in ["", "\n", "a", "a\n", "a\r\nb", "a\r", "\r\n", "a\n\nb\n", "x\r\r\ny", "\n\n"] {
        let expected: Vec<String> = text.lines().map(|l| l.to_string()).collect();
        assert_eq!(strings(split_lines(&chars(text))), expected, "text {:?}", text);
    }
}

#[test]
fn words_match_split_whitespace() {
    for text in ["", "  ", "a b", " a\tb\u{3000}c\u{2009}d ", "\u{85}x\u{a0}y\u{200b}z"] {
        let expected: Vec<String> = text.split_whitespace().map(|w| w.to_string()).collect();
        assert_eq!(strings(split_words(&chars(text))), expected, "text {:?}", text);
    }
}

#[test]
fn white_space_matches_char_is_whitespace() {
    for u in 0u32..0x3100 {
        if let Some(c) = char::from_u32(u) {
            assert_eq!(white_space(c), c.is_whitespace(), "char {:x}", u);
        }
    }
}

#[test]
fn trim_matches_str_trim() {
    for text in ["", "   ", " a b ", "\u{3000}x\n", "abc"] {
        let c = chars(text);
        let (lo, hi) = trimmed_range(&c);
        let got: String = c[lo..hi].iter().collect();
        assert_eq!(got, text.trim());
    }
}

#[test]
fn u32_parse_matches_from_str() {
    for s in ["0", "42", "+42", "007", "", "+", "-1", "++1", "4294967295", "4294967296", "1 ", "１", "99999999999999999999999"] {
        assert_eq!(u32_of(s), s.parse::<u32>().ok(), "input {:?}", s);
    }
}

#[test]
fn u16_and_u64_bounds() {
    let c = chars("65535 65536 18446744073709551615 18446744073709551616");
    assert_eq!(parse_u16_range(&c, 0, 5), Some(65535));
    assert_eq!(parse_u16_range(&c, 6, 11), None);
    assert_eq!(parse_u64_range(&c, 12, 32), Some(u64::MAX));
    assert_eq!(parse_u64_range(&c, 33, 53), None);
}

#[test]
fn decimal_spelling() {
    for n in [0u64, 7, 10, 305, u64::MAX] {
        let mut out = vec!['x'];
        push_decimal(&mut out, n);
        let got: String = out.into_iter().collect();
        assert_eq!(got, format!("x{}", n));
    }
}

#[test]
fn chars_and_strings_round_trip() {
    let s = "héllo wörld ✓";
    let c = chars_of(s);
    assert_eq!(c, chars(s));
    assert_eq!(string_from_chars(&c), s.to_string());
}
