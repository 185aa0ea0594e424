use makeppkg::text::{
    byte_decimal, chars_of, eq_ignore_ascii_case, first_word_of, is_whitespace, join_with_newlines,
    split_lines, strip_leading_dashes, to_hex_lower, trim_chars,
};

fn s(v: &[char]) -> String {
    v.iter().collect()
}

fn lines(text: &str) -> Vec<String> {
    split_lines(&chars_of(text)).iter().map(|l| s(l)).collect()
}

#[test]
fn split_lines_like_str_lines() {
    for text in ["", "a", "a\n", "a\nb", "a\r\nb\r\n", "\n", "\n\n", "foo\nbar\n\r\nbaz\r", "x\r"] {
        let expected: Vec<String> = text.lines().map(|l| l.to_string()).collect();
        assert_eq!(lines(text), expected, "text {:?}", text);
    }
}

#[test]
fn split_then_join_gives_text_back() {
    for text in ["", "a", "a\nb", "\n\nx", "one\n\ntwo\nthree"] {
        let split = split_lines(&chars_of(text));
        assert_eq!(s(&join_with_newlines(&split)), text);
    }
}

#[test]
fn join_drops_final_newline() {
    let split = split_lines(&chars_of("a\nb\n"));
    assert_eq!(s(&join_with_newlines(&split)), "a\nb");
}

#[test]
fn whitespace_is_unicode_white_space() {
    for c in ['\t', '\n', '\u{0b}', '\u{0c}', '\r', ' ', '\u{85}', '\u{a0}', '\u{1680}', '\u{2000}', '\u{200a}', '\u{2028}', '\u{2029}', '\u{202f}', '\u{205f}', '\u{3000}'] {
        assert!(is_whitespace(c));
        assert!(c.is_whitespace());
    }
    for c in ['a', '\u{200b}', '\u{180e}', '-', '\u{feff}'] {
        assert!(!is_whitespace(c));
        assert!(!c.is_whitespace());
    }
}

#[test]
fn trim_like_str_trim() {
    for text in ["", "  ", " a b ", "\ta\u{3000}", "x"] {
        assert_eq!(s(&trim_chars(&chars_of(text))), text.trim());
    }
}

#[test]
fn first_word() {
    assert_eq!(first_word_of(&chars_of(" a/PKGBUILD\t2019-01-01")).map(|w| s(&w)), Some("a/PKGBUILD".to_string()));
    assert_eq!(first_word_of(&chars_of("   ")), None);
    assert_eq!(first_word_of(&chars_of("")), None);
}

#[test]
fn dashes_stripped() {
    assert_eq!(s(&strip_leading_dashes(&chars_of("--source"))), "source");
    assert_eq!(s(&strip_leading_dashes(&chars_of("-a-b"))), "a-b");
    assert_eq!(s(&strip_leading_dashes(&chars_of("---"))), "");
}

#[test]
fn ascii_case() {
    assert!(eq_ignore_ascii_case(&chars_of("PkgBuild"), &chars_of("PKGBUILD")));
    assert!(!eq_ignore_ascii_case(&chars_of("PKGBUILDS"), &chars_of("PKGBUILD")));
    assert!(!eq_ignore_ascii_case(&chars_of("\u{212a}"), &chars_of("k")));
}

#[test]
fn numbers() {
    assert_eq!(s(&byte_decimal(0)), "0");
    assert_eq!(s(&byte_decimal(42)), "42");
    assert_eq!(s(&byte_decimal(200)), "200");
    assert_eq!(s(&to_hex_lower(&[0xde, 0xad, 0x01])), "dead01");
}
