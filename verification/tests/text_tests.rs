use maple_cli::text::{
    decode_lines, is_whitespace, join, split_lines, split_whitespace, to_decimal, NEWLINE,
};

#[test]
fn whitespace_characters() {
    for c in [' ', '\t', '\n', '\r', '\u{0b}', '\u{0c}', '\u{85}', '\u{a0}', '\u{1680}', '\u{2003}', '\u{2028}', '\u{2029}', '\u{202f}', '\u{205f}', '\u{3000}'] {
        assert!(is_whitespace(c), "{:?}", c);
    }
    for c in ['a', '0', '_', '-', '\u{200b}', '\u{feff}', '\u{0}', '\u{1f}', '\u{2000b}'] {
        assert!(!is_whitespace(c), "{:?}", c);
    }
}

#[test]
fn whitespace_agrees_with_std_on_every_char() {
    for u in 0..=0x10ffffu32 {
        if let Some(c) = char::from_u32(u) {
            assert_eq!(is_whitespace(c), c.is_whitespace(), "U+{:04X}", u);
        }
    }
}

#[test]
fn split_whitespace_splits_a_command_line() {
    assert_eq!(split_whitespace("rg --column --line-number"), vec!["rg", "--column", "--line-number"]);
}

#[test]
fn split_whitespace_ignores_runs_and_edges() {
    assert_eq!(split_whitespace("  rg \t -H\n\n--no-heading  "), vec!["rg", "-H", "--no-heading"]);
    assert_eq!(split_whitespace("one"), vec!["one"]);
}

#[test]
fn split_whitespace_of_blank_text_is_empty() {
    assert!(split_whitespace("").is_empty());
    assert!(split_whitespace(" \t\n ").is_empty());
}

#[test]
fn split_whitespace_keeps_non_ascii_words() {
    assert_eq!(split_whitespace("grep é\u{3000}日本語 x"), vec!["grep", "é", "日本語", "x"]);
}

#[test]
fn split_whitespace_agrees_with_std() {
    for text in ["a b", " a  b ", "\ta\nb\rc", "x\u{a0}y", "", "   ", "rg -g '*.rs' foo"] {
        let expected: Vec<String> = text.split_whitespace().map(String::from).collect();
        assert_eq!(split_whitespace(text), expected);
    }
}

#[test]
fn decimal_rendering() {
    assert_eq!(to_decimal(0), "0");
    assert_eq!(to_decimal(7), "7");
    assert_eq!(to_decimal(10), "10");
    assert_eq!(to_decimal(1234567890), "1234567890");
    assert_eq!(to_decimal(u64::MAX), "18446744073709551615");
}

#[test]
fn join_puts_the_separator_between() {
    let parts = vec!["fd".to_string(), "--type".to_string(), "f".to_string()];
    assert_eq!(join(&parts, "_"), "fd_--type_f");
    assert_eq!(join(&parts[..1].to_vec(), "_"), "fd");
    assert_eq!(join(&Vec::new(), "_"), "");
    assert_eq!(join(&vec![String::new(), String::new()], ", "), ", ");
}

#[test]
fn split_lines_cuts_at_newlines() {
    assert_eq!(NEWLINE, b'\n');
    assert_eq!(split_lines(b"a\nbc\n", None), vec![b"a".to_vec(), b"bc".to_vec(), b"".to_vec()]);
    assert_eq!(split_lines(b"a\nbc", None), vec![b"a".to_vec(), b"bc".to_vec()]);
    assert_eq!(split_lines(b"", None), vec![Vec::<u8>::new()]);
    assert_eq!(split_lines(b"\n\n", None), vec![Vec::<u8>::new(); 3]);
}

#[test]
fn split_lines_stops_at_the_limit() {
    assert_eq!(split_lines(b"a\nb\nc\nd", Some(2)), vec![b"a".to_vec(), b"b".to_vec()]);
    assert_eq!(split_lines(b"a\nb", Some(2)), vec![b"a".to_vec(), b"b".to_vec()]);
    assert_eq!(split_lines(b"a\nb", Some(5)), vec![b"a".to_vec(), b"b".to_vec()]);
    assert_eq!(split_lines(b"a\nb\n", Some(3)), vec![b"a".to_vec(), b"b".to_vec(), b"".to_vec()]);
    assert!(split_lines(b"a\nb", Some(0)).is_empty());
    assert_eq!(split_lines(b"abc", Some(1)), vec![b"abc".to_vec()]);
}

#[test]
fn split_lines_agrees_with_std_split() {
    for text in ["", "x", "x\n", "\nx", "a\n\nb", "one\ntwo\nthree\n"] {
        let expected: Vec<Vec<u8>> = text.split('\n').map(|l| l.as_bytes().to_vec()).collect();
        assert_eq!(split_lines(text.as_bytes(), None), expected);
        for n in 0..5 {
            let first: Vec<Vec<u8>> = text.split('\n').take(n).map(|l| l.as_bytes().to_vec()).collect();
            assert_eq!(split_lines(text.as_bytes(), Some(n)), first);
        }
    }
}

#[test]
fn decode_lines_replaces_invalid_bytes() {
    let lines = vec![b"plain".to_vec(), vec![0xff, b'a'], "é".as_bytes().to_vec(), Vec::new()];
    assert_eq!(decode_lines(&lines), vec!["plain", "\u{fffd}a", "é", ""]);
}
