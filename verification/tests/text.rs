use dshe::text;

fn chars(s: &str) -> Vec<char> {
    s.chars().collect()
}

fn string(v: Vec<char>) -> String {
    v.into_iter().collect()
}

#[test]
fn characters_and_strings_convert_both_ways() {
    assert_eq!(text::chars_of("añ𝄞"), vec!['a', 'ñ', '𝄞']);
    assert_eq!(text::string_of(&['a', 'ñ', '𝄞']), "añ𝄞");
}

#[test]
fn split_keeps_empty_pieces() {
    let parts: Vec<String> = text::split_chars(&chars("|a||bc|"), '|').into_iter().map(string).collect();
    assert_eq!(parts, vec!["", "a", "", "bc", ""]);
    assert_eq!(text::split_chars(&[], '|').len(), 1);
    assert_eq!(text::split_bytes(b"a/b", b'/'), vec![b"a".to_vec(), b"b".to_vec()]);
}

#[test]
fn join_undoes_split() {
    let parts: Vec<String> = text::split_chars(&chars("x,,y"), ',').into_iter().map(string).collect();
    assert_eq!(text::join_strings(&parts, ','), "x,,y");
    assert_eq!(text::join_strings(&[], ','), "");
}

#[test]
fn comparisons() {
    assert!(text::same_text("ab", "ab"));
    assert!(!text::same_text("ab", "abc"));
    assert!(text::same_bytes(b"", b""));
    assert!(!text::same_bytes(b"a", b"b"));
    assert!(text::has_prefix(&chars("abc"), &chars("ab")));
    assert!(!text::has_prefix(&chars("a"), &chars("ab")));
    assert!(text::has_suffix(&chars("abc"), &chars("bc")));
    assert!(!text::has_suffix(&chars("abc"), &chars("ab")));
    assert!(text::has_char(&chars("abc"), 'c'));
    assert!(!text::has_char(&chars("abc"), 'd'));
}

#[test]
fn order_is_that_of_str() {
    let words = ["", "a", "aa", "ab", "b", "B", "ä", "\u{10000}", "\u{ffff}", "a/b", "a.b"];
    for a in words {
        for b in words {
            assert_eq!(text::text_precedes(a, b), a < b, "{a:?} {b:?}");
        }
    }
}

#[test]
fn lower_case_touches_ascii_only() {
    assert_eq!(string(text::lower_chars(&chars("AZaz@[Ä9"))), "azaz@[Ä9");
    assert_eq!(string(text::replace_chars(&chars("a_b_"), '_', '-')), "a-b-");
}

#[test]
fn trim_agrees_with_str() {
    for s in ["", "  ", " a ", "\t\n a b \r\n", "\u{a0}x\u{3000}", "\u{200b}x", "x", "\u{85}y\u{2028}"] {
        assert_eq!(string(text::trim_chars(&chars(s))), s.trim(), "{s:?}");
    }
}

#[test]
fn white_space_is_that_of_char() {
    for c in '\0'..='\u{3100}' {
        let trimmed = text::trim_chars(&[c]).is_empty();
        assert_eq!(trimmed, c.is_whitespace(), "{c:?}");
    }
}

#[test]
fn unsigned_numbers_agree_with_parse() {
    for s in [
        "", "+", "0", "007", "+7", "-1", " 1", "1 ", "18446744073709551615", "18446744073709551616",
        "99999999999999999999999", "12a", "++1", "１",
    ] {
        assert_eq!(text::read_unsigned(&chars(s), u64::MAX), s.parse::<u64>().ok(), "{s:?}");
        assert_eq!(
            text::read_unsigned(&chars(s), u16::MAX as u64),
            s.parse::<u16>().ok().map(|n| n as u64),
            "{s:?}"
        );
    }
}

#[test]
fn numbers_are_written_as_format_does() {
    for n in [0u64, 1, 9, 10, 255, 4096, u64::MAX] {
        assert_eq!(text::decimal_string(n), format!("{n}"));
        assert_eq!(string(text::write_number(n, 16)), format!("{n:x}"));
        assert_eq!(text::read_number(&chars(&format!("{n:X}")), 16, u64::MAX), Some(n));
    }
}
