use ds_util::text::{
    chars_of, replace_char, split_ranges, string_of, strip_range, without_char, CharClass,
};

fn pieces(text: &str, sep: char) -> Vec<String> {
    let v = chars_of(text);
    split_ranges(&v, 0, v.len(), sep).iter().map(|&(a, b)| string_of(&v, a, b)).collect()
}

fn stripped(text: &str, class: CharClass) -> String {
    let v = chars_of(text);
    let (a, b) = strip_range(&v, 0, v.len(), class);
    string_of(&v, a, b)
}

#[test]
fn chars_and_back() {
    let v = chars_of("héllo, wörld");
    assert_eq!(v.len(), 12);
    assert_eq!(v[1], 'é');
    assert_eq!(string_of(&v, 0, v.len()), "héllo, wörld");
    assert_eq!(string_of(&v, 7, 12), "wörld");
    assert_eq!(string_of(&v, 3, 3), "");
}

#[test]
fn whitespace_class_is_unicode_white_space() {
    for code in 0u32..0x11_0000 {
        if let Some(c) = char::from_u32(code) {
            assert_eq!(CharClass::Whitespace.test(c), c.is_whitespace(), "U+{:04X}", code);
        }
    }
}

#[test]
fn quote_class_is_the_double_quote() {
    assert!(CharClass::Quote.test('"'));
    assert!(!CharClass::Quote.test('\''));
    assert!(!CharClass::Quote.test(' '));
}

#[test]
fn strip_whitespace_like_trim() {
    for text in ["", " ", "  a b  ", "\t\r\nx\u{3000}", "x", " \u{a0}y z\u{2003}", "\u{200b} "] {
        assert_eq!(stripped(text, CharClass::Whitespace), text.trim());
    }
}

#[test]
fn strip_quotes_at_both_ends_only() {
    assert_eq!(stripped("\"abc\"", CharClass::Quote), "abc");
    assert_eq!(stripped("\"\"a\"b\"", CharClass::Quote), "a\"b");
    assert_eq!(stripped("\"\"\"", CharClass::Quote), "");
    assert_eq!(stripped(" \"a\"", CharClass::Quote), " \"a");
}

#[test]
fn strip_within_bounds() {
    let v = chars_of("ab  cd  ef");
    assert_eq!(strip_range(&v, 2, 8, CharClass::Whitespace), (4, 6));
    assert_eq!(strip_range(&v, 2, 4, CharClass::Whitespace), (4, 4));
}

#[test]
fn split_keeps_empty_pieces() {
    assert_eq!(pieces("", ','), vec![""]);
    assert_eq!(pieces("a", ','), vec!["a"]);
    assert_eq!(pieces("a,b", ','), vec!["a", "b"]);
    assert_eq!(pieces(",a,,b,", ','), vec!["", "a", "", "b", ""]);
    assert_eq!(pieces(",,", ','), vec!["", "", ""]);
}

#[test]
fn split_like_std() {
    for text in ["", "x", "1,2,3", ",", "a,,b", " a , b ", "no separator", ",,,"] {
        let expected: Vec<String> = text.split(',').map(|s| s.to_string()).collect();
        assert_eq!(pieces(text, ','), expected);
    }
}

#[test]
fn split_within_bounds() {
    let v = chars_of("xx|a|b|yy");
    assert_eq!(split_ranges(&v, 3, 6, '|'), vec![(3, 4), (5, 6)]);
}

#[test]
fn without_char_removes_every_occurrence() {
    let v = chars_of("_1_000__");
    assert_eq!(without_char(&v, 0, v.len(), '_'), chars_of("1000"));
    assert_eq!(without_char(&v, 1, 3, '_'), chars_of("1"));
    assert_eq!(without_char(&v, 0, 0, '_'), chars_of(""));
}

#[test]
fn replace_char_turns_every_occurrence() {
    let v = chars_of("1,5 and 2,25");
    assert_eq!(replace_char(&v, 0, v.len(), ',', '.'), chars_of("1.5 and 2.25"));
    assert_eq!(replace_char(&v, 0, 3, ',', '.'), chars_of("1.5"));
}
