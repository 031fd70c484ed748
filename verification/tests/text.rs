use jx::text::{
    char_len, chars_of, contains_str, ends_with, find_char, is_whitespace, lines, rfind_char, slice,
    starts_with, strip_end, strip_start, trim,
};

#[test]
fn whitespace_is_what_std_calls_whitespace() {
    for code in 0u32..=0x10FFFF {
        if let Some(c) = char::from_u32(code) {
            assert_eq!(is_whitespace(c), c.is_whitespace(), "U+{:04X}", code);
        }
    }
}

#[test]
fn trim_agrees_with_std() {
    for text in ["", " ", "  a  ", "\t\nab c\r\n", "abc", "\u{3000}x\u{2003}", " é ", "a\u{200B}"] {
        assert_eq!(trim(text), text.trim(), "{:?}", text);
    }
}

#[test]
fn strip_runs_of_one_character() {
    assert_eq!(strip_start("<<a<b", '<'), "a<b");
    assert_eq!(strip_end("a>b>>", '>'), "a>b");
    assert_eq!(strip_start("\"\"", '"'), "");
    assert_eq!(strip_end("", '"'), "");
    assert_eq!(strip_start("abc", 'x'), "abc");
}

#[test]
fn lines_agree_with_std() {
    for text in [
        "",
        "\n",
        "a",
        "a\n",
        "a\nb",
        "a\r\nb\r\n",
        "a\r",
        "a\r\n\r\nb",
        "\n\n",
        "x\ry\n",
        "é\nü",
    ] {
        let expected: Vec<&str> = text.lines().collect();
        assert_eq!(lines(text), expected, "{:?}", text);
    }
}

#[test]
fn prefixes_suffixes_and_infixes() {
    assert!(starts_with("<artifactId>x", "<artifactId>"));
    assert!(!starts_with("<art", "<artifactId>"));
    assert!(starts_with("abc", ""));
    assert!(ends_with("x</artifactId>", "</artifactId>"));
    assert!(!ends_with("x", "xx"));
    assert!(contains_str("testImplementation 'a:b'", "implementation") == false);
    assert!(contains_str("testImplementation 'a:b'", "Implementation"));
    assert!(contains_str("abc", ""));
    assert!(contains_str("héllo", "éll"));
    assert!(!contains_str("ab", "abc"));
}

#[test]
fn finding_characters() {
    assert_eq!(find_char("a'b'c", '\''), Some(1));
    assert_eq!(rfind_char("a'b'c", '\''), Some(3));
    assert_eq!(find_char("abc", 'x'), None);
    assert_eq!(rfind_char("", 'x'), None);
    assert_eq!(find_char("éé'", '\''), Some(2));
}

#[test]
fn slicing_counts_characters() {
    assert_eq!(slice("héllo", 1, 4), "éll");
    assert_eq!(slice("abc", 3, 3), "");
    assert_eq!(char_len("héllo"), 5);
    assert_eq!(chars_of("hé"), vec!['h', 'é']);
}
