use pocket_apps::text::{
    chars_of, parse_u64, push_decimal, push_str, split_words, str_eq, trim, trim_end_matching,
};

#[test]
fn words_split_on_any_whitespace() {
    assert_eq!(split_words("  a bb\tccc\n d  "), vec!["a", "bb", "ccc", "d"]);
    assert_eq!(split_words("x\u{3000}y\u{85}z"), vec!["x", "y", "z"]);
    assert!(split_words("").is_empty());
    assert!(split_words(" \t\n").is_empty());
    assert_eq!(split_words("one"), vec!["one"]);
}

#[test]
fn trimming() {
    assert_eq!(trim("  hi there \n"), "hi there");
    assert_eq!(trim("\u{a0}x\u{2003}"), "x");
    assert_eq!(trim("   "), "");
    assert_eq!(trim_end_matching("ab\0\0", '\0'), "ab");
    assert_eq!(trim_end_matching("\0a\0", '\0'), "\0a");
}

#[test]
fn parsing_unsigned_numbers() {
    assert_eq!(parse_u64("0"), Some(0));
    assert_eq!(parse_u64("42"), Some(42));
    assert_eq!(parse_u64("+7"), Some(7));
    assert_eq!(parse_u64("007"), Some(7));
    assert_eq!(parse_u64("18446744073709551615"), Some(u64::MAX));
    assert_eq!(parse_u64("18446744073709551616"), None);
    assert_eq!(parse_u64(""), None);
    assert_eq!(parse_u64("+"), None);
    assert_eq!(parse_u64("-1"), None);
    assert_eq!(parse_u64("1a"), None);
    assert_eq!(parse_u64(" 1"), None);
}

#[test]
fn parsing_agrees_with_std() {
    for s in ["0", "+0", "99", "+", "", "x", "184467440737095516150", "12345678901234567890"] {
        assert_eq!(parse_u64(s), s.parse::<u64>().ok());
    }
}

#[test]
fn formatting_numbers() {
    let mut s = String::from("n=");
    push_decimal(&mut s, 0);
    push_str(&mut s, ",");
    push_decimal(&mut s, 1234567890);
    push_str(&mut s, ",");
    push_decimal(&mut s, u64::MAX);
    assert_eq!(s, "n=0,1234567890,18446744073709551615");
}

#[test]
fn comparing_and_reading_characters() {
    assert!(str_eq("abc", "abc"));
    assert!(!str_eq("abc", "abd"));
    assert!(!str_eq("ab", "abc"));
    assert_eq!(chars_of("h\u{e9}!"), vec!['h', '\u{e9}', '!']);
}

#[test]
fn whitespace_agrees_with_std() {
    for n in 0u32..0x3100 {
        if let Some(c) = char::from_u32(n) {
            let s = format!("a{}b", c);
            let expected: Vec<&str> = s.split_whitespace().collect();
            assert_eq!(split_words(&s), expected, "character {:#x}", n);
            assert_eq!(trim(&c.to_string()), c.to_string().trim());
        }
    }
}
