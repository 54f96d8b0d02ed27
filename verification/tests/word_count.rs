use pocket_apps::word_count::{
    common_word_lines, count_word_occurrences, occurrences_fit, prepare_text, sort_word_counts,
    str_less,
};

fn owned(v: &[(&str, u32)]) -> Vec<(String, u32)> {
    v.iter().map(|(w, c)| (w.to_string(), *c)).collect()
}

#[test]
fn text_is_lowered_and_split() {
    assert_eq!(prepare_text("Hello World\nhello  WORLD!"), vec!["hello", "world", "hello", "world!"]);
    assert_eq!(prepare_text("\u{130}X"), vec!["i\u{307}x"]);
    assert!(prepare_text("   ").is_empty());
}

#[test]
fn counting() {
    let words: Vec<String> = ["b", "a", "b", "c", "b", "a"].iter().map(|s| s.to_string()).collect();
    let counts = count_word_occurrences(words);
    assert_eq!(counts, owned(&[("b", 3), ("a", 2), ("c", 1)]));
    assert!(count_word_occurrences(Vec::new()).is_empty());
}

#[test]
fn ranking() {
    let sorted = sort_word_counts(owned(&[("b", 1), ("z", 5), ("a", 1), ("m", 2), ("ab", 1)]));
    assert_eq!(sorted, owned(&[("z", 5), ("m", 2), ("a", 1), ("ab", 1), ("b", 1)]));
    assert!(sort_word_counts(Vec::new()).is_empty());
}

#[test]
fn ranking_agrees_with_std_sort() {
    let input = owned(&[("pear", 2), ("apple", 2), ("\u{e9}t\u{e9}", 2), ("zoo", 2), ("Apple", 2), ("fig", 7)]);
    let mut expected = input.clone();
    expected.sort_unstable_by(|a, b| b.1.cmp(&a.1).then_with(|| a.0.cmp(&b.0)));
    assert_eq!(sort_word_counts(input), expected);
}

#[test]
fn string_order() {
    assert!(str_less("a", "b"));
    assert!(str_less("a", "ab"));
    assert!(!str_less("ab", "a"));
    assert!(!str_less("a", "a"));
    assert!(str_less("Z", "a"));
    assert!(str_less("z", "\u{e9}"));
}

#[test]
fn table_lines() {
    let sorted = owned(&[("hello", 2), ("averyveryverylongword", 1), ("x", 1)]);
    let lines = common_word_lines(&sorted, 2);
    assert_eq!(lines, vec![
        String::from("hello                2"),
        String::from("averyveryverylongword 1"),
    ]);
    assert_eq!(common_word_lines(&sorted, 10).len(), 3);
    assert!(common_word_lines(&sorted, 0).is_empty());
    assert_eq!(common_word_lines(&owned(&[("\u{e9}", 4)]), 1), vec![format!("{:<20} {}", "\u{e9}", 4)]);
}

#[test]
fn pipeline() {
    let words = prepare_text("the cat and the hat and the bat");
    let sorted = sort_word_counts(count_word_occurrences(words));
    let lines = common_word_lines(&sorted, 3);
    assert_eq!(lines, vec![
        format!("{:<20} {}", "the", 3),
        format!("{:<20} {}", "and", 2),
        format!("{:<20} {}", "bat", 1),
    ]);
}

#[test]
fn counts_come_in_order_of_first_occurrence() {
    let words: Vec<String> = ["z", "y", "z", "x", "y", "w"].iter().map(|s| s.to_string()).collect();
    assert!(occurrences_fit(&words));
    let counts = count_word_occurrences(words);
    assert_eq!(counts, owned(&[("z", 2), ("y", 2), ("x", 1), ("w", 1)]));
    assert!(occurrences_fit(&Vec::new()));
}
