use pocket_apps::wordle::{
    keep_playable_words, normalize_guess, provide_feedback, select_random_word, take_guess,
    GuessOutcome,
};

#[test]
fn feedback_marks() {
    assert_eq!(provide_feedback("crane", "cared"), "\u{2713}??\u{2717}?");
    assert_eq!(provide_feedback("apple", "apple"), "\u{2713}\u{2713}\u{2713}\u{2713}\u{2713}");
    assert_eq!(provide_feedback("xyzzy", "apple"), "\u{2717}\u{2717}\u{2717}\u{2717}\u{2717}");
    assert_eq!(provide_feedback("abc", "abcde"), "\u{2713}\u{2713}\u{2713}");
    assert_eq!(provide_feedback("", "abc"), "");
}

#[test]
fn playable_words_are_five_bytes() {
    let lines: Vec<String> = ["apple", "kiwi", "grape", "bananas", "h\u{e9}llo", "caf\u{e9}"]
        .iter()
        .map(|s| s.to_string())
        .collect();
    assert_eq!(keep_playable_words(lines), vec!["apple", "grape", "caf\u{e9}"]);
}

#[test]
fn guesses_are_normalized() {
    assert_eq!(normalize_guess("  CRANE\n"), "crane");
    assert_eq!(normalize_guess("Hello"), "hello");
}

#[test]
fn choosing_a_word() {
    assert!(select_random_word(&[]).is_none());
    let words = vec![String::from("apple"), String::from("grape")];
    let w = select_random_word(&words).unwrap();
    assert!(words.contains(w));
}

#[test]
fn taking_guesses() {
    assert!(matches!(take_guess(0, "four", "apple"), GuessOutcome::WrongLength));
    assert!(matches!(take_guess(0, "apple", "apple"), GuessOutcome::Correct));
    match take_guess(2, "grape", "apple") {
        GuessOutcome::Incorrect { feedback, attempts, game_over } => {
            assert_eq!(feedback, provide_feedback("grape", "apple"));
            assert_eq!(attempts, 3);
            assert!(!game_over);
        }
        _ => panic!("expected an incorrect guess"),
    }
    match take_guess(5, "grape", "apple") {
        GuessOutcome::Incorrect { attempts, game_over, .. } => {
            assert_eq!(attempts, 6);
            assert!(game_over);
        }
        _ => panic!("expected an incorrect guess"),
    }
}
