//! A word-guessing game: five-letter words, feedback on each guess, and six
//! guesses to find the word.
use vstd::prelude::*;
use vstd::string::StringSliceAdditionalSpecFns;
use crate::text::{chars_of, lowercase, push_char, str_eq, to_lowercase, trim, trimmed};

verus! {

/// The number of guesses a game allows.
pub const MAX_GUESSES: usize = 6;

/// The length of a word, in bytes.
pub const WORD_LENGTH: usize = 5;

/// The mark for a letter in the right place.
pub open spec fn right_place() -> char {
    '\u{2713}'
}

/// The mark for a letter of the word that is in another place.
pub open spec fn wrong_place() -> char {
    '?'
}

/// The mark for a letter that is not in the word.
pub open spec fn not_in_word() -> char {
    '\u{2717}'
}

/// The feedback on `guess` against `target`: for each position that both
/// have, whether the letters match, or else whether the guessed letter
/// occurs anywhere in the target.
pub open spec fn feedback(guess: Seq<char>, target: Seq<char>) -> Seq<char> {
    Seq::new(
        if guess.len() < target.len() {
            guess.len()
        } else {
            target.len()
        },
        |i: int|
            if guess[i] == target[i] {
                right_place()
            } else if target.contains(guess[i]) {
                wrong_place()
            } else {
                not_in_word()
            },
    )
}

/// Whether `c` occurs in the characters `s`.
fn contains_char(s: &Vec<char>, c: char) -> (r: bool)
    ensures
        r == s@.contains(c),
{
    let mut i: usize = 0;
    while i < s.len()
        invariant
            i <= s@.len(),
            forall|j: int| 0 <= j < i ==> s@[j] != c,
        decreases s@.len() - i,
    {
        if s[i] == c {
            assert(s@[i as int] == c);
            return true;
        }
        i = i + 1;
    }
    false
}

/// Gives feedback on a guess, one mark per letter.
pub fn provide_feedback(guess: &str, target: &str) -> (marks: String)
    ensures
        marks@ == feedback(guess@, target@),
{
    let g = chars_of(guess);
    let t = chars_of(target);
    let n = if g.len() < t.len() {
        g.len()
    } else {
        t.len()
    };
    let mut marks = String::new();
    let mut i: usize = 0;
    while i < n
        invariant
            g@ == guess@,
            t@ == target@,
            n <= g@.len(),
            n <= t@.len(),
            n == feedback(guess@, target@).len(),
            i <= n,
            marks@ == feedback(guess@, target@).subrange(0, i as int),
        decreases n - i,
    {
        let mark = if g[i] == t[i] {
            '\u{2713}'
        } else if contains_char(&t, g[i]) {
            '?'
        } else {
            '\u{2717}'
        };
        push_char(&mut marks, mark);
        assert(feedback(guess@, target@).subrange(0, i + 1) == feedback(guess@, target@).subrange(
            0,
            i as int,
        ).push(mark));
        i = i + 1;
    }
    assert(feedback(guess@, target@).subrange(0, i as int) == feedback(guess@, target@));
    marks
}

/// The length in bytes of a string with the characters `s`.
pub open spec fn byte_length(s: Seq<char>) -> nat {
    vstd::utf8::encode_utf8(s).len()
}

/// The words of `lines` that are five bytes long, in order.
pub open spec fn words_of_length(lines: Seq<Seq<char>>) -> Seq<Seq<char>>
    decreases lines.len(),
{
    if lines.len() == 0 {
        seq![]
    } else if byte_length(lines.last()) == WORD_LENGTH {
        words_of_length(lines.drop_last()).push(lines.last())
    } else {
        words_of_length(lines.drop_last())
    }
}

/// Keeps the lines that are five bytes long: the words a game can use.
pub fn keep_playable_words(lines: Vec<String>) -> (words: Vec<String>)
    ensures
        crate::text::string_views(words@) == words_of_length(crate::text::string_views(lines@)),
{
    let ghost ls = crate::text::string_views(lines@);
    let mut words: Vec<String> = Vec::new();
    let mut i: usize = 0;
    while i < lines.len()
        invariant
            i <= lines@.len(),
            ls == crate::text::string_views(lines@),
            crate::text::string_views(words@) == words_of_length(ls.take(i as int)),
        decreases lines@.len() - i,
    {
        let ghost before = words@;
        assert(ls.take(i + 1).drop_last() == ls.take(i as int));
        assert(ls.take(i + 1).last() == lines@[i as int]@);
        if lines[i].as_str().as_bytes().len() == WORD_LENGTH {
            words.push(lines[i].clone());
            assert(crate::text::string_views(words@) =~= crate::text::string_views(before).push(
                lines@[i as int]@,
            ));
        }
        i = i + 1;
    }
    assert(ls.take(i as int) == ls);
    words
}

/// Picks a word with `SliceRandom::choose` and the thread's random
/// generator: `None` for an empty list, and otherwise one of its words
/// (which one is left to chance).
#[verifier::external_body]
fn choose_word(words: &[String]) -> (r: Option<&String>)
    ensures
        r is None <==> words@.len() == 0,
        r matches Some(w) ==> exists|i: int| 0 <= i < words@.len() && words@[i] == *w,
{
    rand::seq::SliceRandom::choose(words, &mut rand::thread_rng())
}

/// Picks a random word to guess, or `None` when there is none.
pub fn select_random_word(words: &[String]) -> (r: Option<&String>)
    ensures
        r is None <==> words@.len() == 0,
        r matches Some(w) ==> exists|i: int| 0 <= i < words@.len() && words@[i] == *w,
{
    choose_word(words)
}

/// A guess as typed: surrounding whitespace trimmed, then lower case.
pub open spec fn normalized_guess(input: Seq<char>) -> Seq<char> {
    lowercase(trimmed(input))
}

/// Turns a typed line into a guess.
pub fn normalize_guess(input: &str) -> (guess: String)
    ensures
        guess@ == normalized_guess(input@),
{
    let t = trim(input);
    to_lowercase(t.as_str())
}

/// What a guess leads to.
pub enum GuessOutcome {
    /// The guess is not five bytes long; it does not count.
    WrongLength,
    /// The guess is the word.
    Correct,
    /// The guess is not the word: the feedback on it, the number of guesses
    /// made so far, and whether no guess is left.
    Incorrect { feedback: String, attempts: usize, game_over: bool },
}

/// Plays one guess when `attempts` guesses have been made already.
pub fn take_guess(attempts: usize, guess: &str, target: &str) -> (o: GuessOutcome)
    requires
        attempts < MAX_GUESSES,
    ensures
        byte_length(guess@) != WORD_LENGTH ==> o is WrongLength,
        byte_length(guess@) == WORD_LENGTH && guess@ == target@ ==> o is Correct,
        byte_length(guess@) == WORD_LENGTH && guess@ != target@ ==> (o matches GuessOutcome::Incorrect {
            feedback: f,
            attempts: a,
            game_over: g,
        } && f@ == feedback(guess@, target@) && a == attempts + 1 && g == (a == MAX_GUESSES)),
{
    if guess.as_bytes().len() != WORD_LENGTH {
        return GuessOutcome::WrongLength;
    }
    if str_eq(guess, target) {
        return GuessOutcome::Correct;
    }
    let made = attempts + 1;
    GuessOutcome::Incorrect {
        feedback: provide_feedback(guess, target),
        attempts: made,
        game_over: made == MAX_GUESSES,
    }
}

/// Between a guess and a target of the same length, every mark is a right
/// place mark exactly when the guess is the target.
pub proof fn lemma_feedback_all_right(guess: Seq<char>, target: Seq<char>)
    requires
        guess.len() == target.len(),
    ensures
        (forall|i: int| 0 <= i < guess.len() ==> #[trigger] feedback(guess, target)[i] == right_place())
            <==> guess == target,
{
    if forall|i: int| 0 <= i < guess.len() ==> #[trigger] feedback(guess, target)[i] == right_place() {
        assert forall|i: int| 0 <= i < guess.len() implies guess[i] == target[i] by {
            assert(feedback(guess, target)[i] == right_place());
            assert(wrong_place() != right_place() && not_in_word() != right_place());
        }
        assert(guess =~= target);
    }
}

} // verus!
