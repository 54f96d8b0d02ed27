//! Character-level text handling: whitespace, tokens, trimming, decimal
//! numbers, and the few std string operations that vstd leaves unspecified.
use vstd::prelude::*;

verus! {

// ---------------------------------------------------------------------------
// Whitespace
// ---------------------------------------------------------------------------

/// Whether `c` has the Unicode `White_Space` property, which is what
/// `char::is_whitespace` tests and what `str::split_whitespace` and
/// `str::trim` split and trim on.
pub open spec fn is_space(c: char) -> bool {
    let n = c as u32;
    ||| 0x09 <= n <= 0x0D
    ||| n == 0x20
    ||| n == 0x85
    ||| n == 0xA0
    ||| n == 0x1680
    ||| 0x2000 <= n <= 0x200A
    ||| n == 0x2028
    ||| n == 0x2029
    ||| n == 0x202F
    ||| n == 0x205F
    ||| n == 0x3000
}

/// Tests whether `c` is a whitespace character.
pub fn char_is_space(c: char) -> (r: bool)
    ensures
        r == is_space(c),
{
    let n = c as u32;
    (0x09 <= n && n <= 0x0D) || n == 0x20 || n == 0x85 || n == 0xA0 || n == 0x1680 || (0x2000
        <= n && n <= 0x200A) || n == 0x2028 || n == 0x2029 || n == 0x202F || n == 0x205F || n
        == 0x3000
}

/// Whether no character of `s` is whitespace.
pub open spec fn has_no_space(s: Seq<char>) -> bool {
    forall|i: int| 0 <= i < s.len() ==> !is_space(#[trigger] s[i])
}

/// A word, as `split_whitespace` yields them: non-empty, without whitespace.
pub open spec fn is_word(s: Seq<char>) -> bool {
    s.len() > 0 && has_no_space(s)
}

// ---------------------------------------------------------------------------
// Splitting on whitespace
// ---------------------------------------------------------------------------

/// The word that is being read, as a list of zero or one words.
pub open spec fn pending(word: Seq<char>) -> Seq<Seq<char>> {
    if word.len() == 0 {
        seq![]
    } else {
        seq![word]
    }
}

/// The words of `rest`, when the characters read just before it form the
/// unfinished word `word`.
pub open spec fn words_from(rest: Seq<char>, word: Seq<char>) -> Seq<Seq<char>>
    decreases rest.len(),
{
    if rest.len() == 0 {
        pending(word)
    } else if is_space(rest[0]) {
        pending(word) + words_from(rest.drop_first(), seq![])
    } else {
        words_from(rest.drop_first(), word.push(rest[0]))
    }
}

/// The maximal runs of non-whitespace characters of `s`, in order: what
/// `str::split_whitespace` yields.
pub open spec fn words_of(s: Seq<char>) -> Seq<Seq<char>> {
    words_from(s, seq![])
}

/// The views of a list of strings.
pub open spec fn string_views(v: Seq<String>) -> Seq<Seq<char>> {
    v.map_values(|w: String| w@)
}

/// Appends `c` to `s` (`String::push`).
#[verifier::external_body]
pub(crate) fn push_char(s: &mut String, c: char)
    ensures
        final(s)@ == old(s)@.push(c),
{
    s.push(c);
}

/// The characters of `s`, in order.
pub fn chars_of(s: &str) -> (v: Vec<char>)
    ensures
        v@ == s@,
{
    let mut v: Vec<char> = Vec::new();
    for c in it: s.chars()
        invariant
            v@ == it.seq().take(it.index() as int),
    {
        v.push(c);
    }
    v
}

/// Splits `s` into its words, as `str::split_whitespace` does.
pub fn split_words(s: &str) -> (words: Vec<String>)
    ensures
        string_views(words@) == words_of(s@),
{
    let chars = chars_of(s);
    let mut words: Vec<String> = Vec::new();
    let mut word = String::new();
    let mut i: usize = 0;
    assert(string_views(words@) =~= Seq::<Seq<char>>::empty());
    assert(chars@.skip(0) =~= chars@);
    while i < chars.len()
        invariant
            chars@ == s@,
            i <= chars.len(),
            string_views(words@) + words_from(chars@.skip(i as int), word@) == words_of(s@),
        decreases chars.len() - i,
    {
        let c = chars[i];
        let ghost rest = chars@.skip(i as int);
        assert(rest[0] == c && rest.drop_first() == chars@.skip(i + 1));
        if char_is_space(c) {
            if !word.as_str().is_empty() {
                let ghost before = words@;
                words.push(word);
                assert(string_views(words@) == string_views(before) + seq![word@]);
            }
            word = String::new();
        } else {
            push_char(&mut word, c);
        }
        i = i + 1;
    }
    assert(chars@.skip(i as int).len() == 0);
    if !word.as_str().is_empty() {
        let ghost before = words@;
        words.push(word);
        assert(string_views(words@) == string_views(before) + seq![word@]);
    }
    words
}

// ---------------------------------------------------------------------------
// Trimming
// ---------------------------------------------------------------------------

/// `s` without its leading whitespace.
pub open spec fn trim_start_spaces(s: Seq<char>) -> Seq<char>
    decreases s.len(),
{
    if s.len() > 0 && is_space(s[0]) {
        trim_start_spaces(s.drop_first())
    } else {
        s
    }
}

/// `s` without its trailing whitespace.
pub open spec fn trim_end_spaces(s: Seq<char>) -> Seq<char>
    decreases s.len(),
{
    if s.len() > 0 && is_space(s.last()) {
        trim_end_spaces(s.drop_last())
    } else {
        s
    }
}

/// `s` without leading and trailing whitespace, as `str::trim` gives it.
pub open spec fn trimmed(s: Seq<char>) -> Seq<char> {
    trim_end_spaces(trim_start_spaces(s))
}

/// The string made of `chars[from..to]`.
pub fn string_from_chars(chars: &Vec<char>, from: usize, to: usize) -> (s: String)
    requires
        from <= to <= chars.len(),
    ensures
        s@ == chars@.subrange(from as int, to as int),
{
    let mut s = String::new();
    let mut i = from;
    while i < to
        invariant
            from <= i <= to <= chars.len(),
            s@ == chars@.subrange(from as int, i as int),
        decreases to - i,
    {
        push_char(&mut s, chars[i]);
        assert(chars@.subrange(from as int, i + 1) == chars@.subrange(from as int, i as int).push(
            chars@[i as int],
        ));
        i = i + 1;
    }
    s
}

/// Removes leading and trailing whitespace, as `str::trim` does.
pub fn trim(s: &str) -> (t: String)
    ensures
        t@ == trimmed(s@),
{
    let chars = chars_of(s);
    let n = chars.len();
    let mut start: usize = 0;
    assert(chars@.subrange(0, n as int) == chars@);
    while start < n && char_is_space(chars[start])
        invariant
            start <= n == chars.len(),
            trim_start_spaces(chars@) == trim_start_spaces(chars@.subrange(start as int, n as int)),
        decreases n - start,
    {
        assert(chars@.subrange(start as int, n as int).drop_first() == chars@.subrange(
            start + 1,
            n as int,
        ));
        start = start + 1;
    }
    let mut end: usize = n;
    while end > start && char_is_space(chars[end - 1])
        invariant
            start <= end <= n == chars.len(),
            trim_start_spaces(chars@) == trim_start_spaces(chars@.subrange(start as int, n as int)),
            start == n || !is_space(chars@[start as int]) || start == end,
            trimmed(chars@) == trim_end_spaces(chars@.subrange(start as int, end as int)),
        decreases end - start,
    {
        assert(chars@.subrange(start as int, end as int).drop_last() == chars@.subrange(
            start as int,
            end - 1,
        ));
        end = end - 1;
    }
    string_from_chars(&chars, start, end)
}

// ---------------------------------------------------------------------------
// Decimal numbers
// ---------------------------------------------------------------------------

/// Whether `c` is one of the ASCII digits `0`..`9`.
pub open spec fn is_digit(c: char) -> bool {
    '0' <= c && c <= '9'
}

/// The value of the ASCII digit `c`.
pub open spec fn digit_value(c: char) -> nat {
    ((c as u32) - ('0' as u32)) as nat
}

/// The ASCII digit for `d`, for `d` below ten.
pub open spec fn digit_char(d: nat) -> char {
    ((d + 48) as u8) as char
}

/// Whether every character of `s` is an ASCII digit.
pub open spec fn all_digits(s: Seq<char>) -> bool {
    forall|i: int| 0 <= i < s.len() ==> is_digit(#[trigger] s[i])
}

/// The number that the digits `s` spell in base ten.
pub open spec fn decimal_value(s: Seq<char>) -> nat
    decreases s.len(),
{
    if s.len() == 0 {
        0
    } else {
        decimal_value(s.drop_last()) * 10 + digit_value(s.last())
    }
}

/// The base-ten digits of `n`, without leading zeros: how `{}` formats it.
pub open spec fn decimal_digits(n: nat) -> Seq<char>
    decreases n,
{
    if n < 10 {
        seq![digit_char(n)]
    } else {
        decimal_digits(n / 10).push(digit_char(n % 10))
    }
}

/// The digits that `str::parse` reads for an unsigned type: the text after
/// one optional leading `+`.
pub open spec fn unsigned_digits(s: Seq<char>) -> Seq<char> {
    if s.len() > 0 && s[0] == '+' {
        s.drop_first()
    } else {
        s
    }
}

/// What `s.parse::<u64>()` gives: the value when `s` is an optional `+`
/// followed by at least one digit and the value fits in `u64`, else `None`.
pub open spec fn parsed_u64(s: Seq<char>) -> Option<u64> {
    let d = unsigned_digits(s);
    if d.len() > 0 && all_digits(d) && decimal_value(d) <= u64::MAX {
        Some(decimal_value(d) as u64)
    } else {
        None
    }
}

proof fn lemma_decimal_value_grows(s: Seq<char>, k: int)
    requires
        0 <= k <= s.len(),
        all_digits(s),
    ensures
        decimal_value(s.take(k)) <= decimal_value(s),
    decreases s.len() - k,
{
    if k < s.len() {
        lemma_decimal_value_grows(s, k + 1);
        assert(s.take(k + 1).drop_last() == s.take(k));
    } else {
        assert(s.take(k) == s);
    }
}

/// Reads an unsigned 64-bit number, as `str::parse::<u64>` does.
pub fn parse_u64(s: &str) -> (r: Option<u64>)
    ensures
        r == parsed_u64(s@),
{
    let chars = chars_of(s);
    let n = chars.len();
    let mut i: usize = 0;
    if n > 0 && chars[0] == '+' {
        i = 1;
    }
    let ghost d = unsigned_digits(s@);
    assert(d == chars@.subrange(i as int, n as int));
    if i == n {
        return None;
    }
    let mut value: u64 = 0;
    let start = i;
    while i < n
        invariant
            start <= i <= n == chars.len(),
            start < n,
            chars@ == s@,
            d == unsigned_digits(s@),
            d == chars@.subrange(start as int, n as int),
            all_digits(chars@.subrange(start as int, i as int)),
            value == decimal_value(chars@.subrange(start as int, i as int)),
        decreases n - i,
    {
        let c = chars[i];
        let ghost before = chars@.subrange(start as int, i as int);
        let ghost after = chars@.subrange(start as int, i + 1);
        assert(after.drop_last() == before && after.last() == c);
        if c < '0' || c > '9' {
            assert(!is_digit(d[i - start]));
            assert(!all_digits(d));
            return None;
        }
        let digit = (c as u32 - '0' as u32) as u64;
        if value > (u64::MAX - digit) / 10 {
            assert(all_digits(after));
            assert(decimal_value(after) > u64::MAX);
            proof {
                if all_digits(d) {
                    assert(d.take(i + 1 - start) == after);
                    lemma_decimal_value_grows(d, i + 1 - start);
                }
            }
            return None;
        }
        value = value * 10 + digit;
        assert(all_digits(after));
        i = i + 1;
    }
    assert(chars@.subrange(start as int, i as int) == d);
    Some(value)
}

/// Appends the decimal digits of `n` to `s`, as `write!(s, "{}", n)` does.
pub fn push_decimal(s: &mut String, n: u64)
    ensures
        final(s)@ == old(s)@ + decimal_digits(n as nat),
    decreases n,
{
    if n >= 10 {
        push_decimal(s, n / 10);
    }
    let digit = ((n % 10) as u8 + 48u8) as char;
    push_char(s, digit);
}

/// The digits of a number, read back, give the number.
pub proof fn lemma_decimal_roundtrip(n: nat)
    ensures
        decimal_digits(n).len() > 0,
        all_digits(decimal_digits(n)),
        decimal_value(decimal_digits(n)) == n,
        decimal_digits(n)[0] != '+',
    decreases n,
{
    assert(digit_value(digit_char(n % 10)) == n % 10);
    if n < 10 {
        let d = decimal_digits(n);
        assert(d == seq![digit_char(n)]);
        assert(d.drop_last() == Seq::<char>::empty());
        assert(decimal_value(d.drop_last()) == 0);
        assert(d.last() == digit_char(n));
        assert(decimal_value(d) == digit_value(digit_char(n)));
    } else {
        lemma_decimal_roundtrip(n / 10);
        let d = decimal_digits(n);
        assert(d.drop_last() == decimal_digits(n / 10));
        assert(d.last() == digit_char(n % 10));
        assert(decimal_value(d) == decimal_value(d.drop_last()) * 10 + digit_value(d.last()));
        assert(decimal_value(d) == (n / 10) * 10 + n % 10);
        assert forall|i: int| 0 <= i < d.len() implies is_digit(#[trigger] d[i]) by {
            if i < d.len() - 1 {
                assert(d[i] == decimal_digits(n / 10)[i]);
            }
        }
    }
}

/// Formatting a `u64` and parsing the text back gives the number again.
pub proof fn lemma_parse_formatted_u64(n: u64)
    ensures
        parsed_u64(decimal_digits(n as nat)) == Some(n),
{
    lemma_decimal_roundtrip(n as nat);
}

// ---------------------------------------------------------------------------
// Case and decoding
// ---------------------------------------------------------------------------

/// What `str::to_lowercase` returns for a string with the characters `s`:
/// each character replaced by its Unicode lowercase mapping.
pub uninterp spec fn lowercase(s: Seq<char>) -> Seq<char>;

/// Calls `str::to_lowercase`. The contract names the result `lowercase` of
/// the characters; the Unicode case mapping itself is left unstated.
#[verifier::external_body]
pub(crate) fn to_lowercase(s: &str) -> (r: String)
    ensures
        r@ == lowercase(s@),
{
    s.to_lowercase()
}

/// What `String::from_utf8_lossy` makes of the bytes `b`: the decoded text,
/// with each ill-formed sequence replaced by U+FFFD.
pub uninterp spec fn lossy_utf8(b: Seq<u8>) -> Seq<char>;

/// Calls `String::from_utf8_lossy`. The contract names the result
/// `lossy_utf8` of the bytes, and states what the documentation promises:
/// well-formed UTF-8 is decoded unchanged. How ill-formed input is repaired
/// is left unstated.
#[verifier::external_body]
pub(crate) fn from_utf8_lossy(b: &[u8]) -> (r: String)
    ensures
        r@ == lossy_utf8(b@),
        vstd::utf8::valid_utf8(b@) ==> r@ == vstd::utf8::decode_utf8(b@),
{
    String::from_utf8_lossy(b).into_owned()
}

// ---------------------------------------------------------------------------
// Comparing and stripping
// ---------------------------------------------------------------------------

/// Whether two strings hold the same characters.
pub fn str_eq(a: &str, b: &str) -> (r: bool)
    ensures
        r == (a@ == b@),
{
    let x = chars_of(a);
    let y = chars_of(b);
    if x.len() != y.len() {
        return false;
    }
    let mut i: usize = 0;
    while i < x.len()
        invariant
            x@ == a@,
            y@ == b@,
            x.len() == y.len(),
            i <= x.len(),
            forall|j: int| 0 <= j < i ==> x@[j] == y@[j],
        decreases x.len() - i,
    {
        if x[i] != y[i] {
            return false;
        }
        i = i + 1;
    }
    assert(x@ =~= y@);
    true
}

/// `s` without the copies of `c` at its end.
pub open spec fn strip_trailing(s: Seq<char>, c: char) -> Seq<char>
    decreases s.len(),
{
    if s.len() > 0 && s.last() == c {
        strip_trailing(s.drop_last(), c)
    } else {
        s
    }
}

/// Removes the copies of `c` at the end of `s`, as
/// `str::trim_end_matches(c)` does.
pub fn trim_end_matching(s: &str, c: char) -> (t: String)
    ensures
        t@ == strip_trailing(s@, c),
{
    let chars = chars_of(s);
    let mut end: usize = chars.len();
    assert(chars@.subrange(0, end as int) == chars@);
    while end > 0 && chars[end - 1] == c
        invariant
            end <= chars.len(),
            chars@ == s@,
            strip_trailing(s@, c) == strip_trailing(chars@.subrange(0, end as int), c),
        decreases end,
    {
        assert(chars@.subrange(0, end as int).drop_last() == chars@.subrange(0, end - 1));
        end = end - 1;
    }
    string_from_chars(&chars, 0, end)
}

/// Appends the characters of `t` to `s`.
pub fn push_str(s: &mut String, t: &str)
    ensures
        final(s)@ == old(s)@ + t@,
{
    let chars = chars_of(t);
    let mut i: usize = 0;
    while i < chars.len()
        invariant
            i <= chars.len(),
            chars@ == t@,
            s@ == old(s)@ + chars@.subrange(0, i as int),
        decreases chars.len() - i,
    {
        push_char(s, chars[i]);
        assert(chars@.subrange(0, i + 1) == chars@.subrange(0, i as int).push(chars@[i as int]));
        i = i + 1;
    }
    assert(chars@.subrange(0, i as int) == chars@);
}

// ---------------------------------------------------------------------------
// Words of joined text
// ---------------------------------------------------------------------------

/// Reading characters without whitespace extends the word being read.
pub proof fn lemma_words_from_append_word(a: Seq<char>, rest: Seq<char>, word: Seq<char>)
    requires
        has_no_space(a),
    ensures
        words_from(a + rest, word) == words_from(rest, word + a),
    decreases a.len(),
{
    if a.len() == 0 {
        assert(a + rest == rest);
        assert(word + a == word);
    } else {
        let t = a.drop_first();
        assert(has_no_space(t)) by {
            assert forall|i: int| 0 <= i < t.len() implies !is_space(#[trigger] t[i]) by {
                assert(t[i] == a[i + 1]);
            }
        }
        lemma_words_from_append_word(t, rest, word.push(a[0]));
        assert((a + rest)[0] == a[0]);
        assert((a + rest).drop_first() == t + rest);
        assert(word.push(a[0]) + t == word + a);
    }
}

/// The words of `a`, a space, then `rest`, where `a` is a word, are `a`
/// followed by the words of `rest`.
pub proof fn lemma_words_of_word_then_space(a: Seq<char>, rest: Seq<char>)
    requires
        is_word(a),
    ensures
        words_of(a + seq![' '] + rest) == seq![a] + words_of(rest),
{
    let tail = seq![' '] + rest;
    assert(a + seq![' '] + rest == a + tail);
    lemma_words_from_append_word(a, tail, seq![]);
    assert(Seq::<char>::empty() + a == a);
    assert(is_space(tail[0]));
    assert(tail.drop_first() == rest);
    assert(pending(a) == seq![a]);
}

/// The words of a word are that word alone.
pub proof fn lemma_words_of_word(a: Seq<char>)
    requires
        is_word(a),
    ensures
        words_of(a) == seq![a],
{
    lemma_words_from_append_word(a, seq![], seq![]);
    assert(a + Seq::<char>::empty() == a);
    assert(Seq::<char>::empty() + a == a);
}

} // verus!
