//! Word frequencies: the words of a text in lower case, how often each one
//! occurs, the words ranked by count, and the lines of a top-N table.
use vstd::prelude::*;
use crate::text::{
    chars_of, decimal_digits, lowercase, push_char, push_decimal, split_words,
    string_views, to_lowercase, words_of,
};

verus! {

broadcast use vstd::seq_lib::group_to_multiset_ensures;

/// The words of `text` after it is put in lower case.
pub open spec fn prepared_words(text: Seq<char>) -> Seq<Seq<char>> {
    words_of(lowercase(text))
}

/// Puts `text` in lower case and splits it into words.
pub fn prepare_text(text: &str) -> (words: Vec<String>)
    ensures
        string_views(words@) == prepared_words(text@),
{
    let lower = to_lowercase(text);
    split_words(lower.as_str())
}

/// A word with its count, as a pair of plain values.
pub open spec fn count_view(e: (String, u32)) -> (Seq<char>, u32) {
    (e.0@, e.1)
}

/// The views of a list of word counts.
pub open spec fn count_views(v: Seq<(String, u32)>) -> Seq<(Seq<char>, u32)> {
    v.map_values(|e: (String, u32)| count_view(e))
}

/// How many times `w` occurs in `words`.
pub open spec fn occurrences(words: Seq<Seq<char>>, w: Seq<char>) -> nat
    decreases words.len(),
{
    if words.len() == 0 {
        0
    } else {
        occurrences(words.drop_last(), w) + if words.last() == w {
            1nat
        } else {
            0nat
        }
    }
}

/// Whether no word occurs twice among the counts.
pub open spec fn words_distinct(c: Seq<(Seq<char>, u32)>) -> bool {
    forall|i: int, j: int| 0 <= i < j < c.len() ==> #[trigger] c[i].0 != #[trigger] c[j].0
}

/// Whether `c` counts the words of `words`: each word that occurs is listed
/// once, with the number of times it occurs, and nothing else is listed.
pub open spec fn counts_of(c: Seq<(Seq<char>, u32)>, words: Seq<Seq<char>>) -> bool {
    &&& words_distinct(c)
    &&& forall|i: int| 0 <= i < c.len() ==> #[trigger] c[i].1 == occurrences(words, c[i].0)
    &&& forall|i: int| 0 <= i < c.len() ==> occurrences(words, #[trigger] c[i].0) > 0
    &&& forall|w: Seq<char>|
        #[trigger] occurrences(words, w) > 0 ==> exists|i: int| 0 <= i < c.len() && c[i].0 == w
}

proof fn lemma_occurrences_bound(words: Seq<Seq<char>>, w: Seq<char>)
    ensures
        occurrences(words, w) <= words.len(),
    decreases words.len(),
{
    if words.len() > 0 {
        lemma_occurrences_bound(words.drop_last(), w);
    }
}

/// The position of the word `w` among the counts, if it is there.
fn find_word(counts: &Vec<(String, u32)>, w: &str) -> (r: Option<usize>)
    ensures
        match r {
            Some(j) => j < counts@.len() && counts@[j as int].0@ == w@,
            None => forall|k: int| 0 <= k < counts@.len() ==> #[trigger] counts@[k].0@ != w@,
        },
{
    let mut j: usize = 0;
    while j < counts.len()
        invariant
            j <= counts@.len(),
            forall|k: int| 0 <= k < j ==> #[trigger] counts@[k].0@ != w@,
        decreases counts@.len() - j,
    {
        if crate::text::str_eq(counts[j].0.as_str(), w) {
            return Some(j);
        }
        j = j + 1;
    }
    None
}

/// The distinct words of `words`, in the order in which each first occurs.
pub open spec fn first_occurrences(words: Seq<Seq<char>>) -> Seq<Seq<char>>
    decreases words.len(),
{
    if words.len() == 0 {
        seq![]
    } else if occurrences(words.drop_last(), words.last()) > 0 {
        first_occurrences(words.drop_last())
    } else {
        first_occurrences(words.drop_last()).push(words.last())
    }
}

/// The words of a list of counts, in order.
pub open spec fn counted_words(c: Seq<(Seq<char>, u32)>) -> Seq<Seq<char>> {
    c.map_values(|e: (Seq<char>, u32)| e.0)
}

/// Whether no word occurs more often than a `u32` can count.
pub open spec fn counts_fit(words: Seq<Seq<char>>) -> bool {
    forall|w: Seq<char>| #[trigger] occurrences(words, w) <= u32::MAX
}

/// A word occurs no more often in a prefix than in the whole list.
proof fn lemma_occurrences_prefix(words: Seq<Seq<char>>, k: int, w: Seq<char>)
    requires
        0 <= k <= words.len(),
    ensures
        occurrences(words.take(k), w) <= occurrences(words, w),
    decreases words.len() - k,
{
    if k < words.len() {
        lemma_occurrences_prefix(words, k + 1, w);
        assert(words.take(k + 1).drop_last() == words.take(k));
    } else {
        assert(words.take(k) == words);
    }
}

/// A word that occurs is at some position.
proof fn lemma_occurrence_position(words: Seq<Seq<char>>, w: Seq<char>)
    requires
        occurrences(words, w) > 0,
    ensures
        exists|i: int| 0 <= i < words.len() && words[i] == w,
    decreases words.len(),
{
    if words.last() != w {
        lemma_occurrence_position(words.drop_last(), w);
        let i = choose|i: int| 0 <= i < words.drop_last().len() && words.drop_last()[i] == w;
        assert(words[i] == w);
    }
}

/// Counts how many times each word occurs. The counts come in the order in
/// which the words first occur. No word may occur more often than a `u32`
/// can count.
pub fn count_word_occurrences(words: Vec<String>) -> (counts: Vec<(String, u32)>)
    requires
        counts_fit(string_views(words@)),
    ensures
        counts_of(count_views(counts@), string_views(words@)),
        counted_words(count_views(counts@)) == first_occurrences(string_views(words@)),
{
    let ghost ws = string_views(words@);
    let mut counts: Vec<(String, u32)> = Vec::new();
    let mut i: usize = 0;
    assert(counted_words(count_views(counts@)) =~= first_occurrences(ws.take(0)));
    while i < words.len()
        invariant
            i <= words@.len(),
            ws == string_views(words@),
            counts_fit(ws),
            counts_of(count_views(counts@), ws.take(i as int)),
            counted_words(count_views(counts@)) == first_occurrences(ws.take(i as int)),
        decreases words@.len() - i,
    {
        let ghost before = ws.take(i as int);
        let ghost after = ws.take(i + 1);
        let ghost c0 = count_views(counts@);
        let ghost w = words@[i as int]@;
        assert(after.drop_last() == before && after.last() == w);
        assert(ws[i as int] == w);
        let position = find_word(&counts, words[i].as_str());
        proof {
            lemma_occurrences_prefix(ws, i + 1, w);
            assert(occurrences(ws, w) <= u32::MAX);
        }
        if let Some(j) = position {
            assert(c0[j as int].0 == w);
            let name = counts[j].0.clone();
            let n = counts[j].1;
            assert(c0[j as int] == count_view(counts@[j as int]));
            assert(c0[j as int].1 == n);
            assert(n == occurrences(before, w));
            counts.set(j, (name, n + 1));
            let ghost c1 = count_views(counts@);
            assert(c1 == c0.update(j as int, (w, (n + 1) as u32)));
            assert forall|a: int, b: int| 0 <= a < b < c1.len() implies #[trigger] c1[a].0
                != #[trigger] c1[b].0 by {
                assert(c0[a].0 == c1[a].0 && c0[b].0 == c1[b].0);
            }
            assert forall|x: Seq<char>| #[trigger] occurrences(after, x) > 0 implies exists|k: int|
                0 <= k < c1.len() && c1[k].0 == x by {
                if x != w {
                    assert(occurrences(before, x) > 0);
                    let k = choose|k: int| 0 <= k < c0.len() && c0[k].0 == x;
                    assert(c1[k].0 == x);
                } else {
                    assert(c1[j as int].0 == x);
                }
            }
            assert forall|k: int| 0 <= k < c1.len() implies occurrences(after, #[trigger] c1[k].0)
                > 0 by {
                assert(c0[k].0 == c1[k].0);
                assert(occurrences(before, c0[k].0) > 0);
            }
            assert(occurrences(before, w) > 0) by {
                assert(c0[j as int].0 == w);
            }
            assert(counted_words(c1) =~= counted_words(c0));
        } else {
            let name = words[i].clone();
            counts.push((name, 1));
            let ghost c1 = count_views(counts@);
            assert(c1 == c0.push((w, 1u32)));
            assert(occurrences(before, w) == 0) by {
                if occurrences(before, w) > 0 {
                    let k = choose|k: int| 0 <= k < c0.len() && c0[k].0 == w;
                    assert(c0[k] == count_view(counts@[k]));
                }
            }
            assert forall|a: int, b: int| 0 <= a < b < c1.len() implies #[trigger] c1[a].0
                != #[trigger] c1[b].0 by {
                if b == c0.len() {
                    assert(c0[a].0 != w);
                } else {
                    assert(c0[a].0 == c1[a].0 && c0[b].0 == c1[b].0);
                }
            }
            assert forall|x: Seq<char>| #[trigger] occurrences(after, x) > 0 implies exists|k: int|
                0 <= k < c1.len() && c1[k].0 == x by {
                if x != w {
                    assert(occurrences(before, x) > 0);
                    let k = choose|k: int| 0 <= k < c0.len() && c0[k].0 == x;
                    assert(c1[k].0 == x);
                } else {
                    assert(c1[c0.len() as int].0 == x);
                }
            }
            assert forall|k: int| 0 <= k < c1.len() implies occurrences(after, #[trigger] c1[k].0)
                > 0 by {
                if k < c0.len() {
                    assert(c0[k].0 == c1[k].0);
                    assert(occurrences(before, c0[k].0) > 0);
                }
            }
            assert(counted_words(c1) =~= counted_words(c0).push(w));
        }
        i = i + 1;
    }
    assert(ws.take(i as int) == ws);
    counts
}

// ---------------------------------------------------------------------------
// Ranking
// ---------------------------------------------------------------------------

/// Whether `a` comes before `b` in the order of `String`: compared
/// character by character (code point order, which is the order of their
/// UTF-8 bytes), a proper prefix first.
pub open spec fn lex_less(a: Seq<char>, b: Seq<char>) -> bool
    decreases a.len(),
{
    if a.len() == 0 {
        b.len() > 0
    } else if b.len() == 0 {
        false
    } else if a[0] != b[0] {
        a[0] < b[0]
    } else {
        lex_less(a.drop_first(), b.drop_first())
    }
}

/// Whether the count `x` is ranked before `y`: a higher count first, and
/// among equal counts the word that comes first.
pub open spec fn ranks_before(x: (Seq<char>, u32), y: (Seq<char>, u32)) -> bool {
    x.1 > y.1 || (x.1 == y.1 && lex_less(x.0, y.0))
}

/// Whether no entry of `c` is ranked before an earlier one.
pub open spec fn ranked(c: Seq<(Seq<char>, u32)>) -> bool {
    forall|i: int, j: int| 0 <= i < j < c.len() ==> !ranks_before(#[trigger] c[j], #[trigger] c[i])
}

proof fn lemma_lex_less_irreflexive(a: Seq<char>)
    ensures
        !lex_less(a, a),
    decreases a.len(),
{
    if a.len() > 0 {
        lemma_lex_less_irreflexive(a.drop_first());
    }
}

proof fn lemma_lex_less_asymmetric(a: Seq<char>, b: Seq<char>)
    ensures
        !(lex_less(a, b) && lex_less(b, a)),
    decreases a.len(),
{
    if a.len() > 0 && b.len() > 0 && a[0] == b[0] {
        lemma_lex_less_asymmetric(a.drop_first(), b.drop_first());
    }
}

proof fn lemma_lex_less_transitive(a: Seq<char>, b: Seq<char>, c: Seq<char>)
    requires
        lex_less(a, b),
        lex_less(b, c),
    ensures
        lex_less(a, c),
    decreases a.len(),
{
    if a.len() > 0 && b.len() > 0 && c.len() > 0 && a[0] == b[0] && b[0] == c[0] {
        lemma_lex_less_transitive(a.drop_first(), b.drop_first(), c.drop_first());
    }
}

proof fn lemma_lex_less_total(a: Seq<char>, b: Seq<char>)
    requires
        a != b,
    ensures
        lex_less(a, b) || lex_less(b, a),
    decreases a.len(),
{
    if a.len() > 0 && b.len() > 0 && a[0] == b[0] {
        if a.drop_first() == b.drop_first() {
            assert(a == seq![a[0]] + a.drop_first());
            assert(b == seq![b[0]] + b.drop_first());
            assert(a =~= b);
        }
        lemma_lex_less_total(a.drop_first(), b.drop_first());
    }
    if a.len() == 0 && b.len() == 0 {
        assert(a =~= b);
    }
}

/// Ranking is a strict order.
pub proof fn lemma_ranks_before_strict(
    x: (Seq<char>, u32),
    y: (Seq<char>, u32),
    z: (Seq<char>, u32),
)
    ensures
        !ranks_before(x, x),
        !(ranks_before(x, y) && ranks_before(y, x)),
        ranks_before(x, y) && ranks_before(y, z) ==> ranks_before(x, z),
{
    lemma_lex_less_irreflexive(x.0);
    lemma_lex_less_asymmetric(x.0, y.0);
    if ranks_before(x, y) && ranks_before(y, z) && x.1 == y.1 && y.1 == z.1 {
        lemma_lex_less_transitive(x.0, y.0, z.0);
    }
}

/// Ranking orders every two different entries.
pub proof fn lemma_ranks_before_total(x: (Seq<char>, u32), y: (Seq<char>, u32))
    requires
        x != y,
    ensures
        ranks_before(x, y) || ranks_before(y, x),
{
    if x.1 == y.1 {
        lemma_lex_less_total(x.0, y.0);
    }
}

/// Whether `a` comes before `b` in the order of `String`.
pub fn str_less(a: &str, b: &str) -> (r: bool)
    ensures
        r == lex_less(a@, b@),
{
    let x = chars_of(a);
    let y = chars_of(b);
    let mut i: usize = 0;
    assert(x@.skip(0) == x@ && y@.skip(0) == y@);
    while i < x.len() && i < y.len() && x[i] == y[i]
        invariant
            x@ == a@,
            y@ == b@,
            i <= x.len(),
            i <= y.len(),
            lex_less(a@, b@) == lex_less(x@.skip(i as int), y@.skip(i as int)),
        decreases x.len() - i,
    {
        assert(x@.skip(i as int).drop_first() == x@.skip(i + 1));
        assert(y@.skip(i as int).drop_first() == y@.skip(i + 1));
        i = i + 1;
    }
    let ghost xs = x@.skip(i as int);
    let ghost ys = y@.skip(i as int);
    if i == x.len() {
        assert(xs.len() == 0);
        i < y.len()
    } else if i == y.len() {
        assert(ys.len() == 0 && xs.len() > 0);
        false
    } else {
        assert(xs[0] == x@[i as int] && ys[0] == y@[i as int]);
        x[i] < y[i]
    }
}

/// Whether the entry `x` is ranked before `y`.
fn ranks_before_exec(x: &(String, u32), y: &(String, u32)) -> (r: bool)
    ensures
        r == ranks_before(count_view(*x), count_view(*y)),
{
    x.1 > y.1 || (x.1 == y.1 && str_less(x.0.as_str(), y.0.as_str()))
}

/// Ranks word counts: the highest count first, and equal counts by word.
pub fn sort_word_counts(word_counts: Vec<(String, u32)>) -> (sorted: Vec<(String, u32)>)
    ensures
        count_views(sorted@).to_multiset() == count_views(word_counts@).to_multiset(),
        ranked(count_views(sorted@)),
{
    let mut sorted: Vec<(String, u32)> = Vec::new();
    let mut i: usize = 0;
    while i < word_counts.len()
        invariant
            i <= word_counts@.len(),
            count_views(sorted@).to_multiset() == count_views(word_counts@).take(
                i as int,
            ).to_multiset(),
            ranked(count_views(sorted@)),
        decreases word_counts@.len() - i,
    {
        let item = (word_counts[i].0.clone(), word_counts[i].1);
        let ghost v = count_view(item);
        let ghost c0 = count_views(sorted@);
        assert(v == count_views(word_counts@)[i as int]);
        let mut p: usize = 0;
        while p < sorted.len() && !ranks_before_exec(&item, &sorted[p])
            invariant
                p <= sorted@.len(),
                c0 == count_views(sorted@),
                v == count_view(item),
                forall|k: int| 0 <= k < p ==> !ranks_before(v, #[trigger] c0[k]),
            decreases sorted@.len() - p,
        {
            p = p + 1;
        }
        let ghost ranked_after = p < sorted@.len();
        sorted.insert(p, item);
        let ghost c1 = count_views(sorted@);
        assert(c1 == c0.insert(p as int, v));
        assert(count_views(word_counts@).take(i + 1) == count_views(word_counts@).take(
            i as int,
        ).push(v));
        assert forall|a: int, b: int| 0 <= a < b < c1.len() implies !ranks_before(
            #[trigger] c1[b],
            #[trigger] c1[a],
        ) by {
            if b < p {
                assert(c1[a] == c0[a] && c1[b] == c0[b]);
            } else if b == p {
                assert(c1[a] == c0[a]);
            } else if a == p {
                assert(c1[b] == c0[b - 1]);
                assert(ranks_before(v, c0[p as int]));
                lemma_ranks_before_strict(c0[b - 1], v, c0[p as int]);
                if b - 1 > p {
                    assert(!ranks_before(c0[b - 1], c0[p as int]));
                }
            } else if a < p {
                assert(c1[a] == c0[a] && c1[b] == c0[b - 1]);
            } else {
                assert(c1[a] == c0[a - 1] && c1[b] == c0[b - 1]);
            }
        }
        i = i + 1;
    }
    assert(count_views(word_counts@).take(i as int) == count_views(word_counts@));
    sorted
}

/// Two ranked lists of the same entries are the same list: ranking leaves
/// no choice of order.
pub proof fn lemma_ranking_unique(a: Seq<(Seq<char>, u32)>, b: Seq<(Seq<char>, u32)>)
    requires
        ranked(a),
        ranked(b),
        a.to_multiset() == b.to_multiset(),
    ensures
        a == b,
    decreases a.len(),
{
    broadcast use vstd::multiset::group_multiset_axioms;

    assert(a.to_multiset().len() == a.len());
    assert(b.to_multiset().len() == b.len());
    if a.len() > 0 {
        assert(b.to_multiset().contains(a[0]));
        assert(a.to_multiset().contains(b[0]));
        let j = choose|j: int| 0 <= j < b.len() && b[j] == a[0];
        let k = choose|k: int| 0 <= k < a.len() && a[k] == b[0];
        if a[0] != b[0] {
            lemma_ranks_before_total(a[0], b[0]);
            assert(j > 0 && !ranks_before(b[j], b[0]));
            assert(k > 0 && !ranks_before(a[k], a[0]));
        }
        assert(a.remove(0).to_multiset() == a.to_multiset().remove(a[0]));
        assert(b.remove(0).to_multiset() == b.to_multiset().remove(b[0]));
        assert(a.remove(0) == a.drop_first());
        assert(b.remove(0) == b.drop_first());
        assert(ranked(a.drop_first())) by {
            assert forall|x: int, y: int| 0 <= x < y < a.drop_first().len() implies !ranks_before(
                #[trigger] a.drop_first()[y],
                #[trigger] a.drop_first()[x],
            ) by {
                assert(a.drop_first()[y] == a[y + 1] && a.drop_first()[x] == a[x + 1]);
            }
        }
        assert(ranked(b.drop_first())) by {
            assert forall|x: int, y: int| 0 <= x < y < b.drop_first().len() implies !ranks_before(
                #[trigger] b.drop_first()[y],
                #[trigger] b.drop_first()[x],
            ) by {
                assert(b.drop_first()[y] == b[y + 1] && b.drop_first()[x] == b[x + 1]);
            }
        }
        lemma_ranking_unique(a.drop_first(), b.drop_first());
        assert(a == seq![a[0]] + a.drop_first());
        assert(b == seq![b[0]] + b.drop_first());
    } else {
        assert(a =~= b);
    }
}

// ---------------------------------------------------------------------------
// The table of common words
// ---------------------------------------------------------------------------

/// `count` spaces.
pub open spec fn spaces(count: nat) -> Seq<char> {
    Seq::new(count, |i: int| ' ')
}

/// `w` padded with spaces on the right to `width` characters, as `{:<width}`
/// formats it.
pub open spec fn padded(w: Seq<char>, width: nat) -> Seq<char> {
    if w.len() >= width {
        w
    } else {
        w + spaces((width - w.len()) as nat)
    }
}

/// The table line of a word and its count: the word left-aligned in twenty
/// columns, a space, and the count.
pub open spec fn table_line(e: (Seq<char>, u32)) -> Seq<char> {
    padded(e.0, 20) + seq![' '] + decimal_digits(e.1 as nat)
}

/// The table lines of the first `n` ranked words (or of all of them, when
/// there are fewer).
pub fn common_word_lines(sorted_counts: &Vec<(String, u32)>, n: usize) -> (lines: Vec<String>)
    ensures
        lines@.len() == if n < sorted_counts@.len() {
            n as int
        } else {
            sorted_counts@.len() as int
        },
        forall|i: int|
            0 <= i < lines@.len() ==> #[trigger] lines@[i]@ == table_line(
                count_view(sorted_counts@[i]),
            ),
{
    let count = if n < sorted_counts.len() {
        n
    } else {
        sorted_counts.len()
    };
    let mut lines: Vec<String> = Vec::new();
    let mut i: usize = 0;
    while i < count
        invariant
            count <= sorted_counts@.len(),
            i <= count,
            lines@.len() == i,
            forall|j: int|
                0 <= j < i ==> #[trigger] lines@[j]@ == table_line(count_view(sorted_counts@[j])),
        decreases count - i,
    {
        let word = sorted_counts[i].0.as_str();
        let mut line = sorted_counts[i].0.clone();
        let width = chars_of(word).len();
        let mut k = width;
        while k < 20
            invariant
                width <= k,
                width == word@.len(),
                k <= 20 || k == width,
                line@ == word@ + spaces((k - width) as nat),
            decreases 20 - k,
        {
            push_char(&mut line, ' ');
            assert(spaces((k + 1 - width) as nat) == spaces((k - width) as nat).push(' '));
            k = k + 1;
        }
        assert(line@ == padded(word@, 20));
        push_char(&mut line, ' ');
        push_decimal(&mut line, sorted_counts[i].1 as u64);
        lines.push(line);
        i = i + 1;
    }
    lines
}

/// How many times `w` occurs in `words`, counted with room to spare.
fn count_one(words: &Vec<String>, w: &str) -> (n: u64)
    ensures
        n == occurrences(string_views(words@), w@),
{
    let ghost ws = string_views(words@);
    let mut n: u64 = 0;
    let mut i: usize = 0;
    while i < words.len()
        invariant
            i <= words@.len(),
            ws == string_views(words@),
            n == occurrences(ws.take(i as int), w@),
            n <= i,
        decreases words@.len() - i,
    {
        assert(ws.take(i + 1).drop_last() == ws.take(i as int));
        assert(ws.take(i + 1).last() == words@[i as int]@);
        if crate::text::str_eq(words[i].as_str(), w) {
            n = n + 1;
        }
        i = i + 1;
    }
    assert(ws.take(i as int) == ws);
    n
}

/// Whether no word of `words` occurs more often than a `u32` can count, so
/// that `count_word_occurrences` can count them.
pub fn occurrences_fit(words: &Vec<String>) -> (r: bool)
    ensures
        r == counts_fit(string_views(words@)),
{
    let ghost ws = string_views(words@);
    if words.len() <= 0xFFFF_FFFF {
        assert forall|w: Seq<char>| #[trigger] occurrences(ws, w) <= u32::MAX by {
            lemma_occurrences_bound(ws, w);
        }
        return true;
    }
    let mut i: usize = 0;
    while i < words.len()
        invariant
            i <= words@.len(),
            ws == string_views(words@),
            forall|k: int| 0 <= k < i ==> occurrences(ws, #[trigger] ws[k]) <= u32::MAX,
        decreases words@.len() - i,
    {
        let n = count_one(words, words[i].as_str());
        assert(ws[i as int] == words@[i as int]@);
        if n > 0xFFFF_FFFF {
            return false;
        }
        i = i + 1;
    }
    assert forall|w: Seq<char>| #[trigger] occurrences(ws, w) <= u32::MAX by {
        if occurrences(ws, w) > 0 {
            lemma_occurrence_position(ws, w);
        }
    }
    true
}

} // verus!
