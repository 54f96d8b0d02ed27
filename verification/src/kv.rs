//! A Redis-like key-value store: `PING`, `ECHO`, `SET` with an optional
//! expiry in seconds, and `GET`, answered line by line, and the text file
//! that the store is saved to and loaded from.
use vstd::prelude::*;
use crate::text::{
    decimal_digits, has_no_space, is_word, lemma_decimal_roundtrip,
    lemma_parse_formatted_u64, lemma_words_of_word, lemma_words_of_word_then_space, parse_u64,
    parsed_u64, pending, push_char, push_decimal, push_str, split_words, str_eq, string_views,
    words_from, words_of,
};

verus! {

/// Nanoseconds in a second.
pub const NANOS_PER_SECOND: u128 = 1_000_000_000;

/// The largest number of seconds since the Unix epoch that a `SystemTime`
/// can hold (`i64::MAX`).
pub const MAX_SECONDS: u64 = 9_223_372_036_854_775_807;

/// A stored key with its value and, optionally, the time at which it
/// expires, in nanoseconds since the Unix epoch.
pub struct Entry {
    pub key: String,
    pub value: String,
    pub expiry: Option<u128>,
}

/// What the store holds: for each key, its value and optional expiry.
pub type StoreModel = Map<Seq<char>, (Seq<char>, Option<u128>)>;

/// The store that a list of entries makes, later entries overriding
/// earlier ones.
pub open spec fn model_of(entries: Seq<Entry>) -> StoreModel
    decreases entries.len(),
{
    if entries.len() == 0 {
        Map::empty()
    } else {
        model_of(entries.drop_last()).insert(
            entries.last().key@,
            (entries.last().value@, entries.last().expiry),
        )
    }
}

/// Whether no two entries have the same key.
pub open spec fn keys_distinct(entries: Seq<Entry>) -> bool {
    forall|i: int, j: int|
        0 <= i < j < entries.len() ==> #[trigger] entries[i].key@ != #[trigger] entries[j].key@
}

/// Whether an entry can be stored: its key and value are words (as
/// `split_whitespace` yields them), and its expiry, if any, is within the
/// range of `SystemTime`.
pub open spec fn storable(key: Seq<char>, value: Seq<char>, expiry: Option<u128>) -> bool {
    &&& is_word(key)
    &&& is_word(value)
    &&& expiry matches Some(t) ==> t / NANOS_PER_SECOND <= MAX_SECONDS
}

/// The key-value store.
pub struct Store {
    entries: Vec<Entry>,
}

impl View for Store {
    type V = StoreModel;

    closed spec fn view(&self) -> StoreModel {
        model_of(self.entries@)
    }
}

/// The entries of a store hold each key once.
proof fn lemma_model_lookup(entries: Seq<Entry>)
    requires
        keys_distinct(entries),
    ensures
        forall|i: int|
            0 <= i < entries.len() ==> #[trigger] model_of(entries).contains_key(entries[i].key@)
                && model_of(entries)[entries[i].key@] == (entries[i].value@, entries[i].expiry),
        forall|k: Seq<char>|
            #[trigger] model_of(entries).contains_key(k) ==> exists|i: int|
                0 <= i < entries.len() && entries[i].key@ == k,
    decreases entries.len(),
{
    if entries.len() > 0 {
        let init = entries.drop_last();
        assert(keys_distinct(init));
        lemma_model_lookup(init);
        let n = entries.len() - 1;
        assert forall|i: int| 0 <= i < entries.len() implies #[trigger] model_of(
            entries,
        ).contains_key(entries[i].key@) && model_of(entries)[entries[i].key@] == (
            entries[i].value@,
            entries[i].expiry,
        ) by {
            if i < n {
                assert(init[i] == entries[i]);
                assert(model_of(init).contains_key(init[i].key@));
                assert(entries[i].key@ != entries[n].key@);
            }
        }
        assert forall|k: Seq<char>| #[trigger] model_of(entries).contains_key(k) implies exists|
            i: int,
        | 0 <= i < entries.len() && entries[i].key@ == k by {
            if k != entries[n].key@ {
                assert(model_of(init).contains_key(k));
                let j = choose|j: int| 0 <= j < init.len() && init[j].key@ == k;
                assert(entries[j] == init[j]);
            }
        }
    }
}

/// Removing an entry removes its key from the store.
proof fn lemma_model_remove(entries: Seq<Entry>, i: int)
    requires
        keys_distinct(entries),
        0 <= i < entries.len(),
    ensures
        keys_distinct(entries.remove(i)),
        model_of(entries.remove(i)) == model_of(entries).remove(entries[i].key@),
    decreases entries.len(),
{
    let n = entries.len() - 1;
    let init = entries.drop_last();
    let k = entries[i].key@;
    assert(keys_distinct(init));
    if i == n {
        assert(entries.remove(i) == init);
        lemma_model_lookup(init);
        if model_of(init).contains_key(k) {
            let j = choose|j: int| 0 <= j < init.len() && init[j].key@ == k;
            assert(entries[j] == init[j]);
        }
        assert(model_of(entries).remove(k) =~= model_of(init));
    } else {
        lemma_model_remove(init, i);
        assert(init[i] == entries[i]);
        assert(entries.remove(i) == init.remove(i).push(entries[n]));
        assert(entries.remove(i).drop_last() == init.remove(i));
        assert(entries[n].key@ != k);
        assert(model_of(entries.remove(i)) =~= model_of(entries).remove(k));
        assert forall|a: int, b: int|
            0 <= a < b < entries.remove(i).len() implies #[trigger] entries.remove(i)[a].key@
            != #[trigger] entries.remove(i)[b].key@ by {
            let ia = if a < i { a } else { a + 1 };
            let ib = if b < i { b } else { b + 1 };
            assert(entries.remove(i)[a] == entries[ia]);
            assert(entries.remove(i)[b] == entries[ib]);
        }
    }
}

impl Store {
    /// Whether the store is well formed: each key is held once, and every
    /// entry is storable.
    pub closed spec fn wf(&self) -> bool {
        &&& keys_distinct(self.entries@)
        &&& forall|i: int|
            0 <= i < self.entries@.len() ==> storable(
                #[trigger] self.entries@[i].key@,
                self.entries@[i].value@,
                self.entries@[i].expiry,
            )
    }

    /// Whether every key the store holds is storable with its value and
    /// expiry.
    pub open spec fn all_storable(m: StoreModel) -> bool {
        forall|k: Seq<char>| #[trigger] m.contains_key(k) ==> storable(k, m[k].0, m[k].1)
    }

    /// A well-formed store holds only storable entries.
    pub proof fn lemma_wf_storable(&self)
        requires
            self.wf(),
        ensures
            Self::all_storable(self@),
    {
        lemma_model_lookup(self.entries@);
        assert forall|k: Seq<char>| #[trigger] self@.contains_key(k) implies storable(
            k,
            self@[k].0,
            self@[k].1,
        ) by {
            let i = choose|i: int| 0 <= i < self.entries@.len() && self.entries@[i].key@ == k;
            assert(storable(self.entries@[i].key@, self.entries@[i].value@, self.entries@[i].expiry));
        }
    }

    /// An empty store.
    pub fn new() -> (s: Store)
        ensures
            s.wf(),
            s@ == StoreModel::empty(),
    {
        Store { entries: Vec::new() }
    }

    /// The position of `key` among the entries, if it is held.
    fn find(&self, key: &str) -> (r: Option<usize>)
        requires
            self.wf(),
        ensures
            match r {
                Some(i) => i < self.entries@.len() && self.entries@[i as int].key@ == key@,
                None => !self@.contains_key(key@),
            },
    {
        proof {
            lemma_model_lookup(self.entries@);
        }
        let mut i: usize = 0;
        while i < self.entries.len()
            invariant
                i <= self.entries@.len(),
                forall|j: int| 0 <= j < i ==> self.entries@[j].key@ != key@,
            decreases self.entries@.len() - i,
        {
            if crate::text::str_eq(self.entries[i].key.as_str(), key) {
                return Some(i);
            }
            i = i + 1;
        }
        None
    }

    /// Looks `key` up: its value and expiry, if it is held.
    pub fn get(&self, key: &str) -> (r: Option<(String, Option<u128>)>)
        requires
            self.wf(),
        ensures
            match r {
                Some((value, expiry)) => self@.contains_key(key@) && self@[key@] == (
                    value@,
                    expiry,
                ),
                None => !self@.contains_key(key@),
            },
    {
        proof {
            lemma_model_lookup(self.entries@);
        }
        match self.find(key) {
            Some(i) => {
                assert(model_of(self.entries@).contains_key(self.entries@[i as int].key@));
                Some((self.entries[i].value.clone(), self.entries[i].expiry))
            },
            None => None,
        }
    }

    /// Removes `key`, if it is held.
    pub fn remove(&mut self, key: &str)
        requires
            old(self).wf(),
        ensures
            final(self).wf(),
            final(self)@ == old(self)@.remove(key@),
    {
        match self.find(key) {
            Some(i) => {
                let ghost before = self.entries@;
                proof {
                    lemma_model_remove(self.entries@, i as int);
                }
                self.entries.remove(i);
                assert forall|j: int| 0 <= j < self.entries@.len() implies storable(
                    #[trigger] self.entries@[j].key@,
                    self.entries@[j].value@,
                    self.entries@[j].expiry,
                ) by {
                    let k = if j < i { j } else { j + 1 };
                    assert(self.entries@[j] == before[k]);
                }
            },
            None => {
                assert(self@.remove(key@) =~= self@);
            },
        }
    }

    /// Stores `value` under `key`, with an optional expiry, replacing what
    /// the key held.
    pub fn insert(&mut self, key: String, value: String, expiry: Option<u128>)
        requires
            old(self).wf(),
            storable(key@, value@, expiry),
        ensures
            final(self).wf(),
            final(self)@ == old(self)@.insert(key@, (value@, expiry)),
    {
        self.remove(key.as_str());
        let ghost before = self.entries@;
        proof {
            lemma_model_lookup(before);
        }
        let entry = Entry { key, value, expiry };
        self.entries.push(entry);
        assert(self.entries@.drop_last() == before);
        assert forall|j: int| 0 <= j < self.entries@.len() implies storable(
            #[trigger] self.entries@[j].key@,
            self.entries@[j].value@,
            self.entries@[j].expiry,
        ) by {
            if j < before.len() {
                assert(self.entries@[j] == before[j]);
            }
        }
        assert forall|a: int, b: int|
            0 <= a < b < self.entries@.len() implies #[trigger] self.entries@[a].key@
            != #[trigger] self.entries@[b].key@ by {
            if b == before.len() {
                assert(self.entries@[a] == before[a]);
                assert(model_of(before).contains_key(before[a].key@));
            } else {
                assert(self.entries@[a] == before[a]);
                assert(self.entries@[b] == before[b]);
            }
        }
        assert(self@ =~= old(self)@.insert(entry.key@, (entry.value@, entry.expiry)));
    }
}

// ---------------------------------------------------------------------------
// Commands
// ---------------------------------------------------------------------------

/// The time `seconds` after `now`, both in nanoseconds since the epoch.
pub open spec fn expiry_after(now: u128, seconds: u64) -> u128 {
    (now + seconds * NANOS_PER_SECOND) as u128
}

/// What the store becomes, and what is answered, when `request` arrives at
/// time `now`: the request's words are matched against `PING`,
/// `ECHO <message>`, `SET <key> <value>`, `SET <key> <value> EX <seconds>`
/// and `GET <key>`; a key whose expiry has passed is removed when it is
/// read.
pub open spec fn respond(db: StoreModel, request: Seq<char>, now: u128) -> (StoreModel, Seq<char>) {
    let w = words_of(request);
    if w.len() == 1 && w[0] == "PING"@ {
        (db, "PONG\n"@)
    } else if w.len() == 2 && w[0] == "ECHO"@ {
        (db, w[1].push('\n'))
    } else if w.len() == 3 && w[0] == "SET"@ {
        (db.insert(w[1], (w[2], None)), "OK\n"@)
    } else if w.len() == 5 && w[0] == "SET"@ && w[3] == "EX"@ {
        match parsed_u64(w[4]) {
            Some(e) => (db.insert(w[1], (w[2], Some(expiry_after(now, e)))), "OK\n"@),
            None => (db, "Invalid expiry\n"@),
        }
    } else if w.len() == 2 && w[0] == "GET"@ {
        if !db.contains_key(w[1]) {
            (db, "NOT FOUND\n"@)
        } else if db[w[1]].1 matches Some(t) && now > t {
            (db.remove(w[1]), "NOT FOUND\n"@)
        } else {
            (db, db[w[1]].0.push('\n'))
        }
    } else {
        (db, "Unknown command\n"@)
    }
}

/// Whether `request` can be served at time `now`: an expiry it sets must
/// stay within the range of `SystemTime`.
pub open spec fn request_in_range(request: Seq<char>, now: u128) -> bool {
    let w = words_of(request);
    w.len() == 5 && w[0] == "SET"@ && w[3] == "EX"@ && parsed_u64(w[4]) is Some ==> now
        / NANOS_PER_SECOND + parsed_u64(w[4]).unwrap() <= MAX_SECONDS
}

/// Every word that `split_whitespace` yields is a word.
pub proof fn lemma_words_are_words(rest: Seq<char>, word: Seq<char>)
    requires
        has_no_space(word),
    ensures
        forall|i: int|
            0 <= i < words_from(rest, word).len() ==> is_word(#[trigger] words_from(rest, word)[i]),
    decreases rest.len(),
{
    if rest.len() == 0 {
        if word.len() > 0 {
            assert(words_from(rest, word) == seq![word]);
        }
    } else {
        if crate::text::is_space(rest[0]) {
            lemma_words_are_words(rest.drop_first(), seq![]);
            let tail = words_from(rest.drop_first(), seq![]);
            assert forall|i: int|
                0 <= i < words_from(rest, word).len() implies is_word(
                #[trigger] words_from(rest, word)[i],
            ) by {
                if i >= pending(word).len() {
                    assert(words_from(rest, word)[i] == tail[i - pending(word).len()]);
                } else {
                    assert(words_from(rest, word)[i] == word);
                }
            }
        } else {
            let next = word.push(rest[0]);
            assert forall|i: int| 0 <= i < next.len() implies !crate::text::is_space(
                #[trigger] next[i],
            ) by {
                if i < word.len() {
                    assert(next[i] == word[i]);
                }
            }
            lemma_words_are_words(rest.drop_first(), next);
            assert(words_from(rest, word) == words_from(rest.drop_first(), next));
        }
    }
}

impl Store {
    /// Serves one request that arrived at time `now` (nanoseconds since the
    /// Unix epoch), and returns the line to answer.
    pub fn execute(&mut self, request: &str, now: u128) -> (answer: String)
        requires
            old(self).wf(),
            request_in_range(request@, now),
        ensures
            final(self).wf(),
            (final(self)@, answer@) == respond(old(self)@, request@, now),
    {
        let words = split_words(request);
        let ghost w = words_of(request@);
        proof {
            lemma_words_are_words(request@, seq![]);
            assert(string_views(words@) == w);
            assert forall|i: int| 0 <= i < words@.len() implies #[trigger] words@[i]@ == w[i] by {
                assert(string_views(words@)[i] == words@[i]@);
            }
            assert forall|i: int| 0 <= i < words@.len() implies is_word(#[trigger] words@[i]@) by {
                assert(words@[i]@ == w[i]);
            }
        }
        let n = words.len();
        if n == 1 && str_eq(words[0].as_str(), "PING") {
            return "PONG\n".to_owned();
        }
        if n == 2 && str_eq(words[0].as_str(), "ECHO") {
            let mut answer = words[1].clone();
            push_char(&mut answer, '\n');
            return answer;
        }
        if n == 3 && str_eq(words[0].as_str(), "SET") {
            self.insert(words[1].clone(), words[2].clone(), None);
            return "OK\n".to_owned();
        }
        if n == 5 && str_eq(words[0].as_str(), "SET") && str_eq(words[3].as_str(), "EX") {
            match parse_u64(words[4].as_str()) {
                Some(seconds) => {
                    let expiry = now + (seconds as u128) * NANOS_PER_SECOND;
                    self.insert(words[1].clone(), words[2].clone(), Some(expiry));
                    return "OK\n".to_owned();
                },
                None => {
                    return "Invalid expiry\n".to_owned();
                },
            }
        }
        if n == 2 && str_eq(words[0].as_str(), "GET") {
            match self.get(words[1].as_str()) {
                Some((value, expiry)) => {
                    match expiry {
                        Some(t) => {
                            if now > t {
                                self.remove(words[1].as_str());
                                return "NOT FOUND\n".to_owned();
                            }
                        },
                        None => {},
                    }
                    let mut answer = value;
                    push_char(&mut answer, '\n');
                    return answer;
                },
                None => {
                    return "NOT FOUND\n".to_owned();
                },
            }
        }
        "Unknown command\n".to_owned()
    }

    /// Serves one request as read from a client: the bytes are decoded as
    /// UTF-8, ill-formed sequences replaced, and the text served as by
    /// `execute`. A request that would set an expiry beyond the range of
    /// `SystemTime` is not served: the result is `None` and the store is
    /// unchanged.
    pub fn handle_request(&mut self, request: &[u8], now: u128) -> (answer: Option<String>)
        requires
            old(self).wf(),
        ensures
            final(self).wf(),
            answer is None <==> !request_in_range(crate::text::lossy_utf8(request@), now),
            answer is None ==> final(self)@ == old(self)@,
            answer matches Some(a) ==> (final(self)@, a@) == respond(
                old(self)@,
                crate::text::lossy_utf8(request@),
                now,
            ),
            vstd::utf8::valid_utf8(request@) ==> (answer is None <==> !request_in_range(
                vstd::utf8::decode_utf8(request@),
                now,
            )),
            vstd::utf8::valid_utf8(request@) ==> (answer matches Some(a) ==> (final(self)@, a@)
                == respond(old(self)@, vstd::utf8::decode_utf8(request@), now)),
    {
        let text = crate::text::from_utf8_lossy(request);
        if !expiry_in_range(text.as_str(), now) {
            return None;
        }
        Some(self.execute(text.as_str(), now))
    }
}

/// Whether `request` can be served at time `now`: an expiry it sets must
/// stay within the range of `SystemTime`.
pub fn expiry_in_range(request: &str, now: u128) -> (r: bool)
    ensures
        r == request_in_range(request@, now),
{
    let words = split_words(request);
    let ghost w = words_of(request@);
    proof {
        assert(string_views(words@) == w);
        assert forall|i: int| 0 <= i < words@.len() implies #[trigger] words@[i]@ == w[i] by {
            assert(string_views(words@)[i] == words@[i]@);
        }
    }
    if words.len() == 5 && str_eq(words[0].as_str(), "SET") && str_eq(words[3].as_str(), "EX") {
        match parse_u64(words[4].as_str()) {
            Some(e) => now / NANOS_PER_SECOND + (e as u128) <= MAX_SECONDS as u128,
            None => true,
        }
    } else {
        true
    }
}

// ---------------------------------------------------------------------------
// Saving and loading
// ---------------------------------------------------------------------------

/// The text `EX`.
pub open spec fn ex_word() -> Seq<char> {
    seq!['E', 'X']
}

/// The line that an entry is saved as: key and value separated by a space,
/// then, for an entry that expires, `EX` and the expiry in whole seconds
/// since the epoch.
pub open spec fn entry_line(key: Seq<char>, value: Seq<char>, expiry: Option<u128>) -> Seq<char> {
    match expiry {
        None => key + seq![' '] + value,
        Some(t) => key + seq![' '] + value + seq![' '] + ex_word() + seq![' '] + decimal_digits(
            (t / NANOS_PER_SECOND) as nat,
        ),
    }
}

/// The line that key `k` of the store `m` is saved as.
pub open spec fn saved_line(m: StoreModel, k: Seq<char>) -> Seq<char> {
    entry_line(k, m[k].0, m[k].1)
}

/// Whether `line` is the saved line of some key of the store `m`.
pub open spec fn is_saved_line(m: StoreModel, line: Seq<char>) -> bool {
    exists|k: Seq<char>| #[trigger] m.contains_key(k) && line == saved_line(m, k)
}

/// What loading the line `line` does to the store `db`: a line of two words
/// stores a value without expiry; a line of four words whose third is `EX`
/// stores a value that expires at the given second, or never when the
/// fourth word is not a number; other lines are ignored.
pub open spec fn load_line(db: StoreModel, line: Seq<char>) -> StoreModel {
    let w = words_of(line);
    if w.len() == 2 {
        db.insert(w[0], (w[1], None))
    } else if w.len() == 4 && w[2] == ex_word() {
        db.insert(
            w[0],
            (
                w[1],
                match parsed_u64(w[3]) {
                    Some(e) => Some((e * NANOS_PER_SECOND) as u128),
                    None => None,
                },
            ),
        )
    } else {
        db
    }
}

/// The store that loading `lines`, in order, into an empty store gives.
pub open spec fn loaded(lines: Seq<Seq<char>>) -> StoreModel
    decreases lines.len(),
{
    if lines.len() == 0 {
        Map::empty()
    } else {
        load_line(loaded(lines.drop_last()), lines.last())
    }
}

/// Whether a saved line can be loaded: an expiry that it gives must be
/// within the range of `SystemTime`.
pub open spec fn line_in_range(line: Seq<char>) -> bool {
    let w = words_of(line);
    w.len() == 4 && w[2] == ex_word() && parsed_u64(w[3]) is Some ==> parsed_u64(w[3]).unwrap()
        <= MAX_SECONDS
}

/// The store with each expiry rounded down to a whole second, as the saved
/// file keeps it.
pub open spec fn whole_seconds(m: StoreModel) -> StoreModel {
    m.map_values(
        |v: (Seq<char>, Option<u128>)|
            (
                v.0,
                match v.1 {
                    Some(t) => Some(((t / NANOS_PER_SECOND) * NANOS_PER_SECOND) as u128),
                    None => None,
                },
            ),
    )
}

/// The line saved for a storable entry has the words that loading reads:
/// key and value, and `EX` with the expiry's seconds when it expires.
pub proof fn lemma_entry_line_words(key: Seq<char>, value: Seq<char>, expiry: Option<u128>)
    requires
        storable(key, value, expiry),
    ensures
        line_in_range(entry_line(key, value, expiry)),
        load_line(Map::empty(), entry_line(key, value, expiry)) == Map::<
            Seq<char>,
            (Seq<char>, Option<u128>),
        >::empty().insert(key, whole_seconds(map![key => (value, expiry)])[key]),
        forall|db: StoreModel| #[trigger]
            load_line(db, entry_line(key, value, expiry)) == db.insert(
                key,
                whole_seconds(map![key => (value, expiry)])[key],
            ),
{
    let one = map![key => (value, expiry)];
    assert(one.contains_key(key));
    match expiry {
        None => {
            lemma_words_of_word(value);
            lemma_words_of_word_then_space(key, value);
            assert(words_of(entry_line(key, value, expiry)) == seq![key] + seq![value]);
            assert(seq![key] + seq![value] == seq![key, value]);
        },
        Some(t) => {
            let secs = (t / NANOS_PER_SECOND) as nat;
            let d = decimal_digits(secs);
            lemma_decimal_roundtrip(secs);
            lemma_parse_formatted_u64(secs as u64);
            assert(is_word(d)) by {
                assert forall|i: int| 0 <= i < d.len() implies !crate::text::is_space(
                    #[trigger] d[i],
                ) by {
                    assert(crate::text::is_digit(d[i]));
                }
            }
            assert(is_word(ex_word())) by {
                assert forall|i: int| 0 <= i < ex_word().len() implies !crate::text::is_space(
                    #[trigger] ex_word()[i],
                ) by {}
            }
            lemma_words_of_word(d);
            lemma_words_of_word_then_space(ex_word(), d);
            let r2 = ex_word() + seq![' '] + d;
            lemma_words_of_word_then_space(value, r2);
            let r1 = value + seq![' '] + r2;
            lemma_words_of_word_then_space(key, r1);
            assert(entry_line(key, value, expiry) == key + seq![' '] + r1);
            assert(words_of(entry_line(key, value, expiry)) == seq![key, value, ex_word(), d]);
        },
    }
}

/// Whether a saved line can be loaded: an expiry that it gives must be
/// within the range of `SystemTime` (see `line_in_range`).
pub fn line_can_load(line: &str) -> (r: bool)
    ensures
        r == line_in_range(line@),
{
    let words = split_words(line);
    let ghost w = words_of(line@);
    proof {
        assert(string_views(words@) == w);
        assert forall|i: int| 0 <= i < words@.len() implies #[trigger] words@[i]@ == w[i] by {
            assert(string_views(words@)[i] == words@[i]@);
        }
        reveal_strlit("EX");
        assert("EX"@ == ex_word());
    }
    if words.len() == 4 && str_eq(words[2].as_str(), "EX") {
        match parse_u64(words[3].as_str()) {
            Some(e) => e <= MAX_SECONDS,
            None => true,
        }
    } else {
        true
    }
}

impl Store {
    /// The lines that the store is saved as, one per key, in no particular
    /// order.
    pub fn save_lines(&self) -> (lines: Vec<String>)
        requires
            self.wf(),
        ensures
            forall|i: int| 0 <= i < lines@.len() ==> is_saved_line(self@, #[trigger] lines@[i]@),
            forall|k: Seq<char>|
                #[trigger] self@.contains_key(k) ==> exists|i: int|
                    0 <= i < lines@.len() && lines@[i]@ == saved_line(self@, k),
            forall|i: int, j: int|
                0 <= i < j < lines@.len() ==> #[trigger] lines@[i]@ != #[trigger] lines@[j]@,
    {
        proof {
            lemma_model_lookup(self.entries@);
        }
        let mut lines: Vec<String> = Vec::new();
        let mut i: usize = 0;
        while i < self.entries.len()
            invariant
                self.wf(),
                i <= self.entries@.len(),
                lines@.len() == i,
                forall|j: int|
                    0 <= j < i ==> #[trigger] lines@[j]@ == entry_line(
                        self.entries@[j].key@,
                        self.entries@[j].value@,
                        self.entries@[j].expiry,
                    ),
            decreases self.entries@.len() - i,
        {
            let entry = &self.entries[i];
            let mut line = entry.key.clone();
            push_char(&mut line, ' ');
            push_str(&mut line, entry.value.as_str());
            match entry.expiry {
                Some(t) => {
                    push_str(&mut line, " EX ");
                    proof {
                        reveal_strlit(" EX ");
                        assert(" EX "@ == seq![' '] + ex_word() + seq![' ']);
                        assert(storable(entry.key@, entry.value@, entry.expiry));
                    }
                    push_decimal(&mut line, (t / NANOS_PER_SECOND) as u64);
                },
                None => {},
            }
            lines.push(line);
            i = i + 1;
        }
        proof {
            assert forall|a: int, b: int|
                0 <= a < b < lines@.len() implies #[trigger] lines@[a]@ != #[trigger] lines@[b]@ by {
                let ea = self.entries@[a];
                let eb = self.entries@[b];
                lemma_line_determines_key(ea.key@, ea.value@, ea.expiry, eb.key@, eb.value@, eb.expiry);
            }
            assert forall|j: int| 0 <= j < lines@.len() implies is_saved_line(
                self@,
                #[trigger] lines@[j]@,
            ) by {
                let k = self.entries@[j].key@;
                assert(self@.contains_key(k));
                assert(lines@[j]@ == saved_line(self@, k));
            }
            assert forall|k: Seq<char>| #[trigger] self@.contains_key(k) implies exists|j: int|
                0 <= j < lines@.len() && lines@[j]@ == saved_line(self@, k) by {
                let j = choose|j: int| 0 <= j < self.entries@.len() && self.entries@[j].key@ == k;
                assert(lines@[j]@ == saved_line(self@, k));
            }
        }
        lines
    }

    /// Loads the lines of a saved store, in order, into an empty store.
    pub fn load_lines(lines: &Vec<String>) -> (s: Store)
        requires
            forall|i: int| 0 <= i < lines@.len() ==> line_in_range(#[trigger] lines@[i]@),
        ensures
            s.wf(),
            s@ == loaded(string_views(lines@)),
    {
        let mut store = Store::new();
        let mut i: usize = 0;
        while i < lines.len()
            invariant
                i <= lines@.len(),
                forall|j: int| 0 <= j < lines@.len() ==> line_in_range(#[trigger] lines@[j]@),
                store.wf(),
                store@ == loaded(string_views(lines@.subrange(0, i as int))),
            decreases lines@.len() - i,
        {
            let ghost before = store@;
            let ghost prefix = string_views(lines@.subrange(0, i + 1));
            assert(prefix.drop_last() == string_views(lines@.subrange(0, i as int)));
            assert(prefix.last() == lines@[i as int]@);
            let words = split_words(lines[i].as_str());
            let ghost w = words_of(lines@[i as int]@);
            proof {
                lemma_words_are_words(lines@[i as int]@, seq![]);
                assert(string_views(words@) == w);
                assert forall|j: int| 0 <= j < words@.len() implies #[trigger] words@[j]@ == w[j] by {
                    assert(string_views(words@)[j] == words@[j]@);
                }
                assert(line_in_range(lines@[i as int]@));
            }
            if words.len() == 2 {
                store.insert(words[0].clone(), words[1].clone(), None);
            } else if words.len() == 4 && str_eq(words[2].as_str(), "EX") {
                proof {
                    reveal_strlit("EX");
                    assert("EX"@ == ex_word());
                }
                let expiry = match parse_u64(words[3].as_str()) {
                    Some(e) => Some((e as u128) * NANOS_PER_SECOND),
                    None => None,
                };
                store.insert(words[0].clone(), words[1].clone(), expiry);
            } else {
                proof {
                    reveal_strlit("EX");
                    assert("EX"@ == ex_word());
                }
            }
            i = i + 1;
        }
        assert(lines@.subrange(0, i as int) == lines@);
        store
    }
}

/// Two entries with different keys are saved as different lines: the key is
/// what comes before the first space of the line.
proof fn lemma_line_determines_key(
    ka: Seq<char>,
    va: Seq<char>,
    ea: Option<u128>,
    kb: Seq<char>,
    vb: Seq<char>,
    eb: Option<u128>,
)
    requires
        storable(ka, va, ea),
        storable(kb, vb, eb),
        ka != kb,
    ensures
        entry_line(ka, va, ea) != entry_line(kb, vb, eb),
{
    let la = entry_line(ka, va, ea);
    let lb = entry_line(kb, vb, eb);
    assert(la.subrange(0, ka.len() as int) == ka);
    assert(lb.subrange(0, kb.len() as int) == kb);
    assert(la[ka.len() as int] == ' ');
    assert(lb[kb.len() as int] == ' ');
    if la == lb {
        if ka.len() < kb.len() {
            assert(lb[ka.len() as int] == kb[ka.len() as int]);
            assert(!crate::text::is_space(kb[ka.len() as int]));
        } else if kb.len() < ka.len() {
            assert(la[kb.len() as int] == ka[kb.len() as int]);
            assert(!crate::text::is_space(ka[kb.len() as int]));
        } else {
            assert(ka == kb);
        }
    }
}

// ---------------------------------------------------------------------------
// Laws
// ---------------------------------------------------------------------------

/// The keys of `m` that have their saved line among `lines`.
pub open spec fn keys_saved_in(m: StoreModel, lines: Seq<Seq<char>>) -> Set<Seq<char>> {
    Set::new(
        |k: Seq<char>|
            m.contains_key(k) && exists|i: int| 0 <= i < lines.len() && lines[i] == saved_line(m, k),
    )
}

/// Two keys of a store with the same saved line are the same key.
proof fn lemma_saved_line_key(m: StoreModel, a: Seq<char>, b: Seq<char>)
    requires
        Store::all_storable(m),
        m.contains_key(a),
        m.contains_key(b),
        saved_line(m, a) == saved_line(m, b),
    ensures
        a == b,
{
    if a != b {
        lemma_line_determines_key(a, m[a].0, m[a].1, b, m[b].0, m[b].1);
    }
}

proof fn lemma_loaded_saved_lines(m: StoreModel, lines: Seq<Seq<char>>)
    requires
        Store::all_storable(m),
        forall|i: int| 0 <= i < lines.len() ==> is_saved_line(m, #[trigger] lines[i]),
    ensures
        forall|i: int| 0 <= i < lines.len() ==> line_in_range(#[trigger] lines[i]),
        loaded(lines) == whole_seconds(m).restrict(keys_saved_in(m, lines)),
    decreases lines.len(),
{
    if lines.len() == 0 {
        assert(whole_seconds(m).restrict(keys_saved_in(m, lines)) =~= Map::empty());
    } else {
        let init = lines.drop_last();
        assert forall|i: int| 0 <= i < init.len() implies is_saved_line(m, #[trigger] init[i]) by {
            assert(init[i] == lines[i]);
        }
        lemma_loaded_saved_lines(m, init);
        let n = lines.len() - 1;
        assert(is_saved_line(m, lines[n]));
        let k = choose|k: Seq<char>| #[trigger] m.contains_key(k) && lines[n] == saved_line(m, k);
        assert(storable(k, m[k].0, m[k].1));
        lemma_entry_line_words(k, m[k].0, m[k].1);
        assert(map![k => (m[k].0, m[k].1)] == map![k => m[k]]);
        assert(whole_seconds(map![k => m[k]])[k] == whole_seconds(m)[k]);
        assert(loaded(lines) == loaded(init).insert(k, whole_seconds(m)[k]));
        assert forall|j: int| 0 <= j < lines.len() implies line_in_range(#[trigger] lines[j]) by {
            if j < n {
                assert(init[j] == lines[j]);
            }
        }
        assert forall|x: Seq<char>| #[trigger] keys_saved_in(m, lines).contains(x) <==> (
        keys_saved_in(m, init).contains(x) || x == k) by {
            if keys_saved_in(m, lines).contains(x) && x != k {
                let i = choose|i: int| 0 <= i < lines.len() && lines[i] == saved_line(m, x);
                if i == n {
                    lemma_saved_line_key(m, x, k);
                }
                assert(init[i] == lines[i]);
            }
            if keys_saved_in(m, init).contains(x) {
                let i = choose|i: int| 0 <= i < init.len() && init[i] == saved_line(m, x);
                assert(lines[i] == init[i]);
            }
        }
        assert(loaded(lines) =~= whole_seconds(m).restrict(keys_saved_in(m, lines)));
    }
}

/// Saving a store and loading the saved lines back, in whatever order they
/// were written, gives the store again with each expiry rounded down to a
/// whole second; every saved line can be loaded.
pub proof fn lemma_save_load_roundtrip(m: StoreModel, lines: Seq<Seq<char>>)
    requires
        Store::all_storable(m),
        forall|i: int| 0 <= i < lines.len() ==> is_saved_line(m, #[trigger] lines[i]),
        forall|k: Seq<char>|
            #[trigger] m.contains_key(k) ==> exists|i: int|
                0 <= i < lines.len() && lines[i] == saved_line(m, k),
    ensures
        forall|i: int| 0 <= i < lines.len() ==> line_in_range(#[trigger] lines[i]),
        loaded(lines) == whole_seconds(m),
{
    lemma_loaded_saved_lines(m, lines);
    assert(keys_saved_in(m, lines) =~= m.dom());
    assert(whole_seconds(m).restrict(keys_saved_in(m, lines)) =~= whole_seconds(m));
}

/// The request `SET <key> <value>`.
pub open spec fn set_request(key: Seq<char>, value: Seq<char>) -> Seq<char> {
    "SET"@ + seq![' '] + key + seq![' '] + value
}

/// The request `SET <key> <value> EX <seconds>`.
pub open spec fn set_ex_request(key: Seq<char>, value: Seq<char>, seconds: u64) -> Seq<char> {
    "SET"@ + seq![' '] + key + seq![' '] + value + seq![' '] + ex_word() + seq![' ']
        + decimal_digits(seconds as nat)
}

/// The request `GET <key>`.
pub open spec fn get_request(key: Seq<char>) -> Seq<char> {
    "GET"@ + seq![' '] + key
}

proof fn lemma_command_words()
    ensures
        is_word("SET"@),
        is_word("GET"@),
        is_word(ex_word()),
        "SET"@ != "PING"@ && "SET"@ != "ECHO"@ && "SET"@ != "GET"@,
        "GET"@ != "PING"@ && "GET"@ != "ECHO"@,
{
    reveal_strlit("SET");
    reveal_strlit("GET");
    reveal_strlit("PING");
    reveal_strlit("ECHO");
    assert("SET"@ =~= seq!['S', 'E', 'T']);
    assert("GET"@ =~= seq!['G', 'E', 'T']);
    assert("PING"@.len() == 4);
    assert("ECHO"@.len() == 4);
    assert("SET"@[0] != "GET"@[0]);
}

/// Storing a value with `SET` answers `OK`, and a `GET` of the key then
/// answers the value, at any later time.
pub proof fn lemma_get_after_set(
    db: StoreModel,
    key: Seq<char>,
    value: Seq<char>,
    now: u128,
    later: u128,
)
    requires
        is_word(key),
        is_word(value),
    ensures
        request_in_range(set_request(key, value), now),
        respond(db, set_request(key, value), now) == (db.insert(key, (value, None)), "OK\n"@),
        respond(db.insert(key, (value, None)), get_request(key), later) == (
            db.insert(key, (value, None)),
            value.push('\n'),
        ),
{
    lemma_command_words();
    lemma_words_of_word(value);
    lemma_words_of_word_then_space(key, value);
    lemma_words_of_word_then_space("SET"@, key + seq![' '] + value);
    assert(set_request(key, value) == "SET"@ + seq![' '] + (key + seq![' '] + value));
    assert(words_of(set_request(key, value)) == seq!["SET"@, key, value]);
    lemma_words_of_word(key);
    lemma_words_of_word_then_space("GET"@, key);
    assert(words_of(get_request(key)) == seq!["GET"@, key]);
}

/// Storing a value with `SET .. EX <seconds>` answers `OK`; a `GET` of the
/// key answers the value until the expiry, and once the expiry has passed it
/// answers `NOT FOUND` and removes the key.
pub proof fn lemma_get_after_set_with_expiry(
    db: StoreModel,
    key: Seq<char>,
    value: Seq<char>,
    seconds: u64,
    now: u128,
    later: u128,
)
    requires
        is_word(key),
        is_word(value),
        now / NANOS_PER_SECOND + seconds <= MAX_SECONDS,
    ensures
        request_in_range(set_ex_request(key, value, seconds), now),
        respond(db, set_ex_request(key, value, seconds), now) == (
            db.insert(key, (value, Some(expiry_after(now, seconds)))),
            "OK\n"@,
        ),
        later <= expiry_after(now, seconds) ==> respond(
            db.insert(key, (value, Some(expiry_after(now, seconds)))),
            get_request(key),
            later,
        ) == (db.insert(key, (value, Some(expiry_after(now, seconds)))), value.push('\n')),
        later > expiry_after(now, seconds) ==> respond(
            db.insert(key, (value, Some(expiry_after(now, seconds)))),
            get_request(key),
            later,
        ) == (db.remove(key), "NOT FOUND\n"@),
{
    lemma_command_words();
    let d = decimal_digits(seconds as nat);
    lemma_decimal_roundtrip(seconds as nat);
    lemma_parse_formatted_u64(seconds);
    assert(is_word(d)) by {
        assert forall|i: int| 0 <= i < d.len() implies !crate::text::is_space(#[trigger] d[i]) by {
            assert(crate::text::is_digit(d[i]));
        }
    }
    lemma_words_of_word(d);
    lemma_words_of_word_then_space(ex_word(), d);
    let r3 = ex_word() + seq![' '] + d;
    lemma_words_of_word_then_space(value, r3);
    let r2 = value + seq![' '] + r3;
    lemma_words_of_word_then_space(key, r2);
    let r1 = key + seq![' '] + r2;
    lemma_words_of_word_then_space("SET"@, r1);
    assert(set_ex_request(key, value, seconds) == "SET"@ + seq![' '] + r1);
    assert(words_of(set_ex_request(key, value, seconds)) == seq!["SET"@, key, value, ex_word(), d]);
    reveal_strlit("EX");
    assert("EX"@ == ex_word());
    lemma_words_of_word(key);
    lemma_words_of_word_then_space("GET"@, key);
    assert(words_of(get_request(key)) == seq!["GET"@, key]);
    let db2 = db.insert(key, (value, Some(expiry_after(now, seconds))));
    assert(db2.remove(key) =~= db.remove(key));
}

/// The request `SET <key> <value> EX <expiry>`, with the expiry as written.
pub open spec fn set_ex_text_request(key: Seq<char>, value: Seq<char>, expiry: Seq<char>) -> Seq<
    char,
> {
    "SET"@ + seq![' '] + key + seq![' '] + value + seq![' '] + ex_word() + seq![' '] + expiry
}

/// A `SET .. EX` whose expiry is not a number answers `Invalid expiry` and
/// leaves the store as it was: a `GET` of the key afterwards answers what
/// it answered before, and a value stored without expiry is still there.
pub proof fn lemma_refused_set_keeps_store(
    db: StoreModel,
    key: Seq<char>,
    value: Seq<char>,
    expiry: Seq<char>,
    now: u128,
    later: u128,
)
    requires
        is_word(key),
        is_word(value),
        is_word(expiry),
        parsed_u64(expiry) is None,
    ensures
        request_in_range(set_ex_text_request(key, value, expiry), now),
        respond(db, set_ex_text_request(key, value, expiry), now) == (db, "Invalid expiry\n"@),
        respond(respond(db, set_ex_text_request(key, value, expiry), now).0, get_request(key), later)
            == respond(db, get_request(key), later),
        db.contains_key(key) && db[key].1 is None ==> respond(
            respond(db, set_ex_text_request(key, value, expiry), now).0,
            get_request(key),
            later,
        ).1 == db[key].0.push('\n'),
{
    lemma_command_words();
    lemma_words_of_word(expiry);
    lemma_words_of_word_then_space(ex_word(), expiry);
    let r3 = ex_word() + seq![' '] + expiry;
    lemma_words_of_word_then_space(value, r3);
    let r2 = value + seq![' '] + r3;
    lemma_words_of_word_then_space(key, r2);
    let r1 = key + seq![' '] + r2;
    lemma_words_of_word_then_space("SET"@, r1);
    assert(set_ex_text_request(key, value, expiry) == "SET"@ + seq![' '] + r1);
    assert(words_of(set_ex_text_request(key, value, expiry)) == seq![
        "SET"@,
        key,
        value,
        ex_word(),
        expiry,
    ]);
    reveal_strlit("EX");
    assert("EX"@ == ex_word());
    lemma_words_of_word(key);
    lemma_words_of_word_then_space("GET"@, key);
    assert(words_of(get_request(key)) == seq!["GET"@, key]);
}

/// A request changes the store in only two ways: a `SET` that answers `OK`
/// stores the value under its key, and a `GET` of a key whose expiry has
/// passed answers `NOT FOUND` and removes it. Every other request leaves
/// the store as it was.
pub proof fn lemma_what_a_request_changes(db: StoreModel, request: Seq<char>, now: u128)
    ensures
        ({
            let (after, answer) = respond(db, request, now);
            let w = words_of(request);
            ||| after == db
            ||| w.len() >= 3 && w[0] == "SET"@ && answer == "OK\n"@ && after == db.insert(
                w[1],
                (w[2], after[w[1]].1),
            )
            ||| w.len() == 2 && w[0] == "GET"@ && answer == "NOT FOUND\n"@ && db.contains_key(
                w[1],
            ) && db[w[1]].1 is Some && now > db[w[1]].1.unwrap() && after == db.remove(w[1])
        }),
{
    lemma_command_words();
}

} // verus!
