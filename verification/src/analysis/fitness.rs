//! Fitness functions: how much a text looks like the plaintext that is sought.
//!
//! A score is a whole number, and a higher score means a more plausible text.
//! Scores that stand for fractions are counted in millionths.
use crate::text::{
    is_upper, is_upper_text, is_valid_text, lemma_upper_text_bytes, letter_char, letter_index,
};
use crate::analysis::decimal::{
    find_char, lemma_find_char, lemma_find_char_skips, parse_millionths, read_value, NOT_A_NUMBER,
};
use vstd::prelude::*;
use vstd::string::StrSliceExecFns;

verus! {

/// One in the unit that fractional scores are counted in.
pub const SCORE_SCALE: i64 = 1_000_000;

/// The lowest score. A text with this score is never preferred to anything.
pub const SCORE_FLOOR: i64 = -9_223_372_036_854_775_808;

/// The longest text that can be scored, in letters.
pub const TEXT_LIMIT: usize = 4_294_967_295;

/// A text that can be scored: upper-case letters only, and no more of them
/// than the scores have room for.
pub open spec fn is_scorable(text: Seq<char>) -> bool {
    is_upper_text(text) && text.len() <= TEXT_LIMIT
}

/// Says whether a text can be scored, which is what every search asks of its
/// ciphertext.
pub fn can_be_scored(text: &str) -> (b: bool)
    ensures
        b == is_scorable(text@),
{
    if !is_valid_text(text) {
        return false;
    }
    proof {
        lemma_upper_text_bytes(text);
    }
    text.as_bytes().len() <= TEXT_LIMIT
}

/// A way of scoring a text. Whoever implements it says what the score of
/// every text is, and shows that `score` returns just that: the same text
/// always scores the same.
pub trait FitnessFunction {
    /// The score of a text under this function.
    spec fn fitness(&self, text: Seq<char>) -> int;

    /// Scores a text. The text is not inspected for being upper-case: the
    /// caller has seen to that once, before the search began.
    fn score(&self, text: &str) -> (s: i64)
        requires
            is_scorable(text@),
        ensures
            s == self.fitness(text@),
    ;
}

/// How often a letter occurs in a text.
pub open spec fn occurrences(text: Seq<char>, c: char) -> nat
    decreases text.len(),
{
    if text.len() == 0 {
        0
    } else {
        occurrences(text.drop_last(), c) + if text.last() == c {
            1nat
        } else {
            0nat
        }
    }
}

/// How many letters of a text are among the first `k` letters of the
/// alphabet.
pub open spec fn letters_counted(text: Seq<char>, k: int) -> int
    decreases k,
{
    if k <= 0 {
        0
    } else {
        letters_counted(text, k - 1) + occurrences(text, letter_char(k - 1))
    }
}

/// The number of ordered pairs of places in a text that hold the same letter,
/// one of the first `k` letters of the alphabet: the sum of n(n - 1) over the
/// counts n of these letters.
pub open spec fn coincidences_upto(text: Seq<char>, k: int) -> int
    decreases k,
{
    if k <= 0 {
        0
    } else {
        let n = occurrences(text, letter_char(k - 1)) as int;
        coincidences_upto(text, k - 1) + n * (n - 1)
    }
}

/// The number of ordered pairs of places in a text that hold the same letter.
pub open spec fn coincidences(text: Seq<char>) -> int {
    coincidences_upto(text, 26)
}

/// The index of coincidence of a text in millionths, rounded down: the
/// number of ordered pairs of places with the same letter, divided by the
/// number of all ordered pairs of places. A text of fewer than two letters has
/// no pairs of places, and is given the lowest score.
pub open spec fn ioc_fitness(text: Seq<char>) -> int {
    let n = text.len() as int;
    if n < 2 {
        SCORE_FLOOR as int
    } else {
        SCORE_SCALE * coincidences(text) / (n * (n - 1))
    }
}

/// One more letter at the end of a text is counted once, under its own
/// letter.
pub proof fn lemma_counted_push(text: Seq<char>, c: char, k: int)
    requires
        is_upper(c),
        0 <= k <= 26,
    ensures
        letters_counted(text.push(c), k) == letters_counted(text, k) + if letter_index(c) < k {
            1int
        } else {
            0int
        },
    decreases k,
{
    if k > 0 {
        lemma_counted_push(text, c, k - 1);
        assert(text.push(c).drop_last() == text);
        assert(text.push(c).last() == c);
    }
}

/// Every letter of an upper-case text is counted under one of the 26 letters.
pub proof fn lemma_all_counted(text: Seq<char>)
    requires
        is_upper_text(text),
    ensures
        letters_counted(text, 26) == text.len(),
    decreases text.len(),
{
    if text.len() > 0 {
        lemma_all_counted(text.drop_last());
        lemma_counted_push(text.drop_last(), text.last(), 26);
        assert(text.drop_last().push(text.last()) == text);
    } else {
        lemma_none_counted(text, 26);
    }
}

/// In an empty text no letter is counted.
proof fn lemma_none_counted(text: Seq<char>, k: int)
    requires
        text.len() == 0,
        0 <= k,
    ensures
        letters_counted(text, k) == 0,
    decreases k,
{
    if k > 0 {
        lemma_none_counted(text, k - 1);
    }
}

/// There are no more pairs of places with the same letter than there are
/// pairs of places.
pub proof fn lemma_coincidences_bounded(text: Seq<char>, k: int)
    requires
        0 <= k <= 26,
    ensures
        0 <= letters_counted(text, k),
        0 <= coincidences_upto(text, k) <= letters_counted(text, k) * (letters_counted(text, k)
            - 1),
    decreases k,
{
    if k > 0 {
        lemma_coincidences_bounded(text, k - 1);
        let a = letters_counted(text, k - 1);
        let b = occurrences(text, letter_char(k - 1)) as int;
        let s = coincidences_upto(text, k - 1);
        assert(0 <= b * (b - 1) && s + b * (b - 1) <= (a + b) * (a + b - 1)) by (nonlinear_arith)
            requires
                0 <= a,
                0 <= b,
                0 <= s <= a * (a - 1),
        ;
    } else {
        assert(letters_counted(text, k) * (letters_counted(text, k) - 1) == 0);
    }
}

/// The fitness function that scores a text by its index of coincidence. It
/// needs no data, and is what the search for the wheels is run with.
#[derive(Debug, Clone, Copy)]
pub struct IoCFitness {}

impl IoCFitness {
    /// The fitness function; it holds nothing.
    pub fn new() -> (r: Self)
        ensures
            r == (IoCFitness {  }),
    {
        Self {  }
    }

    /// Counts the ordered pairs of places of a text that hold the same
    /// letter, and all ordered pairs of places of the text. The index of
    /// coincidence is the first divided by the second.
    pub fn coincidence_counts(text: &str) -> (r: (u64, u64))
        requires
            is_scorable(text@),
        ensures
            r.0 == coincidences(text@),
            r.1 == text@.len() * (text@.len() - 1),
            r.0 <= r.1,
    {
        proof {
            lemma_upper_text_bytes(text);
        }
        let bytes = text.as_bytes();
        let n = bytes.len();
        let mut histogram: [u64; 26] = [0; 26];
        let mut i: usize = 0;
        while i < n
            invariant
                i <= n,
                n == text@.len(),
                n == bytes@.len(),
                is_upper_text(text@),
                forall|k: int| 0 <= k < n ==> #[trigger] bytes@[k] == text@[k] as u8,
                forall|l: int|
                    0 <= l < 26 ==> #[trigger] histogram@[l] == occurrences(
                        text@.take(i as int),
                        letter_char(l),
                    ),
                forall|l: int| 0 <= l < 26 ==> #[trigger] histogram@[l] <= i,
            decreases n - i,
        {
            let b = bytes[i];
            let idx = (b - 65u8) as usize;
            proof {
                assert(text@.take(i + 1).drop_last() == text@.take(i as int));
            }
            histogram[idx] = histogram[idx] + 1;
            i += 1;
        }
        assert(text@.take(n as int) == text@);
        let mut total: u128 = 0;
        let mut l: usize = 0;
        while l < 26
            invariant
                l <= 26,
                n <= TEXT_LIMIT,
                forall|k: int|
                    0 <= k < 26 ==> #[trigger] histogram@[k] == occurrences(text@, letter_char(k)),
                forall|k: int| 0 <= k < 26 ==> #[trigger] histogram@[k] <= n,
                total == coincidences_upto(text@, l as int),
                total <= l * 0x1_0000_0000_0000_0000,
            decreases 26 - l,
        {
            let v: u64 = histogram[l];
            let pairs: u64 = if v > 0 {
                assert(v * (v - 1) <= 0xFFFF_FFFF * 0xFFFF_FFFF) by (nonlinear_arith)
                    requires
                        0 < v <= 0xFFFF_FFFF,
                ;
                v * (v - 1)
            } else {
                0
            };
            proof {
                let occ = occurrences(text@, letter_char(l as int)) as int;
                assert(pairs == occ * (occ - 1)) by (nonlinear_arith)
                    requires
                        occ == v,
                        pairs == if v > 0 {
                            v * (v - 1)
                        } else {
                            0
                        },
                ;
            }
            total = total + pairs as u128;
            l += 1;
        }
        let places: u64 = n as u64;
        let all_pairs: u64 = if places > 0 {
            assert(places * (places - 1) <= 0xFFFF_FFFF * 0xFFFF_FFFF) by (nonlinear_arith)
                requires
                    0 < places <= 0xFFFF_FFFF,
            ;
            places * (places - 1)
        } else {
            0
        };
        proof {
            lemma_all_counted(text@);
            lemma_coincidences_bounded(text@, 26);
            assert(all_pairs == text@.len() * (text@.len() - 1)) by (nonlinear_arith)
                requires
                    places == text@.len(),
                    all_pairs == if places > 0 {
                        places * (places - 1)
                    } else {
                        0
                    },
            ;
        }
        (total as u64, all_pairs)
    }
}

impl Default for IoCFitness {
    fn default() -> (r: Self)
        ensures
            r == (IoCFitness {  }),
    {
        Self::new()
    }
}

impl FitnessFunction for IoCFitness {
    open spec fn fitness(&self, text: Seq<char>) -> int {
        ioc_fitness(text)
    }

    fn score(&self, text: &str) -> (s: i64) {
        let (same, all_pairs) = Self::coincidence_counts(text);
        if all_pairs == 0 {
            assert(text@.len() < 2) by (nonlinear_arith)
                requires
                    text@.len() * (text@.len() - 1) == 0,
            ;
            return SCORE_FLOOR;
        }
        proof {
            let n = text@.len() as int;
            assert(n >= 2) by (nonlinear_arith)
                requires
                    n >= 0,
                    n * (n - 1) > 0,
            ;
            assert(0 <= SCORE_SCALE * same / (all_pairs as int) <= SCORE_SCALE) by (nonlinear_arith)
                requires
                    0 <= same <= all_pairs,
                    all_pairs > 0,
                    SCORE_SCALE == 1_000_000,
            ;
            assert(SCORE_SCALE * same <= 1_000_000 * 0xFFFF_FFFF_FFFF_FFFF) by (nonlinear_arith)
                requires
                    0 <= same <= 0xFFFF_FFFF_FFFF_FFFF,
                    SCORE_SCALE == 1_000_000,
            ;
        }
        let scaled: u128 = 1_000_000u128 * (same as u128);
        (scaled / (all_pairs as u128)) as i64
    }
}

/// The bytes of a text of upper-case letters.
pub open spec fn text_bytes(text: Seq<char>) -> Seq<u8> {
    Seq::new(text.len(), |i: int| text[i] as u8)
}

/// How many of the first `n` places of a text hold the letter that is known
/// to stand there.
pub open spec fn matches_upto(known: Seq<u8>, text: Seq<char>, n: int) -> int
    decreases n,
{
    if n <= 0 {
        0
    } else {
        matches_upto(known, text, n - 1) + if known[n - 1] == text[n - 1] as u8 {
            1int
        } else {
            0int
        }
    }
}

/// The number of places at which a text holds the letter that is known to
/// stand there. Places beyond the end of either are not counted.
pub open spec fn known_fitness(known: Seq<u8>, text: Seq<char>) -> int {
    matches_upto(
        known,
        text,
        if known.len() <= text.len() {
            known.len() as int
        } else {
            text.len() as int
        },
    )
}

/// Every word is made of upper-case letters, and ends at a place that can be
/// counted.
pub open spec fn words_fit(words: Seq<(&str, usize)>) -> bool {
    forall|k: int|
        0 <= k < words.len() ==> is_upper_text((#[trigger] words[k]).0@) && words[k].1
            + words[k].0@.len() <= usize::MAX
}

/// The length of the plaintext that a list of words with their places stands
/// for: the place behind the end of the word that reaches furthest.
pub open spec fn words_length(words: Seq<(&str, usize)>) -> int
    decreases words.len(),
{
    if words.len() == 0 {
        0
    } else {
        let before = words_length(words.drop_last());
        let end = words.last().1 + words.last().0@.len();
        if end > before {
            end
        } else {
            before
        }
    }
}

/// What is known of place `i` of the plaintext: the letter of the last word
/// of the list that covers the place, and 0 where no word does.
pub open spec fn word_letter_at(words: Seq<(&str, usize)>, i: int) -> u8
    decreases words.len(),
{
    if words.len() == 0 {
        0
    } else {
        let (word, start) = words.last();
        if start <= i < start + word@.len() {
            word@[i - start] as u8
        } else {
            word_letter_at(words.drop_last(), i)
        }
    }
}

/// The plaintext that a list of words with their places stands for.
pub open spec fn words_plaintext(words: Seq<(&str, usize)>) -> Seq<u8> {
    Seq::new(words_length(words) as nat, |i: int| word_letter_at(words, i))
}

/// The fitness function for an attack with known plaintext: a text scores the
/// number of places at which it agrees with what is known of the plaintext.
#[derive(Debug)]
pub struct KnownPlainTextFitness {
    plaintext: Vec<u8>,
}

impl View for KnownPlainTextFitness {
    type V = Seq<u8>;

    closed spec fn view(&self) -> Seq<u8> {
        self.plaintext@
    }
}

impl KnownPlainTextFitness {
    /// The plaintext is known in full.
    pub fn exact_message(str: &str) -> (r: Self)
        requires
            is_upper_text(str@),
            str@.len() > 0,
        ensures
            r@ == text_bytes(str@),
    {
        proof {
            lemma_upper_text_bytes(str);
        }
        let bytes = str.as_bytes();
        let mut plaintext: Vec<u8> = Vec::new();
        let mut i: usize = 0;
        while i < bytes.len()
            invariant
                i <= bytes@.len(),
                bytes@.len() == str@.len(),
                forall|k: int| 0 <= k < str@.len() ==> #[trigger] bytes@[k] == str@[k] as u8,
                plaintext@.len() == i,
                forall|k: int| 0 <= k < i ==> #[trigger] plaintext@[k] == str@[k] as u8,
            decreases bytes@.len() - i,
        {
            plaintext.push(bytes[i]);
            i += 1;
        }
        Self { plaintext }
    }

    /// Some words of the plaintext are known, each with the place at which it
    /// starts. Where words overlap, the later word of the list counts.
    pub fn from_words(words: &[(&str, usize)]) -> (r: Self)
        requires
            words@.len() > 0,
            words_fit(words@),
        ensures
            r@ == words_plaintext(words@),
    {
        let mut len: usize = 0;
        let mut n: usize = 0;
        while n < words.len()
            invariant
                n <= words@.len(),
                words_fit(words@),
                len == words_length(words@.take(n as int)),
            decreases words@.len() - n,
        {
            let (word, pos) = words[n];
            proof {
                lemma_upper_text_bytes(word);
                assert(words@.take(n + 1).drop_last() == words@.take(n as int));
            }
            let end = pos + word.len();
            if end > len {
                len = end;
            }
            n += 1;
        }
        assert(words@.take(n as int) == words@);
        let mut plaintext: Vec<u8> = vec![0u8; len];
        n = 0;
        while n < words.len()
            invariant
                n <= words@.len(),
                words_fit(words@),
                len == words_length(words@),
                plaintext@.len() == len,
                forall|i: int|
                    0 <= i < len ==> #[trigger] plaintext@[i] == word_letter_at(
                        words@.take(n as int),
                        i,
                    ),
            decreases words@.len() - n,
        {
            let (word, pos) = words[n];
            let ghost done = words@.take(n as int);
            let ghost next = words@.take(n + 1);
            proof {
                lemma_upper_text_bytes(word);
                assert(next.drop_last() == done);
                assert(next.last() == words@[n as int]);
                lemma_words_length_covers(words@, n as int);
            }
            let bytes = word.as_bytes();
            let mut k: usize = 0;
            while k < bytes.len()
                invariant
                    k <= bytes@.len(),
                    bytes@.len() == word@.len(),
                    pos + word@.len() <= len,
                    forall|m: int| 0 <= m < word@.len() ==> #[trigger] bytes@[m] == word@[m] as u8,
                    plaintext@.len() == len,
                    forall|i: int|
                        0 <= i < len ==> #[trigger] plaintext@[i] == if pos <= i < pos + k {
                            word@[i - pos] as u8
                        } else {
                            word_letter_at(done, i)
                        },
                decreases bytes@.len() - k,
            {
                plaintext[pos + k] = bytes[k];
                k += 1;
            }
            n += 1;
        }
        assert(plaintext@ =~= words_plaintext(words@));
        Self { plaintext }
    }
}

/// The plaintext is long enough for every word of the list.
proof fn lemma_words_length_covers(words: Seq<(&str, usize)>, k: int)
    requires
        0 <= k < words.len(),
    ensures
        words[k].1 + words[k].0@.len() <= words_length(words),
        0 <= words_length(words),
    decreases words.len(),
{
    if k < words.len() - 1 {
        lemma_words_length_covers(words.drop_last(), k);
    } else if words.len() > 1 {
        lemma_words_length_covers(words.drop_last(), 0);
    }
}

impl FitnessFunction for KnownPlainTextFitness {
    open spec fn fitness(&self, text: Seq<char>) -> int {
        known_fitness(self@, text)
    }

    fn score(&self, text: &str) -> (s: i64) {
        proof {
            lemma_upper_text_bytes(text);
        }
        let bytes = text.as_bytes();
        let n = if self.plaintext.len() <= bytes.len() {
            self.plaintext.len()
        } else {
            bytes.len()
        };
        let mut count: i64 = 0;
        let mut i: usize = 0;
        while i < n
            invariant
                i <= n,
                n <= bytes@.len(),
                n <= self.plaintext@.len(),
                bytes@.len() == text@.len(),
                text@.len() <= TEXT_LIMIT,
                forall|k: int| 0 <= k < text@.len() ==> #[trigger] bytes@[k] == text@[k] as u8,
                count == matches_upto(self.plaintext@, text@, i as int),
                0 <= count <= i,
            decreases n - i,
        {
            if self.plaintext[i] == bytes[i] {
                count += 1;
            }
            i += 1;
        }
        count
    }
}

/// The longest run of letters that a table can be made for.
pub const MAX_NGRAM: usize = 6;

/// The score of a run of letters that the data does not list: the logarithm
/// to base 10 of 3e-10, in millionths.
pub const NGRAM_FLOOR: i64 = -9_522_879;

/// The number of runs of `n` letters.
pub open spec fn table_size(n: nat) -> nat
    decreases n,
{
    if n == 0 {
        1
    } else {
        26 * table_size((n - 1) as nat)
    }
}

/// The number of a run of letters: the letters read as the digits of a number
/// to base 26, the first letter being the leading digit.
pub open spec fn ngram_index(gram: Seq<char>) -> int
    decreases gram.len(),
{
    if gram.len() == 0 {
        0
    } else {
        ngram_index(gram.drop_last()) * 26 + letter_index(gram.last())
    }
}

/// The runs of `n` upper-case letters are numbered from 0 to the size of the
/// table for `n`.
pub proof fn lemma_ngram_index_bounds(gram: Seq<char>)
    requires
        is_upper_text(gram),
    ensures
        0 <= ngram_index(gram) < table_size(gram.len()),
    decreases gram.len(),
{
    if gram.len() > 0 {
        lemma_ngram_index_bounds(gram.drop_last());
    }
}

/// What is wrong with a line of data.
#[derive(Debug, Copy, Clone, PartialEq, Eq, Structural)]
pub enum LineFault {
    /// The line holds no comma.
    MissingComma,
    /// What stands before the first comma is not a run of upper-case letters
    /// of the right length.
    InvalidKey,
    /// What stands behind the first comma is no number as floats are written.
    InvalidValue,
}

/// What a line of data says: the number of a run of letters and its score in
/// millionths; or what is wrong with the line.
pub open spec fn line_entry(line: Seq<char>, n: nat) -> Result<(int, int), LineFault> {
    let comma = find_char(line, ',', 0);
    if comma >= line.len() {
        Err(LineFault::MissingComma)
    } else if comma != n || !is_upper_text(line.take(comma)) {
        Err(LineFault::InvalidKey)
    } else {
        match parse_millionths(line.skip(comma + 1)) {
            None => Err(LineFault::InvalidValue),
            Some(v) => Ok((ngram_index(line.take(comma)), v)),
        }
    }
}

/// Finds the first comma of a line of data, checks that a run of `n`
/// upper-case letters stands before it, and numbers that run. Gives the
/// number of the run and the place of the comma.
pub fn read_key(line: &str, n: usize) -> (r: Result<(usize, usize), LineFault>)
    requires
        1 <= n <= MAX_NGRAM,
    ensures
        match r {
            Ok((index, comma)) => {
                &&& comma == find_char(line@, ',', 0)
                &&& comma == n
                &&& comma < line@.len()
                &&& is_upper_text(line@.take(comma as int))
                &&& index == ngram_index(line@.take(comma as int))
                &&& index < table_size(n as nat)
            },
            Err(LineFault::MissingComma) => find_char(line@, ',', 0) >= line@.len(),
            Err(LineFault::InvalidKey) => {
                &&& find_char(line@, ',', 0) < line@.len()
                &&& (find_char(line@, ',', 0) != n || !is_upper_text(
                    line@.take(find_char(line@, ',', 0)),
                ))
            },
            Err(LineFault::InvalidValue) => false,
        },
{
    let len = line.unicode_len();
    let mut comma: usize = 0;
    let mut found = false;
    while comma < len && !found
        invariant
            comma <= len,
            len == line@.len(),
            find_char(line@, ',', 0) == find_char(line@, ',', comma as int),
            found ==> comma < len && line@[comma as int] == ',',
        decreases len - comma, if found { 0int } else { 1int },
    {
        if line.get_char(comma) == ',' {
            found = true;
        } else {
            comma += 1;
        }
    }
    if !found {
        return Err(LineFault::MissingComma);
    }
    if comma != n {
        return Err(LineFault::InvalidKey);
    }
    let ghost key = line@.take(comma as int);
    let mut index: usize = 0;
    let mut k: usize = 0;
    while k < n
        invariant
            k <= n,
            n == comma,
            n <= MAX_NGRAM,
            comma < line@.len(),
            comma == find_char(line@, ',', 0),
            key == line@.take(comma as int),
            is_upper_text(key.take(k as int)),
            index == ngram_index(key.take(k as int)),
            index < table_size(k as nat),
            table_size(k as nat) <= 308_915_776,
        decreases n - k,
    {
        let c = line.get_char(k);
        assert(key[k as int] == c);
        if !('A' <= c && c <= 'Z') {
            return Err(LineFault::InvalidKey);
        }
        proof {
            assert(key.take(k + 1).drop_last() == key.take(k as int));
            lemma_table_size_within(k as nat, n as nat);
        }
        index = index * 26 + (c as u8 - 65u8) as usize;
        k += 1;
    }
    assert(key.take(n as int) == key);
    Ok((index, comma))
}

/// Tables for runs of up to six letters fit in memory that 32 bits can
/// address.
pub proof fn lemma_table_size_within(k: nat, n: nat)
    requires
        k < n <= MAX_NGRAM,
    ensures
        table_size(k + 1) <= 308_915_776,
        table_size(k + 1) == 26 * table_size(k),
{
    reveal_with_fuel(table_size, 8);
}

/// The table that the first `count` lines of data stand for: every run of
/// letters has the score of the last of these lines that lists it, and the
/// score of an unlisted run where none does.
pub open spec fn table_upto(lines: Seq<&str>, n: nat, count: int) -> Seq<i64>
    decreases count,
{
    if count <= 0 {
        Seq::new(table_size(n), |i: int| NGRAM_FLOOR)
    } else {
        let before = table_upto(lines, n, count - 1);
        match line_entry(lines[count - 1]@, n) {
            Ok((index, value)) => before.update(index, value as i64),
            Err(_) => before,
        }
    }
}

/// The sum of the scores of the first `windows` runs of `n` letters of a
/// text.
pub open spec fn ngram_sum(table: Seq<i64>, text: Seq<char>, n: nat, windows: int) -> int
    decreases windows,
{
    if windows <= 0 {
        0
    } else {
        ngram_sum(table, text, n, windows - 1) + table[ngram_index(
            text.subrange(windows - 1, windows - 1 + n),
        )]
    }
}

/// The number kept within what a score can hold.
pub open spec fn clamp_score(x: int) -> int {
    if x > i64::MAX {
        i64::MAX as int
    } else if x < i64::MIN {
        i64::MIN as int
    } else {
        x
    }
}

/// One of the first `windows` runs of `n` letters of a text has a score that
/// is not a number.
pub open spec fn ngram_undefined(table: Seq<i64>, text: Seq<char>, n: nat, windows: int) -> bool
    decreases windows,
{
    if windows <= 0 {
        false
    } else {
        ngram_undefined(table, text, n, windows - 1) || table[ngram_index(
            text.subrange(windows - 1, windows - 1 + n),
        )] == NOT_A_NUMBER
    }
}

/// The sum of the scores of all runs of `n` letters of a text, every place at
/// which a run starts counted once, kept within what a score can hold. Where
/// the score of one of the runs is not a number, the text has the lowest
/// score.
pub open spec fn ngram_fitness(table: Seq<i64>, text: Seq<char>, n: nat) -> int {
    if ngram_undefined(table, text, n, text.len() - n + 1) {
        SCORE_FLOOR as int
    } else {
        clamp_score(ngram_sum(table, text, n, text.len() - n + 1))
    }
}

/// Why a table could not be made.
#[derive(Debug, Copy, Clone, PartialEq, Eq, Structural)]
pub enum NgramError {
    /// Tables are made for runs of one to six letters.
    UnsupportedLength,
    /// The line with this index is at fault, in this way.
    Line(usize, LineFault),
}

/// The fitness function that scores a text by how common its runs of `N`
/// letters are: the sum of the logarithms of their probabilities, in
/// millionths.
#[derive(Debug)]
pub struct NgramFitness<const N: usize> {
    ngrams: Vec<i64>,
}

impl<const N: usize> View for NgramFitness<N> {
    type V = Seq<i64>;

    closed spec fn view(&self) -> Seq<i64> {
        self.ngrams@
    }
}

impl<const N: usize> NgramFitness<N> {
    /// The table has one entry for every run of `N` letters.
    #[verifier::type_invariant]
    pub open spec fn inv(self) -> bool {
        1 <= N <= MAX_NGRAM && self@.len() == table_size(N as nat)
    }

    /// Makes the table from lines of data `KEY,VALUE`, where `KEY` is a run of
    /// `N` upper-case letters and `VALUE` a number as floats are written. A
    /// value is kept in millionths, rounded towards zero; one beyond
    /// 9223372036854.775807 in size, or written `inf`, is kept at that size;
    /// one written `NaN` gives every text that holds its run the lowest
    /// score. Runs that no line lists score as unlisted; of two lines for one
    /// run the later counts. Every line has to be well formed, and `N` has to
    /// be from 1 to 6; [`NgramFitness::check_lines`] says whether that is so.
    pub fn new(lines: &[&str]) -> (r: Self)
        requires
            1 <= N <= MAX_NGRAM,
            forall|k: int| 0 <= k < lines@.len() ==> (#[trigger] line_entry(lines@[k]@, N as nat)) is Ok,
        ensures
            r@ == table_upto(lines@, N as nat, lines@.len() as int),
    {
        let mut num_ngrams: usize = 1;
        let mut k: usize = 0;
        while k < N
            invariant
                k <= N <= MAX_NGRAM,
                num_ngrams == table_size(k as nat),
                num_ngrams <= 308_915_776,
            decreases N - k,
        {
            proof {
                lemma_table_size_within(k as nat, N as nat);
            }
            num_ngrams = num_ngrams * 26;
            k += 1;
        }
        let mut store: Vec<i64> = vec![NGRAM_FLOOR; num_ngrams];
        let mut i: usize = 0;
        while i < lines.len()
            invariant
                i <= lines@.len(),
                1 <= N <= MAX_NGRAM,
                store@.len() == table_size(N as nat),
                forall|k: int|
                    0 <= k < lines@.len() ==> (#[trigger] line_entry(lines@[k]@, N as nat)) is Ok,
                store@ == table_upto(lines@, N as nat, i as int),
            decreases lines@.len() - i,
        {
            let line = lines[i];
            assert(line_entry(lines@[i as int]@, N as nat) is Ok);
            let (index, comma) = match read_key(line, N) {
                Ok(found) => found,
                Err(_) => vstd::pervasive::unreached(),
            };
            let value = match read_value(line, comma + 1) {
                Some(value) => value,
                None => vstd::pervasive::unreached(),
            };
            store[index] = value;
            i += 1;
        }
        Self { ngrams: store }
    }

    /// Says whether a table can be made from lines of data, and if not, which
    /// line is the first that is at fault, and how. A line is well formed
    /// where a run of exactly `N` upper-case letters stands before its first
    /// comma, and behind it a number as floats are written.
    pub fn check_lines(lines: &[&str]) -> (r: Result<(), NgramError>)
        ensures
            match r {
                Ok(_) => {
                    &&& 1 <= N <= MAX_NGRAM
                    &&& forall|k: int|
                        0 <= k < lines@.len() ==> (#[trigger] line_entry(lines@[k]@, N as nat)) is Ok
                },
                Err(NgramError::UnsupportedLength) => !(1 <= N <= MAX_NGRAM),
                Err(NgramError::Line(k, fault)) => {
                    &&& 1 <= N <= MAX_NGRAM
                    &&& k < lines@.len()
                    &&& forall|j: int| 0 <= j < k ==> (#[trigger] line_entry(lines@[j]@, N as nat)) is Ok
                    &&& line_entry(lines@[k as int]@, N as nat) == Err::<(int, int), LineFault>(
                        fault,
                    )
                },
            },
    {
        if N < 1 || N > MAX_NGRAM {
            return Err(NgramError::UnsupportedLength);
        }
        let mut i: usize = 0;
        while i < lines.len()
            invariant
                i <= lines@.len(),
                1 <= N <= MAX_NGRAM,
                forall|j: int| 0 <= j < i ==> (#[trigger] line_entry(lines@[j]@, N as nat)) is Ok,
            decreases lines@.len() - i,
        {
            let line = lines[i];
            match read_key(line, N) {
                Err(fault) => {
                    return Err(NgramError::Line(i, fault));
                },
                Ok((_, comma)) => {
                    if read_value(line, comma + 1).is_none() {
                        return Err(NgramError::Line(i, LineFault::InvalidValue));
                    }
                },
            }
            i += 1;
        }
        Ok(())
    }

    /// The number of the run of `N` upper-case letters, given as bytes, that
    /// starts at place `from`.
    fn index(bytes: &[u8], from: usize) -> (r: usize)
        requires
            1 <= N <= MAX_NGRAM,
            from + N <= bytes@.len(),
            from + N <= usize::MAX,
            forall|i: int| from <= i < from + N ==> 65 <= #[trigger] bytes@[i] <= 90,
        ensures
            r == ngram_index(Seq::new(N as nat, |i: int| bytes@[from + i] as char)),
            r < table_size(N as nat),
    {
        let ghost gram = Seq::new(N as nat, |i: int| bytes@[from + i] as char);
        let mut index: usize = 0;
        let mut k: usize = 0;
        while k < N
            invariant
                k <= N <= MAX_NGRAM,
                from + N <= bytes@.len(),
                from + N <= usize::MAX,
                gram == Seq::new(N as nat, |i: int| bytes@[from + i] as char),
                forall|i: int| from <= i < from + N ==> 65 <= #[trigger] bytes@[i] <= 90,
                is_upper_text(gram.take(k as int)),
                index == ngram_index(gram.take(k as int)),
                index < table_size(k as nat),
                table_size(k as nat) <= 308_915_776,
            decreases N - k,
        {
            let b = bytes[from + k];
            proof {
                assert(gram.take(k + 1).drop_last() == gram.take(k as int));
                assert forall|i: int| 0 <= i < k + 1 implies is_upper(
                    #[trigger] gram.take(k + 1)[i],
                ) by {
                    if i < k {
                        assert(gram.take(k as int)[i] == gram.take(k + 1)[i]);
                    }
                }
                lemma_table_size_within(k as nat, N as nat);
            }
            index = index * 26 + (b - 65u8) as usize;
            k += 1;
        }
        assert(gram.take(N as int) == gram);
        index
    }
}

impl<const N: usize> FitnessFunction for NgramFitness<N> {
    open spec fn fitness(&self, text: Seq<char>) -> int {
        ngram_fitness(self@, text, N as nat)
    }

    fn score(&self, text: &str) -> (s: i64) {
        proof {
            use_type_invariant(self);
            lemma_upper_text_bytes(text);
        }
        let bytes = text.as_bytes();
        let len = bytes.len();
        if len < N {
            return 0;
        }
        let windows = len - N + 1;
        let mut sum: i128 = 0;
        let mut undefined = false;
        let mut w: usize = 0;
        while w < windows
            invariant
                w <= windows,
                windows == len - N + 1,
                1 <= N <= MAX_NGRAM,
                len == bytes@.len(),
                len == text@.len(),
                len <= TEXT_LIMIT,
                is_upper_text(text@),
                forall|k: int| 0 <= k < len ==> #[trigger] bytes@[k] == text@[k] as u8,
                self.ngrams@.len() == table_size(N as nat),
                sum == ngram_sum(self.ngrams@, text@, N as nat, w as int),
                undefined == ngram_undefined(self.ngrams@, text@, N as nat, w as int),
                -(w * 0x8000_0000_0000_0000) <= sum <= w * 0x8000_0000_0000_0000,
            decreases windows - w,
        {
            proof {
                assert forall|k: int| w <= k < w + N implies 65 <= #[trigger] bytes@[k] <= 90 by {
                    assert(is_upper(text@[k]));
                }
                assert forall|k: int| w <= k < w + N implies #[trigger] text@[k] == bytes@[k] as char by {
                    assert(is_upper(text@[k]));
                }
                assert(text@.subrange(w as int, w + N) =~= Seq::new(
                    N as nat,
                    |i: int| bytes@[w + i] as char,
                ));
            }
            let index = Self::index(bytes, w);
            let entry = self.ngrams[index];
            if entry == NOT_A_NUMBER {
                undefined = true;
            }
            sum = sum + entry as i128;
            w += 1;
        }
        if undefined {
            SCORE_FLOOR
        } else if sum > i64::MAX as i128 {
            i64::MAX
        } else if sum < i64::MIN as i128 {
            i64::MIN
        } else {
            sum as i64
        }
    }
}

} // verus!
