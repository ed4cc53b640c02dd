//! Word lists and test-text generation.
//!
//! Two vocabularies ship with `typr`: `english`, the most frequent words in the
//! language, and `english_extended`, which adds longer and less common words.
//! Both can be decorated with punctuation and numbers the way monkeytype does.
//!
//! Every random choice goes through one [`Rng`], so the same seed gives the same
//! text; the specifications below say exactly which text that is.
use vstd::prelude::*;

use crate::engine::texts;
use crate::rng::{advance, below_spec, draw_fuel, mix, Rng};
use crate::text::{
    bare, decimal, decimal_u64, lemma_pieces_are_bare, owned, pieces, push_char, push_str, same_text, split_pieces, views, Separator,
};
use crate::words_data::{ENGLISH, ENGLISH_EXTENDED, SENTENCES};

verus! {

/// What `char::to_uppercase` yields for a character.
pub uninterp spec fn uppercase(c: char) -> Seq<char>;

/// The uppercase form of one character: `char::to_uppercase`, collected.
/// Nothing is claimed about which characters it yields.
#[verifier::external_body]
fn upper(c: char) -> (s: String)
    ensures
        s@ == uppercase(c),
{
    c.to_uppercase().collect()
}

/// Names of the available word lists.
pub fn list_names() -> (r: Vec<&'static str>)
    ensures
        views(r@) == seq!["english"@, "english_extended"@],
{
    let mut names: Vec<&'static str> = Vec::new();
    names.push("english");
    names.push("english_extended");
    assert(views(names@) =~= seq!["english"@, "english_extended"@]);
    names
}

/// The words of a list, if the name is one of the lists.
pub open spec fn vocabulary_spec(name: Seq<char>) -> Option<Seq<Seq<char>>> {
    if name == "english"@ {
        Some(pieces(Separator::Whitespace, ENGLISH@))
    } else if name == "english_extended"@ {
        Some(pieces(Separator::Whitespace, ENGLISH_EXTENDED@))
    } else {
        None
    }
}

/// The raw vocabulary behind a list name.
pub fn vocabulary(name: &str) -> (r: Option<Vec<&'static str>>)
    ensures
        match (r, vocabulary_spec(name@)) {
            (Some(v), Some(w)) => views(v@) == w,
            (None, None) => true,
            _ => false,
        },
{
    if same_text(name, "english") {
        Some(split_pieces(ENGLISH, Separator::Whitespace))
    } else if same_text(name, "english_extended") {
        Some(split_pieces(ENGLISH_EXTENDED, Separator::Whitespace))
    } else {
        None
    }
}

/// The vocabulary `generate` draws from: the named list, or `english` when the
/// name is unknown.
pub open spec fn vocabulary_or_default(name: Seq<char>) -> Seq<Seq<char>> {
    match vocabulary_spec(name) {
        Some(w) => w,
        None => pieces(Separator::Whitespace, ENGLISH@),
    }
}

/// Every word of every list, the default list among them, is non-empty and
/// holds no whitespace, so trimming leaves it as it is.
pub proof fn lemma_listed_words_are_bare(name: Seq<char>)
    ensures
        forall|k: int|
            0 <= k < vocabulary_or_default(name).len() ==> bare(
                Separator::Whitespace,
                #[trigger] vocabulary_or_default(name)[k],
            ),
        vocabulary_spec(name) is Some ==> vocabulary_spec(name) == Some(vocabulary_or_default(name)),
{
    lemma_pieces_are_bare(Separator::Whitespace, ENGLISH@);
    lemma_pieces_are_bare(Separator::Whitespace, ENGLISH_EXTENDED@);
}

/// Draws an index below `n`, and the generator state after.
pub open spec fn pick_index(state: u64, n: int) -> (int, u64) {
    let r = below_spec(state, n as u64, draw_fuel());
    (r.0 as int, r.1)
}

/// The quote sentences.
pub open spec fn sentences() -> Seq<Seq<char>> {
    pieces(Separator::Newline, SENTENCES@)
}

/// The words of the sentence a quote test would use.
pub open spec fn quote_words_spec(state: u64) -> (Seq<Seq<char>>, u64) {
    let (i, next) = pick_index(state, sentences().len() as int);
    (pieces(Separator::Whitespace, sentences()[i]), next)
}

/// A random sentence for quote mode, as a list of words.
pub fn quote_words(rng: &mut Rng) -> (r: Vec<String>)
    ensures
        sentences().len() > 0 ==> texts(r@) == quote_words_spec(old(rng).state).0 && final(rng).state
            == quote_words_spec(old(rng).state).1,
        sentences().len() == 0 ==> r@.len() == 0 && *final(rng) == *old(rng),
{
    let lines = split_pieces(SENTENCES, Separator::Newline);
    if lines.len() == 0 {
        return Vec::new();
    }
    let sentence = *rng.pick(lines.as_slice());
    let pieces = split_pieces(sentence, Separator::Whitespace);
    owned_all(&pieces)
}

/// Owned copies of string slices.
fn owned_all(v: &Vec<&str>) -> (r: Vec<String>)
    ensures
        texts(r@) == views(v@),
{
    let mut out: Vec<String> = Vec::new();
    let mut i: usize = 0;
    while i < v.len()
        invariant
            i <= v@.len(),
            texts(out@) == views(v@).subrange(0, i as int),
        decreases v@.len() - i,
    {
        let ghost before = texts(out@);
        out.push(owned(v[i]));
        assert(texts(out@) =~= before.push(v@[i as int]@));
        i = i + 1;
        assert(texts(out@) =~= views(v@).subrange(0, i as int));
    }
    assert(views(v@).subrange(0, v@.len() as int) =~= views(v@));
    out
}

/// What to mix into otherwise plain text.
#[derive(Clone, Copy, Debug, Default, PartialEq, Eq, Structural)]
pub struct Decoration {
    pub punctuation: bool,
    pub numbers: bool,
}

/// The first word of `vocab`, from position `from` on, that is not `word`.
pub open spec fn first_other(vocab: Seq<Seq<char>>, word: Seq<char>, from: int) -> Option<Seq<char>>
    decreases vocab.len() - from,
{
    if from < 0 || from >= vocab.len() {
        None
    } else if vocab[from] != word {
        Some(vocab[from])
    } else {
        first_other(vocab, word, from + 1)
    }
}

/// Draws a word that differs from `previous`, redrawing at most `fuel` times;
/// once the redraws are spent, the first word of the list that differs from
/// `previous` is taken (the drawn one, where every word equals it).
pub open spec fn draw_spec(vocab: Seq<Seq<char>>, previous: Option<Seq<char>>, state: u64, fuel: nat) -> (
    Seq<char>,
    u64,
)
    decreases fuel,
{
    let (i, next) = pick_index(state, vocab.len() as int);
    let word = vocab[i];
    if previous != Some(word) {
        (word, next)
    } else if fuel == 0 {
        match first_other(vocab, word, 0) {
            Some(other) => (other, next),
            None => (word, next),
        }
    } else {
        draw_spec(vocab, previous, next, (fuel - 1) as nat)
    }
}

/// The list holds two words that differ.
pub open spec fn has_two_words(vocab: Seq<Seq<char>>) -> bool {
    exists|i: int, j: int| 0 <= i < vocab.len() && 0 <= j < vocab.len() && vocab[i] != vocab[j]
}

/// `count` words, each drawn so that it differs from the one before.
pub open spec fn random_words_spec(vocab: Seq<Seq<char>>, count: nat, state: u64) -> (Seq<Seq<char>>, u64)
    decreases count,
{
    if count == 0 {
        (Seq::empty(), state)
    } else {
        let (words, next) = random_words_spec(vocab, (count - 1) as nat, state);
        let previous = if words.len() > 0 { Some(words.last()) } else { None };
        let (word, after) = draw_spec(vocab, previous, next, draw_fuel());
        (words.push(word), after)
    }
}

/// Below this, the next 53 random bits read as a fraction under 0.12.
pub const NUMBER_ODDS: u64 = 1080863910568919;

/// Below this, the next 53 random bits read as a fraction under 0.06.
pub const WRAP_ODDS: u64 = 540431955284460;

/// Below this, the next 53 random bits read as a fraction under 0.10.
pub const POSSESSIVE_ODDS: u64 = 900719925474100;

/// Below this, the next 53 random bits read as a fraction under 0.30.
pub const MARK_ODDS: u64 = 2702159776422298;

/// The largest number with `digits` decimal digits.
pub open spec fn largest_with_digits(digits: int) -> int {
    if digits == 1 {
        9
    } else if digits == 2 {
        99
    } else if digits == 3 {
        999
    } else {
        9999
    }
}

/// One word, possibly replaced by a number of one to four digits.
pub open spec fn number_word_spec(word: Seq<char>, state: u64) -> (Seq<char>, u64) {
    let next = advance(state);
    if mix(next) >> 11u64 < NUMBER_ODDS {
        let (d, s2) = pick_index(next, 4);
        let ceiling = largest_with_digits(1 + d);
        let (value, s3) = pick_index(s2, ceiling + 1);
        (decimal(value as nat), s3)
    } else {
        (word, next)
    }
}

/// The first `n` words after numbers have been mixed in.
pub open spec fn numbers_prefix(words: Seq<Seq<char>>, n: int, state: u64) -> (Seq<Seq<char>>, u64)
    decreases n,
{
    if n <= 0 {
        (Seq::empty(), state)
    } else {
        let (done, next) = numbers_prefix(words, n - 1, state);
        let (word, after) = number_word_spec(words[n - 1], next);
        (done.push(word), after)
    }
}

pub open spec fn punctuation_marks() -> Seq<char> {
    seq!['.', '.', '.', ',', ',', ';', ':', '!', '?']
}

pub open spec fn brackets() -> Seq<(char, char)> {
    seq![('(', ')'), ('"', '"'), ('\'', '\''), ('[', ']')]
}

pub open spec fn ends_sentence(c: char) -> bool {
    c == '.' || c == '!' || c == '?'
}

pub open spec fn is_opener(c: char) -> bool {
    c == '(' || c == '"' || c == '\'' || c == '['
}

/// The first character uppercased, the rest left alone.
pub open spec fn upcase_first_spec(w: Seq<char>) -> Seq<char> {
    if w.len() == 0 {
        w
    } else {
        uppercase(w[0]) + w.drop_first()
    }
}

/// Capitalizes the first letter, even behind an opening bracket or quote.
pub open spec fn capitalize_spec(w: Seq<char>) -> Seq<char> {
    if w.len() == 0 {
        w
    } else if is_opener(w[0]) {
        seq![w[0]] + upcase_first_spec(w.drop_first())
    } else {
        upcase_first_spec(w)
    }
}

/// A word with a punctuation mark after it, and whether the mark ends a
/// sentence.
pub open spec fn append_mark_spec(word: Seq<char>, state: u64) -> (Seq<char>, bool, u64) {
    let (i, next) = pick_index(state, 9);
    let mark = punctuation_marks()[i];
    (word.push(mark), ends_sentence(mark), next)
}

/// A word inside a pair of brackets or quotes.
pub open spec fn wrap_spec(word: Seq<char>, state: u64) -> (Seq<char>, u64) {
    let (i, next) = pick_index(state, 4);
    let (open, close) = brackets()[i];
    (seq![open] + word + seq![close], next)
}

/// One word, possibly bracketed, made possessive or followed by a mark; and
/// whether it now ends a sentence.
pub open spec fn punctuate_spec(word: Seq<char>, state: u64) -> (Seq<char>, bool, u64) {
    let next = advance(state);
    let roll = mix(next) >> 11u64;
    if roll < WRAP_ODDS {
        let (w, after) = wrap_spec(word, next);
        (w, false, after)
    } else if roll < POSSESSIVE_ODDS {
        (word + seq!['\'', 's'], false, next)
    } else if roll < MARK_ODDS {
        append_mark_spec(word, next)
    } else {
        (word, false, next)
    }
}

/// The first `n` words punctuated, whether the next word starts a sentence,
/// and the generator state after.
pub open spec fn punctuation_prefix(words: Seq<Seq<char>>, n: int, state: u64) -> (Seq<Seq<char>>, bool, u64)
    decreases n,
{
    if n <= 0 {
        (Seq::empty(), true, state)
    } else {
        let (done, sentence_start, next) = punctuation_prefix(words, n - 1, state);
        let (word, ends, after) = punctuate_spec(words[n - 1], next);
        (done.push(if sentence_start { capitalize_spec(word) } else { word }), ends, after)
    }
}

/// The text a test is made of, and the generator state after making it.
pub open spec fn generate_spec(list: Seq<char>, count: nat, decoration: Decoration, state: u64) -> (
    Seq<Seq<char>>,
    u64,
) {
    let vocab = vocabulary_or_default(list);
    if vocab.len() == 0 {
        (Seq::empty(), state)
    } else {
        let (plain, s1) = random_words_spec(vocab, count, state);
        let (numbered, s2) = if decoration.numbers {
            numbers_prefix(plain, plain.len() as int, s1)
        } else {
            (plain, s1)
        };
        if decoration.punctuation {
            let r = punctuation_prefix(numbered, numbered.len() as int, s2);
            (r.0, r.2)
        } else {
            (numbered, s2)
        }
    }
}

proof fn lemma_draw_from(vocab: Seq<Seq<char>>, previous: Option<Seq<char>>, state: u64, fuel: nat)
    requires
        0 < vocab.len() <= u64::MAX,
    ensures
        vocab.contains(draw_spec(vocab, previous, state, fuel).0),
    decreases fuel,
{
    let (i, next) = pick_index(state, vocab.len() as int);
    crate::rng::lemma_below_in_range(state, vocab.len() as u64, draw_fuel());
    assert(vocab[i] == vocab[i]);
    if previous == Some(vocab[i]) {
        if fuel == 0 {
            lemma_first_other(vocab, vocab[i], 0);
        } else {
            lemma_draw_from(vocab, previous, next, (fuel - 1) as nat);
        }
    }
}

proof fn lemma_first_other(vocab: Seq<Seq<char>>, word: Seq<char>, from: int)
    ensures
        match first_other(vocab, word, from) {
            Some(w) => w != word && vocab.contains(w),
            None => forall|k: int| 0 <= from <= k < vocab.len() ==> vocab[k] == word,
        },
    decreases vocab.len() - from,
{
    if 0 <= from < vocab.len() {
        if vocab[from] != word {
            assert(vocab[from] == vocab[from]);
        } else {
            lemma_first_other(vocab, word, from + 1);
            if first_other(vocab, word, from + 1) is None {
                assert forall|k: int| 0 <= from <= k < vocab.len() implies vocab[k] == word by {
                    if k > from {
                    }
                }
            }
        }
    }
}

/// With two different words in the list, a draw never repeats the word
/// before it.
proof fn lemma_draw_differs(vocab: Seq<Seq<char>>, previous: Seq<char>, state: u64, fuel: nat)
    requires
        0 < vocab.len() <= u64::MAX,
        has_two_words(vocab),
    ensures
        draw_spec(vocab, Some(previous), state, fuel).0 != previous,
    decreases fuel,
{
    let (i, next) = pick_index(state, vocab.len() as int);
    crate::rng::lemma_below_in_range(state, vocab.len() as u64, draw_fuel());
    if Some(previous) == Some(vocab[i]) {
        if fuel == 0 {
            lemma_first_other(vocab, vocab[i], 0);
            let (a, b) = choose|a: int, b: int|
                0 <= a < vocab.len() && 0 <= b < vocab.len() && vocab[a] != vocab[b];
            if first_other(vocab, vocab[i], 0) is None {
                assert(vocab[a] == vocab[i] && vocab[b] == vocab[i]);
            }
        } else {
            lemma_draw_differs(vocab, previous, next, (fuel - 1) as nat);
        }
    }
}

proof fn lemma_random_words(vocab: Seq<Seq<char>>, count: nat, state: u64)
    requires
        0 < vocab.len() <= u64::MAX,
    ensures
        random_words_spec(vocab, count, state).0.len() == count,
        forall|k: int|
            0 <= k < count ==> vocab.contains(#[trigger] random_words_spec(vocab, count, state).0[k]),
    decreases count,
{
    if count > 0 {
        lemma_random_words(vocab, (count - 1) as nat, state);
        let (words, next) = random_words_spec(vocab, (count - 1) as nat, state);
        let previous = if words.len() > 0 { Some(words.last()) } else { None };
        lemma_draw_from(vocab, previous, next, draw_fuel());
        let all = random_words_spec(vocab, count, state).0;
        assert forall|k: int| 0 <= k < count implies vocab.contains(#[trigger] all[k]) by {
            if k < count - 1 {
                assert(all[k] == words[k]);
            }
        }
    }
}

proof fn lemma_random_words_differ(vocab: Seq<Seq<char>>, count: nat, state: u64)
    requires
        0 < vocab.len() <= u64::MAX,
        has_two_words(vocab),
    ensures
        random_words_spec(vocab, count, state).0.len() == count,
        forall|k: int|
            0 <= k && k + 1 < count ==> #[trigger] random_words_spec(vocab, count, state).0[k]
                != random_words_spec(vocab, count, state).0[k + 1],
    decreases count,
{
    lemma_random_words(vocab, count, state);
    if count > 0 {
        lemma_random_words_differ(vocab, (count - 1) as nat, state);
        let (words, next) = random_words_spec(vocab, (count - 1) as nat, state);
        let all = random_words_spec(vocab, count, state).0;
        if words.len() > 0 {
            lemma_draw_differs(vocab, words.last(), next, draw_fuel());
        }
        assert forall|k: int| 0 <= k && k + 1 < count implies #[trigger] all[k] != all[k + 1] by {
            assert(all[k] == words[k]);
            if k + 1 < count - 1 {
                assert(all[k + 1] == words[k + 1]);
            }
        }
    }
}

proof fn lemma_numbers_keep_count(words: Seq<Seq<char>>, n: int, state: u64)
    requires
        0 <= n,
    ensures
        numbers_prefix(words, n, state).0.len() == n,
    decreases n,
{
    if n > 0 {
        lemma_numbers_keep_count(words, n - 1, state);
    }
}

proof fn lemma_punctuation_keeps_count(words: Seq<Seq<char>>, n: int, state: u64)
    requires
        0 <= n,
    ensures
        punctuation_prefix(words, n, state).0.len() == n,
    decreases n,
{
    if n > 0 {
        lemma_punctuation_keeps_count(words, n - 1, state);
    }
}

/// A test gets exactly the number of words asked for, and without
/// decorations every word comes from the list asked for (or the default
/// list, for a name that is not one). The lists are data with words in them.
pub proof fn lemma_generate_draws_from_the_list(list: Seq<char>, count: nat, decoration: Decoration, state: u64)
    requires
        0 < vocabulary_or_default(list).len() <= u64::MAX,
    ensures
        generate_spec(list, count, decoration, state).0.len() == count,
        !decoration.numbers && !decoration.punctuation ==> forall|k: int|
            0 <= k < count ==> vocabulary_or_default(list).contains(
                #[trigger] generate_spec(list, count, decoration, state).0[k],
            ),
{
    let vocab = vocabulary_or_default(list);
    lemma_random_words(vocab, count, state);
    let (plain, s1) = random_words_spec(vocab, count, state);
    lemma_numbers_keep_count(plain, plain.len() as int, s1);
    let (numbered, s2) = if decoration.numbers {
        numbers_prefix(plain, plain.len() as int, s1)
    } else {
        (plain, s1)
    };
    lemma_punctuation_keeps_count(numbered, numbered.len() as int, s2);
}

/// Whether `x` is the word `w` as punctuation leaves a word it does not
/// capitalize: as it was, made possessive, followed by one mark, or inside a
/// pair of brackets or quotes.
pub open spec fn dressed(w: Seq<char>, x: Seq<char>) -> bool {
    ||| x == w
    ||| x == w + seq!['\'', 's']
    ||| exists|m: char|
        (m == '.' || m == ',' || m == ';' || m == ':' || m == '!' || m == '?') && x == #[trigger] w.push(m)
    ||| exists|o: char, c: char|
        ((o == '(' && c == ')') || (o == '"' && c == '"') || (o == '\'' && c == '\'') || (o == '[' && c
            == ']')) && x == #[trigger] (seq![o] + w + seq![c])
}

/// Whether a word closes a sentence: it ends with '.', '!' or '?'.
pub open spec fn closes_sentence(x: Seq<char>) -> bool {
    x.len() > 0 && (x.last() == '.' || x.last() == '!' || x.last() == '?')
}

/// Whether a word can be punctuated and capitalized without its last
/// character changing: it is not empty, and not a lone opening bracket or
/// quote.
pub open spec fn plain_word(w: Seq<char>) -> bool {
    w.len() > 0 && !(w.len() == 1 && (w[0] == '(' || w[0] == '"' || w[0] == '\'' || w[0] == '['))
}

/// Whether a word is long enough to show after capitalizing how it ends,
/// does not start with an opening bracket or quote, and does not itself end
/// with '.', '!' or '?'.
pub open spec fn settled_word(w: Seq<char>) -> bool {
    &&& w.len() >= 2
    &&& !(w[0] == '(' || w[0] == '"' || w[0] == '\'' || w[0] == '[')
    &&& !(w.last() == '.' || w.last() == '!' || w.last() == '?')
}

/// Punctuating a word dresses it, and says a sentence ends exactly where it
/// gave the word a '.', '!' or '?'.
proof fn lemma_punctuate_dresses(w: Seq<char>, state: u64)
    ensures
        dressed(w, punctuate_spec(w, state).0),
        punctuate_spec(w, state).1 ==> exists|m: char|
            (m == '.' || m == '!' || m == '?') && punctuate_spec(w, state).0 == #[trigger] w.push(m),
        !punctuate_spec(w, state).1 && settled_word(w) ==> {
            let x = punctuate_spec(w, state).0;
            &&& !closes_sentence(x)
            &&& x.len() >= 2
            &&& !(x.len() == 2 && is_opener(x[0]))
        },
{
    let next = advance(state);
    let roll = mix(next) >> 11u64;
    if roll < WRAP_ODDS {
        let (i, after) = pick_index(next, 4);
        crate::rng::lemma_below_in_range(next, 4, draw_fuel());
        let (o, c) = brackets()[i];
        assert(seq![o] + w + seq![c] == seq![o] + w + seq![c]);
        assert((seq![o] + w + seq![c]).last() == c);
    } else if roll < POSSESSIVE_ODDS {
    } else if roll < MARK_ODDS {
        let (i, after) = pick_index(next, 9);
        crate::rng::lemma_below_in_range(next, 9, draw_fuel());
        let m = punctuation_marks()[i];
        assert(w.push(m) == w.push(m));
        assert(w.push(m)[0] == w[0] || w.len() == 0);
    } else if w.len() > 0 {
        assert((w + seq!['\'', 's']).last() == 's');
        assert((w + seq!['\'', 's'])[0] == w[0]);
    }
}

/// Capitalizing a word of two characters or more, that a lone opening
/// bracket does not start, keeps its last character.
proof fn lemma_capitalize_keeps_last(x: Seq<char>)
    requires
        x.len() >= 2,
        !(x.len() == 2 && is_opener(x[0])),
    ensures
        capitalize_spec(x).len() > 0,
        capitalize_spec(x).last() == x.last(),
{
    if is_opener(x[0]) {
        let y = x.drop_first();
        assert(upcase_first_spec(y) == uppercase(y[0]) + y.drop_first());
        assert(y.drop_first().last() == x.last());
    } else {
        assert(x.drop_first().last() == x.last());
    }
}

proof fn lemma_punctuation_prefix_dresses(words: Seq<Seq<char>>, n: int, state: u64)
    requires
        0 <= n <= words.len(),
        forall|k: int| 0 <= k < n ==> plain_word(#[trigger] words[k]),
    ensures
        ({
            let (out, start, _) = punctuation_prefix(words, n, state);
            &&& out.len() == n
            &&& start ==> n == 0 || closes_sentence(out[n - 1])
            &&& forall|k: int|
                0 < k < n && !closes_sentence(#[trigger] out[k - 1]) ==> dressed(words[k], out[k])
            &&& forall|k: int|
                0 <= k < n ==> dressed(words[k], #[trigger] out[k]) || exists|y: Seq<char>|
                    dressed(words[k], y) && out[k] == #[trigger] capitalize_spec(y)
            &&& n > 0 && !start && settled_word(words[n - 1]) ==> !closes_sentence(out[n - 1])
            &&& n > 0 ==> exists|y: Seq<char>| dressed(words[0], y) && out[0] == #[trigger] capitalize_spec(y)
            &&& forall|k: int|
                0 < k < n && closes_sentence(#[trigger] out[k - 1]) && settled_word(words[k - 1])
                    ==> exists|y: Seq<char>| dressed(words[k], y) && out[k] == #[trigger] capitalize_spec(y)
        }),
    decreases n,
{
    if n > 0 {
        lemma_punctuation_prefix_dresses(words, n - 1, state);
        let (done, sentence_start, next) = punctuation_prefix(words, n - 1, state);
        let w = words[n - 1];
        let (x, ends, after) = punctuate_spec(w, next);
        lemma_punctuate_dresses(w, next);
        let placed = if sentence_start {
            capitalize_spec(x)
        } else {
            x
        };
        let out = done.push(placed);
        assert(punctuation_prefix(words, n, state).0 == out);
        assert(out[n - 1] == placed);
        if ends {
            let m = choose|m: char| (m == '.' || m == '!' || m == '?') && x == #[trigger] w.push(m);
            assert(x.last() == m);
            if sentence_start {
                lemma_capitalize_keeps_last(x);
            }
        }
        assert forall|k: int| 0 < k < n && !closes_sentence(#[trigger] out[k - 1]) implies dressed(
            words[k],
            out[k],
        ) by {
            if k < n - 1 {
                assert(out[k - 1] == done[k - 1]);
                assert(out[k] == done[k]);
            } else {
                assert(out[k - 1] == done[k - 1]);
            }
        }
        assert forall|k: int| 0 <= k < n implies dressed(words[k], #[trigger] out[k]) || exists|y: Seq<char>|
            dressed(words[k], y) && out[k] == #[trigger] capitalize_spec(y) by {
            if k < n - 1 {
                assert(out[k] == done[k]);
            } else if sentence_start {
                assert(dressed(words[k], x) && out[k] == capitalize_spec(x));
            }
        }
        if !ends && settled_word(w) {
            if sentence_start {
                lemma_capitalize_keeps_last(x);
            }
        }
        if n == 1 {
            assert(dressed(words[0], x) && out[0] == capitalize_spec(x));
        } else {
            assert(out[0] == done[0]);
        }
        assert forall|k: int| 0 < k < n && closes_sentence(#[trigger] out[k - 1]) && settled_word(words[k - 1])
            implies exists|y: Seq<char>| dressed(words[k], y) && out[k] == #[trigger] capitalize_spec(y) by {
            assert(out[k - 1] == done[k - 1]);
            if k < n - 1 {
                assert(out[k] == done[k]);
            } else {
                assert(sentence_start);
                assert(dressed(words[k], x) && out[k] == capitalize_spec(x));
            }
        }
    }
}

/// With punctuation on, a word is capitalized at the start of a sentence
/// and nowhere else. The first word, and a word after one that a '.', '!' or
/// '?' ends (where that one was drawn at least two characters long, with no
/// opening bracket or quote and no such mark of its own), is the word drawn,
/// dressed and capitalized; any word after one that does not end so, such as
/// one after a ',', ';' or ':', is the word as it was drawn, at most
/// followed by a mark, made possessive or put inside brackets or quotes.
pub proof fn lemma_only_sentences_start_with_capitals(words: Seq<Seq<char>>, state: u64)
    requires
        forall|k: int| 0 <= k < words.len() ==> plain_word(#[trigger] words[k]),
    ensures
        ({
            let out = punctuation_prefix(words, words.len() as int, state).0;
            &&& out.len() == words.len()
            &&& forall|k: int|
                0 < k < out.len() && !closes_sentence(#[trigger] out[k - 1]) ==> dressed(words[k], out[k])
            &&& forall|k: int|
                0 <= k < out.len() ==> dressed(words[k], #[trigger] out[k]) || exists|y: Seq<char>|
                    dressed(words[k], y) && out[k] == #[trigger] capitalize_spec(y)
            &&& out.len() > 0 ==> exists|y: Seq<char>| dressed(words[0], y) && out[0] == #[trigger] capitalize_spec(y)
            &&& forall|k: int|
                0 < k < out.len() && closes_sentence(#[trigger] out[k - 1]) && settled_word(words[k - 1])
                    ==> exists|y: Seq<char>| dressed(words[k], y) && out[k] == #[trigger] capitalize_spec(y)
        }),
{
    lemma_punctuation_prefix_dresses(words, words.len() as int, state);
}

/// In a test generated with punctuation and without numbers, a word that
/// does not follow the end of a sentence is a word of the list exactly as
/// drawn, at most followed by a mark, made possessive or put inside brackets
/// or quotes: never capitalized.
pub proof fn lemma_generated_capitals_start_sentences(list: Seq<char>, count: nat, state: u64)
    requires
        vocabulary_or_default(list).len() <= u64::MAX,
        forall|i: int|
            0 <= i < vocabulary_or_default(list).len() ==> plain_word(#[trigger] vocabulary_or_default(list)[i]),
    ensures
        ({
            let g = generate_spec(list, count, Decoration { punctuation: true, numbers: false }, state).0;
            forall|k: int|
                0 < k < g.len() && !closes_sentence(#[trigger] g[k - 1]) ==> exists|w: Seq<char>|
                    vocabulary_or_default(list).contains(w) && dressed(w, g[k])
        }),
{
    let vocab = vocabulary_or_default(list);
    if vocab.len() > 0 {
        lemma_random_words(vocab, count, state);
        let (plain, s1) = random_words_spec(vocab, count, state);
        assert forall|k: int| 0 <= k < plain.len() implies plain_word(#[trigger] plain[k]) by {
            assert(vocab.contains(plain[k]));
            let i = choose|i: int| 0 <= i < vocab.len() && vocab[i] == plain[k];
            assert(plain_word(vocab[i]));
        }
        lemma_only_sentences_start_with_capitals(plain, s1);
        let g = generate_spec(list, count, Decoration { punctuation: true, numbers: false }, state).0;
        assert(g == punctuation_prefix(plain, plain.len() as int, s1).0);
        assert forall|k: int| 0 < k < g.len() && !closes_sentence(#[trigger] g[k - 1]) implies exists|w: Seq<char>|
            vocab.contains(w) && dressed(w, g[k]) by {
            assert(vocab.contains(plain[k]));
            assert(dressed(plain[k], g[k]));
        }
    }
}

/// Without decorations, two neighbouring words of a test are never the same
/// word, wherever the list holds two different words.
pub proof fn lemma_neighbours_differ(list: Seq<char>, count: nat, decoration: Decoration, state: u64)
    requires
        !decoration.numbers && !decoration.punctuation,
        vocabulary_or_default(list).len() <= u64::MAX,
        has_two_words(vocabulary_or_default(list)),
    ensures
        forall|k: int|
            0 <= k && k + 1 < count ==> #[trigger] generate_spec(list, count, decoration, state).0[k]
                != generate_spec(list, count, decoration, state).0[k + 1],
{
    lemma_random_words_differ(vocabulary_or_default(list), count, state);
}

/// Generates `count` words from `list`, applying `decoration`.
///
/// Consecutive duplicates are avoided so the text reads like prose rather than
/// a stutter. When punctuation is on, the first word is capitalized and every
/// sentence-ending mark capitalizes the word that follows it.
pub fn generate(list: &str, count: usize, decoration: Decoration, rng: &mut Rng) -> (r: Vec<String>)
    ensures
        texts(r@) == generate_spec(list@, count as nat, decoration, old(rng).state).0,
        final(rng).state == generate_spec(list@, count as nat, decoration, old(rng).state).1,
        !decoration.numbers && !decoration.punctuation && has_two_words(vocabulary_or_default(list@))
            ==> forall|k: int| 0 <= k && k + 1 < r@.len() ==> #[trigger] r@[k]@ != r@[k + 1]@,
{
    let vocab = match vocabulary(list) {
        Some(v) => v,
        None => split_pieces(ENGLISH, Separator::Whitespace),
    };
    if vocab.len() == 0 {
        return Vec::new();
    }
    let mut words = random_words(&vocab, count, rng);
    if decoration.numbers {
        add_numbers(&mut words, rng);
    }
    if decoration.punctuation {
        add_punctuation(&mut words, rng);
    }
    proof {
        if !decoration.numbers && !decoration.punctuation && has_two_words(vocabulary_or_default(list@)) {
            assert(views(vocab@) == vocabulary_or_default(list@));
            lemma_neighbours_differ(list@, count as nat, decoration, old(rng).state);
            let g = generate_spec(list@, count as nat, decoration, old(rng).state).0;
            assert(texts(words@) == g);
            lemma_generate_draws_from_the_list(list@, count as nat, decoration, old(rng).state);
            assert(g.len() == count);
            assert forall|k: int| 0 <= k && k + 1 < words@.len() implies #[trigger] words@[k]@
                != words@[k + 1]@ by {
                assert(texts(words@)[k] == words@[k]@);
                assert(texts(words@)[k + 1] == words@[k + 1]@);
                assert(g[k] != g[k + 1]);
            }
        }
    }
    words
}

fn random_words(vocab: &Vec<&str>, count: usize, rng: &mut Rng) -> (r: Vec<String>)
    requires
        vocab@.len() > 0,
    ensures
        texts(r@) == random_words_spec(views(vocab@), count as nat, old(rng).state).0,
        final(rng).state == random_words_spec(views(vocab@), count as nat, old(rng).state).1,
{
    let mut words: Vec<String> = Vec::new();
    let mut previous: Option<&str> = None;
    let mut i: usize = 0;
    assert(texts(words@) =~= Seq::<Seq<char>>::empty());
    while i < count
        invariant
            vocab@.len() > 0,
            i <= count,
            texts(words@) == random_words_spec(views(vocab@), i as nat, old(rng).state).0,
            rng.state == random_words_spec(views(vocab@), i as nat, old(rng).state).1,
            match previous {
                Some(p) => words@.len() > 0 && p@ == texts(words@).last(),
                None => words@.len() == 0,
            },
        decreases count - i,
    {
        let word = draw(vocab, previous, rng);
        previous = Some(word);
        let ghost before = texts(words@);
        words.push(owned(word));
        assert(texts(words@) =~= before.push(word@));
        i = i + 1;
    }
    words
}

fn draw<'a>(vocab: &Vec<&'a str>, previous: Option<&str>, rng: &mut Rng) -> (r: &'a str)
    requires
        vocab@.len() > 0,
    ensures
        ({
            let prev = match previous {
                Some(p) => Some(p@),
                None => None,
            };
            &&& r@ == draw_spec(views(vocab@), prev, old(rng).state, draw_fuel()).0
            &&& final(rng).state == draw_spec(views(vocab@), prev, old(rng).state, draw_fuel()).1
        }),
{
    let ghost prev = match previous {
        Some(p) => Some(p@),
        None => None,
    };
    let ghost target = draw_spec(views(vocab@), prev, rng.state, draw_fuel());
    let mut fuel: u64 = u64::MAX;
    loop
        invariant
            vocab@.len() > 0,
            prev == (match previous {
                Some(p) => Some(p@),
                None => None::<Seq<char>>,
            }),
            draw_spec(views(vocab@), prev, rng.state, fuel as nat) == target,
            target == draw_spec(views(vocab@), prev, old(rng).state, draw_fuel()),
        decreases fuel,
    {
        let ghost before = rng.state;
        let word = *rng.pick(vocab.as_slice());
        let same = match previous {
            Some(p) => same_text(word, p),
            None => false,
        };
        assert(word@ == views(vocab@)[pick_index(before, vocab@.len() as int).0]);
        if !same {
            return word;
        }
        if fuel == 0 {
            return match other_word(vocab, word) {
                Some(other) => other,
                None => word,
            };
        }
        fuel = fuel - 1;
    }
}

/// The first word of `vocab` that is not `word`.
fn other_word<'a>(vocab: &Vec<&'a str>, word: &str) -> (r: Option<&'a str>)
    ensures
        first_other(views(vocab@), word@, 0) == (match r {
            Some(w) => Some(w@),
            None => None,
        }),
{
    let mut i: usize = 0;
    while i < vocab.len()
        invariant
            i <= vocab@.len(),
            first_other(views(vocab@), word@, 0) == first_other(views(vocab@), word@, i as int),
        decreases vocab@.len() - i,
    {
        if !same_text(vocab[i], word) {
            return Some(vocab[i]);
        }
        i = i + 1;
    }
    None
}

fn add_numbers(words: &mut Vec<String>, rng: &mut Rng)
    ensures
        texts(final(words)@) == numbers_prefix(texts(old(words)@), old(words)@.len() as int, old(rng).state).0,
        final(rng).state == numbers_prefix(texts(old(words)@), old(words)@.len() as int, old(rng).state).1,
{
    let ghost given = texts(words@);
    let mut i: usize = 0;
    while i < words.len()
        invariant
            i <= words@.len(),
            words@.len() == given.len(),
            texts(words@).subrange(0, i as int) == numbers_prefix(given, i as int, old(rng).state).0,
            forall|j: int| i <= j < given.len() ==> #[trigger] texts(words@)[j] == given[j],
            rng.state == numbers_prefix(given, i as int, old(rng).state).1,
            given == texts(old(words)@),
        decreases words@.len() - i,
    {
        let ghost before = texts(words@);
        let ghost raw_before = words@;
        assert(before[i as int] == given[i as int]);
        if rng.fraction_bits() < NUMBER_ODDS {
            let digits = rng.between(1, 4);
            let ceiling: u32 = if digits == 1 {
                9
            } else if digits == 2 {
                99
            } else if digits == 3 {
                999
            } else {
                9999
            };
            let value = rng.between(0, ceiling);
            words.set(i, decimal_u64(value as u64));
        }
        assert forall|j: int| i < j < given.len() implies #[trigger] texts(words@)[j] == given[j] by {
            assert(words@[j] == raw_before[j]);
            assert(before[j] == given[j]);
        }
        assert(texts(words@).subrange(0, i as int + 1) =~= numbers_prefix(given, i as int + 1, old(rng).state).0);
        i = i + 1;
    }
    assert(texts(words@).subrange(0, words@.len() as int) =~= texts(words@));
}

/// Walks the list carrying "does the next word start a sentence?" so capitals
/// land where a reader would expect them.
fn add_punctuation(words: &mut Vec<String>, rng: &mut Rng)
    ensures
        texts(final(words)@) == punctuation_prefix(texts(old(words)@), old(words)@.len() as int, old(rng).state).0,
        final(rng).state == punctuation_prefix(texts(old(words)@), old(words)@.len() as int, old(rng).state).2,
{
    let ghost given = texts(words@);
    let mut sentence_start = true;
    let mut i: usize = 0;
    while i < words.len()
        invariant
            i <= words@.len(),
            words@.len() == given.len(),
            texts(words@).subrange(0, i as int) == punctuation_prefix(given, i as int, old(rng).state).0,
            forall|j: int| i <= j < given.len() ==> #[trigger] texts(words@)[j] == given[j],
            sentence_start == punctuation_prefix(given, i as int, old(rng).state).1,
            rng.state == punctuation_prefix(given, i as int, old(rng).state).2,
            given == texts(old(words)@),
        decreases words@.len() - i,
    {
        let ghost before = texts(words@);
        let ghost raw_before = words@;
        assert(before[i as int] == given[i as int]);
        let (punctuated, ends_sentence) = punctuate(words[i].as_str(), rng);
        let word = if sentence_start {
            capitalize(punctuated.as_str())
        } else {
            punctuated
        };
        words.set(i, word);
        sentence_start = ends_sentence;
        assert forall|j: int| i < j < given.len() implies #[trigger] texts(words@)[j] == given[j] by {
            assert(words@[j] == raw_before[j]);
            assert(before[j] == given[j]);
        }
        assert(texts(words@).subrange(0, i as int + 1) =~= punctuation_prefix(given, i as int + 1, old(rng).state).0);
        i = i + 1;
    }
    assert(texts(words@).subrange(0, words@.len() as int) =~= texts(words@));
}

fn punctuate(word: &str, rng: &mut Rng) -> (r: (String, bool))
    ensures
        r.0@ == punctuate_spec(word@, old(rng).state).0,
        r.1 == punctuate_spec(word@, old(rng).state).1,
        final(rng).state == punctuate_spec(word@, old(rng).state).2,
{
    let roll = rng.fraction_bits();
    if roll < WRAP_ODDS {
        (wrap(word, rng), false)
    } else if roll < POSSESSIVE_ODDS {
        let mut out = owned(word);
        push_char(&mut out, '\'');
        push_char(&mut out, 's');
        assert(out@ =~= word@ + seq!['\'', 's']);
        (out, false)
    } else if roll < MARK_ODDS {
        append_mark(word, rng)
    } else {
        (owned(word), false)
    }
}

fn marks() -> (v: Vec<char>)
    ensures
        v@ == punctuation_marks(),
{
    let mut v: Vec<char> = Vec::new();
    v.push('.');
    v.push('.');
    v.push('.');
    v.push(',');
    v.push(',');
    v.push(';');
    v.push(':');
    v.push('!');
    v.push('?');
    assert(v@ =~= punctuation_marks());
    v
}

fn bracket_pairs() -> (v: Vec<(char, char)>)
    ensures
        v@ == brackets(),
{
    let mut v: Vec<(char, char)> = Vec::new();
    v.push(('(', ')'));
    v.push(('"', '"'));
    v.push(('\'', '\''));
    v.push(('[', ']'));
    assert(v@ =~= brackets());
    v
}

fn append_mark(word: &str, rng: &mut Rng) -> (r: (String, bool))
    ensures
        r.0@ == append_mark_spec(word@, old(rng).state).0,
        r.1 == append_mark_spec(word@, old(rng).state).1,
        final(rng).state == append_mark_spec(word@, old(rng).state).2,
{
    let all = marks();
    let mark = *rng.pick(all.as_slice());
    let mut out = owned(word);
    push_char(&mut out, mark);
    (out, mark == '.' || mark == '!' || mark == '?')
}

fn wrap(word: &str, rng: &mut Rng) -> (r: String)
    ensures
        r@ == wrap_spec(word@, old(rng).state).0,
        final(rng).state == wrap_spec(word@, old(rng).state).1,
{
    let all = bracket_pairs();
    let (open, close) = *rng.pick(all.as_slice());
    let mut out = String::new();
    push_char(&mut out, open);
    push_str(&mut out, word);
    push_char(&mut out, close);
    assert(out@ =~= seq![open] + word@ + seq![close]);
    out
}

/// Capitalizes the first letter even when the word opens with a bracket or
/// quote, and leaves the rest of the word alone.
fn capitalize(word: &str) -> (r: String)
    ensures
        r@ == capitalize_spec(word@),
{
    let n = word.unicode_len();
    if n == 0 {
        return String::new();
    }
    let opener = word.get_char(0);
    if opener == '(' || opener == '"' || opener == '\'' || opener == '[' {
        let mut out = String::new();
        push_char(&mut out, opener);
        let rest = upcase_first(word.substring_char(1, n));
        push_str(&mut out, rest.as_str());
        assert(word@.subrange(1, n as int) =~= word@.drop_first());
        assert(out@ =~= seq![opener] + upcase_first_spec(word@.drop_first()));
        out
    } else {
        upcase_first(word)
    }
}

fn upcase_first(word: &str) -> (r: String)
    ensures
        r@ == upcase_first_spec(word@),
{
    let n = word.unicode_len();
    if n == 0 {
        return String::new();
    }
    let mut out = upper(word.get_char(0));
    push_str(&mut out, word.substring_char(1, n));
    assert(word@.subrange(1, n as int) =~= word@.drop_first());
    out
}

} // verus!
