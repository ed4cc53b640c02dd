//! Every completed test, as one row of a tab-separated file.
//!
//! Storing whole results rather than just personal bests means averages,
//! trends and per-letter weaknesses can all be recomputed later. The format is
//! tab-separated so it can be read by eye, sorted, or fed to `awk`. Per-letter
//! tallies are encoded as code points (`101,240,12` = the letter `e`,
//! attempted 240 times, missed 12) because the letters themselves can be
//! punctuation that would collide with the separators.
//!
//! The speed, raw speed, accuracy and consistency columns are written with at
//! most two decimals, and are read back as whole hundredths (a column with
//! more decimals, or an exponent, is rounded to the nearest hundredth).
//!
//! Reading and writing the file is the caller's business; this module turns a
//! result into a row and a row back into a result.
use vstd::prelude::*;

use crate::engine::{mode_name, Mode, SlipTally};
use crate::tally::{entries_map, lemma_entries_map_prefix, sorted_by_rank, Tally};
use crate::number::{
    digit_value, digits_value, integer_text, is_digit, lemma_decimal_reads_back,
    lemma_signed_decimal_reads_back, parse_i64, parse_u32, parsed,
};
use crate::stats::{KeyTallies, KeyTally, Stats};
use crate::text::{
    chars_of, string_of,
    views,
    char_from_u32, contains, contains_text, decimal, decimal_i64, decimal_u64, digit_char, empty_str,
    fields, free_of, is_break, is_scalar, join, joined, lemma_fields_of_joined, lemma_joined_first,
    lemma_joined_free_of, lemma_joined_no_breaks, no_breaks, owned, push_str, same_text, signed_decimal, split_fields,
    string_views,
};
use crate::words::Decoration;
use crate::datetime::{lemma_timestamps_fill_one_column, timestamp_spec, Date};

verus! {

/// The first line of a history file.
pub const HEADER: &'static str = "# typr history v1\tat\tmode\tlimit\tlist\tflags\twpm\traw\taccuracy\tconsistency\tcorrect\tincorrect\textra\tmissed\tduration_ms\tkeys\tslips";

/// How many tab-separated columns a well-formed row has.
pub const COLUMNS: usize = 16;

/// The settings a test was run under, and the key it is filed against.
#[derive(Clone, Debug, PartialEq, Eq)]
pub struct Config {
    pub mode: Mode,
    pub limit: i64,
    pub list: String,
    pub decoration: Decoration,
}

/// The words a configuration key is made of. Quote mode draws from a fixed
/// set of sentences, so it has no word list to name.
pub open spec fn key_parts(mode: Mode, limit: int, list: Seq<char>, decoration: Decoration) -> Seq<
    Seq<char>,
> {
    seq![mode_name(mode), signed_decimal(limit)] + (if mode != Mode::Quote {
        seq![list]
    } else {
        Seq::empty()
    }) + (if decoration.punctuation {
        seq!["punctuation"@]
    } else {
        Seq::empty()
    }) + (if decoration.numbers {
        seq!["numbers"@]
    } else {
        Seq::empty()
    })
}

/// The configuration key, such as `time-30-english-punctuation`.
pub open spec fn config_key(mode: Mode, limit: int, list: Seq<char>, decoration: Decoration) -> Seq<
    char,
> {
    joined(key_parts(mode, limit, list, decoration), '-')
}

impl Config {
    pub open spec fn key_spec(&self) -> Seq<char> {
        config_key(self.mode, self.limit as int, self.list@, self.decoration)
    }

    /// The configuration key a result is filed under, such as
    /// `time-30-english-punctuation`.
    pub fn key(&self) -> (k: String)
        ensures
            k@ == self.key_spec(),
    {
        make_key(self.mode, self.limit, self.list.as_str(), self.decoration)
    }

    /// A copy with the same settings.
    pub fn duplicate(&self) -> (c: Config)
        ensures
            c.mode == self.mode,
            c.limit == self.limit,
            c.list@ == self.list@,
            c.decoration == self.decoration,
    {
        Config {
            mode: self.mode,
            limit: self.limit,
            list: owned(self.list.as_str()),
            decoration: self.decoration,
        }
    }
}

fn make_key(mode: Mode, limit: i64, list: &str, decoration: Decoration) -> (k: String)
    ensures
        k@ == config_key(mode, limit as int, list@, decoration),
{
    let mut parts: Vec<String> = Vec::new();
    parts.push(owned(mode.as_str()));
    parts.push(decimal_i64(limit));
    if mode != Mode::Quote {
        parts.push(owned(list));
    }
    if decoration.punctuation {
        parts.push(owned("punctuation"));
    }
    if decoration.numbers {
        parts.push(owned("numbers"));
    }
    assert(string_views(parts@) =~= key_parts(mode, limit as int, list@, decoration));
    join(&parts, '-')
}

/// The flags column: the decorations in use, comma separated, or `-`.
pub open spec fn flag_names(decoration: Decoration) -> Seq<Seq<char>> {
    (if decoration.punctuation {
        seq!["punctuation"@]
    } else {
        Seq::empty()
    }) + (if decoration.numbers {
        seq!["numbers"@]
    } else {
        Seq::empty()
    })
}

pub open spec fn flags_text(decoration: Decoration) -> Seq<char> {
    if flag_names(decoration).len() == 0 {
        "-"@
    } else {
        joined(flag_names(decoration), ',')
    }
}

pub fn encode_flags(decoration: Decoration) -> (s: String)
    ensures
        s@ == flags_text(decoration),
{
    let mut flags: Vec<String> = Vec::new();
    if decoration.punctuation {
        flags.push(owned("punctuation"));
    }
    if decoration.numbers {
        flags.push(owned("numbers"));
    }
    assert(string_views(flags@) =~= flag_names(decoration));
    if flags.len() == 0 {
        owned("-")
    } else {
        join(&flags, ',')
    }
}

/// The decorations a flags column names.
pub open spec fn flags_of(text: Seq<char>) -> Decoration {
    Decoration {
        punctuation: contains_text(text, "punctuation"@),
        numbers: contains_text(text, "numbers"@),
    }
}

pub fn decode_flags(text: &str) -> (d: Decoration)
    ensures
        d == flags_of(text@),
{
    Decoration { punctuation: contains(text, "punctuation"), numbers: contains(text, "numbers") }
}

/// The mode a mode column names; anything unrecognised reads as a timed test.
pub open spec fn mode_of(text: Seq<char>) -> Mode {
    if text == "words"@ {
        Mode::Words
    } else if text == "quote"@ {
        Mode::Quote
    } else {
        Mode::Time
    }
}

pub fn decode_mode(text: &str) -> (m: Mode)
    ensures
        m == mode_of(text@),
{
    if same_text(text, "words") {
        Mode::Words
    } else if same_text(text, "quote") {
        Mode::Quote
    } else {
        Mode::Time
    }
}

/// A count column: the number it holds, or 0 when it holds none.
pub open spec fn count_of(text: Seq<char>) -> u32 {
    match parsed(text, false, 0, u32::MAX as int) {
        Some(v) => v as u32,
        None => 0,
    }
}

pub fn to_integer(text: &str) -> (n: u32)
    ensures
        n == count_of(text@),
{
    match parse_u32(text) {
        Some(v) => v,
        None => 0,
    }
}

/// A signed column (the limit, the duration): its number, or 0.
pub open spec fn signed_of(text: Seq<char>) -> i64 {
    match parsed(text, true, i64::MIN as int, i64::MAX as int) {
        Some(v) => v as i64,
        None => 0,
    }
}

pub fn to_signed(text: &str) -> (n: i64)
    ensures
        n == signed_of(text@),
{
    match parse_i64(text) {
        Some(v) => v,
        None => 0,
    }
}

/// The character an encoded code point stands for.
pub open spec fn grapheme_of(code: Seq<char>) -> Option<char> {
    match parsed(code, false, 0, u32::MAX as int) {
        Some(v) => if is_scalar(v) {
            Some((v as u32) as char)
        } else {
            None
        },
        None => None,
    }
}

/// Turns an encoded code point back into the character it stands for.
pub fn grapheme(code: &str) -> (r: Option<char>)
    ensures
        r == grapheme_of(code@),
{
    match parse_u32(code) {
        Some(v) => match char_from_u32(v) {
            Some(c) => {
                proof {
                    vstd::utf8::char_u32_cast(c, v);
                }
                Some(c)
            },
            None => None,
        },
        None => None,
    }
}

/// One letter's tally as written: its code point, attempts and errors.
pub open spec fn key_entry_text(entry: (char, KeyTally)) -> Seq<char> {
    joined(
        seq![
            decimal((entry.0 as u32) as nat),
            decimal(entry.1.attempts as nat),
            decimal(entry.1.errors as nat),
        ],
        ',',
    )
}

/// The keys column: each letter's entry, `;` separated, or `-` for none.
pub open spec fn keys_text(entries: Seq<(char, KeyTally)>) -> Seq<char> {
    if entries.len() == 0 {
        "-"@
    } else {
        joined(entries.map_values(|e: (char, KeyTally)| key_entry_text(e)), ';')
    }
}

/// One confusion as written: the code points of the expected and the typed
/// letter, and how often it happened.
pub open spec fn slip_entry_text(entry: ((char, char), u32)) -> Seq<char> {
    joined(
        seq![
            decimal((entry.0.0 as u32) as nat),
            decimal((entry.0.1 as u32) as nat),
            decimal(entry.1 as nat),
        ],
        ',',
    )
}

/// The slips column: each confusion's entry, `;` separated, or `-`.
pub open spec fn slips_text(entries: Seq<((char, char), u32)>) -> Seq<char> {
    if entries.len() == 0 {
        "-"@
    } else {
        joined(entries.map_values(|e: ((char, char), u32)| slip_entry_text(e)), ';')
    }
}

fn three_numbers(a: u64, b: u64, c: u64) -> (s: String)
    ensures
        s@ == joined(seq![decimal(a as nat), decimal(b as nat), decimal(c as nat)], ','),
{
    let mut parts: Vec<String> = Vec::new();
    parts.push(decimal_u64(a));
    parts.push(decimal_u64(b));
    parts.push(decimal_u64(c));
    assert(string_views(parts@) =~= seq![decimal(a as nat), decimal(b as nat), decimal(c as nat)]);
    join(&parts, ',')
}

pub fn encode_keys(keys: &KeyTallies) -> (s: String)
    ensures
        s@ == keys_text(keys.seq()),
{
    let entries = keys.entries();
    if entries.len() == 0 {
        return owned("-");
    }
    let mut texts: Vec<String> = Vec::new();
    let mut i: usize = 0;
    while i < entries.len()
        invariant
            entries@ == keys.seq(),
            i <= entries@.len(),
            string_views(texts@) == entries@.take(i as int).map_values(
                |e: (char, KeyTally)| key_entry_text(e),
            ),
        decreases entries@.len() - i,
    {
        let (letter, tally) = entries[i];
        let code: u32 = letter as u32;
        let text = three_numbers(code as u64, tally.attempts as u64, tally.errors as u64);
        assert(text@ == key_entry_text(entries@[i as int]));
        let ghost before = string_views(texts@);
        texts.push(text);
        assert(string_views(texts@) =~= before.push(text@));
        i = i + 1;
        assert(string_views(texts@) =~= entries@.take(i as int).map_values(
            |e: (char, KeyTally)| key_entry_text(e),
        ));
    }
    assert(entries@.take(entries@.len() as int) =~= entries@);
    join(&texts, ';')
}

pub fn encode_slips(slips: &SlipTally) -> (s: String)
    ensures
        s@ == slips_text(slips.seq()),
{
    let entries = slips.entries();
    if entries.len() == 0 {
        return owned("-");
    }
    let mut texts: Vec<String> = Vec::new();
    let mut i: usize = 0;
    while i < entries.len()
        invariant
            entries@ == slips.seq(),
            i <= entries@.len(),
            string_views(texts@) == entries@.take(i as int).map_values(
                |e: ((char, char), u32)| slip_entry_text(e),
            ),
        decreases entries@.len() - i,
    {
        let ((expected, actual), count) = entries[i];
        let first: u32 = expected as u32;
        let second: u32 = actual as u32;
        let text = three_numbers(first as u64, second as u64, count as u64);
        assert(text@ == slip_entry_text(entries@[i as int]));
        let ghost before = string_views(texts@);
        texts.push(text);
        assert(string_views(texts@) =~= before.push(text@));
        i = i + 1;
        assert(string_views(texts@) =~= entries@.take(i as int).map_values(
            |e: ((char, char), u32)| slip_entry_text(e),
        ));
    }
    assert(entries@.take(entries@.len() as int) =~= entries@);
    join(&texts, ';')
}

/// One letter's tally read back, or `None` when the entry is not exactly a
/// code point and two counts.
pub open spec fn key_entry_of(entry: Seq<char>) -> Option<(char, KeyTally)> {
    let parts = fields(entry, ',');
    if parts.len() != 3 {
        None
    } else {
        match grapheme_of(parts[0]) {
            Some(c) => Some((c, KeyTally { attempts: count_of(parts[1]), errors: count_of(parts[2]) })),
            None => None,
        }
    }
}

/// The tallies a run of entries describes: unreadable entries are skipped,
/// and a later entry for a letter replaces an earlier one.
pub open spec fn keys_from(entries: Seq<Seq<char>>) -> Map<char, KeyTally>
    decreases entries.len(),
{
    if entries.len() == 0 {
        Map::empty()
    } else {
        let m = keys_from(entries.drop_last());
        match key_entry_of(entries.last()) {
            Some(e) => m.insert(e.0, e.1),
            None => m,
        }
    }
}

pub open spec fn keys_of(text: Seq<char>) -> Map<char, KeyTally> {
    if text == "-"@ {
        Map::empty()
    } else {
        keys_from(fields(text, ';'))
    }
}

/// One confusion read back, or `None` when the entry is not exactly two code
/// points and a count.
pub open spec fn slip_entry_of(entry: Seq<char>) -> Option<((char, char), u32)> {
    let parts = fields(entry, ',');
    if parts.len() != 3 {
        None
    } else {
        match (grapheme_of(parts[0]), grapheme_of(parts[1])) {
            (Some(e), Some(a)) => Some(((e, a), count_of(parts[2]))),
            _ => None,
        }
    }
}

pub open spec fn slips_from(entries: Seq<Seq<char>>) -> Map<(char, char), u32>
    decreases entries.len(),
{
    if entries.len() == 0 {
        Map::empty()
    } else {
        let m = slips_from(entries.drop_last());
        match slip_entry_of(entries.last()) {
            Some(e) => m.insert(e.0, e.1),
            None => m,
        }
    }
}

pub open spec fn slips_of(text: Seq<char>) -> Map<(char, char), u32> {
    if text == "-"@ {
        Map::empty()
    } else {
        slips_from(fields(text, ';'))
    }
}

/// Decimal digits start with a digit and hold nothing else.
proof fn lemma_decimal_holds_digits(n: nat)
    ensures
        decimal(n).len() > 0,
        is_digit(decimal(n)[0]),
        forall|x: char| !is_digit(x) ==> free_of(decimal(n), x),
{
    lemma_decimal_reads_back(n);
}

/// A count written in decimal reads back as itself.
proof fn lemma_count_reads_back(n: nat)
    requires
        n <= u32::MAX,
    ensures
        count_of(decimal(n)) == n,
{
    lemma_signed_decimal_reads_back(n as int);
    assert(signed_decimal(n as int) == decimal(n));
}

/// A letter written as its code point reads back as the same letter.
proof fn lemma_code_reads_back(c: char)
    ensures
        grapheme_of(decimal((c as u32) as nat)) == Some(c),
{
    let n = (c as u32) as nat;
    lemma_signed_decimal_reads_back(n as int);
    assert(signed_decimal(n as int) == decimal(n));
    assert(parsed(decimal(n), false, 0, u32::MAX as int) == Some(n as int));
    vstd::utf8::char_is_scalar(c);
    assert(is_scalar(n as int));
    vstd::utf8::char_u32_cast(c, c as u32);
    assert(((n as int) as u32) as char == c);
}

/// Three numbers joined by commas split back into the same three, and the
/// text starts with a digit and holds no `;` or tab.
proof fn lemma_three_numbers(a: nat, b: nat, c: nat)
    ensures
        ({
            let parts = seq![decimal(a), decimal(b), decimal(c)];
            let text = joined(parts, ',');
            &&& fields(text, ',') == parts
            &&& text.len() > 0
            &&& is_digit(text[0])
            &&& free_of(text, ';')
            &&& no_breaks(text)
        }),
{
    let parts = seq![decimal(a), decimal(b), decimal(c)];
    lemma_decimal_holds_digits(a);
    lemma_decimal_holds_digits(b);
    lemma_decimal_holds_digits(c);
    lemma_decimal_no_breaks(a);
    lemma_decimal_no_breaks(b);
    lemma_decimal_no_breaks(c);
    assert(!is_digit(',') && !is_digit(';'));
    assert forall|k: int| 0 <= k < parts.len() implies free_of(#[trigger] parts[k], ',') && free_of(
        parts[k],
        ';',
    ) && no_breaks(parts[k]) by {
        if k == 0 {
        } else if k == 1 {
        } else {
        }
    }
    lemma_fields_of_joined(parts, ',');
    lemma_joined_free_of(parts, ',', ';');
    lemma_joined_no_breaks(parts, ',');
    lemma_joined_first(parts, ',');
}

/// A letter's entry as written reads back as the same entry.
proof fn lemma_key_entry_reads_back(e: (char, KeyTally))
    ensures
        key_entry_of(key_entry_text(e)) == Some(e),
        key_entry_text(e).len() > 0,
        is_digit(key_entry_text(e)[0]),
        free_of(key_entry_text(e), ';'),
        no_breaks(key_entry_text(e)),
{
    lemma_three_numbers((e.0 as u32) as nat, e.1.attempts as nat, e.1.errors as nat);
    lemma_code_reads_back(e.0);
    lemma_count_reads_back(e.1.attempts as nat);
    lemma_count_reads_back(e.1.errors as nat);
}

/// A confusion's entry as written reads back as the same entry.
proof fn lemma_slip_entry_reads_back(e: ((char, char), u32))
    ensures
        slip_entry_of(slip_entry_text(e)) == Some(e),
        slip_entry_text(e).len() > 0,
        is_digit(slip_entry_text(e)[0]),
        free_of(slip_entry_text(e), ';'),
        no_breaks(slip_entry_text(e)),
{
    lemma_three_numbers((e.0.0 as u32) as nat, (e.0.1 as u32) as nat, e.1 as nat);
    lemma_code_reads_back(e.0.0);
    lemma_code_reads_back(e.0.1);
    lemma_count_reads_back(e.1 as nat);
}

proof fn lemma_keys_from_prefix(s: Seq<(char, KeyTally)>, j: int)
    requires
        sorted_by_rank(s),
        0 <= j <= s.len(),
    ensures
        keys_from(s.take(j).map_values(|e: (char, KeyTally)| key_entry_text(e))) == entries_map(s.take(j)),
    decreases j,
{
    let texts = s.take(j).map_values(|e: (char, KeyTally)| key_entry_text(e));
    if j == 0 {
        assert(entries_map(s.take(0)) =~= Map::<char, KeyTally>::empty());
    } else {
        lemma_keys_from_prefix(s, j - 1);
        assert(texts.drop_last() =~= s.take(j - 1).map_values(|e: (char, KeyTally)| key_entry_text(e)));
        lemma_key_entry_reads_back(s[j - 1]);
        assert(texts.last() == key_entry_text(s[j - 1]));
        lemma_entries_map_prefix(s, j - 1);
    }
}

proof fn lemma_slips_from_prefix(s: Seq<((char, char), u32)>, j: int)
    requires
        sorted_by_rank(s),
        0 <= j <= s.len(),
    ensures
        slips_from(s.take(j).map_values(|e: ((char, char), u32)| slip_entry_text(e))) == entries_map(
            s.take(j),
        ),
    decreases j,
{
    let texts = s.take(j).map_values(|e: ((char, char), u32)| slip_entry_text(e));
    if j == 0 {
        assert(entries_map(s.take(0)) =~= Map::<(char, char), u32>::empty());
    } else {
        lemma_slips_from_prefix(s, j - 1);
        assert(texts.drop_last() =~= s.take(j - 1).map_values(
            |e: ((char, char), u32)| slip_entry_text(e),
        ));
        lemma_slip_entry_reads_back(s[j - 1]);
        assert(texts.last() == slip_entry_text(s[j - 1]));
        lemma_entries_map_prefix(s, j - 1);
    }
}

/// The keys column as written reads back as the same tallies, and holds no
/// tab.
pub proof fn lemma_keys_read_back(s: Seq<(char, KeyTally)>)
    requires
        sorted_by_rank(s),
    ensures
        keys_of(keys_text(s)) == entries_map(s),
        no_breaks(keys_text(s)),
{
    reveal_strlit("-");
    if s.len() == 0 {
        assert(entries_map(s) =~= Map::<char, KeyTally>::empty());
    } else {
        let texts = s.map_values(|e: (char, KeyTally)| key_entry_text(e));
        assert forall|k: int| 0 <= k < texts.len() implies free_of(#[trigger] texts[k], ';') && no_breaks(
            texts[k],
        ) by {
            lemma_key_entry_reads_back(s[k]);
        }
        lemma_fields_of_joined(texts, ';');
        lemma_joined_no_breaks(texts, ';');
        lemma_key_entry_reads_back(s[0]);
        lemma_joined_first(texts, ';');
        assert(keys_text(s) != "-"@) by {
            assert("-"@[0] == '-');
        }
        lemma_keys_from_prefix(s, s.len() as int);
        assert(s.take(s.len() as int) =~= s);
    }
}

/// The slips column as written reads back as the same tallies, and holds
/// no tab.
pub proof fn lemma_slips_read_back(s: Seq<((char, char), u32)>)
    requires
        sorted_by_rank(s),
    ensures
        slips_of(slips_text(s)) == entries_map(s),
        no_breaks(slips_text(s)),
{
    reveal_strlit("-");
    if s.len() == 0 {
        assert(entries_map(s) =~= Map::<(char, char), u32>::empty());
    } else {
        let texts = s.map_values(|e: ((char, char), u32)| slip_entry_text(e));
        assert forall|k: int| 0 <= k < texts.len() implies free_of(#[trigger] texts[k], ';') && no_breaks(
            texts[k],
        ) by {
            lemma_slip_entry_reads_back(s[k]);
        }
        lemma_fields_of_joined(texts, ';');
        lemma_joined_no_breaks(texts, ';');
        lemma_slip_entry_reads_back(s[0]);
        lemma_joined_first(texts, ';');
        assert(slips_text(s) != "-"@) by {
            assert("-"@[0] == '-');
        }
        lemma_slips_from_prefix(s, s.len() as int);
        assert(s.take(s.len() as int) =~= s);
    }
}

/// The mode column names the mode it was written for, with no tab.
proof fn lemma_mode_reads_back(mode: Mode)
    ensures
        mode_of(mode_name(mode)) == mode,
        no_breaks(mode_name(mode)),
{
    reveal_strlit("words");
    reveal_strlit("quote");
    let name = mode_name(mode);
    match mode {
        Mode::Time => {
            assert(name.len() != "words"@.len());
            assert(name.len() != "quote"@.len());
        },
        Mode::Words => {
            assert(name =~= "words"@);
        },
        Mode::Quote => {
            assert(name[0] != "words"@[0]);
            assert(name =~= "quote"@);
        },
    }
}

/// `needle` does not occur in `hay` when no position has its first two
/// characters.
proof fn lemma_no_pair(hay: Seq<char>, needle: Seq<char>)
    requires
        needle.len() >= 2,
        forall|i: int|
            0 <= i && i + needle.len() <= hay.len() ==> #[trigger] hay[i] != needle[0] || hay[i + 1]
                != needle[1],
    ensures
        !contains_text(hay, needle),
{
    assert forall|i: int| !crate::text::occurs_at(hay, needle, i) by {
        if 0 <= i && i + needle.len() <= hay.len() {
            let piece = hay.subrange(i, i + needle.len());
            assert(piece[0] == hay[i]);
            assert(piece[1] == hay[i + 1]);
        }
    }
}

/// The flags column holds no break.
proof fn lemma_flags_no_breaks(d: Decoration)
    ensures
        no_breaks(flags_text(d)),
{
    reveal_strlit("-");
    reveal_strlit("punctuation");
    reveal_strlit("numbers");
    let p = "punctuation"@;
    let n = "numbers"@;
    assert forall|i: int| 0 <= i < p.len() implies !is_break(#[trigger] p[i]) by {
        assert(i == 0 || i == 1 || i == 2 || i == 3 || i == 4 || i == 5 || i == 6 || i == 7 || i == 8
            || i == 9 || i == 10);
    }
    assert forall|i: int| 0 <= i < n.len() implies !is_break(#[trigger] n[i]) by {
        assert(i == 0 || i == 1 || i == 2 || i == 3 || i == 4 || i == 5 || i == 6);
    }
    assert(no_breaks("-"@));
    let names = flag_names(d);
    assert forall|k: int| 0 <= k < names.len() implies no_breaks(#[trigger] names[k]) by {
        if d.punctuation && k == 0 {
            assert(names[k] == p);
        } else {
            assert(names[k] == n);
        }
    }
    lemma_joined_no_breaks(names, ',');
}

proof fn lemma_punctuation_and_numbers()
    ensures
        contains_text("punctuation"@.push(',') + "numbers"@, "punctuation"@),
        contains_text("punctuation"@.push(',') + "numbers"@, "numbers"@),
{
    reveal_strlit("punctuation");
    reveal_strlit("numbers");
    let p = "punctuation"@;
    let n = "numbers"@;
    let both = p.push(',') + n;
    assert(crate::text::occurs_at(both, p, 0)) by {
        assert(both.subrange(0, 11) =~= p);
    }
    assert(crate::text::occurs_at(both, n, 12)) by {
        assert(both.subrange(12, 19) =~= n);
    }
}

proof fn lemma_punctuation_alone()
    ensures
        contains_text("punctuation"@, "punctuation"@),
        !contains_text("punctuation"@, "numbers"@),
{
    reveal_strlit("punctuation");
    reveal_strlit("numbers");
    let p = "punctuation"@;
    let n = "numbers"@;
    assert(crate::text::occurs_at(p, p, 0)) by {
        assert(p.subrange(0, 11) =~= p);
    }
    lemma_no_pair(p, n);
}

proof fn lemma_numbers_alone()
    ensures
        contains_text("numbers"@, "numbers"@),
        !contains_text("numbers"@, "punctuation"@),
{
    reveal_strlit("punctuation");
    reveal_strlit("numbers");
    let n = "numbers"@;
    assert(crate::text::occurs_at(n, n, 0)) by {
        assert(n.subrange(0, 7) =~= n);
    }
    assert forall|i: int| !crate::text::occurs_at(n, "punctuation"@, i) by {}
}

/// The flags column names the decorations it was written for.
proof fn lemma_flags_read_back(d: Decoration)
    ensures
        flags_of(flags_text(d)) == d,
{
    reveal_strlit("-");
    let p = "punctuation"@;
    let n = "numbers"@;
    let names = flag_names(d);
    if d.punctuation && d.numbers {
        assert(names =~= seq![p, n]);
        assert(names.drop_last() =~= seq![p]);
        assert(joined(names.drop_last(), ',') == p);
        assert(joined(names, ',') == joined(names.drop_last(), ',').push(',') + names.last());
        lemma_punctuation_and_numbers();
    } else if d.punctuation {
        assert(names =~= seq![p]);
        assert(flags_text(d) == p);
        lemma_punctuation_alone();
    } else if d.numbers {
        assert(names =~= seq![n]);
        assert(flags_text(d) == n);
        lemma_numbers_alone();
    } else {
        assert(names =~= Seq::<Seq<char>>::empty());
        assert(flags_text(d) == "-"@);
        assert forall|i: int| !crate::text::occurs_at("-"@, p, i) && !crate::text::occurs_at("-"@, n, i) by {
            reveal_strlit("punctuation");
            reveal_strlit("numbers");
        }
    }
}

fn key_entry(entry: &str) -> (r: Option<(char, KeyTally)>)
    ensures
        r == key_entry_of(entry@),
{
    let parts = split_fields(entry, ',');
    if parts.len() != 3 {
        return None;
    }
    match grapheme(parts[0]) {
        Some(c) => Some((c, KeyTally { attempts: to_integer(parts[1]), errors: to_integer(parts[2]) })),
        None => None,
    }
}

fn slip_entry(entry: &str) -> (r: Option<((char, char), u32)>)
    ensures
        r == slip_entry_of(entry@),
{
    let parts = split_fields(entry, ',');
    if parts.len() != 3 {
        return None;
    }
    match (grapheme(parts[0]), grapheme(parts[1])) {
        (Some(e), Some(a)) => Some(((e, a), to_integer(parts[2]))),
        _ => None,
    }
}

pub fn decode_keys(text: &str) -> (t: KeyTallies)
    ensures
        t.wf(),
        t.map() == keys_of(text@),
{
    let mut t: KeyTallies = Tally::new();
    if same_text(text, "-") {
        return t;
    }
    let entries = split_fields(text, ';');
    let mut i: usize = 0;
    assert(views(entries@).take(0) =~= Seq::<Seq<char>>::empty());
    while i < entries.len()
        invariant
            views(entries@) == fields(text@, ';'),
            i <= entries@.len(),
            t.wf(),
            t.map() == keys_from(views(entries@).take(i as int)),
        decreases entries@.len() - i,
    {
        let ghost before = views(entries@).take(i as int);
        match key_entry(entries[i]) {
            Some((c, tally)) => t.insert(c, tally),
            None => {},
        }
        i = i + 1;
        let ghost after = views(entries@).take(i as int);
        assert(after.drop_last() =~= before);
        assert(after.last() == entries@[i - 1]@);
    }
    assert(views(entries@).take(entries@.len() as int) =~= views(entries@));
    t
}

pub fn decode_slips(text: &str) -> (t: SlipTally)
    ensures
        t.wf(),
        t.map() == slips_of(text@),
{
    let mut t: SlipTally = Tally::new();
    if same_text(text, "-") {
        return t;
    }
    let entries = split_fields(text, ';');
    let mut i: usize = 0;
    assert(views(entries@).take(0) =~= Seq::<Seq<char>>::empty());
    while i < entries.len()
        invariant
            views(entries@) == fields(text@, ';'),
            i <= entries@.len(),
            t.wf(),
            t.map() == slips_from(views(entries@).take(i as int)),
        decreases entries@.len() - i,
    {
        let ghost before = views(entries@).take(i as int);
        match slip_entry(entries[i]) {
            Some((pair, count)) => t.insert(pair, count),
            None => {},
        }
        i = i + 1;
        let ghost after = views(entries@).take(i as int);
        assert(after.drop_last() =~= before);
        assert(after.last() == entries@[i - 1]@);
    }
    assert(views(entries@).take(entries@.len() as int) =~= views(entries@));
    t
}

/// Ten to the `k`.
pub open spec fn pow10(k: nat) -> int
    decreases k,
{
    if k == 0 {
        1
    } else {
        10 * pow10((k - 1) as nat)
    }
}

/// `n` times ten to the `k`; for a negative `k`, rounded half up to a whole
/// number.
pub open spec fn scaled(n: int, k: int) -> int {
    if k >= 0 {
        n * pow10(k as nat)
    } else {
        (n + pow10((-k) as nat) / 2) / pow10((-k) as nat)
    }
}

/// The text with `E` written as `e`: either marks an exponent.
pub open spec fn exponent_marks(s: Seq<char>) -> Seq<char> {
    s.map_values(|c: char| if c == 'E' { 'e' } else { c })
}

/// Whether every character is an ASCII digit (vacuously, for none).
pub open spec fn digits_only(s: Seq<char>) -> bool {
    forall|i: int| 0 <= i < s.len() ==> is_digit(#[trigger] s[i])
}

/// The whole part of a figure without its sign.
pub open spec fn unsigned_part(whole: Seq<char>) -> Seq<char> {
    if whole.len() > 0 && (whole[0] == '-' || whole[0] == '+') {
        whole.drop_first()
    } else {
        whole
    }
}

/// A figure's digits, the point left out, are read while they are worth
/// less than this: ten to the 36th.
pub open spec fn digits_limit() -> int {
    1_000_000_000_000_000_000_000_000_000_000_000_000
}

/// A figure column in whole hundredths, read as a decimal number: an
/// optional sign, digits with an optional point among them (at least one
/// digit in all), and optionally `e` or `E` and a whole exponent (`72.5` is
/// 7250, `-.5` is -50, `3.` is 300, `7.25e1` is 7250). The value is rounded
/// half up to the nearest hundredth (`72.456` is 7246). `None` for anything
/// else, for digits worth [`digits_limit`] or more before the point is
/// placed, or for a value past the range of `i64`.
pub open spec fn hundredths(text: Seq<char>) -> Option<int> {
    let halves = fields(exponent_marks(text), 'e');
    let exponent = if halves.len() >= 2 {
        integer_text(halves[1], true)
    } else {
        Some(0)
    };
    let parts = fields(halves[0], '.');
    let whole = parts[0];
    let fraction = if parts.len() >= 2 {
        parts[1]
    } else {
        Seq::empty()
    };
    let body = unsigned_part(whole);
    let negative = whole.len() > 0 && whole[0] == '-';
    if halves.len() > 2 || parts.len() > 2 || !digits_only(body) || !digits_only(fraction) || body.len()
        + fraction.len() == 0 || exponent is None {
        None
    } else if digits_value(body + fraction) >= digits_limit() {
        None
    } else {
        let m = scaled(digits_value(body + fraction), exponent.unwrap() + 2 - fraction.len());
        let v = if negative {
            -m
        } else {
            m
        };
        if i64::MIN <= v <= i64::MAX {
            Some(v)
        } else {
            None
        }
    }
}

/// A figure column's value in hundredths, or 0 when it holds none.
pub open spec fn figure_of(text: Seq<char>) -> i64 {
    match hundredths(text) {
        Some(v) => v as i64,
        None => 0,
    }
}

/// The bound past which an exponent is held: beyond it, every figure with a
/// digit other than zero is out of range or rounds to zero.
pub open spec fn exponent_cap() -> int {
    0x40_0000_0000_0000_0000
}

/// An exponent held within [`exponent_cap`] either way.
pub open spec fn held_exponent(e: int) -> int {
    if e > exponent_cap() {
        exponent_cap()
    } else if e < -exponent_cap() {
        -exponent_cap()
    } else {
        e
    }
}

proof fn lemma_pow10_grows(a: nat, b: nat)
    requires
        a <= b,
    ensures
        1 <= pow10(a) <= pow10(b),
    decreases b,
{
    if b > 0 {
        if a < b {
            lemma_pow10_grows(a, (b - 1) as nat);
        } else {
            lemma_pow10_grows(0, (b - 1) as nat);
        }
    }
}

proof fn lemma_pow10_values()
    ensures
        pow10(19) == 10_000_000_000_000_000_000,
        pow10(36) == 1_000_000_000_000_000_000_000_000_000_000_000_000,
        pow10(37) == 10_000_000_000_000_000_000_000_000_000_000_000_000,
{
    reveal_with_fuel(pow10, 38);
}

/// Digits worth something, scaled by ten to the 19th or more, are out of
/// range; digits worth less than [`digits_limit`], scaled by ten to the
/// -37th or less, round to zero.
proof fn lemma_scaled_extremes(n: int, k: int)
    requires
        0 <= n < digits_limit(),
    ensures
        n == 0 ==> scaled(n, k) == 0,
        n >= 1 && k >= 19 ==> scaled(n, k) > 0x8000_0000_0000_0000,
        k <= -37 ==> scaled(n, k) == 0,
{
    lemma_pow10_values();
    if k >= 0 {
        if k >= 19 {
            lemma_pow10_grows(19, k as nat);
        }
        lemma_pow10_grows(0, k as nat);
        if n >= 1 && k >= 19 {
            assert(n * pow10(k as nat) >= pow10(k as nat)) by (nonlinear_arith)
                requires
                    n >= 1,
                    pow10(k as nat) >= 1,
            ;
        }
        if n == 0 {
            assert(n * pow10(k as nat) == 0);
        }
    } else {
        let p = pow10((-k) as nat);
        lemma_pow10_grows(0, (-k) as nat);
        if k <= -37 {
            lemma_pow10_grows(37, (-k) as nat);
        }
        assert(p == 10 * pow10(((-k) - 1) as nat));
        if n == 0 || k <= -37 {
            vstd::arithmetic::div_mod::lemma_fundamental_div_mod_converse(n + p / 2, p, 0, n + p / 2);
        }
    }
}

/// `text` with `E` written as `e`.
fn with_exponent_marks(text: &str) -> (r: String)
    ensures
        r@ == exponent_marks(text@),
{
    let cs = chars_of(text);
    let mut out: Vec<char> = Vec::new();
    let mut i: usize = 0;
    while i < cs.len()
        invariant
            cs@ == text@,
            i <= cs@.len(),
            out@ == exponent_marks(text@).take(i as int),
        decreases cs@.len() - i,
    {
        let c = cs[i];
        out.push(if c == 'E' { 'e' } else { c });
        i = i + 1;
        assert(out@ =~= exponent_marks(text@).take(i as int));
    }
    assert(exponent_marks(text@).take(i as int) =~= exponent_marks(text@));
    string_of(out.as_slice())
}

/// Reads an exponent: a whole number with an optional sign, held within
/// [`exponent_cap`].
fn read_exponent(s: &str) -> (r: Option<i128>)
    ensures
        r is Some <==> integer_text(s@, true) is Some,
        r matches Some(e) ==> e == held_exponent(integer_text(s@, true).unwrap()),
{
    let cs = chars_of(s);
    let n = cs.len();
    let negative = n > 0 && cs[0] == '-';
    let start: usize = if n > 0 && (cs[0] == '-' || cs[0] == '+') { 1 } else { 0 };
    let ghost body = s@.skip(start as int);
    proof {
        if start == 1 {
            assert(body =~= s@.drop_first());
        } else {
            assert(body =~= s@);
        }
    }
    if start >= n {
        return None;
    }
    let cap: i128 = 0x40_0000_0000_0000_0000;
    let mut acc: i128 = 0;
    let mut i: usize = start;
    while i < n
        invariant
            cs@ == s@,
            n == s@.len(),
            start <= i <= n,
            body == s@.skip(start as int),
            body == (if start == 1 { s@.drop_first() } else { s@ }),
            start == (if s@.len() > 0 && (s@[0] == '-' || s@[0] == '+') { 1int } else { 0int }),
            cap == exponent_cap(),
            forall|j: int| start <= j < i ==> is_digit(#[trigger] s@[j]),
            0 <= acc <= cap,
            acc == (if digits_value(body.take(i - start)) >= cap { cap as int } else { digits_value(body.take(i - start)) }),
            digits_value(body.take(i - start)) >= 0,
        decreases n - i,
    {
        let c = cs[i];
        if !('0' <= c && c <= '9') {
            assert(body[i - start] == c);
            return None;
        }
        let d = (c as u32 - 48) as i128;
        assert(body.take(i - start + 1).drop_last() =~= body.take(i - start));
        assert(body.take(i - start + 1).last() == c);
        if acc >= cap {
            acc = cap;
        } else {
            acc = acc * 10 + d;
            if acc > cap {
                acc = cap;
            }
        }
        i = i + 1;
    }
    assert(body.take(i - start) =~= body);
    assert(crate::number::all_digits(body));
    proof {
        if start == 1 {
            assert(body =~= s@.drop_first());
        } else {
            assert(body =~= s@);
        }
    }
    if negative {
        Some(-acc)
    } else {
        Some(acc)
    }
}

/// The value of a run of digits, if they are all digits and worth less than
/// [`digits_limit`].
fn digits_number(ds: &Vec<char>) -> (r: Option<u128>)
    ensures
        r is Some <==> digits_only(ds@) && digits_value(ds@) < digits_limit(),
        r matches Some(v) ==> v == digits_value(ds@),
{
    let limit: u128 = 1_000_000_000_000_000_000_000_000_000_000_000_000;
    let mut acc: u128 = 0;
    let mut i: usize = 0;
    while i < ds.len()
        invariant
            i <= ds@.len(),
            limit == digits_limit(),
            forall|j: int| 0 <= j < i ==> is_digit(#[trigger] ds@[j]),
            acc == digits_value(ds@.take(i as int)),
            acc < limit,
        decreases ds@.len() - i,
    {
        let c = ds[i];
        if !('0' <= c && c <= '9') {
            return None;
        }
        assert(ds@.take(i + 1).drop_last() =~= ds@.take(i as int));
        acc = acc * 10 + (c as u32 - 48) as u128;
        i = i + 1;
        if acc >= limit {
            proof {
                if digits_only(ds@) {
                    crate::number::lemma_digits_value_grows(ds@, i as int);
                }
            }
            return None;
        }
    }
    assert(ds@.take(i as int) =~= ds@);
    Some(acc)
}

/// `n` scaled by ten to the `k` and rounded, if it is at most 2^63.
fn magnitude(n: u128, k: i128) -> (r: Option<u128>)
    requires
        n < digits_limit(),
    ensures
        r matches Some(m) ==> m == scaled(n as int, k as int) && m <= 0x8000_0000_0000_0000,
        r is None ==> scaled(n as int, k as int) > 0x8000_0000_0000_0000,
{
    proof {
        lemma_scaled_extremes(n as int, k as int);
        lemma_pow10_values();
    }
    if n == 0 || k <= -37 {
        return Some(0);
    }
    if k >= 19 {
        return None;
    }
    if k >= 0 {
        if n > 0x8000_0000_0000_0000 {
            proof {
                lemma_pow10_grows(0, k as nat);
                assert(n * pow10(k as nat) >= n) by (nonlinear_arith)
                    requires
                        n >= 1,
                        pow10(k as nat) >= 1,
                ;
            }
            return None;
        }
        let mut m: u128 = n;
        let mut i: i128 = 0;
        assert(m == n * pow10(0));
        while i < k
            invariant
                0 <= i <= k < 19,
                n >= 1,
                m == n * pow10(i as nat),
                m <= 0x5_0000_0000_0000_0000,
            decreases k - i,
        {
            if m > 0x8000_0000_0000_0000 {
                proof {
                    lemma_pow10_grows(i as nat, k as nat);
                    assert(n * pow10(i as nat) <= n * pow10(k as nat)) by (nonlinear_arith)
                        requires
                            n >= 1,
                            pow10(i as nat) <= pow10(k as nat),
                    ;
                }
                return None;
            }
            m = m * 10;
            i = i + 1;
            assert(pow10(i as nat) == 10 * pow10((i - 1) as nat));
            assert(m == n * pow10(i as nat)) by (nonlinear_arith)
                requires
                    m == 10 * (n * pow10((i - 1) as nat)),
                    pow10(i as nat) == 10 * pow10((i - 1) as nat),
            ;
        }
        if m > 0x8000_0000_0000_0000 {
            return None;
        }
        return Some(m);
    }
    let mut p: u128 = 1;
    let mut i: i128 = 0;
    while i < -k
        invariant
            0 <= i <= -k <= 36,
            p == pow10(i as nat),
            p >= 1,
        decreases -k - i,
    {
        proof {
            lemma_pow10_grows((i + 1) as nat, 36);
            lemma_pow10_values();
            assert(pow10((i + 1) as nat) == 10 * pow10(i as nat));
        }
        p = p * 10;
        i = i + 1;
    }
    let m = (n + p / 2) / p;
    if m > 0x8000_0000_0000_0000 {
        return None;
    }
    Some(m)
}

/// Reads a figure column in hundredths.
pub fn parse_hundredths(text: &str) -> (r: Option<i64>)
    ensures
        match r {
            Some(v) => hundredths(text@) == Some(v as int),
            None => hundredths(text@) is None,
        },
{
    let marked = with_exponent_marks(text);
    let halves = split_fields(marked.as_str(), 'e');
    proof {
        crate::text::lemma_fields_nonempty(marked@, 'e');
    }
    if halves.len() > 2 {
        return None;
    }
    let exponent: i128 = if halves.len() == 2 {
        match read_exponent(halves[1]) {
            Some(e) => e,
            None => {
                return None;
            },
        }
    } else {
        0
    };
    let mantissa = halves[0];
    let parts = split_fields(mantissa, '.');
    proof {
        crate::text::lemma_fields_nonempty(mantissa@, '.');
    }
    if parts.len() > 2 {
        return None;
    }
    let fraction: &str = if parts.len() == 2 {
        parts[1]
    } else {
        empty_str()
    };
    let whole = chars_of(parts[0]);
    let fraction_chars = chars_of(fraction);
    let negative = whole.len() > 0 && whole[0] == '-';
    let start: usize = if whole.len() > 0 && (whole[0] == '-' || whole[0] == '+') { 1 } else { 0 };
    let ghost body = unsigned_part(whole@);
    let mut ds: Vec<char> = Vec::new();
    let mut i: usize = start;
    while i < whole.len()
        invariant
            start <= i <= whole@.len(),
            start == (if whole@.len() > 0 && (whole@[0] == '-' || whole@[0] == '+') { 1int } else { 0int }),
            ds@ == whole@.subrange(start as int, i as int),
        decreases whole@.len() - i,
    {
        ds.push(whole[i]);
        i = i + 1;
        assert(ds@ =~= whole@.subrange(start as int, i as int));
    }
    assert(ds@ =~= body);
    let mut j: usize = 0;
    while j < fraction_chars.len()
        invariant
            j <= fraction_chars@.len(),
            ds@ == body + fraction_chars@.take(j as int),
        decreases fraction_chars@.len() - j,
    {
        ds.push(fraction_chars[j]);
        j = j + 1;
        assert(ds@ =~= body + fraction_chars@.take(j as int));
    }
    assert(fraction_chars@.take(j as int) =~= fraction_chars@);
    let ghost fraction_text = fraction@;
    assert(ds@ == body + fraction_text);
    proof {
        assert(digits_only(body + fraction_text) <==> digits_only(body) && digits_only(fraction_text)) by {
            let all = body + fraction_text;
            if digits_only(body) && digits_only(fraction_text) {
                assert forall|x: int| 0 <= x < all.len() implies is_digit(#[trigger] all[x]) by {
                    if x < body.len() {
                        assert(all[x] == body[x]);
                    } else {
                        assert(all[x] == fraction_text[x - body.len()]);
                    }
                }
            }
            if digits_only(all) {
                assert forall|x: int| 0 <= x < body.len() implies is_digit(#[trigger] body[x]) by {
                    assert(all[x] == body[x]);
                }
                assert forall|x: int| 0 <= x < fraction_text.len() implies is_digit(#[trigger] fraction_text[x]) by {
                    assert(all[x + body.len()] == fraction_text[x]);
                }
            }
        }
    }
    if ds.len() == 0 {
        return None;
    }
    let n = match digits_number(&ds) {
        Some(n) => n,
        None => {
            return None;
        },
    };
    let k: i128 = exponent + 2 - fraction_chars.len() as i128;
    let ghost true_k = if halves@.len() >= 2 {
        integer_text(halves@[1]@, true).unwrap()
    } else {
        0
    } + 2 - fraction_text.len();
    proof {
        lemma_scaled_extremes(n as int, k as int);
        lemma_scaled_extremes(n as int, true_k);
    }
    let m = match magnitude(n, k) {
        Some(m) => m,
        None => {
            return None;
        },
    };
    assert(m == scaled(n as int, true_k));
    let v: i128 = if negative {
        -(m as i128)
    } else {
        m as i128
    };
    if v < -0x8000_0000_0000_0000i128 || v > 0x7FFF_FFFF_FFFF_FFFFi128 {
        return None;
    }
    Some(v as i64)
}

pub fn to_figure(text: &str) -> (v: i64)
    ensures
        v == figure_of(text@),
{
    match parse_hundredths(text) {
        Some(v) => v,
        None => 0,
    }
}

/// The consistency column: `-` when it was not measured.
pub open spec fn optional_figure_of(text: Seq<char>) -> Option<i64> {
    if text == "-"@ {
        None
    } else {
        Some(figure_of(text))
    }
}

pub fn decode_optional(text: &str) -> (v: Option<i64>)
    ensures
        v == optional_figure_of(text@),
{
    if same_text(text, "-") {
        None
    } else {
        Some(to_figure(text))
    }
}

/// One recorded test, as read back from its row. The four figures are in
/// hundredths: a speed of 72.5 wpm is 7250.
#[derive(Clone, Debug, PartialEq)]
pub struct Record {
    pub at: String,
    pub mode: Mode,
    pub limit: i64,
    pub list: String,
    pub decoration: Decoration,
    pub config: String,
    pub wpm: i64,
    pub raw: i64,
    pub accuracy: i64,
    pub consistency: Option<i64>,
    pub correct: u32,
    pub incorrect: u32,
    pub extra: u32,
    pub missed: u32,
    pub duration_ms: i64,
    pub keys: KeyTallies,
    pub slips: SlipTally,
}

/// Whether `record` is what the columns `f` of a row say.
pub open spec fn read_as(record: Record, f: Seq<Seq<char>>) -> bool {
    &&& record.at@ == f[0]
    &&& record.mode == mode_of(f[1])
    &&& record.limit == signed_of(f[2])
    &&& record.list@ == f[3]
    &&& record.decoration == flags_of(f[4])
    &&& record.config@ == config_key(mode_of(f[1]), signed_of(f[2]) as int, f[3], flags_of(f[4]))
    &&& record.wpm == figure_of(f[5])
    &&& record.raw == figure_of(f[6])
    &&& record.accuracy == figure_of(f[7])
    &&& record.consistency == optional_figure_of(f[8])
    &&& record.correct == count_of(f[9])
    &&& record.incorrect == count_of(f[10])
    &&& record.extra == count_of(f[11])
    &&& record.missed == count_of(f[12])
    &&& record.duration_ms == signed_of(f[13])
    &&& record.keys.wf()
    &&& record.keys.map() == keys_of(f[14])
    &&& record.slips.wf()
    &&& record.slips.map() == slips_of(f[15])
}

impl Record {
    /// Whether two records hold the same values.
    pub open spec fn same_as(self, other: Record) -> bool {
        &&& self.at@ == other.at@
        &&& self.mode == other.mode
        &&& self.limit == other.limit
        &&& self.list@ == other.list@
        &&& self.decoration == other.decoration
        &&& self.config@ == other.config@
        &&& self.wpm == other.wpm
        &&& self.raw == other.raw
        &&& self.accuracy == other.accuracy
        &&& self.consistency == other.consistency
        &&& self.correct == other.correct
        &&& self.incorrect == other.incorrect
        &&& self.extra == other.extra
        &&& self.missed == other.missed
        &&& self.duration_ms == other.duration_ms
        &&& self.keys.seq() == other.keys.seq()
        &&& self.keys.wf() == other.keys.wf()
        &&& self.slips.seq() == other.slips.seq()
        &&& self.slips.wf() == other.slips.wf()
    }

    /// A copy holding the same values.
    pub fn duplicate(&self) -> (r: Record)
        ensures
            r.same_as(*self),
    {
        Record {
            at: owned(self.at.as_str()),
            mode: self.mode,
            limit: self.limit,
            list: owned(self.list.as_str()),
            decoration: self.decoration,
            config: owned(self.config.as_str()),
            wpm: self.wpm,
            raw: self.raw,
            accuracy: self.accuracy,
            consistency: self.consistency,
            correct: self.correct,
            incorrect: self.incorrect,
            extra: self.extra,
            missed: self.missed,
            duration_ms: self.duration_ms,
            keys: self.keys.duplicate(),
            slips: self.slips.duplicate(),
        }
    }
}

/// Reads one row. A row without exactly the expected number of columns is
/// not a result: a hostile value with a tab in it cannot forge a column.
pub fn decode(line: &str) -> (r: Option<Record>)
    ensures
        match r {
            Some(record) => fields(line@, '\t').len() == COLUMNS && read_as(record, fields(line@, '\t')),
            None => fields(line@, '\t').len() != COLUMNS,
        },
{
    let f = split_fields(line, '\t');
    if f.len() != COLUMNS {
        return None;
    }
    let mode = decode_mode(f[1]);
    let limit = to_signed(f[2]);
    let decoration = decode_flags(f[4]);
    let config = make_key(mode, limit, f[3], decoration);
    Some(Record {
        at: owned(f[0]),
        mode,
        limit,
        list: owned(f[3]),
        decoration,
        config,
        wpm: to_figure(f[5]),
        raw: to_figure(f[6]),
        accuracy: to_figure(f[7]),
        consistency: decode_optional(f[8]),
        correct: to_integer(f[9]),
        incorrect: to_integer(f[10]),
        extra: to_integer(f[11]),
        missed: to_integer(f[12]),
        duration_ms: to_signed(f[13]),
        keys: decode_keys(f[14]),
        slips: decode_slips(f[15]),
    })
}

/// The figure columns of a result, in hundredths: a speed of 72.5 wpm is
/// 7250. `consistency` is `None` when it was not measured.
#[derive(Clone, Copy, Debug, PartialEq, Eq, Structural)]
pub struct Figures {
    pub wpm: i64,
    pub raw: i64,
    pub accuracy: i64,
    pub consistency: Option<i64>,
}

/// A figure in hundredths as a column holds it: two decimals with trailing
/// zeros dropped, but never the last one (`72.5`, `30.0`, `96.44`).
pub open spec fn figure_text(h: int) -> Seq<char> {
    let m = if h < 0 {
        -h
    } else {
        h
    };
    let fraction = m % 100;
    let tail = if fraction % 10 == 0 {
        seq![digit_char(fraction / 10)]
    } else {
        seq![digit_char(fraction / 10), digit_char(fraction % 10)]
    };
    (if h < 0 {
        seq!['-']
    } else {
        Seq::empty()
    }) + decimal((m / 100) as nat) + seq!['.'] + tail
}

/// Writes a figure in hundredths the way a column holds it.
pub fn write_figure(h: i64) -> (s: String)
    ensures
        s@ == figure_text(h as int),
{
    let m: u64 = if h < 0 {
        if h == i64::MIN {
            0x8000_0000_0000_0000u64
        } else {
            (-h) as u64
        }
    } else {
        h as u64
    };
    let fraction = m % 100;
    let mut out = String::new();
    if h < 0 {
        crate::text::push_char(&mut out, '-');
    }
    let whole = decimal_u64(m / 100);
    push_str(&mut out, whole.as_str());
    crate::text::push_char(&mut out, '.');
    crate::text::push_char(&mut out, digit_of_value(fraction / 10));
    if fraction % 10 != 0 {
        crate::text::push_char(&mut out, digit_of_value(fraction % 10));
    }
    proof {
        let ghost tail = if fraction % 10 == 0 {
            seq![digit_char((fraction / 10) as int)]
        } else {
            seq![digit_char((fraction / 10) as int), digit_char((fraction % 10) as int)]
        };
        assert(out@ =~= (if h < 0 {
            seq!['-']
        } else {
            Seq::empty()
        }) + decimal((m / 100) as nat) + seq!['.'] + tail);
    }
    out
}

fn digit_of_value(d: u64) -> (c: char)
    requires
        d < 10,
    ensures
        c == digit_char(d as int),
{
    let c = ((d as u8) + 48) as char;
    assert(c == digit_char(d as int)) by {
        assert(((d as u8) + 48) as char == ((d + 48) as u32) as char);
    }
    c
}

/// A figure written to a column reads back as the same number of hundredths.
pub proof fn lemma_figure_reads_back(h: int)
    requires
        i64::MIN <= h <= i64::MAX,
    ensures
        hundredths(figure_text(h)) == Some(h),
        figure_of(figure_text(h)) == h,
        figure_text(h).len() >= 3,
        no_breaks(figure_text(h)),
{
    let m = if h < 0 {
        -h
    } else {
        h
    };
    let fraction = m % 100;
    let digits = decimal((m / 100) as nat);
    let whole = (if h < 0 {
        seq!['-']
    } else {
        Seq::empty()
    }) + digits;
    let tail = if fraction % 10 == 0 {
        seq![digit_char(fraction / 10)]
    } else {
        seq![digit_char(fraction / 10), digit_char(fraction % 10)]
    };
    lemma_decimal_reads_back((m / 100) as nat);
    crate::number::lemma_digit_char(fraction / 10);
    crate::number::lemma_digit_char(fraction % 10);
    assert(figure_text(h) =~= whole.push('.') + tail);
    let pieces = seq![whole, tail];
    assert(joined(pieces, '.') =~= whole.push('.') + tail) by {
        assert(pieces.len() == 2);
        assert(pieces.drop_last() =~= seq![whole]);
        assert(joined(pieces.drop_last(), '.') == whole);
        assert(pieces.last() == tail);
    }
    assert forall|k: int| 0 <= k < pieces.len() implies crate::text::free_of(
        #[trigger] pieces[k],
        '.',
    ) by {
        if k == 0 {
            assert forall|i: int| 0 <= i < whole.len() implies whole[i] != '.' by {
                if h < 0 && i == 0 {
                } else if h < 0 {
                    assert(whole[i] == digits[i - 1]);
                    assert(is_digit(digits[i - 1]));
                } else {
                    assert(whole[i] == digits[i]);
                    assert(is_digit(digits[i]));
                }
            }
        }
    }
    crate::text::lemma_fields_of_joined(pieces, '.');
    assert forall|k: int| 0 <= k < pieces.len() implies no_breaks(#[trigger] pieces[k]) by {
        if k == 0 {
            assert forall|i: int| 0 <= i < whole.len() implies !is_break(#[trigger] whole[i]) by {
                if h < 0 && i == 0 {
                } else if h < 0 {
                    assert(whole[i] == digits[i - 1]);
                    assert(is_digit(digits[i - 1]));
                } else {
                    assert(whole[i] == digits[i]);
                    assert(is_digit(digits[i]));
                }
            }
        }
    }
    lemma_joined_no_breaks(pieces, '.');
    let parts = fields(figure_text(h), '.');
    assert(parts == pieces);
    let t = figure_text(h);
    assert forall|i: int| 0 <= i < t.len() implies t[i] != 'e' && t[i] != 'E' by {
        if i < whole.len() {
            assert(t[i] == whole[i]);
            if h < 0 && i == 0 {
            } else if h < 0 {
                assert(whole[i] == digits[i - 1]);
                assert(is_digit(digits[i - 1]));
            } else {
                assert(whole[i] == digits[i]);
                assert(is_digit(digits[i]));
            }
        } else if i == whole.len() {
            assert(t[i] == '.');
        } else {
            assert(t[i] == tail[i - whole.len() - 1]);
        }
    }
    assert(exponent_marks(t) =~= t);
    lemma_fields_of_joined(seq![t], 'e');
    assert(joined(seq![t], 'e') == t);
    assert(fields(exponent_marks(t), 'e') == seq![t]);
    assert(digits_only(tail));
    assert(digits_only(digits));
    if h < 0 {
        assert(whole.drop_first() =~= digits);
    } else {
        assert(whole =~= digits);
    }
    assert(unsigned_part(whole) == digits);
    let all = digits + tail;
    assert(all.drop_last() =~= digits + tail.drop_last());
    assert(all.last() == tail.last());
    if tail.len() == 2 {
        assert(all.drop_last().drop_last() =~= digits);
        assert(all.drop_last().last() == tail[0]);
        assert(digits_value(all.drop_last()) == digits_value(digits) * 10 + fraction / 10);
        assert(digits_value(all) == digits_value(all.drop_last()) * 10 + fraction % 10);
        assert(digits_value(all) == digits_value(digits) * 100 + fraction);
        assert(scaled(digits_value(all), 0) == digits_value(all));
    } else {
        assert(tail.drop_last() =~= Seq::<char>::empty());
        assert(all.drop_last() =~= digits);
        assert(digits_value(all) == digits_value(digits) * 10 + fraction / 10);
        assert(pow10(1) == 10) by {
            reveal_with_fuel(pow10, 2);
        }
        assert(scaled(digits_value(all), 1) == digits_value(all) * 10);
    }
    assert((m / 100) * 100 + fraction == m);
}

/// The columns of the row for a result.
pub open spec fn row_fields(at: Seq<char>, config: Config, figures: Figures, stats: Stats) -> Seq<
    Seq<char>,
> {
    seq![
        at,
        mode_name(config.mode),
        signed_decimal(config.limit as int),
        config.list@,
        flags_text(config.decoration),
        figure_text(figures.wpm as int),
        figure_text(figures.raw as int),
        figure_text(figures.accuracy as int),
        match figures.consistency {
            Some(c) => figure_text(c as int),
            None => "-"@,
        },
        decimal(stats.correct as nat),
        decimal(stats.incorrect as nat),
        decimal(stats.extra as nat),
        decimal(stats.missed as nat),
        signed_decimal(stats.elapsed_ms as int),
        keys_text(stats.keys.seq()),
        slips_text(stats.slips.seq()),
    ]
}

/// The row recording a result taken at `at`.
pub fn encode(at: &str, config: &Config, figures: &Figures, stats: &Stats) -> (s: String)
    ensures
        s@ == joined(row_fields(at@, *config, *figures, *stats), '\t'),
{
    let mut columns: Vec<String> = Vec::new();
    columns.push(owned(at));
    columns.push(owned(config.mode.as_str()));
    columns.push(decimal_i64(config.limit));
    columns.push(owned(config.list.as_str()));
    columns.push(encode_flags(config.decoration));
    columns.push(write_figure(figures.wpm));
    columns.push(write_figure(figures.raw));
    columns.push(write_figure(figures.accuracy));
    match figures.consistency {
        Some(c) => columns.push(write_figure(c)),
        None => columns.push(owned("-")),
    }
    columns.push(decimal_u64(stats.correct as u64));
    columns.push(decimal_u64(stats.incorrect as u64));
    columns.push(decimal_u64(stats.extra as u64));
    columns.push(decimal_u64(stats.missed as u64));
    columns.push(decimal_i64(stats.elapsed_ms));
    columns.push(encode_keys(&stats.keys));
    columns.push(encode_slips(&stats.slips));
    assert(string_views(columns@) =~= row_fields(at@, *config, *figures, *stats));
    join(&columns, '\t')
}

/// A result written as a row reads back as the same result.
///
/// The row has exactly the expected number of columns, so [`decode`] reads
/// it, and the record it reads holds the time, the settings and their key,
/// the figures, the counts and the tallies that were written. A tab in the
/// time or in the word list's name would add a column, so neither holds one.
/// A row splits back into its columns when neither the time nor the word
/// list holds a tab.
proof fn lemma_row_splits(at: Seq<char>, config: Config, figures: Figures, stats: Stats)
    requires
        free_of(at, '\t'),
        free_of(config.list@, '\t'),
        stats.keys.wf(),
        stats.slips.wf(),
    ensures
        fields(joined(row_fields(at, config, figures, stats), '\t'), '\t') == row_fields(at, config, figures, stats),
        row_fields(at, config, figures, stats).len() == COLUMNS,
{
    let f = row_fields(at, config, figures, stats);
    lemma_row_fields_no_breaks(at, config, figures, stats);
    assert forall|k: int| 0 <= k < f.len() implies free_of(#[trigger] f[k], '\t') by {
        if k != 0 && k != 3 {
            assert(no_breaks(f[k]));
        }
    }
    lemma_fields_of_joined(f, '\t');
}

/// Whether `record` holds what a row written from these values says.
pub open spec fn holds_row(record: Record, at: Seq<char>, config: Config, figures: Figures, stats: Stats) -> bool {
    &&& record.at@ == at
    &&& record.mode == config.mode
    &&& record.limit == config.limit
    &&& record.list@ == config.list@
    &&& record.decoration == config.decoration
    &&& record.config@ == config.key_spec()
    &&& record.wpm == figures.wpm
    &&& record.raw == figures.raw
    &&& record.accuracy == figures.accuracy
    &&& record.consistency == figures.consistency
    &&& record.correct == stats.correct
    &&& record.incorrect == stats.incorrect
    &&& record.extra == stats.extra
    &&& record.missed == stats.missed
    &&& record.duration_ms == stats.elapsed_ms
    &&& record.keys.map() == stats.keys.map()
    &&& record.slips.map() == stats.slips.map()
}

/// A result survives the round trip through a row: the row [`encode`] writes
/// splits into its columns again, so [`decode`] finds a record, and any
/// record read from those columns holds the time, the configuration, the
/// figures, the counts and the tallies that were written, wherever the time
/// and the list name hold no tab.
pub proof fn lemma_row_reads_back(at: Seq<char>, config: Config, figures: Figures, stats: Stats, record: Record)
    requires
        free_of(at, '\t'),
        free_of(config.list@, '\t'),
        stats.keys.wf(),
        stats.slips.wf(),
    ensures
        fields(joined(row_fields(at, config, figures, stats), '\t'), '\t') == row_fields(at, config, figures, stats),
        row_fields(at, config, figures, stats).len() == COLUMNS,
        read_as(record, row_fields(at, config, figures, stats)) ==> holds_row(record, at, config, figures, stats),
{
    reveal_strlit("-");
    let f = row_fields(at, config, figures, stats);
    lemma_mode_reads_back(config.mode);
    lemma_flags_read_back(config.decoration);
    lemma_figure_reads_back(figures.wpm as int);
    lemma_figure_reads_back(figures.raw as int);
    lemma_figure_reads_back(figures.accuracy as int);
    if let Some(c) = figures.consistency {
        lemma_figure_reads_back(c as int);
        assert(f[8] != "-"@);
    }
    lemma_keys_read_back(stats.keys.seq());
    lemma_slips_read_back(stats.slips.seq());
    lemma_signed_decimal_reads_back(config.limit as int);
    lemma_signed_decimal_reads_back(stats.elapsed_ms as int);
    lemma_count_reads_back(stats.correct as nat);
    lemma_count_reads_back(stats.incorrect as nat);
    lemma_count_reads_back(stats.extra as nat);
    lemma_count_reads_back(stats.missed as nat);
    lemma_decimal_holds_digits(stats.correct as nat);
    lemma_decimal_holds_digits(stats.incorrect as nat);
    lemma_decimal_holds_digits(stats.extra as nat);
    lemma_decimal_holds_digits(stats.missed as nat);
    lemma_row_fields_no_breaks(at, config, figures, stats);
    assert forall|k: int| 0 <= k < f.len() implies free_of(#[trigger] f[k], '\t') by {
        if k != 0 && k != 3 {
            assert(no_breaks(f[k]));
        }
    }
    lemma_fields_of_joined(f, '\t');
}

/// A row stamped with a [`timestamp`](crate::datetime::timestamp), which never
/// holds a tab, reads back wherever the list name holds none.
pub proof fn lemma_stamped_row_reads_back(
    date: Date,
    hour: u32,
    minute: u32,
    second: u32,
    config: Config,
    figures: Figures,
    stats: Stats,
    record: Record,
)
    requires
        free_of(config.list@, '\t'),
        stats.keys.wf(),
        stats.slips.wf(),
    ensures
        ({
            let at = timestamp_spec(date, hour, minute, second);
            &&& fields(joined(row_fields(at, config, figures, stats), '\t'), '\t') == row_fields(at, config, figures, stats)
            &&& row_fields(at, config, figures, stats).len() == COLUMNS
            &&& read_as(record, row_fields(at, config, figures, stats)) ==> holds_row(record, at, config, figures, stats)
        }),
{
    lemma_timestamps_fill_one_column(date, hour, minute, second);
    lemma_row_reads_back(timestamp_spec(date, hour, minute, second), config, figures, stats, record);
}

/// Every column of a row but the time and the word list holds no break.
proof fn lemma_row_fields_no_breaks(at: Seq<char>, config: Config, figures: Figures, stats: Stats)
    requires
        stats.keys.wf(),
        stats.slips.wf(),
    ensures
        forall|k: int|
            1 <= k < COLUMNS && k != 3 ==> no_breaks(#[trigger] row_fields(at, config, figures, stats)[k]),
{
    reveal_strlit("-");
    let f = row_fields(at, config, figures, stats);
    lemma_mode_reads_back(config.mode);
    lemma_flags_no_breaks(config.decoration);
    lemma_figure_reads_back(figures.wpm as int);
    lemma_figure_reads_back(figures.raw as int);
    lemma_figure_reads_back(figures.accuracy as int);
    if let Some(c) = figures.consistency {
        lemma_figure_reads_back(c as int);
    }
    lemma_keys_read_back(stats.keys.seq());
    lemma_slips_read_back(stats.slips.seq());
    lemma_signed_no_breaks(config.limit as int);
    lemma_signed_no_breaks(stats.elapsed_ms as int);
    lemma_decimal_no_breaks(stats.correct as nat);
    lemma_decimal_no_breaks(stats.incorrect as nat);
    lemma_decimal_no_breaks(stats.extra as nat);
    lemma_decimal_no_breaks(stats.missed as nat);
    assert(no_breaks("-"@));
}

/// A signed number in decimal holds no break.
proof fn lemma_signed_no_breaks(n: int)
    ensures
        no_breaks(signed_decimal(n)),
{
    if n < 0 {
        let d = decimal((-n) as nat);
        lemma_decimal_holds_digits((-n) as nat);
        assert forall|i: int| 0 <= i < (seq!['-'] + d).len() implies !is_break(#[trigger] (seq!['-'] + d)[i]) by {
            if i > 0 {
                assert((seq!['-'] + d)[i] == d[i - 1]);
                assert(is_digit(d[i - 1]));
            }
        }
    } else {
        lemma_decimal_holds_digits(n as nat);
        let d = decimal(n as nat);
        assert forall|i: int| 0 <= i < d.len() implies !is_break(#[trigger] d[i]) by {
            assert(is_digit(d[i]));
        }
    }
}

/// Decimal digits hold no break.
proof fn lemma_decimal_no_breaks(n: nat)
    ensures
        no_breaks(decimal(n)),
{
    lemma_decimal_reads_back(n);
    let d = decimal(n);
    assert forall|i: int| 0 <= i < d.len() implies !is_break(#[trigger] d[i]) by {
        assert(is_digit(d[i]));
    }
}

/// What appending a result writes to the history file: the header line
/// first when the file is new, then the result's row, each line ending in a
/// newline.
pub fn entry_text(fresh: bool, at: &str, config: &Config, figures: &Figures, stats: &Stats) -> (s: String)
    ensures
        s@ == (if fresh {
            HEADER@.push('\n')
        } else {
            Seq::empty()
        }) + joined(row_fields(at@, *config, *figures, *stats), '\t').push('\n'),
{
    let mut out = String::new();
    if fresh {
        push_str(&mut out, HEADER);
        crate::text::push_char(&mut out, '\n');
    }
    let row = encode(at, config, figures, stats);
    push_str(&mut out, row.as_str());
    crate::text::push_char(&mut out, '\n');
    out
}

/// `part` appended to a path as a further component: nothing is added to an
/// empty path, and no second `/` after one that ends in `/`.
pub open spec fn join_path(base: Seq<char>, part: Seq<char>) -> Seq<char> {
    if base.len() == 0 {
        part
    } else if base.last() == '/' {
        base + part
    } else {
        base.push('/') + part
    }
}

fn push_component(base: String, part: &str) -> (r: String)
    ensures
        r@ == join_path(base@, part@),
{
    let mut out = base;
    let n = out.as_str().unicode_len();
    if n > 0 && out.as_str().get_char(n - 1) != '/' {
        crate::text::push_char(&mut out, '/');
    }
    push_str(&mut out, part);
    proof {
        if n > 0 {
            assert(base@.last() == base@[n - 1]);
        }
    }
    out
}

/// Where results are stored: under `XDG_CONFIG_HOME` when it is set, else
/// under `.config` in `HOME` (or in the current directory when neither is
/// set).
pub open spec fn default_path_spec(config_home: Option<Seq<char>>, home: Option<Seq<char>>) -> Seq<
    char,
> {
    let base = match config_home {
        Some(b) => b,
        None => join_path(
            match home {
                Some(h) => h,
                None => "."@,
            },
            ".config"@,
        ),
    };
    join_path(join_path(base, "typr"@), "history.tsv"@)
}

/// Where results are stored, from the values of `XDG_CONFIG_HOME` and
/// `HOME`.
pub fn default_path(config_home: Option<&str>, home: Option<&str>) -> (p: String)
    ensures
        p@ == default_path_spec(
            match config_home {
                Some(b) => Some(b@),
                None => None,
            },
            match home {
                Some(h) => Some(h@),
                None => None,
            },
        ),
{
    let base = match config_home {
        Some(b) => owned(b),
        None => {
            let h = match home {
                Some(h) => owned(h),
                None => owned("."),
            };
            push_component(h, ".config")
        },
    };
    push_component(push_component(base, "typr"), "history.tsv")
}

/// A history file: where its rows are kept.
#[derive(Debug)]
pub struct History {
    path: String,
}

impl History {
    pub closed spec fn location(&self) -> Seq<char> {
        self.path@
    }

    /// A history stored at a particular path.
    pub fn new(path: String) -> (h: History)
        ensures
            h.location() == path@,
    {
        History { path }
    }

    /// The history in the usual place, from the values of `XDG_CONFIG_HOME`
    /// and `HOME`.
    pub fn open(config_home: Option<&str>, home: Option<&str>) -> (h: History)
        ensures
            h.location() == default_path_spec(
                match config_home {
                    Some(b) => Some(b@),
                    None => None,
                },
                match home {
                    Some(h) => Some(h@),
                    None => None,
                },
            ),
    {
        History::new(default_path(config_home, home))
    }

    /// Where results are stored.
    pub fn path(&self) -> (p: &str)
        ensures
            p@ == self.location(),
    {
        self.path.as_str()
    }
}

/// A line as `str::lines` yields it: without a trailing carriage return.
pub open spec fn strip_cr(line: Seq<char>) -> Seq<char> {
    if line.len() > 0 && line.last() == '\r' {
        line.drop_last()
    } else {
        line
    }
}

/// The lines of a file's contents, as `str::lines` yields them: split at
/// each newline, with no empty line after a final newline.
pub open spec fn lines_of(contents: Seq<char>) -> Seq<Seq<char>> {
    let pieces = fields(contents, '\n');
    let kept = if contents.len() == 0 {
        Seq::empty()
    } else if contents.last() == '\n' {
        pieces.drop_last()
    } else {
        pieces
    };
    kept.map_values(|line: Seq<char>| strip_cr(line))
}

/// Whether a line holds a result: it is not blank, not a comment, and has
/// the right number of columns.
pub open spec fn is_row(line: Seq<char>) -> bool {
    line.len() > 0 && line[0] != '#' && fields(line, '\t').len() == COLUMNS
}

/// The lines that hold results, in file order.
pub open spec fn rows_of(lines: Seq<Seq<char>>) -> Seq<Seq<char>>
    decreases lines.len(),
{
    if lines.len() == 0 {
        Seq::empty()
    } else if is_row(lines.last()) {
        rows_of(lines.drop_last()).push(lines.last())
    } else {
        rows_of(lines.drop_last())
    }
}

fn line_without_cr(line: &str) -> (r: String)
    ensures
        r@ == strip_cr(line@),
{
    let n = line.unicode_len();
    if n > 0 && line.get_char(n - 1) == '\r' {
        crate::text::drop_last_char(line)
    } else {
        owned(line)
    }
}

/// Every result in a history file's contents, oldest first. Blank lines,
/// comments and unreadable lines are skipped.
pub fn load_from(contents: &str) -> (r: Vec<Record>)
    ensures
        r@.len() == rows_of(lines_of(contents@)).len(),
        forall|k: int|
            0 <= k < r@.len() ==> read_as(
                #[trigger] r@[k],
                fields(rows_of(lines_of(contents@))[k], '\t'),
            ),
{
    let pieces = split_fields(contents, '\n');
    proof {
        crate::text::lemma_fields_nonempty(contents@, '\n');
    }
    let n = contents.unicode_len();
    let count: usize = if n == 0 {
        0
    } else if contents.get_char(n - 1) == '\n' {
        pieces.len() - 1
    } else {
        pieces.len()
    };
    let ghost lines = lines_of(contents@);
    assert(lines.len() == count);
    let mut out: Vec<Record> = Vec::new();
    let mut i: usize = 0;
    while i < count
        invariant
            views(pieces@) == fields(contents@, '\n'),
            lines == lines_of(contents@),
            count == lines.len(),
            count <= pieces@.len(),
            forall|j: int| 0 <= j < count ==> #[trigger] lines[j] == strip_cr(pieces@[j]@),
            i <= count,
            out@.len() == rows_of(lines.take(i as int)).len(),
            forall|k: int|
                0 <= k < out@.len() ==> read_as(
                    #[trigger] out@[k],
                    fields(rows_of(lines.take(i as int))[k], '\t'),
                ),
        decreases count - i,
    {
        let line = line_without_cr(pieces[i]);
        let ghost before = lines.take(i as int);
        let ghost after = lines.take(i + 1);
        assert(after.drop_last() =~= before);
        assert(after.last() == line@);
        let text = line.as_str();
        let row = text.unicode_len() > 0 && text.get_char(0) != '#';
        if row {
            match decode(text) {
                Some(record) => {
                    out.push(record);
                    assert(is_row(line@));
                    assert(rows_of(after) == rows_of(before).push(line@));
                },
                None => {
                    assert(!is_row(line@));
                },
            }
        } else {
            assert(!is_row(line@));
        }
        i = i + 1;
    }
    assert(lines.take(count as int) =~= lines);
    out
}

/// The lines of a file after a line is appended to it: the lines there
/// were, then the new one.
proof fn lemma_lines_after_append(contents: Seq<char>, line: Seq<char>)
    requires
        contents.len() == 0 || contents.last() == '\n',
        free_of(line, '\n'),
    ensures
        lines_of(contents + line.push('\n')) == lines_of(contents).push(strip_cr(line)),
{
    let tail = line.push('\n');
    let s = contents + tail;
    assert(s.last() == '\n');
    let ends = seq![line, Seq::<char>::empty()];
    assert(joined(ends, '\n') =~= tail) by {
        assert(ends.drop_last() =~= seq![line]);
        assert(joined(ends.drop_last(), '\n') == line);
    }
    assert forall|k: int| 0 <= k < ends.len() implies free_of(#[trigger] ends[k], '\n') by {}
    lemma_fields_of_joined(ends, '\n');
    if contents.len() == 0 {
        assert(s =~= tail);
        assert(fields(s, '\n').drop_last() =~= seq![line]);
        assert(lines_of(contents) =~= Seq::<Seq<char>>::empty());
    } else {
        crate::text::lemma_fields_concat(contents, tail, '\n');
        assert(fields(s, '\n').drop_last() =~= fields(contents, '\n').drop_last().push(line));
    }
    assert(lines_of(s) =~= lines_of(contents).push(strip_cr(line)));
}

/// Appending a result to a history keeps the results already there, in
/// order, and adds the new one last: the rows of the file, read back, are
/// the rows there were and then the new row. The time and the word list
/// hold no tab or line break, and the time does not start a comment.
pub proof fn lemma_appended_row_loads_last(
    contents: Seq<char>,
    at: Seq<char>,
    config: Config,
    figures: Figures,
    stats: Stats,
)
    requires
        contents.len() == 0 || contents.last() == '\n',
        no_breaks(at),
        at.len() > 0,
        at[0] != '#',
        no_breaks(config.list@),
        stats.keys.wf(),
        stats.slips.wf(),
    ensures
        rows_of(lines_of(contents + joined(row_fields(at, config, figures, stats), '\t').push('\n'))) == rows_of(
            lines_of(contents),
        ).push(joined(row_fields(at, config, figures, stats), '\t')),
{
    let f = row_fields(at, config, figures, stats);
    let row = joined(f, '\t');
    lemma_row_fields_no_breaks(at, config, figures, stats);
    assert forall|k: int| 0 <= k < f.len() implies free_of(#[trigger] f[k], '\n') && free_of(f[k], '\r')
        && free_of(f[k], '\t') by {
        if k != 0 && k != 3 {
            assert(no_breaks(f[k]));
        }
    }
    lemma_row_splits(at, config, figures, stats);
    lemma_joined_free_of(f, '\t', '\n');
    lemma_joined_free_of(f, '\t', '\r');
    lemma_joined_first(f, '\t');
    assert(strip_cr(row) == row);
    assert(is_row(row));
    lemma_lines_after_append(contents, row);
    let lines = lines_of(contents).push(row);
    assert(lines.drop_last() =~= lines_of(contents));
}

} // verus!
