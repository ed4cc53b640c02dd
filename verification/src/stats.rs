//! Scoring, following monkeytype's definitions.
//!
//!   * **wpm** — correctly typed characters (plus the spaces after correctly
//!     typed words) divided by five, per minute. Mistyped words earn nothing.
//!   * **raw** — the same figure ignoring correctness.
//!   * **accuracy** — correct keystrokes as a share of all keystrokes, judged at
//!     the moment each key was pressed. Fixing a typo does not restore accuracy.
//!
//! Everything here is counted in whole characters and milliseconds; the
//! figures are ratios of the counts in [`Stats`], reported in hundredths and
//! rounded half away from zero, except the figures a result is recorded
//! with, which round a tie to the even hundredth as a figure written to two
//! decimals does.
use vstd::prelude::*;

use crate::engine::{texts, Engine, EngineView, Sample, SlipTally};
use crate::history::Figures;
use crate::number::{
    lemma_rounded_even_bound, lemma_rounded_up_half, round_ratio, round_ratio_even, rounded, rounded_even,
    rounded_up_half,
};
use crate::tally::Tally;
use crate::text::{chars_of, char_count};

verus! {

/// How often one letter was attempted, and how often it went wrong.
#[derive(Clone, Copy, Debug, Default, PartialEq, Eq, Structural)]
pub struct KeyTally {
    pub attempts: u32,
    pub errors: u32,
}

/// Per-letter tallies, keyed by the letter that should have been typed.
pub type KeyTallies = Tally<char, KeyTally>;

/// A character-by-character comparison of one word against its target.
#[derive(Clone, Copy, Debug, Default, PartialEq, Eq, Structural)]
pub struct Counts {
    pub correct: u32,
    pub incorrect: u32,
    pub extra: u32,
    pub missed: u32,
}

/// How many of the first `n` positions hold the same character in both.
pub open spec fn matching(t: Seq<char>, y: Seq<char>, n: int) -> int
    decreases n,
{
    if n <= 0 {
        0
    } else {
        matching(t, y, n - 1) + if t[n - 1] == y[n - 1] { 1int } else { 0int }
    }
}

pub open spec fn min(a: int, b: int) -> int {
    if a < b { a } else { b }
}

/// `a - b`, or nothing when `b` is the larger.
pub open spec fn monus(a: int, b: int) -> int {
    if a > b { a - b } else { 0 }
}

/// The comparison of `typed` against `target`: characters in the same place
/// that agree are correct, those that differ incorrect, those past the end of
/// the target extra, and target characters never reached missed.
pub open spec fn compare_spec(target: Seq<char>, typed: Seq<char>) -> Counts {
    let overlap = min(target.len() as int, typed.len() as int);
    Counts {
        correct: matching(target, typed, overlap) as u32,
        incorrect: (overlap - matching(target, typed, overlap)) as u32,
        extra: monus(typed.len() as int, target.len() as int) as u32,
        missed: monus(target.len() as int, typed.len() as int) as u32,
    }
}

/// The sum of two comparisons, field by field.
pub open spec fn plus(a: Counts, b: Counts) -> Counts {
    Counts {
        correct: (a.correct + b.correct) as u32,
        incorrect: (a.incorrect + b.incorrect) as u32,
        extra: (a.extra + b.extra) as u32,
        missed: (a.missed + b.missed) as u32,
    }
}

pub open spec fn zero_counts() -> Counts {
    Counts { correct: 0, incorrect: 0, extra: 0, missed: 0 }
}

/// The larger of the two lengths: every character of either word lands in
/// exactly one of the four counts.
pub open spec fn footprint(target: Seq<char>, typed: Seq<char>) -> int {
    if target.len() > typed.len() { target.len() as int } else { typed.len() as int }
}

proof fn lemma_matching_bounds(t: Seq<char>, y: Seq<char>, n: int)
    ensures
        0 <= matching(t, y, n) <= (if n < 0 { 0 } else { n }),
    decreases n,
{
    if n > 0 {
        lemma_matching_bounds(t, y, n - 1);
    }
}

/// The word the typist was given at position `i`, or nothing past the end.
pub open spec fn word_at(words: Seq<Seq<char>>, i: int) -> Seq<char> {
    if 0 <= i < words.len() { words[i] } else { Seq::empty() }
}

/// The comparisons of the first `n` committed words, added up.
pub open spec fn committed_counts(v: EngineView, n: int) -> Counts
    decreases n,
{
    if n <= 0 {
        zero_counts()
    } else {
        plus(committed_counts(v, n - 1), compare_spec(word_at(v.words, n - 1), v.typed[n - 1]))
    }
}

/// The total footprint of the first `n` committed words.
pub open spec fn committed_footprint(v: EngineView, n: int) -> int
    decreases n,
{
    if n <= 0 {
        0
    } else {
        committed_footprint(v, n - 1) + footprint(word_at(v.words, n - 1), v.typed[n - 1])
    }
}

/// Committed words contribute missed characters; the word still being typed
/// does not, since the typist has not abandoned it yet.
pub open spec fn character_counts_spec(v: EngineView) -> Counts {
    let done = committed_counts(v, v.typed.len() as int);
    if v.buf.len() == 0 {
        done
    } else {
        let current = compare_spec(v.current_target(), v.buf);
        plus(done, Counts { missed: 0, ..current })
    }
}

/// Whether the counts of a test fit the `u32` fields they are kept in.
pub open spec fn counts_fit(v: EngineView) -> bool {
    committed_footprint(v, v.typed.len() as int) + footprint(v.current_target(), v.buf) + v.correct_spaces
        + v.spaces <= u32::MAX
}

proof fn lemma_compare_total(t: Seq<char>, y: Seq<char>)
    requires
        footprint(t, y) <= u32::MAX,
    ensures
        ({
            let c = compare_spec(t, y);
            c.correct + c.incorrect + c.extra + c.missed == footprint(t, y)
        }),
{
    let overlap = min(t.len() as int, y.len() as int);
    lemma_matching_bounds(t, y, overlap);
}

proof fn lemma_committed_total(v: EngineView, n: int)
    requires
        0 <= n <= v.typed.len(),
        committed_footprint(v, n) <= u32::MAX,
    ensures
        ({
            let c = committed_counts(v, n);
            c.correct + c.incorrect + c.extra + c.missed == committed_footprint(v, n)
        }),
        committed_footprint(v, n) >= 0,
    decreases n,
{
    if n > 0 {
        lemma_committed_footprint_grows(v, 0, n - 1);
        lemma_committed_total(v, n - 1);
        lemma_compare_total(word_at(v.words, n - 1), v.typed[n - 1]);
    }
}

proof fn lemma_committed_footprint_grows(v: EngineView, m: int, n: int)
    requires
        0 <= m <= n <= v.typed.len(),
    ensures
        committed_footprint(v, m) <= committed_footprint(v, n),
    decreases n - m,
{
    if m < n {
        lemma_committed_footprint_grows(v, m, n - 1);
    }
}

/// Compares a typed word against its target.
///
/// Returns counts of characters that were correct, incorrect (typed in place of
/// a different letter), extra (typed past the end of the word) and missed
/// (letters the word had that were never typed).
pub fn compare(target: &str, typed: &str) -> (c: Counts)
    requires
        target@.len() <= u32::MAX,
        typed@.len() <= u32::MAX,
    ensures
        c == compare_spec(target@, typed@),
{
    let t = chars_of(target);
    let y = chars_of(typed);
    let target_length = t.len();
    let typed_length = y.len();
    let overlap = if target_length < typed_length { target_length } else { typed_length };
    let mut correct: u32 = 0;
    let mut i: usize = 0;
    while i < overlap
        invariant
            t@ == target@,
            y@ == typed@,
            overlap == min(target@.len() as int, typed@.len() as int),
            overlap <= u32::MAX,
            i <= overlap,
            correct == matching(t@, y@, i as int),
        decreases overlap - i,
    {
        proof {
            lemma_matching_bounds(t@, y@, i as int);
        }
        if t[i] == y[i] {
            correct = correct + 1;
        }
        i = i + 1;
    }
    proof {
        lemma_matching_bounds(t@, y@, overlap as int);
    }
    Counts {
        correct,
        incorrect: overlap as u32 - correct,
        extra: if typed_length > target_length { (typed_length - target_length) as u32 } else { 0 },
        missed: if target_length > typed_length { (target_length - typed_length) as u32 } else { 0 },
    }
}

impl Counts {
    pub fn add(&mut self, other: Counts)
        requires
            old(self).correct + other.correct <= u32::MAX,
            old(self).incorrect + other.incorrect <= u32::MAX,
            old(self).extra + other.extra <= u32::MAX,
            old(self).missed + other.missed <= u32::MAX,
        ensures
            *final(self) == plus(*old(self), other),
    {
        self.correct = self.correct + other.correct;
        self.incorrect = self.incorrect + other.incorrect;
        self.extra = self.extra + other.extra;
        self.missed = self.missed + other.missed;
    }
}

/// Counts every committed word against its target, plus what has been typed
/// of the current word.
pub fn character_counts(engine: &Engine) -> (c: Counts)
    requires
        engine.wf(),
        counts_fit(engine@),
    ensures
        c == character_counts_spec(engine@),
{
    let ghost v = engine@;
    let typed = engine.typed();
    let mut totals = Counts { correct: 0, incorrect: 0, extra: 0, missed: 0 };
    let mut index: usize = 0;
    proof {
        lemma_committed_footprint_grows(v, 0, v.typed.len() as int);
        assert(v.typed.len() == typed@.len());
    }
    while index < typed.len()
        invariant
            v == engine@,
            texts(typed@) == v.typed,
            counts_fit(v),
            index <= typed@.len(),
            totals == committed_counts(v, index as int),
            committed_footprint(v, typed@.len() as int) <= u32::MAX,
        decreases typed@.len() - index,
    {
        let target = if index < engine.words.len() {
            engine.words[index].as_str()
        } else {
            crate::text::empty_str()
        };
        proof {
            lemma_committed_footprint_grows(v, index as int + 1, typed@.len() as int);
            lemma_committed_total(v, index as int + 1);
            lemma_committed_total(v, index as int);
            lemma_compare_total(word_at(v.words, index as int), v.typed[index as int]);
            assert(target@ == word_at(v.words, index as int));
            assert(typed@[index as int]@ == v.typed[index as int]);
        }
        let counts = compare(target, typed[index].as_str());
        totals.add(counts);
        index = index + 1;
    }
    if char_count(engine.buf.as_str()) > 0 {
        proof {
            lemma_committed_total(v, v.typed.len() as int);
            lemma_compare_total(v.current_target(), v.buf);
        }
        let mut in_progress = compare(engine.current_target(), engine.buf.as_str());
        in_progress.missed = 0;
        totals.add(in_progress);
    }
    totals
}

/// Per-letter attempts and mistakes, keyed by the letter that should have
/// been typed: every attempted letter, with its errors (none if it never
/// went wrong).
pub fn key_tallies(engine: &Engine) -> (t: KeyTallies)
    requires
        engine.wf(),
    ensures
        t.wf(),
        t.map().dom() == engine@.key_attempts.dom(),
        forall|c: char| #[trigger] t.map().contains_key(c) ==> t.map()[c] == (KeyTally {
            attempts: engine@.key_attempts[c],
            errors: if engine@.key_errors.contains_key(c) { engine@.key_errors[c] } else { 0 },
        }),
{
    let attempts = engine.key_attempts.entries();
    let mut out: KeyTallies = Tally::new();
    let mut i: usize = 0;
    while i < attempts.len()
        invariant
            engine.wf(),
            engine@.key_attempts == engine.key_attempts.map(),
            engine@.key_errors == engine.key_errors.map(),
            engine.key_errors.wf(),
            engine.key_attempts.wf(),
            attempts@ == engine.key_attempts.seq(),
            i <= attempts@.len(),
            out.wf(),
            forall|c: char| #[trigger] out.map().contains_key(c) <==> exists|j: int| 0 <= j < i && attempts@[j].0 == c,
            forall|c: char| #[trigger] out.map().contains_key(c) ==> out.map()[c] == (KeyTally {
                attempts: engine@.key_attempts[c],
                errors: if engine@.key_errors.contains_key(c) { engine@.key_errors[c] } else { 0 },
            }),
        decreases attempts@.len() - i,
    {
        let (letter, count) = attempts[i];
        let errors = match engine.key_errors.get(&letter) {
            Some(e) => e,
            None => 0,
        };
        proof {
            crate::tally::lemma_unique_index(attempts@, letter);
        }
        let ghost before = out.map();
        out.insert(letter, KeyTally { attempts: count, errors });
        proof {
            assert forall|c: char| #[trigger] out.map().contains_key(c) <==> exists|j: int| 0 <= j < i + 1 && attempts@[j].0 == c by {
                if out.map().contains_key(c) && c != letter {
                    assert(before.contains_key(c));
                }
                if exists|j: int| 0 <= j < i + 1 && attempts@[j].0 == c {
                    let j = choose|j: int| 0 <= j < i + 1 && attempts@[j].0 == c;
                    if j < i {
                        assert(before.contains_key(c));
                    }
                }
            }
        }
        i = i + 1;
    }
    proof {
        assert forall|c: char| #[trigger] engine@.key_attempts.contains_key(c) implies out.map().contains_key(c) by {
            let j = choose|j: int| 0 <= j < attempts@.len() && #[trigger] attempts@[j].0 == c;
            assert(attempts@[j].0 == c);
        }
        assert(out.map().dom() =~= engine@.key_attempts.dom());
    }
    out
}

fn copy_samples(samples: &[Sample]) -> (r: Vec<Sample>)
    ensures
        r@ == samples@,
{
    let mut out: Vec<Sample> = Vec::new();
    let mut i: usize = 0;
    while i < samples.len()
        invariant
            i <= samples@.len(),
            out@ == samples@.subrange(0, i as int),
        decreases samples@.len() - i,
    {
        out.push(samples[i]);
        i = i + 1;
        assert(out@ =~= samples@.subrange(0, i as int));
    }
    assert(samples@.subrange(0, samples@.len() as int) =~= samples@);
    out
}

/// What a finished (or running) test scored, as counts. The headline
/// figures are ratios of these: wpm is `(correct + correct_spaces) / 5`
/// per minute of `elapsed_ms`, raw is `(correct + incorrect + extra +
/// spaces) / 5` per minute, and accuracy is `keys_correct` out of
/// `keys_correct + keys_incorrect`.
#[derive(Clone, Debug, Default)]
pub struct Stats {
    pub correct: u32,
    pub incorrect: u32,
    pub extra: u32,
    pub missed: u32,
    pub spaces: u32,
    pub correct_spaces: u32,
    pub keys_correct: u32,
    pub keys_incorrect: u32,
    pub elapsed_ms: i64,
    pub samples: Vec<Sample>,
    pub keys: KeyTallies,
    pub slips: SlipTally,
}

impl Stats {
    /// Scores a test.
    pub fn compute(engine: &Engine, now: i64) -> (s: Stats)
        requires
            engine.wf(),
            engine@.clock_ok(now as int) || engine@.elapsed_fits(now as int),
            counts_fit(engine@),
        ensures
            ({
                let c = character_counts_spec(engine@);
                &&& s.correct == c.correct
                &&& s.incorrect == c.incorrect
                &&& s.extra == c.extra
                &&& s.missed == c.missed
            }),
            s.spaces == engine@.spaces,
            s.correct_spaces == engine@.correct_spaces,
            s.keys_correct == engine@.keys_correct,
            s.keys_incorrect == engine@.keys_incorrect,
            s.elapsed_ms == engine@.elapsed(now as int),
            s.samples@ == engine@.samples,
            s.keys.wf(),
            s.keys.map().dom() == engine@.key_attempts.dom(),
            forall|c: char| #[trigger] s.keys.map().contains_key(c) ==> s.keys.map()[c] == (KeyTally {
                attempts: engine@.key_attempts[c],
                errors: if engine@.key_errors.contains_key(c) { engine@.key_errors[c] } else { 0 },
            }),
            s.slips.wf(),
            s.slips.map() == engine@.slips,
    {
        let elapsed_ms = engine.elapsed_ms(now);
        let counts = character_counts(engine);
        Stats {
            correct: counts.correct,
            incorrect: counts.incorrect,
            extra: counts.extra,
            missed: counts.missed,
            spaces: engine.spaces,
            correct_spaces: engine.correct_spaces,
            keys_correct: engine.keys_correct,
            keys_incorrect: engine.keys_incorrect,
            elapsed_ms,
            samples: copy_samples(engine.samples()),
            keys: key_tallies(engine),
            slips: engine.slips.duplicate(),
        }
    }
}

/// Characters as a speed in hundredths of a word a minute: five characters
/// make a word, over `elapsed_ms`. Nothing is a speed before the clock has
/// moved.
pub open spec fn per_minute(chars: int, elapsed_ms: int) -> int {
    if elapsed_ms <= 0 {
        0
    } else {
        rounded(chars * 1_200_000, elapsed_ms)
    }
}

/// `part` as a share of `total`, in hundredths of a percent; 0 of nothing.
pub open spec fn share(part: int, total: int) -> int {
    if total <= 0 {
        0
    } else {
        rounded(part * 10_000, total)
    }
}

/// A speed as it is written down: [`per_minute`], but with a tie rounded to
/// the even hundredth, as a figure written to two decimals is.
pub open spec fn per_minute_written(chars: int, elapsed_ms: int) -> int {
    if elapsed_ms <= 0 {
        0
    } else {
        rounded_even(chars * 1_200_000, elapsed_ms)
    }
}

/// A share as it is written down: [`share`], but with a tie rounded to the
/// even hundredth.
pub open spec fn share_written(part: int, total: int) -> int {
    if total <= 0 {
        0
    } else {
        rounded_even(part * 10_000, total)
    }
}

fn per_minute_written_of(chars: u64, elapsed_ms: i64) -> (r: i64)
    requires
        chars < 0x10_0000_0000,
    ensures
        r == per_minute_written(chars as int, elapsed_ms as int),
{
    if elapsed_ms <= 0 {
        return 0;
    }
    let n: i128 = chars as i128 * 1_200_000;
    proof {
        assert(n <= 0x400_0000_0000_0000 * elapsed_ms) by (nonlinear_arith)
            requires
                0 <= n < 0x400_0000_0000_0000,
                elapsed_ms >= 1,
        ;
        lemma_rounded_up_half(n as int, elapsed_ms as int, 0x400_0000_0000_0000);
        lemma_rounded_even_bound(n as int, elapsed_ms as int);
    }
    round_ratio_even(n, elapsed_ms as i128) as i64
}

fn share_written_of(part: u32, total: u64) -> (r: i64)
    requires
        part <= total,
    ensures
        r == share_written(part as int, total as int),
{
    if total == 0 {
        return 0;
    }
    let n: i128 = part as i128 * 10_000;
    proof {
        assert(n <= 10_000 * total) by (nonlinear_arith)
            requires
                n == part * 10_000,
                part <= total,
        ;
        lemma_rounded_up_half(n as int, total as int, 10_000);
        lemma_rounded_even_bound(n as int, total as int);
    }
    round_ratio_even(n, total as i128) as i64
}

fn per_minute_of(chars: u64, elapsed_ms: i64) -> (r: i64)
    requires
        chars < 0x10_0000_0000,
    ensures
        r == per_minute(chars as int, elapsed_ms as int),
{
    if elapsed_ms <= 0 {
        return 0;
    }
    let n: i128 = chars as i128 * 1_200_000;
    proof {
        assert(n <= 0x400_0000_0000_0000 * elapsed_ms) by (nonlinear_arith)
            requires
                0 <= n < 0x400_0000_0000_0000,
                elapsed_ms >= 1,
        ;
        lemma_rounded_up_half(n as int, elapsed_ms as int, 0x400_0000_0000_0000);
    }
    round_ratio(n, elapsed_ms as i128) as i64
}

fn share_of(part: u32, total: u64) -> (r: i64)
    requires
        part <= total,
    ensures
        r == share(part as int, total as int),
{
    if total == 0 {
        return 0;
    }
    let n: i128 = part as i128 * 10_000;
    proof {
        assert(n <= 10_000 * total) by (nonlinear_arith)
            requires
                n == part * 10_000,
                part <= total,
        ;
        lemma_rounded_up_half(n as int, total as int, 10_000);
    }
    round_ratio(n, total as i128) as i64
}

impl Stats {
    /// Speed: correct characters and the spaces after correct words.
    pub fn wpm(&self) -> (w: i64)
        ensures
            w == per_minute(self.correct + self.correct_spaces, self.elapsed_ms as int),
    {
        per_minute_of(self.correct as u64 + self.correct_spaces as u64, self.elapsed_ms)
    }

    /// Raw speed: every character and space typed, right or wrong.
    pub fn raw(&self) -> (w: i64)
        ensures
            w == per_minute(self.correct + self.incorrect + self.extra + self.spaces, self.elapsed_ms as int),
    {
        per_minute_of(
            self.correct as u64 + self.incorrect as u64 + self.extra as u64 + self.spaces as u64,
            self.elapsed_ms,
        )
    }

    /// Accuracy: correct keystrokes as a share of all keystrokes.
    pub fn accuracy(&self) -> (a: i64)
        ensures
            a == share(self.keys_correct as int, self.keys_correct + self.keys_incorrect),
    {
        share_of(self.keys_correct, self.keys_correct as u64 + self.keys_incorrect as u64)
    }

    /// The figures a result is recorded with, each rounded to the hundredth
    /// it is written with, a tie to the even one; consistency is measured
    /// elsewhere, or not at all.
    pub fn figures(&self, consistency: Option<i64>) -> (f: Figures)
        ensures
            f == (Figures {
                wpm: per_minute_written(self.correct + self.correct_spaces, self.elapsed_ms as int) as i64,
                raw: per_minute_written(
                    self.correct + self.incorrect + self.extra + self.spaces,
                    self.elapsed_ms as int,
                ) as i64,
                accuracy: share_written(self.keys_correct as int, self.keys_correct + self.keys_incorrect) as i64,
                consistency,
            }),
    {
        let wpm = per_minute_written_of(self.correct as u64 + self.correct_spaces as u64, self.elapsed_ms);
        let raw = per_minute_written_of(
            self.correct as u64 + self.incorrect as u64 + self.extra as u64 + self.spaces as u64,
            self.elapsed_ms,
        );
        let accuracy = share_written_of(self.keys_correct, self.keys_correct as u64 + self.keys_incorrect as u64);
        Figures { wpm, raw, accuracy, consistency }
    }
}

/// The speed shown while a test runs. It stays at zero for the first second
/// so that a fast first keystroke does not read as a spike.
pub fn live_wpm(engine: &Engine, now: i64) -> (w: i64)
    requires
        engine.wf(),
        engine@.clock_ok(now as int) || engine@.elapsed_fits(now as int),
        counts_fit(engine@),
    ensures
        w == if engine@.elapsed(now as int) < 1000 {
            0
        } else {
            per_minute(character_counts_spec(engine@).correct + engine@.correct_spaces, engine@.elapsed(now as int))
        },
{
    let elapsed = engine.elapsed_ms(now);
    if elapsed < 1000 {
        return 0;
    }
    let counts = character_counts(engine);
    per_minute_of(counts.correct as u64 + engine.correct_spaces as u64, elapsed)
}

/// Rounding a quotient keeps the order of the numerators.
proof fn lemma_rounded_monotone(n1: int, n2: int, d: int)
    requires
        0 <= n1 <= n2,
        d > 0,
    ensures
        rounded_up_half(n1, d) <= rounded_up_half(n2, d),
{
    let q1 = n1 / d;
    let q2 = n2 / d;
    let r1 = n1 % d;
    let r2 = n2 % d;
    assert(n1 == q1 * d + r1 && 0 <= r1 < d) by (nonlinear_arith)
        requires
            d > 0,
            q1 == n1 / d,
            r1 == n1 % d,
    ;
    assert(n2 == q2 * d + r2 && 0 <= r2 < d) by (nonlinear_arith)
        requires
            d > 0,
            q2 == n2 / d,
            r2 == n2 % d,
    ;
    assert(q1 <= q2) by (nonlinear_arith)
        requires
            n1 == q1 * d + r1,
            n2 == q2 * d + r2,
            0 <= r1 < d,
            0 <= r2 < d,
            n1 <= n2,
    ;
    if q1 == q2 {
        assert(r1 <= r2) by (nonlinear_arith)
            requires
                n1 == q1 * d + r1,
                n2 == q2 * d + r2,
                q1 == q2,
                n1 <= n2,
        ;
    }
}

/// Speed never exceeds raw speed: what speed counts is a part of what raw
/// speed counts.
pub proof fn lemma_speed_within_raw(stats: Stats)
    requires
        stats.correct_spaces <= stats.spaces,
    ensures
        per_minute(stats.correct + stats.correct_spaces, stats.elapsed_ms as int) <= per_minute(
            stats.correct + stats.incorrect + stats.extra + stats.spaces,
            stats.elapsed_ms as int,
        ),
        0 <= per_minute(stats.correct + stats.correct_spaces, stats.elapsed_ms as int),
{
    if stats.elapsed_ms > 0 {
        let a = (stats.correct + stats.correct_spaces) * 1_200_000;
        let b = (stats.correct + stats.incorrect + stats.extra + stats.spaces) * 1_200_000;
        lemma_rounded_monotone(a, b, stats.elapsed_ms as int);
        lemma_rounded_monotone(0, a, stats.elapsed_ms as int);
    }
}

/// Whether the counts of a test fit their fields, so that it can be scored.
pub fn counts_fit_check(engine: &Engine) -> (b: bool)
    requires
        engine.wf(),
    ensures
        b == counts_fit(engine@),
{
    let ghost v = engine@;
    let typed = engine.typed();
    let mut total: u64 = 0;
    let mut index: usize = 0;
    while index < typed.len()
        invariant
            v == engine@,
            texts(typed@) == v.typed,
            index <= typed@.len(),
            total == committed_footprint(v, index as int),
            total <= u32::MAX,
        decreases typed@.len() - index,
    {
        let target_len = if index < engine.words.len() {
            char_count(engine.words[index].as_str())
        } else {
            0
        };
        let typed_len = char_count(typed[index].as_str());
        proof {
            assert(typed@[index as int]@ == v.typed[index as int]);
            if index < engine.words@.len() {
                assert(engine.words@[index as int]@ == v.words[index as int]);
            }
        }
        let size = if target_len > typed_len { target_len } else { typed_len };
        if size as u64 > u32::MAX as u64 - total {
            proof {
                lemma_committed_footprint_grows(v, index as int + 1, v.typed.len() as int);
                lemma_footprint_nonneg(v, v.typed.len() as int);
            }
            return false;
        }
        total = total + size as u64;
        index = index + 1;
    }
    let current = engine.current_target();
    let a = char_count(current);
    let b = char_count(engine.buf.as_str());
    let size: u128 = if a > b { a as u128 } else { b as u128 };
    total as u128 + size + engine.correct_spaces as u128 + engine.spaces as u128 <= u32::MAX as u128
}

proof fn lemma_footprint_nonneg(v: EngineView, n: int)
    ensures
        committed_footprint(v, n) >= 0,
    decreases n,
{
    if n > 0 {
        lemma_footprint_nonneg(v, n - 1);
    }
}

/// Accuracy is a percentage: a share of the keystrokes is between none and
/// all of them.
pub proof fn lemma_accuracy_is_a_percentage(part: int, total: int)
    requires
        0 <= part <= total,
    ensures
        0 <= share(part, total) <= 10_000,
        part == total && total > 0 ==> share(part, total) == 10_000,
{
    if total > 0 {
        assert(part * 10_000 <= 10_000 * total) by (nonlinear_arith)
            requires
                0 <= part <= total,
        ;
        lemma_rounded_up_half(part * 10_000, total, 10_000);
        if part == total {
            assert((total * 10_000) / total == 10_000 && (total * 10_000) % total == 0) by (nonlinear_arith)
                requires
                    total > 0,
            ;
        }
    }
}

/// A speed in hundredths from fewer than 2^36 characters is between zero
/// and 2^58.
pub(crate) proof fn lemma_per_minute_bound(chars: int, elapsed_ms: int)
    requires
        0 <= chars < 0x10_0000_0000,
    ensures
        0 <= per_minute(chars, elapsed_ms) <= 0x400_0000_0000_0000,
{
    if elapsed_ms > 0 {
        assert(chars * 1_200_000 <= 0x400_0000_0000_0000 * elapsed_ms) by (nonlinear_arith)
            requires
                0 <= chars < 0x10_0000_0000,
                elapsed_ms >= 1,
        ;
        lemma_rounded_up_half(chars * 1_200_000, elapsed_ms, 0x400_0000_0000_0000);
    }
}

} // verus!
