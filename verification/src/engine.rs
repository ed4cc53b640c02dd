//! The typing test as a state machine.
//!
//! Time is always passed in rather than read, and nothing here touches a
//! terminal, so a whole test can be replayed keystroke by keystroke.
//!
//! ## Rules
//!
//!   * A word is committed by pressing space, which advances to the next word
//!     whether or not the word was typed correctly.
//!   * Characters typed past the end of a word are kept as "extra" characters
//!     rather than being swallowed.
//!   * Backspace at the start of a word steps back to the previous word only if
//!     that word contains a mistake, unless [`Backtrack::Free`] is in force.
//!   * In word and quote modes, typing the final word correctly ends the test
//!     without needing a trailing space.
//!
//! [`EngineView`] is the mathematical model of an engine; every operation is
//! specified as a function on it.
use vstd::prelude::*;

use crate::tally::Tally;
use crate::text::{char_count, drop_last_char, empty_str, push_char, same_text};

verus! {

#[derive(Clone, Copy, Debug, PartialEq, Eq, Structural)]
pub enum Mode {
    Time,
    Words,
    Quote,
}

/// The name a mode is recorded under.
pub open spec fn mode_name(mode: Mode) -> Seq<char> {
    match mode {
        Mode::Time => seq!['t', 'i', 'm', 'e'],
        Mode::Words => seq!['w', 'o', 'r', 'd', 's'],
        Mode::Quote => seq!['q', 'u', 'o', 't', 'e'],
    }
}

impl Mode {
    pub fn as_str(self) -> (s: &'static str)
        ensures
            s@ == mode_name(self),
    {
        match self {
            Mode::Time => {
                proof {
                    reveal_strlit("time");
                }
                "time"
            },
            Mode::Words => {
                proof {
                    reveal_strlit("words");
                }
                "words"
            },
            Mode::Quote => {
                proof {
                    reveal_strlit("quote");
                }
                "quote"
            },
        }
    }
}

/// A keystroke, already interpreted.
#[derive(Clone, Copy, Debug, PartialEq, Eq, Structural)]
pub enum Key {
    Char(char),
    Space,
    Backspace,
    BackspaceWord,
}

/// How far the typist has got with a particular word.
#[derive(Clone, Copy, Debug, PartialEq, Eq, Structural)]
pub enum Status {
    Done,
    Current,
    Pending,
}

/// Whether the typist may return to a word they already typed correctly.
#[derive(Clone, Copy, Debug, PartialEq, Eq, Structural)]
pub enum Backtrack {
    /// Only words containing a mistake can be revisited.
    Strict,
    /// Any previous word can be revisited.
    Free,
}

/// What to leave in the buffer after stepping back into a previous word.
#[derive(Clone, Copy, Debug, PartialEq, Eq, Structural)]
pub enum Restore {
    /// Put the previous attempt back, ready to be corrected.
    Text,
    /// Start the word again from nothing.
    Cleared,
}

/// A slice of the test used for the results graph: `chars` keystrokes, of
/// which `errors` were wrong, landed in the `span_ms` milliseconds that end
/// `at_ms` milliseconds after the first keystroke.
#[derive(Clone, Copy, Debug, PartialEq, Eq, Structural)]
pub struct Sample {
    pub at_ms: i64,
    pub span_ms: i64,
    pub chars: u32,
    pub errors: u32,
}

/// One word paired with what was typed for it, for rendering.
#[derive(Clone, Copy, Debug, PartialEq, Eq)]
pub struct Word<'a> {
    pub index: usize,
    pub target: &'a str,
    pub typed: &'a str,
    pub status: Status,
}

/// Per-letter tallies, keyed by the letter that *should* have been typed.
pub type LetterTally = Tally<char, u32>;

/// Letter confusions, keyed by `(expected, actual)`.
pub type SlipTally = Tally<(char, char), u32>;

/// Adds one to what `k` maps to, counting an absent key as zero.
pub open spec fn bump<K>(m: Map<K, u32>, k: K) -> Map<K, u32> {
    m.insert(k, if m.contains_key(k) { (m[k] + 1) as u32 } else { 1u32 })
}

/// Whether the count for `k` can take one more.
pub open spec fn below_max<K>(m: Map<K, u32>, k: K) -> bool {
    !m.contains_key(k) || m[k] < u32::MAX
}

/// The mathematical state of a test.
pub struct EngineView {
    pub mode: Mode,
    pub limit: int,
    pub words: Seq<Seq<char>>,
    pub buf: Seq<char>,
    pub index: int,
    pub keys_correct: int,
    pub keys_incorrect: int,
    pub spaces: int,
    pub correct_spaces: int,
    pub key_attempts: Map<char, u32>,
    pub key_errors: Map<char, u32>,
    pub slips: Map<(char, char), u32>,
    pub typed: Seq<Seq<char>>,
    pub started_at: Option<int>,
    pub finished_at: Option<int>,
    pub samples: Seq<Sample>,
    pub sample_chars: int,
    pub sample_errors: int,
    pub sampled_ms: int,
    pub backtrack: Backtrack,
}

/// A test that has not started: the words to type, and nothing typed.
pub open spec fn fresh(mode: Mode, limit: int, words: Seq<Seq<char>>, backtrack: Backtrack) -> EngineView {
    EngineView {
        mode,
        limit,
        words,
        buf: Seq::empty(),
        index: 0,
        keys_correct: 0,
        keys_incorrect: 0,
        spaces: 0,
        correct_spaces: 0,
        key_attempts: Map::empty(),
        key_errors: Map::empty(),
        slips: Map::empty(),
        typed: Seq::empty(),
        started_at: None,
        finished_at: None,
        samples: Seq::empty(),
        sample_chars: 0,
        sample_errors: 0,
        sampled_ms: 0,
        backtrack,
    }
}

impl EngineView {
    /// Every keystroke that has been judged, right or wrong.
    pub open spec fn keystrokes(self) -> int {
        self.keys_correct + self.keys_incorrect
    }

    /// The state invariant: every counter within its `u32` field, the
    /// correct part of a count within the count, and no more words filed
    /// than keystrokes judged.
    pub open spec fn wf(self) -> bool {
        &&& self.index == self.typed.len()
        &&& 0 <= self.keys_correct <= u32::MAX
        &&& 0 <= self.keys_incorrect <= u32::MAX
        &&& 0 <= self.correct_spaces <= self.spaces <= u32::MAX
        &&& 0 <= self.sample_errors <= self.sample_chars <= u32::MAX
        &&& self.index <= self.keystrokes()
        &&& 0 <= self.sampled_ms
        &&& (self.finished_at is Some ==> self.started_at is Some)
        &&& (self.started_at is None ==> self.sampled_ms == 0)
        &&& match (self.started_at, self.finished_at) {
            (Some(s), Some(f)) => i64::MIN <= f - s <= i64::MAX && f - s - self.sampled_ms >= i64::MIN,
            _ => true,
        }
    }

    /// Whether the clock reading `now` keeps every time computation in range.
    pub open spec fn clock_ok(self, now: int) -> bool {
        &&& (self.mode == Mode::Time ==> i64::MIN <= self.limit * 1000 <= i64::MAX)
        &&& match self.started_at {
            Some(s) => {
                &&& i64::MIN <= now - s <= i64::MAX
                &&& now - s - self.sampled_ms >= i64::MIN
                &&& (self.mode == Mode::Time ==> i64::MIN <= s + self.limit * 1000 <= i64::MAX
                    && self.limit * 1000 - self.sampled_ms >= i64::MIN)
            },
            None => (self.mode == Mode::Time ==> i64::MIN <= now + self.limit * 1000 <= i64::MAX),
        }
    }

    /// Whether a tick at `now` that ends a timed test keeps its time
    /// arithmetic in range.
    pub open spec fn tick_fits(self, now: int) -> bool {
        let c = self.collect_samples(now);
        (c.mode == Mode::Time && c.elapsed(now) >= c.limit * 1000) ==> c.limit * 1000 - c.sampled_ms >= i64::MIN
    }

    /// Whether the elapsed time at clock reading `now` fits in an `i64`.
    pub open spec fn elapsed_fits(self, now: int) -> bool {
        i64::MIN <= self.elapsed(now) <= i64::MAX
    }

    /// Whether a tick at `now` keeps every time computation in range. A tick
    /// does nothing before the first keystroke or after the end; otherwise
    /// the clock reading is one a keystroke can take, and a tick that ends a
    /// timed test can close its samples.
    pub open spec fn tick_ok(self, now: int) -> bool {
        self.started() && !self.finished() ==> self.clock_ok(now) && self.tick_fits(now)
    }

    /// Whether every time computation at `now` is in range: those of a
    /// keystroke and of a tick, and the time a timed test has left.
    pub open spec fn clock_sane(self, now: int) -> bool {
        &&& self.clock_ok(now)
        &&& self.tick_ok(now)
        &&& (self.mode == Mode::Time ==> i64::MIN <= self.limit * 1000 - self.elapsed(now) <= i64::MAX)
    }

    /// Whether judging one more keystroke, right or wrong as `correct` says,
    /// keeps the counters it adds to within their `u32` fields.
    pub open spec fn count_fits(self, correct: bool) -> bool {
        &&& self.sample_chars < u32::MAX
        &&& if correct {
            self.keys_correct < u32::MAX
        } else {
            self.keys_incorrect < u32::MAX
        }
    }

    /// Whether filing a keystroke of `actual` against `expected` keeps the
    /// letter's tallies within `u32`.
    pub open spec fn letter_fits(self, expected: Option<char>, actual: char) -> bool {
        match expected {
            None => true,
            Some(e) => {
                &&& below_max(self.key_attempts, e)
                &&& (e != actual ==> below_max(self.key_errors, e) && below_max(self.slips, (e, actual)))
            },
        }
    }

    /// Whether a space keeps its counters in range: with nothing typed it
    /// does nothing; otherwise it judges a keystroke and files a word.
    pub open spec fn space_fits(self) -> bool {
        self.buf.len() == 0 || (self.count_fits(self.buf == self.current_target()) && self.spaces
            < u32::MAX && self.index < usize::MAX)
    }

    /// Whether the keystroke `key` keeps every counter it adds to within
    /// its field. Keystrokes after the end add to nothing.
    pub open spec fn key_fits(self, key: Key) -> bool {
        self.finished() || match key {
            Key::Space => self.space_fits(),
            Key::Char(c) => if c == ' ' {
                self.space_fits()
            } else {
                &&& self.count_fits(self.expected() == Some(c))
                &&& self.letter_fits(self.expected(), c)
                &&& self.index < usize::MAX
            },
            _ => true,
        }
    }

    /// The word being typed, or nothing once the words have run out.
    pub open spec fn current_target(self) -> Seq<char> {
        if 0 <= self.index < self.words.len() {
            self.words[self.index]
        } else {
            Seq::empty()
        }
    }

    pub open spec fn started(self) -> bool {
        self.started_at is Some
    }

    pub open spec fn finished(self) -> bool {
        self.finished_at is Some
    }

    /// Milliseconds since the first keystroke: frozen once the test is over.
    pub open spec fn elapsed(self, now: int) -> int {
        match (self.started_at, self.finished_at) {
            (None, _) => 0,
            (Some(s), None) => now - s,
            (Some(s), Some(f)) => f - s,
        }
    }

    /// The clock starts on the first keystroke.
    pub open spec fn start(self, now: int) -> Self {
        if self.started_at is None {
            EngineView { started_at: Some(now), ..self }
        } else {
            self
        }
    }

    /// One more keystroke judged, and one more in the current sample.
    pub open spec fn count_key(self, correct: bool) -> Self {
        if correct {
            EngineView { keys_correct: self.keys_correct + 1, sample_chars: self.sample_chars + 1, ..self }
        } else {
            EngineView {
                keys_incorrect: self.keys_incorrect + 1,
                sample_chars: self.sample_chars + 1,
                sample_errors: self.sample_errors + 1,
                ..self
            }
        }
    }

    /// A keystroke is filed against the letter that should have been typed;
    /// one past the end of the word has no such letter and is filed nowhere.
    pub open spec fn track_letter(self, expected: Option<char>, actual: char) -> Self {
        match expected {
            None => self,
            Some(e) => if e == actual {
                EngineView { key_attempts: bump(self.key_attempts, e), ..self }
            } else {
                EngineView {
                    key_attempts: bump(self.key_attempts, e),
                    key_errors: bump(self.key_errors, e),
                    slips: bump(self.slips, (e, actual)),
                    ..self
                }
            },
        }
    }

    /// Closes every whole second that has passed since the last sample.
    pub open spec fn collect_samples(self, now: int) -> Self
        decreases self.elapsed(now) - self.sampled_ms,
    {
        if self.elapsed(now) - self.sampled_ms >= 1000 {
            let at = self.sampled_ms + 1000;
            let next = EngineView {
                samples: self.samples.push(
                    Sample {
                        at_ms: at as i64,
                        span_ms: 1000,
                        chars: self.sample_chars as u32,
                        errors: self.sample_errors as u32,
                    },
                ),
                sample_chars: 0,
                sample_errors: 0,
                sampled_ms: at,
                ..self
            };
            next.collect_samples(now)
        } else {
            self
        }
    }

    /// Keeps the tail of the test as a sample if it is at least a quarter of
    /// a second long and holds a keystroke.
    pub open spec fn close_partial_sample(self, now: int) -> Self {
        let leftover = self.elapsed(now) - self.sampled_ms;
        if leftover >= 250 && self.sample_chars > 0 {
            EngineView {
                samples: self.samples.push(
                    Sample {
                        at_ms: (self.sampled_ms + leftover) as i64,
                        span_ms: leftover as i64,
                        chars: self.sample_chars as u32,
                        errors: self.sample_errors as u32,
                    },
                ),
                sample_chars: 0,
                sample_errors: 0,
                ..self
            }
        } else {
            self
        }
    }

    /// Ends the test. A timed test never runs past its limit.
    pub open spec fn finish(self, now: int) -> Self {
        if self.finished() {
            self
        } else {
            match self.started_at {
                None => EngineView { started_at: Some(now), finished_at: Some(now), ..self },
                Some(s) => {
                    let f = if self.mode == Mode::Time {
                        if now < s + self.limit * 1000 {
                            now
                        } else {
                            s + self.limit * 1000
                        }
                    } else {
                        now
                    };
                    let sampled = self.collect_samples(f).close_partial_sample(f);
                    EngineView { finished_at: Some(f), ..sampled }
                },
            }
        }
    }

    /// Files the buffer as the typed word and moves on; a space counts as a
    /// keystroke, correct when the word was.
    pub open spec fn commit(self, space_pressed: bool, now: int) -> Self {
        let correct = self.buf == self.current_target();
        let counted = if space_pressed {
            let c = self.count_key(correct);
            EngineView {
                spaces: c.spaces + 1,
                correct_spaces: if correct { c.correct_spaces + 1 } else { c.correct_spaces },
                ..c
            }
        } else {
            self
        };
        let moved = EngineView {
            typed: counted.typed.push(counted.buf),
            buf: Seq::empty(),
            index: counted.index + 1,
            ..counted
        };
        if moved.mode != Mode::Time && moved.index >= moved.words.len() {
            moved.finish(now)
        } else {
            moved
        }
    }

    /// In word and quote modes the last word needs no trailing space.
    pub open spec fn maybe_finish_on_last_word(self, now: int) -> Self {
        if self.mode == Mode::Time {
            self
        } else if self.index + 1 == self.words.len() && self.buf == self.current_target() {
            self.commit(false, now).finish(now)
        } else {
            self
        }
    }

    /// The letter the next keystroke should be, if the word has one.
    pub open spec fn expected(self) -> Option<char> {
        if self.buf.len() < self.current_target().len() {
            Some(self.current_target()[self.buf.len() as int])
        } else {
            None
        }
    }

    pub open spec fn character(self, c: char, now: int) -> Self {
        let started = self.start(now);
        let expected = started.expected();
        let typed = EngineView { buf: started.buf.push(c), ..started };
        typed.count_key(expected == Some(c)).track_letter(expected, c).maybe_finish_on_last_word(now)
    }

    pub open spec fn space(self, now: int) -> Self {
        if self.buf.len() == 0 {
            self
        } else {
            self.commit(true, now)
        }
    }

    /// Whether the word before the current one was typed wrong.
    pub open spec fn previous_has_mistake(self) -> bool {
        let previous_index = self.index - 1;
        !(previous_index < self.words.len() && self.words[previous_index] == self.typed.last())
    }

    /// Steps back into the previous word when the rules allow it.
    pub open spec fn step_back(self, restore: Restore) -> Self {
        if self.index == 0 || self.typed.len() == 0 {
            self
        } else if self.backtrack == Backtrack::Free || self.previous_has_mistake() {
            EngineView {
                index: self.index - 1,
                typed: self.typed.drop_last(),
                buf: match restore {
                    Restore::Text => self.typed.last(),
                    Restore::Cleared => Seq::empty(),
                },
                ..self
            }
        } else {
            self
        }
    }

    /// What a keystroke does. Keystrokes after the end change nothing.
    pub open spec fn key(self, key: Key, now: int) -> Self {
        if self.finished() {
            self
        } else {
            match key {
                Key::Space => self.space(now),
                Key::Char(c) => if c == ' ' {
                    self.space(now)
                } else {
                    self.character(c, now)
                },
                Key::Backspace => if self.buf.len() == 0 {
                    self.step_back(Restore::Text)
                } else {
                    EngineView { buf: self.buf.drop_last(), ..self }
                },
                Key::BackspaceWord => if self.buf.len() == 0 {
                    self.step_back(Restore::Cleared)
                } else {
                    EngineView { buf: Seq::empty(), ..self }
                },
            }
        }
    }

    /// Advancing the clock closes finished seconds and ends a timed test
    /// once its limit has passed.
    pub open spec fn tick(self, now: int) -> Self {
        if !self.started() || self.finished() {
            self
        } else {
            let sampled = self.collect_samples(now);
            if sampled.mode == Mode::Time && sampled.elapsed(now) >= sampled.limit * 1000 {
                sampled.finish(now)
            } else {
                sampled
            }
        }
    }
}

pub struct Engine {
    pub mode: Mode,
    pub limit: i64,
    pub words: Vec<String>,
    pub buf: String,
    pub index: usize,
    pub keys_correct: u32,
    pub keys_incorrect: u32,
    pub spaces: u32,
    pub correct_spaces: u32,
    pub key_attempts: LetterTally,
    pub key_errors: LetterTally,
    pub slips: SlipTally,
    pub typed: Vec<String>,
    pub started_at: Option<i64>,
    pub finished_at: Option<i64>,
    pub samples: Vec<Sample>,
    pub sample_chars: u32,
    pub sample_errors: u32,
    pub sampled_ms: i64,
    pub backtrack: Backtrack,
}

/// The characters of each string.
pub open spec fn texts(v: Seq<String>) -> Seq<Seq<char>> {
    v.map_values(|s: String| s@)
}

pub open spec fn opt_int(o: Option<i64>) -> Option<int> {
    match o {
        Some(x) => Some(x as int),
        None => None,
    }
}

impl View for Engine {
    type V = EngineView;

    open spec fn view(&self) -> EngineView {
        EngineView {
            mode: self.mode,
            limit: self.limit as int,
            words: texts(self.words@),
            buf: self.buf@,
            index: self.index as int,
            keys_correct: self.keys_correct as int,
            keys_incorrect: self.keys_incorrect as int,
            spaces: self.spaces as int,
            correct_spaces: self.correct_spaces as int,
            key_attempts: self.key_attempts.map(),
            key_errors: self.key_errors.map(),
            slips: self.slips.map(),
            typed: texts(self.typed@),
            started_at: opt_int(self.started_at),
            finished_at: opt_int(self.finished_at),
            samples: self.samples@,
            sample_chars: self.sample_chars as int,
            sample_errors: self.sample_errors as int,
            sampled_ms: self.sampled_ms as int,
            backtrack: self.backtrack,
        }
    }
}

impl Engine {
    /// The invariant: the model's, plus well-formed tallies, plus the
    /// public fields agreeing with the model.
    pub open spec fn wf(&self) -> bool {
        &&& self@.wf()
        &&& self.key_attempts.wf()
        &&& self.key_errors.wf()
        &&& self.slips.wf()
    }

    pub fn new(mode: Mode, limit: i64, words: Vec<String>, backtrack: Backtrack) -> (e: Self)
        ensures
            e.wf(),
            e@ == fresh(mode, limit as int, texts(words@), backtrack),
    {
        let e = Engine {
            mode,
            limit,
            words,
            buf: String::new(),
            index: 0,
            keys_correct: 0,
            keys_incorrect: 0,
            spaces: 0,
            correct_spaces: 0,
            key_attempts: Tally::new(),
            key_errors: Tally::new(),
            slips: Tally::new(),
            typed: Vec::new(),
            started_at: None,
            finished_at: None,
            samples: Vec::new(),
            sample_chars: 0,
            sample_errors: 0,
            sampled_ms: 0,
            backtrack,
        };
        assert(texts(e.typed@) =~= Seq::<Seq<char>>::empty());
        e
    }

    /// The words typed so far, in order, excluding the word in progress.
    pub fn typed(&self) -> (r: &[String])
        ensures
            texts(r@) == self@.typed,
    {
        self.typed.as_slice()
    }

    /// The word currently being typed.
    pub fn current_target(&self) -> (r: &str)
        ensures
            r@ == self@.current_target(),
    {
        if self.index < self.words.len() {
            self.words[self.index].as_str()
        } else {
            empty_str()
        }
    }

    /// Whether the test has started; the clock starts on the first keystroke.
    pub fn started(&self) -> (b: bool)
        ensures
            b == self@.started(),
    {
        self.started_at.is_some()
    }

    /// Whether the test is over.
    pub fn finished(&self) -> (b: bool)
        ensures
            b == self@.finished(),
    {
        self.finished_at.is_some()
    }

    /// Whether `now` is a clock reading a keystroke can take.
    pub fn clock_ok(&self, now: i64) -> (b: bool)
        ensures
            b == self@.clock_ok(now as int),
    {
        let low: i128 = -0x8000_0000_0000_0000;
        let high: i128 = 0x7FFF_FFFF_FFFF_FFFF;
        let limit_ms: i128 = self.limit as i128 * 1000;
        let timed = self.mode == Mode::Time;
        if timed && (limit_ms < low || limit_ms > high) {
            return false;
        }
        match self.started_at {
            Some(s) => {
                let run = now as i128 - s as i128;
                if run < low || run > high || run - (self.sampled_ms as i128) < low {
                    return false;
                }
                if timed {
                    let end = s as i128 + limit_ms;
                    if end < low || end > high || limit_ms - (self.sampled_ms as i128) < low {
                        return false;
                    }
                }
                true
            },
            None => {
                let end = now as i128 + limit_ms;
                !timed || (low <= end && end <= high)
            },
        }
    }

    /// Whether the elapsed time at `now` fits an `i64`.
    pub fn elapsed_fits(&self, now: i64) -> (b: bool)
        ensures
            b == self@.elapsed_fits(now as int),
    {
        let run: i128 = match (self.started_at, self.finished_at) {
            (None, _) => 0,
            (Some(s), None) => now as i128 - s as i128,
            (Some(s), Some(f)) => f as i128 - s as i128,
        };
        -0x8000_0000_0000_0000 <= run && run <= 0x7FFF_FFFF_FFFF_FFFF
    }

    /// The letter the next keystroke should be, if the word has one.
    fn expected(&self) -> (r: Option<char>)
        ensures
            r == self@.expected(),
    {
        let target = self.current_target();
        let typed_len = char_count(self.buf.as_str());
        if typed_len < char_count(target) {
            Some(target.get_char(typed_len))
        } else {
            None
        }
    }

    fn count_fits(&self, correct: bool) -> (b: bool)
        ensures
            b == self@.count_fits(correct),
    {
        self.sample_chars < u32::MAX && if correct {
            self.keys_correct < u32::MAX
        } else {
            self.keys_incorrect < u32::MAX
        }
    }

    fn letter_fits(&self, expected: Option<char>, actual: char) -> (b: bool)
        requires
            self.wf(),
        ensures
            b == self@.letter_fits(expected, actual),
    {
        match expected {
            None => true,
            Some(e) => {
                let attempts = match self.key_attempts.get(&e) {
                    Some(n) => n < u32::MAX,
                    None => true,
                };
                let errors = match self.key_errors.get(&e) {
                    Some(n) => n < u32::MAX,
                    None => true,
                };
                let slips = match self.slips.get(&(e, actual)) {
                    Some(n) => n < u32::MAX,
                    None => true,
                };
                attempts && (e == actual || errors && slips)
            },
        }
    }

    /// Whether the keystroke `key` keeps every counter it adds to within its
    /// field.
    pub fn key_fits(&self, key: Key) -> (b: bool)
        requires
            self.wf(),
        ensures
            b == self@.key_fits(key),
    {
        if self.finished() {
            return true;
        }
        let c = match key {
            Key::Space => ' ',
            Key::Char(c) => c,
            Key::Backspace | Key::BackspaceWord => {
                return true;
            },
        };
        if c == ' ' {
            if self.buf.unicode_len() == 0 {
                return true;
            }
            let correct = same_text(self.buf.as_str(), self.current_target());
            return self.count_fits(correct) && self.spaces < u32::MAX && self.index < usize::MAX;
        }
        let expected = self.expected();
        self.count_fits(expected == Some(c)) && self.letter_fits(expected, c) && self.index < usize::MAX
    }

    /// Whether a tick at `now` can be taken.
    pub fn tick_ok(&self, now: i64) -> (b: bool)
        requires
            self.wf(),
        ensures
            b == self@.tick_ok(now as int),
    {
        let s = match self.started_at {
            Some(s) => s,
            None => {
                return true;
            },
        };
        if self.finished() {
            return true;
        }
        if !self.clock_ok(now) {
            return false;
        }
        proof {
            lemma_collect_keeps(self@, now as int);
        }
        if self.mode != Mode::Time {
            return true;
        }
        let elapsed: i128 = now as i128 - s as i128;
        let limit_ms: i128 = self.limit as i128 * 1000;
        if elapsed < limit_ms {
            return true;
        }
        let sampled = self.sampled_ms as i128;
        let gap = elapsed - sampled;
        let collected = if gap >= 1000 {
            sampled + 1000 * (gap / 1000)
        } else {
            sampled
        };
        proof {
            lemma_collected_mark(self@, now as int);
        }
        limit_ms - collected >= -0x8000_0000_0000_0000
    }

    /// Whether `now` is a clock reading every operation can take.
    pub fn clock_sane(&self, now: i64) -> (b: bool)
        requires
            self.wf(),
        ensures
            b == self@.clock_sane(now as int),
    {
        if !self.clock_ok(now) || !self.tick_ok(now) {
            return false;
        }
        if self.mode != Mode::Time {
            return true;
        }
        proof {
            lemma_clock_ok_elapsed(self@, now as int);
        }
        let left = self.limit as i128 * 1000 - self.elapsed_ms(now) as i128;
        -0x8000_0000_0000_0000 <= left && left <= 0x7FFF_FFFF_FFFF_FFFF
    }

    /// Milliseconds elapsed since the first keystroke.
    pub fn elapsed_ms(&self, now: i64) -> (ms: i64)
        requires
            self.wf(),
            self@.clock_ok(now as int) || self@.elapsed_fits(now as int),
        ensures
            ms == self@.elapsed(now as int),
    {
        match (self.started_at, self.finished_at) {
            (None, _) => 0,
            (Some(started), None) => now - started,
            (Some(started), Some(finished)) => finished - started,
        }
    }

    /// Seconds left in a timed test, rounded up. `None` in other modes.
    pub fn remaining_seconds(&self, now: i64) -> (r: Option<i64>)
        requires
            self.wf(),
            self@.clock_ok(now as int),
            self@.mode == Mode::Time ==> i64::MIN <= self@.limit * 1000 - self@.elapsed(now as int) <= i64::MAX,
        ensures
            self@.mode != Mode::Time ==> r is None,
            self@.mode == Mode::Time ==> r == Some(
                (if self@.limit * 1000 - self@.elapsed(now as int) <= 0 {
                    0
                } else {
                    (self@.limit * 1000 - self@.elapsed(now as int) + 999) / 1000
                }) as i64,
            ),
    {
        if self.mode != Mode::Time {
            return None;
        }
        let elapsed = self.elapsed_ms(now);
        let left = self.limit * 1000 - elapsed;
        if left <= 0 {
            Some(0)
        } else {
            Some(left / 1000 + if left % 1000 == 0 { 0 } else { 1 })
        }
    }

    /// How far through the words the typist is, as `(done, total)`.
    pub fn progress(&self) -> (r: (usize, usize))
        ensures
            r.0 == self@.index,
            r.1 == self@.words.len(),
    {
        (self.index, self.words.len())
    }

    /// True when the word supply is running low and should be topped up.
    pub fn needs_words(&self, lookahead: usize) -> (b: bool)
        ensures
            b == (self@.mode == Mode::Time && (if self@.words.len() >= self@.index {
                self@.words.len() - self@.index
            } else {
                0
            }) < lookahead),
    {
        let left = if self.words.len() >= self.index { self.words.len() - self.index } else { 0 };
        self.mode == Mode::Time && left < lookahead
    }

    /// Appends more words to an in-flight timed test.
    pub fn extend(&mut self, more: Vec<String>)
        requires
            old(self).wf(),
        ensures
            final(self).wf(),
            final(self)@ == (EngineView { words: old(self)@.words + texts(more@), ..old(self)@ }),
    {
        let mut more = more;
        let ghost extra = more@;
        self.words.append(&mut more);
        assert(texts(self.words@) =~= old(self)@.words + texts(extra));
    }

    /// Graph samples in chronological order.
    pub fn samples(&self) -> (r: &[Sample])
        ensures
            r@ == self@.samples,
    {
        self.samples.as_slice()
    }

    /// Applies a keystroke.
    ///
    /// Keystrokes after the test has finished are ignored, so a fast typist's
    /// trailing characters cannot corrupt the result.
    pub fn key(&mut self, key: Key, now: i64)
        requires
            old(self).wf(),
            old(self)@.finished() || old(self)@.clock_ok(now as int) && old(self)@.key_fits(key),
        ensures
            final(self).wf(),
            final(self)@ == old(self)@.key(key, now as int),
    {
        if self.finished() {
            return;
        }
        match key {
            Key::Space => self.space(now),
            Key::Char(character) => {
                if character == ' ' {
                    self.space(now)
                } else {
                    self.character(character, now)
                }
            },
            Key::Backspace => {
                if self.buf.unicode_len() == 0 {
                    self.step_back(Restore::Text)
                } else {
                    self.buf = drop_last_char(self.buf.as_str());
                }
            },
            Key::BackspaceWord => {
                if self.buf.unicode_len() == 0 {
                    self.step_back(Restore::Cleared)
                } else {
                    self.buf = String::new();
                }
            },
        }
    }

    fn character(&mut self, character: char, now: i64)
        requires
            old(self).wf(),
            old(self)@.clock_ok(now as int),
            !old(self)@.finished(),
            old(self)@.count_fits(old(self)@.expected() == Some(character)),
            old(self)@.letter_fits(old(self)@.expected(), character),
            old(self)@.index < usize::MAX,
        ensures
            final(self).wf(),
            final(self)@ == old(self)@.character(character, now as int),
    {
        self.start(now);
        let expected: Option<char> = {
            let target = self.current_target();
            let typed_len = char_count(self.buf.as_str());
            if typed_len < char_count(target) {
                Some(target.get_char(typed_len))
            } else {
                None
            }
        };
        push_char(&mut self.buf, character);
        let correct = match expected {
            Some(e) => e == character,
            None => false,
        };
        self.count_key(correct);
        self.track_letter(expected, character);
        self.maybe_finish_on_last_word(now);
    }

    fn space(&mut self, now: i64)
        requires
            old(self).wf(),
            old(self)@.clock_ok(now as int),
            !old(self)@.finished(),
            old(self)@.space_fits(),
        ensures
            final(self).wf(),
            final(self)@ == old(self)@.space(now as int),
    {
        if self.buf.unicode_len() == 0 {
            return;
        }
        self.commit(true, now);
    }

    fn start(&mut self, now: i64)
        requires
            old(self).wf(),
            old(self)@.clock_ok(now as int),
            !old(self)@.finished(),
        ensures
            final(self).wf(),
            final(self)@ == old(self)@.start(now as int),
            final(self)@.clock_ok(now as int),
            final(self)@.started(),
    {
        if self.started_at.is_none() {
            self.started_at = Some(now);
        }
    }

    fn count_key(&mut self, correct: bool)
        requires
            old(self).wf(),
            old(self)@.count_fits(correct),
        ensures
            final(self).wf(),
            final(self)@ == old(self)@.count_key(correct),
    {
        self.sample_chars = self.sample_chars + 1;
        if correct {
            self.keys_correct = self.keys_correct + 1;
        } else {
            self.keys_incorrect = self.keys_incorrect + 1;
            self.sample_errors = self.sample_errors + 1;
        }
    }

    /// Adds one to the count for `key`.
    fn bump_letter(tally: &mut LetterTally, key: char)
        requires
            old(tally).wf(),
            below_max(old(tally).map(), key),
        ensures
            final(tally).wf(),
            final(tally).map() == bump(old(tally).map(), key),
    {
        let next: u32 = match tally.get(&key) {
            Some(count) => count + 1,
            None => 1,
        };
        tally.insert(key, next);
    }

    fn bump_slip(tally: &mut SlipTally, key: (char, char))
        requires
            old(tally).wf(),
            below_max(old(tally).map(), key),
        ensures
            final(tally).wf(),
            final(tally).map() == bump(old(tally).map(), key),
    {
        let next: u32 = match tally.get(&key) {
            Some(count) => count + 1,
            None => 1,
        };
        tally.insert(key, next);
    }

    /// Mistakes are attributed to the letter that should have been typed.
    fn track_letter(&mut self, expected: Option<char>, actual: char)
        requires
            old(self).wf(),
            old(self)@.letter_fits(expected, actual),
        ensures
            final(self).wf(),
            final(self)@ == old(self)@.track_letter(expected, actual),
    {
        match expected {
            None => {},
            Some(e) => {
                Self::bump_letter(&mut self.key_attempts, e);
                if e != actual {
                    Self::bump_letter(&mut self.key_errors, e);
                    Self::bump_slip(&mut self.slips, (e, actual));
                }
            },
        }
    }

    /// In word and quote modes the last word needs no trailing space.
    fn maybe_finish_on_last_word(&mut self, now: i64)
        requires
            old(self).wf(),
            old(self)@.clock_ok(now as int),
            old(self)@.started(),
            old(self)@.index < old(self)@.keystrokes(),
            old(self)@.index < usize::MAX,
            !old(self)@.finished(),
        ensures
            final(self).wf(),
            final(self)@ == old(self)@.maybe_finish_on_last_word(now as int),
    {
        if self.mode == Mode::Time {
            return;
        }
        let last = self.index < self.words.len() && self.index == self.words.len() - 1;
        if last && same_text(self.buf.as_str(), self.current_target()) {
            self.commit(false, now);
            self.finish(now);
        }
    }

    fn commit(&mut self, space_pressed: bool, now: i64)
        requires
            old(self).wf(),
            old(self)@.clock_ok(now as int),
            !old(self)@.finished(),
            old(self)@.index < usize::MAX,
            space_pressed ==> old(self)@.count_fits(old(self)@.buf == old(self)@.current_target())
                && old(self)@.spaces < u32::MAX,
            !space_pressed ==> old(self)@.index < old(self)@.keystrokes(),
        ensures
            final(self).wf(),
            final(self)@ == old(self)@.commit(space_pressed, now as int),
            final(self)@.clock_ok(now as int) || final(self)@.finished(),
    {
        let correct = same_text(self.buf.as_str(), self.current_target());
        if space_pressed {
            self.count_key(correct);
            self.spaces = self.spaces + 1;
            if correct {
                self.correct_spaces = self.correct_spaces + 1;
            }
        }
        let mut word = String::new();
        std::mem::swap(&mut word, &mut self.buf);
        let ghost before = self.typed@;
        self.typed.push(word);
        assert(texts(self.typed@) =~= texts(before).push(word@));
        self.index = self.index + 1;
        if self.mode != Mode::Time && self.index >= self.words.len() {
            self.finish(now);
        }
    }

    fn step_back(&mut self, restore: Restore)
        requires
            old(self).wf(),
        ensures
            final(self).wf(),
            final(self)@ == old(self)@.step_back(restore),
    {
        if self.index == 0 || self.typed.len() == 0 {
            return;
        }
        let previous_index = self.index - 1;
        let previous = self.typed[self.typed.len() - 1].clone();
        let has_mistake = !(previous_index < self.words.len() && same_text(
            self.words[previous_index].as_str(),
            previous.as_str(),
        ));
        if self.backtrack == Backtrack::Free || has_mistake {
            let ghost before = self.typed@;
            self.index = previous_index;
            self.typed.pop();
            assert(texts(self.typed@) =~= texts(before).drop_last());
            self.buf = match restore {
                Restore::Text => previous,
                Restore::Cleared => String::new(),
            };
        }
    }

    /// Advances the clock.
    ///
    /// Closes off any whole seconds that have passed into graph samples, and
    /// ends a timed test once its limit is reached.
    pub fn tick(&mut self, now: i64)
        requires
            old(self).wf(),
            old(self)@.tick_ok(now as int),
        ensures
            final(self).wf(),
            final(self)@ == old(self)@.tick(now as int),
    {
        if !self.started() || self.finished() {
            return;
        }
        self.collect_samples(now);
        if self.mode == Mode::Time && self.elapsed_ms(now) >= self.limit * 1000 {
            self.finish(now);
        }
    }

    /// Ends the test early, as when the typist quits mid-run.
    pub fn finish(&mut self, now: i64)
        requires
            old(self).wf(),
            old(self)@.clock_ok(now as int) || old(self)@.finished(),
        ensures
            final(self).wf(),
            final(self)@ == old(self)@.finish(now as int),
            final(self)@.finished(),
    {
        if self.finished() {
            return;
        }
        match self.started_at {
            None => {
                self.started_at = Some(now);
                self.finished_at = Some(now);
            },
            Some(started_at) => {
                let finished_at = if self.mode == Mode::Time {
                    let end = started_at + self.limit * 1000;
                    if now < end {
                        now
                    } else {
                        end
                    }
                } else {
                    now
                };
                self.collect_samples(finished_at);
                self.close_partial_sample(finished_at);
                self.finished_at = Some(finished_at);
            },
        }
    }

    /// Closes off every whole second that has elapsed since the last sample.
    fn collect_samples(&mut self, now: i64)
        requires
            old(self).wf(),
            old(self)@.started(),
            !old(self)@.finished(),
            i64::MIN <= old(self)@.elapsed(now as int) <= i64::MAX,
            old(self)@.elapsed(now as int) - old(self)@.sampled_ms >= i64::MIN,
        ensures
            final(self).wf(),
            final(self)@ == old(self)@.collect_samples(now as int),
            final(self)@.elapsed(now as int) - final(self)@.sampled_ms >= i64::MIN,
            final(self)@.sampled_ms >= old(self)@.sampled_ms,
            final(self)@ == (EngineView {
                samples: final(self)@.samples,
                sample_chars: final(self)@.sample_chars,
                sample_errors: final(self)@.sample_errors,
                sampled_ms: final(self)@.sampled_ms,
                ..old(self)@
            }),
    {
        let started = match self.started_at {
            Some(s) => s,
            None => 0,
        };
        let elapsed = now - started;
        let ghost target = self@.collect_samples(now as int);
        while elapsed - self.sampled_ms >= 1000
            invariant
                self.wf(),
                self@.started(),
                !self@.finished(),
                elapsed == self@.elapsed(now as int),
                elapsed - self@.sampled_ms >= i64::MIN,
                self@.collect_samples(now as int) == target,
                self@.sampled_ms >= old(self)@.sampled_ms,
                self@ == (EngineView {
                    samples: self@.samples,
                    sample_chars: self@.sample_chars,
                    sample_errors: self@.sample_errors,
                    sampled_ms: self@.sampled_ms,
                    ..old(self)@
                }),
            decreases elapsed - self.sampled_ms,
        {
            let ghost before = self@;
            let at = self.sampled_ms + 1000;
            self.samples.push(Sample { at_ms: at, span_ms: 1000, chars: self.sample_chars, errors: self.sample_errors });
            self.sample_chars = 0;
            self.sample_errors = 0;
            self.sampled_ms = at;
            assert(before.collect_samples(now as int) == self@.collect_samples(now as int));
        }
    }

    /// The tail end of a test is rarely a whole second; keep it if it is long
    /// enough to be meaningful.
    fn close_partial_sample(&mut self, now: i64)
        requires
            old(self).wf(),
            old(self)@.started(),
            !old(self)@.finished(),
            i64::MIN <= old(self)@.elapsed(now as int) <= i64::MAX,
            old(self)@.elapsed(now as int) - old(self)@.sampled_ms >= i64::MIN,
        ensures
            final(self).wf(),
            final(self)@ == old(self)@.close_partial_sample(now as int),
            final(self)@ == (EngineView {
                samples: final(self)@.samples,
                sample_chars: final(self)@.sample_chars,
                sample_errors: final(self)@.sample_errors,
                ..old(self)@
            }),
    {
        let started = match self.started_at {
            Some(s) => s,
            None => 0,
        };
        let elapsed = now - started;
        if elapsed - self.sampled_ms >= 250 && self.sample_chars > 0 {
            let leftover = elapsed - self.sampled_ms;
            self.samples.push(Sample {
                at_ms: self.sampled_ms + leftover,
                span_ms: leftover,
                chars: self.sample_chars,
                errors: self.sample_errors,
            });
            self.sample_chars = 0;
            self.sample_errors = 0;
        }
    }

    /// The words paired with what was typed for them, for rendering.
    pub fn annotate(&self) -> (r: Vec<Word<'_>>)
        requires
            self.wf(),
        ensures
            r@.len() == self@.words.len(),
            forall|i: int| 0 <= i < r@.len() ==> {
                let w = #[trigger] r@[i];
                &&& w.index == i
                &&& w.target@ == self@.words[i]
                &&& i < self@.index ==> w.status == Status::Done && w.typed@ == self@.typed[i]
                &&& i == self@.index ==> w.status == Status::Current && w.typed@ == self@.buf
                &&& i > self@.index ==> w.status == Status::Pending && w.typed@ == Seq::<char>::empty()
            },
    {
        let mut out: Vec<Word<'_>> = Vec::new();
        let mut index: usize = 0;
        while index < self.words.len()
            invariant
                self.wf(),
                index <= self.words@.len(),
                out@.len() == index,
                forall|i: int| 0 <= i < out@.len() ==> {
                    let w = #[trigger] out@[i];
                    &&& w.index == i
                    &&& w.target@ == self@.words[i]
                    &&& i < self@.index ==> w.status == Status::Done && w.typed@ == self@.typed[i]
                    &&& i == self@.index ==> w.status == Status::Current && w.typed@ == self@.buf
                    &&& i > self@.index ==> w.status == Status::Pending && w.typed@ == Seq::<char>::empty()
                },
            decreases self.words@.len() - index,
        {
            let (typed, status) = if index < self.index {
                (self.typed[index].as_str(), Status::Done)
            } else if index == self.index {
                (self.buf.as_str(), Status::Current)
            } else {
                (empty_str(), Status::Pending)
            };
            out.push(Word { index, target: self.words[index].as_str(), typed, status });
            index = index + 1;
        }
        out
    }
}


/// Closing whole seconds into samples touches only the sampling fields: the
/// clock, the counters and the words are as they were, and no more than the
/// elapsed time is ever sampled.
proof fn lemma_collect_keeps(v: EngineView, now: int)
    ensures
        ({
            let c = v.collect_samples(now);
            &&& c.mode == v.mode
            &&& c.limit == v.limit
            &&& c.started_at == v.started_at
            &&& c.finished_at == v.finished_at
            &&& c.keys_correct == v.keys_correct
            &&& c.keys_incorrect == v.keys_incorrect
            &&& c.index == v.index
            &&& c.words == v.words
            &&& c.typed == v.typed
            &&& c.buf == v.buf
            &&& c.elapsed(now) == v.elapsed(now)
            &&& c.sampled_ms >= v.sampled_ms
            &&& (c.sampled_ms <= v.elapsed(now) || c.sampled_ms == v.sampled_ms)
        }),
    decreases v.elapsed(now) - v.sampled_ms,
{
    if v.elapsed(now) - v.sampled_ms >= 1000 {
        let at = v.sampled_ms + 1000;
        let next = EngineView {
            samples: v.samples.push(
                Sample {
                    at_ms: at as i64,
                    span_ms: 1000,
                    chars: v.sample_chars as u32,
                    errors: v.sample_errors as u32,
                },
            ),
            sample_chars: 0,
            sample_errors: 0,
            sampled_ms: at,
            ..v
        };
        lemma_collect_keeps(next, now);
    }
}

/// A character keystroke is judged against the letter expected, and ends the
/// test only in word and quote modes and only by completing the last word
/// exactly. Anywhere else, such as where the word typed so far with the new
/// character differs from the word being typed, the test goes on: the
/// character joins the word in progress and nothing is filed, so a typo can
/// still be fixed. Where it completes the last word exactly, the test is
/// over with that word filed.
pub proof fn lemma_only_an_exact_last_word_ends_the_test(v: EngineView, c: char, now: int)
    requires
        !v.finished(),
        c != ' ',
    ensures
        ({
            let after = v.key(Key::Char(c), now);
            let right = v.buf.len() < v.current_target().len() && v.current_target()[v.buf.len() as int] == c;
            &&& after.keys_correct == v.keys_correct + if right { 1int } else { 0 }
            &&& after.keys_incorrect == v.keys_incorrect + if right { 0int } else { 1 }
        }),
        v.mode == Mode::Time || !(v.buf.push(c) == v.current_target() && v.index + 1 == v.words.len()) ==> {
            let after = v.key(Key::Char(c), now);
            &&& !after.finished()
            &&& after.buf == v.buf.push(c)
            &&& after.typed == v.typed
            &&& after.index == v.index
        },
        v.mode != Mode::Time && v.buf.push(c) == v.current_target() && v.index + 1 == v.words.len() ==> {
            let after = v.key(Key::Char(c), now);
            &&& after.finished()
            &&& after.typed == v.typed.push(v.buf.push(c))
        },
{
    let started = v.start(now);
    let expected = started.expected();
    let typed = EngineView { buf: started.buf.push(c), ..started };
    let counted = typed.count_key(expected == Some(c)).track_letter(expected, c);
    assert(counted.buf == v.buf.push(c));
    assert(counted.current_target() == v.current_target());
    if v.mode != Mode::Time && v.buf.push(c) == v.current_target() && v.index + 1 == v.words.len() {
        let moved = EngineView {
            typed: counted.typed.push(counted.buf),
            buf: Seq::empty(),
            index: counted.index + 1,
            ..counted
        };
        assert(counted.typed == v.typed);
        lemma_finish_files(moved, now);
        lemma_finish_keeps_counts(moved, now);
        lemma_finish_keeps_counts(moved.finish(now), now);
        assert(counted.commit(false, now) == moved.finish(now));
        assert(counted.maybe_finish_on_last_word(now) == moved.finish(now).finish(now));
    }
}

/// Ending a test leaves the filed words as they were, and the test over.
proof fn lemma_finish_files(v: EngineView, now: int)
    ensures
        v.finish(now).typed == v.typed,
        v.finish(now).finished(),
{
    if !v.finished() {
        if let Some(s) = v.started_at {
            let f = if v.mode == Mode::Time {
                if now < s + v.limit * 1000 {
                    now
                } else {
                    s + v.limit * 1000
                }
            } else {
                now
            };
            lemma_collect_keeps(v, f);
        }
    }
}

/// Keystrokes after the end of a test change nothing, so a fast typist's
/// trailing characters cannot alter the result.
pub proof fn lemma_keys_after_the_end_are_ignored(v: EngineView, key: Key, now: int)
    requires
        v.finished(),
    ensures
        v.key(key, now) == v,
{
}

/// A timed test whose limit has passed when the clock is advanced ends
/// exactly at its limit, however late the tick lands.
pub proof fn lemma_timed_test_ends_at_its_limit(v: EngineView, now: int)
    requires
        v.mode == Mode::Time,
        v.started(),
        !v.finished(),
        v.elapsed(now) >= v.limit * 1000,
        0 <= v.sampled_ms,
    ensures
        v.tick(now).finished_at == Some(v.started_at.unwrap() + v.limit * 1000),
        v.tick(now).elapsed(now) == v.limit * 1000,
{
    lemma_collect_keeps(v, now);
    let c = v.collect_samples(now);
    let f = c.started_at.unwrap() + c.limit * 1000;
    lemma_collect_keeps(c, f);
}

/// Ending a test keeps the judged keystrokes as they were.
proof fn lemma_finish_keeps_counts(v: EngineView, now: int)
    ensures
        v.finish(now).keys_correct == v.keys_correct,
        v.finish(now).keys_incorrect == v.keys_incorrect,
{
    if !v.finished() {
        if let Some(s) = v.started_at {
            let f = if v.mode == Mode::Time {
                if now < s + v.limit * 1000 {
                    now
                } else {
                    s + v.limit * 1000
                }
            } else {
                now
            };
            lemma_collect_keeps(v, f);
        }
    }
}

/// Accuracy is judged at the moment a key is pressed: no keystroke takes a
/// judgement back, so fixing a typo does not restore accuracy.
pub proof fn lemma_judgements_are_never_taken_back(v: EngineView, key: Key, now: int)
    ensures
        v.key(key, now).keys_correct >= v.keys_correct,
        v.key(key, now).keys_incorrect >= v.keys_incorrect,
{
    if !v.finished() {
        let started = v.start(now);
        let expected = started.expected();
        match key {
            Key::Char(c) => {
                if c != ' ' {
                    let t = EngineView { buf: started.buf.push(c), ..started };
                    let counted = t.count_key(expected == Some(c)).track_letter(expected, c);
                    if counted.mode != Mode::Time && counted.index + 1 == counted.words.len()
                        && counted.buf == counted.current_target() {
                        lemma_commit_keeps_counts(counted, false, now);
                        lemma_finish_keeps_counts(counted.commit(false, now), now);
                    }
                } else if v.buf.len() != 0 {
                    lemma_commit_keeps_counts(v, true, now);
                }
            },
            Key::Space => {
                if v.buf.len() != 0 {
                    lemma_commit_keeps_counts(v, true, now);
                }
            },
            _ => {},
        }
    }
}

/// Filing a word only adds judgements.
proof fn lemma_commit_keeps_counts(v: EngineView, space_pressed: bool, now: int)
    ensures
        v.commit(space_pressed, now).keys_correct >= v.keys_correct,
        v.commit(space_pressed, now).keys_incorrect >= v.keys_incorrect,
{
    let correct = v.buf == v.current_target();
    let counted = if space_pressed {
        let c = v.count_key(correct);
        EngineView {
            spaces: c.spaces + 1,
            correct_spaces: if correct { c.correct_spaces + 1 } else { c.correct_spaces },
            ..c
        }
    } else {
        v
    };
    let moved = EngineView {
        typed: counted.typed.push(counted.buf),
        buf: Seq::empty(),
        index: counted.index + 1,
        ..counted
    };
    lemma_finish_keeps_counts(moved, now);
}

/// How far a tick at `now` closes whole seconds into samples.
proof fn lemma_collected_mark(v: EngineView, now: int)
    ensures
        v.collect_samples(now).sampled_ms == if v.elapsed(now) - v.sampled_ms >= 1000 {
            v.sampled_ms + 1000 * ((v.elapsed(now) - v.sampled_ms) / 1000)
        } else {
            v.sampled_ms
        },
    decreases v.elapsed(now) - v.sampled_ms,
{
    if v.elapsed(now) - v.sampled_ms >= 1000 {
        let at = v.sampled_ms + 1000;
        let next = EngineView {
            samples: v.samples.push(
                Sample {
                    at_ms: at as i64,
                    span_ms: 1000,
                    chars: v.sample_chars as u32,
                    errors: v.sample_errors as u32,
                },
            ),
            sample_chars: 0,
            sample_errors: 0,
            sampled_ms: at,
            ..v
        };
        lemma_collected_mark(next, now);
        let g = v.elapsed(now) - v.sampled_ms;
        assert((g - 1000) / 1000 == g / 1000 - 1);
    }
}

/// A clock reading a keystroke can take keeps the elapsed time in range.
pub proof fn lemma_clock_ok_elapsed(v: EngineView, now: int)
    requires
        v.wf(),
        v.clock_ok(now),
    ensures
        v.elapsed_fits(now),
{
}

/// A sane clock reading is one every operation can take: it keeps the clock
/// arithmetic of keystrokes, ticks and the end of a test in range.
pub proof fn lemma_sane_clock(v: EngineView, now: int)
    requires
        v.wf(),
        v.clock_sane(now),
    ensures
        v.clock_ok(now),
        v.elapsed_fits(now),
        v.started() && !v.finished() ==> v.tick_fits(now),
{
}

/// Space commits the word in progress and moves on to the next one,
/// whether or not the word was typed correctly; with nothing typed yet it
/// does nothing.
pub proof fn lemma_space_moves_on(v: EngineView, now: int)
    requires
        !v.finished(),
    ensures
        v.buf.len() > 0 ==> v.key(Key::Space, now).index == v.index + 1 && v.key(Key::Space, now).typed
            == v.typed.push(v.buf),
        v.buf.len() == 0 ==> v.key(Key::Space, now) == v,
{
    if v.buf.len() > 0 {
        let correct = v.buf == v.current_target();
        let c = v.count_key(correct);
        let counted = EngineView {
            spaces: c.spaces + 1,
            correct_spaces: if correct { c.correct_spaces + 1 } else { c.correct_spaces },
            ..c
        };
        let moved = EngineView {
            typed: counted.typed.push(counted.buf),
            buf: Seq::empty(),
            index: counted.index + 1,
            ..counted
        };
        if moved.mode != Mode::Time && moved.index >= moved.words.len() {
            if let Some(s) = moved.started_at {
                let f = if moved.mode == Mode::Time {
                    if now < s + moved.limit * 1000 { now } else { s + moved.limit * 1000 }
                } else {
                    now
                };
                lemma_collect_keeps(moved, f);
            }
        }
    }
}

/// Backspace at the start of a word steps back into the previous word only
/// when that word has a mistake, unless backtracking is free: a correctly
/// typed word stays behind.
pub proof fn lemma_correct_words_stay_behind(v: EngineView, now: int)
    requires
        !v.finished(),
        v.buf.len() == 0,
        v.backtrack == Backtrack::Strict,
        !v.previous_has_mistake(),
    ensures
        v.key(Key::Backspace, now) == v,
        v.key(Key::BackspaceWord, now) == v,
{
}

/// In word and quote modes, typing the last letter of the last word
/// correctly ends the test without a trailing space.
pub proof fn lemma_last_word_ends_the_test(v: EngineView, c: char, now: int)
    requires
        !v.finished(),
        v.mode != Mode::Time,
        c != ' ',
        v.index + 1 == v.words.len(),
        v.buf.push(c) == v.current_target(),
    ensures
        v.key(Key::Char(c), now).finished(),
{
}

/// The clock starts on the first keystroke, not when the test is created.
pub proof fn lemma_clock_starts_on_first_key(v: EngineView, c: char, now: int)
    requires
        !v.started(),
        !v.finished(),
        c != ' ',
    ensures
        v.key(Key::Char(c), now).started_at == Some(now),
{
    let started = v.start(now);
    let expected = started.expected();
    let typed = EngineView { buf: started.buf.push(c), ..started };
    let counted = typed.count_key(expected == Some(c)).track_letter(expected, c);
    if counted.mode != Mode::Time && counted.index + 1 == counted.words.len() && counted.buf
        == counted.current_target() {
        let committed = counted.commit(false, now);
        assert(committed.started_at == Some(now)) by {
            let moved = EngineView {
                typed: counted.typed.push(counted.buf),
                buf: Seq::empty(),
                index: counted.index + 1,
                ..counted
            };
            if moved.mode != Mode::Time && moved.index >= moved.words.len() {
                let f = now;
                lemma_collect_keeps(moved, f);
            }
        }
        lemma_collect_keeps(committed, now);
    }
}

} // verus!
