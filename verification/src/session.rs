//! The decisions of the interactive loop.
//!
//! The loop itself waits for keystrokes, reads the clock, paints frames and
//! touches the history file; everything it decides on the way is here: what
//! a keystroke means, what it does on each screen, when the engine is
//! advanced and topped up with words, and the lines shown with a result.
use vstd::prelude::*;

use crate::cli::Options;
use crate::engine::{fresh, texts, Engine, EngineView, Key, Mode};
use crate::history::{Config, Record};
use crate::number::{lemma_rounded_up_half, round_ratio, rounded};
use crate::summary::{
    best_for, best_matching, count_for, count_matching, total_for, total_matching, TroubleOptions,
};
use crate::rng::Rng;
use crate::stats::{character_counts, character_counts_spec, counts_fit, counts_fit_check, Stats};
use crate::text::{decimal_i64, decimal_u64, decimal, owned, push_str, signed_decimal};
use crate::words::{generate, generate_spec, quote_words, quote_words_spec, sentences};

verus! {

/// Keep at least this many words ahead of the typist in a timed test.
pub const LOOKAHEAD: usize = 40;

/// How many words a timed test starts with, and how many it is topped up by.
pub const INITIAL_WORDS: usize = 60;

/// How often a frame is drawn while a test is running, in milliseconds.
pub const RUNNING_FRAME_MS: u64 = 50;

/// How often a frame is drawn otherwise, in milliseconds.
pub const IDLE_FRAME_MS: u64 = 200;

/// How often the terminal size is checked, in milliseconds.
pub const SIZE_INTERVAL_MS: i64 = 500;

/// The smallest window a test can be typed in.
pub const MIN_COLUMNS: usize = 40;
pub const MIN_ROWS: usize = 8;

/// How long to wait for the rest of an escape sequence before deciding the
/// typist really did just press escape, in milliseconds.
pub const ESCAPE_GRACE_MS: u64 = 30;

/// What a keystroke means, once escape sequences have been resolved.
#[derive(Clone, Copy, Debug, PartialEq, Eq, Structural)]
pub enum Action {
    Quit,
    Tab,
    Enter,
    Typing(Key),
    Ignore,
}

/// Which screen is showing.
#[derive(Clone, Copy, Debug, PartialEq, Eq, Structural)]
pub enum Screen {
    Test,
    Results,
}

/// How a new test is started: with new words, or the same ones again.
#[derive(Clone, Copy, Debug, PartialEq, Eq, Structural)]
pub enum Restart {
    New,
    Repeat,
}

/// What the loop does with an action.
#[derive(Clone, Copy, Debug, PartialEq, Eq, Structural)]
pub enum Step {
    Quit,
    Restart(Restart),
    Type(Key),
    Stay,
}

/// An escape that is not yet resolved: a lone escape, or a control sequence
/// still arriving.
#[derive(Clone, Copy, Debug, PartialEq, Eq, Structural)]
pub enum Pending {
    Escape,
    Sequence,
}

/// Either what a keystroke meant, or that the next one is needed to tell.
#[derive(Clone, Copy, Debug, PartialEq, Eq, Structural)]
pub enum Resolved {
    Done(Action),
    Wait(Pending),
}

pub open spec fn classify_spec(c: char) -> Resolved {
    if c == '\x1b' {
        Resolved::Wait(Pending::Escape)
    } else if c == '\t' {
        Resolved::Done(Action::Tab)
    } else if c == '\r' || c == '\n' {
        Resolved::Done(Action::Enter)
    } else if c == ' ' {
        Resolved::Done(Action::Typing(Key::Space))
    } else if c == '\x7f' {
        Resolved::Done(Action::Typing(Key::Backspace))
    } else if c == '\x08' || c == '\x17' {
        Resolved::Done(Action::Typing(Key::BackspaceWord))
    } else if c == '\x03' || c == '\x04' {
        Resolved::Done(Action::Quit)
    } else if (c as u32) < 32 {
        Resolved::Done(Action::Ignore)
    } else {
        Resolved::Done(Action::Typing(Key::Char(c)))
    }
}

/// Maps a character to an action: tab and enter, the editing keys, ctrl+c
/// and ctrl+d to quit, other control characters ignored, and anything else
/// typed. An escape waits for what follows it.
pub fn classify(c: char) -> (r: Resolved)
    ensures
        r == classify_spec(c),
{
    if c == '\x1b' {
        Resolved::Wait(Pending::Escape)
    } else if c == '\t' {
        Resolved::Done(Action::Tab)
    } else if c == '\r' || c == '\n' {
        Resolved::Done(Action::Enter)
    } else if c == ' ' {
        Resolved::Done(Action::Typing(Key::Space))
    } else if c == '\x7f' {
        Resolved::Done(Action::Typing(Key::Backspace))
    } else if c == '\x08' || c == '\x17' {
        Resolved::Done(Action::Typing(Key::BackspaceWord))
    } else if c == '\x03' || c == '\x04' {
        Resolved::Done(Action::Quit)
    } else if (c as u32) < 32 {
        Resolved::Done(Action::Ignore)
    } else {
        Resolved::Done(Action::Typing(Key::Char(c)))
    }
}

pub open spec fn resolve_spec(pending: Pending, next: Option<char>) -> Resolved {
    match pending {
        Pending::Escape => match next {
            Some(c) => if c == '[' || c == 'O' {
                Resolved::Wait(Pending::Sequence)
            } else {
                Resolved::Done(Action::Quit)
            },
            None => Resolved::Done(Action::Quit),
        },
        Pending::Sequence => match next {
            Some(c) => if '@' <= c <= '~' {
                Resolved::Done(Action::Ignore)
            } else {
                Resolved::Wait(Pending::Sequence)
            },
            None => Resolved::Done(Action::Ignore),
        },
    }
}

/// Takes the next character after an escape, or `None` when nothing came
/// within the grace period (or the input ended).
///
/// A lone escape quits. `[` or `O` after it starts a control sequence, such
/// as an arrow key, which is swallowed up to its final character and ignored.
pub fn resolve(pending: Pending, next: Option<char>) -> (r: Resolved)
    ensures
        r == resolve_spec(pending, next),
{
    match pending {
        Pending::Escape => match next {
            Some(c) => if c == '[' || c == 'O' {
                Resolved::Wait(Pending::Sequence)
            } else {
                Resolved::Done(Action::Quit)
            },
            None => Resolved::Done(Action::Quit),
        },
        Pending::Sequence => match next {
            Some(c) => if '@' <= c && c <= '~' {
                Resolved::Done(Action::Ignore)
            } else {
                Resolved::Wait(Pending::Sequence)
            },
            None => Resolved::Done(Action::Ignore),
        },
    }
}

pub open spec fn decide_spec(screen: Screen, action: Action) -> Step {
    match (screen, action) {
        (_, Action::Quit) => Step::Quit,
        (Screen::Results, Action::Typing(Key::Char(c))) => if c == 'q' {
            Step::Quit
        } else if c == 'r' {
            Step::Restart(Restart::Repeat)
        } else {
            Step::Stay
        },
        (Screen::Results, Action::Tab) => Step::Restart(Restart::New),
        (Screen::Results, Action::Enter) => Step::Restart(Restart::New),
        (Screen::Test, Action::Tab) => Step::Restart(Restart::New),
        (Screen::Test, Action::Typing(key)) => Step::Type(key),
        _ => Step::Stay,
    }
}

/// On the results screen nothing typed reaches the engine: letters there
/// are commands.
pub proof fn lemma_results_take_no_typing(action: Action)
    ensures
        !(decide_spec(Screen::Results, action) is Type),
{
}

/// What an action does on a screen. On the results screen letters are
/// commands rather than typing: `q` quits and `r` repeats the same words;
/// tab (or enter there) starts a new test.
pub fn decide(screen: Screen, action: Action) -> (s: Step)
    ensures
        s == decide_spec(screen, action),
{
    match (screen, action) {
        (_, Action::Quit) => Step::Quit,
        (Screen::Results, Action::Typing(Key::Char(c))) => if c == 'q' {
            Step::Quit
        } else if c == 'r' {
            Step::Restart(Restart::Repeat)
        } else {
            Step::Stay
        },
        (Screen::Results, Action::Tab) => Step::Restart(Restart::New),
        (Screen::Results, Action::Enter) => Step::Restart(Restart::New),
        (Screen::Test, Action::Tab) => Step::Restart(Restart::New),
        (Screen::Test, Action::Typing(key)) => Step::Type(key),
        _ => Step::Stay,
    }
}

/// How long the loop waits for a keystroke before drawing the next frame:
/// often while a test is running, rarely otherwise.
pub fn frame_interval_ms(screen: Screen, started: bool) -> (ms: u64)
    ensures
        ms == if screen == Screen::Test && started {
            RUNNING_FRAME_MS
        } else {
            IDLE_FRAME_MS
        },
{
    if screen == Screen::Test && started {
        RUNNING_FRAME_MS
    } else {
        IDLE_FRAME_MS
    }
}

/// Whether a window is too small to type in.
pub fn too_small(rows: usize, columns: usize) -> (b: bool)
    ensures
        b == (columns < MIN_COLUMNS || rows < MIN_ROWS),
{
    columns < MIN_COLUMNS || rows < MIN_ROWS
}

/// The text column in a window `columns` wide: its width, the preferred
/// `width` narrowed to leave a margin, and its 1-based left edge, which
/// centres it.
pub fn text_column(width: usize, columns: usize) -> (r: (usize, usize))
    ensures
        ({
            let room: int = if columns >= 4 { columns - 4 } else { 0 };
            let w: int = if width <= room { width as int } else { room };
            &&& r.0 == w
            &&& r.1 == (columns - w) / 2 + 1
        }),
{
    let room = if columns >= 4 { columns - 4 } else { 0 };
    let w = if width <= room { width } else { room };
    let left = (columns - w) / 2 + 1;
    (w, left)
}

/// Whether the terminal size is due to be checked again.
pub fn size_due(now: i64, checked_at: i64) -> (b: bool)
    ensures
        b == (now - checked_at >= SIZE_INTERVAL_MS),
{
    (now as i128) - (checked_at as i128) >= SIZE_INTERVAL_MS as i128
}

/// Whether a result is worth recording. A run abandoned after a couple of
/// keystrokes is noise that would drag every average down.
pub fn worth_recording(elapsed_ms: i64, correct: u32) -> (b: bool)
    ensures
        b == (elapsed_ms >= 1000 && correct > 0),
{
    elapsed_ms >= 1000 && correct > 0
}

/// How trouble keys are picked for the results of a single test: a few
/// attempts are enough to count, and only the worst few are shown.
pub fn result_trouble_options() -> (o: TroubleOptions)
    ensures
        o == (TroubleOptions { min_attempts: 3, keys: 4, slips: 6 }),
{
    TroubleOptions { min_attempts: 3, keys: 4, slips: 6 }
}

/// The line naming a test's settings, such as `30s · english · numbers`.
pub open spec fn label_spec(config: Config) -> Seq<char> {
    (match config.mode {
        Mode::Time => signed_decimal(config.limit as int) + "s"@,
        Mode::Words => signed_decimal(config.limit as int) + " words"@,
        Mode::Quote => "quote"@,
    }) + (if config.mode != Mode::Quote {
        " · "@ + config.list@
    } else {
        Seq::empty()
    }) + (if config.decoration.punctuation {
        " · punctuation"@
    } else {
        Seq::empty()
    }) + (if config.decoration.numbers {
        " · numbers"@
    } else {
        Seq::empty()
    })
}

/// Names a test's settings for the header.
pub fn label(config: &Config) -> (s: String)
    ensures
        s@ == label_spec(*config),
{
    let mut out = match config.mode {
        Mode::Time => {
            let mut t = decimal_i64(config.limit);
            push_str(&mut t, "s");
            t
        },
        Mode::Words => {
            let mut t = decimal_i64(config.limit);
            push_str(&mut t, " words");
            t
        },
        Mode::Quote => owned("quote"),
    };
    if config.mode != Mode::Quote {
        push_str(&mut out, " · ");
        push_str(&mut out, config.list.as_str());
    }
    if config.decoration.punctuation {
        push_str(&mut out, " · punctuation");
    }
    if config.decoration.numbers {
        push_str(&mut out, " · numbers");
    }
    out
}

/// A speed in hundredths, rounded to whole words a minute.
fn whole(hundredths: i128) -> (r: i64)
    requires
        -0x4_0000_0000_0000_0000 <= hundredths <= 0x4_0000_0000_0000_0000,
    ensures
        r == rounded(hundredths as int, 100),
{
    proof {
        if hundredths >= 0 {
            lemma_rounded_up_half(hundredths as int, 100, 0x1000_0000_0000_0000);
        } else {
            lemma_rounded_up_half(-(hundredths as int), 100, 0x1000_0000_0000_0000);
        }
    }
    round_ratio(hundredths, 100) as i64
}

/// How much faster `chars` characters in `elapsed` milliseconds are than a
/// best of `best` hundredths, in words a minute, as a numerator over a
/// denominator: exact, before any rounding. With no time elapsed the speed
/// is zero.
pub open spec fn speed_gain(chars: int, elapsed: int, best: int) -> (int, int) {
    if elapsed > 0 {
        (chars * 1_200_000 - best * elapsed, 100 * elapsed)
    } else {
        (-best, 100)
    }
}

pub open spec fn best_message_spec(stats: Stats, previous: Option<Record>) -> Option<Seq<char>> {
    match previous {
        None => Some("first result for this test — the bar is set"@),
        Some(p) => {
            let (gain, over) = speed_gain(
                stats.correct + stats.correct_spaces,
                stats.elapsed_ms as int,
                p.wpm as int,
            );
            if gain > 0 {
                Some(
                    "new personal best · +"@ + signed_decimal(rounded(gain, over)) + " wpm on "@
                        + signed_decimal(rounded(p.wpm as int, 100)),
                )
            } else {
                None
            }
        },
    }
}

/// What a result means against the best before it, the best in
/// hundredths: the first result sets the bar, a faster one is a new
/// personal best, anything else says nothing. The speeds are compared
/// exactly, and the gain is rounded to whole words a minute.
pub fn best_message(stats: &Stats, previous: Option<&Record>) -> (r: Option<String>)
    ensures
        ({
            let before = match previous {
                Some(p) => Some(*p),
                None => None,
            };
            match r {
                Some(s) => best_message_spec(*stats, before) == Some(s@),
                None => best_message_spec(*stats, before) is None,
            }
        }),
{
    match previous {
        None => Some(owned("first result for this test — the bar is set")),
        Some(p) => {
            let chars: i128 = stats.correct as i128 + stats.correct_spaces as i128;
            let best: i128 = p.wpm as i128;
            let elapsed: i128 = stats.elapsed_ms as i128;
            let (gain, over): (i128, i128) = if elapsed > 0 {
                assert(-0x8000_0000_0000_0000 * elapsed <= best * elapsed <= 0x7FFF_FFFF_FFFF_FFFF
                    * elapsed) by (nonlinear_arith)
                    requires
                        -0x8000_0000_0000_0000 <= best <= 0x7FFF_FFFF_FFFF_FFFF,
                        0 < elapsed <= 0x7FFF_FFFF_FFFF_FFFF,
                ;
                (chars * 1_200_000 - best * elapsed, 100 * elapsed)
            } else {
                (-best, 100)
            };
            if gain > 0 {
                proof {
                    if elapsed > 0 {
                        assert(gain <= 0x4000_0000_0000_0000 * over) by (nonlinear_arith)
                            requires
                                gain == chars * 1_200_000 - best * elapsed,
                                over == 100 * elapsed,
                                0 <= chars <= 0x2_0000_0000,
                                -0x8000_0000_0000_0000 <= best,
                                elapsed >= 1,
                        ;
                    }
                    lemma_rounded_up_half(gain as int, over as int, 0x4000_0000_0000_0000);
                }
                let mut out = owned("new personal best · +");
                let lead = round_ratio(gain, over) as i64;
                push_str(&mut out, decimal_i64(lead).as_str());
                push_str(&mut out, " wpm on ");
                let before = whole(best);
                push_str(&mut out, decimal_i64(before).as_str());
                Some(out)
            } else {
                None
            }
        },
    }
}

pub open spec fn comparison_spec(results: Seq<Record>, config: Seq<char>) -> Option<Seq<char>> {
    match best_matching(results, config) {
        None => None,
        Some(i) => {
            let count = count_matching(results, config);
            Some(
                "pb "@ + signed_decimal(rounded(results[i].wpm as int, 100)) + " · avg "@
                    + signed_decimal(rounded(total_matching(results, config), count * 100)) + " · "@
                    + decimal(count as nat) + if count == 1 {
                    " test"@
                } else {
                    " tests"@
                },
            )
        },
    }
}

/// How a result compares with the others of its configuration: the
/// personal best, the average and how many tests there have been, or `None`
/// when there are none.
pub fn comparison(results: &[Record], config: &str) -> (r: Option<String>)
    ensures
        match r {
            Some(s) => comparison_spec(results@, config@) == Some(s@),
            None => comparison_spec(results@, config@) is None,
        },
{
    let best = match best_for(results, config) {
        Some(b) => b,
        None => return None,
    };
    let count = count_for(results, config);
    let total = total_for(results, config);
    proof {
        crate::summary::lemma_total_matching_by_count(results@, config@);
        crate::summary::lemma_best_matching(results@, config@);
    }
    let mut out = owned("pb ");
    push_str(&mut out, decimal_i64(whole(best.wpm as i128)).as_str());
    push_str(&mut out, " · avg ");
    proof {
        lemma_average_bound(total as int, count as int);
    }
    let average = round_ratio(total, count as i128 * 100) as i64;
    push_str(&mut out, decimal_i64(average).as_str());
    push_str(&mut out, " · ");
    push_str(&mut out, decimal_u64(count as u64).as_str());
    if count == 1 {
        push_str(&mut out, " test");
    } else {
        push_str(&mut out, " tests");
    }
    Some(out)
}

/// The average of `count` speeds in hundredths, each within `i64`, rounded
/// to whole words a minute, is within `i64` too.
proof fn lemma_average_bound(total: int, count: int)
    requires
        count >= 1,
        -0x8000_0000_0000_0000 * count <= total <= 0x7FFF_FFFF_FFFF_FFFF * count,
    ensures
        -0x8000_0000_0000_0000 <= rounded(total, count * 100) <= 0x7FFF_FFFF_FFFF_FFFF,
{
    assert(0x7FFF_FFFF_FFFF_FFFF * count <= 0x7FFF_FFFF_FFFF_FFFF * (count * 100)) by (nonlinear_arith)
        requires
            count >= 1,
    ;
    assert(0x8000_0000_0000_0000 * count <= 0x8000_0000_0000_0000 * (count * 100)) by (nonlinear_arith)
        requires
            count >= 1,
    ;
    if total >= 0 {
        lemma_rounded_up_half(total, count * 100, 0x7FFF_FFFF_FFFF_FFFF);
    } else {
        lemma_rounded_up_half(-total, count * 100, 0x8000_0000_0000_0000);
    }
}

/// The speed shown while a test runs, in whole words a minute: nothing for
/// the first second, and nothing at a clock reading the engine cannot take
/// or with counts past their fields.
pub open spec fn live_speed_spec(v: EngineView, now: int) -> int {
    if v.clock_ok(now) && counts_fit(v) && v.elapsed(now) >= 1000 {
        rounded((character_counts_spec(v).correct + v.correct_spaces) * 12_000, v.elapsed(now))
    } else {
        0
    }
}

/// The speed for the header of a running test.
pub fn live_speed(engine: &Engine, now: i64) -> (s: i64)
    requires
        engine.wf(),
    ensures
        s == live_speed_spec(engine@, now as int),
{
    if !engine.clock_ok(now) || !counts_fit_check(engine) {
        return 0;
    }
    let elapsed = engine.elapsed_ms(now);
    if elapsed < 1000 {
        return 0;
    }
    let counts = character_counts(engine);
    let n: i128 = (counts.correct as i128 + engine.correct_spaces as i128) * 12_000;
    proof {
        assert(n <= 0x1_0000_0000_0000 * elapsed) by (nonlinear_arith)
            requires
                0 <= n <= 0x2_0000_0000 * 12_000,
                elapsed >= 1000,
        ;
        lemma_rounded_up_half(n as int, elapsed as int, 0x1_0000_0000_0000);
    }
    round_ratio(n, elapsed as i128) as i64
}

/// The words a test starts with, and the generator state after drawing
/// them: a sentence in quote mode, the opening supply in a timed test, and
/// exactly the word count (at least one) otherwise.
pub open spec fn opening_words(config: Config, state: u64) -> (Seq<Seq<char>>, u64) {
    match config.mode {
        Mode::Quote => if sentences().len() > 0 {
            quote_words_spec(state)
        } else {
            (Seq::empty(), state)
        },
        Mode::Time => generate_spec(config.list@, INITIAL_WORDS as nat, config.decoration, state),
        Mode::Words => generate_spec(
            config.list@,
            ((if config.limit >= 1 {
                config.limit
            } else {
                1
            }) as usize) as nat,
            config.decoration,
            state,
        ),
    }
}

/// How many words are left to type.
pub open spec fn words_left(v: EngineView) -> int {
    if v.words.len() >= v.index {
        v.words.len() - v.index
    } else {
        0
    }
}

/// A timed test running low on words gets another supply.
pub open spec fn topped_up(v: EngineView, config: Config, state: u64) -> (EngineView, u64) {
    if v.mode == Mode::Time && words_left(v) < LOOKAHEAD {
        let (more, next) = generate_spec(config.list@, INITIAL_WORDS as nat, config.decoration, state);
        (EngineView { words: v.words + more, ..v }, next)
    } else {
        (v, state)
    }
}

/// The state of the interactive loop that its decisions depend on: the
/// settings, the test under way, the word generator and the screen.
pub struct Session {
    pub options: Options,
    pub engine: Engine,
    pub rng: Rng,
    pub screen: Screen,
}

/// Owned copies of the words.
fn copy_words(words: &Vec<String>) -> (r: Vec<String>)
    ensures
        texts(r@) == texts(words@),
{
    let mut out: Vec<String> = Vec::new();
    let mut i: usize = 0;
    while i < words.len()
        invariant
            i <= words@.len(),
            texts(out@) == texts(words@).take(i as int),
        decreases words@.len() - i,
    {
        let ghost before = texts(out@);
        let item = owned(words[i].as_str());
        assert(item@ == texts(words@)[i as int]);
        out.push(item);
        assert(texts(out@) =~= before.push(item@));
        i = i + 1;
        assert(texts(out@) =~= texts(words@).take(i as int));
    }
    assert(texts(words@).take(words@.len() as int) =~= texts(words@));
    out
}

/// A fresh test with new words.
fn start(options: &Options, rng: &mut Rng) -> (e: Engine)
    ensures
        e.wf(),
        e@ == fresh(
            options.config.mode,
            options.config.limit as int,
            opening_words(options.config, old(rng).state).0,
            options.backtrack,
        ),
        final(rng).state == opening_words(options.config, old(rng).state).1,
{
    let config = &options.config;
    let words = match config.mode {
        Mode::Quote => {
            let w = quote_words(rng);
            assert(sentences().len() == 0 ==> texts(w@) =~= Seq::<Seq<char>>::empty());
            w
        },
        Mode::Time => generate(config.list.as_str(), INITIAL_WORDS, config.decoration, rng),
        Mode::Words => {
            let count: i64 = if config.limit >= 1 {
                config.limit
            } else {
                1
            };
            generate(config.list.as_str(), count as usize, config.decoration, rng)
        },
    };
    Engine::new(config.mode, config.limit, words, options.backtrack)
}

impl Session {
    /// The first test of a session.
    pub fn new(options: Options, rng: Rng) -> (s: Session)
        ensures
            s.engine.wf(),
            s.options == options,
            s.screen == Screen::Test,
            s.engine@ == fresh(
                options.config.mode,
                options.config.limit as int,
                opening_words(options.config, rng.state).0,
                options.backtrack,
            ),
            s.rng.state == opening_words(options.config, rng.state).1,
    {
        let mut rng = rng;
        let engine = start(&options, &mut rng);
        Session { options, engine, rng, screen: Screen::Test }
    }

    /// Advances the clock of a running test and tops up its words. Returns
    /// `true` when the test has just ended, which moves to the results
    /// screen. Nothing happens on the results screen, or where the tick's
    /// time arithmetic would leave the range of `i64`.
    pub fn advance(&mut self, now: i64) -> (done: bool)
        requires
            old(self).engine.wf(),
        ensures
            final(self).engine.wf(),
            final(self).options == old(self).options,
            old(self).screen == Screen::Results || !old(self).engine@.tick_ok(now as int) ==> (*final(self)
                == *old(self) && !done),
            old(self).screen == Screen::Test && old(self).engine@.tick_ok(now as int) ==> {
                let (e, state) = topped_up(
                    old(self).engine@.tick(now as int),
                    old(self).options.config,
                    old(self).rng.state,
                );
                &&& final(self).engine@ == e
                &&& final(self).rng.state == state
                &&& done == e.finished()
                &&& final(self).screen == if e.finished() {
                    Screen::Results
                } else {
                    Screen::Test
                }
            },
    {
        if self.screen == Screen::Results || !self.engine.tick_ok(now) {
            return false;
        }
        self.engine.tick(now);
        if self.engine.needs_words(LOOKAHEAD) {
            let more = generate(
                self.options.config.list.as_str(),
                INITIAL_WORDS,
                self.options.config.decoration,
                &mut self.rng,
            );
            self.engine.extend(more);
        }
        if self.engine.finished() {
            self.screen = Screen::Results;
            true
        } else {
            false
        }
    }

    /// Acts on a keystroke's action and says what it did. Typing goes to
    /// the engine, unless the keystroke's time arithmetic would leave the
    /// range of `i64` or a counter it adds to is already full; a restart
    /// starts a new test on new words, or on the same words again.
    pub fn handle(&mut self, action: Action, now: i64) -> (step: Step)
        requires
            old(self).engine.wf(),
        ensures
            step == decide_spec(old(self).screen, action),
            final(self).engine.wf(),
            final(self).options == old(self).options,
            match step {
                Step::Quit | Step::Stay => *final(self) == *old(self),
                Step::Restart(Restart::New) => {
                    &&& final(self).screen == Screen::Test
                    &&& final(self).engine@ == fresh(
                        old(self).options.config.mode,
                        old(self).options.config.limit as int,
                        opening_words(old(self).options.config, old(self).rng.state).0,
                        old(self).options.backtrack,
                    )
                    &&& final(self).rng.state == opening_words(old(self).options.config, old(self).rng.state).1
                },
                Step::Restart(Restart::Repeat) => {
                    &&& final(self).screen == Screen::Test
                    &&& final(self).engine@ == fresh(
                        old(self).options.config.mode,
                        old(self).options.config.limit as int,
                        old(self).engine@.words,
                        old(self).options.backtrack,
                    )
                    &&& final(self).rng == old(self).rng
                },
                Step::Type(key) => {
                    &&& final(self).screen == old(self).screen
                    &&& final(self).rng == old(self).rng
                    &&& final(self).engine@ == if old(self).engine@.clock_ok(now as int)
                        && old(self).engine@.key_fits(key) {
                        old(self).engine@.key(key, now as int)
                    } else {
                        old(self).engine@
                    }
                },
            },
    {
        let step = decide(self.screen, action);
        match step {
            Step::Quit | Step::Stay => {},
            Step::Restart(Restart::New) => {
                self.engine = start(&self.options, &mut self.rng);
                self.screen = Screen::Test;
            },
            Step::Restart(Restart::Repeat) => {
                let words = copy_words(&self.engine.words);
                self.engine = Engine::new(
                    self.options.config.mode,
                    self.options.config.limit,
                    words,
                    self.options.backtrack,
                );
                self.screen = Screen::Test;
            },
            Step::Type(key) => {
                if self.engine.clock_ok(now) && self.engine.key_fits(key) {
                    self.engine.key(key, now);
                }
            },
        }
        step
    }
}

} // verus!
