//! Command line parsing.
//!
//! The options are few and the shapes are simple, so the parsing is done by
//! hand. Unknown flags are refused rather than ignored: a mistyped option
//! should not silently give you a different test from the one you asked for.
use vstd::prelude::*;

use crate::engine::{Backtrack, Mode};
use crate::history::Config;
use crate::number::{parse_i64, parse_u64, parsed};
use crate::text::{join_by, joined_by, owned, push_str, same_text, string_views};
use crate::theme::{theme_names, Theme};
use crate::words::{list_names, vocabulary, vocabulary_spec, Decoration};

verus! {

/// The version `--version` reports.
pub const VERSION: &'static str = "0.1.0";

pub const DEFAULT_SECONDS: i64 = 30;

pub const DEFAULT_WIDTH: usize = 72;

/// The narrowest the text column may be, so it stays usable.
pub const MIN_WIDTH: usize = 20;

/// Everything the command line decided, handed to the test as one value.
#[derive(Debug)]
pub struct Options {
    pub config: Config,
    pub theme: String,
    pub width: usize,
    pub live_wpm: bool,
    pub backtrack: Backtrack,
    pub seed: Option<u64>,
}

/// What the parsed arguments asked us to do.
#[derive(Debug)]
pub enum Command {
    Run(Box<Options>),
    Print(String),
    Diagnose,
    Stats,
}

/// Each recognised option and its value, if it takes one.
#[derive(Debug)]
pub struct Flags {
    pub time: Option<i64>,
    pub words: Option<i64>,
    pub quote: bool,
    pub list: String,
    pub punctuation: bool,
    pub numbers: bool,
    pub theme: String,
    pub width: usize,
    pub seed: Option<u64>,
    pub live_wpm: bool,
    pub free_backspace: bool,
}

/// The flags as plain values.
pub struct FlagValues {
    pub time: Option<i64>,
    pub words: Option<i64>,
    pub quote: bool,
    pub list: Seq<char>,
    pub punctuation: bool,
    pub numbers: bool,
    pub theme: Seq<char>,
    pub width: usize,
    pub seed: Option<u64>,
    pub live_wpm: bool,
    pub free_backspace: bool,
}

impl Flags {
    pub open spec fn values(&self) -> FlagValues {
        FlagValues {
            time: self.time,
            words: self.words,
            quote: self.quote,
            list: self.list@,
            punctuation: self.punctuation,
            numbers: self.numbers,
            theme: self.theme@,
            width: self.width,
            seed: self.seed,
            live_wpm: self.live_wpm,
            free_backspace: self.free_backspace,
        }
    }
}

/// The flags before any argument is read: a thirty second English test.
pub open spec fn default_flags() -> FlagValues {
    FlagValues {
        time: None,
        words: None,
        quote: false,
        list: "english"@,
        punctuation: false,
        numbers: false,
        theme: "default"@,
        width: DEFAULT_WIDTH,
        seed: None,
        live_wpm: true,
        free_backspace: false,
    }
}

impl Default for Flags {
    fn default() -> (f: Flags)
        ensures
            f.values() == default_flags(),
    {
        Flags {
            time: None,
            words: None,
            quote: false,
            list: owned("english"),
            punctuation: false,
            numbers: false,
            theme: owned("default"),
            width: DEFAULT_WIDTH,
            seed: None,
            live_wpm: true,
            free_backspace: false,
        }
    }
}

/// The options as plain values.
pub struct OptionValues {
    pub mode: Mode,
    pub limit: i64,
    pub list: Seq<char>,
    pub decoration: Decoration,
    pub theme: Seq<char>,
    pub width: usize,
    pub live_wpm: bool,
    pub backtrack: Backtrack,
    pub seed: Option<u64>,
}

impl Options {
    pub open spec fn values(&self) -> OptionValues {
        OptionValues {
            mode: self.config.mode,
            limit: self.config.limit,
            list: self.config.list@,
            decoration: self.config.decoration,
            theme: self.theme@,
            width: self.width,
            live_wpm: self.live_wpm,
            backtrack: self.backtrack,
            seed: self.seed,
        }
    }
}

/// What a command line comes to.
pub enum Outcome {
    Run(OptionValues),
    Print(Seq<char>),
    Diagnose,
    Stats,
    Error(Seq<char>),
}

/// `{:?}` of a string: what `<str as Debug>::fmt` writes.
pub uninterp spec fn debug_text(text: Seq<char>) -> Seq<char>;

/// The string quoted and escaped as `{:?}` writes it (`<str as
/// Debug>::fmt`). The text of that escaping is not stated.
#[verifier::external_body]
fn quoted(text: &str) -> (s: String)
    ensures
        s@ == debug_text(text@),
{
    format!("{text:?}")
}

/// The mode and length the flags ask for: quote mode wins, then a word
/// count, then a time (thirty seconds unless given).
pub open spec fn mode_spec(f: FlagValues) -> Result<(Mode, i64), Seq<char>> {
    if f.quote {
        Ok((Mode::Quote, 0))
    } else if f.words is Some {
        if f.words->0 > 0 {
            Ok((Mode::Words, f.words->0))
        } else {
            Err("word count must be positive"@)
        }
    } else {
        let seconds = match f.time {
            Some(t) => t,
            None => DEFAULT_SECONDS,
        };
        if seconds > 0 {
            Ok((Mode::Time, seconds))
        } else {
            Err("time must be positive"@)
        }
    }
}

pub fn resolve_mode(flags: &Flags) -> (r: Result<(Mode, i64), String>)
    ensures
        match (r, mode_spec(flags.values())) {
            (Ok(a), Ok(b)) => a == b,
            (Err(e), Err(m)) => e@ == m,
            _ => false,
        },
{
    if flags.quote {
        return Ok((Mode::Quote, 0));
    }
    match flags.words {
        Some(count) => {
            if count > 0 {
                Ok((Mode::Words, count))
            } else {
                Err(owned("word count must be positive"))
            }
        },
        None => {
            let seconds = match flags.time {
                Some(t) => t,
                None => DEFAULT_SECONDS,
            };
            if seconds > 0 {
                Ok((Mode::Time, seconds))
            } else {
                Err(owned("time must be positive"))
            }
        },
    }
}

/// The names of the word lists, `sep` between each two.
pub open spec fn list_text(sep: Seq<char>) -> Seq<char> {
    joined_by(seq!["english"@, "english_extended"@], sep)
}

/// The names of the themes, `sep` between each two.
pub open spec fn theme_text(sep: Seq<char>) -> Seq<char> {
    joined_by(theme_names(), sep)
}

fn lists_joined(sep: &str) -> (s: String)
    ensures
        s@ == list_text(sep@),
{
    join_by(&list_names(), sep)
}

fn themes_joined(sep: &str) -> (s: String)
    ensures
        s@ == theme_text(sep@),
{
    join_by(&Theme::names(), sep)
}

/// The options the flags come to, or why they are refused: the mode must
/// resolve, the word list must exist unless it goes unused in quote mode,
/// and the theme must exist.
pub open spec fn build_spec(f: FlagValues) -> Result<OptionValues, Seq<char>> {
    match mode_spec(f) {
        Err(e) => Err(e),
        Ok((mode, limit)) => if !f.quote && vocabulary_spec(f.list) is None {
            Err("unknown word list: "@ + f.list + " (try: "@ + list_text(", "@) + ")"@)
        } else if !theme_names().contains(f.theme) {
            Err("unknown theme: "@ + f.theme + " (try: "@ + theme_text(", "@) + ")"@)
        } else {
            Ok(
                OptionValues {
                    mode,
                    limit,
                    list: f.list,
                    decoration: Decoration { punctuation: f.punctuation, numbers: f.numbers },
                    theme: f.theme,
                    width: if f.width > MIN_WIDTH {
                        f.width
                    } else {
                        MIN_WIDTH
                    },
                    live_wpm: f.live_wpm,
                    backtrack: if f.free_backspace {
                        Backtrack::Free
                    } else {
                        Backtrack::Strict
                    },
                    seed: f.seed,
                },
            )
        },
    }
}

pub fn build(flags: Flags) -> (r: Result<Options, String>)
    ensures
        match (r, build_spec(flags.values())) {
            (Ok(o), Ok(v)) => o.values() == v,
            (Err(e), Err(m)) => e@ == m,
            _ => false,
        },
{
    let (mode, limit) = match resolve_mode(&flags) {
        Ok(m) => m,
        Err(e) => return Err(e),
    };
    if !flags.quote && vocabulary(flags.list.as_str()).is_none() {
        let mut message = owned("unknown word list: ");
        push_str(&mut message, flags.list.as_str());
        push_str(&mut message, " (try: ");
        push_str(&mut message, lists_joined(", ").as_str());
        push_str(&mut message, ")");
        return Err(message);
    }
    if !Theme::is_known(flags.theme.as_str()) {
        let mut message = owned("unknown theme: ");
        push_str(&mut message, flags.theme.as_str());
        push_str(&mut message, " (try: ");
        push_str(&mut message, themes_joined(", ").as_str());
        push_str(&mut message, ")");
        return Err(message);
    }
    let width = if flags.width > MIN_WIDTH {
        flags.width
    } else {
        MIN_WIDTH
    };
    Ok(
        Options {
            config: Config {
                mode,
                limit,
                list: flags.list,
                decoration: Decoration { punctuation: flags.punctuation, numbers: flags.numbers },
            },
            theme: flags.theme,
            width,
            live_wpm: flags.live_wpm,
            backtrack: if flags.free_backspace {
                Backtrack::Free
            } else {
                Backtrack::Strict
            },
            seed: flags.seed,
        },
    )
}

/// The help text, naming every word list and theme.
pub open spec fn usage_spec() -> Seq<char> {
    "typr — a typing test for the terminal\n\nusage: typr [options]\n\nmodes\n  -t, --time SECONDS      timed test (default: 30)\n  -w, --words COUNT       fixed word-count test\n  -q, --quote             type a sentence\n\ntext\n  -l, --list NAME         word list: "@
        + list_text(", "@)
        + "\n  -p, --punctuation       mix in punctuation and capitals\n  -n, --numbers           mix in numbers\n\ndisplay\n      --theme NAME        "@
        + theme_text(", "@)
        + "\n      --width COLUMNS     text column width (default: 72)\n      --seed N            reproducible words — same seed, same test\n      --no-live-wpm       hide the live speed counter\n\nbehaviour\n      --free-backspace    allow going back to correctly typed words\n\nother\n      --stats             show bests, averages and trouble keys\n      --doctor            report terminal capabilities\n      --themes            list themes\n      --lists             list word lists\n      --version\n  -h, --help\n\nkeys\n  tab                     restart with new words\n  r                       repeat the same words (results screen)\n  backspace               delete a character\n  ctrl+w                  delete the current word\n  esc                     quit"@
}

pub fn usage() -> (s: String)
    ensures
        s@ == usage_spec(),
{
    let mut out = owned(
        "typr — a typing test for the terminal\n\nusage: typr [options]\n\nmodes\n  -t, --time SECONDS      timed test (default: 30)\n  -w, --words COUNT       fixed word-count test\n  -q, --quote             type a sentence\n\ntext\n  -l, --list NAME         word list: ",
    );
    push_str(&mut out, lists_joined(", ").as_str());
    push_str(
        &mut out,
        "\n  -p, --punctuation       mix in punctuation and capitals\n  -n, --numbers           mix in numbers\n\ndisplay\n      --theme NAME        ",
    );
    push_str(&mut out, themes_joined(", ").as_str());
    push_str(
        &mut out,
        "\n      --width COLUMNS     text column width (default: 72)\n      --seed N            reproducible words — same seed, same test\n      --no-live-wpm       hide the live speed counter\n\nbehaviour\n      --free-backspace    allow going back to correctly typed words\n\nother\n      --stats             show bests, averages and trouble keys\n      --doctor            report terminal capabilities\n      --themes            list themes\n      --lists             list word lists\n      --version\n  -h, --help\n\nkeys\n  tab                     restart with new words\n  r                       repeat the same words (results screen)\n  backspace               delete a character\n  ctrl+w                  delete the current word\n  esc                     quit",
    );
    out
}

/// The refusal for an option given something that is not a number.
pub open spec fn not_a_number(flag: Seq<char>, text: Seq<char>) -> Seq<char> {
    flag + " needs a number, not "@ + debug_text(text)
}

/// Reads the arguments from the `i`-th on, the flags so far being `f`.
/// Help, version and listings answer at once; an option that takes a value
/// takes the next argument whatever it is; anything unrecognised is refused.
pub open spec fn parse_from(args: Seq<Seq<char>>, i: int, f: FlagValues) -> Outcome
    decreases args.len() - i,
{
    if i < 0 || i >= args.len() {
        match build_spec(f) {
            Ok(v) => Outcome::Run(v),
            Err(e) => Outcome::Error(e),
        }
    } else {
        let a = args[i];
        let value: Option<Seq<char>> = if i + 1 < args.len() {
            Some(args[i + 1])
        } else {
            None
        };
        let missing = Outcome::Error(a + " needs a value"@);
        if a == "-h"@ || a == "--help"@ {
            Outcome::Print(usage_spec())
        } else if a == "--version"@ {
            Outcome::Print("typr "@ + VERSION@)
        } else if a == "--themes"@ {
            Outcome::Print(theme_text("\n"@))
        } else if a == "--lists"@ {
            Outcome::Print(list_text("\n"@))
        } else if a == "--stats"@ {
            Outcome::Stats
        } else if a == "--doctor"@ {
            Outcome::Diagnose
        } else if a == "-t"@ || a == "--time"@ || a == "-w"@ || a == "--words"@ || a == "--width"@ {
            match value {
                None => missing,
                Some(v) => match parsed(v, true, i64::MIN as int, i64::MAX as int) {
                    None => Outcome::Error(not_a_number(a, v)),
                    Some(n) => parse_from(
                        args,
                        i + 2,
                        if a == "-t"@ || a == "--time"@ {
                            FlagValues { time: Some(n as i64), ..f }
                        } else if a == "-w"@ || a == "--words"@ {
                            FlagValues { words: Some(n as i64), ..f }
                        } else {
                            FlagValues {
                                width: (if n > 0 {
                                    n
                                } else {
                                    0
                                }) as usize,
                                ..f
                            }
                        },
                    ),
                },
            }
        } else if a == "--seed"@ {
            match value {
                None => missing,
                Some(v) => match parsed(v, false, 0, u64::MAX as int) {
                    None => Outcome::Error(not_a_number(a, v)),
                    Some(n) => parse_from(args, i + 2, FlagValues { seed: Some(n as u64), ..f }),
                },
            }
        } else if a == "-l"@ || a == "--list"@ {
            match value {
                None => missing,
                Some(v) => parse_from(args, i + 2, FlagValues { list: v, ..f }),
            }
        } else if a == "--theme"@ {
            match value {
                None => missing,
                Some(v) => parse_from(args, i + 2, FlagValues { theme: v, ..f }),
            }
        } else if a == "-q"@ || a == "--quote"@ {
            parse_from(args, i + 1, FlagValues { quote: true, ..f })
        } else if a == "-p"@ || a == "--punctuation"@ {
            parse_from(args, i + 1, FlagValues { punctuation: true, ..f })
        } else if a == "-n"@ || a == "--numbers"@ {
            parse_from(args, i + 1, FlagValues { numbers: true, ..f })
        } else if a == "--live-wpm"@ {
            parse_from(args, i + 1, FlagValues { live_wpm: true, ..f })
        } else if a == "--no-live-wpm"@ {
            parse_from(args, i + 1, FlagValues { live_wpm: false, ..f })
        } else if a == "--free-backspace"@ {
            parse_from(args, i + 1, FlagValues { free_backspace: true, ..f })
        } else if a.len() > 0 && a[0] == '-' {
            Outcome::Error("unknown option: "@ + a)
        } else {
            Outcome::Error("unexpected argument: "@ + a)
        }
    }
}

/// What a command line comes to.
pub open spec fn parse_spec(args: Seq<Seq<char>>) -> Outcome {
    parse_from(args, 0, default_flags())
}

/// What every test the command line can start has: a usable width, a
/// positive length unless it is a quote, a known theme, and a known word
/// list unless it is a quote.
pub open spec fn runnable(v: OptionValues) -> bool {
    &&& v.width >= MIN_WIDTH
    &&& v.mode != Mode::Quote ==> v.limit > 0
    &&& theme_names().contains(v.theme)
    &&& v.mode != Mode::Quote ==> vocabulary_spec(v.list) is Some
}

/// Whether an outcome, if it starts a test, starts a runnable one.
pub open spec fn starts_runnable(outcome: Outcome) -> bool {
    outcome matches Outcome::Run(v) ==> runnable(v)
}

proof fn lemma_parse_from_runnable(args: Seq<Seq<char>>, i: int)
    requires
        0 <= i,
    ensures
        forall|f: FlagValues| starts_runnable(#[trigger] parse_from(args, i, f)),
    decreases args.len() - i,
{
    if i < args.len() {
        lemma_parse_from_runnable(args, i + 1);
        if i + 2 <= args.len() {
            lemma_parse_from_runnable(args, i + 2);
        }
        assert forall|f: FlagValues| starts_runnable(#[trigger] parse_from(args, i, f)) by {
            let a = args[i];
            let value: Option<Seq<char>> = if i + 1 < args.len() {
                Some(args[i + 1])
            } else {
                None
            };
            if a == "-h"@ || a == "--help"@ || a == "--version"@ || a == "--themes"@ || a == "--lists"@
                || a == "--stats"@ || a == "--doctor"@ {
            } else if a == "-t"@ || a == "--time"@ || a == "-w"@ || a == "--words"@ || a == "--width"@ {
                if let Some(v) = value {
                    if let Some(n) = parsed(v, true, i64::MIN as int, i64::MAX as int) {
                        let g = if a == "-t"@ || a == "--time"@ {
                            FlagValues { time: Some(n as i64), ..f }
                        } else if a == "-w"@ || a == "--words"@ {
                            FlagValues { words: Some(n as i64), ..f }
                        } else {
                            FlagValues {
                                width: (if n > 0 {
                                    n
                                } else {
                                    0
                                }) as usize,
                                ..f
                            }
                        };
                        assert(parse_from(args, i, f) == parse_from(args, i + 2, g));
                    }
                }
            } else if a == "--seed"@ {
                if let Some(v) = value {
                    if let Some(n) = parsed(v, false, 0, u64::MAX as int) {
                        assert(parse_from(args, i, f) == parse_from(args, i + 2, FlagValues { seed: Some(n as u64), ..f }));
                    }
                }
            } else if a == "-l"@ || a == "--list"@ {
                if let Some(v) = value {
                    assert(parse_from(args, i, f) == parse_from(args, i + 2, FlagValues { list: v, ..f }));
                }
            } else if a == "--theme"@ {
                if let Some(v) = value {
                    assert(parse_from(args, i, f) == parse_from(args, i + 2, FlagValues { theme: v, ..f }));
                }
            } else if a == "-q"@ || a == "--quote"@ {
                assert(parse_from(args, i, f) == parse_from(args, i + 1, FlagValues { quote: true, ..f }));
            } else if a == "-p"@ || a == "--punctuation"@ {
                assert(parse_from(args, i, f) == parse_from(args, i + 1, FlagValues { punctuation: true, ..f }));
            } else if a == "-n"@ || a == "--numbers"@ {
                assert(parse_from(args, i, f) == parse_from(args, i + 1, FlagValues { numbers: true, ..f }));
            } else if a == "--live-wpm"@ {
                assert(parse_from(args, i, f) == parse_from(args, i + 1, FlagValues { live_wpm: true, ..f }));
            } else if a == "--no-live-wpm"@ {
                assert(parse_from(args, i, f) == parse_from(args, i + 1, FlagValues { live_wpm: false, ..f }));
            } else if a == "--free-backspace"@ {
                assert(parse_from(args, i, f) == parse_from(args, i + 1, FlagValues { free_backspace: true, ..f }));
            }
        }
    } else {
        assert forall|f: FlagValues| starts_runnable(#[trigger] parse_from(args, i, f)) by {
            if let Ok(v) = build_spec(f) {
                assert(runnable(v));
            }
        }
    }
}

/// The width has a floor so the column stays usable, and no test starts
/// with a length, a theme or a word list it cannot use: whatever the
/// arguments, a test they start is runnable.
pub proof fn lemma_parsed_tests_are_runnable(args: Seq<Seq<char>>)
    ensures
        starts_runnable(parse_spec(args)),
{
    lemma_parse_from_runnable(args, 0);
}

/// The options the command line knows.
pub open spec fn known_option(a: Seq<char>) -> bool {
    ||| a == "-h"@ || a == "--help"@ || a == "--version"@ || a == "--themes"@ || a == "--lists"@
    ||| a == "--stats"@ || a == "--doctor"@
    ||| a == "-t"@ || a == "--time"@ || a == "-w"@ || a == "--words"@ || a == "--width"@
    ||| a == "--seed"@ || a == "-l"@ || a == "--list"@ || a == "--theme"@
    ||| a == "-q"@ || a == "--quote"@ || a == "-p"@ || a == "--punctuation"@ || a == "-n"@
        || a == "--numbers"@
    ||| a == "--live-wpm"@ || a == "--no-live-wpm"@ || a == "--free-backspace"@
}

/// Unknown options are refused rather than ignored, and so are arguments
/// that are not options: a mistyped option never gives a different test
/// from the one asked for.
pub proof fn lemma_unknown_arguments_are_refused(args: Seq<Seq<char>>, i: int, f: FlagValues)
    requires
        0 <= i < args.len(),
        !known_option(args[i]),
    ensures
        parse_from(args, i, f) == if args[i].len() > 0 && args[i][0] == '-' {
            Outcome::Error("unknown option: "@ + args[i])
        } else {
            Outcome::Error("unexpected argument: "@ + args[i])
        },
{
}

/// Whether `x` or `y` is among the arguments from the `i`-th on.
pub open spec fn mentions(args: Seq<Seq<char>>, i: int, x: Seq<char>, y: Seq<char>) -> bool {
    exists|j: int| i <= j < args.len() && (#[trigger] args[j] == x || args[j] == y)
}

/// Where reading goes on after the `i`-th argument, and with which flags,
/// when it goes on.
spec fn step(args: Seq<Seq<char>>, i: int, f: FlagValues) -> (int, FlagValues) {
    let a = args[i];
    if a == "-t"@ || a == "--time"@ || a == "-w"@ || a == "--words"@ || a == "--width"@ {
        let n = parsed(args[i + 1], true, i64::MIN as int, i64::MAX as int)->0;
        (
            i + 2,
            if a == "-t"@ || a == "--time"@ {
                FlagValues { time: Some(n as i64), ..f }
            } else if a == "-w"@ || a == "--words"@ {
                FlagValues { words: Some(n as i64), ..f }
            } else {
                FlagValues {
                    width: (if n > 0 {
                        n
                    } else {
                        0
                    }) as usize,
                    ..f
                }
            },
        )
    } else if a == "--seed"@ {
        (i + 2, FlagValues { seed: Some(parsed(args[i + 1], false, 0, u64::MAX as int)->0 as u64), ..f })
    } else if a == "-l"@ || a == "--list"@ {
        (i + 2, FlagValues { list: args[i + 1], ..f })
    } else if a == "--theme"@ {
        (i + 2, FlagValues { theme: args[i + 1], ..f })
    } else if a == "-q"@ || a == "--quote"@ {
        (i + 1, FlagValues { quote: true, ..f })
    } else if a == "-p"@ || a == "--punctuation"@ {
        (i + 1, FlagValues { punctuation: true, ..f })
    } else if a == "-n"@ || a == "--numbers"@ {
        (i + 1, FlagValues { numbers: true, ..f })
    } else if a == "--live-wpm"@ {
        (i + 1, FlagValues { live_wpm: true, ..f })
    } else if a == "--no-live-wpm"@ {
        (i + 1, FlagValues { live_wpm: false, ..f })
    } else {
        (i + 1, FlagValues { free_backspace: true, ..f })
    }
}

/// An argument that reading goes past on the way to a test sets only its
/// own flag; reading a longer command line that agrees with this one so far
/// takes the same step.
proof fn lemma_step(args: Seq<Seq<char>>, other: Seq<Seq<char>>, i: int, f: FlagValues)
    requires
        0 <= i < args.len(),
        parse_from(args, i, f) is Run,
        args.len() <= other.len(),
        forall|k: int| 0 <= k < args.len() ==> other[k] == args[k],
    ensures
        ({
            let (j, g) = step(args, i, f);
            &&& i < j <= args.len()
            &&& parse_from(args, i, f) == parse_from(args, j, g)
            &&& parse_from(other, i, f) == parse_from(other, j, g)
            &&& g.punctuation == (f.punctuation || args[i] == "-p"@ || args[i] == "--punctuation"@)
            &&& g.numbers == (f.numbers || args[i] == "-n"@ || args[i] == "--numbers"@)
        }),
{
    let a = args[i];
    assert(other[i] == a);
    if i + 1 < args.len() {
        assert(other[i + 1] == args[i + 1]);
    }
    lemma_flag_names_differ();
    let (j, g) = step(args, i, f);
    if a == "-h"@ || a == "--help"@ || a == "--version"@ || a == "--themes"@ || a == "--lists"@
        || a == "--stats"@ || a == "--doctor"@ {
        assert(!(parse_from(args, i, f) is Run));
    } else if a == "-t"@ || a == "--time"@ || a == "-w"@ || a == "--words"@ || a == "--width"@ {
        assert(i + 1 < args.len());
        assert(parse_from(args, i, f) == parse_from(args, j, g));
        assert(parse_from(other, i, f) == parse_from(other, j, g));
        assert(i < j <= args.len());
        assert(g.punctuation == (f.punctuation || args[i] == "-p"@ || args[i] == "--punctuation"@));
        assert(g.numbers == (f.numbers || args[i] == "-n"@ || args[i] == "--numbers"@));
    } else if a == "--seed"@ {
        assert(i + 1 < args.len());
        assert(parse_from(args, i, f) == parse_from(args, j, g));
        assert(parse_from(other, i, f) == parse_from(other, j, g));
        assert(i < j <= args.len());
        assert(g.punctuation == (f.punctuation || args[i] == "-p"@ || args[i] == "--punctuation"@));
        assert(g.numbers == (f.numbers || args[i] == "-n"@ || args[i] == "--numbers"@));
    } else if a == "-l"@ || a == "--list"@ || a == "--theme"@ {
        assert(i + 1 < args.len());
        assert(parse_from(args, i, f) == parse_from(args, j, g));
        assert(parse_from(other, i, f) == parse_from(other, j, g));
        assert(i < j <= args.len());
        assert(g.punctuation == (f.punctuation || args[i] == "-p"@ || args[i] == "--punctuation"@));
        assert(g.numbers == (f.numbers || args[i] == "-n"@ || args[i] == "--numbers"@));
    } else if a == "-q"@ || a == "--quote"@ || a == "-p"@ || a == "--punctuation"@ || a == "-n"@
        || a == "--numbers"@ || a == "--live-wpm"@ || a == "--no-live-wpm"@ || a == "--free-backspace"@ {
        assert(parse_from(args, i, f) == parse_from(args, j, g));
        assert(parse_from(other, i, f) == parse_from(other, j, g));
        assert(i < j <= args.len());
        assert(g.punctuation == (f.punctuation || args[i] == "-p"@ || args[i] == "--punctuation"@));
        assert(g.numbers == (f.numbers || args[i] == "-n"@ || args[i] == "--numbers"@));
    } else {
        assert(!(parse_from(args, i, f) is Run));
    }
}

/// The options the command line reads are told apart by their names.
proof fn lemma_flag_names_differ()
    ensures
        "-h"@.len() == 2 && "--help"@.len() == 6 && "--version"@.len() == 9 && "--themes"@.len() == 8,
        "--lists"@.len() == 7 && "--stats"@.len() == 7 && "--doctor"@.len() == 8 && "-t"@.len() == 2,
        "--time"@.len() == 6 && "-w"@.len() == 2 && "--words"@.len() == 7 && "--width"@.len() == 7,
        "--seed"@.len() == 6 && "-l"@.len() == 2 && "--list"@.len() == 6 && "--theme"@.len() == 7,
        "-q"@.len() == 2 && "--quote"@.len() == 7 && "-p"@.len() == 2 && "--punctuation"@.len() == 13,
        "-n"@.len() == 2 && "--numbers"@.len() == 9 && "--live-wpm"@.len() == 10 && "--no-live-wpm"@.len() == 13,
        "--free-backspace"@.len() == 16,
        "-p"@ != "-h"@ && "-p"@ != "-t"@ && "-p"@ != "-w"@,
        "-p"@ != "-l"@ && "-p"@ != "-q"@ && "-p"@ != "-n"@,
        "--punctuation"@ != "--no-live-wpm"@ && "-n"@ != "-h"@ && "-n"@ != "-t"@,
        "-n"@ != "-w"@ && "-n"@ != "-l"@ && "-n"@ != "-q"@,
        "-n"@ != "-p"@ && "--numbers"@ != "--version"@,
{
    reveal_strlit("-h");
    reveal_strlit("--help");
    reveal_strlit("--version");
    reveal_strlit("--themes");
    reveal_strlit("--lists");
    reveal_strlit("--stats");
    reveal_strlit("--doctor");
    reveal_strlit("-t");
    reveal_strlit("--time");
    reveal_strlit("-w");
    reveal_strlit("--words");
    reveal_strlit("--width");
    reveal_strlit("--seed");
    reveal_strlit("-l");
    reveal_strlit("--list");
    reveal_strlit("--theme");
    reveal_strlit("-q");
    reveal_strlit("--quote");
    reveal_strlit("-p");
    reveal_strlit("--punctuation");
    reveal_strlit("-n");
    reveal_strlit("--numbers");
    reveal_strlit("--live-wpm");
    reveal_strlit("--no-live-wpm");
    reveal_strlit("--free-backspace");
    assert("-p"@[1] != "-h"@[1]);
    assert("-p"@[1] != "-t"@[1]);
    assert("-p"@[1] != "-w"@[1]);
    assert("-p"@[1] != "-l"@[1]);
    assert("-p"@[1] != "-q"@[1]);
    assert("-p"@[1] != "-n"@[1]);
    assert("--punctuation"@[2] != "--no-live-wpm"@[2]);
    assert("-n"@[1] != "-h"@[1]);
    assert("-n"@[1] != "-t"@[1]);
    assert("-n"@[1] != "-w"@[1]);
    assert("-n"@[1] != "-l"@[1]);
    assert("-n"@[1] != "-q"@[1]);
    assert("-n"@[1] != "-p"@[1]);
    assert("--numbers"@[2] != "--version"@[2]);
}

proof fn lemma_mentions_from(args: Seq<Seq<char>>, i: int, k: int, x: Seq<char>, y: Seq<char>)
    requires
        i <= k,
        mentions(args, k, x, y),
    ensures
        mentions(args, i, x, y),
{
    let j = choose|j: int| k <= j < args.len() && (#[trigger] args[j] == x || args[j] == y);
    assert(i <= j < args.len() && (args[j] == x || args[j] == y));
}

proof fn lemma_decoration_from(args: Seq<Seq<char>>, i: int, f: FlagValues)
    requires
        0 <= i,
    ensures
        parse_from(args, i, f) matches Outcome::Run(v) ==> {
            &&& v.decoration.punctuation ==> f.punctuation || mentions(args, i, "-p"@, "--punctuation"@)
            &&& v.decoration.numbers ==> f.numbers || mentions(args, i, "-n"@, "--numbers"@)
        },
    decreases args.len() - i,
{
    if i < args.len() && parse_from(args, i, f) is Run {
        lemma_step(args, args, i, f);
        let (j, g) = step(args, i, f);
        lemma_decoration_from(args, j, g);
        if mentions(args, j, "-p"@, "--punctuation"@) {
            lemma_mentions_from(args, i, j, "-p"@, "--punctuation"@);
        }
        if mentions(args, j, "-n"@, "--numbers"@) {
            lemma_mentions_from(args, i, j, "-n"@, "--numbers"@);
        }
        if args[i] == "-p"@ || args[i] == "--punctuation"@ {
            assert(i <= i < args.len() && (args[i] == "-p"@ || args[i] == "--punctuation"@));
        }
        if args[i] == "-n"@ || args[i] == "--numbers"@ {
            assert(i <= i < args.len() && (args[i] == "-n"@ || args[i] == "--numbers"@));
        }
    }
}

/// The decoration of a test the command line starts comes from its own
/// flags alone: punctuation is on only where `-p` or `--punctuation` is
/// among the arguments, and numbers only where `-n` or `--numbers` is.
pub proof fn lemma_decoration_comes_from_its_flags(args: Seq<Seq<char>>)
    ensures
        parse_spec(args) matches Outcome::Run(v) ==> {
            &&& v.decoration.punctuation ==> mentions(args, 0, "-p"@, "--punctuation"@)
            &&& v.decoration.numbers ==> mentions(args, 0, "-n"@, "--numbers"@)
        },
{
    lemma_decoration_from(args, 0, default_flags());
}

/// Whether `x` is one of the decoration flags.
pub open spec fn decoration_flag(x: Seq<char>) -> bool {
    x == "-p"@ || x == "--punctuation"@ || x == "-n"@ || x == "--numbers"@
}

/// The options with the decoration flag `x` added.
pub open spec fn with_flag(v: OptionValues, x: Seq<char>) -> OptionValues {
    OptionValues {
        decoration: Decoration {
            punctuation: v.decoration.punctuation || x == "-p"@ || x == "--punctuation"@,
            numbers: v.decoration.numbers || x == "-n"@ || x == "--numbers"@,
        },
        ..v
    }
}

proof fn lemma_flag_added_from(args: Seq<Seq<char>>, x: Seq<char>, i: int, f: FlagValues)
    requires
        0 <= i <= args.len(),
        decoration_flag(x),
    ensures
        parse_from(args, i, f) matches Outcome::Run(v) ==> parse_from(args.push(x), i, f) == Outcome::Run(
            with_flag(v, x),
        ),
    decreases args.len() - i,
{
    let longer = args.push(x);
    if i < args.len() {
        if parse_from(args, i, f) is Run {
            assert forall|k: int| 0 <= k < args.len() implies longer[k] == args[k] by {}
            lemma_step(args, longer, i, f);
            let (j, g) = step(args, i, f);
            lemma_flag_added_from(args, x, j, g);
        }
    } else {
        lemma_flag_names_differ();
        assert(longer[i] == x);
        let g = if x == "-p"@ || x == "--punctuation"@ {
            FlagValues { punctuation: true, ..f }
        } else {
            FlagValues { numbers: true, ..f }
        };
        assert(parse_from(longer, i, f) == parse_from(longer, i + 1, g));
        assert(mode_spec(g) == mode_spec(f));
    }
}

/// A decoration flag added at the end of a command line that starts a test
/// starts the same test with that decoration turned on and the other left
/// as it was: `-n` adds numbers and never punctuation, `-p` punctuation and
/// never numbers.
pub proof fn lemma_a_decoration_flag_adds_only_itself(args: Seq<Seq<char>>, x: Seq<char>)
    requires
        decoration_flag(x),
    ensures
        parse_spec(args) matches Outcome::Run(v) ==> parse_spec(args.push(x)) == Outcome::Run(with_flag(v, x)),
{
    lemma_flag_added_from(args, x, 0, default_flags());
}

/// Whether a result is the outcome.
pub open spec fn answers(r: Result<Command, String>, outcome: Outcome) -> bool {
    match (r, outcome) {
        (Ok(Command::Run(o)), Outcome::Run(v)) => o.values() == v,
        (Ok(Command::Print(t)), Outcome::Print(s)) => t@ == s,
        (Ok(Command::Diagnose), Outcome::Diagnose) => true,
        (Ok(Command::Stats), Outcome::Stats) => true,
        (Err(e), Outcome::Error(s)) => e@ == s,
        _ => false,
    }
}

fn needs_value(flag: &str) -> (s: String)
    ensures
        s@ == flag@ + " needs a value"@,
{
    let mut out = owned(flag);
    push_str(&mut out, " needs a value");
    out
}

fn number_error(flag: &str, text: &str) -> (s: String)
    ensures
        s@ == not_a_number(flag@, text@),
{
    let mut out = owned(flag);
    push_str(&mut out, " needs a number, not ");
    push_str(&mut out, quoted(text).as_str());
    out
}

/// Reads the command line (without the program name).
pub fn parse(args: &[String]) -> (r: Result<Command, String>)
    ensures
        answers(r, parse_spec(string_views(args@))),
{
    let ghost all = string_views(args@);
    let mut flags = Flags::default();
    let mut i: usize = 0;
    while i < args.len()
        invariant
            all == string_views(args@),
            i <= args@.len(),
            parse_spec(all) == parse_from(all, i as int, flags.values()),
        decreases args@.len() - i,
    {
        let a = args[i].as_str();
        assert(all[i as int] == a@);
        let has_value = i + 1 < args.len();
        proof {
            if has_value {
                assert(all[i + 1] == args@[i + 1]@);
            }
        }
        if same_text(a, "-h") || same_text(a, "--help") {
            return Ok(Command::Print(usage()));
        } else if same_text(a, "--version") {
            let mut text = owned("typr ");
            push_str(&mut text, VERSION);
            return Ok(Command::Print(text));
        } else if same_text(a, "--themes") {
            return Ok(Command::Print(themes_joined("\n")));
        } else if same_text(a, "--lists") {
            return Ok(Command::Print(lists_joined("\n")));
        } else if same_text(a, "--stats") {
            return Ok(Command::Stats);
        } else if same_text(a, "--doctor") {
            return Ok(Command::Diagnose);
        } else if same_text(a, "-t") || same_text(a, "--time") || same_text(a, "-w") || same_text(
            a,
            "--words",
        ) || same_text(a, "--width") {
            if !has_value {
                return Err(needs_value(a));
            }
            let v = args[i + 1].as_str();
            let n = match parse_i64(v) {
                Some(n) => n,
                None => return Err(number_error(a, v)),
            };
            if same_text(a, "-t") || same_text(a, "--time") {
                flags.time = Some(n);
            } else if same_text(a, "-w") || same_text(a, "--words") {
                flags.words = Some(n);
            } else {
                flags.width = (if n > 0 {
                    n
                } else {
                    0
                }) as usize;
            }
            i = i + 2;
        } else if same_text(a, "--seed") {
            if !has_value {
                return Err(needs_value(a));
            }
            let v = args[i + 1].as_str();
            match parse_u64(v) {
                Some(n) => {
                    flags.seed = Some(n);
                },
                None => return Err(number_error(a, v)),
            }
            i = i + 2;
        } else if same_text(a, "-l") || same_text(a, "--list") {
            if !has_value {
                return Err(needs_value(a));
            }
            flags.list = owned(args[i + 1].as_str());
            i = i + 2;
        } else if same_text(a, "--theme") {
            if !has_value {
                return Err(needs_value(a));
            }
            flags.theme = owned(args[i + 1].as_str());
            i = i + 2;
        } else if same_text(a, "-q") || same_text(a, "--quote") {
            flags.quote = true;
            i = i + 1;
        } else if same_text(a, "-p") || same_text(a, "--punctuation") {
            flags.punctuation = true;
            i = i + 1;
        } else if same_text(a, "-n") || same_text(a, "--numbers") {
            flags.numbers = true;
            i = i + 1;
        } else if same_text(a, "--live-wpm") {
            flags.live_wpm = true;
            i = i + 1;
        } else if same_text(a, "--no-live-wpm") {
            flags.live_wpm = false;
            i = i + 1;
        } else if same_text(a, "--free-backspace") {
            flags.free_backspace = true;
            i = i + 1;
        } else if a.unicode_len() > 0 && a.get_char(0) == '-' {
            let mut message = owned("unknown option: ");
            push_str(&mut message, a);
            return Err(message);
        } else {
            let mut message = owned("unexpected argument: ");
            push_str(&mut message, a);
            return Err(message);
        }
    }
    match build(flags) {
        Ok(options) => Ok(Command::Run(Box::new(options))),
        Err(e) => Err(e),
    }
}

} // verus!
