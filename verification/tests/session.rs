use typr::cli::Options;
use typr::engine::{Backtrack, Key, Mode};
use typr::history::{decode, encode, Config, Figures, Record};
use typr::rng::Rng;
use typr::session::{
    best_message, classify, comparison, decide, frame_interval_ms, label, live_speed, resolve,
    result_trouble_options, size_due, text_column, too_small, worth_recording, Action, Pending,
    Resolved, Restart, Screen, Session, Step, IDLE_FRAME_MS, INITIAL_WORDS, RUNNING_FRAME_MS,
};
use typr::stats::Stats;
use typr::words::Decoration;

fn config(mode: Mode, limit: i64) -> Config {
    Config {
        mode,
        limit,
        list: "english".to_string(),
        decoration: Decoration::default(),
    }
}

fn options(mode: Mode, limit: i64) -> Options {
    Options {
        config: config(mode, limit),
        theme: "default".to_string(),
        width: 72,
        live_wpm: true,
        backtrack: Backtrack::Strict,
        seed: Some(7),
    }
}

fn record(wpm: i64) -> Record {
    let figures = Figures {
        wpm,
        raw: wpm,
        accuracy: 10_000,
        consistency: None,
    };
    let stats = Stats {
        correct: 100,
        elapsed_ms: 30_000,
        ..Stats::default()
    };
    decode(&encode(
        "2026-08-31T09:15:00",
        &config(Mode::Time, 30),
        &figures,
        &stats,
    ))
    .unwrap()
}

#[test]
fn keys_map_to_actions() {
    assert_eq!(classify('\t'), Resolved::Done(Action::Tab));
    assert_eq!(classify('\r'), Resolved::Done(Action::Enter));
    assert_eq!(classify('\n'), Resolved::Done(Action::Enter));
    assert_eq!(classify(' '), Resolved::Done(Action::Typing(Key::Space)));
    assert_eq!(classify('\x7f'), Resolved::Done(Action::Typing(Key::Backspace)));
    assert_eq!(classify('\x17'), Resolved::Done(Action::Typing(Key::BackspaceWord)));
    assert_eq!(classify('\x08'), Resolved::Done(Action::Typing(Key::BackspaceWord)));
    assert_eq!(classify('\x03'), Resolved::Done(Action::Quit));
    assert_eq!(classify('\x04'), Resolved::Done(Action::Quit));
    assert_eq!(classify('\x01'), Resolved::Done(Action::Ignore));
    assert_eq!(classify('é'), Resolved::Done(Action::Typing(Key::Char('é'))));
    assert_eq!(classify('\x1b'), Resolved::Wait(Pending::Escape));
}

#[test]
fn a_lone_escape_quits_and_an_arrow_key_is_ignored() {
    assert_eq!(resolve(Pending::Escape, None), Resolved::Done(Action::Quit));
    assert_eq!(resolve(Pending::Escape, Some('x')), Resolved::Done(Action::Quit));
    assert_eq!(
        resolve(Pending::Escape, Some('[')),
        Resolved::Wait(Pending::Sequence)
    );
    assert_eq!(
        resolve(Pending::Sequence, Some('1')),
        Resolved::Wait(Pending::Sequence)
    );
    assert_eq!(
        resolve(Pending::Sequence, Some('A')),
        Resolved::Done(Action::Ignore)
    );
    assert_eq!(resolve(Pending::Sequence, None), Resolved::Done(Action::Ignore));
}

#[test]
fn letters_are_commands_on_the_results_screen() {
    let typing = |c| Action::Typing(Key::Char(c));
    assert_eq!(decide(Screen::Results, typing('q')), Step::Quit);
    assert_eq!(
        decide(Screen::Results, typing('r')),
        Step::Restart(Restart::Repeat)
    );
    assert_eq!(decide(Screen::Results, typing('x')), Step::Stay);
    assert_eq!(
        decide(Screen::Results, Action::Enter),
        Step::Restart(Restart::New)
    );
    assert_eq!(decide(Screen::Test, typing('q')), Step::Type(Key::Char('q')));
    assert_eq!(decide(Screen::Test, Action::Tab), Step::Restart(Restart::New));
    assert_eq!(decide(Screen::Test, Action::Enter), Step::Stay);
    assert_eq!(decide(Screen::Test, Action::Quit), Step::Quit);
}

#[test]
fn frames_come_faster_while_a_test_runs() {
    assert_eq!(frame_interval_ms(Screen::Test, true), RUNNING_FRAME_MS);
    assert_eq!(frame_interval_ms(Screen::Test, false), IDLE_FRAME_MS);
    assert_eq!(frame_interval_ms(Screen::Results, true), IDLE_FRAME_MS);
}

#[test]
fn the_text_column_is_centred_with_a_margin() {
    assert_eq!(text_column(72, 100), (72, 15));
    assert_eq!(text_column(72, 60), (56, 3));
    assert_eq!(text_column(72, 2), (0, 2));
    assert!(too_small(7, 80));
    assert!(too_small(24, 39));
    assert!(!too_small(8, 40));
}

#[test]
fn the_size_is_checked_twice_a_second() {
    assert!(!size_due(499, 0));
    assert!(size_due(500, 0));
}

#[test]
fn a_run_abandoned_at_once_is_not_recorded() {
    assert!(!worth_recording(999, 10));
    assert!(!worth_recording(5_000, 0));
    assert!(worth_recording(1_000, 1));
    let options = result_trouble_options();
    assert_eq!((options.min_attempts, options.keys), (3, 4));
}

#[test]
fn the_label_names_the_settings() {
    assert_eq!(label(&config(Mode::Time, 30)), "30s · english");
    assert_eq!(label(&config(Mode::Words, 25)), "25 words · english");
    let quote = Config {
        decoration: Decoration {
            punctuation: true,
            numbers: true,
        },
        ..config(Mode::Quote, 0)
    };
    assert_eq!(label(&quote), "quote · punctuation · numbers");
}

#[test]
fn a_faster_result_is_a_personal_best() {
    // 362 characters in a minute: 72.4 wpm.
    let fast = Stats {
        correct: 352,
        correct_spaces: 10,
        elapsed_ms: 60_000,
        ..Stats::default()
    };
    assert_eq!(
        best_message(&fast, None).as_deref(),
        Some("first result for this test — the bar is set")
    );
    assert_eq!(
        best_message(&fast, Some(&record(6800))).as_deref(),
        Some("new personal best · +4 wpm on 68")
    );
    assert_eq!(best_message(&fast, Some(&record(7240))), None);
    assert_eq!(best_message(&fast, Some(&record(8000))), None);
}

#[test]
fn a_best_is_beaten_by_the_exact_speed_not_a_rounded_one() {
    // 9063 characters in 25 minutes: 72.504 wpm, faster than 72.50.
    let stats = Stats {
        correct: 9063,
        elapsed_ms: 1_500_000,
        ..Stats::default()
    };
    assert_eq!(
        best_message(&stats, Some(&record(7250))).as_deref(),
        Some("new personal best · +0 wpm on 73")
    );
    assert_eq!(best_message(&stats, Some(&record(7251))), None);
}

#[test]
fn the_comparison_gives_best_average_and_count() {
    let results = vec![record(6000), record(7050), record(6500)];
    assert_eq!(
        comparison(&results, "time-30-english").as_deref(),
        Some("pb 71 · avg 65 · 3 tests")
    );
    assert_eq!(
        comparison(&results[..1], "time-30-english").as_deref(),
        Some("pb 60 · avg 60 · 1 test")
    );
    assert_eq!(comparison(&results, "words-10-english"), None);
}

#[test]
fn a_session_starts_a_seeded_test_and_types_into_it() {
    let mut session = Session::new(options(Mode::Words, 3), Rng::seeded(7));
    assert_eq!(session.screen, Screen::Test);
    assert_eq!(session.engine.words.len(), 3);

    let first = session.engine.words[0].clone();
    for c in first.chars() {
        session.handle(Action::Typing(Key::Char(c)), 100);
    }
    assert_eq!(session.engine.buf, first);
}

#[test]
fn a_timed_test_is_topped_up_and_ends_on_the_results_screen() {
    let mut session = Session::new(options(Mode::Time, 1), Rng::seeded(7));
    assert_eq!(session.engine.words.len(), INITIAL_WORDS);
    let first = session.engine.words[0].clone();
    let c = first.chars().next().unwrap();
    session.handle(Action::Typing(Key::Char(c)), 0);
    assert!(!session.advance(500));
    assert_eq!(session.screen, Screen::Test);
    assert!(session.advance(1_500));
    assert_eq!(session.screen, Screen::Results);
    // Typing on the results screen does not reach the engine.
    let typed = session.engine.keys_correct + session.engine.keys_incorrect;
    assert_eq!(session.handle(Action::Typing(Key::Char('x')), 1_600), Step::Stay);
    assert_eq!(session.engine.keys_correct + session.engine.keys_incorrect, typed);
}

#[test]
fn repeat_keeps_the_words_and_tab_draws_new_ones() {
    let mut session = Session::new(options(Mode::Words, 5), Rng::seeded(7));
    let words = session.engine.words.clone();
    session.screen = Screen::Results;
    assert_eq!(
        session.handle(Action::Typing(Key::Char('r')), 10),
        Step::Restart(Restart::Repeat)
    );
    assert_eq!(session.engine.words, words);
    assert_eq!(session.screen, Screen::Test);

    assert_eq!(
        session.handle(Action::Tab, 20),
        Step::Restart(Restart::New)
    );
    assert_eq!(session.engine.words.len(), 5);
    assert_eq!(session.engine.index, 0);
}

#[test]
fn the_live_speed_is_whole_words_a_minute_after_the_first_second() {
    let mut session = Session::new(options(Mode::Time, 60), Rng::seeded(7));
    let first = session.engine.words[0].clone();
    for c in first.chars() {
        session.handle(Action::Typing(Key::Char(c)), 0);
    }
    session.handle(Action::Typing(Key::Space), 0);
    assert_eq!(live_speed(&session.engine, 500), 0);
    // One correct word and its space, twelve seconds in: a fifth of a
    // minute, so the speed is the character count over five, times five.
    let chars = first.chars().count() as i64 + 1;
    assert_eq!(live_speed(&session.engine, 12_000), chars);
    assert_eq!(live_speed(&session.engine, -5), 0);
}

#[test]
fn a_very_long_timed_test_still_takes_keystrokes() {
    let mut session = Session::new(options(Mode::Time, 300_000_000_000_000), Rng::seeded(7));
    let first = session.engine.words[0].clone();
    let c = first.chars().next().unwrap();
    session.handle(Action::Typing(Key::Char(c)), 0);
    assert!(session.engine.started());
    assert_eq!(session.engine.keys_correct, 1);
    assert!(!session.advance(2_000));
    assert!(session.engine.clock_sane(2_000));
    assert_eq!(session.engine.samples().len(), 2);
}

#[test]
fn only_a_full_counter_stops_a_keystroke() {
    let mut session = Session::new(options(Mode::Words, 3), Rng::seeded(7));
    let first = session.engine.words[0].clone();
    let c = first.chars().next().unwrap();
    session.engine.keys_correct = u32::MAX;
    // A wrong key adds to the other counter, which still has room.
    session.handle(Action::Typing(Key::Char('#')), 10);
    assert_eq!(session.engine.keys_incorrect, 1);
    assert_eq!(session.engine.buf, "#");
    session.handle(Action::Typing(Key::Backspace), 20);
    // A right key would overflow its counter, so it is dropped.
    session.handle(Action::Typing(Key::Char(c)), 30);
    assert_eq!(session.engine.buf, "");
    assert_eq!(session.engine.keys_correct, u32::MAX);
}
