use typr::engine::{Backtrack, Engine, Key, LetterTally, Mode, Sample, SlipTally, Status, Word};

fn words(list: &[&str]) -> Vec<String> {
    list.iter().map(|word| word.to_string()).collect()
}

fn engine() -> Engine {
    Engine::new(
        Mode::Time,
        30,
        words(&["the", "quick", "brown", "fox"]),
        Backtrack::Strict,
    )
}

fn engine_with(mode: Mode, limit: i64, list: &[&str]) -> Engine {
    Engine::new(mode, limit, words(list), Backtrack::Strict)
}

fn type_at(engine: &mut Engine, text: &str, now: i64) {
    for character in text.chars() {
        engine.key(Key::Char(character), now);
    }
}

fn type_text(engine: &mut Engine, text: &str) {
    type_at(engine, text, 0);
}

fn tally(pairs: &[(char, u32)]) -> LetterTally {
    let mut out = LetterTally::new();
    for (letter, count) in pairs {
        out.insert(*letter, *count);
    }
    out
}

fn slip_tally(pairs: &[((char, char), u32)]) -> SlipTally {
    let mut out = SlipTally::new();
    for (pair, count) in pairs {
        out.insert(*pair, *count);
    }
    out
}

/// When a sample ends, in seconds since the first keystroke.
fn at(sample: &Sample) -> f64 {
    sample.at_ms as f64 / 1000.0
}

/// A sample's speed: its keystrokes, five to a word, per minute.
fn raw(sample: &Sample) -> f64 {
    sample.chars as f64 / 5.0 * 60_000.0 / sample.span_ms as f64
}

fn typed(engine: &Engine) -> Vec<&str> {
    engine.typed().iter().map(|word| word.as_str()).collect()
}

// typing

#[test]
fn the_clock_starts_on_the_first_keystroke_not_on_creation() {
    let mut engine = engine();
    assert!(!engine.started());

    type_at(&mut engine, "t", 1_000);

    assert!(engine.started());
    assert_eq!(engine.elapsed_ms(3_000), 2_000);
}

#[test]
fn space_commits_a_word_and_moves_to_the_next() {
    let mut engine = engine();
    type_text(&mut engine, "the");
    engine.key(Key::Space, 0);

    assert_eq!(engine.index, 1);
    assert_eq!(typed(&engine), ["the"]);
    assert_eq!(engine.buf, "");
    assert_eq!(engine.current_target(), "quick");
}

#[test]
fn space_is_ignored_before_anything_has_been_typed() {
    let mut engine = engine();
    engine.key(Key::Space, 0);

    assert_eq!(engine.index, 0);
    assert!(!engine.started());
}

#[test]
fn characters_typed_past_the_end_of_a_word_are_kept_as_extras() {
    let mut engine = engine();
    type_text(&mut engine, "theee");

    assert_eq!(engine.buf, "theee");
    assert_eq!(engine.keys_correct, 3);
    assert_eq!(engine.keys_incorrect, 2);
}

#[test]
fn a_word_can_be_committed_wrong_and_left_behind() {
    let mut engine = engine();
    type_text(&mut engine, "teh");
    engine.key(Key::Space, 0);

    assert_eq!(typed(&engine), ["teh"]);
    assert_eq!(engine.index, 1);
    assert_eq!(engine.correct_spaces, 0);
    assert_eq!(engine.spaces, 1);
}

#[test]
fn accuracy_is_judged_at_the_moment_a_key_is_pressed() {
    let mut engine = engine();
    type_text(&mut engine, "th");
    engine.key(Key::Backspace, 0);
    type_text(&mut engine, "e");

    // The typo was corrected, but it still happened.
    assert_eq!(engine.buf, "te");
    assert_eq!(engine.keys_correct, 2);
    assert_eq!(engine.keys_incorrect, 1);
}

#[test]
fn a_typed_space_is_treated_as_a_commit() {
    let mut engine = engine();
    type_text(&mut engine, "the");
    engine.key(Key::Char(' '), 0);

    assert_eq!(engine.index, 1);
    assert_eq!(typed(&engine), ["the"]);
}

// backspace

#[test]
fn backspace_deletes_one_character_at_a_time() {
    let mut engine = engine();
    type_text(&mut engine, "the");
    engine.key(Key::Backspace, 0);

    assert_eq!(engine.buf, "th");
}

#[test]
fn ctrl_w_clears_the_whole_word() {
    let mut engine = engine();
    type_text(&mut engine, "the");
    engine.key(Key::BackspaceWord, 0);

    assert_eq!(engine.buf, "");
    assert_eq!(engine.index, 0);
}

#[test]
fn steps_back_into_a_previous_word_that_has_a_mistake() {
    let mut engine = engine();
    type_text(&mut engine, "teh");
    engine.key(Key::Space, 0);
    engine.key(Key::Backspace, 0);

    assert_eq!(engine.index, 0);
    assert_eq!(engine.buf, "teh");
    assert!(engine.typed().is_empty());
}

#[test]
fn refuses_to_step_back_into_a_correctly_typed_word() {
    let mut engine = engine();
    type_text(&mut engine, "the");
    engine.key(Key::Space, 0);
    engine.key(Key::Backspace, 0);

    assert_eq!(engine.index, 1);
    assert_eq!(engine.buf, "");
}

#[test]
fn free_backspace_allows_stepping_back_into_a_correct_word() {
    let mut engine = Engine::new(Mode::Time, 30, words(&["the", "quick"]), Backtrack::Free);
    type_text(&mut engine, "the");
    engine.key(Key::Space, 0);
    engine.key(Key::Backspace, 0);

    assert_eq!(engine.index, 0);
    assert_eq!(engine.buf, "the");
}

#[test]
fn backspace_does_nothing_at_the_very_start() {
    let mut engine = engine();
    engine.key(Key::Backspace, 0);

    assert_eq!(engine.index, 0);
    assert_eq!(engine.buf, "");
}

#[test]
fn stepping_back_a_whole_word_clears_the_buffer() {
    let mut engine = engine();
    type_text(&mut engine, "teh");
    engine.key(Key::Space, 0);
    engine.key(Key::BackspaceWord, 0);

    assert_eq!(engine.index, 0);
    assert_eq!(engine.buf, "");
}

// finishing

#[test]
fn word_mode_ends_when_the_last_word_is_typed_correctly_without_a_space() {
    let mut engine = engine_with(Mode::Words, 4, &["a", "b", "c", "d"]);

    for word in ["a", "b", "c"] {
        type_text(&mut engine, word);
        engine.key(Key::Space, 0);
    }
    type_text(&mut engine, "d");

    assert!(engine.finished());
    assert_eq!(typed(&engine), ["a", "b", "c", "d"]);
}

#[test]
fn word_mode_ends_on_a_space_after_the_last_word_even_when_it_is_wrong() {
    let mut engine = engine_with(Mode::Words, 1, &["alpha"]);
    type_text(&mut engine, "alpga");
    engine.key(Key::Space, 0);

    assert!(engine.finished());
}

#[test]
fn timed_mode_ends_once_the_limit_passes() {
    let mut engine = engine_with(Mode::Time, 30, &["the", "quick"]);
    type_at(&mut engine, "the", 0);

    engine.tick(29_999);
    assert!(!engine.finished());

    engine.tick(30_100);
    assert!(engine.finished());
}

#[test]
fn a_timed_test_reports_exactly_its_limit_even_if_the_tick_lands_late() {
    let mut engine = engine_with(Mode::Time, 15, &["the", "quick"]);
    type_at(&mut engine, "the", 0);
    engine.tick(15_400);

    assert_eq!(engine.elapsed_ms(20_000), 15_000);
}

#[test]
fn keystrokes_after_the_end_are_ignored() {
    let mut engine = engine_with(Mode::Time, 5, &["the", "quick"]);
    type_at(&mut engine, "the", 0);
    engine.tick(5_000);
    type_at(&mut engine, "xxxx", 5_100);

    assert_eq!(engine.buf, "the");
    assert_eq!(engine.keys_incorrect, 0);
}

#[test]
fn finishing_a_test_that_never_started_still_ends_it() {
    let mut engine = engine();
    engine.finish(1_234);

    assert!(engine.finished());
    assert_eq!(engine.elapsed_ms(9_999), 0);
}

// word supply

#[test]
fn a_timed_test_asks_for_more_words_as_it_runs_low() {
    let mut engine = engine_with(Mode::Time, 60, &["the", "quick", "brown", "fox"]);

    assert!(engine.needs_words(10));
    assert!(!engine.needs_words(3));

    engine.extend(words(&["five", "six", "seven", "eight"]));
    assert_eq!(engine.words.len(), 8);
}

#[test]
fn fixed_length_tests_never_ask_for_more() {
    assert!(!engine_with(Mode::Words, 4, &["a", "b"]).needs_words(100));
}

// samples

#[test]
fn one_sample_is_recorded_per_elapsed_second() {
    let mut engine = engine_with(Mode::Time, 60, &["the", "quick"]);
    type_at(&mut engine, "the", 0);
    engine.tick(3_200);

    let samples = engine.samples();

    assert_eq!(samples.len(), 3);
    assert_eq!(samples.iter().map(at).collect::<Vec<_>>(), [1.0, 2.0, 3.0]);
    // Three characters landed in the first second: 3/5 of a word in 1/60 min.
    assert_eq!(raw(&samples[0]), 36.0);
}

#[test]
fn errors_are_attributed_to_the_second_they_happened_in() {
    let mut engine = engine_with(Mode::Time, 60, &["the", "quick"]);
    type_at(&mut engine, "teh", 0);
    engine.tick(1_000);

    assert_eq!(engine.samples().len(), 1);
    assert_eq!(engine.samples()[0].errors, 2);
}

#[test]
fn a_long_enough_tail_is_kept_as_a_partial_sample() {
    let mut engine = engine_with(Mode::Time, 60, &["the", "quick"]);
    type_at(&mut engine, "the", 0);
    engine.tick(1_000);
    type_at(&mut engine, "qu", 1_200);
    engine.finish(1_500);

    assert_eq!(engine.samples().iter().map(at).collect::<Vec<_>>(), [1.0, 1.5]);
}

#[test]
fn a_negligible_tail_is_dropped() {
    let mut engine = engine_with(Mode::Time, 60, &["the", "quick"]);
    type_at(&mut engine, "the", 0);
    engine.tick(1_000);
    type_at(&mut engine, "q", 1_050);
    engine.finish(1_100);

    assert_eq!(engine.samples().len(), 1);
}

// Characters are counted when typed but only bucketed when the clock is
// advanced, so an unticked test puts everything in the first second.
#[test]
fn a_tail_with_no_characters_of_its_own_is_not_a_sample() {
    let mut engine = engine_with(Mode::Time, 60, &["the", "quick"]);
    type_at(&mut engine, "the", 0);
    engine.finish(1_500);

    assert_eq!(engine.samples().len(), 1);
}

// annotate

#[test]
fn annotate_labels_every_word_by_how_far_the_typist_has_got() {
    let mut engine = engine();
    type_text(&mut engine, "the");
    engine.key(Key::Space, 0);
    type_text(&mut engine, "qu");

    assert_eq!(
        engine.annotate(),
        vec![
            Word {
                index: 0,
                target: "the",
                typed: "the",
                status: Status::Done
            },
            Word {
                index: 1,
                target: "quick",
                typed: "qu",
                status: Status::Current
            },
            Word {
                index: 2,
                target: "brown",
                typed: "",
                status: Status::Pending
            },
            Word {
                index: 3,
                target: "fox",
                typed: "",
                status: Status::Pending
            },
        ]
    );
}

// per-letter tracking

#[test]
fn counts_every_letter_that_was_attempted() {
    let mut engine = engine();
    type_text(&mut engine, "the");

    assert_eq!(engine.key_attempts, tally(&[('t', 1), ('h', 1), ('e', 1)]));
    assert!(engine.key_errors.is_empty());
    assert!(engine.slips.is_empty());
}

#[test]
fn blames_the_letter_that_should_have_been_typed_not_the_one_that_was() {
    let mut engine = engine();
    type_text(&mut engine, "tje");

    assert_eq!(engine.key_attempts, tally(&[('t', 1), ('h', 1), ('e', 1)]));
    assert_eq!(engine.key_errors, tally(&[('h', 1)]));
    assert_eq!(engine.slips, slip_tally(&[(('h', 'j'), 1)]));
}

#[test]
fn tallies_repeats_of_the_same_mistake() {
    let mut engine = engine_with(Mode::Time, 30, &["the", "the"]);
    type_text(&mut engine, "tje");
    engine.key(Key::Space, 0);
    type_text(&mut engine, "tje");

    assert_eq!(engine.key_errors, tally(&[('h', 2)]));
    assert_eq!(engine.slips, slip_tally(&[(('h', 'j'), 2)]));
}

#[test]
fn characters_typed_past_the_end_of_a_word_are_blamed_on_no_letter() {
    let mut engine = engine();
    type_text(&mut engine, "theee");

    assert_eq!(engine.key_attempts, tally(&[('t', 1), ('h', 1), ('e', 1)]));
    assert!(engine.key_errors.is_empty());
    // The extras still count against accuracy, they just have no owner.
    assert_eq!(engine.keys_incorrect, 2);
}

#[test]
fn a_corrected_letter_keeps_its_mistake_on_the_record() {
    let mut engine = engine();
    type_text(&mut engine, "tj");
    engine.key(Key::Backspace, 0);
    type_text(&mut engine, "h");

    assert_eq!(engine.key_attempts, tally(&[('t', 1), ('h', 2)]));
    assert_eq!(engine.key_errors, tally(&[('h', 1)]));
}

// remaining_seconds

#[test]
fn remaining_seconds_counts_down_and_stops_at_zero() {
    let mut engine = engine_with(Mode::Time, 30, &["the", "quick"]);
    type_at(&mut engine, "t", 0);

    assert_eq!(engine.remaining_seconds(0), Some(30));
    assert_eq!(engine.remaining_seconds(500), Some(30));
    assert_eq!(engine.remaining_seconds(29_500), Some(1));
    assert_eq!(engine.remaining_seconds(30_000), Some(0));
}

#[test]
fn remaining_seconds_is_undefined_outside_timed_mode() {
    assert_eq!(
        engine_with(Mode::Words, 10, &["a"]).remaining_seconds(0),
        None
    );
}
