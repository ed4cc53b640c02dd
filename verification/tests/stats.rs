use typr::engine::{Backtrack, Engine, Key, Mode};
use typr::stats::{compare, counts_fit_check, live_wpm, Counts, KeyTally, Stats};

fn words(list: &[&str]) -> Vec<String> {
    list.iter().map(|word| word.to_string()).collect()
}

/// Spreads the keystrokes evenly across `duration`, first key at zero and
/// last key on the buzzer, so the elapsed time is exactly the duration
/// asked for.
fn type_over(engine: &mut Engine, text: &str, duration: i64) {
    let characters: Vec<char> = text.chars().collect();
    let last = (characters.len() as i64 - 1).max(1);

    for (index, character) in characters.into_iter().enumerate() {
        let now = (duration as f64 * index as f64 / last as f64).round() as i64;

        match character {
            ' ' => engine.key(Key::Space, now),
            character => engine.key(Key::Char(character), now),
        }
    }
}

#[test]
fn compare_counts_a_perfect_word() {
    assert_eq!(
        compare("brown", "brown"),
        Counts {
            correct: 5,
            incorrect: 0,
            extra: 0,
            missed: 0
        }
    );
}

#[test]
fn compare_counts_a_transposition_as_two_wrong_characters() {
    assert_eq!(
        compare("the", "teh"),
        Counts {
            correct: 1,
            incorrect: 2,
            extra: 0,
            missed: 0
        }
    );
}

#[test]
fn compare_counts_characters_typed_past_the_end_of_the_word() {
    assert_eq!(
        compare("the", "thee"),
        Counts {
            correct: 3,
            incorrect: 0,
            extra: 1,
            missed: 0
        }
    );
}

#[test]
fn compare_counts_characters_the_typist_never_got_to() {
    assert_eq!(
        compare("brown", "br"),
        Counts {
            correct: 2,
            incorrect: 0,
            extra: 0,
            missed: 3
        }
    );
}

#[test]
fn compare_counts_characters_not_bytes() {
    assert_eq!(
        compare("café", "cafe"),
        Counts {
            correct: 3,
            incorrect: 1,
            extra: 0,
            missed: 0
        }
    );
}

#[test]
fn counts_add_field_by_field() {
    let mut total = Counts {
        correct: 1,
        incorrect: 2,
        extra: 3,
        missed: 4,
    };
    total.add(Counts {
        correct: 10,
        incorrect: 20,
        extra: 30,
        missed: 40,
    });

    assert_eq!(
        total,
        Counts {
            correct: 11,
            incorrect: 22,
            extra: 33,
            missed: 44
        }
    );
}

#[test]
fn a_perfect_minute_of_five_character_words_scores_its_word_count() {
    let list = vec!["acorn"; 20];
    let mut engine = Engine::new(Mode::Words, 20, words(&list), Backtrack::Strict);
    type_over(&mut engine, &list.join(" "), 60_000);

    let stats = Stats::compute(&engine, 60_000);

    // 20 words of five characters, plus the 19 spaces between them.
    assert_eq!(stats.correct, 100);
    assert!((stats.wpm() - 2380).abs() < 10, "wpm was {}", stats.wpm());
    assert_eq!(stats.accuracy(), 10_000);
}

#[test]
fn a_mistyped_word_earns_nothing_for_its_wrong_characters_but_raw_counts_them() {
    let mut engine = Engine::new(
        Mode::Words,
        2,
        words(&["acorn", "acorn"]),
        Backtrack::Strict,
    );
    type_over(&mut engine, "acorn acxrn", 60_000);
    engine.finish(60_000);

    let stats = Stats::compute(&engine, 60_000);

    assert_eq!(stats.correct, 9);
    assert_eq!(stats.incorrect, 1);
    assert!(stats.wpm() < stats.raw());
    assert!(
        (stats.accuracy() - 9090).abs() < 10,
        "accuracy was {}",
        stats.accuracy()
    );
}

#[test]
fn an_unfinished_word_still_contributes_the_characters_that_were_typed() {
    let mut engine = Engine::new(
        Mode::Time,
        60,
        words(&["acorn", "acorn"]),
        Backtrack::Strict,
    );
    type_over(&mut engine, "acorn ac", 60_000);
    engine.finish(60_000);

    let stats = Stats::compute(&engine, 60_000);

    assert_eq!(stats.correct, 7);
    // The word in progress has not been abandoned, so nothing is "missed".
    assert_eq!(stats.missed, 0);
}

#[test]
fn skipping_a_word_early_counts_the_rest_of_it_as_missed() {
    let mut engine = Engine::new(
        Mode::Words,
        2,
        words(&["acorn", "acorn"]),
        Backtrack::Strict,
    );
    type_over(&mut engine, "ac acorn", 60_000);

    assert_eq!(Stats::compute(&engine, 60_000).missed, 3);
}

#[test]
fn speed_scales_with_the_clock() {
    let list = vec!["acorn"; 10];
    let typing = list.join(" ");

    let mut minute = Engine::new(Mode::Words, 10, words(&list), Backtrack::Strict);
    type_over(&mut minute, &typing, 60_000);

    let mut half_minute = Engine::new(Mode::Words, 10, words(&list), Backtrack::Strict);
    type_over(&mut half_minute, &typing, 30_000);

    let slow = Stats::compute(&minute, 60_000).wpm();
    let fast = Stats::compute(&half_minute, 30_000).wpm();

    assert_eq!(fast, slow * 2, "{fast} vs {slow}");
}

#[test]
fn live_wpm_stays_at_zero_for_the_first_second_so_it_does_not_spike() {
    let mut engine = Engine::new(Mode::Time, 60, words(&["acorn"]), Backtrack::Strict);
    type_over(&mut engine, "ac", 0);

    assert_eq!(live_wpm(&engine, 200), 0);
    assert!(live_wpm(&engine, 2_000) > 0);
}

#[test]
fn key_tallies_pair_attempts_with_errors() {
    let mut engine = Engine::new(Mode::Time, 60, words(&["the"]), Backtrack::Strict);
    type_over(&mut engine, "tje", 1_000);

    let keys = Stats::compute(&engine, 1_000).keys;

    assert_eq!(
        keys.get(&'t'),
        Some(KeyTally {
            attempts: 1,
            errors: 0
        })
    );
    assert_eq!(
        keys.get(&'h'),
        Some(KeyTally {
            attempts: 1,
            errors: 1
        })
    );
}

#[test]
fn figures_are_exact_hundredths() {
    let stats = Stats {
        correct: 119,
        correct_spaces: 0,
        incorrect: 1,
        spaces: 0,
        keys_correct: 2,
        keys_incorrect: 1,
        elapsed_ms: 60_000,
        ..Stats::default()
    };
    // 119 characters in a minute is 23.8 words a minute; 2 of 3 is 66.67%.
    assert_eq!(stats.wpm(), 2380);
    assert_eq!(stats.raw(), 2400);
    assert_eq!(stats.accuracy(), 6667);
    let figures = stats.figures(Some(8120));
    assert_eq!((figures.wpm, figures.raw, figures.accuracy), (2380, 2400, 6667));
    assert_eq!(figures.consistency, Some(8120));
}

#[test]
fn nothing_is_a_speed_before_the_clock_moves() {
    let stats = Stats {
        correct: 50,
        elapsed_ms: 0,
        ..Stats::default()
    };
    assert_eq!(stats.wpm(), 0);
    assert_eq!(stats.raw(), 0);
    assert_eq!(stats.accuracy(), 0);
}

#[test]
fn an_ordinary_test_can_be_scored() {
    let mut engine = Engine::new(Mode::Time, 60, words(&["acorn", "acorn"]), Backtrack::Strict);
    type_over(&mut engine, "acorn ac", 1_000);
    assert!(counts_fit_check(&engine));
}

#[test]
fn a_recorded_figure_rounds_a_tie_to_the_even_hundredth() {
    // 2885 characters in eight minutes: exactly 72.125 wpm.
    let stats = Stats {
        correct: 2885,
        keys_correct: 1,
        keys_incorrect: 7,
        elapsed_ms: 480_000,
        ..Stats::default()
    };
    let figures = stats.figures(None);
    assert_eq!(figures.wpm, 7212);
    assert_eq!(figures.raw, 7212);
    // One in eight is 12.5%: no tie at two decimals of a percent.
    assert_eq!(figures.accuracy, 1250);
    // 72.135 wpm rounds up to the even hundredth.
    let up = Stats {
        correct: 14_427,
        elapsed_ms: 2_400_000,
        ..Stats::default()
    };
    assert_eq!(up.figures(None).wpm, 7214);
}
