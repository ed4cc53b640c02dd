use typr::datetime::{days_ago, from_days, Date};
use typr::engine::{Mode, SlipTally};
use typr::history::{decode, Record};
use typr::stats::{KeyTallies, KeyTally};
use typr::summary::{
    best_for, count_for, humanize_ms, keys_consistent, merge_keys, merge_slips, summable_check,
    top_slips, total_for, trouble_keys, Slip, Summary, TroubleOptions,
};
use typr::words::Decoration;
use std::time::{SystemTime, UNIX_EPOCH};

fn today() -> Date {
    let seconds = SystemTime::now()
        .duration_since(UNIX_EPOCH)
        .unwrap()
        .as_secs() as i64;
    from_days(seconds.div_euclid(86_400))
}

/// A record as the history would read it back; speeds in hundredths.
fn record(wpm: i64) -> Record {
    Record {
        at: days_ago(today(), 0),
        mode: Mode::Time,
        limit: 30,
        list: "english".to_string(),
        decoration: Decoration::default(),
        config: "time-30-english".to_string(),
        wpm,
        raw: 7500,
        accuracy: 9600,
        consistency: Some(8000),
        correct: 175,
        incorrect: 5,
        extra: 0,
        missed: 0,
        duration_ms: 30_000,
        keys: KeyTallies::new(),
        slips: SlipTally::new(),
    }
}

fn records(speeds: &[i64]) -> Vec<Record> {
    speeds.iter().map(|wpm| record(*wpm)).collect()
}

fn on(day: i64) -> Record {
    Record {
        at: days_ago(today(), day),
        ..record(7000)
    }
}

fn keys(entries: &[(char, u32, u32)]) -> KeyTallies {
    let mut tallies = KeyTallies::new();
    for (letter, attempts, errors) in entries {
        tallies.insert(
            *letter,
            KeyTally {
                attempts: *attempts,
                errors: *errors,
            },
        );
    }
    tallies
}

fn slips(entries: &[((char, char), u32)]) -> SlipTally {
    let mut tally = SlipTally::new();
    for (pair, count) in entries {
        tally.insert(*pair, *count);
    }
    tally
}

fn options() -> TroubleOptions {
    TroubleOptions::default()
}

fn build(history: &[Record]) -> Summary {
    Summary::build(history, options(), today())
}

fn average(total: i128, count: usize) -> Option<f64> {
    (count > 0).then(|| total as f64 / count as f64 / 100.0)
}

#[test]
fn durations_read_the_way_a_person_would_say_them() {
    assert_eq!(humanize_ms(45_000), "45s");
    assert_eq!(humanize_ms(600_000), "10m");
    assert_eq!(humanize_ms(4_320_000), "1h 12m");
}

#[test]
fn an_empty_history_summarises_to_nothing_rather_than_crashing() {
    let summary = build(&[]);

    assert_eq!(summary.tests, 0);
    assert!(summary.best.is_none());
    assert!(average(summary.wpm_total, summary.tests).is_none());
    assert!(summary.trouble_keys.is_empty());
}

#[test]
fn counts_tests_time_and_words() {
    let summary = build(&records(&[6000, 7000, 8000]));

    assert_eq!(summary.tests, 3);
    assert_eq!(summary.typing_ms, 90_000);
    // 175 correct characters per test, five characters to a word.
    assert_eq!(summary.words_typed, 105);
}

#[test]
fn finds_the_best_result_and_the_averages() {
    let summary = build(&records(&[6000, 9000, 7500]));

    assert_eq!(summary.best.unwrap().wpm, 9000);
    assert_eq!(average(summary.wpm_total, summary.tests), Some(75.0));
    assert_eq!(average(summary.accuracy_total, summary.tests), Some(96.0));
    assert_eq!(
        average(summary.consistency_total, summary.consistency_count),
        Some(80.0)
    );
}

#[test]
fn averages_the_last_ten_tests_separately_from_all_time() {
    let mut speeds = vec![4000; 10];
    speeds.extend(vec![8000; 10]);

    let summary = build(&records(&speeds));

    assert_eq!(average(summary.wpm_total, summary.tests), Some(60.0));
    assert_eq!(average(summary.recent_total, summary.recent_count), Some(80.0));
}

#[test]
fn improvement_compares_the_last_ten_against_the_ten_before() {
    let mut speeds = vec![5000; 10];
    speeds.extend(vec![6500; 10]);

    // The difference of the two ten-test totals, so a tenth of it per test.
    assert_eq!(build(&records(&speeds)).improvement, Some(15_000));
}

#[test]
fn improvement_is_withheld_until_there_is_enough_history_to_mean_anything() {
    let speeds = vec![5000; 19];

    assert_eq!(build(&records(&speeds)).improvement, None);
}

#[test]
fn the_trend_keeps_the_most_recent_tests_in_order() {
    let speeds: Vec<i64> = (1..=30).map(|wpm| wpm * 100).collect();
    let summary = build(&records(&speeds));

    assert_eq!(summary.trend.len(), 20);
    assert_eq!(summary.trend.first(), Some(&1100));
    assert_eq!(summary.trend.last(), Some(&3000));
}

#[test]
fn groups_results_by_configuration_busiest_first() {
    let mut history = records(&[6000, 8000]);

    for wpm in [5000, 9000, 7000] {
        history.push(Record {
            config: "words-25-english".to_string(),
            ..record(wpm)
        });
    }

    let by_config = build(&history).by_config;

    assert_eq!(by_config[0].config, "words-25-english");
    assert_eq!(by_config[0].tests, 3);
    assert_eq!(by_config[0].best, 9000);
    assert_eq!(by_config[0].total / by_config[0].tests as i128, 7000);
    assert_eq!(by_config[1].tests, 2);
}

#[test]
fn consistency_is_averaged_only_over_the_tests_that_measured_it() {
    let history = vec![
        Record {
            consistency: None,
            ..record(7000)
        },
        Record {
            consistency: Some(6000),
            ..record(7000)
        },
        Record {
            consistency: Some(8000),
            ..record(7000)
        },
    ];

    let summary = build(&history);
    assert_eq!(
        average(summary.consistency_total, summary.consistency_count),
        Some(70.0)
    );
}

#[test]
fn counts_consecutive_days_up_to_today() {
    let summary = build(&[on(2), on(1), on(0)]);

    assert_eq!(summary.days_practiced, 3);
    assert_eq!(summary.streak, 3);
}

#[test]
fn several_tests_in_one_day_count_as_one_day() {
    let summary = build(&[on(0), on(0), on(1)]);

    assert_eq!(summary.days_practiced, 2);
    assert_eq!(summary.streak, 2);
}

#[test]
fn a_streak_still_counts_if_todays_session_has_not_happened_yet() {
    assert_eq!(build(&[on(2), on(1)]).streak, 2);
}

#[test]
fn a_gap_of_more_than_a_day_breaks_the_streak() {
    assert_eq!(build(&[on(9), on(8)]).streak, 0);
}

#[test]
fn only_the_run_up_to_now_counts_not_the_longest_run_ever() {
    let history = [on(20), on(19), on(18), on(1), on(0)];

    assert_eq!(build(&history).streak, 2);
}

#[test]
fn best_average_and_count_are_scoped_to_one_configuration() {
    let mut history = records(&[6000, 8000]);
    history.push(Record {
        config: "words-25-english".to_string(),
        ..record(10_000)
    });

    assert_eq!(best_for(&history, "time-30-english").unwrap().wpm, 8000);
    assert_eq!(
        total_for(&history, "time-30-english") / count_for(&history, "time-30-english") as i128,
        7000
    );
    assert_eq!(count_for(&history, "time-30-english"), 2);
    assert_eq!(best_for(&history, "words-25-english").unwrap().wpm, 10_000);
}

#[test]
fn a_configuration_never_run_has_no_best() {
    let history = records(&[6000]);

    assert!(best_for(&history, "quote-0").is_none());
    assert_eq!(total_for(&history, "quote-0"), 0);
    assert_eq!(count_for(&history, "quote-0"), 0);
}

#[test]
fn adds_up_letter_tallies_across_tests() {
    let history = vec![
        Record {
            keys: keys(&[('e', 100, 5)]),
            ..record(7000)
        },
        Record {
            keys: keys(&[('e', 100, 15), ('t', 50, 0)]),
            ..record(7000)
        },
    ];

    assert_eq!(merge_keys(&history), keys(&[('e', 200, 20), ('t', 50, 0)]));
}

#[test]
fn ranks_the_least_accurate_letter_first() {
    let tallies = keys(&[('e', 100, 20), ('t', 100, 5), ('a', 100, 40)]);
    let trouble = trouble_keys(&tallies, options());

    assert_eq!(trouble[0].key, 'a');
    assert_eq!(
        f64::from(trouble[0].attempts - trouble[0].errors) / f64::from(trouble[0].attempts) * 100.0,
        60.0
    );
    assert_eq!(trouble[0].errors, 40);
    assert_eq!(trouble[1].key, 'e');
    assert_eq!(trouble[2].key, 't');
}

#[test]
fn ignores_letters_that_have_barely_been_typed() {
    let tallies = keys(&[('z', 2, 2), ('e', 100, 10)]);
    let trouble = trouble_keys(&tallies, options());

    assert_eq!(trouble.len(), 1);
    assert_eq!(trouble[0].key, 'e');
}

#[test]
fn the_threshold_can_be_lowered_for_a_single_test() {
    let tallies = keys(&[('z', 4, 2)]);
    let trouble = trouble_keys(
        &tallies,
        TroubleOptions {
            min_attempts: 3,
            ..options()
        },
    );

    assert_eq!(trouble[0].key, 'z');
}

#[test]
fn letters_typed_perfectly_are_not_trouble() {
    assert!(trouble_keys(&keys(&[('e', 100, 0)]), options()).is_empty());
}

#[test]
fn the_trouble_list_is_capped() {
    let entries: Vec<(char, u32, u32)> = ('a'..='z').map(|letter| (letter, 100, 10)).collect();
    let tallies = keys(&entries);

    assert_eq!(trouble_keys(&tallies, options()).len(), 8);
    assert_eq!(
        trouble_keys(
            &tallies,
            TroubleOptions {
                keys: 3,
                ..options()
            }
        )
        .len(),
        3
    );
}

#[test]
fn equally_bad_letters_put_the_one_missed_more_often_first() {
    let tallies = keys(&[('a', 50, 5), ('b', 100, 10), ('c', 100, 10)]);
    let trouble = trouble_keys(&tallies, options());

    assert_eq!(
        trouble.iter().map(|key| key.key).collect::<Vec<_>>(),
        ['b', 'c', 'a']
    );
}

#[test]
fn adds_up_confusions_across_tests_and_ranks_them() {
    let history = vec![
        Record {
            slips: slips(&[(('e', 'r'), 10), (('n', 'm'), 2)]),
            ..record(7000)
        },
        Record {
            slips: slips(&[(('e', 'r'), 5), (('a', 's'), 20)]),
            ..record(7000)
        },
    ];

    let ranked = top_slips(&merge_slips(&history), 5);

    assert_eq!(
        ranked[0],
        Slip {
            expected: 'a',
            actual: 's',
            count: 20
        }
    );
    assert_eq!(
        ranked[1],
        Slip {
            expected: 'e',
            actual: 'r',
            count: 15
        }
    );
    assert_eq!(
        ranked[2],
        Slip {
            expected: 'n',
            actual: 'm',
            count: 2
        }
    );
}

#[test]
fn the_slip_list_is_capped_and_ties_go_by_letter() {
    let tally = slips(&[(('b', 'x'), 3), (('a', 'x'), 3), (('c', 'x'), 9)]);
    let ranked = top_slips(&tally, 2);

    assert_eq!(ranked.len(), 2);
    assert_eq!((ranked[0].expected, ranked[1].expected), ('c', 'a'));
}

#[test]
fn a_decoded_row_summarises_like_any_other() {
    let line = "2026-08-31T09:15:00\ttime\t30\tenglish\t-\t72.5\t78.1\t96.4\t-\t210\t6\t1\t2\t30000\t-\t-";
    let summary = build(&[decode(line).unwrap()]);

    assert_eq!(summary.best.unwrap().wpm, 7250);
    assert_eq!(summary.consistency_count, 0);
    assert_eq!(summary.last_at.as_deref(), Some("2026-08-31T09:15:00"));
}

#[test]
fn an_ordinary_history_can_be_summed() {
    let mut history = records(&[6000, 7000, 6500]);
    history[0].keys = keys(&[('e', 40, 3), ('t', 30, 0)]);
    history[1].slips = slips(&[(('e', 'r'), 3)]);
    assert!(summable_check(&history, options()));
    assert!(summable_check(&[], options()));
}

#[test]
fn a_history_whose_totals_overflow_cannot_be_summed() {
    let mut history = records(&[6000, 7000]);
    history[0].keys = keys(&[('e', u32::MAX, 0)]);
    history[1].keys = keys(&[('e', 1, 0)]);
    assert!(!summable_check(&history, options()));

    let mut long = records(&[6000, 7000]);
    long[0].duration_ms = i64::MAX;
    long[1].duration_ms = 1;
    assert!(!summable_check(&long, options()));
}

#[test]
fn a_letter_with_more_errors_than_attempts_is_refused() {
    let mut history = records(&[6000]);
    history[0].keys = keys(&[('e', 30, 35)]);
    assert!(!summable_check(&history, options()));
    // Too few attempts to ever count as trouble: nothing to rank, so it sums.
    history[0].keys = keys(&[('e', 3, 5)]);
    assert!(summable_check(&history, options()));
    assert!(!keys_consistent(&keys(&[('e', 3, 5)])));
    assert!(keys_consistent(&keys(&[('e', 5, 3), ('t', 2, 2)])));
}
