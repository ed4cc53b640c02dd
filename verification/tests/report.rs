use std::time::{SystemTime, UNIX_EPOCH};

use typr::datetime::{days_ago, from_days, Date};
use typr::engine::{Mode, SlipTally};
use typr::history::Record;
use typr::report::{ago, commify, display_key, pluralize, render, row, sparkline};
use typr::stats::{KeyTallies, KeyTally};
use typr::summary::{Summary, TroubleOptions};
use typr::words::Decoration;

fn today() -> Date {
    let seconds = SystemTime::now()
        .duration_since(UNIX_EPOCH)
        .unwrap()
        .as_secs() as i64;
    from_days(seconds.div_euclid(86_400))
}

fn record(wpm: i64) -> Record {
    Record {
        at: days_ago(today(), 0),
        mode: Mode::Time,
        limit: 30,
        list: "english".to_string(),
        decoration: Decoration::default(),
        config: "time-30-english".to_string(),
        wpm,
        raw: 7500,
        accuracy: 9600,
        consistency: Some(8000),
        correct: 175,
        incorrect: 5,
        extra: 0,
        missed: 0,
        duration_ms: 30_000,
        keys: KeyTallies::new(),
        slips: SlipTally::new(),
    }
}

fn summarise(history: &[Record]) -> Summary {
    Summary::build(history, TroubleOptions::default(), today())
}

fn rendered(history: &[Record]) -> String {
    render(&summarise(history), today())
}

fn keys(entries: &[(char, u32, u32)]) -> KeyTallies {
    let mut tallies = KeyTallies::new();
    for (letter, attempts, errors) in entries {
        tallies.insert(
            *letter,
            KeyTally {
                attempts: *attempts,
                errors: *errors,
            },
        );
    }
    tallies
}

fn slips(entries: &[((char, char), u32)]) -> SlipTally {
    let mut tally = SlipTally::new();
    for (pair, count) in entries {
        tally.insert(*pair, *count);
    }
    tally
}

#[test]
fn says_so_plainly_when_there_is_nothing_to_report() {
    assert!(render(&summarise(&[]), today()).contains("no results yet"));
}

#[test]
fn report_reports_the_headline_figures() {
    let history = [record(6000), record(9000), record(7200)];
    let output = rendered(&history);

    assert!(output.contains("3 tests"), "{output}");
    assert!(output.contains("best"));
    assert!(output.contains("90 wpm"));
    assert!(output.contains("average"));
    assert!(output.contains("74 wpm"));
    assert!(output.contains("accuracy"));
    assert!(output.contains("96.0%"));
    assert!(output.contains("time-30-english"));
}

#[test]
fn lists_trouble_keys_and_slips_when_there_are_any() {
    let history = [Record {
        keys: keys(&[('e', 100, 12), ('t', 100, 0)]),
        slips: slips(&[(('e', 'r'), 12)]),
        ..record(7000)
    }];

    let output = rendered(&history);

    assert!(output.contains("trouble keys"));
    assert!(output.contains("88.0%"));
    assert!(output.contains("12 missed of 100"));
    assert!(output.contains("most often typed instead"));
    assert!(output.contains("e → r"));
}

#[test]
fn leaves_out_sections_that_have_nothing_in_them() {
    let output = rendered(&[record(7000)]);

    assert!(!output.contains("trouble keys"));
    assert!(!output.contains("most often typed instead"));
}

#[test]
fn names_the_space_bar_rather_than_printing_a_blank() {
    let history = [Record {
        keys: keys(&[(' ', 200, 20)]),
        slips: slips(&[((' ', 'n'), 20)]),
        ..record(7000)
    }];

    let output = rendered(&history);

    assert!(output.contains("space"));
    assert!(output.contains("space → n"));
}

#[test]
fn groups_long_numbers_so_they_can_be_read_at_a_glance() {
    let history: Vec<Record> = (0..40)
        .map(|_| Record {
            correct: 5_000,
            ..record(7000)
        })
        .collect();

    assert!(rendered(&history).contains("40,000 words"));
}

#[test]
fn a_note_keeps_its_column_when_the_value_is_short() {
    assert_eq!(
        row("average", "72 wpm", Some("note")),
        "  average         72 wpm    note"
    );
}

#[test]
fn a_value_wider_than_its_column_does_not_run_into_the_note() {
    // A full 20-test sparkline is twice the width of the value column.
    let line = row("recent", &"▃".repeat(20), Some("62–87 wpm"));

    assert!(line.ends_with("▃  62–87 wpm"), "{line}");
}

#[test]
fn commify_groups_thousands() {
    assert_eq!(commify(0), "0");
    assert_eq!(commify(999), "999");
    assert_eq!(commify(1_000), "1,000");
    assert_eq!(commify(1_234_567), "1,234,567");
}

#[test]
fn sparkline_is_empty_for_no_values() {
    assert_eq!(sparkline(&[]), "");
}

#[test]
fn sparkline_draws_one_mark_per_value_lowest_to_highest() {
    let line = sparkline(&[1000, 2000, 3000, 4000]);
    let marks: Vec<char> = line.chars().collect();

    assert_eq!(marks.len(), 4);
    assert_eq!(marks[0], '▁');
    assert_eq!(marks[3], '█');
}

#[test]
fn a_flat_run_sits_in_the_middle_rather_than_dividing_by_zero() {
    assert_eq!(sparkline(&[5000, 5000, 5000]), "▅▅▅");
}

#[test]
fn counts_and_nouns_agree() {
    assert_eq!(pluralize(1, "test"), "1 test");
    assert_eq!(pluralize(0, "day"), "0 days");
    assert_eq!(pluralize(1234, "test"), "1,234 tests");
}

#[test]
fn dates_read_as_how_long_ago_they_were() {
    let today = today();

    assert_eq!(ago(&days_ago(today, 0), today), "today");
    assert_eq!(ago(&days_ago(today, 1), today), "yesterday");
    assert_eq!(ago(&days_ago(today, 12), today), "12 days ago");
    assert_eq!(ago(&days_ago(today, 65), today), "2 months ago");
    assert_eq!(ago("whenever", today), "whenever");
    assert_eq!(display_key(' '), "space");
    assert_eq!(display_key('q'), "q");
}

#[test]
fn the_stats_show_the_streak_and_the_by_test_table() {
    let history = [
        Record {
            at: days_ago(today(), 1),
            ..record(6049)
        },
        record(7050),
    ];
    let output = rendered(&history);

    assert!(output.contains("2 days"), "{output}");
    assert!(output.contains("2 day streak"), "{output}");
    assert!(output.contains("  time-30-english     2 tests   best  71   avg  65"), "{output}");
    assert!(output.ends_with('\n'));
}
