use typr::engine::{Mode, SlipTally};
use typr::history::{
    decode, decode_flags, decode_keys, decode_mode, decode_slips, default_path, encode,
    encode_flags, encode_keys, encode_slips, grapheme, load_from, parse_hundredths, to_integer,
    write_figure, Config, Figures, History, COLUMNS, HEADER,
};
use typr::stats::{KeyTallies, KeyTally, Stats};
use typr::words::Decoration;

fn config() -> Config {
    Config {
        mode: Mode::Time,
        limit: 30,
        list: "english".to_string(),
        decoration: Decoration::default(),
    }
}

fn tally(entries: &[(char, u32, u32)]) -> KeyTallies {
    let mut keys = KeyTallies::new();
    for (letter, attempts, errors) in entries {
        keys.insert(
            *letter,
            KeyTally {
                attempts: *attempts,
                errors: *errors,
            },
        );
    }
    keys
}

fn slips(entries: &[((char, char), u32)]) -> SlipTally {
    let mut slips = SlipTally::new();
    for (pair, count) in entries {
        slips.insert(*pair, *count);
    }
    slips
}

fn stats() -> Stats {
    Stats {
        correct: 210,
        incorrect: 6,
        extra: 1,
        missed: 2,
        elapsed_ms: 30_000,
        keys: tally(&[('e', 40, 3), ('t', 30, 0)]),
        slips: slips(&[(('e', 'r'), 3)]),
        ..Stats::default()
    }
}

fn figures(wpm: i64) -> Figures {
    Figures {
        wpm,
        raw: 7810,
        accuracy: 9640,
        consistency: Some(8120),
    }
}

fn row(config: &Config, stats: &Stats, figures: &Figures) -> String {
    encode("2026-08-31T09:15:00", config, figures, stats)
}

#[test]
fn config_keys_name_each_combination_distinctly() {
    assert_eq!(config().key(), "time-30-english");

    assert_eq!(
        Config {
            mode: Mode::Words,
            limit: 25,
            ..config()
        }
        .key(),
        "words-25-english"
    );

    assert_eq!(
        Config {
            decoration: Decoration {
                punctuation: true,
                numbers: false
            },
            ..config()
        }
        .key(),
        "time-30-english-punctuation"
    );

    assert_eq!(
        Config {
            list: "english_extended".to_string(),
            ..config()
        }
        .key(),
        "time-30-english_extended"
    );
}

#[test]
fn quote_mode_has_no_word_list_to_name() {
    assert_eq!(
        Config {
            mode: Mode::Quote,
            limit: 0,
            ..config()
        }
        .key(),
        "quote-0"
    );
}

#[test]
fn a_result_survives_the_round_trip() {
    let record = decode(&row(&config(), &stats(), &figures(7250))).unwrap();

    assert_eq!(record.wpm, 7250);
    assert_eq!(record.accuracy, 9640);
    assert_eq!(record.consistency, Some(8120));
    assert_eq!(record.correct, 210);
    assert_eq!(record.duration_ms, 30_000);
    assert_eq!(record.mode, Mode::Time);
    assert_eq!(record.limit, 30);
    assert_eq!(record.list, "english");
    assert_eq!(record.config, "time-30-english");
    assert_eq!(record.keys, stats().keys);
    assert_eq!(record.slips, stats().slips);
}

#[test]
fn results_accumulate_in_the_order_they_were_run() {
    let mut contents = format!("{HEADER}\n");
    for wpm in [6000, 7000, 6500] {
        contents.push_str(&row(&config(), &stats(), &figures(wpm)));
        contents.push('\n');
    }

    let speeds: Vec<i64> = load_from(&contents).iter().map(|record| record.wpm).collect();
    assert_eq!(speeds, [6000, 7000, 6500]);
}

#[test]
fn load_is_empty_when_nothing_has_been_recorded() {
    assert!(load_from("").is_empty());
    assert!(load_from(&format!("{HEADER}\n")).is_empty());
}

#[test]
fn flags_become_part_of_the_configuration_key() {
    let config = Config {
        decoration: Decoration {
            punctuation: true,
            numbers: true,
        },
        ..config()
    };

    let record = decode(&row(&config, &stats(), &figures(7250))).unwrap();
    assert!(record.decoration.punctuation);
    assert!(record.decoration.numbers);
    assert_eq!(record.config, "time-30-english-punctuation-numbers");
}

#[test]
fn a_missing_consistency_stays_missing_rather_than_becoming_zero() {
    let figures = Figures {
        consistency: None,
        ..figures(7250)
    };

    assert_eq!(decode(&row(&config(), &stats(), &figures)).unwrap().consistency, None);
}

#[test]
fn punctuation_characters_in_key_tallies_do_not_corrupt_the_row() {
    // Semicolons and commas are the separators used inside the keys column,
    // so they are exactly the characters that could break the encoding.
    let keys = tally(&[(';', 12, 4), (',', 9, 1)]);
    let confusions = slips(&[((';', ','), 4), ((' ', 'n'), 2)]);
    let stats = Stats {
        keys: keys.clone(),
        slips: confusions.clone(),
        ..stats()
    };

    let record = decode(&row(&config(), &stats, &figures(7250))).unwrap();
    assert_eq!(record.keys, keys);
    assert_eq!(record.slips, confusions);
}

#[test]
fn a_tab_in_the_word_list_name_cannot_forge_a_column() {
    // Not reachable through the CLI, but the encoder should not be the
    // reason a hostile value becomes a parsing problem.
    let config = Config {
        list: "eng\tlish".to_string(),
        ..config()
    };

    // The row now has too many columns and is skipped rather than
    // silently loading as some other test's result.
    let line = row(&config, &stats(), &figures(7250));
    assert!(decode(&line).is_none());
    assert!(load_from(&format!("{HEADER}\n{line}\n")).is_empty());
}

#[test]
fn the_file_is_human_readable_with_a_header_and_one_row_per_test() {
    let line = row(&config(), &stats(), &figures(7250));

    assert!(HEADER.starts_with("# typr history v1"));
    assert_eq!(HEADER.split('\t').count(), COLUMNS + 1);
    assert_eq!(line.split('\t').count(), COLUMNS);
}

#[test]
fn corrupt_lines_are_skipped_instead_of_taking_the_file_down_with_them() {
    let contents = format!(
        "{HEADER}\n{}\nthis is not a result\n{}\n",
        row(&config(), &stats(), &figures(6000)),
        row(&config(), &stats(), &figures(7000)),
    );

    let speeds: Vec<i64> = load_from(&contents).iter().map(|record| record.wpm).collect();
    assert_eq!(speeds, [6000, 7000]);
}

#[test]
fn carriage_returns_and_a_missing_final_newline_are_tolerated() {
    let contents = format!(
        "{HEADER}\r\n{}\r\n{}",
        row(&config(), &stats(), &figures(6000)),
        row(&config(), &stats(), &figures(7050)),
    );

    let speeds: Vec<i64> = load_from(&contents).iter().map(|record| record.wpm).collect();
    assert_eq!(speeds, [6000, 7050]);
}

#[test]
fn the_row_lists_every_column_in_order() {
    let line = row(&config(), &stats(), &figures(7250));

    assert_eq!(
        line,
        "2026-08-31T09:15:00\ttime\t30\tenglish\t-\t72.5\t78.1\t96.4\t81.2\t210\t6\t1\t2\t30000\t101,40,3;116,30,0\t101,114,3"
    );
}

#[test]
fn figures_are_read_in_hundredths() {
    assert_eq!(parse_hundredths("72.5"), Some(7250));
    assert_eq!(parse_hundredths("30.0"), Some(3000));
    assert_eq!(parse_hundredths("96.44"), Some(9644));
    assert_eq!(parse_hundredths("7"), Some(700));
    assert_eq!(parse_hundredths("-0.5"), Some(-50));
    assert_eq!(parse_hundredths("1.234"), Some(123));
    assert_eq!(parse_hundredths("fast"), None);
    assert_eq!(parse_hundredths(""), None);
}

#[test]
fn flags_modes_and_counts_read_back() {
    assert_eq!(encode_flags(Decoration::default()), "-");
    assert_eq!(
        encode_flags(Decoration {
            punctuation: true,
            numbers: true
        }),
        "punctuation,numbers"
    );
    assert_eq!(
        decode_flags("numbers"),
        Decoration {
            punctuation: false,
            numbers: true
        }
    );
    assert_eq!(decode_mode("words"), Mode::Words);
    assert_eq!(decode_mode("quote"), Mode::Quote);
    assert_eq!(decode_mode("anything"), Mode::Time);
    assert_eq!(to_integer("42"), 42);
    assert_eq!(to_integer("-1"), 0);
    assert_eq!(grapheme("233"), Some('é'));
    assert_eq!(grapheme("55296"), None);
}

#[test]
fn tallies_round_trip_and_bad_entries_are_skipped() {
    let keys = tally(&[('a', 5, 1), ('é', 7, 0)]);
    assert_eq!(encode_keys(&keys), "97,5,1;233,7,0");
    assert_eq!(decode_keys(&encode_keys(&keys)), keys);
    assert_eq!(decode_keys("-"), KeyTallies::new());
    assert_eq!(decode_keys("97,5,1,9;98,1,1;x,2,2"), tally(&[('b', 1, 1)]));

    let confusions = slips(&[(('a', 'b'), 2)]);
    assert_eq!(encode_slips(&confusions), "97,98,2");
    assert_eq!(decode_slips("97,98,2;;"), confusions);
    assert_eq!(encode_slips(&SlipTally::new()), "-");
}

#[test]
fn the_history_lives_under_the_config_directory() {
    assert_eq!(
        default_path(Some("/x/conf"), Some("/home/me")),
        "/x/conf/typr/history.tsv"
    );
    assert_eq!(
        default_path(None, Some("/home/me/")),
        "/home/me/.config/typr/history.tsv"
    );
    assert_eq!(default_path(None, None), "./.config/typr/history.tsv");
    assert_eq!(
        History::open(None, Some("/h")).path(),
        "/h/.config/typr/history.tsv"
    );
    assert_eq!(History::new("a/b.tsv".to_string()).path(), "a/b.tsv");
}

#[test]
fn numbers_keep_a_decimal_point_but_lose_trailing_zeros() {
    assert_eq!(write_figure(7250), "72.5");
    assert_eq!(write_figure(3000), "30.0");
    assert_eq!(write_figure(9644), "96.44");
    assert_eq!(write_figure(parse_hundredths("96.437").unwrap()), "96.44");
    assert_eq!(write_figure(0), "0.0");
}

#[test]
fn figures_read_as_the_nearest_hundredth() {
    assert_eq!(parse_hundredths("72.456"), Some(7246));
    assert_eq!(parse_hundredths("72.454"), Some(7245));
    assert_eq!(parse_hundredths("-72.456"), Some(-7246));
    assert_eq!(parse_hundredths("0.995"), Some(100));
    assert_eq!(parse_hundredths(".5"), Some(50));
    assert_eq!(parse_hundredths("-.5"), Some(-50));
    assert_eq!(parse_hundredths("+3."), Some(300));
    assert_eq!(parse_hundredths("."), None);
    assert_eq!(parse_hundredths("-"), None);
    assert_eq!(parse_hundredths("1.2.3"), None);
}

#[test]
fn figures_may_carry_an_exponent() {
    assert_eq!(parse_hundredths("1e2"), Some(10000));
    assert_eq!(parse_hundredths("7.25e1"), Some(7250));
    assert_eq!(parse_hundredths("7.25E+1"), Some(7250));
    assert_eq!(parse_hundredths("1E-2"), Some(1));
    assert_eq!(parse_hundredths("5e-3"), Some(1));
    assert_eq!(parse_hundredths("4e-3"), Some(0));
    assert_eq!(parse_hundredths("-2.5e-1"), Some(-25));
    assert_eq!(parse_hundredths("1e400"), None);
    assert_eq!(parse_hundredths("0e99999999999999999999999"), Some(0));
    assert_eq!(parse_hundredths("3e-99999999999999999999999"), Some(0));
    assert_eq!(parse_hundredths("1e"), None);
    assert_eq!(parse_hundredths("e5"), None);
    assert_eq!(parse_hundredths("1e2e3"), None);
    assert_eq!(parse_hundredths("1e2.5"), None);
}

#[test]
fn negative_and_small_figures_keep_their_sign_and_digits() {
    assert_eq!(write_figure(-50), "-0.5");
    assert_eq!(write_figure(7), "0.07");
    assert_eq!(write_figure(123405), "1234.05");
    for h in [-12345, -50, 0, 7, 70, 7250, 123405] {
        assert_eq!(parse_hundredths(&write_figure(h)), Some(h));
    }
}

#[test]
fn a_new_file_starts_with_the_header() {
    let first = typr::history::entry_text(true, "2026-08-31T09:15:00", &config(), &figures(7250), &stats());
    let later = typr::history::entry_text(false, "2026-08-31T09:16:00", &config(), &figures(6000), &stats());
    assert!(first.starts_with(HEADER));
    assert!(!later.starts_with('#'));
    assert!(first.ends_with('\n') && later.ends_with('\n'));

    let contents = format!("{first}{later}");
    let speeds: Vec<i64> = load_from(&contents).iter().map(|record| record.wpm).collect();
    assert_eq!(speeds, [7250, 6000]);
}
