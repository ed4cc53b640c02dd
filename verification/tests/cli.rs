use typr::cli::{parse, usage, Command, Options, DEFAULT_WIDTH, MIN_WIDTH};
use typr::engine::{Backtrack, Mode};
use typr::theme::Theme;
use typr::words::{list_names, Decoration};

fn parse_args(args: &[&str]) -> Result<Command, String> {
    parse(&args.iter().map(|arg| arg.to_string()).collect::<Vec<_>>())
}

fn options(args: &[&str]) -> Options {
    match parse_args(args) {
        Ok(Command::Run(options)) => *options,
        _ => panic!("{args:?} did not produce a runnable test"),
    }
}

fn error(args: &[&str]) -> String {
    parse_args(args)
        .err()
        .unwrap_or_else(|| panic!("{args:?} was accepted"))
}

#[test]
fn the_default_is_a_thirty_second_english_test() {
    let options = options(&[]);

    assert_eq!(options.config.mode, Mode::Time);
    assert_eq!(options.config.limit, 30);
    assert_eq!(options.config.list, "english");
    assert_eq!(options.config.decoration, Decoration::default());
    assert_eq!(options.width, DEFAULT_WIDTH);
    assert!(options.live_wpm);
    assert_eq!(options.backtrack, Backtrack::Strict);
}

#[test]
fn short_and_long_flags_agree() {
    assert_eq!(
        options(&["-t", "15"]).config.limit,
        options(&["--time", "15"]).config.limit
    );
    assert_eq!(options(&["-w", "25"]).config.mode, Mode::Words);
    assert_eq!(options(&["--words", "25"]).config.limit, 25);
}

#[test]
fn quote_mode_overrides_the_other_modes() {
    let options = options(&["-q", "-t", "60"]);

    assert_eq!(options.config.mode, Mode::Quote);
    assert_eq!(options.config.limit, 0);
}

#[test]
fn decorations_are_collected() {
    let options = options(&["-p", "-n"]);

    assert!(options.config.decoration.punctuation);
    assert!(options.config.decoration.numbers);
}

#[test]
fn live_wpm_can_be_turned_off_and_back_on() {
    assert!(!options(&["--no-live-wpm"]).live_wpm);
    assert!(options(&["--no-live-wpm", "--live-wpm"]).live_wpm);
}

#[test]
fn free_backspace_relaxes_backtracking() {
    assert_eq!(options(&["--free-backspace"]).backtrack, Backtrack::Free);
}

#[test]
fn the_width_has_a_floor_so_the_column_stays_usable() {
    assert_eq!(options(&["--width", "2"]).width, MIN_WIDTH);
    assert_eq!(options(&["--width", "100"]).width, 100);
}

#[test]
fn a_seed_is_carried_through() {
    assert_eq!(options(&["--seed", "7"]).seed, Some(7));
    assert_eq!(options(&[]).seed, None);
}

#[test]
fn unknown_options_are_refused_rather_than_ignored() {
    assert!(error(&["--nope"]).contains("unknown option"));
}

#[test]
fn stray_arguments_are_refused() {
    assert!(error(&["oops"]).contains("unexpected argument"));
}

#[test]
fn options_that_need_a_value_say_so() {
    assert!(error(&["--time"]).contains("needs a value"));
    assert!(error(&["--theme"]).contains("needs a value"));
}

#[test]
fn numbers_have_to_be_numbers() {
    assert!(error(&["--time", "soon"]).contains("needs a number"));
}

#[test]
fn zero_and_negative_lengths_are_refused() {
    assert!(error(&["-t", "0"]).contains("time must be positive"));
    assert!(error(&["-w", "0"]).contains("word count must be positive"));
    assert!(error(&["-t", "-5"]).contains("time must be positive"));
}

#[test]
fn unknown_lists_and_themes_are_named_with_the_alternatives() {
    let list_error = error(&["--list", "klingon"]);
    assert!(list_error.contains("unknown word list"));
    assert!(list_error.contains("english_extended"));

    let theme_error = error(&["--theme", "neon"]);
    assert!(theme_error.contains("unknown theme"));
    assert!(theme_error.contains("matrix"));
}

#[test]
fn quote_mode_does_not_need_a_valid_word_list() {
    assert_eq!(
        options(&["-q", "--list", "klingon"]).config.mode,
        Mode::Quote
    );
}

#[test]
fn help_and_version_report_without_running_a_test() {
    assert!(matches!(parse_args(&["--help"]), Ok(Command::Print(_))));
    assert!(matches!(parse_args(&["--version"]), Ok(Command::Print(_))));
    assert!(matches!(parse_args(&["--stats"]), Ok(Command::Stats)));
    assert!(matches!(parse_args(&["--doctor"]), Ok(Command::Diagnose)));
}

#[test]
fn the_usage_text_lists_every_theme_and_word_list() {
    let usage = usage();

    for name in Theme::names() {
        assert!(usage.contains(name), "usage does not mention {name}");
    }

    for name in list_names() {
        assert!(usage.contains(name), "usage does not mention {name}");
    }
}

#[test]
fn the_version_is_printed_with_the_program_name() {
    match parse_args(&["--version"]) {
        Ok(Command::Print(text)) => assert!(text.contains("0.1.0")),
        _ => panic!("--version did not print"),
    }
}

#[test]
fn the_help_text_is_the_usage() {
    match parse_args(&["-h"]) {
        Ok(Command::Print(text)) => assert_eq!(text, usage()),
        _ => panic!("-h did not print"),
    }
}

#[test]
fn a_word_count_takes_precedence_over_time() {
    let options = options(&["-t", "15", "-w", "10"]);
    assert_eq!(options.config.mode, Mode::Words);
    assert_eq!(options.config.limit, 10);
}

#[test]
fn a_known_theme_and_list_are_kept() {
    let options = options(&["--theme", "ocean", "--list", "english_extended"]);
    assert_eq!(options.theme, "ocean");
    assert_eq!(options.config.list, "english_extended");
}
