use typr::engine::{Backtrack, Engine, Key, Mode, Status, Word};
use typr::render::{can_draw, layout, move_to, test_frame, too_small_frame, Placed, Scene};
use typr::theme::{ColourDepth, Role, Theme};

fn theme() -> Theme {
    Theme::build_with("default", ColourDepth::Extended)
}

fn view(theme: &Theme) -> Scene<'_> {
    Scene {
        theme,
        size: (24, 80),
        width: 40,
        left: 5,
        now: 0,
        live_wpm: true,
        speed: 0,
        label: "30s · english".to_string(),
        best: None,
        comparison: None,
        trouble: Vec::new(),
    }
}

fn engine(list: &[&str]) -> Engine {
    Engine::new(
        Mode::Time,
        30,
        list.iter().map(|word| word.to_string()).collect(),
        Backtrack::Strict,
    )
}

fn pending<'a>(list: &'a [&'a str]) -> Vec<Word<'a>> {
    list.iter()
        .enumerate()
        .map(|(index, target)| Word {
            index,
            target,
            typed: "",
            status: Status::Pending,
        })
        .collect()
}

/// Strips the escape sequences, leaving what a person sees.
fn visible(frame: &str) -> String {
    let mut out = String::new();
    let mut characters = frame.chars().peekable();

    while let Some(character) = characters.next() {
        if character != '\x1b' {
            out.push(character);
            continue;
        }

        // Skip "[", the parameter bytes, and the final letter.
        for escaped in characters.by_ref() {
            if escaped.is_ascii_alphabetic() {
                break;
            }
        }
    }

    out
}

fn targets<'a>(lines: &[Vec<Placed<'a>>]) -> Vec<Vec<&'a str>> {
    lines
        .iter()
        .map(|line| line.iter().map(|placed| placed.word.target).collect())
        .collect()
}

fn columns(line: &[Placed]) -> Vec<usize> {
    line.iter().map(|placed| placed.column).collect()
}

fn commit(engine: &mut Engine, word: &str) {
    for character in word.chars() {
        engine.key(Key::Char(character), 0);
    }

    engine.key(Key::Space, 0);
}

#[test]
fn breaks_lines_at_the_column_width() {
    let words = ["aaaa", "bbbb", "cccc", "dddd"];
    let lines = layout(&pending(&words), 10);

    assert_eq!(targets(&lines), [["aaaa", "bbbb"], ["cccc", "dddd"]]);
}

#[test]
fn positions_words_with_a_single_space_between_them() {
    let words = ["one", "two"];
    let lines = layout(&pending(&words), 40);

    assert_eq!(columns(&lines[0]), [0, 4]);
}

#[test]
fn a_word_longer_than_the_width_gets_a_line_to_itself_rather_than_vanishing() {
    let words = ["a", "supercalifragilistic", "b"];
    let lines = layout(&pending(&words), 10);

    assert_eq!(
        targets(&lines),
        [vec!["a"], vec!["supercalifragilistic"], vec!["b"]]
    );
}

#[test]
fn overtyped_words_push_their_neighbours_along() {
    let words = [
        Word {
            index: 0,
            target: "ab",
            typed: "abcdefgh",
            status: Status::Done,
        },
        Word {
            index: 1,
            target: "cd",
            typed: "",
            status: Status::Pending,
        },
    ];

    let lines = layout(&words, 40);

    assert_eq!(columns(&lines[0]), [0, 9]);
}

#[test]
fn an_empty_word_list_lays_out_to_nothing() {
    assert!(layout(&[], 40).is_empty());
}

#[test]
fn shows_the_words_and_puts_the_caret_where_the_typist_is() {
    let theme = theme();
    let mut engine = engine(&["the", "quick", "brown"]);
    engine.key(Key::Char('t'), 0);

    let (frame, caret) = test_frame(&engine, &view(&theme));
    let output = visible(&frame);

    assert!(output.contains("the quick brown"), "{output}");
    assert!(output.contains("tab restart · esc quit"));
    // One character in, so the caret sits one column past the word's start.
    assert_eq!(caret.map(|(_row, column)| column), Some(6));
}

#[test]
fn counts_down_in_timed_mode_and_counts_words_otherwise() {
    let theme = theme();
    let mut view = view(&theme);
    view.live_wpm = false;

    let timed = engine(&["the", "quick"]);
    let counted = Engine::new(
        Mode::Words,
        2,
        vec!["the".to_string(), "quick".to_string()],
        Backtrack::Strict,
    );

    assert!(visible(&test_frame(&timed, &view).0).contains("30"));
    assert!(visible(&test_frame(&counted, &view).0).contains("0/2"));
}

#[test]
fn scrolls_so_the_active_line_is_never_the_last_one_on_screen() {
    let theme = theme();
    let words: Vec<&str> = vec!["acorn"; 60];
    let mut engine = engine(&words);

    // Skip far enough ahead that the active word is well past the first line.
    for _ in 0..20 {
        commit(&mut engine, "acorn");
    }

    let view = view(&theme);
    let (_frame, caret) = test_frame(&engine, &view);
    let (rows, _columns) = view.size;

    assert!(caret.unwrap().0 < rows - 1);
}

#[test]
fn the_frame_changes_as_characters_are_typed() {
    let theme = theme();
    let view = view(&theme);
    let mut engine = engine(&["the", "quick", "brown"]);

    let before = visible(&test_frame(&engine, &view).0);
    engine.key(Key::Char('x'), 0);
    let after = visible(&test_frame(&engine, &view).0);

    assert_ne!(before, after);
}

#[test]
fn a_wrong_character_is_painted_differently_from_a_right_one() {
    let theme = theme();
    let view = view(&theme);
    let mut engine = engine(&["the"]);
    engine.key(Key::Char('x'), 0);

    let frame = test_frame(&engine, &view).0;

    assert!(frame.contains(theme.code(Role::Incorrect)));
}

#[test]
fn the_too_small_message_names_the_size_it_needs() {
    let theme = theme();
    let mut view = view(&theme);
    view.size = (5, 20);

    let output = visible(&too_small_frame(&view).0);

    assert!(output.contains("20x5"), "{output}");
    assert!(output.contains("40x8"));
}

#[test]
fn the_live_speed_replaces_the_label_once_typing_starts() {
    let theme = theme();
    let mut view = view(&theme);
    view.speed = 64;
    let mut engine = engine(&["the", "quick"]);

    assert!(visible(&test_frame(&engine, &view).0).contains("30s · english"));
    engine.key(Key::Char('t'), 0);
    assert!(visible(&test_frame(&engine, &view).0).contains("64 wpm"));
}

#[test]
fn moving_the_cursor_is_one_escape_sequence() {
    assert_eq!(move_to(3, 12), "\x1b[3;12H");
}

#[test]
fn an_ordinary_test_can_be_drawn() {
    let theme = Theme::build_with("default", ColourDepth::Extended);
    let view = view(&theme);
    let engine = engine(&["the", "quick", "brown"]);
    assert!(can_draw(&engine, &view));
}

#[test]
fn a_label_wider_than_the_column_cannot_be_drawn() {
    let theme = Theme::build_with("default", ColourDepth::Extended);
    let mut view = view(&theme);
    view.width = 2;
    view.left = 1;
    let engine = engine(&["the"]);
    assert!(!can_draw(&engine, &view));
}

#[test]
fn a_limit_whose_milliseconds_overflow_cannot_be_drawn() {
    let theme = Theme::build_with("default", ColourDepth::Extended);
    let mut view = view(&theme);
    let overflowing = Engine::new(Mode::Time, i64::MAX / 1000 + 1, vec!["the".to_string()], Backtrack::Strict);
    assert!(!can_draw(&overflowing, &view));
    // Any clock reading the arithmetic can take is drawn, a negative one too.
    view.now = -1;
    assert!(can_draw(&engine(&["the"]), &view));
    let long = Engine::new(Mode::Time, 300_000_000_000_000, vec!["the".to_string()], Backtrack::Strict);
    assert!(can_draw(&long, &view));
}
