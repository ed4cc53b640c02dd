use typr::theme::{detect_depth, Attrs, ColourDepth, Role, Theme};

#[test]
fn every_named_theme_exists() {
    assert!(Theme::names().iter().all(|name| Theme::is_known(name)));
}

#[test]
fn names_are_sorted_and_complete() {
    assert_eq!(Theme::names(), ["default", "matrix", "mono", "ocean"]);
}

#[test]
fn unknown_themes_do_not_exist() {
    assert!(!Theme::is_known("neon"));
}

#[test]
fn an_unknown_name_falls_back_to_the_default_palette() {
    let fallback = Theme::build_with("neon", ColourDepth::Extended);
    let default = Theme::build_with("default", ColourDepth::Extended);

    assert_eq!(fallback.code(Role::Accent), default.code(Role::Accent));
}

#[test]
fn colour_depth_picks_the_sequence_family() {
    assert_eq!(
        Theme::build_with("default", ColourDepth::Extended).code(Role::Text),
        "\x1b[38;5;252m"
    );
    assert_eq!(
        Theme::build_with("default", ColourDepth::Basic).code(Role::Text),
        "\x1b[37m"
    );
}

#[test]
fn painting_wraps_text_in_colour_and_resets_after() {
    let theme = Theme::build_with("default", ColourDepth::Basic);
    let mut out = String::new();
    theme.paint_into(&mut out, Role::Correct, "ok", Attrs::none());

    assert_eq!(out, "\x1b[97mok\x1b[0m");
}

#[test]
fn attributes_are_layered_over_the_colour() {
    let theme = Theme::build_with("default", ColourDepth::Basic);
    let mut out = String::new();
    theme.paint_into(
        &mut out,
        Role::Text,
        "hi",
        Attrs {
            bold: true,
            underline: true,
        },
    );

    assert_eq!(out, "\x1b[37m\x1b[1m\x1b[4mhi\x1b[0m");
}

#[test]
fn every_theme_defines_every_role() {
    let roles = [
        Role::Text,
        Role::Dim,
        Role::Untyped,
        Role::Correct,
        Role::Incorrect,
        Role::Extra,
        Role::Accent,
    ];

    for name in Theme::names() {
        let theme = Theme::build_with(name, ColourDepth::Extended);

        for role in roles {
            assert!(
                theme.code(role).starts_with("\x1b["),
                "{name} has no sequence for {role:?}"
            );
        }
    }
}

#[test]
fn the_terminal_advertises_its_depth() {
    assert_eq!(detect_depth("truecolor", "xterm"), ColourDepth::Extended);
    assert_eq!(detect_depth("", "xterm-256color"), ColourDepth::Extended);
    assert_eq!(detect_depth("", "xterm-direct"), ColourDepth::Extended);
    assert_eq!(detect_depth("", "xterm"), ColourDepth::Basic);
    assert_eq!(detect_depth("", ""), ColourDepth::Basic);
}

#[test]
fn build_goes_by_the_advertised_depth() {
    let theme = Theme::build("ocean", "", "screen-256color");

    assert_eq!(theme.code(Role::Correct), "\x1b[38;5;195m");
    assert_eq!(Theme::build("ocean", "", "vt100").code(Role::Correct), "\x1b[96m");
}

#[test]
fn each_palette_has_its_own_colours() {
    let matrix = Theme::build_with("matrix", ColourDepth::Basic);
    let mono = Theme::build_with("mono", ColourDepth::Extended);

    assert_eq!(matrix.code(Role::Incorrect), "\x1b[91m");
    assert_eq!(mono.code(Role::Dim), "\x1b[38;5;238m");
}

#[test]
fn bold_comes_without_underline() {
    let theme = Theme::build_with("default", ColourDepth::Basic);
    let mut out = String::new();
    theme.paint_into(&mut out, Role::Accent, "x", Attrs::bolded());
    theme.paint_into(&mut out, Role::Accent, "y", Attrs::underlined());

    assert_eq!(out, "\x1b[93m\x1b[1mx\x1b[0m\x1b[93m\x1b[4my\x1b[0m");
    assert_eq!(Attrs::default(), Attrs::none());
}
