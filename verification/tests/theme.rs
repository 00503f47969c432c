use eks::k8s::quantity::Ratio;
use eks::theme::{
    detect_background, foreground, parse_background_reply, resolve, should_query_background,
    Background, Channel, Color, ColourChoice, Palette, Severity, Theme, ThemeChoice,
    BACKGROUND_QUERY,
};

/// A share to three decimal places, and no whole at all for what is no number.
fn share(ratio: f64) -> Ratio {
    if ratio.is_nan() {
        return Ratio { part: 0, whole: 0 };
    }
    Ratio {
        part: (ratio * 1000.0).round() as i128,
        whole: 1000,
    }
}

/// Relative luminance, each channel a fraction of full intensity.
fn luminance([r, g, b]: [f64; 3]) -> f64 {
    fn channel(c: f64) -> f64 {
        if c <= 0.039_28 {
            c / 12.92
        } else {
            ((c + 0.055) / 1.055).powf(2.4)
        }
    }
    0.2126 * channel(r) + 0.7152 * channel(g) + 0.0722 * channel(b)
}

/// The background a terminal's reply describes: light when the light theme's
/// body text has more contrast against it than the dark theme's.
fn background_of_reply(reply: &[u8]) -> Option<Background> {
    let fraction = |channel: Channel| f64::from(channel.value) / f64::from(channel.max);
    let colour = parse_background_reply(reply)?;
    let background = luminance([colour.red, colour.green, colour.blue].map(fraction));
    let contrast = |ink: Color| {
        let ink = relative_luminance(rgb(ink));
        (ink.max(background) + 0.05) / (ink.min(background) + 0.05)
    };
    Some(
        if contrast(Theme::light().text) > contrast(Theme::dark().text) {
            Background::Light
        } else {
            Background::Dark
        },
    )
}

#[test]
fn utilisation_thresholds_are_inclusive_at_the_boundary() {
    assert_eq!(Severity::from_utilisation(share(0.0)), Severity::Okay);
    assert_eq!(Severity::from_utilisation(share(0.749)), Severity::Okay);
    assert_eq!(Severity::from_utilisation(share(0.75)), Severity::Warn);
    assert_eq!(Severity::from_utilisation(share(0.899)), Severity::Warn);
    assert_eq!(Severity::from_utilisation(share(0.90)), Severity::Critical);
    assert_eq!(Severity::from_utilisation(share(1.5)), Severity::Critical);
}

#[test]
fn nonsense_utilisation_is_unknown_not_alarming() {
    assert_eq!(Severity::from_utilisation(share(f64::NAN)), Severity::Unknown);
    assert_eq!(Severity::from_utilisation(share(-0.1)), Severity::Unknown);
}

#[test]
fn request_share_thresholds_are_inclusive_at_the_boundary() {
    assert_eq!(Severity::from_request_share(share(0.0)), Severity::Okay);
    // A pod at 90% of its own request is well sized, not nearly full —
    // the reading `from_utilisation` would give it is the wrong one.
    assert_eq!(Severity::from_request_share(share(0.90)), Severity::Okay);
    assert_eq!(Severity::from_request_share(share(1.0)), Severity::Okay);
    assert_eq!(Severity::from_request_share(share(1.499)), Severity::Okay);
    assert_eq!(Severity::from_request_share(share(1.5)), Severity::Warn);
    assert_eq!(Severity::from_request_share(share(2.999)), Severity::Warn);
    assert_eq!(Severity::from_request_share(share(3.0)), Severity::Critical);
    assert_eq!(Severity::from_request_share(share(4.5)), Severity::Critical);
}

#[test]
fn nonsense_request_share_is_unknown_not_alarming() {
    assert_eq!(Severity::from_request_share(share(f64::NAN)), Severity::Unknown);
    assert_eq!(Severity::from_request_share(share(-0.1)), Severity::Unknown);
}

#[test]
fn focused_panes_are_visually_distinct() {
    let theme = Theme::dark();
    assert_ne!(theme.pane_border(true), theme.pane_border(false));
}

/// The palette a CLI listing gets when `--color=always` was typed, without
/// asking a terminal anything.
fn colour() -> Palette {
    Palette::pick(ColourChoice::Always, Theme::dark(), false, None, None)
}

#[test]
fn a_calm_reading_is_written_in_the_terminals_own_colour() {
    // The decision the whole CLI palette turns on. A healthy cluster is
    // almost every cell, and painting all of them green would spend the
    // strongest signal a terminal has on the rows with nothing to say.
    let theme = Theme::dark();
    assert_eq!(theme.severity_ink(Severity::Okay), None);
    assert_eq!(colour().paint("Ready", Severity::Okay), "Ready");
}

#[test]
fn the_readings_worth_looking_at_are_the_ones_with_ink() {
    let theme = Theme::dark();
    assert_eq!(theme.severity_ink(Severity::Warn), Some(theme.warning));
    assert_eq!(theme.severity_ink(Severity::Critical), Some(theme.danger));
    // An absence, not an alarm: a `-` where a figure could not be read.
    assert_eq!(theme.severity_ink(Severity::Unknown), Some(theme.muted));
}

#[test]
fn the_thresholds_are_the_dashboards_even_though_the_colours_are_not() {
    // The two surfaces draw a severity differently and must never disagree
    // about which severity it is: `severity_ink` re-reads the same four
    // variants and invents no fifth rule.
    let theme = Theme::dark();
    for level in [
        Severity::Okay,
        Severity::Warn,
        Severity::Critical,
        Severity::Unknown,
    ] {
        let dashboard = theme.severity(level).fg;
        match theme.severity_ink(level) {
            Some(ink) => assert_eq!(dashboard, Some(ink), "{level:?}"),
            // The one that differs, and only in that a table leaves it
            // alone where a bar fills it green.
            None => assert_eq!(dashboard, Some(theme.success), "{level:?}"),
        }
    }
}

#[test]
fn a_painted_cell_sets_the_colour_and_puts_it_back() {
    // The exact bytes, because a sequence with a typo in it is a column
    // five characters out of place on somebody else's terminal, and
    // nothing short of an assertion on the escape itself would catch it.
    let theme = Theme::dark();
    let Color::Rgb(r, g, b) = theme.danger else {
        panic!("the dark theme's danger colour is expected to be 24-bit");
    };

    assert_eq!(
        colour().paint("NotReady", Severity::Critical),
        format!("\x1b[38;2;{r};{g};{b}mNotReady\x1b[39m")
    );
}

#[test]
fn the_reset_puts_back_the_foreground_and_nothing_else() {
    // `39`, not `0`. A full reset would also clear bold, italics, and the
    // background — none of which this tool set, and one of which the
    // user's pager may have.
    assert!(colour().paint("x", Severity::Warn).ends_with("\x1b[39m"));
    assert!(!colour().paint("x", Severity::Warn).contains("\x1b[0m"));
}

#[test]
fn a_plain_palette_writes_no_escapes_at_all() {
    for level in [
        Severity::Okay,
        Severity::Warn,
        Severity::Critical,
        Severity::Unknown,
    ] {
        assert_eq!(Palette::Plain.paint("97%", level), "97%", "{level:?}");
    }
    assert!(!Palette::Plain.is_colour());
    assert!(colour().is_colour());
}

#[test]
fn nothing_is_the_default_so_a_forgotten_palette_prints_plain() {
    // The safe direction to be wrong in: a code path that forgets to pass
    // a palette prints the table it printed before, rather than escape
    // sequences into somebody's file.
    assert_eq!(Palette::default(), Palette::Plain);
}

#[test]
fn an_empty_cell_is_never_wrapped_in_invisible_ink() {
    // A zero-width cell in escapes is a sequence the table's trailing-space
    // trim cannot see, so it would leave a line ending in ink with nothing
    // in it.
    assert_eq!(colour().paint("", Severity::Critical), "");
}

#[test]
fn auto_colours_a_terminal_and_leaves_a_pipe_alone() {
    let auto =
        |terminal| Palette::pick(ColourChoice::Auto, Theme::dark(), terminal, None, None);

    assert!(auto(true).is_colour());
    // `eks nodes | grep NotReady` must be the bytes it was before colour
    // existed; nothing downstream asked to strip escapes.
    assert!(!auto(false).is_colour());
}

#[test]
fn no_color_turns_auto_off_and_an_empty_value_does_not() {
    let auto = |no_color: Option<&str>| {
        Palette::pick(
            ColourChoice::Auto,
            Theme::dark(),
            true,
            no_color,
            Some("xterm-256color"),
        )
    };

    assert!(!auto(Some("1")).is_colour());
    assert!(!auto(Some("anything at all")).is_colour());
    // The spec's own rule: an empty value means "not set". A shell that
    // exports `NO_COLOR=` into every process must not silently turn colour
    // off everywhere.
    assert!(auto(Some("")).is_colour());
    assert!(auto(None).is_colour());
}

#[test]
fn a_terminal_that_says_it_is_dumb_is_believed() {
    let auto = |term: &str| {
        Palette::pick(
            ColourChoice::Auto,
            Theme::dark(),
            true,
            None,
            Some(term),
        )
    };

    assert!(!auto("dumb").is_colour());
    assert!(auto("xterm-256color").is_colour());
    assert!(auto("screen").is_colour());
    // Not a prefix match: `dumb` is the one value that promises no escape
    // sequences are understood, and `dumb-emacs-ansi` does not say that.
    assert!(auto("dumb-emacs-ansi").is_colour());
}

#[test]
fn what_the_user_typed_beats_the_environment_in_both_directions() {
    // `--color=always` for a pager, on a machine whose shell exports
    // NO_COLOR and whose TERM is dumb: they asked, and they are looking at
    // the answer.
    assert!(
        Palette::pick(
            ColourChoice::Always,
            Theme::dark(),
            false,
            Some("1"),
            Some("dumb"),
        )
        .is_colour()
    );
    // And the other way: a terminal that would have been coloured.
    assert!(!Palette::pick(ColourChoice::Never, Theme::dark(), true, None, None).is_colour());
}

#[test]
fn the_default_choice_is_the_one_that_looks_at_the_terminal() {
    assert_eq!(ColourChoice::default(), ColourChoice::Auto);
}

#[test]
fn every_colour_a_theme_can_hold_has_an_escape_sequence() {
    // A palette is only as honest as this mapping: a colour with no
    // sequence prints plain, silently, and a light theme built from the
    // named colours would lose its ink without a word.
    let named = [
        (Color::Black, "\x1b[30m"),
        (Color::Red, "\x1b[31m"),
        (Color::Green, "\x1b[32m"),
        (Color::Yellow, "\x1b[33m"),
        (Color::Blue, "\x1b[34m"),
        (Color::Magenta, "\x1b[35m"),
        (Color::Cyan, "\x1b[36m"),
        (Color::Gray, "\x1b[37m"),
        (Color::DarkGray, "\x1b[90m"),
        (Color::LightRed, "\x1b[91m"),
        (Color::LightGreen, "\x1b[92m"),
        (Color::LightYellow, "\x1b[93m"),
        (Color::LightBlue, "\x1b[94m"),
        (Color::LightMagenta, "\x1b[95m"),
        (Color::LightCyan, "\x1b[96m"),
        (Color::White, "\x1b[97m"),
        (Color::Rgb(0xE0, 0x6C, 0x75), "\x1b[38;2;224;108;117m"),
        (Color::Indexed(203), "\x1b[38;5;203m"),
    ];

    for (colour, expected) in named {
        assert_eq!(foreground(colour).as_deref(), Some(expected), "{colour:?}");
    }

    // "Whatever the terminal was already using" is the absence of a
    // sequence, not a sequence that sets it.
    assert_eq!(foreground(Color::Reset), None);
}

/// [`luminance`] over 8-bit channels, the form every swatch in these tests is
/// written in.
fn relative_luminance((r, g, b): (u8, u8, u8)) -> f64 {
    luminance([r, g, b].map(|c| f64::from(c) / 255.0))
}

/// [WCAG 2.1]'s contrast ratio between two colours, from 1:1 (identical)
/// to 21:1 (black on white). `4.5:1` is the AA bar for body text.
///
/// [WCAG 2.1]: https://www.w3.org/TR/WCAG21/#dfn-contrast-ratio
fn contrast_ratio(a: (u8, u8, u8), b: (u8, u8, u8)) -> f64 {
    let (la, lb) = (relative_luminance(a), relative_luminance(b));
    let (lighter, darker) = if la > lb { (la, lb) } else { (lb, la) };
    (lighter + 0.05) / (darker + 0.05)
}

fn rgb(colour: Color) -> (u8, u8, u8) {
    let Color::Rgb(r, g, b) = colour else {
        panic!("expected a 24-bit colour, got {colour:?}");
    };
    (r, g, b)
}

/// Neither theme paints a background of its own — [`Theme::background`]
/// stays [`Color::Reset`] in both, trusting whatever the terminal already
/// shows — so there is no literal swatch to measure `text` against.
/// These are the backgrounds each theme was tuned to read well on: a
/// common dark terminal default for [`Theme::dark`], and plain white for
/// [`Theme::light`], which a user forcing `--theme light` on an
/// already-light terminal is assumed to be close to.
const ASSUMED_DARK_BACKGROUND: (u8, u8, u8) = (0x1E, 0x1E, 0x1E);
const ASSUMED_LIGHT_BACKGROUND: (u8, u8, u8) = (0xFF, 0xFF, 0xFF);

#[test]
fn both_themes_meet_wcag_aa_contrast_for_body_text() {
    const AA_NORMAL_TEXT: f64 = 4.5;

    let dark = contrast_ratio(rgb(Theme::dark().text), ASSUMED_DARK_BACKGROUND);
    let light = contrast_ratio(rgb(Theme::light().text), ASSUMED_LIGHT_BACKGROUND);

    assert!(dark >= AA_NORMAL_TEXT, "dark theme body text: {dark:.2}:1");
    assert!(
        light >= AA_NORMAL_TEXT,
        "light theme body text: {light:.2}:1"
    );
}

#[test]
fn detect_background_reads_the_last_colorfgbg_field_as_the_background_index() {
    let read = |value: &str| detect_background(Some(value));

    // `foreground;background` — the common two-field form.
    assert_eq!(read("15;0"), Some(Background::Dark));
    assert_eq!(read("0;15"), Some(Background::Light));
    // `7` (light grey) reads as light too; `8` (bright black) stays dark.
    assert_eq!(read("0;7"), Some(Background::Light));
    assert_eq!(read("15;8"), Some(Background::Dark));
    // Konsole's three-field form — the middle "default" is skipped
    // because only the *last* field is read.
    assert_eq!(read("0;default;15"), Some(Background::Light));
}

#[test]
fn detect_background_is_none_when_it_cannot_be_told() {
    assert_eq!(detect_background(None), None);
    assert_eq!(detect_background(Some("")), None);
    assert_eq!(detect_background(Some("not-a-number")), None);
    assert_eq!(detect_background(Some("0;256")), None);
}

#[test]
fn resolve_honours_an_explicit_choice_over_the_terminal() {
    // A light-reading terminal, overridden both ways.
    let light_env = Some("0;15");
    assert_eq!(resolve(ThemeChoice::Dark, light_env), Theme::dark());
    let dark_env = Some("15;0");
    assert_eq!(resolve(ThemeChoice::Light, dark_env), Theme::light());
}

#[test]
fn resolve_auto_reads_the_terminal_and_falls_back_to_dark() {
    assert_eq!(
        resolve(ThemeChoice::Auto, Some("0;15")),
        Theme::light()
    );
    assert_eq!(
        resolve(ThemeChoice::Auto, Some("15;0")),
        Theme::dark()
    );
    // Cannot be told at all: the safer wrong guess, not a light theme
    // painted onto a terminal that never said it was one.
    assert_eq!(resolve(ThemeChoice::Auto, None), Theme::dark());
}

#[test]
fn background_reply_reads_every_channel_width_x11_allows() {
    let light = [
        &b"\x1b]11;rgb:ffff/ffff/ffff\x07"[..],
        b"\x1b]11;rgb:fff/fff/fff\x07",
        b"\x1b]11;rgb:ff/ff/ff\x07",
        b"\x1b]11;rgb:f/f/f\x07",
        b"\x1b]11;rgb:FFFF/FFFF/FFFF\x07",
    ];
    for reply in light {
        assert_eq!(
            background_of_reply(reply),
            Some(Background::Light),
            "{reply:?}"
        );
    }
    let dark = [
        &b"\x1b]11;rgb:0000/0000/0000\x07"[..],
        b"\x1b]11;rgb:1e1e/1e1e/1e1e\x07",
        b"\x1b]11;rgb:28/2c/34\x07",
        b"\x1b]11;rgb:0/0/0\x07",
    ];
    for reply in dark {
        assert_eq!(
            background_of_reply(reply),
            Some(Background::Dark),
            "{reply:?}"
        );
    }
}

#[test]
fn background_reply_accepts_both_terminators() {
    assert_eq!(
        background_of_reply(b"\x1b]11;rgb:ffff/ffff/ffff\x07"),
        Some(Background::Light)
    );
    assert_eq!(
        background_of_reply(b"\x1b]11;rgb:ffff/ffff/ffff\x1b\\"),
        Some(Background::Light)
    );
}

#[test]
fn background_reply_reads_rgba_and_ignores_its_alpha() {
    // rxvt-unicode's form.
    assert_eq!(
        background_of_reply(b"\x1b]11;rgba:ffff/ffff/ffff/0000\x07"),
        Some(Background::Light)
    );
    assert_eq!(
        background_of_reply(b"\x1b]11;rgba:0000/0000/0000/ffff\x1b\\"),
        Some(Background::Dark)
    );
}

#[test]
fn background_reply_is_none_for_anything_it_cannot_read() {
    let garbage: &[&[u8]] = &[
        b"",
        b"garbage",
        // Truncated: no terminator.
        b"\x1b]11;rgb:ffff/ffff/ffff",
        // Truncated: no prefix.
        b"rgb:ffff/ffff/ffff\x07",
        // Another OSC's answer — the foreground, not the background.
        b"\x1b]10;rgb:ffff/ffff/ffff\x07",
        // The query echoed back rather than answered.
        b"\x1b]11;?\x07",
        // Two channels, four channels under `rgb:`, three under `rgba:`.
        b"\x1b]11;rgb:ffff/ffff\x07",
        b"\x1b]11;rgb:ffff/ffff/ffff/ffff\x07",
        b"\x1b]11;rgba:ffff/ffff/ffff\x07",
        // An empty channel, five digits, not hex, a sign.
        b"\x1b]11;rgb:ffff//ffff\x07",
        b"\x1b]11;rgb:fffff/ffff/ffff\x07",
        b"\x1b]11;rgb:gggg/ffff/ffff\x07",
        b"\x1b]11;rgb:+fff/ffff/ffff\x07",
        // A colour form X11 has but this does not read.
        b"\x1b]11;#ffffff\x07",
        // Not UTF-8.
        b"\x1b]11;rgb:\xff\xfe/ffff/ffff\x07",
    ];
    for reply in garbage {
        assert_eq!(parse_background_reply(reply), None, "{reply:?}");
    }
}

#[test]
fn a_background_is_light_exactly_when_the_light_theme_reads_better_on_it() {
    // Mid-grey sits past the crossover, where dark ink already has more
    // contrast than light ink; a darker grey sits before it.
    assert_eq!(
        background_of_reply(b"\x1b]11;rgb:80/80/80\x07"),
        Some(Background::Light)
    );
    assert_eq!(
        background_of_reply(b"\x1b]11;rgb:60/60/60\x07"),
        Some(Background::Dark)
    );
    // Solarized's two backgrounds land where their names say.
    assert_eq!(
        background_of_reply(b"\x1b]11;rgb:fdfd/f6f6/e3e3\x07"),
        Some(Background::Light)
    );
    assert_eq!(
        background_of_reply(b"\x1b]11;rgb:0000/2b2b/3636\x07"),
        Some(Background::Dark)
    );
}

#[test]
fn the_query_is_osc_11_asking_and_terminated_by_bel() {
    assert_eq!(BACKGROUND_QUERY.as_bytes(), b"\x1b]11;?\x07");
}

#[test]
fn the_terminal_is_asked_only_under_auto_and_only_when_colorfgbg_is_silent() {
    let xterm = Some("xterm-256color");
    assert!(should_query_background(ThemeChoice::Auto, None, xterm));
    // A theme the user named is never second-guessed.
    assert!(!should_query_background(ThemeChoice::Dark, None, xterm));
    assert!(!should_query_background(ThemeChoice::Light, None, xterm));
    // `COLORFGBG` already answered, either way: not asked twice.
    assert!(!should_query_background(
        ThemeChoice::Auto,
        Some("0;15"),
        xterm
    ));
    assert!(!should_query_background(
        ThemeChoice::Auto,
        Some("15;0"),
        xterm
    ));
    // A `COLORFGBG` that says nothing readable is the same as none.
    assert!(should_query_background(
        ThemeChoice::Auto,
        Some("default;default"),
        xterm
    ));
}

#[test]
fn the_terminal_is_not_asked_where_the_query_would_scribble_on_it() {
    for term in [
        None,
        Some(""),
        Some("dumb"),
        Some("linux"),
        Some("linux-16color"),
    ] {
        assert!(
            !should_query_background(ThemeChoice::Auto, None, term),
            "{term:?}"
        );
    }
    for term in [
        "xterm-256color",
        "screen-256color",
        "tmux-256color",
        "alacritty",
        "xterm-kitty",
    ] {
        assert!(
            should_query_background(ThemeChoice::Auto, None, Some(term)),
            "{term}"
        );
    }
}

#[test]
fn for_background_picks_the_theme_tuned_for_it() {
    assert_eq!(Theme::for_background(Background::Light), Theme::light());
    assert_eq!(Theme::for_background(Background::Dark), Theme::dark());
}

#[test]
fn the_default_theme_choice_is_the_one_that_looks_at_the_terminal() {
    assert_eq!(ThemeChoice::default(), ThemeChoice::Auto);
}

#[test]
fn a_resolved_theme_reaches_the_cli_palette() {
    // `--theme light` on a listing colours its severity ink from
    // `Theme::light`, not a hardcoded dark default — the same table a
    // light-mode dashboard would draw beside it.
    let palette = Palette::pick(ColourChoice::Always, Theme::light(), false, None, None);
    assert_eq!(
        palette.paint("NotReady", Severity::Critical),
        colour_with(Theme::light(), Severity::Critical, "NotReady")
    );
    assert_ne!(
        palette.paint("NotReady", Severity::Critical),
        colour_with(Theme::dark(), Severity::Critical, "NotReady")
    );
}

fn colour_with(theme: Theme, severity: Severity, text: &str) -> String {
    Palette::pick(ColourChoice::Always, theme, false, None, None)
        .paint(text, severity)
        
}
