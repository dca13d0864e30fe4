use fzzx::cli::{
    classify, config_path, default_config_path, options, parse_args, Action, Arg, ConfigFile,
    Meaning, Overrides, Setting, Switch,
};
use fzzx::config::{parse_config, Options};
use fzzx::fuzzy::filter_entries;
use fzzx::number::{float_literal, parse_usize_chars, IntError};
use fzzx::picker::{
    check_index, entries_fit, exit_status, output_line, query_is_matchable, Command, Delegate,
    Effect, Model, Output, RunEnd, Swatch,
};
use fzzx::style::{parse_color, parse_font, Color};
use fzzx::text::{chars_of, split_lines, string_from};

fn args(list: &[&str]) -> Vec<String> {
    list.iter().map(|s| s.to_string()).collect()
}

fn run_overrides(list: &[&str]) -> Overrides {
    match parse_args(args(list)).unwrap() {
        Action::Run(o) => o,
        other => panic!("expected a run, got {:?}", other),
    }
}

fn chars(s: &str) -> Vec<char> {
    s.chars().collect()
}

// Colors.

#[test]
fn color_without_alpha_is_opaque() {
    let c = parse_color("102030").unwrap();
    assert_eq!(c, Color { red: 0x10, green: 0x20, blue: 0x30, alpha: 255 });
    assert_eq!(parse_color("102030ff").unwrap(), c);
}

#[test]
fn color_hash_is_optional_and_whitespace_is_trimmed() {
    assert_eq!(parse_color("  #A0b0C0 \t").unwrap(), parse_color("a0B0c0").unwrap());
    assert_eq!(parse_color("# a0b0c0").unwrap_err(), "expected RRGGBB or RRGGBBAA");
    assert_eq!(parse_color("##a0b0c0").unwrap_err(), "expected RRGGBB or RRGGBBAA");
}

#[test]
fn color_length_is_counted_in_bytes() {
    assert_eq!(parse_color("12345").unwrap_err(), "expected RRGGBB or RRGGBBAA");
    assert_eq!(parse_color("1234567").unwrap_err(), "expected RRGGBB or RRGGBBAA");
    assert_eq!(parse_color("").unwrap_err(), "expected RRGGBB or RRGGBBAA");
    assert_eq!(
        parse_color("\u{e9}\u{e9}\u{e9}").unwrap_err(),
        "color contains a non-hexadecimal digit"
    );
    assert_eq!(parse_color("\u{e9}\u{e9}").unwrap_err(), "expected RRGGBB or RRGGBBAA");
}

#[test]
fn color_rejects_non_hex_digits() {
    assert_eq!(
        parse_color("12345g").unwrap_err(),
        "color contains a non-hexadecimal digit"
    );
    assert_eq!(
        parse_color("-1ffff").unwrap_err(),
        "color contains a non-hexadecimal digit"
    );
}

#[test]
fn color_takes_hex_digits_only() {
    assert_eq!(
        parse_color("+f+1+a").unwrap_err(),
        "color contains a non-hexadecimal digit"
    );
    assert_eq!(
        parse_color("#ff80+0").unwrap_err(),
        "color contains a non-hexadecimal digit"
    );
}

// Fonts.

#[test]
fn font_without_size_is_sixteen_points() {
    let f = parse_font("  Menlo  ").unwrap();
    assert_eq!(f.family, "Menlo");
    assert_eq!(f.size, "16");
}

#[test]
fn font_size_must_be_a_number() {
    assert_eq!(
        parse_font("Menlo:size=big").unwrap_err(),
        "invalid font size in \"Menlo:size=big\""
    );
    assert_eq!(
        parse_font("Menlo:size=").unwrap_err(),
        "invalid font size in \"Menlo:size=\""
    );
}

#[test]
fn font_family_cannot_be_blank() {
    assert_eq!(parse_font(" :size=12").unwrap_err(), "font family cannot be empty");
    assert_eq!(parse_font("   ").unwrap_err(), "font family cannot be empty");
}

#[test]
fn font_size_is_taken_after_the_last_marker() {
    let f = parse_font("A:size=3:size=12 ").unwrap();
    assert_eq!(f.family, "A:size=3");
    assert_eq!(f.size, "12");
}

#[test]
fn font_size_must_be_between_six_and_ninety_six() {
    for ok in ["6", "96", "9.6e1", "0.6e1", "960e-1", "+16", "06.000", "95.99999"] {
        let f = parse_font(&format!("Menlo:size={ok}")).unwrap();
        assert_eq!(f.size, ok);
    }
    for bad in ["5.99", "96.0000001", "0", "-10", "inf", "nan", "1e400", "1e-400", "97"] {
        assert_eq!(
            parse_font(&format!("Menlo:size={bad}")).unwrap_err(),
            "font size must be between 6 and 96 points",
            "{bad}"
        );
    }
}

#[test]
fn font_size_is_read_as_the_nearest_f64() {
    let edges = [
        ("96.00000000000000001", true),
        ("96.00000000000000710542735760100185871124267578125", true),
        ("96.00000000000000710542735760100185871124267578126", false),
        ("5.999999999999999555910790149937383830547332763671875", true),
        ("5.999999999999999555910790149937383830547332763671874", false),
        ("5.9999999999999999", true),
    ];
    for (text, ok) in edges {
        let x: f64 = text.parse().unwrap();
        assert_eq!(x.is_finite() && (6.0..=96.0).contains(&x), ok, "{text}");
        assert_eq!(parse_font(&format!("Menlo:size={text}")).is_ok(), ok, "{text}");
    }
}

#[test]
fn width_is_read_as_the_nearest_finite_f64() {
    let max = "179769313486231580793728971405303415079934132710037826936173778980444968292764750946649017977587207096330286416692887910946555547851940402630657488671505820681908902000708383676273854845817711531764475730270069855571366959622842914819860834936475292719074168444365510704342711559699508093042880177904174497791";
    let over = "179769313486231580793728971405303415079934132710037826936173778980444968292764750946649017977587207096330286416692887910946555547851940402630657488671505820681908902000708383676273854845817711531764475730270069855571366959622842914819860834936475292719074168444365510704342711559699508093042880177904174497792";
    let edges = [
        ("199.99999999999999", true),
        ("199.9999999999999857891452847979962825775146484375", true),
        ("199.9999999999999857891452847979962825775146484374", false),
        ("1e308", true),
        ("1e309", false),
        ("1.7976931348623158e308", true),
        (max, true),
        (over, false),
        ("-1e400", false),
    ];
    for (text, ok) in edges {
        let x: f64 = text.parse().unwrap();
        assert_eq!(x.is_finite() && x >= 200.0, ok, "{text}");
        let o = run_overrides(&["--no-config", "--width", text]);
        assert_eq!(options(o, ConfigFile::Unused).is_ok(), ok, "{text}");
    }
}

#[test]
fn width_must_be_at_least_two_hundred() {
    for ok in ["200", "2e2", "640.5", "20000e-2"] {
        let o = run_overrides(&["--no-config", "--width", ok]);
        assert_eq!(options(o, ConfigFile::Unused).unwrap().width, ok);
    }
    for bad in ["199.99", "inf", "-300", "NaN", "1e1", "19999e-2"] {
        let o = run_overrides(&["--no-config", "--width", bad]);
        assert_eq!(
            options(o, ConfigFile::Unused).unwrap_err(),
            "width must be at least 200 points",
            "{bad}"
        );
    }
    let o = run_overrides(&[]);
    let file = ConfigFile::Read { path: "c".into(), contents: "[main]\nwidth=150\n".into() };
    assert_eq!(options(o, file).unwrap_err(), "width must be at least 200 points");
}

#[test]
fn font_errors_come_in_the_order_of_the_file() {
    let mut o = Options::default();
    assert_eq!(
        parse_config("[main]\nfont=X:size=200\nbogus\n", "p", &mut o).unwrap_err(),
        "font size must be between 6 and 96 points"
    );
}

// Numbers.

#[test]
fn usize_reads_like_from_str() {
    assert_eq!(parse_usize_chars(&chars("42")), Ok(42));
    assert_eq!(parse_usize_chars(&chars("+7")), Ok(7));
    assert_eq!(parse_usize_chars(&chars("")), Err(IntError::Empty));
    assert_eq!(parse_usize_chars(&chars("+")), Err(IntError::InvalidDigit));
    assert_eq!(parse_usize_chars(&chars("-")), Err(IntError::InvalidDigit));
    assert_eq!(parse_usize_chars(&chars("-3")), Err(IntError::InvalidDigit));
    assert_eq!(parse_usize_chars(&chars(" 3")), Err(IntError::InvalidDigit));
    assert_eq!(
        parse_usize_chars(&chars("99999999999999999999999")),
        Err(IntError::PosOverflow)
    );
    assert_eq!(
        parse_usize_chars(&chars("99999999999999999999999x")),
        Err(IntError::PosOverflow)
    );
    assert_eq!(
        parse_usize_chars(&chars(&usize::MAX.to_string())),
        Ok(usize::MAX)
    );
}

#[test]
fn float_literals_follow_the_std_grammar() {
    for text in ["1", "1.5", ".5", "5.", "1e5", "1E-5", "+2.5e+3", "inf", "-Infinity", "NaN", "007"] {
        assert!(float_literal(&chars(text)), "{text}");
        assert!(text.parse::<f64>().is_ok(), "{text}");
    }
    for text in ["", ".", "e5", "1e", "1e+", "+", "1.2.3", " 1", "1_0", "infinit", "0x10"] {
        assert!(!float_literal(&chars(text)), "{text}");
        assert!(text.parse::<f64>().is_err(), "{text}");
    }
}

// Text.

#[test]
fn lines_split_like_str_lines() {
    for text in ["", "a", "a\n", "a\r\nb", "a\n\nb\n", "a\r", "\n", "x\r\r\n"] {
        let expected: Vec<String> = text.lines().map(str::to_owned).collect();
        assert_eq!(split_lines(text), expected, "{text:?}");
    }
}

#[test]
fn characters_round_trip() {
    let s = "\u{f003b} Safari \u{e9}";
    assert_eq!(string_from(&chars_of(s)), s);
}

// Configuration file.

#[test]
fn config_comments_and_blank_lines_are_ignored() {
    let mut o = Options::default();
    parse_config("# comment\n; other\n\n[main]\n  prompt = Run:  \r\n", "c.ini", &mut o).unwrap();
    assert_eq!(o.prompt, "Run:");
}

#[test]
fn config_rejects_unknown_sections_and_keys() {
    let mut o = Options::default();
    assert_eq!(
        parse_config("[main]\n[other]\n", "c.ini", &mut o).unwrap_err(),
        "c.ini:2: unknown section [other]"
    );
    assert_eq!(
        parse_config("[colors]\nfoo\"=1\n", "c.ini", &mut o).unwrap_err(),
        "c.ini:2: unknown key \"foo\\\"\""
    );
    assert_eq!(
        parse_config("[main]\ntext=ffffff\n", "c.ini", &mut o).unwrap_err(),
        "c.ini:2: unknown key \"text\""
    );
    assert_eq!(
        parse_config("prompt=x\n", "c.ini", &mut o).unwrap_err(),
        "c.ini:1: key appears before a section"
    );
    assert_eq!(
        parse_config("[main]\n\nprompt\n", "c.ini", &mut o).unwrap_err(),
        "c.ini:3: expected key=value"
    );
}

#[test]
fn config_reports_malformed_values() {
    let mut o = Options::default();
    assert_eq!(
        parse_config("[main]\nlines=x\n", "p", &mut o).unwrap_err(),
        "p:2: invalid digit found in string"
    );
    assert_eq!(
        parse_config("[main]\nlines=\n", "p", &mut o).unwrap_err(),
        "p:2: cannot parse integer from empty string"
    );
    assert_eq!(
        parse_config("[main]\nwidth=wide\n", "p", &mut o).unwrap_err(),
        "p:2: invalid float literal"
    );
    assert_eq!(
        parse_config("[main]\nwidth=\n", "p", &mut o).unwrap_err(),
        "p:2: cannot parse float from empty string"
    );
    assert_eq!(
        parse_config("[colors]\nmatch=red\n", "p", &mut o).unwrap_err(),
        "p:2: expected RRGGBB or RRGGBBAA"
    );
    assert_eq!(
        parse_config("[main]\nfont=:size=10\n", "p", &mut o).unwrap_err(),
        "font family cannot be empty"
    );
}

#[test]
fn config_keeps_the_lines_read_before_an_error() {
    let mut o = Options::default();
    let e = parse_config("[main]\nlines=3\nwidth=bad\nprompt=x\n", "p", &mut o).unwrap_err();
    assert_eq!(e, "p:3: invalid float literal");
    assert_eq!(o.lines, 3);
    assert_eq!(o.prompt, ">");
}

#[test]
fn config_later_value_wins_and_sections_switch() {
    let mut o = Options::default();
    parse_config(
        "[main]\nprompt=a\n[colors]\nprompt=010203\n[main]\nprompt=b\n",
        "p",
        &mut o,
    )
    .unwrap();
    assert_eq!(o.prompt, "b");
    assert_eq!(o.prompt_color, Some(Color { red: 1, green: 2, blue: 3, alpha: 255 }));
}

#[test]
fn config_line_numbers_count_every_line() {
    let mut text = String::new();
    for _ in 0..11 {
        text.push_str("# filler\n");
    }
    text.push_str("bad line\n");
    let mut o = Options::default();
    assert_eq!(
        parse_config(&text, "long.ini", &mut o).unwrap_err(),
        "long.ini:12: expected key=value"
    );
}

// Command line.

#[test]
fn every_option_is_classified() {
    assert_eq!(classify(&Arg::Short('d')), Meaning::Ignored);
    assert_eq!(classify(&Arg::Long("dmenu".into())), Meaning::Ignored);
    assert_eq!(classify(&Arg::Short('l')), Meaning::Setting(Setting::Lines));
    assert_eq!(
        classify(&Arg::Long("selection-text-color".into())),
        Meaning::Setting(Setting::SelectionTextColor)
    );
    assert_eq!(classify(&Arg::Long("no-sort".into())), Meaning::Switch(Switch::NoSort));
    assert_eq!(classify(&Arg::Short('h')), Meaning::Help);
    assert_eq!(classify(&Arg::Long("version".into())), Meaning::Version);
    assert_eq!(classify(&Arg::Short('s')), Meaning::Unexpected);
    assert_eq!(classify(&Arg::Value("x".into())), Meaning::Unexpected);
}

#[test]
fn help_and_version_stop_reading() {
    assert!(matches!(parse_args(args(&["-h", "--bogus"])), Ok(Action::Help)));
    assert!(matches!(parse_args(args(&["--version"])), Ok(Action::Version)));
    assert!(matches!(parse_args(args(&["-d", "-v"])), Ok(Action::Version)));
}

#[test]
fn unexpected_arguments_are_errors() {
    assert_eq!(parse_args(args(&["-x"])).unwrap_err(), "invalid option '-x'");
    assert_eq!(parse_args(args(&["--bogus"])).unwrap_err(), "invalid option '--bogus'");
    assert_eq!(parse_args(args(&["choice"])).unwrap_err(), "unexpected argument \"choice\"");
    assert_eq!(
        parse_args(args(&["--prompt"])).unwrap_err(),
        "missing argument for option '--prompt'"
    );
    assert_eq!(
        parse_args(args(&["--index=1"])).unwrap_err(),
        "unexpected argument for option '--index': \"1\""
    );
}

#[test]
fn attached_values_and_dashes_follow_the_same_rules() {
    assert_eq!(
        parse_args(args(&["--config=/x", "--no-config"])).unwrap_err(),
        "--config and --no-config cannot be used together"
    );
    assert_eq!(parse_args(args(&["-xq"])).unwrap_err(), "invalid option '-x'");
    assert_eq!(parse_args(args(&["--bogus=1"])).unwrap_err(), "invalid option '--bogus'");
    assert_eq!(parse_args(args(&["--", "-h"])).unwrap_err(), "unexpected argument \"-h\"");
    assert!(matches!(parse_args(args(&["-dh"])), Ok(Action::Help)));
    assert!(parse_args(args(&["-d=1"])).is_err());
    let o = run_overrides(&["-l=3", "-pX", "--width=700"]);
    assert_eq!(o.lines, Some(3));
    assert_eq!(o.prompt.as_deref(), Some("X"));
    assert_eq!(o.width.as_deref(), Some("700"));
}

#[test]
fn option_values_are_checked() {
    assert_eq!(
        parse_args(args(&["--lines", "many"])).unwrap_err(),
        "invalid digit found in string"
    );
    assert_eq!(parse_args(args(&["-w", "x"])).unwrap_err(), "invalid float literal");
    assert_eq!(
        parse_args(args(&["--config", "a", "--no-config"])).unwrap_err(),
        "--config and --no-config cannot be used together"
    );
}

#[test]
fn options_take_attached_and_clustered_values() {
    let o = run_overrides(&["-l3", "--width=700", "-p", "--search", "--index", "--no-sort"]);
    assert_eq!(o.lines, Some(3));
    assert_eq!(o.width.as_deref(), Some("700"));
    assert_eq!(o.prompt.as_deref(), Some("--search"));
    assert!(o.index);
    assert!(o.no_sort);
    assert_eq!(o.search, None);
}

#[test]
fn default_config_path_prefers_xdg() {
    assert_eq!(
        default_config_path(Some("/x".into()), Some("/h".into())).as_deref(),
        Some("/x/fzzx/fzzx.ini")
    );
    assert_eq!(
        default_config_path(Some("/x/".into()), None).as_deref(),
        Some("/x/fzzx/fzzx.ini")
    );
    assert_eq!(
        default_config_path(Some("".into()), None).as_deref(),
        Some("fzzx/fzzx.ini")
    );
    assert_eq!(
        default_config_path(None, Some("/home/u".into())).as_deref(),
        Some("/home/u/.config/fzzx/fzzx.ini")
    );
    assert_eq!(default_config_path(None, None), None);
}

#[test]
fn config_path_follows_the_switches() {
    let o = run_overrides(&["--no-config"]);
    assert_eq!(config_path(&o, Some("d".into())), None);
    let o = run_overrides(&["--config", "mine.ini"]);
    assert_eq!(config_path(&o, Some("d".into())).as_deref(), Some("mine.ini"));
    let o = run_overrides(&[]);
    assert_eq!(config_path(&o, Some("d".into())).as_deref(), Some("d"));
}

#[test]
fn a_missing_default_config_is_no_error() {
    let o = run_overrides(&[]);
    let file = ConfigFile::Unreadable {
        path: "/h/.config/fzzx/fzzx.ini".into(),
        not_found: true,
        error: "No such file or directory (os error 2)".into(),
    };
    let opts = options(o, file).unwrap();
    assert_eq!(opts.prompt, ">");
    assert_eq!(opts.width, "640");
}

#[test]
fn a_missing_explicit_config_is_an_error() {
    let o = run_overrides(&["--config", "nope.ini"]);
    let file = ConfigFile::Unreadable {
        path: "nope.ini".into(),
        not_found: true,
        error: "No such file or directory (os error 2)".into(),
    };
    assert_eq!(
        options(o, file).unwrap_err(),
        "failed to read nope.ini: No such file or directory (os error 2)"
    );
}

#[test]
fn no_config_ignores_the_file() {
    let o = run_overrides(&["--no-config"]);
    let file = ConfigFile::Read { path: "c".into(), contents: "garbage".into() };
    assert!(options(o, file).is_ok());
}

#[test]
fn command_line_overrides_only_its_own_settings() {
    let o = run_overrides(&["--prompt", "Go:", "--text-color", "#010101", "--font", "Menlo:size=12"]);
    let file = ConfigFile::Read {
        path: "c".into(),
        contents: "[main]\nprompt=Cfg\nlines=4\n[colors]\ntext=020202\nmatch=030303\n".into(),
    };
    let opts = options(o, file).unwrap();
    assert_eq!(opts.prompt, "Go:");
    assert_eq!(opts.lines, 4);
    assert_eq!(opts.text_color, Some(Color { red: 1, green: 1, blue: 1, alpha: 255 }));
    assert_eq!(opts.match_color, Some(Color { red: 3, green: 3, blue: 3, alpha: 255 }));
    assert_eq!(opts.font.unwrap().size, "12");
    assert!(opts.sort);
    assert!(!opts.index);
}

#[test]
fn invalid_command_line_colors_are_named() {
    let o = run_overrides(&["--no-config", "--match-color", "zz"]);
    assert_eq!(
        options(o, ConfigFile::Unused).unwrap_err(),
        "invalid match-color: expected RRGGBB or RRGGBBAA"
    );
    let o = run_overrides(&["--no-config", "--lines", "0"]);
    assert_eq!(
        options(o, ConfigFile::Unused).unwrap_err(),
        "lines must be between 1 and 8"
    );
}

// Filtering.

#[test]
fn filtering_is_repeatable() {
    let entries: Vec<String> = ["alpha", "beta", "gamma", "alphabet", "ab"]
        .iter()
        .map(|s| s.to_string())
        .collect();
    let a = filter_entries(&entries, "ab", true);
    let b = filter_entries(&entries, "ab", true);
    assert_eq!(
        a.iter().map(|m| (m.original, m.indices.clone())).collect::<Vec<_>>(),
        b.iter().map(|m| (m.original, m.indices.clone())).collect::<Vec<_>>()
    );
    for m in &a {
        assert!(m.indices.windows(2).all(|w| w[0] < w[1]));
    }
}

#[test]
fn empty_query_keeps_everything_in_order() {
    let entries: Vec<String> = ["b", "a", "c"].iter().map(|s| s.to_string()).collect();
    let m = filter_entries(&entries, "", true);
    assert_eq!(m.iter().map(|m| m.original).collect::<Vec<_>>(), vec![0, 1, 2]);
    assert!(m.iter().all(|m| m.indices.is_empty()));
}

#[test]
fn ranking_puts_better_matches_first() {
    let entries: Vec<String> = ["xxsxxaxxf", "saf", "s a f"].iter().map(|s| s.to_string()).collect();
    let m = filter_entries(&entries, "saf", true);
    assert_eq!(m.len(), 3);
    assert_eq!(m[0].original, 1);
    let unsorted = filter_entries(&entries, "saf", false);
    assert_eq!(unsorted.iter().map(|m| m.original).collect::<Vec<_>>(), vec![0, 1, 2]);
}

#[test]
fn sorting_only_reorders_the_matches() {
    let entries: Vec<String> =
        ["xxsxxaxxf", "saf", "nothing", "s a f", "safari"].iter().map(|s| s.to_string()).collect();
    let key = |v: &Vec<fzzx::fuzzy::Match>| {
        let mut k: Vec<(usize, Vec<u32>)> = v.iter().map(|m| (m.original, m.indices.clone())).collect();
        k.sort();
        k
    };
    let ranked = filter_entries(&entries, "saf", true);
    let plain = filter_entries(&entries, "saf", false);
    assert_eq!(key(&ranked), key(&plain));
    let blank = filter_entries(&entries, "   ", true);
    assert_eq!(blank.iter().map(|m| m.original).collect::<Vec<_>>(), vec![0, 1, 2, 3, 4]);
    assert!(blank.iter().all(|m| m.indices.is_empty()));
}

// Picker state.

fn entries(list: &[&str]) -> Vec<String> {
    list.iter().map(|s| s.to_string()).collect()
}

fn picker(list: &[&str]) -> Delegate {
    let mut o = Options::default();
    o.lines = 2;
    Delegate::new(Model::new(o, &entries(list)))
}

#[test]
fn selection_starts_on_the_first_match_and_wraps() {
    let mut d = picker(&["a", "b", "c"]);
    assert_eq!(d.model_ref().selected(), Some(0));
    assert!(d.move_selection(-1));
    assert_eq!(d.model_ref().selected(), Some(2));
    assert!(d.move_selection(1));
    assert_eq!(d.model_ref().selected(), Some(0));
    assert!(d.move_selection(7));
    assert_eq!(d.model_ref().selected(), Some(1));
    assert!(d.move_selection(-7));
    assert_eq!(d.model_ref().selected(), Some(0));
}

#[test]
fn pages_move_by_the_number_of_lines() {
    let mut d = picker(&["a", "b", "c", "d", "e"]);
    assert_eq!(d.command(Command::PageDown, ""), Effect::Refresh);
    assert_eq!(d.model_ref().selected(), Some(2));
    assert_eq!(d.command(Command::PageUp, ""), Effect::Refresh);
    assert_eq!(d.command(Command::PageUp, ""), Effect::Refresh);
    assert_eq!(d.model_ref().selected(), Some(3));
    assert_eq!(d.command(Command::MoveDown, ""), Effect::Refresh);
    assert_eq!(d.model_ref().selected(), Some(4));
}

#[test]
fn no_matches_means_nothing_to_move_or_accept() {
    let mut d = picker(&["a", "b"]);
    d.update_query("zzz");
    assert_eq!(d.model_ref().number_of_rows(), 0);
    assert_eq!(d.model_ref().selected(), None);
    assert!(!d.move_selection(1));
    assert_eq!(d.command(Command::MoveUp, ""), Effect::Nothing);
    assert!(!d.accept("zzz"));
    d.update_query("b");
    assert_eq!(d.model_ref().number_of_rows(), 1);
    assert_eq!(d.model_ref().selected(), Some(0));
}

#[test]
fn accepting_returns_the_original_row() {
    let mut d = picker(&["alpha", "beta", "gamma"]);
    d.update_query("ga");
    assert!(d.accept("ga"));
    assert!(!d.finish(None));
    assert!(matches!(d.take_result(), Some(Output::Selection(2))));
}

#[test]
fn without_choices_the_typed_text_is_the_output() {
    let mut d = Delegate::new(Model::new(Options::default(), &[]));
    assert_eq!(d.model_ref().selected(), None);
    assert!(d.accept("typed"));
    assert!(matches!(d.take_result(), Some(Output::Input(ref s)) if s == "typed"));
}

#[test]
fn cancelling_ends_without_output() {
    let mut d = picker(&["a"]);
    assert_eq!(d.command(Command::CancelOperation, ""), Effect::Stop);
    assert_eq!(d.command(Command::CancelOperation, ""), Effect::Nothing);
    assert_eq!(d.command(Command::InsertNewline, ""), Effect::Nothing);
    assert!(d.take_result().is_none());
}

#[test]
fn enter_stores_the_selected_choice() {
    let mut d = picker(&["a", "b", "c"]);
    assert_eq!(d.command(Command::MoveDown, ""), Effect::Refresh);
    assert_eq!(d.command(Command::InsertNewline, "ignored"), Effect::Stop);
    assert!(matches!(d.take_result(), Some(Output::Selection(1))));
}

#[test]
fn table_selection_is_followed() {
    let mut d = picker(&["a", "b"]);
    assert!(d.select_row(1));
    assert!(!d.select_row(1));
    assert_eq!(d.model_ref().selected(), Some(1));
    assert!(d.select_row(-1));
    assert_eq!(d.model_ref().selected(), None);
    assert!(!d.accept(""));
}

#[test]
fn rows_show_text_highlights_and_selection() {
    let mut d = picker(&["\u{f003b} Safari", "Firefox"]);
    d.update_query("saf");
    let row = d.row(0).unwrap();
    assert_eq!(row.text, "\u{f003b} Safari");
    assert!(row.selected);
    assert_eq!(row.base, Swatch::SelectionText);
    assert_eq!(row.highlight, Swatch::SelectionText);
    assert_eq!(row.utf16_len, 9);
    assert_eq!(row.ranges, vec![(3, 1), (4, 1), (5, 1)]);
    assert!(d.row(1).is_none());
    d.update_query("");
    let row = d.row(1).unwrap();
    assert!(!row.selected);
    assert_eq!(row.base, Swatch::Text);
    assert_eq!(row.highlight, Swatch::Match);
}

// Output.

#[test]
fn output_lines_end_with_a_newline() {
    let list = entries(&["x", "y"]);
    assert_eq!(output_line(&Output::Selection(1), &list, false), "y\n");
    assert_eq!(output_line(&Output::Selection(1), &list, true), "1\n");
    assert_eq!(output_line(&Output::Selection(0), &list, true), "0\n");
    assert_eq!(output_line(&Output::Input("hi".into()), &list, false), "hi\n");
    let many: Vec<String> = (0..120).map(|i| i.to_string()).collect();
    assert_eq!(output_line(&Output::Selection(107), &many, true), "107\n");
}

#[test]
fn index_needs_choices() {
    let mut o = Options::default();
    o.index = true;
    assert_eq!(
        check_index(&o, &[]).unwrap_err(),
        "--index requires choices from stdin"
    );
    assert!(check_index(&o, &entries(&["a"])).is_ok());
    o.index = false;
    assert!(check_index(&o, &[]).is_ok());
}

#[test]
fn exit_statuses() {
    assert_eq!(exit_status(RunEnd::Printed), 0);
    assert_eq!(exit_status(RunEnd::Cancelled), 1);
    assert_eq!(exit_status(RunEnd::Failed), 2);
}

#[test]
fn size_limits() {
    assert!(entries_fit(&entries(&["a", "\u{f003b}"])));
    assert!(query_is_matchable("abc"));
    assert!(query_is_matchable(&"a".repeat(200000)));
    assert!(query_is_matchable(&"a ".repeat(65537)));
    assert!(!query_is_matchable(&"a ".repeat(65538)));
    assert!(!query_is_matchable(&" a".repeat(65538)));
}
