use fzzx::cli::{options, parse_args, Action, ConfigFile};
use fzzx::config::{parse_config, Options};
use fzzx::fuzzy::filter_entries;
use fzzx::picker::{utf16_ranges, visible_rows};
use fzzx::style::{parse_color, parse_font, Color};

fn channel(value: u8) -> f64 {
    f64::from(value) / 255.0
}

fn float(text: &str) -> f64 {
    text.parse::<f64>().unwrap()
}

#[test]
fn converts_character_indices_to_utf16_ranges() {
    let ranges = utf16_ranges("\u{f003b} Safari", &[0, 2, 3]);
    assert_eq!(ranges, vec![(0, 2), (3, 1), (4, 1)]);
}

#[test]
fn list_viewport_fits_short_lists_and_caps_long_lists() {
    let row_height = 22.0;
    let heights = |count: usize, limit: usize| {
        (
            row_height * visible_rows(count, limit) as f64,
            row_height * count as f64,
        )
    };
    assert_eq!(heights(3, 8), (66.0, 66.0));
    assert_eq!(heights(10, 8), (176.0, 220.0));
}

#[test]
fn parses_fuzzel_style_font() {
    let font = parse_font("JetBrainsMono Nerd Font Mono:size=17.5").unwrap();
    assert_eq!(font.family, "JetBrainsMono Nerd Font Mono");
    assert_eq!(float(&font.size), 17.5);
}

#[test]
fn parses_rgb_and_rgba_colors() {
    let color = parse_color("#ff8000").unwrap();
    assert_eq!(
        color,
        Color {
            red: 255,
            green: 128,
            blue: 0,
            alpha: 255,
        }
    );
    assert_eq!(
        (
            channel(color.red),
            channel(color.green),
            channel(color.blue),
            channel(color.alpha)
        ),
        (1.0, 128.0 / 255.0, 0.0, 1.0)
    );
    assert_eq!(channel(parse_color("00000080").unwrap().alpha), 128.0 / 255.0);
}

#[test]
fn config_uses_fuzzel_sections() {
    let mut options = Options::default();
    parse_config(
        "[main]\nfont=Symbols Nerd Font:size=18\nlines=7\nwidth=500\n\n[colors]\nbackground=101010ee\nprompt=ffffff\nprompt-background=333333\nmatch=ff0000\n",
        "test.ini",
        &mut options,
    )
    .unwrap();

    assert_eq!(options.lines, 7);
    assert_eq!(float(&options.width), 500.0);
    assert_eq!(float(&options.font.unwrap().size), 18.0);
    assert_eq!(channel(options.background.unwrap().alpha), 238.0 / 255.0);
    assert_eq!(channel(options.prompt_color.unwrap().red), 1.0);
    assert_eq!(channel(options.prompt_background.unwrap().red), 0.2);
    assert_eq!(channel(options.match_color.unwrap().red), 1.0);
}

#[test]
fn fuzzy_matches_preserve_original_indices() {
    let entries = vec![
        "Firefox".to_string(),
        "\u{f003b} Safari".to_string(),
        "System Settings".to_string(),
    ];
    let matches = filter_entries(&entries, "saf", true);

    assert_eq!(matches.len(), 1);
    assert_eq!(matches[0].original, 1);
    assert_eq!(matches[0].indices, vec![2, 3, 4]);
}

#[test]
fn no_sort_keeps_input_order() {
    let entries = vec![
        "zebra".to_string(),
        "alpha beta".to_string(),
        "albatross".to_string(),
    ];
    let matches = filter_entries(&entries, "a", false);

    assert_eq!(
        matches
            .iter()
            .map(|entry| entry.original)
            .collect::<Vec<_>>(),
        vec![0, 1, 2]
    );
}

fn args(list: &[&str]) -> Vec<String> {
    list.iter().map(|s| s.to_string()).collect()
}

#[test]
fn cli_search_overrides_defaults() {
    let Action::Run(overrides) = parse_args(args(&["--no-config", "--search", "saf"])).unwrap()
    else {
        panic!("expected run action");
    };
    let options = options(overrides, ConfigFile::Unused).unwrap();

    assert_eq!(options.search, "saf");
    assert_eq!(options.prompt, ">");
}

#[test]
fn cli_colors_override_config_colors() {
    let path = "fzzx-test.ini".to_string();
    let contents = "[colors]\nbackground=111111\ntext=eeeeee\nselection=222222\n".to_string();
    let Action::Run(overrides) = parse_args(vec![
        "--config".to_string(),
        path.clone(),
        "--background".to_string(),
        "abcdef".to_string(),
    ])
    .unwrap() else {
        panic!("expected run action");
    };
    let options = options(overrides, ConfigFile::Read { path, contents }).unwrap();

    assert_eq!(options.background, Some(parse_color("abcdef").unwrap()));
    assert_eq!(options.text_color, Some(parse_color("eeeeee").unwrap()));
    assert_eq!(
        options.selection_color,
        Some(parse_color("222222").unwrap())
    );
}

#[test]
fn visible_rows_are_capped_at_eight() {
    let Action::Run(overrides) = parse_args(args(&["--no-config", "--lines", "9"])).unwrap() else {
        panic!("expected run action");
    };

    assert_eq!(
        options(overrides, ConfigFile::Unused).unwrap_err(),
        "lines must be between 1 and 8"
    );
    assert_eq!(Options::default().lines, 8);
}
