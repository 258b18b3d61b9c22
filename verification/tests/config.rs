use linux_cmd_dashboard::config::{
    parse_alacritty_document, parse_alacritty_theme, parse_kitty_theme, TerminalConfig,
    ThemeSource, TomlValue,
};

/// An opacity in billionths as a fraction.
fn opacity(billionths: i64) -> f32 {
    billionths as f32 / 1_000_000_000.0
}

/// One thousandth, in the billionths that opacities are held in.
const MILLI: u32 = 1_000_000;

fn string(s: &str) -> TomlValue {
    TomlValue::String(s.to_string())
}

fn table(entries: Vec<(&str, TomlValue)>) -> TomlValue {
    TomlValue::Table(
        entries
            .into_iter()
            .map(|(key, value)| (key.to_string(), value))
            .collect(),
    )
}

/// A TOML float as the reader holds it, as its decimal text.
fn float(value: f64) -> TomlValue {
    TomlValue::Float(value.to_string())
}

#[test]
fn default_config_uses_fish_and_expected_shortcuts() {
    let config = TerminalConfig::default();

    assert_eq!(config.shell, "fish");
    assert_eq!(config.theme.source, ThemeSource::Alacritty);
    assert!(config.theme.transparent_background);
    assert_eq!(opacity(config.theme.background_opacity), 0.7);
    assert_eq!(config.keybindings.new_pane, "<Ctrl><Shift>Return");
    assert_eq!(config.keybindings.restart_pane, "<Ctrl><Shift>r");
    assert!(config.inherit_focused_cwd);
}

#[test]
fn parses_alacritty_toml_theme() {
    let raw = r##"
            [window]
            opacity = 0.8
            decorations_theme_variant = "Dark"

            [colors.primary]
            background = "0x2E3440"
            foreground = "#D8DEE9"

            [colors.normal]
            black = "0x181818"
            red = "0xA54242"
            green = "0x8C9440"
            yellow = "0xDE935F"
            blue = "0x5F819D"
            magenta = "0x85678F"
            white = "0x707880"
            cyan = "0x88C0D0"

            [colors.bright]
            black = "0x000000"
            red = "0xF0C674"
            green = "0xB5BD68"
            yellow = "0xF0C674"
            blue = "0x81A2BE"
            magenta = "0xB294BB"
            cyan = "0x8FBCBB"
            white = "0xFFFFFF"
        "##;

    let theme = parse_alacritty_theme(raw).unwrap();

    assert_eq!(theme.background, "#2E3440");
    assert_eq!(theme.foreground, "#D8DEE9");
    assert_eq!(theme.cursor, "#D8DEE9");
    assert_eq!(theme.accent, "#8FBCBB");
    assert_eq!(theme.ansi_colors[0], "#181818");
    assert_eq!(theme.ansi_colors[1], "#A54242");
    assert_eq!(theme.ansi_colors[8], "#000000");
    assert_eq!(theme.ansi_colors[14], "#8FBCBB");
    assert_eq!(opacity(theme.background_opacity as i64), 0.8);
    assert!(theme.transparent_background);
    assert_eq!(theme.prefer_dark, Some(true));
}

#[test]
fn parses_kitty_theme() {
    let raw = r#"
            foreground #ebdbb2
            background #282828
            cursor #ebdbb2
            background_opacity 0.75
            color0 #282828
            color1 #cc241d
            color7 #928374
            color15 #fbf1c7
        "#;

    let theme = parse_kitty_theme(raw).unwrap();

    assert_eq!(theme.foreground, "#ebdbb2");
    assert_eq!(theme.background, "#282828");
    assert_eq!(theme.cursor, "#ebdbb2");
    assert_eq!(theme.ansi_colors[0], "#282828");
    assert_eq!(theme.ansi_colors[1], "#cc241d");
    assert_eq!(theme.ansi_colors[7], "#928374");
    assert_eq!(theme.ansi_colors[15], "#fbf1c7");
    assert_eq!(opacity(theme.background_opacity as i64), 0.75);
    assert!(theme.transparent_background);
    assert_eq!(theme.prefer_dark, Some(true));
}

use linux_cmd_dashboard::config::{
    home_relative, kitty_theme_file_name, try_parse_kitty_theme, CharBoundaryError,
    EffectiveTheme, Theme,
};

fn kitty(raw: &str) -> EffectiveTheme {
    parse_kitty_theme(raw).expect("a kitty theme with a background")
}

#[test]
fn kitty_accepts_equals_sign_and_quotes() {
    let theme = kitty("background = #112233\nforeground \"#aabbcc\"\n");
    assert_eq!(theme.background, "#112233");
    assert_eq!(theme.titlebar_background, "#112233");
    assert_eq!(theme.foreground, "#aabbcc");
}

#[test]
fn kitty_color_notations() {
    assert_eq!(kitty("background 0x123456").background, "#123456");
    assert_eq!(kitty("background #abc").background, "#aabbcc");
    assert_eq!(kitty("background #abcd").background, "#aabbcc");
    assert_eq!(kitty("background #11223344").background, "#112233");
    assert_eq!(kitty("background rgb:f/80/ffff").background, "#ff80ff");
}

#[test]
fn kitty_rejects_bad_colors() {
    assert_eq!(parse_kitty_theme("background #12345"), None);
    assert_eq!(parse_kitty_theme("background rgb:1/2"), None);
    assert_eq!(parse_kitty_theme("background rgb:123/1/1"), None);
    assert_eq!(parse_kitty_theme("background red"), None);
}

#[test]
fn kitty_without_background_is_none() {
    assert_eq!(parse_kitty_theme("foreground #ffffff\ncolor1 #ff0000\n"), None);
    assert_eq!(parse_kitty_theme(""), None);
}

#[test]
fn kitty_defaults_for_missing_keys() {
    let theme = kitty("# a comment\n\nbackground #000000\n");
    assert_eq!(theme.foreground, "#ffffff");
    assert_eq!(theme.cursor, "#ffffff");
    assert_eq!(theme.accent, "#2AA198");
    assert_eq!(theme.background_opacity, 1000 * MILLI);
    assert!(!theme.transparent_background);
    assert_eq!(theme.ansi_colors.len(), 16);
    assert_eq!(theme.ansi_colors[0], "#000000");
    assert_eq!(theme.ansi_colors[15], "#FDF6E3");
}

#[test]
fn kitty_cursor_text_color_is_the_accent() {
    let theme = kitty("background #000000\ncolor6 #010203\ncursor_text_color #0a0b0c\n");
    assert_eq!(theme.accent, "#0a0b0c");
    let theme = kitty("background #000000\ncolor6 #010203\n");
    assert_eq!(theme.accent, "#010203");
}

#[test]
fn kitty_palette_indices() {
    let theme = kitty("background #000000\ncolor16 #111111\ncolor+3 #333333\nxcolor4 #444444\n");
    assert_eq!(theme.ansi_colors.len(), 16);
    assert_eq!(theme.ansi_colors[3], "#333333");
    assert_eq!(theme.ansi_colors[4], "#268BD2");
}

#[test]
fn kitty_opacity_is_clamped_and_defaults_to_opaque() {
    assert_eq!(kitty("background #000000\nbackground_opacity 0.01").background_opacity, 100 * MILLI);
    assert_eq!(kitty("background #000000\nbackground_opacity 2").background_opacity, 1000 * MILLI);
    let theme = kitty("background #000000\nbackground_opacity abc");
    assert_eq!(theme.background_opacity, 1000 * MILLI);
    assert!(!theme.transparent_background);
    assert_eq!(kitty("background #000000\nbackground_opacity 0.5").background_opacity, 500 * MILLI);
    assert_eq!(kitty("background #000000\nbackground_opacity .25").background_opacity, 250 * MILLI);
}

#[test]
fn kitty_light_background_prefers_light() {
    assert_eq!(kitty("background #fafafa").prefer_dark, Some(false));
    assert_eq!(kitty("background #101010").prefer_dark, Some(true));
    assert_eq!(kitty("background #abc").prefer_dark, Some(false));
}

#[test]
fn kitty_color_cut_inside_a_character_is_an_error() {
    assert_eq!(try_parse_kitty_theme("background #\u{e9}a"), Err(CharBoundaryError));
    assert!(matches!(try_parse_kitty_theme("background #000000"), Ok(Some(_))));
    assert_eq!(try_parse_kitty_theme("foreground #000000"), Ok(None));
}

fn custom_theme(source: ThemeSource, transparent: bool, opacity: i64) -> TerminalConfig {
    let mut config = TerminalConfig::default();
    config.theme = Theme {
        source,
        transparent_background: transparent,
        background_opacity: opacity * 1_000_000,
        ..Theme::default()
    };
    config
}

#[test]
fn custom_source_uses_configured_colors() {
    let config = custom_theme(ThemeSource::Custom, true, 700);
    let theme = config.effective_theme(true, None);
    assert_eq!(theme.foreground, "#6D8096");
    assert_eq!(theme.background, "#282a36");
    assert_eq!(theme.titlebar_background, "#191a21");
    assert_eq!(theme.cursor, "#f8f8f2");
    assert_eq!(theme.accent, "#8be9fd");
    assert_eq!(theme.prefer_dark, None);
    assert!(theme.ansi_colors.is_empty());
    assert_eq!(theme.background_opacity, 700 * MILLI);
    assert!(theme.transparent_background);
}

#[test]
fn configured_opacity_is_clamped() {
    assert_eq!(
        custom_theme(ThemeSource::Custom, true, 5).effective_theme(false, None).background_opacity,
        100 * MILLI
    );
    assert_eq!(
        custom_theme(ThemeSource::Custom, true, 2500).effective_theme(false, None).background_opacity,
        1000 * MILLI
    );
    assert_eq!(
        custom_theme(ThemeSource::Custom, true, -40).effective_theme(false, None).background_opacity,
        100 * MILLI
    );
}

#[test]
fn system_source_follows_the_desktop() {
    let config = custom_theme(ThemeSource::System, true, 700);
    let dark = config.effective_theme(true, None);
    assert_eq!(dark.background, "#282a36");
    assert_eq!(dark.prefer_dark, Some(true));
    let light = config.effective_theme(false, None);
    assert_eq!(light.foreground, "#1f2937");
    assert_eq!(light.background, "#fafafa");
    assert_eq!(light.titlebar_background, "#e5e7eb");
    assert_eq!(light.cursor, "#111827");
    assert_eq!(light.accent, "#1c71d8");
    assert_eq!(light.prefer_dark, Some(false));
}

#[test]
fn imported_theme_keeps_its_opacity() {
    let imported = kitty("background #000000\nbackground_opacity 0.9");
    let config = custom_theme(ThemeSource::Kitty, true, 400);
    let theme = config.effective_theme(true, Some(imported.clone()));
    assert_eq!(theme.background, "#000000");
    assert_eq!(theme.background_opacity, 900 * MILLI);
    assert!(theme.transparent_background);

    let config = custom_theme(ThemeSource::Alacritty, false, 400);
    let theme = config.effective_theme(true, Some(imported));
    assert_eq!(theme.background_opacity, 1000 * MILLI);
    assert!(!theme.transparent_background);
}

#[test]
fn missing_import_falls_back_to_configured_colors() {
    let config = custom_theme(ThemeSource::Kitty, true, 700);
    let theme = config.effective_theme(false, None);
    assert_eq!(theme.background, "#282a36");
    assert_eq!(theme.prefer_dark, Some(false));
}

fn alacritty(primary: Vec<(&str, TomlValue)>, rest: Vec<(&str, TomlValue)>, window: Vec<(&str, TomlValue)>) -> TomlValue {
    let mut colors = vec![("primary", table(primary))];
    colors.extend(rest);
    table(vec![("colors", table(colors)), ("window", table(window))])
}

#[test]
fn alacritty_needs_primary_colors() {
    assert_eq!(parse_alacritty_document(&table(vec![])), None);
    assert_eq!(parse_alacritty_document(&TomlValue::Integer(3)), None);
    let no_background = alacritty(vec![("foreground", string("#ffffff"))], vec![], vec![]);
    assert_eq!(parse_alacritty_document(&no_background), None);
    let bare_hex = alacritty(
        vec![("foreground", string("ffffff")), ("background", string("#000000"))],
        vec![],
        vec![],
    );
    assert_eq!(parse_alacritty_document(&bare_hex), None);
}

#[test]
fn alacritty_fallbacks() {
    let doc = alacritty(
        vec![("foreground", string(" 0xABCDEF ")), ("background", string("#000000"))],
        vec![],
        vec![],
    );
    let theme = parse_alacritty_document(&doc).unwrap();
    assert_eq!(theme.foreground, "#ABCDEF");
    assert_eq!(theme.cursor, "#ABCDEF");
    assert_eq!(theme.accent, "#88c0d0");
    assert_eq!(theme.background_opacity, 1000 * MILLI);
    assert!(!theme.transparent_background);
    assert_eq!(theme.prefer_dark, None);
    assert_eq!(theme.ansi_colors[1], "#D32E2E");
    assert_eq!(theme.ansi_colors[9], "#DC322F");
}

#[test]
fn alacritty_cursor_and_normal_cyan() {
    let doc = alacritty(
        vec![("foreground", string("#ffffff")), ("background", string("#000000"))],
        vec![
            ("cursor", table(vec![("cursor", string("#123123"))])),
            ("normal", table(vec![("cyan", string("#00ffff"))])),
        ],
        vec![("opacity", TomlValue::Integer(1)), ("decorations_theme_variant", string("LIGHT"))],
    );
    let theme = parse_alacritty_document(&doc).unwrap();
    assert_eq!(theme.cursor, "#123123");
    assert_eq!(theme.accent, "#00ffff");
    assert_eq!(theme.ansi_colors[6], "#00ffff");
    assert_eq!(theme.background_opacity, 1000 * MILLI);
    assert_eq!(theme.prefer_dark, Some(false));
}

#[test]
fn alacritty_opacity_clamps_and_unknown_variant() {
    let doc = alacritty(
        vec![("foreground", string("#ffffff")), ("background", string("#000000"))],
        vec![],
        vec![("opacity", float(0.05)), ("decorations_theme_variant", string("None"))],
    );
    let theme = parse_alacritty_document(&doc).unwrap();
    assert_eq!(theme.background_opacity, 100 * MILLI);
    assert!(theme.transparent_background);
    assert_eq!(theme.prefer_dark, None);
    let doc = alacritty(
        vec![("foreground", string("#ffffff")), ("background", string("#000000"))],
        vec![],
        vec![("opacity", TomlValue::Boolean(true))],
    );
    assert_eq!(parse_alacritty_document(&doc).unwrap().background_opacity, 1000 * MILLI);
}

#[test]
fn kitty_theme_names_get_conf_suffix() {
    assert_eq!(kitty_theme_file_name("Gruvbox Dark"), "Gruvbox Dark.conf");
    assert_eq!(kitty_theme_file_name("nord.conf"), "nord.conf");
    assert_eq!(kitty_theme_file_name(""), ".conf");
}

#[test]
fn home_relative_paths() {
    assert_eq!(home_relative("~/themes/a.toml"), Some("themes/a.toml".to_string()));
    assert_eq!(home_relative("~/"), Some(String::new()));
    assert_eq!(home_relative("/etc/alacritty.toml"), None);
    assert_eq!(home_relative("~user/x"), None);
}

fn kitty_opacity(value: &str) -> u32 {
    kitty(&format!("background #000000\nbackground_opacity {value}")).background_opacity
}

#[test]
fn kitty_opacity_reads_rust_float_syntax() {
    assert_eq!(kitty_opacity("5e-1"), 500 * MILLI);
    assert_eq!(kitty_opacity("7.5E-1"), 750 * MILLI);
    assert_eq!(kitty_opacity("1234e-4"), 123_400_000);
    assert_eq!(kitty_opacity("0.0000065e5"), 650 * MILLI);
    assert_eq!(kitty_opacity("1e3"), 1000 * MILLI);
    assert_eq!(kitty_opacity("+0.5"), 500 * MILLI);
    assert_eq!(kitty_opacity("0."), 100 * MILLI);
    assert_eq!(kitty_opacity("inf"), 1000 * MILLI);
    assert_eq!(kitty_opacity("-Infinity"), 100 * MILLI);
    assert_eq!(kitty_opacity("-0.5"), 100 * MILLI);
}

#[test]
fn kitty_opacity_is_cut_to_billionths() {
    assert_eq!(kitty_opacity("0.1234"), 123_400_000);
    assert_eq!(kitty_opacity("0.1239999999"), 123_999_999);
    assert_eq!(kitty_opacity("0.0995"), 100 * MILLI);
    let theme = kitty("background #000000\nbackground_opacity 0.9999");
    assert_eq!(theme.background_opacity, 999_900_000);
    assert!(theme.transparent_background);
}

#[test]
fn kitty_opacity_is_opaque_where_single_precision_rounds_to_one() {
    assert_eq!(kitty_opacity("0.8125"), 812_500_000);
    assert_eq!(kitty_opacity("0.99999997"), 999_999_970);
    assert_eq!(kitty_opacity("0.9999999701976776"), 999_999_970);
    assert_eq!(kitty_opacity("0.99999998"), 1_000_000_000);
    assert_eq!(kitty_opacity("0.99999999999"), 1_000_000_000);
    assert!(!kitty("background #000000\nbackground_opacity 0.99999999999").transparent_background);
}

fn alacritty_opacity(value: &str) -> u32 {
    let raw = format!(
        "[colors.primary]\nforeground = '#ffffff'\nbackground = '#000000'\n[window]\nopacity = {value}\n"
    );
    parse_alacritty_theme(&raw).unwrap().background_opacity
}

#[test]
fn alacritty_opacity_is_opaque_where_single_precision_rounds_to_one() {
    assert_eq!(alacritty_opacity("0.8125"), 812_500_000);
    assert_eq!(alacritty_opacity("0.99999999999"), 1_000_000_000);
    assert_eq!(alacritty_opacity("0.9999999701976776"), 1_000_000_000);
    assert_eq!(alacritty_opacity("0.9999999701976775"), 999_999_970);
    assert_eq!(alacritty_opacity("0.99999997"), 999_999_970);
    assert_eq!(alacritty_opacity("1"), 1_000_000_000);
    assert_eq!(alacritty_opacity("0"), 100 * MILLI);
}

#[test]
fn kitty_opacity_that_is_no_number_is_opaque() {
    assert_eq!(kitty_opacity("1e"), 1000 * MILLI);
    assert_eq!(kitty_opacity("e5"), 1000 * MILLI);
    assert_eq!(kitty_opacity("."), 1000 * MILLI);
    assert_eq!(kitty_opacity("0.5.0"), 1000 * MILLI);
    assert_eq!(kitty_opacity("1e1e1"), 1000 * MILLI);
    assert_eq!(kitty_opacity("nan"), 1000 * MILLI);
}

#[test]
fn alacritty_text_is_parsed_as_toml() {
    assert_eq!(parse_alacritty_theme("not [ toml"), None);
    assert_eq!(parse_alacritty_theme(""), None);
    let theme = parse_alacritty_theme(
        "[colors.primary]\nforeground = '#ffffff'\nbackground = '#000000'\n[window]\nopacity = 5e-1\n",
    )
    .unwrap();
    assert_eq!(theme.background_opacity, 500 * MILLI);
    let theme = parse_alacritty_theme(
        "[colors.primary]\nforeground = '#ffffff'\nbackground = '#000000'\n[window]\nopacity = 0.25\n",
    )
    .unwrap();
    assert_eq!(theme.background_opacity, 250 * MILLI);
    assert!(theme.transparent_background);
}

#[test]
fn default_config_has_default_theme_and_keys() {
    let config = TerminalConfig::default();
    assert_eq!(config.font, "Monospace 11");
    assert_eq!(config.scrollback_lines, 20_000);
    assert_eq!(config.theme, Theme::default());
    assert_eq!(config.theme.alacritty_config, None);
    assert_eq!(config.theme.kitty_config, None);
    assert_eq!(config.keybindings.overview, "<Ctrl><Shift>o");
    assert_eq!(config.keybindings.move_right, "<Ctrl><Shift><Alt>l");
}

use linux_cmd_dashboard::config::{
    is_dark_background, normalize_hex_alpha, normalize_kitty_rgb_part, parse_key_value_pair,
    parse_kitty_color,
};

fn chars(s: &str) -> Vec<char> {
    s.chars().collect()
}

#[test]
fn dark_test_follows_single_precision_luminance() {
    assert_eq!(kitty("background #d2659a").prefer_dark, Some(true));
    assert_eq!(kitty("background #d2659b").prefer_dark, Some(false));
    assert_eq!(is_dark_background(&chars("#d2659a")), Ok(true));
    assert_eq!(is_dark_background(&chars("#fff")), Ok(true));
    assert_eq!(is_dark_background(&chars("ffffff")), Ok(false));
}

#[test]
fn color_helpers() {
    assert_eq!(normalize_hex_alpha(&chars("abc")), Ok(Some(chars("#aabbcc"))));
    assert_eq!(normalize_hex_alpha(&chars("12345")), Ok(None));
    assert_eq!(normalize_kitty_rgb_part(&chars("f")), Ok(Some(chars("ff"))));
    assert_eq!(normalize_kitty_rgb_part(&chars("abcd")), Ok(Some(chars("ab"))));
    assert_eq!(normalize_kitty_rgb_part(&chars("abc")), Ok(None));
    assert_eq!(parse_kitty_color(&chars(" 0x1234 ")), Ok(Some(chars("#1234"))));
    assert_eq!(parse_kitty_color(&chars("#\u{e9}a")), Err(CharBoundaryError));
    assert_eq!(
        parse_key_value_pair(&chars("a = b = c")),
        Some((chars("a"), chars("b = c")))
    );
    assert_eq!(parse_key_value_pair(&chars("key  value more")), Some((chars("key"), chars("value"))));
    assert_eq!(parse_key_value_pair(&chars("lonely")), None);
}

use linux_cmd_dashboard::config::{kitty_theme_sources, KittyThemeSource};

#[test]
fn kitty_theme_sources_in_the_order_tried() {
    assert_eq!(kitty_theme_sources(None), vec![KittyThemeSource::DefaultConfig]);
    assert_eq!(kitty_theme_sources(Some("  \t")), vec![KittyThemeSource::DefaultConfig]);
    assert_eq!(
        kitty_theme_sources(Some(" Dark+ ")),
        vec![
            KittyThemeSource::File("Dark+".to_string()),
            KittyThemeSource::ThemeFile("Dark+.conf".to_string()),
            KittyThemeSource::DumpTheme("Dark+".to_string()),
        ]
    );
    assert_eq!(
        kitty_theme_sources(Some("~/themes/nord.conf")),
        vec![
            KittyThemeSource::HomeFile("themes/nord.conf".to_string()),
            KittyThemeSource::ThemeFile("~/themes/nord.conf".to_string()),
            KittyThemeSource::DumpTheme("~/themes/nord.conf".to_string()),
        ]
    );
}
