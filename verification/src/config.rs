use vstd::prelude::*;

use crate::text::{
    strings, byte_len, byte_len_upto, byte_prefix, byte_prefix_of, chars_are, chars_of, copy_range, find_char,
    string_of,
    first_index, split_chars, split_spec, trim, trim_spec, trim_start, trim_start_spec, utf8_width,
    views, words, words_spec, CharClass, lemma_byte_prefix_grows, lemma_views_set, lemma_split_nonempty, lemma_trim_len,
    lemma_split_parts_short,
};

use crate::toml_doc::{parse_toml_document, toml_document};

verus! {

/// Where the terminal colors come from.
#[derive(Debug, Clone, Copy, PartialEq, Eq, Structural)]
pub enum ThemeSource {
    Alacritty,
    Kitty,
    System,
    Custom,
}

/// Opacities are fixed-point numbers in billionths: `OPACITY_SCALE` is
/// fully opaque.
pub const OPACITY_SCALE: u32 = 1_000_000_000;

/// The smallest opacity a theme can end up with.
pub const OPACITY_MIN: u32 = 100_000_000;

/// An opacity clamped to `OPACITY_MIN..=OPACITY_SCALE`.
pub open spec fn clamp_opacity(billionths: int) -> u32 {
    if billionths < OPACITY_MIN {
        OPACITY_MIN
    } else if billionths > OPACITY_SCALE {
        OPACITY_SCALE
    } else {
        billionths as u32
    }
}

pub fn clamp_opacity_exec(billionths: i64) -> (clamped: u32)
    ensures
        clamped == clamp_opacity(billionths as int),
{
    if billionths < OPACITY_MIN as i64 {
        OPACITY_MIN
    } else if billionths > OPACITY_SCALE as i64 {
        OPACITY_SCALE
    } else {
        billionths as u32
    }
}

/// Numbers read from text are fixed-point numbers in units of `10^-25`.
pub const NUMBER_SCALE: u128 = 10_000_000_000_000_000_000_000_000;

/// The largest number kept: larger ones are cut to it (they clamp to the
/// same opacity).
pub const NUMBER_LIMIT: u128 = 20_000_000_000_000_000_000_000_000;

/// `1 - 2^-25` in units of `10^-25`: the decimal numbers from here up are
/// the ones that `f32` parsing rounds to `1.0` or more.
pub const F32_ONE_FROM: u128 = 9_999_999_701_976_776_123_046_875;

/// `1 - 2^-25 - 2^-54`, rounded up to units of `10^-25`: the `f64` values
/// that `as f32` rounds to `1.0` or more are those from `1 - 2^-25` up, and
/// their shortest decimal texts (at most 17 significant digits) are the
/// ones from this number up.
pub const F64_TEXT_ONE_FROM: u128 = 9_999_999_701_976_775_567_935_363;

/// The opacity that a number (in units of `10^-25`) becomes when it is
/// taken as a float, clamped to `0.1..=1.0`: fully opaque from `one_from`
/// up (where the float rounds to `1.0`), otherwise the number cut to
/// billionths and clamped.
pub open spec fn opacity_of_number(t: int, one_from: int) -> u32 {
    if t >= one_from {
        OPACITY_SCALE
    } else {
        clamp_opacity(t / 10_000_000_000_000_000)
    }
}

fn opacity_from_number(t: i128, one_from: u128) -> (opacity: u32)
    requires
        -(NUMBER_LIMIT as int) <= t <= NUMBER_LIMIT,
        one_from <= NUMBER_LIMIT,
    ensures
        opacity == opacity_of_number(t as int, one_from as int),
{
    if t >= one_from as i128 {
        OPACITY_SCALE
    } else if t < 0 {
        OPACITY_MIN
    } else {
        clamp_opacity_exec((t / 10_000_000_000_000_000) as i64)
    }
}

/// Keyboard accelerators of the pane actions, in GTK accelerator syntax.
#[derive(Debug, Clone, PartialEq)]
pub struct Keybindings {
    pub new_pane: String,
    pub close_pane: String,
    pub restart_pane: String,
    pub focus_left: String,
    pub focus_down: String,
    pub focus_up: String,
    pub focus_right: String,
    pub move_left: String,
    pub move_down: String,
    pub move_up: String,
    pub move_right: String,
    pub fullscreen: String,
    pub overview: String,
}

/// The theme settings of the configuration file.
#[derive(Debug, Clone, PartialEq)]
pub struct Theme {
    pub source: ThemeSource,
    pub alacritty_config: Option<String>,
    pub kitty_config: Option<String>,
    pub foreground: String,
    pub background: String,
    pub titlebar_background: String,
    pub cursor: String,
    pub accent: String,
    pub transparent_background: bool,
    /// Billionths, as written in the configuration (not clamped).
    pub background_opacity: i64,
}

/// The settings of the configuration file.
#[derive(Debug, Clone, PartialEq)]
pub struct TerminalConfig {
    pub shell: String,
    pub inherit_focused_cwd: bool,
    pub font: String,
    pub theme: Theme,
    pub scrollback_lines: i64,
    pub keybindings: Keybindings,
}

/// The colors the terminals are drawn with.
#[derive(Debug, Clone, PartialEq)]
pub struct EffectiveTheme {
    pub foreground: String,
    pub background: String,
    pub titlebar_background: String,
    pub cursor: String,
    pub accent: String,
    pub transparent_background: bool,
    /// Billionths, within `OPACITY_MIN..=OPACITY_SCALE`.
    pub background_opacity: u32,
    pub prefer_dark: Option<bool>,
    pub ansi_colors: Vec<String>,
}

pub struct EffectiveThemeView {
    pub foreground: Seq<char>,
    pub background: Seq<char>,
    pub titlebar_background: Seq<char>,
    pub cursor: Seq<char>,
    pub accent: Seq<char>,
    pub transparent_background: bool,
    pub background_opacity: u32,
    pub prefer_dark: Option<bool>,
    pub ansi_colors: Seq<Seq<char>>,
}


impl View for EffectiveTheme {
    type V = EffectiveThemeView;

    open spec fn view(&self) -> EffectiveThemeView {
        EffectiveThemeView {
            foreground: self.foreground@,
            background: self.background@,
            titlebar_background: self.titlebar_background@,
            cursor: self.cursor@,
            accent: self.accent@,
            transparent_background: self.transparent_background,
            background_opacity: self.background_opacity,
            prefer_dark: self.prefer_dark,
            ansi_colors: strings(self.ansi_colors@),
        }
    }
}

/// The theme built from the configured colors alone.
pub open spec fn custom_theme(theme: Theme, prefer_dark: Option<bool>) -> EffectiveThemeView {
    EffectiveThemeView {
        foreground: theme.foreground@,
        background: theme.background@,
        titlebar_background: theme.titlebar_background@,
        cursor: theme.cursor@,
        accent: theme.accent@,
        transparent_background: theme.transparent_background,
        background_opacity: clamp_opacity(theme.background_opacity as int),
        prefer_dark,
        ansi_colors: Seq::empty(),
    }
}

/// An imported theme under the transparency switch of the configuration:
/// with transparency on it keeps its own opacity (clamped), with it off it
/// is fully opaque.
pub open spec fn with_configured_opacity(imported: EffectiveThemeView, theme: Theme) -> EffectiveThemeView {
    EffectiveThemeView {
        transparent_background: theme.transparent_background,
        background_opacity: if theme.transparent_background {
            clamp_opacity(imported.background_opacity as int)
        } else {
            OPACITY_SCALE
        },
        ..imported
    }
}

/// The palette of the `System` theme source, for a dark or a light desktop.
pub open spec fn system_palette(dark: bool) -> (Seq<char>, Seq<char>, Seq<char>, Seq<char>, Seq<char>) {
    if dark {
        ("#6D8096"@, "#282a36"@, "#191a21"@, "#f8f8f2"@, "#8be9fd"@)
    } else {
        ("#1f2937"@, "#fafafa"@, "#e5e7eb"@, "#111827"@, "#1c71d8"@)
    }
}

/// The theme the terminals use: an imported Alacritty or Kitty theme with
/// the configured transparency, falling back to the configured colors; the
/// system palette; or the configured colors.
pub open spec fn effective_theme_spec(
    theme: Theme,
    system_is_dark: bool,
    imported: Option<EffectiveThemeView>,
) -> EffectiveThemeView {
    match theme.source {
        ThemeSource::Alacritty | ThemeSource::Kitty => match imported {
            Some(t) => with_configured_opacity(t, theme),
            None => custom_theme(theme, Some(system_is_dark)),
        },
        ThemeSource::System => {
            let (fg, bg, title, cursor, accent) = system_palette(system_is_dark);
            EffectiveThemeView {
                foreground: fg,
                background: bg,
                titlebar_background: title,
                cursor,
                accent,
                ..custom_theme(theme, Some(system_is_dark))
            }
        },
        ThemeSource::Custom => custom_theme(theme, None),
    }
}

impl Default for Keybindings {
    fn default() -> (keys: Self)
        ensures
            is_default_keybindings(keys),
    {
        Keybindings {
            new_pane: "<Ctrl><Shift>Return".to_owned(),
            close_pane: "<Ctrl><Shift>w".to_owned(),
            restart_pane: "<Ctrl><Shift>r".to_owned(),
            focus_left: "<Ctrl><Shift>h".to_owned(),
            focus_down: "<Ctrl><Shift>j".to_owned(),
            focus_up: "<Ctrl><Shift>k".to_owned(),
            focus_right: "<Ctrl><Shift>l".to_owned(),
            move_left: "<Ctrl><Shift><Alt>h".to_owned(),
            move_down: "<Ctrl><Shift><Alt>j".to_owned(),
            move_up: "<Ctrl><Shift><Alt>k".to_owned(),
            move_right: "<Ctrl><Shift><Alt>l".to_owned(),
            fullscreen: "<Ctrl><Shift>f".to_owned(),
            overview: "<Ctrl><Shift>o".to_owned(),
        }
    }
}

/// The theme settings of a fresh configuration.
pub open spec fn is_default_theme(theme: Theme) -> bool {
    &&& theme.source == ThemeSource::Alacritty
    &&& theme.alacritty_config is None
    &&& theme.kitty_config is None
    &&& theme.foreground@ == "#6D8096"@
    &&& theme.background@ == "#282a36"@
    &&& theme.titlebar_background@ == "#191a21"@
    &&& theme.cursor@ == "#f8f8f2"@
    &&& theme.accent@ == "#8be9fd"@
    &&& theme.transparent_background
    &&& theme.background_opacity == 700_000_000
}

/// The keyboard accelerators of a fresh configuration.
pub open spec fn is_default_keybindings(keys: Keybindings) -> bool {
    &&& keys.new_pane@ == "<Ctrl><Shift>Return"@
    &&& keys.close_pane@ == "<Ctrl><Shift>w"@
    &&& keys.restart_pane@ == "<Ctrl><Shift>r"@
    &&& keys.focus_left@ == "<Ctrl><Shift>h"@
    &&& keys.focus_down@ == "<Ctrl><Shift>j"@
    &&& keys.focus_up@ == "<Ctrl><Shift>k"@
    &&& keys.focus_right@ == "<Ctrl><Shift>l"@
    &&& keys.move_left@ == "<Ctrl><Shift><Alt>h"@
    &&& keys.move_down@ == "<Ctrl><Shift><Alt>j"@
    &&& keys.move_up@ == "<Ctrl><Shift><Alt>k"@
    &&& keys.move_right@ == "<Ctrl><Shift><Alt>l"@
    &&& keys.fullscreen@ == "<Ctrl><Shift>f"@
    &&& keys.overview@ == "<Ctrl><Shift>o"@
}

impl Default for Theme {
    fn default() -> (theme: Self)
        ensures
            is_default_theme(theme),
    {
        Theme {
            source: ThemeSource::Alacritty,
            alacritty_config: None,
            kitty_config: None,
            foreground: "#6D8096".to_owned(),
            background: "#282a36".to_owned(),
            titlebar_background: "#191a21".to_owned(),
            cursor: "#f8f8f2".to_owned(),
            accent: "#8be9fd".to_owned(),
            transparent_background: true,
            background_opacity: 700_000_000,
        }
    }
}

impl Default for TerminalConfig {
    fn default() -> (config: Self)
        ensures
            config.shell@ == "fish"@,
            config.inherit_focused_cwd,
            config.font@ == "Monospace 11"@,
            is_default_theme(config.theme),
            config.scrollback_lines == 20_000,
            is_default_keybindings(config.keybindings),
    {
        TerminalConfig {
            shell: "fish".to_owned(),
            inherit_focused_cwd: true,
            font: "Monospace 11".to_owned(),
            theme: Theme::default(),
            scrollback_lines: 20_000,
            keybindings: Keybindings::default(),
        }
    }
}

impl Theme {
    fn custom_effective(&self, prefer_dark: Option<bool>) -> (effective: EffectiveTheme)
        ensures
            effective@ == custom_theme(*self, prefer_dark),
    {
        let effective = EffectiveTheme {
            foreground: self.foreground.clone(),
            background: self.background.clone(),
            titlebar_background: self.titlebar_background.clone(),
            cursor: self.cursor.clone(),
            accent: self.accent.clone(),
            transparent_background: self.transparent_background,
            background_opacity: clamp_opacity_exec(self.background_opacity),
            prefer_dark,
            ansi_colors: Vec::new(),
        };
        assert(effective@.ansi_colors =~= Seq::<Seq<char>>::empty());
        effective
    }
}

fn apply_imported_theme_opacity(theme: &mut EffectiveTheme, source: &Theme)
    ensures
        final(theme)@ == with_configured_opacity(old(theme)@, *source),
{
    if source.transparent_background {
        theme.background_opacity = clamp_opacity_exec(theme.background_opacity as i64);
        theme.transparent_background = true;
    } else {
        theme.transparent_background = false;
        theme.background_opacity = OPACITY_SCALE;
    }
}

impl TerminalConfig {
    /// The theme the terminals use. `imported` is the theme read from the
    /// Alacritty or Kitty configuration, when the source names one and it
    /// could be read; `system_is_dark` is the desktop's preference.
    pub fn effective_theme(&self, system_is_dark: bool, imported: Option<EffectiveTheme>) -> (theme:
        EffectiveTheme)
        ensures
            theme@ == effective_theme_spec(
                self.theme,
                system_is_dark,
                match imported {
                    Some(t) => Some(t@),
                    None => None,
                },
            ),
    {
        match self.theme.source {
            ThemeSource::Alacritty | ThemeSource::Kitty => match imported {
                Some(mut theme) => {
                    apply_imported_theme_opacity(&mut theme, &self.theme);
                    theme
                },
                None => self.theme.custom_effective(Some(system_is_dark)),
            },
            ThemeSource::System => {
                let mut theme = self.theme.custom_effective(Some(system_is_dark));
                if system_is_dark {
                    theme.foreground = "#6D8096".to_owned();
                    theme.background = "#282a36".to_owned();
                    theme.titlebar_background = "#191a21".to_owned();
                    theme.cursor = "#f8f8f2".to_owned();
                    theme.accent = "#8be9fd".to_owned();
                } else {
                    theme.foreground = "#1f2937".to_owned();
                    theme.background = "#fafafa".to_owned();
                    theme.titlebar_background = "#e5e7eb".to_owned();
                    theme.cursor = "#111827".to_owned();
                    theme.accent = "#1c71d8".to_owned();
                }
                theme
            },
            ThemeSource::Custom => self.theme.custom_effective(None),
        }
    }
}


/// Reading a color would cut a character in the middle of its UTF-8 bytes.
#[derive(Debug, Clone, Copy, PartialEq, Eq, Structural)]
pub struct CharBoundaryError;

pub open spec fn is_digit(c: char) -> bool {
    '0' <= c <= '9'
}

pub open spec fn digit_value(c: char) -> int {
    c as int - '0' as int
}

pub open spec fn is_hex_digit(c: char) -> bool {
    ||| '0' <= c <= '9'
    ||| 'a' <= c <= 'f'
    ||| 'A' <= c <= 'F'
}

pub open spec fn hex_value(c: char) -> int {
    if '0' <= c <= '9' {
        c as int - '0' as int
    } else if 'a' <= c <= 'f' {
        c as int - 'a' as int + 10
    } else {
        c as int - 'A' as int + 10
    }
}

fn hex_value_of(c: char) -> (v: Option<u32>)
    ensures
        is_hex_digit(c) ==> v == Some(hex_value(c) as u32),
        !is_hex_digit(c) ==> v is None,
{
    if '0' <= c && c <= '9' {
        Some(c as u32 - '0' as u32)
    } else if 'a' <= c && c <= 'f' {
        Some(c as u32 - 'a' as u32 + 10)
    } else if 'A' <= c && c <= 'F' {
        Some(c as u32 - 'A' as u32 + 10)
    } else {
        None
    }
}

/// A Kitty `rgb:` channel: one digit doubled, two digits as they are, the
/// first two bytes of four; anything else is rejected.
pub open spec fn rgb_part_spec(part: Seq<char>) -> Result<Option<Seq<char>>, CharBoundaryError> {
    let n = byte_len(part);
    if n == 1 {
        Ok(Some(part + part))
    } else if n == 2 {
        Ok(Some(part))
    } else if n == 4 {
        match byte_prefix(part, 2) {
            Some(p) => Ok(Some(p)),
            None => Err(CharBoundaryError),
        }
    } else {
        Ok(None)
    }
}

/// A `#` color body: three or four digits become six by doubling the first
/// three, six are kept, eight lose their alpha pair; anything else is
/// rejected. The result starts with `#`.
pub open spec fn hex_alpha_spec(raw: Seq<char>) -> Result<Option<Seq<char>>, CharBoundaryError> {
    let n = byte_len(raw);
    if n == 3 || n == 4 {
        if raw.len() >= 3 && utf8_width(raw[0]) == 1 && utf8_width(raw[1]) == 1 && utf8_width(raw[2])
            == 1 {
            Ok(Some(seq!['#', raw[0], raw[0], raw[1], raw[1], raw[2], raw[2]]))
        } else {
            Err(CharBoundaryError)
        }
    } else if n == 6 {
        Ok(Some(seq!['#'] + raw))
    } else if n == 8 {
        match byte_prefix(raw, 6) {
            Some(p) => Ok(Some(seq!['#'] + p)),
            None => Err(CharBoundaryError),
        }
    } else {
        Ok(None)
    }
}

/// A Kitty color value (`0x…`, `#…` or `rgb:r/g/b`) as a `#` color.
pub open spec fn kitty_color_spec(raw: Seq<char>) -> Result<Option<Seq<char>>, CharBoundaryError> {
    let value = trim_spec(raw, CharClass::WhiteSpace);
    if value.len() >= 2 && value[0] == '0' && value[1] == 'x' {
        Ok(Some(seq!['#'] + value.skip(2)))
    } else if value.len() >= 1 && value[0] == '#' {
        hex_alpha_spec(value.skip(1))
    } else if value.len() >= 4 && value.take(4) == "rgb:"@ {
        let parts = split_spec(value.skip(4), '/');
        if parts.len() < 3 {
            Ok(None)
        } else {
            match rgb_part_spec(parts[0]) {
                Err(e) => Err(e),
                Ok(None) => Ok(None),
                Ok(Some(red)) => match rgb_part_spec(parts[1]) {
                    Err(e) => Err(e),
                    Ok(None) => Ok(None),
                    Ok(Some(green)) => match rgb_part_spec(parts[2]) {
                        Err(e) => Err(e),
                        Ok(None) => Ok(None),
                        Ok(Some(blue)) => Ok(Some(seq!['#'] + red + green + blue)),
                    },
                },
            }
        }
    } else {
        Ok(None)
    }
}

/// A two-byte hexadecimal field read as a byte (`u8::from_str_radix` with
/// radix 16), 0 when it does not read as one.
pub open spec fn hex_byte(s: Seq<char>) -> int {
    if s.len() == 2 && is_hex_digit(s[0]) && is_hex_digit(s[1]) {
        16 * hex_value(s[0]) + hex_value(s[1])
    } else if s.len() == 2 && s[0] == '+' && is_hex_digit(s[1]) {
        hex_value(s[1])
    } else {
        0
    }
}

/// Whether the luminance `0.2126 r + 0.7152 g + 0.0722 b` of a color is
/// below 128 when computed in `f32`: exactly (in ten-thousandths) below
/// 128, or the one color, `(210, 101, 154)`, whose exact luminance of 128
/// `f32` arithmetic rounds below it.
pub open spec fn luminance_is_dark(r: int, g: int, b: int) -> bool {
    ||| 2126 * r + 7152 * g + 722 * b < 1_280_000
    ||| (r == 210 && g == 101 && b == 154)
}

/// Whether a `#rrggbb` background is dark by `luminance_is_dark`.
/// Backgrounds shorter than six bytes count as dark.
pub open spec fn is_dark_spec(background: Seq<char>) -> Result<bool, CharBoundaryError> {
    let raw = trim_start_spec(background, CharClass::Only('#'));
    if byte_len(raw) < 6 {
        Ok(true)
    } else {
        match (byte_prefix(raw, 2), byte_prefix(raw, 4), byte_prefix(raw, 6)) {
            (Some(p2), Some(p4), Some(p6)) => {
                let r = hex_byte(p2);
                let g = hex_byte(p4.skip(p2.len() as int));
                let b = hex_byte(p6.skip(p4.len() as int));
                Ok(luminance_is_dark(r, g, b))
            },
            _ => Err(CharBoundaryError),
        }
    }
}

pub fn normalize_kitty_rgb_part(part: &[char]) -> (normalized: Result<Option<Vec<char>>, CharBoundaryError>)
    ensures
        match rgb_part_spec(part@) {
            Ok(Some(p)) => normalized matches Ok(Some(v)) && v@ == p,
            Ok(None) => normalized matches Ok(None),
            Err(_) => normalized is Err,
        },
{
    let n = byte_len_upto(part, 16);
    if n == 1 {
        let mut doubled = copy_range(part, 0, part.len());
        let mut i: usize = 0;
        assert(part@.subrange(0, part@.len() as int) =~= part@);
        while i < part.len()
            invariant
                0 <= i <= part@.len(),
                doubled@ == part@ + part@.take(i as int),
            decreases part@.len() - i,
        {
            doubled.push(part[i]);
            assert(part@.take(i + 1) =~= part@.take(i as int).push(part@[i as int]));
            i = i + 1;
        }
        assert(part@.take(i as int) =~= part@);
        Ok(Some(doubled))
    } else if n == 2 {
        let copy = copy_range(part, 0, part.len());
        assert(part@.subrange(0, part@.len() as int) =~= part@);
        Ok(Some(copy))
    } else if n == 4 {
        match byte_prefix_of(part, 2) {
            Some(p) => Ok(Some(p)),
            None => Err(CharBoundaryError),
        }
    } else {
        Ok(None)
    }
}

fn is_single_byte(c: char) -> (single: bool)
    ensures
        single == (utf8_width(c) == 1),
{
    (c as u32) < 0x80
}

pub fn normalize_hex_alpha(raw: &[char]) -> (normalized: Result<Option<Vec<char>>, CharBoundaryError>)
    ensures
        match hex_alpha_spec(raw@) {
            Ok(Some(p)) => normalized matches Ok(Some(v)) && v@ == p,
            Ok(None) => normalized matches Ok(None),
            Err(_) => normalized is Err,
        },
{
    let n = byte_len_upto(raw, 16);
    if n == 3 || n == 4 {
        if raw.len() >= 3 && is_single_byte(raw[0]) && is_single_byte(raw[1]) && is_single_byte(
            raw[2],
        ) {
            let mut color: Vec<char> = Vec::new();
            color.push('#');
            color.push(raw[0]);
            color.push(raw[0]);
            color.push(raw[1]);
            color.push(raw[1]);
            color.push(raw[2]);
            color.push(raw[2]);
            assert(color@ =~= seq!['#', raw@[0], raw@[0], raw@[1], raw@[1], raw@[2], raw@[2]]);
            Ok(Some(color))
        } else {
            Err(CharBoundaryError)
        }
    } else if n == 6 {
        Ok(Some(hash_then(raw)))
    } else if n == 8 {
        match byte_prefix_of(raw, 6) {
            Some(p) => Ok(Some(hash_then(p.as_slice()))),
            None => Err(CharBoundaryError),
        }
    } else {
        Ok(None)
    }
}

/// `#` followed by `body`.
fn hash_then(body: &[char]) -> (color: Vec<char>)
    ensures
        color@ == seq!['#'] + body@,
{
    let mut color: Vec<char> = Vec::new();
    color.push('#');
    let mut i: usize = 0;
    while i < body.len()
        invariant
            0 <= i <= body@.len(),
            color@ == seq!['#'] + body@.take(i as int),
        decreases body@.len() - i,
    {
        color.push(body[i]);
        assert(body@.take(i + 1) =~= body@.take(i as int).push(body@[i as int]));
        i = i + 1;
    }
    assert(body@.take(i as int) =~= body@);
    color
}

fn append_chars(target: &mut Vec<char>, more: &[char])
    ensures
        final(target)@ == old(target)@ + more@,
{
    let mut i: usize = 0;
    while i < more.len()
        invariant
            0 <= i <= more@.len(),
            target@ == old(target)@ + more@.take(i as int),
        decreases more@.len() - i,
    {
        target.push(more[i]);
        assert(more@.take(i + 1) =~= more@.take(i as int).push(more@[i as int]));
        i = i + 1;
    }
    assert(more@.take(i as int) =~= more@);
}

pub fn parse_kitty_color(raw: &[char]) -> (color: Result<Option<Vec<char>>, CharBoundaryError>)
    ensures
        match kitty_color_spec(raw@) {
            Ok(Some(p)) => color matches Ok(Some(v)) && v@ == p,
            Ok(None) => color matches Ok(None),
            Err(_) => color is Err,
        },
{
    let value = trim(raw, CharClass::WhiteSpace);
    proof {
        lemma_trim_len(raw@, CharClass::WhiteSpace);
    }
    if value.len() >= 2 && value[0] == '0' && value[1] == 'x' {
        let rest = copy_range(value.as_slice(), 2, value.len());
        assert(rest@ =~= value@.skip(2));
        return Ok(Some(hash_then(rest.as_slice())));
    }
    if value.len() >= 1 && value[0] == '#' {
        let rest = copy_range(value.as_slice(), 1, value.len());
        assert(rest@ =~= value@.skip(1));
        return normalize_hex_alpha(rest.as_slice());
    }
    if value.len() >= 4 {
        let head = copy_range(value.as_slice(), 0, 4);
        assert(head@ =~= value@.take(4));
        if chars_are(head.as_slice(), "rgb:") {
            let rest = copy_range(value.as_slice(), 4, value.len());
            assert(rest@ =~= value@.skip(4));
            let parts = split_chars(rest.as_slice(), '/');
            if parts.len() < 3 {
                return Ok(None);
            }
            proof {
                lemma_split_parts_short(rest@, '/');
            }
            assert(parts@[0]@ == split_spec(rest@, '/')[0]);
            assert(parts@[1]@ == split_spec(rest@, '/')[1]);
            assert(parts@[2]@ == split_spec(rest@, '/')[2]);
            let red = match normalize_kitty_rgb_part(parts[0].as_slice()) {
                Err(e) => return Err(e),
                Ok(None) => return Ok(None),
                Ok(Some(red)) => red,
            };
            let green = match normalize_kitty_rgb_part(parts[1].as_slice()) {
                Err(e) => return Err(e),
                Ok(None) => return Ok(None),
                Ok(Some(green)) => green,
            };
            let blue = match normalize_kitty_rgb_part(parts[2].as_slice()) {
                Err(e) => return Err(e),
                Ok(None) => return Ok(None),
                Ok(Some(blue)) => blue,
            };
            let mut color = hash_then(red.as_slice());
            append_chars(&mut color, green.as_slice());
            append_chars(&mut color, blue.as_slice());
            return Ok(Some(color));
        }
    }
    Ok(None)
}


fn hex_byte_of(s: &[char]) -> (value: u32)
    ensures
        value == hex_byte(s@),
        value <= 255,
{
    if s.len() == 2 {
        match (hex_value_of(s[0]), hex_value_of(s[1])) {
            (Some(high), Some(low)) => return 16 * high + low,
            _ => {},
        }
        if s[0] == '+' {
            match hex_value_of(s[1]) {
                Some(low) => return low,
                None => {},
            }
        }
    }
    0
}

pub fn is_dark_background(background: &[char]) -> (dark: Result<bool, CharBoundaryError>)
    ensures
        match is_dark_spec(background@) {
            Ok(b) => dark == Ok::<bool, CharBoundaryError>(b),
            Err(_) => dark is Err,
        },
{
    let raw = trim_start(background, CharClass::Only('#'));
    if byte_len_upto(raw.as_slice(), 6) < 6 {
        return Ok(true);
    }
    let (p2, p4, p6) = match (
        byte_prefix_of(raw.as_slice(), 2),
        byte_prefix_of(raw.as_slice(), 4),
        byte_prefix_of(raw.as_slice(), 6),
    ) {
        (Some(p2), Some(p4), Some(p6)) => (p2, p4, p6),
        _ => return Err(CharBoundaryError),
    };
    proof {
        lemma_byte_prefix_grows(raw@, 2, 4);
        lemma_byte_prefix_grows(raw@, 4, 6);
    }
    let green = copy_range(p4.as_slice(), p2.len(), p4.len());
    let blue = copy_range(p6.as_slice(), p4.len(), p6.len());
    assert(green@ =~= p4@.skip(p2@.len() as int));
    assert(blue@ =~= p6@.skip(p4@.len() as int));
    let r = hex_byte_of(p2.as_slice());
    let g = hex_byte_of(green.as_slice());
    let b = hex_byte_of(blue.as_slice());
    Ok(2126 * r + 7152 * g + 722 * b < 1_280_000 || (r == 210 && g == 101 && b == 154))
}

/// A line split into key and value: around the first `=` (both sides
/// trimmed), or else its first two words.
pub open spec fn key_value_spec(line: Seq<char>) -> Option<(Seq<char>, Seq<char>)> {
    match first_index(line, '=') {
        Some(k) => Some(
            (
                trim_spec(line.take(k), CharClass::WhiteSpace),
                trim_spec(line.skip(k + 1), CharClass::WhiteSpace),
            ),
        ),
        None => {
            let w = words_spec(line);
            if w.len() >= 2 {
                Some((w[0], w[1]))
            } else {
                None
            }
        },
    }
}

pub proof fn lemma_first_index_bounds(s: Seq<char>, c: char)
    ensures
        first_index(s, c) matches Some(k) ==> 0 <= k < s.len() && s[k] == c,
    decreases s.len(),
{
    if s.len() > 0 && s[0] != c {
        lemma_first_index_bounds(s.skip(1), c);
    }
}

pub fn parse_key_value_pair(line: &[char]) -> (pair: Option<(Vec<char>, Vec<char>)>)
    ensures
        match key_value_spec(line@) {
            Some((k, v)) => pair matches Some(p) && p.0@ == k && p.1@ == v,
            None => pair is None,
        },
{
    proof {
        lemma_first_index_bounds(line@, '=');
    }
    let n = line.len();
    match find_char(line, '=') {
        Some(k) => {
            let key = copy_range(line, 0, k);
            let value = copy_range(line, k + 1, n);
            assert(key@ =~= line@.take(k as int));
            assert(value@ =~= line@.skip(k + 1));
            Some((trim(key.as_slice(), CharClass::WhiteSpace), trim(value.as_slice(), CharClass::WhiteSpace)))
        },
        None => {
            let w = words(line);
            if w.len() >= 2 {
                let key = copy_range(w[0].as_slice(), 0, w[0].len());
                let value = copy_range(w[1].as_slice(), 0, w[1].len());
                assert(key@ =~= w@[0]@);
                assert(value@ =~= w@[1]@);
                Some((key, value))
            } else {
                None
            }
        },
    }
}

pub open spec fn all_digits(s: Seq<char>) -> bool {
    forall|i: int| 0 <= i < s.len() ==> is_digit(#[trigger] s[i])
}

/// The number written by the decimal digits `s`.
pub open spec fn digits_value(s: Seq<char>) -> int
    decreases s.len(),
{
    if s.len() == 0 {
        0
    } else {
        digits_value(s.drop_last()) * 10 + digit_value(s.last())
    }
}

/// The ANSI color slot named by a Kitty key `colorN` (`N` read as a
/// `usize`, optionally after `+`), when it is one of the sixteen.
pub open spec fn color_index_spec(key: Seq<char>) -> Option<int> {
    if key.len() >= 5 && key.take(5) == "color"@ {
        let text = key.skip(5);
        let digits = if text.len() > 0 && text[0] == '+' {
            text.skip(1)
        } else {
            text
        };
        if digits.len() > 0 && all_digits(digits) && digits_value(digits) < 16 {
            Some(digits_value(digits))
        } else {
            None
        }
    } else {
        None
    }
}

fn color_index(key: &[char]) -> (index: Option<usize>)
    ensures
        match color_index_spec(key@) {
            Some(i) => index == Some(i as usize),
            None => index is None,
        },
        index matches Some(x) ==> x < 16 && color_index_spec(key@) == Some(x as int),
{
    if key.len() < 5 {
        return None;
    }
    let head = copy_range(key, 0, 5);
    assert(head@ =~= key@.take(5));
    if !chars_are(head.as_slice(), "color") {
        return None;
    }
    let text = copy_range(key, 5, key.len());
    assert(text@ =~= key@.skip(5));
    let digits = if text.len() > 0 && text[0] == '+' {
        let d = copy_range(text.as_slice(), 1, text.len());
        assert(d@ =~= text@.skip(1));
        d
    } else {
        text
    };
    if digits.len() == 0 {
        return None;
    }
    proof {
        if all_digits(digits@) {
            lemma_digits_value_nonneg(digits@);
        }
    }
    match digits_capped(digits.as_slice(), 16) {
        Some(v) => if v < 16 {
            Some(v as usize)
        } else {
            None
        },
        None => None,
    }
}

/// The digit at position `i` of `d`, zero outside `d`.
pub open spec fn digit_or_zero(d: Seq<char>, i: int) -> int {
    if 0 <= i < d.len() {
        digit_value(d[i])
    } else {
        0
    }
}

pub open spec fn pow10(n: nat) -> int
    decreases n,
{
    if n == 0 {
        1
    } else {
        10 * pow10((n - 1) as nat)
    }
}

/// The whole part of the number written by the digits `d` with the decimal
/// point after the first `point` of them (in front of them when `point` is
/// not positive, behind trailing zeros when it exceeds their count).
pub open spec fn shifted_whole(d: Seq<char>, point: int) -> int {
    if point <= 0 {
        0
    } else if point <= d.len() {
        digits_value(d.take(point))
    } else {
        digits_value(d) * pow10((point - d.len()) as nat)
    }
}

/// The first `k` decimals of that number, read as a whole number.
pub open spec fn fraction_units(d: Seq<char>, point: int, k: nat) -> int
    decreases k,
{
    if k == 0 {
        0
    } else {
        fraction_units(d, point, (k - 1) as nat) * 10 + digit_or_zero(d, point + k - 1)
    }
}

/// That number in units of `10^-25`: the whole part and the first 25
/// decimals (the rest is cut off).
pub open spec fn shifted_units(d: Seq<char>, point: int) -> int {
    shifted_whole(d, point) * NUMBER_SCALE + fraction_units(d, point, 25)
}

pub open spec fn exponent_negative(x: Seq<char>) -> bool {
    x.len() > 0 && x[0] == '-'
}

pub open spec fn exponent_digits(x: Seq<char>) -> Seq<char> {
    if x.len() > 0 && (x[0] == '+' || x[0] == '-') {
        x.skip(1)
    } else {
        x
    }
}

/// The exponent written after `e`: an optional sign, then at least one digit.
pub open spec fn exponent_spec(x: Seq<char>) -> Option<int> {
    let digits = exponent_digits(x);
    if digits.len() > 0 && all_digits(digits) {
        Some(
            if exponent_negative(x) {
                -digits_value(digits)
            } else {
                digits_value(digits)
            },
        )
    } else {
        None
    }
}

/// An unsigned number in units of `10^-25`, limited to `NUMBER_LIMIT`: `inf` or `infinity`
/// (in any letter case), or digits with at most one `.` among them, at least
/// one digit, then optionally `e` (in any case) and an exponent.
pub open spec fn magnitude_spec(body: Seq<char>) -> Option<int> {
    let lower = ascii_lowercase(body);
    if lower == "inf"@ || lower == "infinity"@ {
        Some(NUMBER_LIMIT as int)
    } else {
        let (whole, fraction, exponent_text) = number_parts(body);
        let exponent = match exponent_text {
            Some(x) => exponent_spec(x),
            None => Some(0int),
        };
        if all_digits(whole) && all_digits(fraction) && whole.len() + fraction.len() > 0
            && exponent is Some {
            let t = shifted_units(whole + fraction, whole.len() + exponent->0);
            Some(
                if t > NUMBER_LIMIT {
                    NUMBER_LIMIT as int
                } else {
                    t
                },
            )
        } else {
            None
        }
    }
}

/// The digits before and after the `.`, and the text after the `e` (in
/// any case) when there is one.
pub open spec fn number_parts(body: Seq<char>) -> (Seq<char>, Seq<char>, Option<Seq<char>>) {
    let (mantissa, exponent) = match first_index(ascii_lowercase(body), 'e') {
        Some(k) => (body.take(k), Some(body.skip(k + 1))),
        None => (body, None),
    };
    match first_index(mantissa, '.') {
        Some(k) => (mantissa.take(k), mantissa.skip(k + 1), exponent),
        None => (mantissa, Seq::<char>::empty(), exponent),
    }
}

/// A number as Rust's float parser reads it, `nan` left out: an optional
/// sign, then a magnitude; in units of `10^-25` (cut, not rounded), limited
/// to `-NUMBER_LIMIT..=NUMBER_LIMIT` (which keeps the opacity it clamps to).
pub open spec fn number_spec(s: Seq<char>) -> Option<int> {
    let negative = s.len() > 0 && s[0] == '-';
    let body = if s.len() > 0 && (s[0] == '+' || s[0] == '-') {
        s.skip(1)
    } else {
        s
    };
    match magnitude_spec(body) {
        Some(m) => Some(
            if negative {
                -m
            } else {
                m
            },
        ),
        None => None,
    }
}

proof fn lemma_pow10_grows(n: nat)
    ensures
        pow10(n) >= 1,
        n >= 1 ==> pow10(n) >= 10,
    decreases n,
{
    if n > 0 {
        lemma_pow10_grows((n - 1) as nat);
    }
}

/// Moving the decimal point more than 25 places in front of the digits,
/// or behind all of them, no longer changes the limited value.
proof fn lemma_point_clamp(d: Seq<char>, point: int, clamped: int)
    requires
        all_digits(d),
        clamped == if point < -25 {
            -25
        } else if point > d.len() + 1 {
            d.len() + 1int
        } else {
            point
        },
    ensures
        (if shifted_units(d, point) > NUMBER_LIMIT {
            NUMBER_LIMIT as int
        } else {
            shifted_units(d, point)
        }) == (if shifted_units(d, clamped) > NUMBER_LIMIT {
            NUMBER_LIMIT as int
        } else {
            shifted_units(d, clamped)
        }),
{
    if point < -25 {
        lemma_fraction_outside(d, point, 25);
        lemma_fraction_outside(d, clamped, 25);
    } else if point > d.len() + 1 {
        lemma_fraction_outside(d, point, 25);
        lemma_fraction_outside(d, clamped, 25);
        lemma_point_behind(d, point);
        lemma_point_behind(d, clamped);
    }
}

/// Decimals taken wholly in front of or behind the digits are zeros.
proof fn lemma_fraction_outside(d: Seq<char>, point: int, k: nat)
    requires
        point + k <= 0 || point >= d.len(),
    ensures
        fraction_units(d, point, k) == 0,
    decreases k,
{
    if k > 0 {
        lemma_fraction_outside(d, point, (k - 1) as nat);
    }
}

/// With the point behind all the digits, the whole part is zero when the
/// digits are, and at least ten otherwise.
proof fn lemma_point_behind(d: Seq<char>, point: int)
    requires
        all_digits(d),
        point > d.len(),
    ensures
        digits_value(d) == 0 ==> shifted_whole(d, point) == 0,
        digits_value(d) != 0 ==> shifted_whole(d, point) >= 10,
{
    lemma_digits_value_nonneg(d);
    let v = digits_value(d);
    let p = pow10((point - d.len()) as nat);
    lemma_pow10_grows((point - d.len()) as nat);
    assert(shifted_whole(d, point) == v * p);
    if v == 0 {
        assert(v * p == 0) by (nonlinear_arith)
            requires
                v == 0,
        ;
    } else {
        assert(v * p >= p) by (nonlinear_arith)
            requires
                v >= 1,
                p >= 1,
        ;
    }
}

/// `min(digits_value(s), cap)` for decimal digits `s`, `None` when `s`
/// holds anything else.
fn digits_capped(s: &[char], cap: u128) -> (value: Option<u128>)
    requires
        1 <= cap <= 0x1_0000_0000_0000_0000_0000_0000,
    ensures
        match value {
            Some(v) => all_digits(s@) && v == if digits_value(s@) < cap {
                digits_value(s@)
            } else {
                cap as int
            },
            None => !all_digits(s@),
        },
{
    let mut v: u128 = 0;
    let mut i: usize = 0;
    assert(s@.take(0) =~= Seq::<char>::empty());
    while i < s.len()
        invariant
            0 <= i <= s@.len(),
            1 <= cap <= 0x1_0000_0000_0000_0000_0000_0000,
            all_digits(s@.take(i as int)),
            v == if digits_value(s@.take(i as int)) < cap {
                digits_value(s@.take(i as int))
            } else {
                cap as int
            },
            digits_value(s@.take(i as int)) >= 0,
        decreases s@.len() - i,
    {
        let c = s[i];
        if !('0' <= c && c <= '9') {
            assert(!all_digits(s@)) by {
                assert(!is_digit(s@[i as int]));
            }
            return None;
        }
        assert(s@.take(i + 1).drop_last() =~= s@.take(i as int));
        assert(s@.take(i + 1).last() == c);
        let d = c as u128 - '0' as u128;
        let next = v * 10 + d;
        v = if next < cap {
            next
        } else {
            cap
        };
        assert(all_digits(s@.take(i + 1))) by {
            assert forall|j: int| 0 <= j < i + 1 implies is_digit(#[trigger] s@.take(i + 1)[j]) by {
                if j < i {
                    assert(s@.take(i + 1)[j] == s@.take(i as int)[j]);
                }
            }
        }
        i = i + 1;
    }
    assert(s@.take(i as int) =~= s@);
    Some(v)
}

/// The sign and the exponent, limited to `cap`, written after `e`.
fn read_exponent(x: &[char], cap: u128) -> (parts: Option<(bool, u128)>)
    requires
        1 <= cap <= 0x1_0000_0000_0000_0000_0000_0000,
    ensures
        match parts {
            Some((negative, e)) => exponent_spec(x@) is Some && negative == exponent_negative(x@)
                && e == if digits_value(exponent_digits(x@)) < cap {
                digits_value(exponent_digits(x@))
            } else {
                cap as int
            },
            None => exponent_spec(x@) is None,
        },
{
    let negative = x.len() > 0 && x[0] == '-';
    let digits = if x.len() > 0 && (x[0] == '+' || x[0] == '-') {
        copy_range(x, 1, x.len())
    } else {
        copy_range(x, 0, x.len())
    };
    assert(digits@ =~= exponent_digits(x@));
    if digits.len() == 0 {
        return None;
    }
    match digits_capped(digits.as_slice(), cap) {
        Some(e) => Some((negative, e)),
        None => None,
    }
}

/// The digit at position `i` of the digits `d`, zero outside them.
fn digit_at(d: &[char], i: i128) -> (v: u64)
    requires
        all_digits(d@),
    ensures
        v == digit_or_zero(d@, i as int),
        v <= 9,
{
    if 0 <= i && i < d.len() as i128 {
        let k = i as usize;
        assert(is_digit(d@[k as int]));
        d[k] as u64 - '0' as u64
    } else {
        0
    }
}

fn split_number(body: &[char]) -> (parts: (Vec<char>, Vec<char>, Option<Vec<char>>))
    ensures
        number_parts(body@) == (parts.0@, parts.1@, match parts.2 {
            Some(x) => Some(x@),
            None => None,
        }),
{
    let lower = lowercase_ascii(body);
    let n = body.len();
    assert(lower@.len() == body@.len());
    let (mantissa, exponent) = match find_char(lower.as_slice(), 'e') {
        Some(k) => {
            let mantissa = copy_range(body, 0, k);
            let x = copy_range(body, k + 1, n);
            assert(mantissa@ =~= body@.take(k as int));
            assert(x@ =~= body@.skip(k + 1));
            (mantissa, Some(x))
        },
        None => {
            let mantissa = copy_range(body, 0, n);
            assert(mantissa@ =~= body@);
            (mantissa, None)
        },
    };
    let m = mantissa.len();
    match find_char(mantissa.as_slice(), '.') {
        Some(k) => {
            let w = copy_range(mantissa.as_slice(), 0, k);
            let f = copy_range(mantissa.as_slice(), k + 1, m);
            assert(w@ =~= mantissa@.take(k as int));
            assert(f@ =~= mantissa@.skip(k + 1));
            (w, f, exponent)
        },
        None => {
            let f: Vec<char> = Vec::new();
            assert(f@ =~= Seq::<char>::empty());
            (mantissa, f, exponent)
        },
    }
}

/// `shifted_units(digits, point)` limited to `NUMBER_LIMIT`, for a point
/// at most 25 places in front of the digits and at most one behind them.
fn limited_units(digits: &[char], point: i128) -> (t: u128)
    requires
        all_digits(digits@),
        -25 <= point <= digits@.len() + 1,
    ensures
        t == if shifted_units(digits@, point as int) > NUMBER_LIMIT {
            NUMBER_LIMIT as int
        } else {
            shifted_units(digits@, point as int)
        },
{
    let l = digits.len();
    proof {
        lemma_digits_value_nonneg(digits@);
    }
    let whole_part: u128 = if point <= 0 {
        0
    } else if point <= l as i128 {
        let head = copy_range(digits, 0, point as usize);
        assert(head@ =~= digits@.take(point as int));
        assert(all_digits(head@)) by {
            assert forall|j: int| 0 <= j < head@.len() implies is_digit(#[trigger] head@[j]) by {
                assert(head@[j] == digits@[j]);
            }
        }
        proof {
            lemma_digits_value_nonneg(head@);
        }
        match digits_capped(head.as_slice(), 2) {
            Some(v) => v,
            None => 0,
        }
    } else {
        let v = digits_capped(digits, 1);
        proof {
            reveal_with_fuel(pow10, 2);
            assert(shifted_whole(digits@, point as int) == digits_value(digits@) * 10);
        }
        match v {
            Some(1) => 2,
            _ => 0,
        }
    };
    assert(whole_part == if shifted_whole(digits@, point as int) < 2 {
        shifted_whole(digits@, point as int)
    } else {
        2
    });
    let fraction = fraction_digits(digits, point);
    let t = whole_part * NUMBER_SCALE + fraction;
    if t > NUMBER_LIMIT {
        NUMBER_LIMIT
    } else {
        t
    }
}

/// The first 25 decimals of the number, as a whole number.
fn fraction_digits(digits: &[char], point: i128) -> (f: u128)
    requires
        all_digits(digits@),
        -25 <= point <= digits@.len() + 1,
    ensures
        f == fraction_units(digits@, point as int, 25),
        f < NUMBER_SCALE,
{
    let mut f: u128 = 0;
    let mut bound: u128 = 1;
    let mut k: usize = 0;
    let n = digits.len();
    while k < 25
        invariant
            0 <= k <= 25,
            n == digits@.len(),
            -25 <= point <= digits@.len() + 1,
            all_digits(digits@),
            f == fraction_units(digits@, point as int, k as nat),
            f < bound,
            bound == pow10(k as nat),
            bound <= NUMBER_SCALE,
        decreases 25 - k,
    {
        let d = digit_at(digits, point + k as i128);
        proof {
            if k < 24 {
                lemma_pow10_small((k + 1) as nat);
            } else {
                reveal_with_fuel(pow10, 26);
            }
        }
        f = f * 10 + d as u128;
        bound = bound * 10;
        k = k + 1;
    }
    proof {
        reveal_with_fuel(pow10, 26);
    }
    f
}

proof fn lemma_pow10_small(n: nat)
    requires
        n <= 25,
    ensures
        pow10(n) <= NUMBER_SCALE,
    decreases 25 - n,
{
    if n < 25 {
        lemma_pow10_small(n + 1);
        lemma_pow10_grows(n);
        assert(pow10(n + 1) == 10 * pow10(n));
    } else {
        reveal_with_fuel(pow10, 26);
    }
}

fn parse_magnitude(body: &[char]) -> (m: Option<i128>)
    ensures
        match magnitude_spec(body@) {
            Some(t) => m matches Some(v) && v == t,
            None => m is None,
        },
        m matches Some(t) ==> 0 <= t <= NUMBER_LIMIT,
{
    let lower = lowercase_ascii(body);
    if chars_are(lower.as_slice(), "inf") || chars_are(lower.as_slice(), "infinity") {
        return Some(NUMBER_LIMIT as i128);
    }
    let (whole, fraction, exponent) = split_number(body);
    if whole.len() == 0 && fraction.len() == 0 {
        return None;
    }
    if digits_capped(whole.as_slice(), 1).is_none() || digits_capped(fraction.as_slice(), 1).is_none() {
        return None;
    }
    let mut digits = copy_range(whole.as_slice(), 0, whole.len());
    append_chars(&mut digits, fraction.as_slice());
    assert(digits@ =~= whole@ + fraction@);
    assert(all_digits(digits@)) by {
        assert forall|j: int| 0 <= j < digits@.len() implies is_digit(#[trigger] digits@[j]) by {
            if j < whole@.len() {
                assert(digits@[j] == whole@[j]);
            } else {
                assert(digits@[j] == fraction@[j - whole@.len()]);
            }
        }
    }
    let w = whole.len();
    let l = digits.len();
    let cap: u128 = l as u128 + 30;
    let ghost exact: int = if exponent is Some {
        exponent_spec(exponent->0@)->0
    } else {
        0
    };
    let (negative, e) = match &exponent {
        Some(x) => match read_exponent(x.as_slice(), cap) {
            Some(parts) => parts,
            None => return None,
        },
        None => (false, 0u128),
    };
    proof {
        if exponent is Some {
            lemma_digits_value_nonneg(exponent_digits(exponent->0@));
        }
    }
    let point: i128 = if !negative {
        if w as i128 + e as i128 >= l as i128 + 1 {
            l as i128 + 1
        } else {
            w as i128 + e as i128
        }
    } else {
        if e as i128 >= w as i128 + 25 {
            -25
        } else {
            w as i128 - e as i128
        }
    };
    proof {
        lemma_point_clamp(digits@, w + exact, point as int);
    }
    let t = limited_units(digits.as_slice(), point);
    Some(t as i128)
}

fn parse_numeric(s: &[char]) -> (value: Option<i128>)
    ensures
        match number_spec(s@) {
            Some(t) => value matches Some(v) && v == t,
            None => value is None,
        },
        value matches Some(t) ==> -(NUMBER_LIMIT as int) <= t <= NUMBER_LIMIT,
{
    let negative = s.len() > 0 && s[0] == '-';
    let body = if s.len() > 0 && (s[0] == '+' || s[0] == '-') {
        let b = copy_range(s, 1, s.len());
        assert(b@ =~= s@.skip(1));
        b
    } else {
        let b = copy_range(s, 0, s.len());
        assert(b@ =~= s@);
        b
    };
    match parse_magnitude(body.as_slice()) {
        Some(m) => Some(
            if negative {
                -m
            } else {
                m
            },
        ),
        None => None,
    }
}

pub proof fn lemma_digits_value_nonneg(s: Seq<char>)
    requires
        all_digits(s),
    ensures
        digits_value(s) >= 0,
    decreases s.len(),
{
    if s.len() > 0 {
        assert(is_digit(s[s.len() - 1]));
        assert(all_digits(s.drop_last())) by {
            assert forall|i: int| 0 <= i < s.drop_last().len() implies is_digit(
                #[trigger] s.drop_last()[i],
            ) by {
                assert(s.drop_last()[i] == s[i]);
            }
        }
        lemma_digits_value_nonneg(s.drop_last());
    }
}


/// The default ANSI palette, slots 0 to 15.
pub open spec fn ansi_defaults() -> Seq<Seq<char>> {
    seq![
        "#000000"@,
        "#D32E2E"@,
        "#28A745"@,
        "#F0AD4E"@,
        "#268BD2"@,
        "#8A3FFC"@,
        "#2AA198"@,
        "#BEBEBE"@,
        "#586e75"@,
        "#DC322F"@,
        "#859900"@,
        "#B58900"@,
        "#6C71C4"@,
        "#D33682"@,
        "#2AA198"@,
        "#FDF6E3"@,
    ]
}

fn ansi_default_chars() -> (palette: Vec<Vec<char>>)
    ensures
        views(palette@) == ansi_defaults(),
        palette@.len() == 16,
{
    let mut palette: Vec<Vec<char>> = Vec::new();
    palette.push(chars_of("#000000"));
    palette.push(chars_of("#D32E2E"));
    palette.push(chars_of("#28A745"));
    palette.push(chars_of("#F0AD4E"));
    palette.push(chars_of("#268BD2"));
    palette.push(chars_of("#8A3FFC"));
    palette.push(chars_of("#2AA198"));
    palette.push(chars_of("#BEBEBE"));
    palette.push(chars_of("#586e75"));
    palette.push(chars_of("#DC322F"));
    palette.push(chars_of("#859900"));
    palette.push(chars_of("#B58900"));
    palette.push(chars_of("#6C71C4"));
    palette.push(chars_of("#D33682"));
    palette.push(chars_of("#2AA198"));
    palette.push(chars_of("#FDF6E3"));
    assert(views(palette@) =~= ansi_defaults());
    palette
}

/// What the lines of a Kitty theme have set so far.
pub struct KittyScan {
    pub foreground: Option<Seq<char>>,
    pub background: Option<Seq<char>>,
    pub cursor: Option<Seq<char>>,
    pub accent: Option<Seq<char>>,
    pub titlebar: Option<Seq<char>>,
    /// Billionths, within `OPACITY_MIN..=OPACITY_SCALE`.
    pub opacity: int,
    pub ansi: Seq<Seq<char>>,
}

pub open spec fn kitty_start() -> KittyScan {
    KittyScan {
        foreground: None,
        background: None,
        cursor: None,
        accent: None,
        titlebar: None,
        opacity: OPACITY_SCALE as int,
        ansi: ansi_defaults(),
    }
}

/// One line of a Kitty theme applied to what was read before it. Blank
/// lines, comments and lines that are no key/value pair change nothing; a
/// `foreground`, `cursor` or `cursor_text_color` line sets its color (to
/// nothing when the value is no color); a `background` or `colorN` line sets
/// its color only when the value is one; a `background_opacity` line sets the
/// opacity (to 1 when the value is no number).
pub open spec fn kitty_step(state: KittyScan, line: Seq<char>) -> Result<KittyScan, CharBoundaryError> {
    let line = trim_spec(line, CharClass::WhiteSpace);
    if line.len() == 0 || line[0] == '#' {
        Ok(state)
    } else {
        match key_value_spec(line) {
            None => Ok(state),
            Some((key, raw_value)) => {
                let value = trim_spec(raw_value, CharClass::Only('"'));
                if key == "foreground"@ {
                    match kitty_color_spec(value) {
                        Err(e) => Err(e),
                        Ok(c) => Ok(KittyScan { foreground: c, ..state }),
                    }
                } else if key == "background"@ {
                    match kitty_color_spec(value) {
                        Err(e) => Err(e),
                        Ok(Some(c)) => Ok(KittyScan { background: Some(c), titlebar: Some(c), ..state }),
                        Ok(None) => Ok(state),
                    }
                } else if key == "cursor"@ {
                    match kitty_color_spec(value) {
                        Err(e) => Err(e),
                        Ok(c) => Ok(KittyScan { cursor: c, ..state }),
                    }
                } else if key == "cursor_text_color"@ {
                    match kitty_color_spec(value) {
                        Err(e) => Err(e),
                        Ok(c) => Ok(KittyScan { accent: c, ..state }),
                    }
                } else if key == "background_opacity"@ {
                    Ok(
                        KittyScan {
                            opacity: match number_spec(value) {
                                Some(t) => opacity_of_number(t, F32_ONE_FROM as int) as int,
                                None => OPACITY_SCALE as int,
                            },
                            ..state
                        },
                    )
                } else {
                    match color_index_spec(key) {
                        Some(i) => match kitty_color_spec(value) {
                            Err(e) => Err(e),
                            Ok(Some(c)) => Ok(KittyScan { ansi: state.ansi.update(i, c), ..state }),
                            Ok(None) => Ok(state),
                        },
                        None => Ok(state),
                    }
                }
            },
        }
    }
}

/// The lines of a Kitty theme applied in order.
pub open spec fn kitty_scan(lines: Seq<Seq<char>>) -> Result<KittyScan, CharBoundaryError>
    decreases lines.len(),
{
    if lines.len() == 0 {
        Ok(kitty_start())
    } else {
        match kitty_scan(lines.drop_last()) {
            Err(e) => Err(e),
            Ok(state) => kitty_step(state, lines.last()),
        }
    }
}

/// The theme a Kitty configuration describes: `None` without a background
/// color; the foreground defaults to white, the cursor to the foreground,
/// the accent to ANSI slot 6; dark when the background is; transparent when
/// the clamped opacity is below 1.
pub open spec fn kitty_theme_spec(raw: Seq<char>) -> Result<Option<EffectiveThemeView>, CharBoundaryError> {
    match kitty_scan(split_spec(raw, '\n')) {
        Err(e) => Err(e),
        Ok(s) => match s.background {
            None => Ok(None),
            Some(background) => match is_dark_spec(background) {
                Err(e) => Err(e),
                Ok(dark) => {
                    let foreground = match s.foreground {
                        Some(f) => f,
                        None => "#ffffff"@,
                    };
                    let opacity = clamp_opacity(s.opacity);
                    Ok(
                        Some(
                            EffectiveThemeView {
                                foreground,
                                background,
                                titlebar_background: match s.titlebar {
                                    Some(t) => t,
                                    None => background,
                                },
                                cursor: match s.cursor {
                                    Some(c) => c,
                                    None => foreground,
                                },
                                accent: match s.accent {
                                    Some(a) => a,
                                    None => s.ansi[6],
                                },
                                transparent_background: opacity < OPACITY_SCALE,
                                background_opacity: opacity,
                                prefer_dark: Some(dark),
                                ansi_colors: s.ansi,
                            },
                        ),
                    )
                },
            },
        },
    }
}

/// Once a line cannot be read, the whole theme cannot.
pub proof fn lemma_scan_error_persists(lines: Seq<Seq<char>>, i: int)
    requires
        0 <= i <= lines.len(),
        kitty_scan(lines.take(i)) is Err,
    ensures
        kitty_scan(lines) is Err,
    decreases lines.len() - i,
{
    if i == lines.len() {
        assert(lines.take(i) =~= lines);
    } else {
        assert(lines.take(i + 1).drop_last() =~= lines.take(i));
        lemma_scan_error_persists(lines, i + 1);
    }
}

pub open spec fn opt_chars(o: Option<Vec<char>>) -> Option<Seq<char>> {
    match o {
        Some(v) => Some(v@),
        None => None,
    }
}

struct KittyScanState {
    foreground: Option<Vec<char>>,
    background: Option<Vec<char>>,
    cursor: Option<Vec<char>>,
    accent: Option<Vec<char>>,
    titlebar: Option<Vec<char>>,
    opacity: i64,
    ansi: Vec<Vec<char>>,
}

impl KittyScanState {
    spec fn scan_view(&self) -> KittyScan {
        KittyScan {
            foreground: opt_chars(self.foreground),
            background: opt_chars(self.background),
            cursor: opt_chars(self.cursor),
            accent: opt_chars(self.accent),
            titlebar: opt_chars(self.titlebar),
            opacity: self.opacity as int,
            ansi: views(self.ansi@),
        }
    }
}

fn copy_opt(o: &Option<Vec<char>>) -> (copy: Option<Vec<char>>)
    ensures
        opt_chars(copy) == opt_chars(*o),
{
    match o {
        Some(v) => {
            let c = copy_range(v.as_slice(), 0, v.len());
            assert(c@ =~= v@);
            Some(c)
        },
        None => None,
    }
}

fn scan_kitty_line(state: &mut KittyScanState, line: &[char]) -> (result: Result<(), CharBoundaryError>)
    requires
        old(state).ansi@.len() == 16,
        OPACITY_MIN <= old(state).opacity <= OPACITY_SCALE,
    ensures
        final(state).ansi@.len() == 16,
        OPACITY_MIN <= final(state).opacity <= OPACITY_SCALE,
        match kitty_step(old(state).scan_view(), line@) {
            Ok(s) => result is Ok && final(state).scan_view() == s,
            Err(_) => result is Err,
        },
{
    let line = trim(line, CharClass::WhiteSpace);
    if line.len() == 0 || line[0] == '#' {
        return Ok(());
    }
    let (key, raw_value) = match parse_key_value_pair(line.as_slice()) {
        None => return Ok(()),
        Some(pair) => pair,
    };
    let value = trim(raw_value.as_slice(), CharClass::Only('"'));
    if chars_are(key.as_slice(), "foreground") {
        state.foreground = parse_kitty_color(value.as_slice())?;
    } else if chars_are(key.as_slice(), "background") {
        match parse_kitty_color(value.as_slice())? {
            Some(color) => {
                let copy = copy_range(color.as_slice(), 0, color.len());
                assert(copy@ =~= color@);
                state.background = Some(color);
                state.titlebar = Some(copy);
            },
            None => {},
        }
    } else if chars_are(key.as_slice(), "cursor") {
        state.cursor = parse_kitty_color(value.as_slice())?;
    } else if chars_are(key.as_slice(), "cursor_text_color") {
        state.accent = parse_kitty_color(value.as_slice())?;
    } else if chars_are(key.as_slice(), "background_opacity") {
        state.opacity = match parse_numeric(value.as_slice()) {
            Some(t) => opacity_from_number(t, F32_ONE_FROM) as i64,
            None => OPACITY_SCALE as i64,
        };
    } else {
        match color_index(key.as_slice()) {
            Some(index) => match parse_kitty_color(value.as_slice())? {
                Some(color) => {
                    proof {
                        lemma_views_set(state.ansi@, index as int, color);
                    }
                    state.ansi.set(index, color);
                },
                None => {},
            },
            None => {},
        }
    }
    Ok(())
}

fn opt_string(o: &Option<Vec<char>>, fallback: &Vec<char>) -> (s: String)
    ensures
        s@ == match opt_chars(*o) {
            Some(v) => v,
            None => fallback@,
        },
{
    match o {
        Some(v) => string_of(v.as_slice()),
        None => string_of(fallback.as_slice()),
    }
}

/// Reads a Kitty theme, or says that reading it would cut a character of a
/// color value in the middle of its UTF-8 bytes.
pub fn try_parse_kitty_theme(raw: &str) -> (theme: Result<Option<EffectiveTheme>, CharBoundaryError>)
    ensures
        match kitty_theme_spec(raw@) {
            Ok(Some(v)) => theme matches Ok(Some(t)) && t@ == v,
            Ok(None) => theme matches Ok(None),
            Err(_) => theme is Err,
        },
{
    let chars = chars_of(raw);
    let lines = split_chars(chars.as_slice(), '\n');
    let ghost ls = views(lines@);
    let mut state = KittyScanState {
        foreground: None,
        background: None,
        cursor: None,
        accent: None,
        titlebar: None,
        opacity: OPACITY_SCALE as i64,
        ansi: ansi_default_chars(),
    };
    let mut i: usize = 0;
    assert(ls.take(0) =~= Seq::<Seq<char>>::empty());
    while i < lines.len()
        invariant
            0 <= i <= lines@.len(),
            ls == views(lines@),
            ls == split_spec(raw@, '\n'),
            state.ansi@.len() == 16,
            OPACITY_MIN <= state.opacity <= OPACITY_SCALE,
            kitty_scan(ls.take(i as int)) == Ok::<KittyScan, CharBoundaryError>(state.scan_view()),
        decreases lines@.len() - i,
    {
        assert(ls.take(i + 1).drop_last() =~= ls.take(i as int));
        assert(ls.take(i + 1).last() == lines@[i as int]@);
        match scan_kitty_line(&mut state, lines[i].as_slice()) {
            Ok(()) => {},
            Err(e) => {
                proof {
                    lemma_scan_error_persists(ls, i + 1);
                }
                return Err(e);
            },
        }
        i = i + 1;
    }
    assert(ls.take(i as int) =~= ls);
    let background = match &state.background {
        None => return Ok(None),
        Some(b) => b,
    };
    let dark = is_dark_background(background.as_slice())?;
    let white = chars_of("#ffffff");
    let foreground = opt_string(&state.foreground, &white);
    let foreground_chars = chars_of(foreground.as_str());
    let cursor = opt_string(&state.cursor, &foreground_chars);
    let accent = opt_string(&state.accent, &state.ansi[6]);
    let titlebar = opt_string(&state.titlebar, background);
    let opacity = clamp_opacity_exec(state.opacity);
    let mut ansi_colors: Vec<String> = Vec::new();
    let mut k: usize = 0;
    while k < state.ansi.len()
        invariant
            0 <= k <= state.ansi@.len(),
            strings(ansi_colors@) == views(state.ansi@).take(k as int),
        decreases state.ansi@.len() - k,
    {
        let color = string_of(state.ansi[k].as_slice());
        assert(color@ == views(state.ansi@)[k as int]);
        assert(strings(ansi_colors@.push(color)) =~= strings(ansi_colors@).push(color@));
        assert(views(state.ansi@).take(k + 1) =~= views(state.ansi@).take(k as int).push(
            views(state.ansi@)[k as int],
        ));
        ansi_colors.push(color);
        k = k + 1;
    }
    assert(views(state.ansi@).take(k as int) =~= views(state.ansi@));
    Ok(
        Some(
            EffectiveTheme {
                foreground,
                background: string_of(background.as_slice()),
                titlebar_background: titlebar,
                cursor,
                accent,
                transparent_background: opacity < OPACITY_SCALE,
                background_opacity: opacity,
                prefer_dark: Some(dark),
                ansi_colors,
            },
        ),
    )
}

/// Reads a Kitty theme (`kitty.conf` syntax: `key value` or `key = value`
/// lines, `#` comments).
pub fn parse_kitty_theme(raw: &str) -> (theme: Option<EffectiveTheme>)
    requires
        kitty_theme_spec(raw@) is Ok,
    ensures
        match kitty_theme_spec(raw@) {
            Ok(Some(v)) => theme matches Some(t) && t@ == v,
            _ => theme is None,
        },
{
    match try_parse_kitty_theme(raw) {
        Ok(theme) => theme,
        Err(_) => None,
    }
}


/// A TOML value, as the Alacritty reader sees a parsed configuration.
#[derive(Debug, PartialEq)]
pub enum TomlValue {
    String(String),
    Integer(i64),
    /// A float, as its shortest decimal text (`Display` of `f64`).
    Float(String),
    Boolean(bool),
    Datetime(String),
    Array(Vec<TomlValue>),
    /// Key/value pairs with distinct keys (lookups do not depend on their order).
    Table(Vec<(String, TomlValue)>),
}

/// The value under `key` of the first entry of `entries` that has it.
pub open spec fn entries_lookup(entries: Seq<(String, TomlValue)>, key: Seq<char>) -> Option<TomlValue>
    decreases entries.len(),
{
    if entries.len() == 0 {
        None
    } else if entries[0].0@ == key {
        Some(entries[0].1)
    } else {
        entries_lookup(entries.skip(1), key)
    }
}

/// `value[key]` for a table (`toml::Value::get`); `None` for other values.
pub open spec fn toml_get(value: TomlValue, key: Seq<char>) -> Option<TomlValue> {
    match value {
        TomlValue::Table(entries) => entries_lookup(entries@, key),
        _ => None,
    }
}

pub open spec fn toml_get_in(value: Option<TomlValue>, key: Seq<char>) -> Option<TomlValue> {
    match value {
        Some(v) => toml_get(v, key),
        None => None,
    }
}

fn get<'a>(value: &'a TomlValue, key: &str) -> (found: Option<&'a TomlValue>)
    ensures
        match found {
            Some(v) => toml_get(*value, key@) == Some(*v),
            None => toml_get(*value, key@) is None,
        },
{
    match value {
        TomlValue::Table(entries) => {
            let mut i: usize = 0;
            assert(entries@.skip(0) =~= entries@);
            while i < entries.len()
                invariant
                    0 <= i <= entries@.len(),
                    entries_lookup(entries@, key@) == entries_lookup(entries@.skip(i as int), key@),
                    toml_get(*value, key@) == entries_lookup(entries@, key@),
                decreases entries@.len() - i,
            {
                assert(entries@.skip(i as int)[0] == entries@[i as int]);
                assert(entries@.skip(i as int).skip(1) =~= entries@.skip(i + 1));
                let name = chars_of(entries[i].0.as_str());
                if chars_are(name.as_slice(), key) {
                    assert(entries@.skip(i as int)[0].0@ == key@);
                    assert(entries_lookup(entries@.skip(i as int), key@) == Some(entries@[i as int].1));
                    return Some(&entries[i].1);
                }
                i = i + 1;
            }
            None
        },
        _ => None,
    }
}

fn get_in<'a>(value: Option<&'a TomlValue>, key: &str) -> (found: Option<&'a TomlValue>)
    ensures
        match found {
            Some(v) => toml_get_in(
                match value {
                    Some(x) => Some(*x),
                    None => None,
                },
                key@,
            ) == Some(*v),
            None => toml_get_in(
                match value {
                    Some(x) => Some(*x),
                    None => None,
                },
                key@,
            ) is None,
        },
{
    match value {
        Some(v) => get(v, key),
        None => None,
    }
}

/// A color string of an Alacritty configuration as a `#` color: `0x…`
/// becomes `#…`, `#…` is kept (both trimmed); other values are no color.
pub open spec fn color_value_spec(value: Option<TomlValue>) -> Option<Seq<char>> {
    match value {
        Some(TomlValue::String(s)) => {
            let raw = trim_spec(s@, CharClass::WhiteSpace);
            if raw.len() >= 2 && raw[0] == '0' && raw[1] == 'x' {
                Some(seq!['#'] + raw.skip(2))
            } else if raw.len() >= 1 && raw[0] == '#' {
                Some(raw)
            } else {
                None
            }
        },
        _ => None,
    }
}

fn color_value(value: Option<&TomlValue>) -> (color: Option<Vec<char>>)
    ensures
        opt_chars(color) == color_value_spec(
            match value {
                Some(v) => Some(*v),
                None => None,
            },
        ),
{
    match value {
        Some(TomlValue::String(s)) => {
            let text = chars_of(s.as_str());
            let raw = trim(text.as_slice(), CharClass::WhiteSpace);
            if raw.len() >= 2 && raw[0] == '0' && raw[1] == 'x' {
                let rest = copy_range(raw.as_slice(), 2, raw.len());
                assert(rest@ =~= raw@.skip(2));
                Some(hash_then(rest.as_slice()))
            } else if raw.len() >= 1 && raw[0] == '#' {
                Some(raw)
            } else {
                None
            }
        },
        _ => None,
    }
}

/// A number of a TOML document in units of `10^-25`.
pub open spec fn toml_number_spec(value: Option<TomlValue>) -> Option<int> {
    match value {
        Some(TomlValue::Float(text)) => number_spec(text@),
        Some(TomlValue::Integer(n)) => Some(n * NUMBER_SCALE),
        _ => None,
    }
}

fn toml_number_opacity(value: Option<&TomlValue>) -> (opacity: u32)
    ensures
        opacity == opacity_of_number(
            match toml_number_spec(
                match value {
                    Some(v) => Some(*v),
                    None => None,
                },
            ) {
                Some(t) => t,
                None => NUMBER_SCALE as int,
            },
            F64_TEXT_ONE_FROM as int,
        ),
{
    match value {
        Some(TomlValue::Float(text)) => {
            let chars = chars_of(text.as_str());
            match parse_numeric(chars.as_slice()) {
                Some(t) => opacity_from_number(t, F64_TEXT_ONE_FROM),
                None => OPACITY_SCALE,
            }
        },
        Some(TomlValue::Integer(n)) => {
            if *n >= 1 {
                OPACITY_SCALE
            } else {
                OPACITY_MIN
            }
        },
        _ => OPACITY_SCALE,
    }
}

pub open spec fn ascii_lower(c: char) -> char {
    if 'A' <= c <= 'Z' {
        ((c as u32) + 32) as char
    } else {
        c
    }
}

/// `str::to_ascii_lowercase`.
pub open spec fn ascii_lowercase(s: Seq<char>) -> Seq<char> {
    s.map_values(|c: char| ascii_lower(c))
}

/// The window decoration variant: `Some(true)` for dark, `Some(false)` for
/// light (in any letter case), `None` otherwise.
pub open spec fn variant_spec(value: Option<TomlValue>) -> Option<bool> {
    match value {
        Some(TomlValue::String(s)) => if ascii_lowercase(s@) == "dark"@ {
            Some(true)
        } else if ascii_lowercase(s@) == "light"@ {
            Some(false)
        } else {
            None
        },
        _ => None,
    }
}

fn lowercase_ascii(s: &[char]) -> (lower: Vec<char>)
    ensures
        lower@ == ascii_lowercase(s@),
{
    let mut lower: Vec<char> = Vec::new();
    let mut i: usize = 0;
    while i < s.len()
        invariant
            0 <= i <= s@.len(),
            lower@ == ascii_lowercase(s@.take(i as int)),
        decreases s@.len() - i,
    {
        let c = s[i];
        let l = if 'A' <= c && c <= 'Z' {
            ((c as u32) + 32) as u8 as char
        } else {
            c
        };
        assert(ascii_lowercase(s@.take(i + 1)) =~= ascii_lowercase(s@.take(i as int)).push(
            ascii_lower(c),
        ));
        lower.push(l);
        i = i + 1;
    }
    assert(s@.take(i as int) =~= s@);
    lower
}

fn decoration_variant(value: Option<&TomlValue>) -> (dark: Option<bool>)
    ensures
        dark == variant_spec(
            match value {
                Some(v) => Some(*v),
                None => None,
            },
        ),
{
    match value {
        Some(TomlValue::String(s)) => {
            let text = chars_of(s.as_str());
            let lower = lowercase_ascii(text.as_slice());
            if chars_are(lower.as_slice(), "dark") {
                Some(true)
            } else if chars_are(lower.as_slice(), "light") {
                Some(false)
            } else {
                None
            }
        },
        _ => None,
    }
}

/// The color names of the eight ANSI slots, in slot order.
pub open spec fn ansi_name(i: int) -> Seq<char> {
    if i == 0 {
        "black"@
    } else if i == 1 {
        "red"@
    } else if i == 2 {
        "green"@
    } else if i == 3 {
        "yellow"@
    } else if i == 4 {
        "blue"@
    } else if i == 5 {
        "magenta"@
    } else if i == 6 {
        "cyan"@
    } else {
        "white"@
    }
}

fn ansi_name_of(i: usize) -> (name: &'static str)
    requires
        i < 8,
    ensures
        name@ == ansi_name(i as int),
{
    if i == 0 {
        "black"
    } else if i == 1 {
        "red"
    } else if i == 2 {
        "green"
    } else if i == 3 {
        "yellow"
    } else if i == 4 {
        "blue"
    } else if i == 5 {
        "magenta"
    } else if i == 6 {
        "cyan"
    } else {
        "white"
    }
}

/// ANSI slot `i` of an Alacritty `colors` table: `normal.<name>` for slots
/// 0 to 7, `bright.<name>` for 8 to 15, the default palette where that is
/// no color.
pub open spec fn alacritty_ansi_slot(colors: TomlValue, i: int) -> Seq<char> {
    let group = if i < 8 {
        "normal"@
    } else {
        "bright"@
    };
    let name = ansi_name(if i < 8 {
        i
    } else {
        i - 8
    });
    match color_value_spec(toml_get_in(toml_get(colors, group), name)) {
        Some(c) => c,
        None => ansi_defaults()[i],
    }
}

fn parse_alacritty_ansi_colors(colors: &TomlValue) -> (palette: Vec<Vec<char>>)
    ensures
        views(palette@) == Seq::new(16, |i: int| alacritty_ansi_slot(*colors, i)),
{
    let mut palette = ansi_default_chars();
    let normal = get(colors, "normal");
    let bright = get(colors, "bright");
    let mut i: usize = 0;
    while i < 16
        invariant
            0 <= i <= 16,
            palette@.len() == 16,
            normal is Some ==> toml_get(*colors, "normal"@) == Some(*normal->0),
            normal is None ==> toml_get(*colors, "normal"@) is None,
            bright is Some ==> toml_get(*colors, "bright"@) == Some(*bright->0),
            bright is None ==> toml_get(*colors, "bright"@) is None,
            forall|j: int| 0 <= j < i ==> palette@[j]@ == alacritty_ansi_slot(*colors, j),
            forall|j: int| i <= j < 16 ==> palette@[j]@ == ansi_defaults()[j],
        decreases 16 - i,
    {
        let group = if i < 8 {
            normal
        } else {
            bright
        };
        let name = ansi_name_of(if i < 8 {
            i
        } else {
            i - 8
        });
        match color_value(get_in(group, name)) {
            Some(color) => {
                palette.set(i, color);
            },
            None => {},
        }
        i = i + 1;
    }
    assert(views(palette@) =~= Seq::new(16, |i: int| alacritty_ansi_slot(*colors, i)));
    palette
}

/// The theme an Alacritty configuration describes: `colors.primary` must
/// give foreground and background colors; the cursor comes from
/// `colors.cursor.cursor` or the foreground, the accent from the bright or
/// else normal cyan or `#88c0d0`, the opacity from `window.opacity`
/// (clamped, default 1), the dark preference from
/// `window.decorations_theme_variant`.
pub open spec fn alacritty_theme_spec(doc: TomlValue) -> Option<EffectiveThemeView> {
    match toml_get(doc, "colors"@) {
        None => None,
        Some(colors) => match toml_get(colors, "primary"@) {
            None => None,
            Some(primary) => match (
                color_value_spec(toml_get(primary, "foreground"@)),
                color_value_spec(toml_get(primary, "background"@)),
            ) {
                (Some(foreground), Some(background)) => {
                    let window = toml_get(doc, "window"@);
                    let opacity = opacity_of_number(
                        match toml_number_spec(toml_get_in(window, "opacity"@)) {
                            Some(t) => t,
                            None => NUMBER_SCALE as int,
                        },
                        F64_TEXT_ONE_FROM as int,
                    );
                    Some(
                        EffectiveThemeView {
                            foreground,
                            background,
                            titlebar_background: background,
                            cursor: match color_value_spec(
                                toml_get_in(toml_get(colors, "cursor"@), "cursor"@),
                            ) {
                                Some(c) => c,
                                None => foreground,
                            },
                            accent: match color_value_spec(
                                toml_get_in(toml_get(colors, "bright"@), "cyan"@),
                            ) {
                                Some(c) => c,
                                None => match color_value_spec(
                                    toml_get_in(toml_get(colors, "normal"@), "cyan"@),
                                ) {
                                    Some(c) => c,
                                    None => "#88c0d0"@,
                                },
                            },
                            transparent_background: opacity < OPACITY_SCALE,
                            background_opacity: opacity,
                            prefer_dark: variant_spec(
                                toml_get_in(window, "decorations_theme_variant"@),
                            ),
                            ansi_colors: Seq::new(16, |i: int| alacritty_ansi_slot(colors, i)),
                        },
                    )
                },
                _ => None,
            },
        },
    }
}

/// Reads the theme of an Alacritty configuration (TOML text): `None` when
/// the text is no TOML document or names no primary colors.
pub fn parse_alacritty_theme(raw: &str) -> (theme: Option<EffectiveTheme>)
    ensures
        match toml_document(raw@) {
            Some(doc) => match alacritty_theme_spec(doc) {
                Some(v) => theme matches Some(t) && t@ == v,
                None => theme is None,
            },
            None => theme is None,
        },
{
    match parse_toml_document(raw) {
        Some(doc) => parse_alacritty_document(&doc),
        None => None,
    }
}

/// Reads the theme of a parsed Alacritty configuration.
pub fn parse_alacritty_document(doc: &TomlValue) -> (theme: Option<EffectiveTheme>)
    ensures
        match alacritty_theme_spec(*doc) {
            Some(v) => theme matches Some(t) && t@ == v,
            None => theme is None,
        },
{
    let colors = match get(doc, "colors") {
        Some(c) => c,
        None => return None,
    };
    let primary = match get(colors, "primary") {
        Some(p) => p,
        None => return None,
    };
    let foreground = match color_value(get(primary, "foreground")) {
        Some(f) => f,
        None => return None,
    };
    let background = match color_value(get(primary, "background")) {
        Some(b) => b,
        None => return None,
    };
    let cursor = match color_value(get_in(get(colors, "cursor"), "cursor")) {
        Some(c) => c,
        None => copy_range(foreground.as_slice(), 0, foreground.len()),
    };
    assert(foreground@.subrange(0, foreground@.len() as int) =~= foreground@);
    let accent = match color_value(get_in(get(colors, "bright"), "cyan")) {
        Some(c) => c,
        None => match color_value(get_in(get(colors, "normal"), "cyan")) {
            Some(c) => c,
            None => chars_of("#88c0d0"),
        },
    };
    let window = get(doc, "window");
    let opacity = toml_number_opacity(get_in(window, "opacity"));
    let prefer_dark = decoration_variant(get_in(window, "decorations_theme_variant"));
    let palette = parse_alacritty_ansi_colors(colors);
    let mut ansi_colors: Vec<String> = Vec::new();
    let mut k: usize = 0;
    while k < palette.len()
        invariant
            0 <= k <= palette@.len(),
            strings(ansi_colors@) == views(palette@).take(k as int),
        decreases palette@.len() - k,
    {
        let color = string_of(palette[k].as_slice());
        assert(color@ == views(palette@)[k as int]);
        assert(strings(ansi_colors@.push(color)) =~= strings(ansi_colors@).push(color@));
        assert(views(palette@).take(k + 1) =~= views(palette@).take(k as int).push(
            views(palette@)[k as int],
        ));
        ansi_colors.push(color);
        k = k + 1;
    }
    assert(views(palette@).take(k as int) =~= views(palette@));
    Some(
        EffectiveTheme {
            foreground: string_of(foreground.as_slice()),
            background: string_of(background.as_slice()),
            titlebar_background: string_of(background.as_slice()),
            cursor: string_of(cursor.as_slice()),
            accent: string_of(accent.as_slice()),
            transparent_background: opacity < OPACITY_SCALE,
            background_opacity: opacity,
            prefer_dark,
            ansi_colors,
        },
    )
}


/// The value a Kitty line gives `key`, when it is a line of that key (not
/// blank, not a comment), with surrounding quotes taken off.
pub open spec fn key_line_value(line: Seq<char>, key: Seq<char>) -> Option<Seq<char>> {
    let t = trim_spec(line, CharClass::WhiteSpace);
    if t.len() == 0 || t[0] == '#' {
        None
    } else {
        match key_value_spec(t) {
            Some((k, value)) => if k == key {
                Some(trim_spec(value, CharClass::Only('"')))
            } else {
                None
            },
            None => None,
        }
    }
}

/// The keys whose lines set a color of the theme.
pub open spec fn is_color_key(key: Seq<char>) -> bool {
    ||| key == "foreground"@
    ||| key == "background"@
    ||| key == "cursor"@
    ||| key == "cursor_text_color"@
}

/// The color that the lines read so far gave `key`.
pub open spec fn color_set_by(s: KittyScan, key: Seq<char>) -> Option<Seq<char>> {
    if key == "foreground"@ {
        s.foreground
    } else if key == "background"@ {
        s.background
    } else if key == "cursor"@ {
        s.cursor
    } else {
        s.accent
    }
}

proof fn lemma_color_keys_differ()
    ensures
        "foreground"@ != "background"@,
        "foreground"@ != "cursor"@,
        "foreground"@ != "cursor_text_color"@,
        "background"@ != "cursor"@,
        "background"@ != "cursor_text_color"@,
        "cursor"@ != "cursor_text_color"@,
        "background_opacity"@ != "foreground"@,
        "background_opacity"@ != "background"@,
        "background_opacity"@ != "cursor"@,
        "background_opacity"@ != "cursor_text_color"@,
{
    reveal_strlit("foreground");
    reveal_strlit("background");
    reveal_strlit("cursor");
    reveal_strlit("cursor_text_color");
    reveal_strlit("background_opacity");
    assert("foreground"@[0] != "background"@[0]);
    assert("foreground"@[0] != "cursor"@[0]);
    assert("foreground"@[0] != "cursor_text_color"@[0]);
    assert("background"@[0] != "cursor"@[0]);
    assert("background"@[0] != "cursor_text_color"@[0]);
    assert("cursor"@.len() != "cursor_text_color"@.len());
    assert("background_opacity"@.len() != "background"@.len());
    assert("background_opacity"@[0] != "foreground"@[0]);
    assert("background_opacity"@[0] != "cursor"@[0]);
    assert("background_opacity"@[0] != "cursor_text_color"@[0]);
}

proof fn lemma_step_key_line(state: KittyScan, line: Seq<char>, key: Seq<char>, c: Seq<char>)
    requires
        is_color_key(key),
        key_line_value(line, key) matches Some(v) && kitty_color_spec(v) == Ok::<
            Option<Seq<char>>,
            CharBoundaryError,
        >(Some(c)),
    ensures
        kitty_step(state, line) matches Ok(s) ==> color_set_by(s, key) == Some(c),
{
    lemma_color_keys_differ();
}

proof fn lemma_step_other_line(state: KittyScan, line: Seq<char>, key: Seq<char>)
    requires
        is_color_key(key),
        key_line_value(line, key) is None,
    ensures
        kitty_step(state, line) matches Ok(s) ==> color_set_by(s, key) == color_set_by(state, key),
{
    lemma_color_keys_differ();
}

/// After reading lines up to and including a line that sets `key` to a
/// valid color, and then only lines of other keys, that color is set.
proof fn lemma_scan_key(lines: Seq<Seq<char>>, p: int, key: Seq<char>, c: Seq<char>)
    requires
        is_color_key(key),
        0 <= p < lines.len(),
        key_line_value(lines[p], key) matches Some(v) && kitty_color_spec(v) == Ok::<
            Option<Seq<char>>,
            CharBoundaryError,
        >(Some(c)),
        forall|q: int| p < q < lines.len() ==> key_line_value(#[trigger] lines[q], key) is None,
    ensures
        kitty_scan(lines) matches Ok(s) ==> color_set_by(s, key) == Some(c),
    decreases lines.len(),
{
    let init = lines.drop_last();
    if p < lines.len() - 1 {
        assert forall|q: int| p < q < init.len() implies key_line_value(#[trigger] init[q], key)
            is None by {
            assert(init[q] == lines[q]);
        }
        assert(init[p] == lines[p]);
        lemma_scan_key(init, p, key, c);
        assert(key_line_value(lines[lines.len() - 1], key) is None);
        if let Ok(state) = kitty_scan(init) {
            lemma_step_other_line(state, lines.last(), key);
        }
    } else {
        assert(init.len() == p);
        assert(lines.last() == lines[p]);
        if let Ok(state) = kitty_scan(init) {
            lemma_step_key_line(state, lines.last(), key, c);
        }
    }
}

/// A Kitty theme takes each of its colors from the last line that sets it
/// to a valid color (normalized), when no later line of that key follows:
/// `foreground`, `background` (also the title bar), `cursor`, and
/// `cursor_text_color` (the accent); whatever the other lines say.
pub proof fn law_kitty_color_lines_set_colors(raw: Seq<char>, key: Seq<char>, p: int, c: Seq<char>)
    requires
        is_color_key(key),
        0 <= p < split_spec(raw, '\n').len(),
        key_line_value(split_spec(raw, '\n')[p], key) matches Some(v) && kitty_color_spec(v)
            == Ok::<Option<Seq<char>>, CharBoundaryError>(Some(c)),
        forall|q: int|
            p < q < split_spec(raw, '\n').len() ==> key_line_value(
                #[trigger] split_spec(raw, '\n')[q],
                key,
            ) is None,
    ensures
        kitty_theme_spec(raw) matches Ok(Some(t)) ==> {
            &&& key == "foreground"@ ==> t.foreground == c
            &&& key == "background"@ ==> t.background == c && t.titlebar_background == c
            &&& key == "cursor"@ ==> t.cursor == c
            &&& key == "cursor_text_color"@ ==> t.accent == c
        },
{
    lemma_color_keys_differ();
    lemma_scan_key(split_spec(raw, '\n'), p, key, c);
    if key == "background"@ {
        lemma_scan_titlebar_follows_background(split_spec(raw, '\n'));
    }
}

/// The title bar is the background whenever a background was set.
proof fn lemma_scan_titlebar_follows_background(lines: Seq<Seq<char>>)
    ensures
        kitty_scan(lines) matches Ok(s) ==> s.titlebar == s.background,
    decreases lines.len(),
{
    if lines.len() > 0 {
        lemma_scan_titlebar_follows_background(lines.drop_last());
    }
}

/// A Kitty theme whose lines set `cursor` to a valid color has that color
/// (normalized) as its cursor when no later line sets it again, whatever
/// the foreground: the cursor falls back to the foreground only without a
/// `cursor` line.
pub proof fn law_kitty_cursor_line_sets_cursor(raw: Seq<char>, p: int, c: Seq<char>)
    requires
        0 <= p < split_spec(raw, '\n').len(),
        key_line_value(split_spec(raw, '\n')[p], "cursor"@) matches Some(v) && kitty_color_spec(v)
            == Ok::<Option<Seq<char>>, CharBoundaryError>(Some(c)),
        forall|q: int|
            p < q < split_spec(raw, '\n').len() ==> key_line_value(
                #[trigger] split_spec(raw, '\n')[q],
                "cursor"@,
            ) is None,
    ensures
        kitty_theme_spec(raw) matches Ok(Some(t)) ==> t.cursor == c,
{
    law_kitty_color_lines_set_colors(raw, "cursor"@, p, c);
}

/// The color names of the ANSI slots, in slot order.
pub open spec fn ansi_slot_names() -> Seq<Seq<char>> {
    seq!["black"@, "red"@, "green"@, "yellow"@, "blue"@, "magenta"@, "cyan"@, "white"@]
}

/// ANSI slot `k` of an Alacritty theme is the color at `colors.normal.<name>`
/// (slots 0 to 7) or `colors.bright.<name>` (slots 8 to 15), with the names
/// black, red, green, yellow, blue, magenta, cyan, white in that order; the
/// built-in palette fills the slots whose entry is no color.
pub proof fn law_alacritty_palette_slots(doc: TomlValue)
    ensures
        alacritty_theme_spec(doc) matches Some(t) ==> {
            let colors = toml_get(doc, "colors"@)->0;
            let defaults = seq![
                "#000000"@,
                "#D32E2E"@,
                "#28A745"@,
                "#F0AD4E"@,
                "#268BD2"@,
                "#8A3FFC"@,
                "#2AA198"@,
                "#BEBEBE"@,
                "#586e75"@,
                "#DC322F"@,
                "#859900"@,
                "#B58900"@,
                "#6C71C4"@,
                "#D33682"@,
                "#2AA198"@,
                "#FDF6E3"@,
            ];
            &&& t.ansi_colors.len() == 16
            &&& forall|k: int|
                0 <= k < 16 ==> #[trigger] t.ansi_colors[k] == match color_value_spec(
                    toml_get_in(
                        toml_get(
                            colors,
                            if k < 8 {
                                "normal"@
                            } else {
                                "bright"@
                            },
                        ),
                        ansi_slot_names()[k % 8],
                    ),
                ) {
                    Some(c) => c,
                    None => defaults[k],
                }
        },
{
    if let Some(t) = alacritty_theme_spec(doc) {
        let colors = toml_get(doc, "colors"@)->0;
        assert forall|k: int| 0 <= k < 16 implies #[trigger] t.ansi_colors[k]
            == alacritty_ansi_slot(colors, k) && ansi_name(
            if k < 8 {
                k
            } else {
                k - 8
            },
        ) == ansi_slot_names()[k % 8] by {
            if k < 8 {
                assert(k % 8 == k);
            } else {
                assert(k % 8 == k - 8);
            }
        }
    }
}

/// An Alacritty theme takes its foreground and background (also the title
/// bar) from `colors.primary`, its cursor from `colors.cursor.cursor` or else
/// the foreground, and its accent from `colors.bright.cyan`, else
/// `colors.normal.cyan`, else `#88c0d0`.
pub proof fn law_alacritty_primary_cursor_accent(doc: TomlValue)
    ensures
        alacritty_theme_spec(doc) matches Some(t) ==> {
            let colors = toml_get(doc, "colors"@)->0;
            let primary = toml_get(colors, "primary"@)->0;
            &&& color_value_spec(toml_get(primary, "foreground"@)) == Some(t.foreground)
            &&& color_value_spec(toml_get(primary, "background"@)) == Some(t.background)
            &&& t.titlebar_background == t.background
            &&& t.cursor == match color_value_spec(
                toml_get_in(toml_get(colors, "cursor"@), "cursor"@),
            ) {
                Some(c) => c,
                None => t.foreground,
            }
            &&& t.accent == match color_value_spec(toml_get_in(toml_get(colors, "bright"@), "cyan"@)) {
                Some(c) => c,
                None => match color_value_spec(toml_get_in(toml_get(colors, "normal"@), "cyan"@)) {
                    Some(c) => c,
                    None => "#88c0d0"@,
                },
            }
        },
{
}

/// The theme in use for the `System` and `Custom` sources, and for an
/// Alacritty or Kitty source that imported nothing, is the configured theme:
/// its transparency switch as configured and its opacity the configured one
/// clamped to `0.1..=1`, with no ANSI palette of its own. `System` replaces
/// only the five colors by the desktop's palette and follows the desktop's
/// preference; `Custom` states no preference; a source that imported nothing
/// follows the desktop's preference.
pub proof fn law_configured_theme_sources(
    theme: Theme,
    system_is_dark: bool,
    imported: Option<EffectiveThemeView>,
)
    ensures
        ({
            let e = effective_theme_spec(theme, system_is_dark, imported);
            let configured = theme.source == ThemeSource::System || theme.source
                == ThemeSource::Custom || imported is None;
            &&& configured ==> {
                &&& e.transparent_background == theme.transparent_background
                &&& e.background_opacity == (if theme.background_opacity < 100_000_000 {
                    100_000_000
                } else if theme.background_opacity > 1_000_000_000 {
                    1_000_000_000
                } else {
                    theme.background_opacity
                })
                &&& e.ansi_colors.len() == 0
            }
            &&& theme.source == ThemeSource::System ==> {
                &&& e.prefer_dark == Some(system_is_dark)
                &&& system_is_dark ==> e.foreground == "#6D8096"@ && e.background == "#282a36"@
                    && e.titlebar_background == "#191a21"@ && e.cursor == "#f8f8f2"@ && e.accent
                    == "#8be9fd"@
                &&& !system_is_dark ==> e.foreground == "#1f2937"@ && e.background == "#fafafa"@
                    && e.titlebar_background == "#e5e7eb"@ && e.cursor == "#111827"@ && e.accent
                    == "#1c71d8"@
            }
            &&& theme.source == ThemeSource::Custom ==> {
                &&& e.prefer_dark is None
                &&& e.foreground == theme.foreground@ && e.background == theme.background@
                    && e.titlebar_background == theme.titlebar_background@ && e.cursor
                    == theme.cursor@ && e.accent == theme.accent@
            }
            &&& (theme.source == ThemeSource::Alacritty || theme.source == ThemeSource::Kitty)
                && imported is None ==> {
                &&& e.prefer_dark == Some(system_is_dark)
                &&& e.foreground == theme.foreground@ && e.background == theme.background@
                    && e.titlebar_background == theme.titlebar_background@ && e.cursor
                    == theme.cursor@ && e.accent == theme.accent@
            }
        }),
{
}

/// Whatever the source and whatever was imported, the theme in use has an
/// opacity within `OPACITY_MIN..=OPACITY_SCALE`, and an imported theme is
/// transparent exactly when the configuration asks for it, keeping its own
/// (in-range) opacity then.
pub proof fn law_effective_opacity_in_range(
    theme: Theme,
    system_is_dark: bool,
    imported: Option<EffectiveThemeView>,
)
    ensures
        OPACITY_MIN <= effective_theme_spec(theme, system_is_dark, imported).background_opacity
            <= OPACITY_SCALE,
        (theme.source == ThemeSource::Alacritty || theme.source == ThemeSource::Kitty)
            && imported is Some ==> effective_theme_spec(
            theme,
            system_is_dark,
            imported,
        ).transparent_background == theme.transparent_background,
        (theme.source == ThemeSource::Alacritty || theme.source == ThemeSource::Kitty)
            && theme.transparent_background && imported is Some && OPACITY_MIN
            <= imported->0.background_opacity <= OPACITY_SCALE ==> effective_theme_spec(
            theme,
            system_is_dark,
            imported,
        ).background_opacity == imported->0.background_opacity,
{
}

/// A theme read from Kitty or Alacritty text has sixteen ANSI colors and an
/// opacity within range, and is transparent exactly when that opacity is
/// below one.
pub proof fn law_parsed_themes_are_well_formed(raw: Seq<char>, doc: TomlValue)
    ensures
        kitty_theme_spec(raw) matches Ok(Some(t)) ==> {
            &&& t.ansi_colors.len() == 16
            &&& OPACITY_MIN <= t.background_opacity <= OPACITY_SCALE
            &&& t.transparent_background == (t.background_opacity < OPACITY_SCALE)
        },
        alacritty_theme_spec(doc) matches Some(t) ==> {
            &&& t.ansi_colors.len() == 16
            &&& OPACITY_MIN <= t.background_opacity <= OPACITY_SCALE
            &&& t.transparent_background == (t.background_opacity < OPACITY_SCALE)
        },
{
    if let Ok(s) = kitty_scan(split_spec(raw, '\n')) {
        lemma_scan_keeps_palette(split_spec(raw, '\n'));
    }
}

/// Every line keeps the ANSI palette at sixteen colors.
pub proof fn lemma_scan_keeps_palette(lines: Seq<Seq<char>>)
    ensures
        kitty_scan(lines) matches Ok(s) ==> s.ansi.len() == 16,
    decreases lines.len(),
{
    if lines.len() > 0 {
        lemma_scan_keeps_palette(lines.drop_last());
        if let Ok(s) = kitty_scan(lines.drop_last()) {
            let line = trim_spec(lines.last(), CharClass::WhiteSpace);
            if let Some((key, _)) = key_value_spec(line) {
                if let Some(i) = color_index_spec(key) {
                    if all_digits(key.skip(5)) {
                        lemma_digits_value_nonneg(key.skip(5));
                    }
                    if key.skip(5).len() > 0 && all_digits(key.skip(5).skip(1)) {
                        lemma_digits_value_nonneg(key.skip(5).skip(1));
                    }
                }
            }
        }
    }
}

pub open spec fn ends_with(s: Seq<char>, suffix: Seq<char>) -> bool {
    s.len() >= suffix.len() && s.skip(s.len() - suffix.len()) == suffix
}

/// The file name of a named Kitty theme: the name itself when it ends in
/// `.conf`, otherwise the name with `.conf` appended.
pub open spec fn theme_file_name_spec(name: Seq<char>) -> Seq<char> {
    if ends_with(name, ".conf"@) {
        name
    } else {
        name + ".conf"@
    }
}

pub fn kitty_theme_file_name(name: &str) -> (file: String)
    ensures
        file@ == theme_file_name_spec(name@),
{
    let chars = chars_of(name);
    let suffix = chars_of(".conf");
    let ends = if chars.len() >= suffix.len() {
        let tail = copy_range(chars.as_slice(), chars.len() - suffix.len(), chars.len());
        assert(tail@ =~= chars@.skip(chars@.len() - suffix@.len()));
        chars_are(tail.as_slice(), ".conf")
    } else {
        false
    };
    if ends {
        string_of(chars.as_slice())
    } else {
        let mut file = chars;
        append_chars(&mut file, suffix.as_slice());
        string_of(file.as_slice())
    }
}

/// The rest of `path` after a leading `~/`, which names a place in the
/// home directory; `None` when `path` does not start with `~/`.
pub fn home_relative(path: &str) -> (rest: Option<String>)
    ensures
        match rest {
            Some(r) => path@.len() >= 2 && path@.take(2) == "~/"@ && r@ == path@.skip(2),
            None => !(path@.len() >= 2 && path@.take(2) == "~/"@),
        },
{
    let chars = chars_of(path);
    if chars.len() >= 2 {
        let head = copy_range(chars.as_slice(), 0, 2);
        assert(head@ =~= chars@.take(2));
        if chars_are(head.as_slice(), "~/") {
            let tail = copy_range(chars.as_slice(), 2, chars.len());
            assert(tail@ =~= chars@.skip(2));
            return Some(string_of(tail.as_slice()));
        }
    }
    None
}

/// Where a Kitty theme is read from.
#[derive(Debug, Clone, PartialEq)]
pub enum KittyThemeSource {
    /// `kitty/kitty.conf` under the configuration directory.
    DefaultConfig,
    /// The file at this path under the home directory.
    HomeFile(String),
    /// The file at this path, as written.
    File(String),
    /// The file of this name under `kitty/themes` in the configuration
    /// directory.
    ThemeFile(String),
    /// What `kitty +kitten themes --dump-theme` prints for this theme name.
    DumpTheme(String),
}

/// The `kitty_config` setting, `None` read as empty.
pub open spec fn setting_text(spec: Option<&str>) -> Seq<char> {
    match spec {
        Some(s) => s@,
        None => Seq::empty(),
    }
}

/// The places to read a Kitty theme from, in the order they are tried, for
/// the `kitty_config` setting `spec` (trimmed): the default configuration
/// when it is empty; otherwise the path it names (in the home directory
/// after a leading `~/`), then the theme file of that name, then kitty's own
/// theme of that name. The first place that exists is read, and the search
/// stops there.
pub fn kitty_theme_sources(spec: Option<&str>) -> (sources: Vec<KittyThemeSource>)
    ensures
        ({
            let t = trim_spec(setting_text(spec), CharClass::WhiteSpace);
            if t.len() == 0 {
                sources@.len() == 1 && sources@[0] is DefaultConfig
            } else {
                &&& sources@.len() == 3
                &&& if t.len() >= 2 && t.take(2) == "~/"@ {
                    sources@[0] matches KittyThemeSource::HomeFile(r) && r@ == t.skip(2)
                } else {
                    sources@[0] matches KittyThemeSource::File(p) && p@ == t
                }
                &&& sources@[1] matches KittyThemeSource::ThemeFile(n) && n@ == theme_file_name_spec(t)
                &&& sources@[2] matches KittyThemeSource::DumpTheme(n) && n@ == t
            }
        }),
{
    let text = match spec {
        Some(s) => chars_of(s),
        None => Vec::new(),
    };
    assert(text@ =~= setting_text(spec));
    let trimmed = trim(text.as_slice(), CharClass::WhiteSpace);
    let mut sources: Vec<KittyThemeSource> = Vec::new();
    if trimmed.len() == 0 {
        sources.push(KittyThemeSource::DefaultConfig);
        return sources;
    }
    let name = string_of(trimmed.as_slice());
    let first = match home_relative(name.as_str()) {
        Some(rest) => KittyThemeSource::HomeFile(rest),
        None => KittyThemeSource::File(string_of(trimmed.as_slice())),
    };
    sources.push(first);
    sources.push(KittyThemeSource::ThemeFile(kitty_theme_file_name(name.as_str())));
    sources.push(KittyThemeSource::DumpTheme(name));
    sources
}

} // verus!

