//! The launcher's settings, built in three layers: the built-in defaults
//! ([`Config::default`]), then the settings file
//! ([`Config::with_file_overrides`]), then the command line
//! ([`crate::cli::parse_args`]).
//!
//! The file holds optional overrides for colors, sizing, and a list of
//! AppImages to launch directly. Everything in it is optional; a missing file
//! or a missing field falls back to the built-in defaults rather than failing
//! the launcher, and a single bad field (an unparsable color, an AppImage that
//! doesn't exist) is skipped with a warning rather than rejecting the whole
//! file.

use crate::number::push_decimal;
use crate::path::{is_absolute, join};
use crate::text::{chars_of, string_of, trim};
use vstd::prelude::*;

verus! {

/// Accepted ranges, shared with the command line so a value set in the file
/// and the same value set by a flag are clamped identically.
pub const FONT_SIZE_MIN: u32 = 8;

pub const FONT_SIZE_MAX: u32 = 60;

pub const LINES_MIN: usize = 1;

pub const LINES_MAX: usize = 50;

pub const MAX_BLUR: u32 = 200;

/// Flag-only, but kept beside the others so every accepted range is in one
/// place.
pub const WIDTH_MIN: i32 = 240;

pub const WIDTH_MAX: i32 = 3000;

// ---------------------------------------------------------------------------
// Opacity
// ---------------------------------------------------------------------------

/// An opacity, as the bits of a double: the sign, then the magnitude, which
/// orders as the numbers do.
#[derive(Clone, Copy, PartialEq, Eq, Structural)]
pub struct Dim {
    pub bits: u64,
}

/// The bit of the sign.
pub const SIGN: u64 = 0x8000_0000_0000_0000;

/// The magnitude of infinity; every magnitude above it is not a number.
pub const INFINITE: u64 = 0x7FF0_0000_0000_0000;

/// The magnitude of 1.0.
pub const ONE: u64 = 0x3FF0_0000_0000_0000;

/// The magnitude of 0.75.
pub const THREE_QUARTERS: u64 = 0x3FE8_0000_0000_0000;

impl Dim {
    pub open spec fn negative(self) -> bool {
        self.bits >= SIGN
    }

    pub open spec fn magnitude(self) -> int {
        if self.negative() {
            self.bits - SIGN
        } else {
            self.bits as int
        }
    }

    /// Neither infinite nor not a number.
    pub open spec fn finite(self) -> bool {
        self.magnitude() < INFINITE
    }

    /// Between 0.0 and 1.0; a zero may carry a sign.
    pub open spec fn in_range(self) -> bool {
        self.magnitude() == 0 || (!self.negative() && self.magnitude() <= ONE)
    }

    /// Brought between 0.0 and 1.0. What is not a number is left alone.
    pub open spec fn clamped(self) -> Dim {
        if self.magnitude() > INFINITE || self.in_range() {
            self
        } else if self.negative() {
            Dim { bits: 0 }
        } else {
            Dim { bits: ONE }
        }
    }

    fn size(self) -> (r: u64)
        ensures
            r == self.magnitude(),
    {
        if self.bits >= SIGN {
            self.bits - SIGN
        } else {
            self.bits
        }
    }

    pub fn is_finite(self) -> (r: bool)
        ensures
            r == self.finite(),
    {
        self.size() < INFINITE
    }

    /// Bring the opacity between 0.0 and 1.0.
    pub fn clamp(self) -> (r: Dim)
        ensures
            r == self.clamped(),
            self.finite() ==> r.in_range(),
    {
        let size: u64 = self.size();
        if size > INFINITE || size == 0 {
            self
        } else if self.bits >= SIGN {
            Dim { bits: 0 }
        } else if size > ONE {
            Dim { bits: ONE }
        } else {
            self
        }
    }
}

// ---------------------------------------------------------------------------
// The settings
// ---------------------------------------------------------------------------

pub struct Config {
    pub lines: usize,
    pub width: i32,
    pub placeholder: String,
    pub query: String,
    /// Blur radius in screen pixels; 0 means no screenshot is taken at all.
    /// Off by default: the capture is a full compositor round trip plus a
    /// readback of the whole framebuffer, which is most of the launcher's
    /// startup on a slow machine.
    pub blur: u32,
    /// Opacity of the scrim painted over the blurred backdrop.
    pub dim: Dim,
    /// Font size, in pixels, of a result row's name. The search entry scales
    /// with it so the "large input, small results" proportion holds at any
    /// size.
    pub font_size: u32,
    pub colors: Colors,
    /// Directly launchable AppImages; they have no `.desktop` file, so the
    /// desktop's own list never surfaces them.
    pub appimages: Vec<AppImageConfig>,
}

#[derive(Clone)]
pub struct Colors {
    pub background: String,
    pub panel: String,
    pub foreground: String,
    pub selection: String,
    pub accent: String,
    pub muted: String,
}

#[derive(Clone)]
pub struct AppImageConfig {
    pub name: String,
    pub path: String,
    pub icon: Option<String>,
}

/// What the file sets, already validated and clamped. `colors` is complete:
/// a field the file leaves out or gets wrong holds its default.
pub struct FileOverrides {
    pub colors: Colors,
    pub font_size: Option<u32>,
    pub lines: Option<usize>,
    pub dim: Option<Dim>,
    pub blur: Option<u32>,
    pub appimages: Vec<AppImageConfig>,
}

/// The colors as the file gives them.
pub struct FileColors {
    pub background: Option<String>,
    pub panel: Option<String>,
    pub foreground: Option<String>,
    pub selection: Option<String>,
    pub accent: Option<String>,
    pub muted: Option<String>,
}

/// An AppImage as the file gives it.
pub struct FileAppImage {
    pub name: String,
    pub path: String,
    pub icon: Option<String>,
}

/// The file as it was parsed.
pub struct FileConfig {
    pub colors: FileColors,
    pub font_size: Option<u32>,
    pub lines: Option<usize>,
    pub dim: Option<Dim>,
    /// 0 or absent means off, otherwise the blur radius in pixels.
    pub blur: Option<u32>,
    pub appimages: Vec<FileAppImage>,
}

/// Why a part of the file was ignored.
pub enum Warning {
    /// The field and the value that is no color.
    Color(&'static str, String),
    /// The path of an entry with an empty name.
    EmptyName(String),
    /// A path without a file.
    NoSuchFile(String),
}

/// What a text is made of, where there is one.
pub open spec fn text_of(text: Option<String>) -> Option<Seq<char>> {
    match text {
        Some(text) => Some(text@),
        None => None,
    }
}

/// A palette's colors: background, panel, foreground, selection, accent,
/// muted.
pub struct Palette {
    pub background: Seq<char>,
    pub panel: Seq<char>,
    pub foreground: Seq<char>,
    pub selection: Seq<char>,
    pub accent: Seq<char>,
    pub muted: Seq<char>,
}

impl View for Colors {
    type V = Palette;

    open spec fn view(&self) -> Palette {
        Palette {
            background: self.background@,
            panel: self.panel@,
            foreground: self.foreground@,
            selection: self.selection@,
            accent: self.accent@,
            muted: self.muted@,
        }
    }
}

/// An AppImage's name, path and icon.
pub type AppImage = (Seq<char>, Seq<char>, Option<Seq<char>>);

impl View for AppImageConfig {
    type V = AppImage;

    open spec fn view(&self) -> AppImage {
        (self.name@, self.path@, text_of(self.icon))
    }
}

/// What a warning says.
pub enum Complaint {
    Color(Seq<char>, Seq<char>),
    EmptyName(Seq<char>),
    NoSuchFile(Seq<char>),
}

impl View for Warning {
    type V = Complaint;

    open spec fn view(&self) -> Complaint {
        match *self {
            Warning::Color(field, value) => Complaint::Color(field@, value@),
            Warning::EmptyName(path) => Complaint::EmptyName(path@),
            Warning::NoSuchFile(path) => Complaint::NoSuchFile(path@),
        }
    }
}

/// The built-in colors.
pub open spec fn default_palette() -> Palette {
    Palette {
        background: "#10111e"@,
        panel: "#1a1b26"@,
        foreground: "#c0caf5"@,
        selection: "#283457"@,
        accent: "#7aa2f7"@,
        muted: "#565f89"@,
    }
}

impl Default for Colors {
    /// Tokyo Night.
    fn default() -> (r: Self)
        ensures
            r@ == default_palette(),
    {
        Colors {
            background: "#10111e".to_owned(),
            panel: "#1a1b26".to_owned(),
            foreground: "#c0caf5".to_owned(),
            selection: "#283457".to_owned(),
            accent: "#7aa2f7".to_owned(),
            muted: "#565f89".to_owned(),
        }
    }
}

impl Default for Config {
    fn default() -> (r: Self)
        ensures
            r.lines == 6,
            r.width == 680,
            r.placeholder@.len() == 0,
            r.query@.len() == 0,
            r.blur == 0,
            r.dim.bits == THREE_QUARTERS,
            r.font_size == 21,
            r.colors@ == default_palette(),
            r.appimages@.len() == 0,
            in_range(r),
    {
        proof {
            default_palette_is_valid();
        }
        Config {
            lines: 6,
            width: 680,
            placeholder: String::new(),
            query: String::new(),
            blur: 0,
            dim: Dim { bits: THREE_QUARTERS },
            font_size: 21,
            colors: Colors::default(),
            appimages: Vec::new(),
        }
    }
}

impl Default for FileOverrides {
    /// What a missing file sets: nothing.
    fn default() -> (r: Self)
        ensures
            r.colors@ == default_palette(),
            r.font_size is None,
            r.lines is None,
            r.dim is None,
            r.blur is None,
            r.appimages@.len() == 0,
    {
        FileOverrides {
            colors: Colors::default(),
            font_size: None,
            lines: None,
            dim: None,
            blur: None,
            appimages: Vec::new(),
        }
    }
}

/// A value that is there wins over one that stands in for it.
pub open spec fn or_else<T>(value: Option<T>, fallback: T) -> T {
    match value {
        Some(value) => value,
        None => fallback,
    }
}

// ---------------------------------------------------------------------------
// Colors
// ---------------------------------------------------------------------------

pub open spec fn hex_value(c: char) -> Option<int> {
    if '0' <= c && c <= '9' {
        Some(c as int - '0' as int)
    } else if 'a' <= c && c <= 'f' {
        Some(c as int - 'a' as int + 10)
    } else if 'A' <= c && c <= 'F' {
        Some(c as int - 'A' as int + 10)
    } else {
        None
    }
}

/// A `#` and six hexadecimal digits.
pub open spec fn is_color(s: Seq<char>) -> bool {
    &&& s.len() == 7
    &&& s[0] == '#'
    &&& forall|i: int| 1 <= i < 7 ==> hex_value(#[trigger] s[i]) is Some
}

/// The byte that the two digits at `i` stand for.
pub open spec fn hex_byte(s: Seq<char>, i: int) -> int {
    16 * hex_value(s[i]).unwrap() + hex_value(s[i + 1]).unwrap()
}

/// The red, green and blue of a hex color.
pub open spec fn rgb_of(s: Seq<char>) -> Option<(u8, u8, u8)> {
    if is_color(s) {
        Some((hex_byte(s, 1) as u8, hex_byte(s, 3) as u8, hex_byte(s, 5) as u8))
    } else {
        None
    }
}

/// A color as "r, g, b"; black for what is no color.
pub open spec fn triplet_of(hex: Seq<char>) -> Seq<char> {
    let (r, g, b) = or_else(rgb_of(hex), (0u8, 0u8, 0u8));
    crate::number::decimal(r as nat) + seq![',', ' '] + crate::number::decimal(g as nat) + seq![
        ',',
        ' ',
    ] + crate::number::decimal(b as nat)
}

fn hex_digit(c: char) -> (r: Option<u8>)
    ensures
        match r {
            Some(d) => d < 16 && hex_value(c) == Some(d as int),
            None => hex_value(c) is None,
        },
{
    let u: u32 = c as u32;
    if '0' <= c && c <= '9' {
        Some((u - 48) as u8)
    } else if 'a' <= c && c <= 'f' {
        Some((u - 87) as u8)
    } else if 'A' <= c && c <= 'F' {
        Some((u - 55) as u8)
    } else {
        None
    }
}

/// The byte of the two digits at `i`.
fn hex_pair(chars: &Vec<char>, i: usize) -> (r: Option<u8>)
    requires
        i < 6,
        chars@.len() == 7,
    ensures
        match r {
            Some(byte) => hex_value(chars@[i as int]) is Some && hex_value(chars@[i + 1]) is Some
                && byte == hex_byte(chars@, i as int),
            None => hex_value(chars@[i as int]) is None || hex_value(chars@[i + 1]) is None,
        },
{
    match (hex_digit(chars[i]), hex_digit(chars[i + 1])) {
        (Some(high), Some(low)) => Some(16 * high + low),
        _ => None,
    }
}

pub fn parse_hex(hex: &str) -> (r: Option<(u8, u8, u8)>)
    ensures
        r == rgb_of(hex@),
        r is Some <==> hex@.len() == 7 && hex@[0] == '#' && forall|i: int|
            1 <= i < 7 ==> hex_value(#[trigger] hex@[i]) is Some,
        r matches Some(rgb) ==> {
            &&& rgb.0 == 16 * hex_value(hex@[1]).unwrap() + hex_value(hex@[2]).unwrap()
            &&& rgb.1 == 16 * hex_value(hex@[3]).unwrap() + hex_value(hex@[4]).unwrap()
            &&& rgb.2 == 16 * hex_value(hex@[5]).unwrap() + hex_value(hex@[6]).unwrap()
        },
{
    let chars = chars_of(hex);
    if chars.len() != 7 || chars[0] != '#' {
        return None;
    }
    match (hex_pair(&chars, 1), hex_pair(&chars, 3), hex_pair(&chars, 5)) {
        (Some(r), Some(g), Some(b)) => {
            proof {
                assert forall|i: int| 1 <= i < 7 implies hex_value(#[trigger] hex@[i]) is Some by {
                    assert(i == 1 || i == 2 || i == 3 || i == 4 || i == 5 || i == 6);
                }
            }
            Some((r, g, b))
        },
        _ => None,
    }
}

/// "r, g, b" for a hex color, for use inside an `rgba(...)` declaration.
/// Callers only ever pass colors that have already been validated (or the
/// built-in defaults), so the fallback here never actually triggers.
pub fn rgb_triplet(hex: &str) -> (r: String)
    ensures
        r@ == triplet_of(hex@),
{
    let (r, g, b) = match parse_hex(hex) {
        Some(rgb) => rgb,
        None => (0, 0, 0),
    };
    let mut out = String::new();
    push_decimal(&mut out, r as u64);
    out.push(',');
    out.push(' ');
    push_decimal(&mut out, g as u64);
    out.push(',');
    out.push(' ');
    push_decimal(&mut out, b as u64);
    proof {
        let (x, y, z) = (
            crate::number::decimal(r as nat),
            crate::number::decimal(g as nat),
            crate::number::decimal(b as nat),
        );
        assert(out@ =~= x + seq![',', ' '] + y + seq![',', ' '] + z);
    }
    out
}

// ---------------------------------------------------------------------------
// Places
// ---------------------------------------------------------------------------

/// A path with a leading `~/` replaced by the home directory, where that is
/// known.
pub open spec fn expanded(path: Seq<char>, home: Option<Seq<char>>) -> Seq<char> {
    if path.len() >= 2 && path[0] == '~' && path[1] == '/' && home is Some {
        crate::path::joined(home.unwrap(), path.skip(2))
    } else {
        path
    }
}

/// The directory for a kind of file: the one the environment names, if that is
/// absolute, else `below` in the home directory.
pub open spec fn base_directory(
    named: Option<Seq<char>>,
    home: Option<Seq<char>>,
    below: Seq<char>,
) -> Option<Seq<char>> {
    if named is Some && crate::path::absolute(named.unwrap()) {
        named
    } else if home is Some {
        Some(crate::path::joined(home.unwrap(), below))
    } else {
        None
    }
}

/// Where the settings file is.
pub open spec fn config_file(named: Option<Seq<char>>, home: Option<Seq<char>>) -> Option<
    Seq<char>,
> {
    match base_directory(named, home, ".config"@) {
        Some(base) => Some(crate::path::joined(base, "launchr.json"@)),
        None => None,
    }
}

/// The directory for a kind of file, from the variable that names it and the
/// home directory.
pub fn base_dir(named: &Option<String>, home: &Option<String>, below: &str) -> (r: Option<String>)
    ensures
        text_of(r) == base_directory(text_of(*named), text_of(*home), below@),
        named is Some && crate::path::absolute(named.unwrap()@) ==> r is Some && r.unwrap()@
            == named.unwrap()@,
        !(named is Some && crate::path::absolute(named.unwrap()@)) ==> (match home {
            Some(home) => r is Some && r.unwrap()@ == crate::path::joined(home@, below@),
            None => r is None,
        }),
{
    match named {
        Some(named) if is_absolute(named) => {
            return Some(named.clone());
        },
        _ => {},
    }
    match home {
        Some(home) => Some(join(home, below)),
        None => None,
    }
}

/// Where the settings file is, given `XDG_CONFIG_HOME` and `HOME`.
pub fn config_path(xdg: &Option<String>, home: &Option<String>) -> (r: Option<String>)
    ensures
        text_of(r) == config_file(text_of(*xdg), text_of(*home)),
        xdg is Some && crate::path::absolute(xdg.unwrap()@) ==> r is Some && r.unwrap()@
            == crate::path::joined(xdg.unwrap()@, "launchr.json"@),
        !(xdg is Some && crate::path::absolute(xdg.unwrap()@)) ==> (match home {
            Some(home) => r is Some && r.unwrap()@ == crate::path::joined(
                crate::path::joined(home@, ".config"@),
                "launchr.json"@,
            ),
            None => r is None,
        }),
{
    match base_dir(xdg, home, ".config") {
        Some(base) => Some(join(&base, "launchr.json")),
        None => None,
    }
}

pub fn expand_tilde(path: &str, home: &Option<String>) -> (r: String)
    ensures
        r@ == expanded(path@, text_of(*home)),
        r@ == (if path@.len() >= 2 && path@[0] == '~' && path@[1] == '/' && home is Some {
            crate::path::joined(home.unwrap()@, path@.skip(2))
        } else {
            path@
        }),
{
    let chars = chars_of(path);
    if chars.len() >= 2 && chars[0] == '~' && chars[1] == '/' {
        match home {
            Some(home) => {
                let rest = string_of(&chars, 2, chars.len());
                assert(rest@ =~= path@.skip(2));
                return join(home, &rest);
            },
            None => {},
        }
    }
    path.to_owned()
}

// ---------------------------------------------------------------------------
// The file layer
// ---------------------------------------------------------------------------

/// The color that a field ends up with.
pub open spec fn color_or(given: Option<Seq<char>>, fallback: Seq<char>) -> Seq<char> {
    if given is Some && is_color(given.unwrap()) {
        given.unwrap()
    } else {
        fallback
    }
}

/// What is said of a field: something, if it is given and no color.
pub open spec fn color_complaint(given: Option<Seq<char>>, field: Seq<char>) -> Seq<Complaint> {
    if given is Some && !is_color(given.unwrap()) {
        seq![Complaint::Color(field, given.unwrap())]
    } else {
        seq![]
    }
}

/// The palette that the file's colors make.
pub open spec fn palette_of(file: FileColors) -> Palette {
    let fallback = default_palette();
    Palette {
        background: color_or(text_of(file.background), fallback.background),
        panel: color_or(text_of(file.panel), fallback.panel),
        foreground: color_or(text_of(file.foreground), fallback.foreground),
        selection: color_or(text_of(file.selection), fallback.selection),
        accent: color_or(text_of(file.accent), fallback.accent),
        muted: color_or(text_of(file.muted), fallback.muted),
    }
}

/// What is said of the file's colors.
pub open spec fn palette_complaints(file: FileColors) -> Seq<Complaint> {
    color_complaint(text_of(file.background), "background"@) + color_complaint(
        text_of(file.panel),
        "panel"@,
    ) + color_complaint(text_of(file.foreground), "foreground"@) + color_complaint(
        text_of(file.selection),
        "selection"@,
    ) + color_complaint(text_of(file.accent), "accent"@) + color_complaint(
        text_of(file.muted),
        "muted"@,
    )
}

/// Every color of a palette is a hex color.
pub open spec fn all_colors(palette: Palette) -> bool {
    &&& is_color(palette.background)
    &&& is_color(palette.panel)
    &&& is_color(palette.foreground)
    &&& is_color(palette.selection)
    &&& is_color(palette.accent)
    &&& is_color(palette.muted)
}

/// An AppImage as it can be launched, or what is wrong with it. `present` says
/// whether there is a file at the expanded path.
pub open spec fn appimage_of(
    file: FileAppImage,
    home: Option<Seq<char>>,
    present: bool,
) -> Result<AppImage, Complaint> {
    let path = expanded(file.path@, home);
    if crate::text::trimmed(file.name@).len() == 0 {
        Err(Complaint::EmptyName(path))
    } else if !present {
        Err(Complaint::NoSuchFile(path))
    } else {
        Ok((file.name@, path, text_of(file.icon)))
    }
}

/// The AppImages that can be launched, in the order of the file.
pub open spec fn appimages_of(
    files: Seq<FileAppImage>,
    home: Option<Seq<char>>,
    present: Seq<bool>,
) -> Seq<AppImage>
    decreases files.len(),
{
    if files.len() == 0 {
        seq![]
    } else {
        let before = appimages_of(files.drop_last(), home, present);
        match appimage_of(files.last(), home, present[files.len() - 1]) {
            Ok(app) => before.push(app),
            Err(_) => before,
        }
    }
}

/// What is said of the AppImages that cannot.
pub open spec fn appimage_complaints(
    files: Seq<FileAppImage>,
    home: Option<Seq<char>>,
    present: Seq<bool>,
) -> Seq<Complaint>
    decreases files.len(),
{
    if files.len() == 0 {
        seq![]
    } else {
        let before = appimage_complaints(files.drop_last(), home, present);
        match appimage_of(files.last(), home, present[files.len() - 1]) {
            Ok(_) => before,
            Err(complaint) => before.push(complaint),
        }
    }
}

pub open spec fn clamped(value: int, low: int, high: int) -> int {
    if value < low {
        low
    } else if value > high {
        high
    } else {
        value
    }
}

/// The views of a list of AppImages.
pub open spec fn apps_view(apps: Seq<AppImageConfig>) -> Seq<AppImage> {
    apps.map_values(|app: AppImageConfig| app@)
}

/// The views of a list of warnings.
pub open spec fn warnings_view(warnings: Seq<Warning>) -> Seq<Complaint> {
    warnings.map_values(|warning: Warning| warning@)
}

/// The built-in colors are hex colors.
pub proof fn default_palette_is_valid()
    ensures
        all_colors(default_palette()),
{
    reveal_strlit("#10111e");
    reveal_strlit("#1a1b26");
    reveal_strlit("#c0caf5");
    reveal_strlit("#283457");
    reveal_strlit("#7aa2f7");
    reveal_strlit("#565f89");
}

/// What a parsed file sets, and what is said of it.
pub open spec fn reads(
    file: FileConfig,
    home: Option<Seq<char>>,
    present: Seq<bool>,
    set: FileOverrides,
    said: Seq<Complaint>,
) -> bool {
    &&& set.colors@ == palette_of(file.colors)
    &&& set.font_size is Some <==> file.font_size is Some
    &&& set.font_size is Some ==> set.font_size.unwrap() == clamped(
        file.font_size.unwrap() as int,
        FONT_SIZE_MIN as int,
        FONT_SIZE_MAX as int,
    )
    &&& set.lines is Some <==> file.lines is Some
    &&& set.lines is Some ==> set.lines.unwrap() == clamped(
        file.lines.unwrap() as int,
        LINES_MIN as int,
        LINES_MAX as int,
    )
    &&& set.dim is Some <==> file.dim is Some
    &&& set.dim is Some ==> set.dim.unwrap() == file.dim.unwrap().clamped()
    &&& set.blur is Some <==> file.blur is Some
    &&& set.blur is Some ==> set.blur.unwrap() == clamped(
        file.blur.unwrap() as int,
        0,
        MAX_BLUR as int,
    )
    &&& apps_view(set.appimages@) == appimages_of(file.appimages@, home, present)
    &&& said == palette_complaints(file.colors) + appimage_complaints(
        file.appimages@,
        home,
        present,
    )
}

/// Nothing is set but the built-in colors.
pub open spec fn sets_nothing(set: FileOverrides) -> bool {
    &&& set.colors@ == default_palette()
    &&& set.font_size is None
    &&& set.lines is None
    &&& set.dim is None
    &&& set.blur is None
    &&& set.appimages@.len() == 0
}

/// What the file layer sets, and what is said of it: nothing for a file that
/// is missing or could not be read or parsed.
pub open spec fn layers(
    file: Option<FileConfig>,
    home: Option<Seq<char>>,
    present: Seq<bool>,
    set: FileOverrides,
    said: Seq<Complaint>,
) -> bool {
    match file {
        Some(file) => reads(file, home, present, set, said),
        None => sets_nothing(set) && said.len() == 0,
    }
}

/// `after` is `before` with what the file sets in place of it.
pub open spec fn overridden(before: Config, file: FileOverrides, after: Config) -> bool {
    &&& after.lines == or_else(file.lines, before.lines)
    &&& after.width == before.width
    &&& after.placeholder == before.placeholder
    &&& after.query == before.query
    &&& after.blur == or_else(file.blur, before.blur)
    &&& after.dim == or_else(file.dim, before.dim)
    &&& after.font_size == or_else(file.font_size, before.font_size)
    &&& after.colors == file.colors
    &&& after.appimages == file.appimages
}

/// Every setting lies in its accepted range, and every color is one.
pub open spec fn in_range(config: Config) -> bool {
    &&& LINES_MIN <= config.lines <= LINES_MAX
    &&& WIDTH_MIN <= config.width <= WIDTH_MAX
    &&& config.blur <= MAX_BLUR
    &&& config.dim.in_range()
    &&& FONT_SIZE_MIN <= config.font_size <= FONT_SIZE_MAX
    &&& all_colors(config.colors@)
}

/// The file layer keeps every setting in its accepted range, as long as the
/// file's opacity is a number, which everything that JSON can say is.
pub proof fn file_layer_stays_in_range(
    before: Config,
    file: Option<FileConfig>,
    home: Option<Seq<char>>,
    present: Seq<bool>,
    set: FileOverrides,
    said: Seq<Complaint>,
    after: Config,
)
    requires
        in_range(before),
        file is Some && file.unwrap().dim is Some ==> file.unwrap().dim.unwrap().magnitude()
            <= INFINITE,
        layers(file, home, present, set, said),
        overridden(before, set, after),
    ensures
        in_range(after),
{
    default_palette_is_valid();
}

pub fn clamp_u32(value: u32, low: u32, high: u32) -> (r: u32)
    requires
        low <= high,
    ensures
        r == clamped(value as int, low as int, high as int),
{
    if value < low {
        low
    } else if value > high {
        high
    } else {
        value
    }
}

pub fn clamp_usize(value: usize, low: usize, high: usize) -> (r: usize)
    requires
        low <= high,
    ensures
        r == clamped(value as int, low as int, high as int),
{
    if value < low {
        low
    } else if value > high {
        high
    } else {
        value
    }
}

pub fn clamp_i32(value: i32, low: i32, high: i32) -> (r: i32)
    requires
        low <= high,
    ensures
        r == clamped(value as int, low as int, high as int),
{
    if value < low {
        low
    } else if value > high {
        high
    } else {
        value
    }
}

/// The color that a field is set to, if that is one; a warning if it is not.
pub fn valid_hex(value: String, field: &'static str) -> (r: Result<String, Warning>)
    ensures
        match r {
            Ok(color) => color == value && is_color(value@),
            Err(warning) => !is_color(value@) && warning@ == Complaint::Color(field@, value@),
        },
{
    if parse_hex(&value).is_some() {
        Ok(value)
    } else {
        Err(Warning::Color(field, value))
    }
}

/// The color for a field, with the warning it may call for.
fn settle(
    given: Option<String>,
    fallback: String,
    field: &'static str,
    warnings: &mut Vec<Warning>,
) -> (r: String)
    ensures
        r@ == color_or(text_of(given), fallback@),
        warnings_view(final(warnings)@) == warnings_view(old(warnings)@) + color_complaint(
            text_of(given),
            field@,
        ),
{
    let ghost before = warnings_view(warnings@);
    match given {
        Some(value) => match valid_hex(value, field) {
            Ok(color) => {
                assert(before =~= before + Seq::<Complaint>::empty());
                color
            },
            Err(warning) => {
                warnings.push(warning);
                assert(warnings_view(warnings@) =~= before + seq![warning@]);
                fallback
            },
        },
        None => {
            assert(before =~= before + Seq::<Complaint>::empty());
            fallback
        },
    }
}

impl FileAppImage {
    /// The entry with its path expanded. `present` says whether there is a
    /// file at that path.
    pub fn into_config(self, home: &Option<String>, present: bool) -> (r: Result<
        AppImageConfig,
        Warning,
    >)
        ensures
            match r {
                Ok(app) => appimage_of(self, text_of(*home), present) == Ok::<
                    AppImage,
                    Complaint,
                >(app@),
                Err(warning) => appimage_of(self, text_of(*home), present) == Err::<
                    AppImage,
                    Complaint,
                >(warning@),
            },
            r is Ok <==> named(self.name@) && present,
            r matches Ok(app) ==> launches_file(app, self, text_of(*home)),
    {
        proof {
            crate::text::trimmed_is_empty_when_blank(self.name@);
        }
        let path = expand_tilde(&self.path, home);
        let name = trim(&self.name);
        if name.as_str().is_empty() {
            return Err(Warning::EmptyName(path));
        }
        if !present {
            return Err(Warning::NoSuchFile(path));
        }
        Ok(AppImageConfig { name: self.name, path, icon: self.icon })
    }
}

/// There is more to a name than white space.
pub open spec fn named(name: Seq<char>) -> bool {
    exists|i: int| 0 <= i < name.len() && !crate::text::white_space(#[trigger] name[i])
}

/// `app` is what the file's entry says, with the home directory in place of a
/// leading `~/`.
pub open spec fn launches_file(
    app: AppImageConfig,
    entry: FileAppImage,
    home: Option<Seq<char>>,
) -> bool {
    &&& app.name@ == entry.name@
    &&& text_of(app.icon) == text_of(entry.icon)
    &&& app.path@ == if entry.path@.len() >= 2 && entry.path@[0] == '~' && entry.path@[1] == '/'
        && home is Some {
        crate::path::joined(home.unwrap(), entry.path@.skip(2))
    } else {
        entry.path@
    }
}

/// The file has an entry for `app` with a name and a file.
pub open spec fn comes_from_file(
    app: AppImageConfig,
    files: Seq<FileAppImage>,
    present: Seq<bool>,
    home: Option<Seq<char>>,
) -> bool {
    exists|i: int|
        0 <= i < files.len() && present[i] && named(files[i].name@) && launches_file(
            app,
            #[trigger] files[i],
            home,
        )
}

/// Every AppImage of the file that has a name and a file is taken, with its
/// own name, path and icon, and no other is.
pub proof fn appimages_with_a_name_and_a_file_are_taken(
    files: Seq<FileAppImage>,
    home: Option<Seq<char>>,
    present: Seq<bool>,
    apps: Seq<AppImageConfig>,
)
    requires
        present.len() == files.len(),
        apps_view(apps) == appimages_of(files, home, present),
    ensures
        forall|i: int|
            #![trigger files[i]]
            0 <= i < files.len() && present[i] && named(files[i].name@) ==> exists|k: int|
                0 <= k < apps.len() && launches_file(#[trigger] apps[k], files[i], home),
        forall|k: int|
            0 <= k < apps.len() ==> comes_from_file(#[trigger] apps[k], files, present, home),
{
    assert forall|i: int|
        #![trigger files[i]]
        0 <= i < files.len() && present[i] && named(files[i].name@) implies exists|k: int|
        0 <= k < apps.len() && launches_file(#[trigger] apps[k], files[i], home) by {
        let k = lemma_taken(files, home, present, i);
        assert(apps_view(apps)[k] == apps[k]@);
    }
    assert forall|k: int| 0 <= k < apps.len() implies comes_from_file(
        #[trigger] apps[k],
        files,
        present,
        home,
    ) by {
        let i = lemma_taken_from(files, home, present, k);
        assert(apps_view(apps)[k] == apps[k]@);
        assert(launches_file(apps[k], files[i], home));
    }
}

/// The AppImages are taken one after the other: one more entry with a name and
/// a file is one more AppImage behind the others, and any other entry is none.
pub proof fn appimages_are_taken_one_by_one(
    files: Seq<FileAppImage>,
    entry: FileAppImage,
    home: Option<Seq<char>>,
    present: Seq<bool>,
)
    requires
        present.len() == files.len() + 1,
    ensures
        appimages_of(files.push(entry), home, present) == if present.last() && named(entry.name@) {
            appimages_of(files, home, present).push(
                (
                    entry.name@,
                    if entry.path@.len() >= 2 && entry.path@[0] == '~' && entry.path@[1] == '/'
                        && home is Some {
                        crate::path::joined(home.unwrap(), entry.path@.skip(2))
                    } else {
                        entry.path@
                    },
                    text_of(entry.icon),
                ),
            )
        } else {
            appimages_of(files, home, present)
        },
{
    crate::text::trimmed_is_empty_when_blank(entry.name@);
    assert(files.push(entry).drop_last() == files);
}

proof fn lemma_taken(
    files: Seq<FileAppImage>,
    home: Option<Seq<char>>,
    present: Seq<bool>,
    i: int,
) -> (k: int)
    requires
        0 <= i < files.len(),
        present[i],
        named(files[i].name@),
    ensures
        0 <= k < appimages_of(files, home, present).len(),
        appimage_of(files[i], home, true) == Ok::<AppImage, Complaint>(
            appimages_of(files, home, present)[k],
        ),
    decreases files.len(),
{
    crate::text::trimmed_is_empty_when_blank(files[i].name@);
    let before = appimages_of(files.drop_last(), home, present);
    if i == files.len() - 1 {
        before.len() as int
    } else {
        assert(files.drop_last()[i] == files[i]);
        lemma_taken(files.drop_last(), home, present, i)
    }
}

proof fn lemma_taken_from(
    files: Seq<FileAppImage>,
    home: Option<Seq<char>>,
    present: Seq<bool>,
    k: int,
) -> (i: int)
    requires
        0 <= k < appimages_of(files, home, present).len(),
    ensures
        0 <= i < files.len(),
        present[i],
        named(files[i].name@),
        appimage_of(files[i], home, true) == Ok::<AppImage, Complaint>(
            appimages_of(files, home, present)[k],
        ),
    decreases files.len(),
{
    let before = appimages_of(files.drop_last(), home, present);
    if k < before.len() {
        let i = lemma_taken_from(files.drop_last(), home, present, k);
        assert(files.drop_last()[i] == files[i]);
        i
    } else {
        let i = files.len() - 1;
        crate::text::trimmed_is_empty_when_blank(files[i].name@);
        i
    }
}

/// Each key of the file sets the color of its name: the text it gives, if that
/// is a hex color, and else that name's default.
pub proof fn each_key_sets_the_color_of_its_name(
    file: FileConfig,
    home: Option<Seq<char>>,
    present: Seq<bool>,
    set: FileOverrides,
    said: Seq<Complaint>,
)
    requires
        reads(file, home, present, set, said),
    ensures
        set.colors.background@ == (match file.colors.background {
            Some(given) if is_color(given@) => given@,
            _ => "#10111e"@,
        }),
        set.colors.panel@ == (match file.colors.panel {
            Some(given) if is_color(given@) => given@,
            _ => "#1a1b26"@,
        }),
        set.colors.foreground@ == (match file.colors.foreground {
            Some(given) if is_color(given@) => given@,
            _ => "#c0caf5"@,
        }),
        set.colors.selection@ == (match file.colors.selection {
            Some(given) if is_color(given@) => given@,
            _ => "#283457"@,
        }),
        set.colors.accent@ == (match file.colors.accent {
            Some(given) if is_color(given@) => given@,
            _ => "#7aa2f7"@,
        }),
        set.colors.muted@ == (match file.colors.muted {
            Some(given) if is_color(given@) => given@,
            _ => "#565f89"@,
        }),
{
}

/// Each number of the file sets the setting of its name, brought into the range
/// that is accepted.
pub proof fn each_number_is_brought_into_its_range(
    file: FileConfig,
    home: Option<Seq<char>>,
    present: Seq<bool>,
    set: FileOverrides,
    said: Seq<Complaint>,
)
    requires
        reads(file, home, present, set, said),
    ensures
        set.font_size == (match file.font_size {
            Some(v) => Some(
                if v < 8 {
                    8
                } else if v > 60 {
                    60
                } else {
                    v
                },
            ),
            None => None,
        }),
        set.lines == (match file.lines {
            Some(v) => Some(
                if v < 1 {
                    1
                } else if v > 50 {
                    50
                } else {
                    v
                },
            ),
            None => None,
        }),
        set.blur == (match file.blur {
            Some(v) => Some(
                if v > 200 {
                    200
                } else {
                    v
                },
            ),
            None => None,
        }),
        set.dim is Some <==> file.dim is Some,
        set.dim matches Some(dim) ==> {
            let given = file.dim.unwrap();
            &&& given.finite() ==> dim.in_range()
            &&& given.in_range() ==> dim == given
            &&& given.finite() && !given.in_range() ==> dim.bits == (if given.negative() {
                0
            } else {
                0x3FF0_0000_0000_0000u64
            })
        },
{
}

/// What is said of colors is said by name: of every color that is given and is
/// no hex color, and of no other.
pub proof fn every_bad_color_is_named(
    file: FileConfig,
    home: Option<Seq<char>>,
    present: Seq<bool>,
    set: FileOverrides,
    said: Seq<Complaint>,
    name: Seq<char>,
    value: Seq<char>,
)
    requires
        reads(file, home, present, set, said),
    ensures
        said.contains(Complaint::Color(name, value)) <==> !is_color(value) && {
            ||| name == "background"@ && text_of(file.colors.background) == Some(value)
            ||| name == "panel"@ && text_of(file.colors.panel) == Some(value)
            ||| name == "foreground"@ && text_of(file.colors.foreground) == Some(value)
            ||| name == "selection"@ && text_of(file.colors.selection) == Some(value)
            ||| name == "accent"@ && text_of(file.colors.accent) == Some(value)
            ||| name == "muted"@ && text_of(file.colors.muted) == Some(value)
        },
{
    let bad = Complaint::Color(name, value);
    let c = file.colors;
    let s1 = color_complaint(text_of(c.background), "background"@);
    lemma_color_said(text_of(c.background), "background"@, name, value);
    let s2 = color_complaint(text_of(c.panel), "panel"@);
    lemma_color_said(text_of(c.panel), "panel"@, name, value);
    let s3 = color_complaint(text_of(c.foreground), "foreground"@);
    lemma_color_said(text_of(c.foreground), "foreground"@, name, value);
    let s4 = color_complaint(text_of(c.selection), "selection"@);
    lemma_color_said(text_of(c.selection), "selection"@, name, value);
    let s5 = color_complaint(text_of(c.accent), "accent"@);
    lemma_color_said(text_of(c.accent), "accent"@, name, value);
    let s6 = color_complaint(text_of(c.muted), "muted"@);
    lemma_color_said(text_of(c.muted), "muted"@, name, value);
    let rest = appimage_complaints(file.appimages@, home, present);
    lemma_no_color_said(file.appimages@, home, present, bad);
    lemma_said_either(s1, s2, bad);
    lemma_said_either(s1 + s2, s3, bad);
    lemma_said_either(s1 + s2 + s3, s4, bad);
    lemma_said_either(s1 + s2 + s3 + s4, s5, bad);
    lemma_said_either(s1 + s2 + s3 + s4 + s5, s6, bad);
    lemma_said_either(s1 + s2 + s3 + s4 + s5 + s6, rest, bad);
}

proof fn lemma_said_either(a: Seq<Complaint>, b: Seq<Complaint>, it: Complaint)
    ensures
        (a + b).contains(it) <==> a.contains(it) || b.contains(it),
{
    if a.contains(it) {
        let i = choose|i: int| 0 <= i < a.len() && a[i] == it;
        assert((a + b)[i] == it);
    }
    if b.contains(it) {
        let i = choose|i: int| 0 <= i < b.len() && b[i] == it;
        assert((a + b)[a.len() + i] == it);
    }
}

proof fn lemma_color_said(
    given: Option<Seq<char>>,
    field: Seq<char>,
    name: Seq<char>,
    value: Seq<char>,
)
    ensures
        color_complaint(given, field).contains(Complaint::Color(name, value)) <==> name == field
            && given == Some(value) && !is_color(value),
{
    let said = color_complaint(given, field);
    if said.len() > 0 {
        assert(said[0] == Complaint::Color(field, given.unwrap()));
    }
}

proof fn lemma_no_color_said(
    files: Seq<FileAppImage>,
    home: Option<Seq<char>>,
    present: Seq<bool>,
    it: Complaint,
)
    requires
        it is Color,
    ensures
        !appimage_complaints(files, home, present).contains(it),
    decreases files.len(),
{
    if files.len() > 0 {
        lemma_no_color_said(files.drop_last(), home, present, it);
        let before = appimage_complaints(files.drop_last(), home, present);
        let after = appimage_complaints(files, home, present);
        if after.contains(it) {
            let i = choose|i: int| 0 <= i < after.len() && after[i] == it;
            if i < before.len() {
                assert(before[i] == it);
            }
        }
    }
}

/// What is said of AppImages is said one after the other: of an entry without a
/// name that it has none, of one with a name and without a file that there is
/// no such file, and of the others nothing.
pub proof fn bad_appimages_are_named_one_by_one(
    files: Seq<FileAppImage>,
    entry: FileAppImage,
    home: Option<Seq<char>>,
    present: Seq<bool>,
)
    requires
        present.len() == files.len() + 1,
    ensures
        appimage_complaints(files.push(entry), home, present) == ({
            let before = appimage_complaints(files, home, present);
            let path = if entry.path@.len() >= 2 && entry.path@[0] == '~' && entry.path@[1] == '/'
                && home is Some {
                crate::path::joined(home.unwrap(), entry.path@.skip(2))
            } else {
                entry.path@
            };
            if !named(entry.name@) {
                before.push(Complaint::EmptyName(path))
            } else if !present.last() {
                before.push(Complaint::NoSuchFile(path))
            } else {
                before
            }
        }),
{
    crate::text::trimmed_is_empty_when_blank(entry.name@);
    assert(files.push(entry).drop_last() == files);
}

/// A hex color reads as its three channels with a comma and a space between
/// them, and what is none as black.
pub proof fn triplet_reads_red_green_blue(hex: Seq<char>)
    ensures
        rgb_of(hex) matches Some((r, g, b)) ==> triplet_of(hex) == crate::number::decimal(r as nat)
            + ", "@ + crate::number::decimal(g as nat) + ", "@ + crate::number::decimal(b as nat),
        rgb_of(hex) is None ==> triplet_of(hex) == "0, 0, 0"@,
{
    reveal_strlit(", ");
    reveal_strlit("0, 0, 0");
    assert(", "@ =~= seq![',', ' ']);
    if rgb_of(hex) is None {
        crate::number::decimal_is_digits(0);
        crate::number::decimal_has_no_leading_zero(0);
        let zero = crate::number::decimal(0);
        assert(zero[0] == '0');
        assert(triplet_of(hex) =~= "0, 0, 0"@);
    }
}

/// A hex digit is one of sixteen, in either case, and worth its place among
/// them.
pub proof fn hex_digits_count_up(c: char)
    ensures
        hex_value(c) is Some <==> "0123456789abcdef"@.contains(c) || "0123456789ABCDEF"@.contains(c),
        hex_value(c) matches Some(v) ==> 0 <= v < 16 && ("0123456789abcdef"@[v] == c
            || "0123456789ABCDEF"@[v] == c),
{
    reveal_strlit("0123456789abcdef");
    reveal_strlit("0123456789ABCDEF");
    let (low, high) = ("0123456789abcdef"@, "0123456789ABCDEF"@);
    if let Some(v) = hex_value(c) {
        assert(v == 0 || v == 1 || v == 2 || v == 3 || v == 4 || v == 5 || v == 6 || v == 7 || v
            == 8 || v == 9 || v == 10 || v == 11 || v == 12 || v == 13 || v == 14 || v == 15);
        assert(low[v] == c || high[v] == c);
    }
    if low.contains(c) {
        let v = choose|v: int| 0 <= v < low.len() && low[v] == c;
        assert(v == 0 || v == 1 || v == 2 || v == 3 || v == 4 || v == 5 || v == 6 || v == 7 || v
            == 8 || v == 9 || v == 10 || v == 11 || v == 12 || v == 13 || v == 14 || v == 15);
    }
    if high.contains(c) {
        let v = choose|v: int| 0 <= v < high.len() && high[v] == c;
        assert(v == 0 || v == 1 || v == 2 || v == 3 || v == 4 || v == 5 || v == 6 || v == 7 || v
            == 8 || v == 9 || v == 10 || v == 11 || v == 12 || v == 13 || v == 14 || v == 15);
    }
}

/// What the parsed file sets. `home` is the home directory and `present` says,
/// for each AppImage, whether there is a file at its expanded path.
pub fn load_from(file: FileConfig, home: &Option<String>, present: &Vec<bool>) -> (r: (
    FileOverrides,
    Vec<Warning>,
))
    requires
        present@.len() == file.appimages@.len(),
    ensures
        reads(file, text_of(*home), present@, r.0, warnings_view(r.1@)),
        all_colors(r.0.colors@),
        // Each key sets the color of its name, and where it is missing or no
        // color that name's default stays.
        r.0.colors.background@ == (match file.colors.background {
            Some(given) if is_color(given@) => given@,
            _ => "#10111e"@,
        }),
        r.0.colors.panel@ == (match file.colors.panel {
            Some(given) if is_color(given@) => given@,
            _ => "#1a1b26"@,
        }),
        r.0.colors.foreground@ == (match file.colors.foreground {
            Some(given) if is_color(given@) => given@,
            _ => "#c0caf5"@,
        }),
        r.0.colors.selection@ == (match file.colors.selection {
            Some(given) if is_color(given@) => given@,
            _ => "#283457"@,
        }),
        r.0.colors.accent@ == (match file.colors.accent {
            Some(given) if is_color(given@) => given@,
            _ => "#7aa2f7"@,
        }),
        r.0.colors.muted@ == (match file.colors.muted {
            Some(given) if is_color(given@) => given@,
            _ => "#565f89"@,
        }),
        r.0.font_size == (match file.font_size {
            Some(v) => Some(
                if v < 8 {
                    8
                } else if v > 60 {
                    60
                } else {
                    v
                },
            ),
            None => None,
        }),
        r.0.lines == (match file.lines {
            Some(v) => Some(
                if v < 1 {
                    1
                } else if v > 50 {
                    50
                } else {
                    v
                },
            ),
            None => None,
        }),
        r.0.blur == (match file.blur {
            Some(v) => Some(
                if v > 200 {
                    200
                } else {
                    v
                },
            ),
            None => None,
        }),
        r.0.dim is Some <==> file.dim is Some,
        r.0.dim matches Some(dim) ==> {
            let given = file.dim.unwrap();
            &&& given.finite() ==> dim.in_range()
            &&& given.in_range() ==> dim == given
            &&& given.finite() && !given.in_range() ==> dim.bits == (if given.negative() {
                0
            } else {
                0x3FF0_0000_0000_0000u64
            })
        },
        // Every AppImage that has a name and a file is taken, and no other.
        forall|i: int|
            #![trigger file.appimages@[i]]
            0 <= i < file.appimages@.len() && present@[i] && named(file.appimages@[i].name@)
                ==> exists|k: int|
                0 <= k < r.0.appimages@.len() && launches_file(
                    #[trigger] r.0.appimages@[k],
                    file.appimages@[i],
                    text_of(*home),
                ),
        forall|k: int|
            0 <= k < r.0.appimages@.len() ==> comes_from_file(
                #[trigger] r.0.appimages@[k],
                file.appimages@,
                present@,
                text_of(*home),
            ),
{
    let mut warnings: Vec<Warning> = Vec::new();
    let fallback = Colors::default();
    assert(warnings_view(warnings@) =~= Seq::<Complaint>::empty());
    let colors = Colors {
        background: settle(
            file.colors.background,
            fallback.background,
            "background",
            &mut warnings,
        ),
        panel: settle(file.colors.panel, fallback.panel, "panel", &mut warnings),
        foreground: settle(
            file.colors.foreground,
            fallback.foreground,
            "foreground",
            &mut warnings,
        ),
        selection: settle(file.colors.selection, fallback.selection, "selection", &mut warnings),
        accent: settle(file.colors.accent, fallback.accent, "accent", &mut warnings),
        muted: settle(file.colors.muted, fallback.muted, "muted", &mut warnings),
    };
    let ghost said = warnings_view(warnings@);
    proof {
        default_palette_is_valid();
        assert(said =~= palette_complaints(file.colors));
    }

    let mut appimages: Vec<AppImageConfig> = Vec::new();
    let ghost files = file.appimages@;
    let ghost whole = file.appimages@;
    let ghost place = text_of(*home);
    let many: usize = present.len();
    let mut i: usize = 0;
    assert(apps_view(appimages@) =~= Seq::<AppImage>::empty());
    assert(said + Seq::<Complaint>::empty() =~= said);
    for entry in it: file.appimages
        invariant
            it.seq() == files,
            i == it.index(),
            files.len() == present@.len() == many,
            place == text_of(*home),
            apps_view(appimages@) == appimages_of(files.take(i as int), place, present@),
            warnings_view(warnings@) == said + appimage_complaints(
                files.take(i as int),
                place,
                present@,
            ),
    {
        let ghost shown = apps_view(appimages@);
        let ghost heard = warnings_view(warnings@);
        proof {
            let next = files.take(i + 1);
            assert(next.drop_last() == files.take(i as int));
            assert(next.last() == entry);
        }
        match entry.into_config(home, present[i]) {
            Ok(app) => {
                appimages.push(app);
                assert(apps_view(appimages@) =~= shown.push(app@));
            },
            Err(warning) => {
                warnings.push(warning);
                assert(warnings_view(warnings@) =~= heard.push(warning@));
                assert(heard.push(warning@) =~= said + appimage_complaints(
                    files.take(i as int),
                    place,
                    present@,
                ).push(warning@));
            },
        }
        i += 1;
    }
    assert(files.take(files.len() as int) == files);

    let font_size = match file.font_size {
        Some(v) => Some(clamp_u32(v, FONT_SIZE_MIN, FONT_SIZE_MAX)),
        None => None,
    };
    let lines = match file.lines {
        Some(v) => Some(clamp_usize(v, LINES_MIN, LINES_MAX)),
        None => None,
    };
    let dim = match file.dim {
        Some(v) => Some(v.clamp()),
        None => None,
    };
    let blur = match file.blur {
        Some(v) => Some(clamp_u32(v, 0, MAX_BLUR)),
        None => None,
    };
    let r = (FileOverrides { colors, font_size, lines, dim, blur, appimages }, warnings);
    proof {
        appimages_with_a_name_and_a_file_are_taken(whole, place, present@, r.0.appimages@);
    }
    r
}

/// What the file layer sets: nothing for a file that is missing or could not
/// be read or parsed.
pub fn load(file: Option<FileConfig>, home: &Option<String>, present: &Vec<bool>) -> (r: (
    FileOverrides,
    Vec<Warning>,
))
    requires
        file is Some ==> present@.len() == file.unwrap().appimages@.len(),
    ensures
        layers(file, text_of(*home), present@, r.0, warnings_view(r.1@)),
        all_colors(r.0.colors@),
{
    match file {
        Some(file) => load_from(file, home, present),
        None => {
            proof {
                default_palette_is_valid();
            }
            let warnings: Vec<Warning> = Vec::new();
            (FileOverrides::default(), warnings)
        },
    }
}

impl Config {
    /// Applies the settings file on top of `self`. Done before the command
    /// line is parsed, so a flag still wins over the file. `file` is what was
    /// parsed of it, if anything, `home` the home directory, and `present`
    /// says for each AppImage whether there is a file at its expanded path.
    pub fn with_file_overrides(
        self,
        file: Option<FileConfig>,
        home: &Option<String>,
        present: &Vec<bool>,
    ) -> (r: (Self, Vec<Warning>))
        requires
            file is Some ==> present@.len() == file.unwrap().appimages@.len(),
        ensures
            exists|set: FileOverrides| #[trigger]
                layers(file, text_of(*home), present@, set, warnings_view(r.1@)) && overridden(
                    self,
                    set,
                    r.0,
                ),
            all_colors(r.0.colors@),
            // What the file sets is set, in range, and what it leaves out stays.
            file matches Some(f) ==> {
                &&& r.0.lines == (match f.lines {
                    Some(v) => {
                        if v < 1 {
                        1
                    } else if v > 50 {
                            50
                        } else {
                            v
                        }
                    },
                    None => self.lines,
                })
                &&& r.0.font_size == (match f.font_size {
                    Some(v) => {
                        if v < 8 {
                        8
                    } else if v > 60 {
                            60
                        } else {
                            v
                        }
                    },
                    None => self.font_size,
                })
                &&& r.0.blur == (match f.blur {
                    Some(v) => {
                        if v > 200 {
                            200
                        } else {
                            v
                        }
                    },
                    None => self.blur,
                })
                &&& f.dim is None ==> r.0.dim == self.dim
                &&& f.dim is Some && f.dim.unwrap().in_range() ==> r.0.dim == f.dim.unwrap()
                &&& r.0.colors.background@ == (match f.colors.background {
                    Some(given) if is_color(given@) => given@,
                    _ => "#10111e"@,
                })
                &&& r.0.colors.panel@ == (match f.colors.panel {
                    Some(given) if is_color(given@) => given@,
                    _ => "#1a1b26"@,
                })
                &&& r.0.colors.foreground@ == (match f.colors.foreground {
                    Some(given) if is_color(given@) => given@,
                    _ => "#c0caf5"@,
                })
                &&& r.0.colors.selection@ == (match f.colors.selection {
                    Some(given) if is_color(given@) => given@,
                    _ => "#283457"@,
                })
                &&& r.0.colors.accent@ == (match f.colors.accent {
                    Some(given) if is_color(given@) => given@,
                    _ => "#7aa2f7"@,
                })
                &&& r.0.colors.muted@ == (match f.colors.muted {
                    Some(given) if is_color(given@) => given@,
                    _ => "#565f89"@,
                })
            },
            file is None ==> {
                &&& r.0.lines == self.lines
                &&& r.0.font_size == self.font_size
                &&& r.0.blur == self.blur
                &&& r.0.dim == self.dim
                &&& r.0.appimages@.len() == 0
                &&& r.1@.len() == 0
                &&& r.0.colors.background@ == "#10111e"@
                &&& r.0.colors.panel@ == "#1a1b26"@
                &&& r.0.colors.foreground@ == "#c0caf5"@
                &&& r.0.colors.selection@ == "#283457"@
                &&& r.0.colors.accent@ == "#7aa2f7"@
                &&& r.0.colors.muted@ == "#565f89"@
            },
            r.0.width == self.width,
            r.0.placeholder == self.placeholder,
            r.0.query == self.query,
    {
        let (set, warnings) = load(file, home, present);
        let ghost given = set;
        let config = self.overridden_by(set);
        let r = (config, warnings);
        proof {
            if file is None {
                assert(warnings_view(r.1@).len() == r.1@.len());
            }
        }
        assert(layers(file, text_of(*home), present@, given, warnings_view(r.1@)));
        assert(overridden(self, given, r.0));
        r
    }

    pub fn overridden_by(self, file: FileOverrides) -> (r: Self)
        ensures
            overridden(self, file, r),
            r.lines == (match file.lines {
                Some(v) => v,
                None => self.lines,
            }),
            r.dim == (match file.dim {
                Some(v) => v,
                None => self.dim,
            }),
            r.blur == (match file.blur {
                Some(v) => v,
                None => self.blur,
            }),
            r.font_size == (match file.font_size {
                Some(v) => v,
                None => self.font_size,
            }),
            r.colors == file.colors,
            r.appimages == file.appimages,
            r.width == self.width,
            r.placeholder == self.placeholder,
            r.query == self.query,
    {
        let mut config = self;
        config.colors = file.colors;
        config.appimages = file.appimages;
        if let Some(v) = file.font_size {
            config.font_size = v;
        }
        if let Some(v) = file.lines {
            config.lines = v;
        }
        if let Some(v) = file.dim {
            config.dim = v;
        }
        if let Some(v) = file.blur {
            config.blur = v;
        }
        config
    }
}

} // verus!
