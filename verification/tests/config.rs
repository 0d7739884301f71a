use launchr::config::{
    base_dir, config_path, expand_tilde, load, load_from, parse_hex, rgb_triplet, valid_hex,
    AppImageConfig, Colors, Config, Dim, FileAppImage, FileColors, FileConfig, FileOverrides,
    Warning,
};

fn dim(value: f64) -> Dim {
    Dim { bits: value.to_bits() }
}

fn text(value: &str) -> Option<String> {
    Some(value.to_owned())
}

fn empty_file() -> FileConfig {
    FileConfig {
        colors: FileColors {
            background: None,
            panel: None,
            foreground: None,
            selection: None,
            accent: None,
            muted: None,
        },
        font_size: None,
        lines: None,
        dim: None,
        blur: None,
        appimages: Vec::new(),
    }
}

fn appimage(name: &str, path: &str) -> FileAppImage {
    FileAppImage { name: name.to_owned(), path: path.to_owned(), icon: None }
}

#[test]
fn parses_valid_hex() {
    assert_eq!(parse_hex("#7aa2f7"), Some((0x7a, 0xa2, 0xf7)));
    assert_eq!(parse_hex("#FFFFFF"), Some((255, 255, 255)));
}

#[test]
fn rejects_bad_hex() {
    assert_eq!(parse_hex("7aa2f7"), None); // missing #
    assert_eq!(parse_hex("#7aa2f"), None); // too short
    assert_eq!(parse_hex("#7aa2f77"), None); // too long
    assert_eq!(parse_hex("#zzzzzz"), None); // not hex digits
}

#[test]
fn rgb_triplet_formats_and_falls_back() {
    assert_eq!(rgb_triplet("#7aa2f7"), "122, 162, 247");
    assert_eq!(rgb_triplet("nonsense"), "0, 0, 0");
}

#[test]
fn a_missing_file_is_not_an_error() {
    let (overrides, warnings) = load(None, &text("/home/me"), &vec![]);
    assert!(overrides.appimages.is_empty());
    assert_eq!(overrides.lines, None);
    assert_eq!(overrides.colors.accent, Colors::default().accent);
    assert!(warnings.is_empty());
}

#[test]
fn unparsable_json_falls_back_to_the_defaults() {
    // What cannot be parsed counts as no file at all.
    let (config, warnings) = Config::default().with_file_overrides(None, &None, &vec![]);
    assert_eq!(config.font_size, 21);
    assert_eq!(config.colors.background, Colors::default().background);
    assert!(warnings.is_empty());
}

#[test]
fn file_values_are_read_and_clamped() {
    let mut file = empty_file();
    file.font_size = Some(400);
    file.lines = Some(0);
    file.dim = Some(dim(-1.0));
    file.blur = Some(9000);
    file.colors.accent = text("#ff0000");
    file.colors.muted = text("not a color");
    let (overrides, warnings) = load_from(file, &None, &vec![]);
    assert_eq!(overrides.font_size, Some(60));
    assert_eq!(overrides.lines, Some(1));
    assert!(overrides.dim == Some(dim(0.0)));
    assert_eq!(overrides.blur, Some(200));
    assert_eq!(overrides.colors.accent, "#ff0000");
    // One bad field is skipped; the rest of the file still applies.
    assert_eq!(overrides.colors.muted, Colors::default().muted);
    assert_eq!(warnings.len(), 1);
    assert!(matches!(&warnings[0], Warning::Color("muted", value) if value == "not a color"));
}

#[test]
fn the_file_layer_overrides_only_what_it_sets() {
    let file = FileOverrides { lines: Some(3), blur: Some(12), ..FileOverrides::default() };
    let config = Config::default().overridden_by(file);
    assert_eq!(config.lines, 3);
    assert_eq!(config.blur, 12);
    // Left out of the file, so the built-in default survives.
    assert!(config.dim == Config::default().dim);
    assert_eq!(config.font_size, Config::default().font_size);
}

#[test]
fn appimage_entry_needs_a_real_file() {
    let missing = appimage("Ghost", "/nonexistent/path/does-not-exist.AppImage");
    assert!(matches!(
        missing.into_config(&None, false),
        Err(Warning::NoSuchFile(path)) if path == "/nonexistent/path/does-not-exist.AppImage"
    ));

    let real = appimage("Real", "/tmp/appimage.AppImage");
    let config: AppImageConfig =
        real.into_config(&None, true).ok().expect("existing file should be accepted");
    assert_eq!(config.name, "Real");
    assert_eq!(config.path, "/tmp/appimage.AppImage");
}

#[test]
fn an_appimage_needs_a_name() {
    assert!(matches!(
        appimage(" \u{3000}\t", "~/x.AppImage").into_config(&text("/home/me"), true),
        Err(Warning::EmptyName(path)) if path == "/home/me/x.AppImage"
    ));
}

#[test]
fn appimages_that_are_not_there_are_skipped() {
    let mut file = empty_file();
    file.appimages = vec![appimage("One", "/a"), appimage("Two", "/b"), appimage("", "/c")];
    let (overrides, warnings) = load_from(file, &None, &vec![false, true, true]);
    assert_eq!(overrides.appimages.len(), 1);
    assert_eq!(overrides.appimages[0].name, "Two");
    assert_eq!(warnings.len(), 2);
}

#[test]
fn the_defaults_are_what_they_are() {
    let config = Config::default();
    assert_eq!((config.lines, config.width, config.blur, config.font_size), (6, 680, 0, 21));
    assert_eq!(f64::from_bits(config.dim.bits), 0.75);
    assert_eq!(config.colors.background, "#10111e");
    assert_eq!(config.colors.panel, "#1a1b26");
    assert_eq!(config.colors.foreground, "#c0caf5");
    assert_eq!(config.colors.selection, "#283457");
    assert_eq!(config.colors.accent, "#7aa2f7");
    assert_eq!(config.colors.muted, "#565f89");
}

#[test]
fn opacities_are_clamped_like_doubles() {
    for value in [
        -1.0, -0.0, 0.0, 1e-310, -1e-310, 0.25, 1.0, 1.0000001, 4.0, f64::MAX, f64::MIN,
        f64::INFINITY, f64::NEG_INFINITY,
    ] {
        let got = dim(value).clamp();
        assert_eq!(got.bits, value.clamp(0.0, 1.0).to_bits(), "{value}");
        assert_eq!(dim(value).is_finite(), value.is_finite(), "{value}");
    }
    assert!(!dim(f64::NAN).is_finite());
    assert!(f64::from_bits(dim(f64::NAN).clamp().bits).is_nan());
}

#[test]
fn directories_come_from_the_environment() {
    let home = text("/home/me");
    assert_eq!(config_path(&text("/etc/xdg"), &home), text("/etc/xdg/launchr.json"));
    // A relative directory is not one to trust.
    assert_eq!(config_path(&text("xdg"), &home), text("/home/me/.config/launchr.json"));
    assert_eq!(config_path(&None, &None), None);
    assert_eq!(base_dir(&None, &text("/home/me/"), "x"), text("/home/me/x"));
}

#[test]
fn a_tilde_stands_for_the_home_directory() {
    let home = text("/home/me");
    assert_eq!(expand_tilde("~/apps/x", &home), "/home/me/apps/x");
    assert_eq!(expand_tilde("~/apps/x", &None), "~/apps/x");
    assert_eq!(expand_tilde("~user/x", &home), "~user/x");
    assert_eq!(expand_tilde("/opt/x", &home), "/opt/x");
}

#[test]
fn only_colors_pass() {
    assert!(valid_hex("#ABCdef".to_owned(), "panel").is_ok());
    assert!(matches!(
        valid_hex("red".to_owned(), "panel"),
        Err(Warning::Color("panel", value)) if value == "red"
    ));
}
