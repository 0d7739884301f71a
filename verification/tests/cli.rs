use launchr::cli::{flag_dim, flag_number, flag_signed, flag_value, parse_args, DEFAULT_BLUR};
use launchr::config::{Config, Dim};

fn args(list: &[&str]) -> Vec<String> {
    list.iter().map(|s| (*s).to_owned()).collect()
}

fn dim(value: f64) -> Dim {
    Dim { bits: value.to_bits() }
}

fn run(base: Config, list: &[&str]) -> Result<Option<Config>, String> {
    let doubles = list.iter().map(|s| s.parse::<f64>().ok().map(dim)).collect();
    parse_args(base, args(list), doubles)
}

fn parse(list: &[&str]) -> Config {
    run(Config::default(), list).expect("should parse").expect("should not be --help")
}

fn error(list: &[&str]) -> String {
    run(Config::default(), list).err().expect("should be rejected")
}

#[test]
fn flags_override_the_defaults() {
    let config = parse(&["-l", "9", "-w", "900", "-p", "run:", "-q", "fire", "-d", "0.5"]);
    assert_eq!(config.lines, 9);
    assert_eq!(config.width, 900);
    assert_eq!(config.placeholder, "run:");
    assert_eq!(config.query, "fire");
    assert_eq!(f64::from_bits(config.dim.bits), 0.5);
}

#[test]
fn flags_override_the_file_layer_they_are_given() {
    let base = Config { lines: 3, blur: 12, ..Config::default() };
    let config = run(base, &["-l", "7"]).unwrap().unwrap();
    assert_eq!(config.lines, 7);
    // Untouched by a flag, so the value handed in survives.
    assert_eq!(config.blur, 12);
}

#[test]
fn out_of_range_values_are_clamped() {
    let config = parse(&["-l", "500", "-w", "10", "-d", "4", "-b", "9000"]);
    assert_eq!(config.lines, 50);
    assert_eq!(config.width, 240);
    assert_eq!(f64::from_bits(config.dim.bits), 1.0);
    assert_eq!(config.blur, 200);
}

#[test]
fn blur_takes_an_optional_radius() {
    assert_eq!(parse(&["-b"]).blur, DEFAULT_BLUR);
    assert_eq!(parse(&["-b", "12"]).blur, 12);
    // A following option must not be eaten as the radius.
    let config = parse(&["-b", "-l", "4"]);
    assert_eq!(config.blur, DEFAULT_BLUR);
    assert_eq!(config.lines, 4);
    // Last flag wins, in both directions.
    assert_eq!(parse(&["-b", "20", "--no-blur"]).blur, 0);
    assert_eq!(parse(&["--no-blur", "-b", "20"]).blur, 20);
}

#[test]
fn bad_arguments_are_rejected() {
    assert!(run(Config::default(), &["--nope"]).is_err());
    assert!(run(Config::default(), &["-l"]).is_err());
    assert!(run(Config::default(), &["-l", "many"]).is_err());
    // Reads as a double and survives clamping, so it needs its own check: it
    // would otherwise reach the stylesheet.
    assert!(run(Config::default(), &["-d", "nan"]).is_err());
    assert!(run(Config::default(), &["-d", "inf"]).is_err());
    assert!(f64::from_bits(parse(&["-d", "0.25"]).dim.bits).is_finite());
}

#[test]
fn help_asks_for_no_window() {
    assert!(run(Config::default(), &["-h"]).unwrap().is_none());
}

#[test]
fn rejected_arguments_are_named() {
    assert_eq!(error(&["--nope"]), "unknown argument: --nope");
    assert_eq!(error(&["-w"]), "-w needs a value");
    assert_eq!(error(&["--prompt"]), "--prompt needs a value");
    assert_eq!(error(&["-q"]), "-q needs a value");
    assert_eq!(error(&["--dim"]), "--dim needs a value");
    assert_eq!(error(&["-l", "-1"]), "-l expects a number");
    assert_eq!(error(&["--width", "x"]), "--width expects a number");
    assert_eq!(error(&["-d", "nan"]), "-d expects a number");
    assert_eq!(error(&["-d", "dark"]), "-d expects a number");
    // A number on its own is no argument.
    assert_eq!(error(&["-b", "7", "8"]), "unknown argument: 8");
}

#[test]
fn long_flags_do_what_the_short_ones_do() {
    let config = parse(&["--lines", "9", "--width", "-3", "--query", "-l", "--blur", "--dim", "0"]);
    assert_eq!(config.lines, 9);
    assert_eq!(config.width, 240);
    assert_eq!(config.query, "-l");
    assert_eq!(config.blur, DEFAULT_BLUR);
    assert_eq!(f64::from_bits(config.dim.bits), 0.0);
    assert!(run(Config::default(), &["--help", "--nope"]).unwrap().is_none());
}

#[test]
fn the_values_behind_flags_are_read() {
    assert_eq!(flag_value("-p", Some("x".to_owned())), Ok("x".to_owned()));
    assert_eq!(flag_value("-p", None), Err("-p needs a value".to_owned()));
    assert_eq!(flag_number("-l", Some("+7".to_owned()), 7), Ok(7));
    assert_eq!(flag_number("-l", Some("8".to_owned()), 7), Err("-l expects a number".to_owned()));
    assert_eq!(flag_signed("-w", Some("-7".to_owned())), Ok(-7));
    assert!(flag_dim("-d", Some("2".to_owned()), Some(dim(2.0))) == Ok(dim(1.0)));
}
