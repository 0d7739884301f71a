//! Command line parsing: the last of the three layers of settings, applied on
//! top of the defaults and the settings file.

use crate::config::{clamp_i32, clamp_u32, clamp_usize, in_range, Config, Dim};
use crate::config::{LINES_MAX, LINES_MIN, MAX_BLUR, WIDTH_MAX, WIDTH_MIN};
use crate::number::{parse_signed, parse_unsigned};
use crate::text::same;
use vstd::prelude::*;

verus! {

/// Radius `-b` picks when it is given no number of its own.
pub const DEFAULT_BLUR: u32 = 32;

/// The settings that a flag can change.
pub struct Settings {
    pub lines: int,
    pub width: int,
    pub placeholder: Seq<char>,
    pub query: Seq<char>,
    pub blur: int,
    pub dim: Dim,
}

pub open spec fn settings_of(config: Config) -> Settings {
    Settings {
        lines: config.lines as int,
        width: config.width as int,
        placeholder: config.placeholder@,
        query: config.query@,
        blur: config.blur as int,
        dim: config.dim,
    }
}

/// What comes of the arguments.
pub enum Outcome {
    /// The help was asked for, and no window is wanted.
    Help,
    /// The arguments are rejected, with this message.
    Rejected(Seq<char>),
    Accepted(Settings),
}

pub open spec fn is_flag(arg: Seq<char>, short: Seq<char>, long: Seq<char>) -> bool {
    arg == short || arg == long
}

pub open spec fn needs_value(flag: Seq<char>) -> Outcome {
    Outcome::Rejected(flag + " needs a value"@)
}

pub open spec fn expects_number(flag: Seq<char>) -> Outcome {
    Outcome::Rejected(flag + " expects a number"@)
}

/// The radius that follows `-b`, if a number does.
pub open spec fn radius_after(args: Seq<Seq<char>>) -> Option<int> {
    if args.len() >= 2 {
        crate::number::unsigned(args[1], u32::MAX as int)
    } else {
        None
    }
}

/// What comes of `args`, read from the left, on top of `base`. `reals[i]` is
/// the double that `args[i]` reads as, if it does.
pub open spec fn parsed(base: Settings, args: Seq<Seq<char>>, reals: Seq<Option<Dim>>) -> Outcome
    decreases args.len(),
{
    if args.len() == 0 {
        Outcome::Accepted(base)
    } else {
        let arg = args[0];
        if is_flag(arg, "-h"@, "--help"@) {
            Outcome::Help
        } else if is_flag(arg, "-l"@, "--lines"@) {
            if args.len() < 2 {
                needs_value(arg)
            } else {
                match crate::number::unsigned(args[1], usize::MAX as int) {
                    Some(n) => parsed(
                        Settings {
                            lines: crate::config::clamped(n, LINES_MIN as int, LINES_MAX as int),
                            ..base
                        },
                        args.skip(2),
                        reals.skip(2),
                    ),
                    None => expects_number(arg),
                }
            }
        } else if is_flag(arg, "-w"@, "--width"@) {
            if args.len() < 2 {
                needs_value(arg)
            } else {
                match crate::number::signed(args[1]) {
                    Some(n) => parsed(
                        Settings {
                            width: crate::config::clamped(n, WIDTH_MIN as int, WIDTH_MAX as int),
                            ..base
                        },
                        args.skip(2),
                        reals.skip(2),
                    ),
                    None => expects_number(arg),
                }
            }
        } else if is_flag(arg, "-p"@, "--prompt"@) {
            if args.len() < 2 {
                needs_value(arg)
            } else {
                parsed(
                    Settings { placeholder: args[1], ..base },
                    args.skip(2),
                    reals.skip(2),
                )
            }
        } else if is_flag(arg, "-q"@, "--query"@) {
            if args.len() < 2 {
                needs_value(arg)
            } else {
                parsed(Settings { query: args[1], ..base }, args.skip(2), reals.skip(2))
            }
        } else if is_flag(arg, "-b"@, "--blur"@) {
            match radius_after(args) {
                Some(n) => parsed(
                    Settings { blur: crate::config::clamped(n, 0, MAX_BLUR as int), ..base },
                    args.skip(2),
                    reals.skip(2),
                ),
                None => parsed(
                    Settings { blur: DEFAULT_BLUR as int, ..base },
                    args.skip(1),
                    reals.skip(1),
                ),
            }
        } else if arg == "--no-blur"@ {
            parsed(Settings { blur: 0, ..base }, args.skip(1), reals.skip(1))
        } else if is_flag(arg, "-d"@, "--dim"@) {
            if args.len() < 2 {
                needs_value(arg)
            } else if reals[1] is None || !reals[1].unwrap().finite() {
                expects_number(arg)
            } else {
                parsed(
                    Settings { dim: reals[1].unwrap().clamped(), ..base },
                    args.skip(2),
                    reals.skip(2),
                )
            }
        } else {
            Outcome::Rejected("unknown argument: "@ + arg)
        }
    }
}

// ---------------------------------------------------------------------------
// Laws
// ---------------------------------------------------------------------------

/// Every setting that a flag can change lies in its accepted range.
pub open spec fn settings_in_range(s: Settings) -> bool {
    &&& LINES_MIN <= s.lines <= LINES_MAX
    &&& WIDTH_MIN <= s.width <= WIDTH_MAX
    &&& 0 <= s.blur <= MAX_BLUR
    &&& s.dim.in_range()
}

/// Flags keep every setting in its accepted range.
pub proof fn flags_stay_in_range(base: Settings, args: Seq<Seq<char>>, reals: Seq<Option<Dim>>)
    requires
        settings_in_range(base),
    ensures
        parsed(base, args, reals) matches Outcome::Accepted(s) ==> settings_in_range(s),
    decreases args.len(),
{
    if args.len() > 0 {
        let arg = args[0];
        if args.len() >= 2 {
            if is_flag(arg, "-l"@, "--lines"@) {
                if let Some(n) = crate::number::unsigned(args[1], usize::MAX as int) {
                    let next = Settings {
                        lines: crate::config::clamped(n, LINES_MIN as int, LINES_MAX as int),
                        ..base
                    };
                    flags_stay_in_range(next, args.skip(2), reals.skip(2));
                }
            }
            if is_flag(arg, "-w"@, "--width"@) {
                if let Some(n) = crate::number::signed(args[1]) {
                    let next = Settings {
                        width: crate::config::clamped(n, WIDTH_MIN as int, WIDTH_MAX as int),
                        ..base
                    };
                    flags_stay_in_range(next, args.skip(2), reals.skip(2));
                }
            }
            flags_stay_in_range(
                Settings { placeholder: args[1], ..base },
                args.skip(2),
                reals.skip(2),
            );
            flags_stay_in_range(Settings { query: args[1], ..base }, args.skip(2), reals.skip(2));
            if let Some(n) = radius_after(args) {
                flags_stay_in_range(
                    Settings { blur: crate::config::clamped(n, 0, MAX_BLUR as int), ..base },
                    args.skip(2),
                    reals.skip(2),
                );
            }
            if reals[1] is Some && reals[1].unwrap().finite() {
                flags_stay_in_range(
                    Settings { dim: reals[1].unwrap().clamped(), ..base },
                    args.skip(2),
                    reals.skip(2),
                );
            }
        }
        flags_stay_in_range(
            Settings { blur: DEFAULT_BLUR as int, ..base },
            args.skip(1),
            reals.skip(1),
        );
        flags_stay_in_range(Settings { blur: 0, ..base }, args.skip(1), reals.skip(1));
    }
}

proof fn lemma_flags_differ()
    ensures
        "-h"@.len() == 2 && "-h"@[1] == 'h',
        "--help"@.len() == 6 && "--help"@[2] == 'h',
        "-l"@.len() == 2 && "-l"@[1] == 'l',
        "--lines"@.len() == 7 && "--lines"@[2] == 'l',
        "-w"@.len() == 2 && "-w"@[1] == 'w',
        "--width"@.len() == 7 && "--width"@[2] == 'w',
        "-p"@.len() == 2 && "-p"@[1] == 'p',
        "--prompt"@.len() == 8 && "--prompt"@[2] == 'p',
        "-q"@.len() == 2 && "-q"@[1] == 'q',
        "--query"@.len() == 7 && "--query"@[2] == 'q',
        "-b"@.len() == 2 && "-b"@[1] == 'b',
        "--blur"@.len() == 6 && "--blur"@[2] == 'b',
        "-d"@.len() == 2 && "-d"@[1] == 'd',
        "--dim"@.len() == 5 && "--dim"@[2] == 'd',
        "--no-blur"@.len() == 9 && "--no-blur"@[2] == 'n',
{
    reveal_strlit("-h");
    reveal_strlit("--help");
    reveal_strlit("-l");
    reveal_strlit("--lines");
    reveal_strlit("-w");
    reveal_strlit("--width");
    reveal_strlit("-p");
    reveal_strlit("--prompt");
    reveal_strlit("-q");
    reveal_strlit("--query");
    reveal_strlit("-b");
    reveal_strlit("--blur");
    reveal_strlit("-d");
    reveal_strlit("--dim");
    reveal_strlit("--no-blur");
}

/// `-l` sets the number of rows, between 1 and 50, and nothing else.
pub proof fn lines_flag_sets_the_lines(
    base: Settings,
    flag: Seq<char>,
    value: Seq<char>,
    double: Option<Dim>,
    rest: Seq<Seq<char>>,
    doubles: Seq<Option<Dim>>,
)
    requires
        flag == "-l"@ || flag == "--lines"@,
    ensures
        parsed(base, seq![flag, value] + rest, seq![None::<Dim>, double] + doubles) == (match crate::number::unsigned(value, usize::MAX as int) {
            Some(n) => parsed(
                Settings {
                    lines: if n < 1 {
                        1
                    } else if n > 50 {
                        50
                    } else {
                        n
                    },
                    ..base
                },
                rest,
                doubles,
            ),
            None => Outcome::Rejected(flag + " expects a number"@),
        }),
{
    let args = seq![flag, value] + rest;
    let all = seq![None::<Dim>, double] + doubles;
    lemma_flags_differ();
    assert(args[0] == flag && args[1] == value);
    assert(args.skip(2) =~= rest);
    assert(all.skip(2) =~= doubles);
    assert(all[1] == double);
}

/// `-w` sets the width of the panel, between 240 and 3000, and nothing else.
pub proof fn width_flag_sets_the_width(
    base: Settings,
    flag: Seq<char>,
    value: Seq<char>,
    double: Option<Dim>,
    rest: Seq<Seq<char>>,
    doubles: Seq<Option<Dim>>,
)
    requires
        flag == "-w"@ || flag == "--width"@,
    ensures
        parsed(base, seq![flag, value] + rest, seq![None::<Dim>, double] + doubles) == (match crate::number::signed(value) {
            Some(n) => parsed(
                Settings {
                    width: if n < 240 {
                        240
                    } else if n > 3000 {
                        3000
                    } else {
                        n
                    },
                    ..base
                },
                rest,
                doubles,
            ),
            None => Outcome::Rejected(flag + " expects a number"@),
        }),
{
    let args = seq![flag, value] + rest;
    let all = seq![None::<Dim>, double] + doubles;
    lemma_flags_differ();
    assert(args[0] == flag && args[1] == value);
    assert(args.skip(2) =~= rest);
    assert(all.skip(2) =~= doubles);
    assert(all[1] == double);
}

/// `-p` sets the placeholder, whatever it is, and nothing else.
pub proof fn prompt_flag_sets_the_placeholder(
    base: Settings,
    flag: Seq<char>,
    value: Seq<char>,
    double: Option<Dim>,
    rest: Seq<Seq<char>>,
    doubles: Seq<Option<Dim>>,
)
    requires
        flag == "-p"@ || flag == "--prompt"@,
    ensures
        parsed(base, seq![flag, value] + rest, seq![None::<Dim>, double] + doubles) == parsed(Settings { placeholder: value, ..base }, rest, doubles),
{
    let args = seq![flag, value] + rest;
    let all = seq![None::<Dim>, double] + doubles;
    lemma_flags_differ();
    assert(args[0] == flag && args[1] == value);
    assert(args.skip(2) =~= rest);
    assert(all.skip(2) =~= doubles);
    assert(all[1] == double);
}

/// `-q` sets the query, whatever it is, and nothing else.
pub proof fn query_flag_sets_the_query(
    base: Settings,
    flag: Seq<char>,
    value: Seq<char>,
    double: Option<Dim>,
    rest: Seq<Seq<char>>,
    doubles: Seq<Option<Dim>>,
)
    requires
        flag == "-q"@ || flag == "--query"@,
    ensures
        parsed(base, seq![flag, value] + rest, seq![None::<Dim>, double] + doubles) == parsed(Settings { query: value, ..base }, rest, doubles),
{
    let args = seq![flag, value] + rest;
    let all = seq![None::<Dim>, double] + doubles;
    lemma_flags_differ();
    assert(args[0] == flag && args[1] == value);
    assert(args.skip(2) =~= rest);
    assert(all.skip(2) =~= doubles);
    assert(all[1] == double);
}

/// `-d` sets the opacity to a number between 0.0 and 1.0, and nothing else. A
/// number beyond either becomes it, and what is not finite is rejected.
pub proof fn dim_flag_sets_the_dim(
    base: Settings,
    flag: Seq<char>,
    value: Seq<char>,
    double: Option<Dim>,
    rest: Seq<Seq<char>>,
    doubles: Seq<Option<Dim>>,
)
    requires
        flag == "-d"@ || flag == "--dim"@,
    ensures
        parsed(base, seq![flag, value] + rest, seq![None::<Dim>, double] + doubles) == (if double is None || !double.unwrap().finite() {
            Outcome::Rejected(flag + " expects a number"@)
        } else if double.unwrap().in_range() {
            parsed(Settings { dim: double.unwrap(), ..base }, rest, doubles)
        } else if double.unwrap().negative() {
            parsed(Settings { dim: Dim { bits: 0 }, ..base }, rest, doubles)
        } else {
            parsed(
                Settings { dim: Dim { bits: 0x3FF0_0000_0000_0000 }, ..base },
                rest,
                doubles,
            )
        }),
{
    let args = seq![flag, value] + rest;
    let all = seq![None::<Dim>, double] + doubles;
    lemma_flags_differ();
    assert(args[0] == flag && args[1] == value);
    assert(args.skip(2) =~= rest);
    assert(all.skip(2) =~= doubles);
    assert(all[1] == double);
}

/// `-b` sets the radius of the blur: the number behind it, up to 200, and 32
/// where no number follows, which then leaves what follows alone.
pub proof fn blur_flag_sets_the_radius(
    base: Settings,
    flag: Seq<char>,
    rest: Seq<Seq<char>>,
    doubles: Seq<Option<Dim>>,
)
    requires
        flag == "-b"@ || flag == "--blur"@,
        doubles.len() == rest.len(),
    ensures
        ({
            let outcome = parsed(base, seq![flag] + rest, seq![None::<Dim>] + doubles);
            if rest.len() > 0 && crate::number::unsigned(rest[0], u32::MAX as int) is Some {
                let n = crate::number::unsigned(rest[0], u32::MAX as int).unwrap();
                outcome == parsed(
                    Settings {
                        blur: if n > 200 {
                            200
                        } else {
                            n
                        },
                        ..base
                    },
                    rest.skip(1),
                    doubles.skip(1),
                )
            } else {
                outcome == parsed(Settings { blur: 32, ..base }, rest, doubles)
            }
        }),
{
    let args = seq![flag] + rest;
    let all = seq![None::<Dim>] + doubles;
    lemma_flags_differ();
    assert(args[0] == flag);
    assert(args.skip(1) =~= rest);
    assert(all.skip(1) =~= doubles);
    if rest.len() > 0 {
        assert(args[1] == rest[0]);
        assert(args.skip(2) =~= rest.skip(1));
        assert(all.skip(2) =~= doubles.skip(1));
        crate::number::unsigned_stays_in_range(rest[0], u32::MAX as int);
    }
}

/// `--no-blur` turns the blur off, and changes nothing else.
pub proof fn no_blur_flag_turns_it_off(
    base: Settings,
    rest: Seq<Seq<char>>,
    doubles: Seq<Option<Dim>>,
)
    ensures
        parsed(base, seq!["--no-blur"@] + rest, seq![None::<Dim>] + doubles) == parsed(
            Settings { blur: 0, ..base },
            rest,
            doubles,
        ),
{
    let args = seq!["--no-blur"@] + rest;
    let all = seq![None::<Dim>] + doubles;
    lemma_flags_differ();
    assert(args[0] == "--no-blur"@);
    assert(args.skip(1) =~= rest);
    assert(all.skip(1) =~= doubles);
}

/// `-h` asks for the help, whatever follows.
pub proof fn help_flag_asks_for_help(
    base: Settings,
    flag: Seq<char>,
    rest: Seq<Seq<char>>,
    doubles: Seq<Option<Dim>>,
)
    requires
        flag == "-h"@ || flag == "--help"@,
    ensures
        parsed(base, seq![flag] + rest, doubles) == Outcome::Help,
{
    assert((seq![flag] + rest)[0] == flag);
}

/// A flag that needs a value and ends the arguments is rejected, by name.
pub proof fn flag_without_its_value_is_rejected(
    base: Settings,
    flag: Seq<char>,
    doubles: Seq<Option<Dim>>,
)
    requires
        flag == "-l"@ || flag == "--lines"@ || flag == "-w"@ || flag == "--width"@ || flag == "-p"@ || flag == "--prompt"@ || flag == "-q"@ || flag == "--query"@ || flag == "-d"@ || flag == "--dim"@,
    ensures
        parsed(base, seq![flag], doubles) == Outcome::Rejected(flag + " needs a value"@),
{
    lemma_flags_differ();
    assert(seq![flag][0] == flag);
}

/// Whatever is no flag is rejected, by name, and no argument changes nothing.
pub proof fn anything_else_is_rejected(
    base: Settings,
    other: Seq<char>,
    rest: Seq<Seq<char>>,
    doubles: Seq<Option<Dim>>,
)
    requires
        other != "-h"@,
        other != "--help"@,
        other != "-l"@,
        other != "--lines"@,
        other != "-w"@,
        other != "--width"@,
        other != "-p"@,
        other != "--prompt"@,
        other != "-q"@,
        other != "--query"@,
        other != "-b"@,
        other != "--blur"@,
        other != "-d"@,
        other != "--dim"@,
        other != "--no-blur"@,
    ensures
        parsed(base, seq![other] + rest, doubles) == Outcome::Rejected(
            "unknown argument: "@ + other,
        ),
        parsed(base, seq![], seq![]) == Outcome::Accepted(base),
{
    assert((seq![other] + rest)[0] == other);
}

/// More arguments are read on top of what the ones before came to, so the last
/// flag wins. The one exception is a number right behind a `-b` that ended the
/// arguments before: it becomes the radius.
pub proof fn later_flags_win(
    base: Settings,
    args: Seq<Seq<char>>,
    reals: Seq<Option<Dim>>,
    more: Seq<Seq<char>>,
    more_reals: Seq<Option<Dim>>,
    reached: Settings,
)
    requires
        reals.len() == args.len(),
        parsed(base, args, reals) == Outcome::Accepted(reached),
        more.len() == 0 || crate::number::unsigned(more[0], u32::MAX as int) is None,
    ensures
        parsed(base, args + more, reals + more_reals) == parsed(reached, more, more_reals),
    decreases args.len(),
{
    let all = args + more;
    let all_reals = reals + more_reals;
    if args.len() == 0 {
        assert(all =~= more);
        assert(all_reals =~= more_reals);
    } else {
        let arg = args[0];
        assert(all[0] == arg);
        assert(all.skip(1) =~= args.skip(1) + more);
        assert(all_reals.skip(1) =~= reals.skip(1) + more_reals);
        if args.len() >= 2 {
            assert(all[1] == args[1]);
            assert(all_reals[1] == reals[1]);
            assert(all.skip(2) =~= args.skip(2) + more);
            assert(all_reals.skip(2) =~= reals.skip(2) + more_reals);
        } else if more.len() > 0 {
            assert(all[1] == more[0]);
        }
        let two = (args.skip(2), reals.skip(2));
        let one = (args.skip(1), reals.skip(1));
        if is_flag(arg, "-l"@, "--lines"@) {
            let n = crate::number::unsigned(args[1], usize::MAX as int).unwrap();
            let next = Settings {
                lines: crate::config::clamped(n, LINES_MIN as int, LINES_MAX as int),
                ..base
            };
            later_flags_win(next, two.0, two.1, more, more_reals, reached);
        } else if is_flag(arg, "-w"@, "--width"@) {
            let n = crate::number::signed(args[1]).unwrap();
            let next = Settings {
                width: crate::config::clamped(n, WIDTH_MIN as int, WIDTH_MAX as int),
                ..base
            };
            later_flags_win(next, two.0, two.1, more, more_reals, reached);
        } else if is_flag(arg, "-p"@, "--prompt"@) {
            let next = Settings { placeholder: args[1], ..base };
            later_flags_win(next, two.0, two.1, more, more_reals, reached);
        } else if is_flag(arg, "-q"@, "--query"@) {
            let next = Settings { query: args[1], ..base };
            later_flags_win(next, two.0, two.1, more, more_reals, reached);
        } else if is_flag(arg, "-b"@, "--blur"@) {
            assert(radius_after(all) == radius_after(args));
            match radius_after(args) {
                Some(n) => {
                    let next = Settings {
                        blur: crate::config::clamped(n, 0, MAX_BLUR as int),
                        ..base
                    };
                    later_flags_win(next, two.0, two.1, more, more_reals, reached);
                },
                None => {
                    let next = Settings { blur: DEFAULT_BLUR as int, ..base };
                    later_flags_win(next, one.0, one.1, more, more_reals, reached);
                },
            }
        } else if arg == "--no-blur"@ {
            let next = Settings { blur: 0, ..base };
            later_flags_win(next, one.0, one.1, more, more_reals, reached);
        } else if is_flag(arg, "-d"@, "--dim"@) {
            let next = Settings { dim: reals[1].unwrap().clamped(), ..base };
            later_flags_win(next, two.0, two.1, more, more_reals, reached);
        }
    }
}

// ---------------------------------------------------------------------------
// Parsing
// ---------------------------------------------------------------------------

fn message(front: &str, back: &str) -> (r: String)
    ensures
        r@ == front@ + back@,
{
    let mut out: String = front.to_owned();
    out.append(back);
    out
}

/// The value behind a flag.
pub fn flag_value(flag: &str, next: Option<String>) -> (r: Result<String, String>)
    ensures
        match next {
            Some(value) => r == Ok::<String, String>(value),
            None => r matches Err(text) && text@ == flag@ + " needs a value"@,
        },
{
    match next {
        Some(value) => Ok(value),
        None => Err(message(flag, " needs a value")),
    }
}

/// The number behind a flag, no larger than `max`.
pub fn flag_number(flag: &str, next: Option<String>, max: u64) -> (r: Result<u64, String>)
    ensures
        match next {
            Some(value) => match crate::number::unsigned(value@, max as int) {
                Some(n) => r matches Ok(got) && got == n,
                None => r matches Err(text) && text@ == flag@ + " expects a number"@,
            },
            None => r matches Err(text) && text@ == flag@ + " needs a value"@,
        },
{
    match flag_value(flag, next) {
        Ok(value) => match parse_unsigned(&value, max) {
            Some(n) => Ok(n),
            None => Err(message(flag, " expects a number")),
        },
        Err(text) => Err(text),
    }
}

/// The number behind a flag, with a sign if there is one.
pub fn flag_signed(flag: &str, next: Option<String>) -> (r: Result<i32, String>)
    ensures
        match next {
            Some(value) => match crate::number::signed(value@) {
                Some(n) => r matches Ok(got) && got == n,
                None => r matches Err(text) && text@ == flag@ + " expects a number"@,
            },
            None => r matches Err(text) && text@ == flag@ + " needs a value"@,
        },
{
    match flag_value(flag, next) {
        Ok(value) => match parse_signed(&value) {
            Some(n) => Ok(n),
            None => Err(message(flag, " expects a number")),
        },
        Err(text) => Err(text),
    }
}

/// The opacity behind a flag: `next` is the value and `double` the double that
/// it reads as, if it does.
///
/// What is not finite is no number here: "nan" reads as a double and stays one
/// when it is clamped, which would reach the stylesheet and take the whole
/// scrim out with it.
pub fn flag_dim(flag: &str, next: Option<String>, double: Option<Dim>) -> (r: Result<Dim, String>)
    ensures
        if next is None {
            r matches Err(text) && text@ == flag@ + " needs a value"@
        } else if double is None || !double.unwrap().finite() {
            r matches Err(text) && text@ == flag@ + " expects a number"@
        } else {
            r matches Ok(dim) && dim == double.unwrap().clamped()
        },
{
    match flag_value(flag, next) {
        Ok(_) => match double {
            Some(dim) => {
                if dim.is_finite() {
                    Ok(dim.clamp())
                } else {
                    Err(message(flag, " expects a number"))
                }
            },
            None => Err(message(flag, " expects a number")),
        },
        Err(text) => Err(text),
    }
}

/// The argument at `i`, if there is one.
fn argument(args: &Vec<String>, i: usize) -> (r: Option<String>)
    ensures
        match r {
            Some(arg) => i < args@.len() && arg@ == args@[i as int]@,
            None => i >= args@.len(),
        },
{
    if i < args.len() {
        Some(args[i].clone())
    } else {
        None
    }
}

/// The arguments as texts.
pub open spec fn texts(args: Seq<String>) -> Seq<Seq<char>> {
    args.map_values(|arg: String| arg@)
}

/// `base` is the built-in defaults with the settings file already applied; any
/// flag here overrides it further. `Ok(None)` means that the help was asked
/// for and no window is wanted. `reals[i]` is the double that `args[i]` reads
/// as, if it does.
pub fn parse_args(base: Config, args: Vec<String>, reals: Vec<Option<Dim>>) -> (r: Result<
    Option<Config>,
    String,
>)
    requires
        reals@.len() == args@.len(),
    ensures
        match r {
            Ok(Some(config)) => {
                &&& parsed(settings_of(base), texts(args@), reals@) == Outcome::Accepted(
                    settings_of(config),
                )
                &&& config.font_size == base.font_size
                &&& config.colors == base.colors
                &&& config.appimages == base.appimages
                &&& in_range(base) ==> in_range(config)
            },
            Ok(None) => parsed(settings_of(base), texts(args@), reals@) == Outcome::Help,
            Err(text) => parsed(settings_of(base), texts(args@), reals@) == Outcome::Rejected(
                text@,
            ),
        },
{
    let mut config = base;
    let ghost all = texts(args@);
    let ghost outcome = parsed(settings_of(base), all, reals@);
    let many: usize = args.len();
    let mut i: usize = 0;
    assert(all.skip(0) =~= all && reals@.skip(0) =~= reals@);
    while i < many
        invariant
            many == args@.len() == reals@.len(),
            i <= many,
            all == texts(args@),
            outcome == parsed(settings_of(base), all, reals@),
            outcome == parsed(settings_of(config), all.skip(i as int), reals@.skip(i as int)),
            config.font_size == base.font_size,
            config.colors == base.colors,
            config.appimages == base.appimages,
        decreases many - i,
    {
        let arg: &String = &args[i];
        let next = argument(&args, i + 1);
        proof {
            let rest = all.skip(i as int);
            assert(rest[0] == arg@);
            if i + 1 < many {
                assert(rest[1] == args@[i + 1]@);
                assert(reals@.skip(i as int)[1] == reals@[i + 1]);
                assert(rest.skip(2) =~= all.skip(i + 2));
                assert(reals@.skip(i as int).skip(2) =~= reals@.skip(i + 2));
            }
            assert(rest.skip(1) =~= all.skip(i + 1));
            assert(reals@.skip(i as int).skip(1) =~= reals@.skip(i + 1));
        }
        if same(arg, "-h") || same(arg, "--help") {
            return Ok(None);
        } else if same(arg, "-l") || same(arg, "--lines") {
            match flag_number(arg, next, usize::MAX as u64) {
                Ok(lines) => {
                    config.lines = clamp_usize(lines as usize, LINES_MIN, LINES_MAX);
                },
                Err(text) => {
                    return Err(text);
                },
            }
            i += 2;
        } else if same(arg, "-w") || same(arg, "--width") {
            match flag_signed(arg, next) {
                Ok(width) => {
                    config.width = clamp_i32(width, WIDTH_MIN, WIDTH_MAX);
                },
                Err(text) => {
                    return Err(text);
                },
            }
            i += 2;
        } else if same(arg, "-p") || same(arg, "--prompt") {
            match flag_value(arg, next) {
                Ok(value) => {
                    config.placeholder = value;
                },
                Err(text) => {
                    return Err(text);
                },
            }
            i += 2;
        } else if same(arg, "-q") || same(arg, "--query") {
            match flag_value(arg, next) {
                Ok(value) => {
                    config.query = value;
                },
                Err(text) => {
                    return Err(text);
                },
            }
            i += 2;
        } else if same(arg, "-b") || same(arg, "--blur") {
            // A bare -b means "blur, you pick the radius"; a number after it
            // sets one. Anything else is the next option, left alone.
            let radius: Option<u64> = match &next {
                Some(value) => parse_unsigned(value, u32::MAX as u64),
                None => None,
            };
            match radius {
                Some(radius) => {
                    config.blur = clamp_u32(radius as u32, 0, MAX_BLUR);
                    i += 2;
                },
                None => {
                    config.blur = DEFAULT_BLUR;
                    i += 1;
                },
            }
        } else if same(arg, "--no-blur") {
            config.blur = 0;
            i += 1;
        } else if same(arg, "-d") || same(arg, "--dim") {
            let double: Option<Dim> = if i + 1 < many {
                reals[i + 1]
            } else {
                None
            };
            match flag_dim(arg, next, double) {
                Ok(dim) => {
                    config.dim = dim;
                },
                Err(text) => {
                    return Err(text);
                },
            }
            i += 2;
        } else {
            return Err(message("unknown argument: ", arg));
        }
    }
    assert(all.skip(i as int) =~= Seq::<Seq<char>>::empty());
    proof {
        if in_range(base) {
            flags_stay_in_range(settings_of(base), all, reals@);
        }
    }
    Ok(Some(config))
}

} // verus!
