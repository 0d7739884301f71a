use launchr::number::{parse_signed, parse_unsigned, push_decimal};
use launchr::path::{file_name, file_stem, is_absolute, join};
use launchr::text::{chars_of, comes_no_later, is_white_space, replace, string_of, trim};

fn text(value: &str) -> Option<String> {
    Some(value.to_owned())
}

#[test]
fn white_space_is_trimmed() {
    assert_eq!(trim(" \t a b \u{3000}\n"), "a b");
    assert_eq!(trim("\u{a0}"), "");
    for code in 0..0x11_0000 {
        if let Some(c) = char::from_u32(code) {
            assert_eq!(is_white_space(c), c.is_whitespace(), "{code:x}");
        }
    }
}

#[test]
fn tokens_are_replaced_from_the_left() {
    assert_eq!(replace("aaaa", "aa", "b"), "bb");
    assert_eq!(replace("aaa", "aa", "b"), "ba");
    assert_eq!(replace("xyz", "yz", ""), "x");
    assert_eq!(replace("xyz", "xyzz", "q"), "xyz");
}

#[test]
fn texts_are_ordered_like_their_bytes() {
    let all = ["", "a", "ab", "b", "é", "z", "\u{10000}", "\u{ffff}", "aé", "Z"];
    for a in all {
        for b in all {
            assert_eq!(comes_no_later(&chars_of(a), &chars_of(b)), a <= b, "{a} {b}");
        }
    }
    assert_eq!(string_of(&chars_of("héllo"), 1, 3), "él");
}

#[test]
fn numbers_are_read_like_integers() {
    for s in ["", "+", "-", "0", "+7", "-0", "-7", "007", "4294967295", "4294967296", "1x", " 1"] {
        assert_eq!(parse_unsigned(s, u32::MAX as u64).map(|n| n as u32), s.parse::<u32>().ok());
        assert_eq!(parse_unsigned(s, u64::MAX), s.parse::<u64>().ok());
        assert_eq!(parse_signed(s), s.parse::<i32>().ok());
    }
    for s in ["2147483647", "2147483648", "-2147483648", "-2147483649", "18446744073709551616"] {
        assert_eq!(parse_signed(s), s.parse::<i32>().ok());
        assert_eq!(parse_unsigned(s, u64::MAX), s.parse::<u64>().ok());
    }
}

#[test]
fn numbers_are_written_in_decimal_and_read_back() {
    for n in [0, 7, 10, 255, 1_000_000, u64::MAX] {
        let mut out = "=".to_owned();
        push_decimal(&mut out, n);
        assert_eq!(out, format!("={n}"));
        assert_eq!(parse_unsigned(&out[1..], u64::MAX), Some(n));
    }
}

#[test]
fn paths_behave_like_paths() {
    for path in [
        "", "/", ".", "..", "/a/b", "/a/b/", "/a/b/.", "/a/b/./", "a", "a/..", "/..", "./", "/.x",
        "x.tar.gz", "/opt/.hidden.AppImage", "a//b", "...", "/a/..x", "..a/", "x.",
    ] {
        let std = std::path::Path::new(path);
        assert_eq!(file_name(path).as_deref(), std.file_name().and_then(|s| s.to_str()), "{path}");
        assert_eq!(file_stem(path).as_deref(), std.file_stem().and_then(|s| s.to_str()), "{path}");
        assert_eq!(is_absolute(path), std.is_absolute(), "{path}");
        for rest in ["x", "", "/x", "a/b"] {
            assert_eq!(text(&join(path, rest)).as_deref(), std.join(rest).to_str(), "{path} {rest}");
        }
    }
}
