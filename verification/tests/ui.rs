use launchr::apps::{Catalog, DesktopInfo};
use launchr::capture::Frame;
use launchr::config::{AppImageConfig, Colors};
use launchr::startup::activation_token;
use launchr::ui::{
    appimage_icon, blur_frames, full_height, key_pressed, match_backdrop, move_selection,
    render_style, update_rows, Answer, Choice, Key, RowUpdate, State,
};
use launchr::usage::Usage;

fn text(value: &str) -> Option<String> {
    Some(value.to_owned())
}

#[test]
fn the_stylesheet_is_filled_in() {
    let style = "a{__BG_RGB__}b{__PANEL_RGB__}c{__FOREGROUND__}d{__SELECTION_RGB__}\
                 e{__SELECTION__}f{__ACCENT__}g{__MUTED__}h{__ENTRY_SIZE__px}\
                 i{__NAME_SIZE__px}j{__DIM__}k{__DIM__}";
    assert_eq!(
        render_style(style, &Colors::default(), 21, "0.75"),
        "a{16, 17, 30}b{26, 27, 38}c{#c0caf5}d{40, 52, 87}e{#283457}f{#7aa2f7}g{#565f89}\
         h{39px}i{21px}j{0.75}k{0.75}"
    );
    assert_eq!(render_style("", &Colors::default(), 8, "1"), "");
}

#[test]
fn the_search_entry_keeps_its_proportion_to_a_row() {
    let sizes = |font_size: u32| {
        render_style("__ENTRY_SIZE__/__NAME_SIZE__", &Colors::default(), font_size, "0.75")
    };
    assert_eq!(sizes(21), "39/21");
    assert_eq!(sizes(42), "78/42");
    // Rounded down.
    assert_eq!(sizes(8), "14/8");
    assert_eq!(sizes(60), "111/60");
}

#[test]
fn no_placeholder_is_left_in_the_stylesheet() {
    let tokens = [
        "__BG_RGB__", "__PANEL_RGB__", "__FOREGROUND__", "__SELECTION_RGB__", "__SELECTION__",
        "__ACCENT__", "__MUTED__", "__ENTRY_SIZE__", "__NAME_SIZE__", "__DIM__",
    ];
    let mut style = tokens.join("__");
    style.push_str(&tokens.concat());
    style.push_str("____SELECTION__SELECTION__");
    let filled = render_style(&style, &Colors::default(), 42, "0.75");
    for token in tokens {
        assert!(!filled.contains(token), "{token} in {filled}");
    }
}

#[test]
fn keys_move_launch_and_close() {
    assert!(matches!(key_pressed(Key::Escape, false), Answer::Close));
    assert!(matches!(key_pressed(Key::Return, false), Answer::Activate));
    assert!(matches!(key_pressed(Key::KeypadEnter, true), Answer::Activate));
    assert!(matches!(key_pressed(Key::Down, false), Answer::Step(1)));
    assert!(matches!(key_pressed(Key::Tab, false), Answer::Step(1)));
    assert!(matches!(key_pressed(Key::Up, false), Answer::Step(-1)));
    assert!(matches!(key_pressed(Key::LeftTab, false), Answer::Step(-1)));
    assert!(matches!(key_pressed(Key::PageDown, false), Answer::Step(5)));
    assert!(matches!(key_pressed(Key::PageUp, false), Answer::Step(-5)));
    for key in [Key::N, Key::J] {
        assert!(matches!(key_pressed(key, true), Answer::Step(1)));
        assert!(matches!(key_pressed(key, false), Answer::Pass));
    }
    for key in [Key::P, Key::K] {
        assert!(matches!(key_pressed(key, true), Answer::Step(-1)));
        assert!(matches!(key_pressed(key, false), Answer::Pass));
    }
    assert!(matches!(key_pressed(Key::Other, true), Answer::Pass));
}

#[test]
fn the_selection_wraps_around() {
    assert_eq!(move_selection(0, 1, 0), None);
    assert_eq!(move_selection(5, 1, 6), Some(0));
    assert_eq!(move_selection(0, -1, 6), Some(5));
    assert_eq!(move_selection(1, -5, 3), Some(2));
    assert_eq!(move_selection(2, 5, 3), Some(1));
    assert_eq!(move_selection(0, -6, 6), Some(0));
    for selected in 0..7 {
        for delta in [-5, -1, 1, 5] {
            let next = move_selection(selected, delta, 7).unwrap();
            assert_eq!(next, (selected as i32 + delta).rem_euclid(7) as usize);
            assert_eq!(move_selection(next, -delta, 7), Some(selected));
        }
    }
}

#[test]
fn only_rows_that_changed_are_filled() {
    let mut rows = vec![Some(4), Some(2), None, Some(9)];
    let updates = update_rows(&mut rows, &vec![4, 3, 7]);
    assert!(matches!(
        updates[..],
        [RowUpdate::Keep, RowUpdate::Fill(3), RowUpdate::Fill(7), RowUpdate::Hide]
    ));
    assert_eq!(rows, [Some(4), Some(3), Some(7), None]);
}

#[test]
fn the_list_keeps_its_full_height() {
    assert_eq!(full_height(56, 6), Some(336));
    assert_eq!(full_height(0, 6), None);
    assert_eq!(full_height(-1, 6), None);
}

#[test]
fn an_appimage_without_an_icon_gets_the_fallback() {
    let mut app = AppImageConfig { name: String::new(), path: String::new(), icon: text("krita") };
    assert_eq!(appimage_icon(&app, "x"), "krita");
    app.icon = None;
    assert_eq!(appimage_icon(&app, "x"), "x");
}

#[test]
fn the_backdrop_is_that_of_the_monitor() {
    let named = vec![text("DP-1"), None, text("HDMI-A-1"), text("HDMI-A-1")];
    assert!(matches!(match_backdrop(&named, &text("HDMI-A-1")), Choice::Show(2)));
    assert!(matches!(match_backdrop(&named, &text("DP-2")), Choice::Blank));
    assert!(matches!(match_backdrop(&named, &None), Choice::Keep));
    assert!(matches!(match_backdrop(&vec![None], &text("DP-1")), Choice::Keep));
    assert!(matches!(match_backdrop(&vec![], &text("DP-1")), Choice::Keep));
}

#[test]
fn frames_that_cannot_be_scaled_are_left_out() {
    let frame = |name: &str, bytes: usize| Frame {
        connector: text(name),
        width: 1,
        height: 1,
        stride: 4,
        channels: (0, 1, 2),
        data: vec![7; bytes].into(),
    };
    let images = blur_frames(&vec![frame("a", 4), frame("b", 3), frame("c", 4)], 2);
    assert_eq!(images.len(), 2);
    assert_eq!(images[0].0.as_deref(), Some("a"));
    assert_eq!(images[1].0.as_deref(), Some("c"));
    assert_eq!(images[1].1.rgb, [7, 7, 7]);
}

#[test]
fn pictures_keep_the_shape_of_their_frames() {
    let wide = Frame {
        connector: text("DP-1"),
        width: 3,
        height: 2,
        stride: 12,
        channels: (2, 1, 0),
        data: (0..24).collect::<Vec<u8>>().into(),
    };
    let large = Frame {
        connector: None,
        width: 10,
        height: 961,
        stride: 40,
        channels: (2, 1, 0),
        data: vec![9; 40 * 961].into(),
    };
    let images = blur_frames(&vec![wide, large], 0);
    assert_eq!((images[0].1.width, images[0].1.height), (3, 2));
    assert_eq!(images[0].1.rgb, [2, 1, 0, 6, 5, 4, 10, 9, 8, 14, 13, 12, 18, 17, 16, 22, 21, 20]);
    assert_eq!((images[1].1.width, images[1].1.height), (3, 320));
    assert!(images[1].1.rgb.iter().all(|&byte| byte == 9));
}

fn info(name: &str) -> DesktopInfo {
    DesktopInfo {
        id: text(name),
        name: name.to_owned(),
        generic_name: None,
        raw_generic_name: None,
        executable: String::new(),
        keywords: Vec::new(),
        raw_keywords: None,
        description: None,
        should_show: true,
    }
}

#[test]
fn typing_refills_the_rows_and_a_launch_is_counted() {
    let listed = vec![(info("Firefox"), ()), (info("Files"), ()), (info("Gimp"), ())];
    let catalog = Catalog::load(Usage::load("3\t8\tGimp\n"), listed, Vec::new());
    let mut state = State::new(catalog, vec![0, 0, 55]);
    let mut rows = vec![None; 2];

    state.refresh("", &mut rows);
    assert_eq!(rows, [Some(2), Some(0)]);
    let updates = state.refresh("fi", &mut rows);
    assert_eq!(rows, [Some(0), Some(1)]);
    assert!(matches!(updates[..], [RowUpdate::Fill(0), RowUpdate::Fill(1)]));
    let updates = state.refresh("file", &mut rows);
    assert!(matches!(updates[..], [RowUpdate::Keep, RowUpdate::Hide]));

    assert_eq!(state.pick(0), Some(0));
    assert_eq!(state.pick(1), None);
    state.launched(0, 99);
    assert_eq!(state.catalog.usage.get("Files"), (1, 99));
    assert_eq!(state.catalog.usage.get("Gimp"), (3, 8));
}

#[test]
fn the_newer_token_is_preferred() {
    assert_eq!(activation_token(text("a"), text("b")), text("a"));
    assert_eq!(activation_token(text(""), text("b")), text("b"));
    assert_eq!(activation_token(None, text("b")), text("b"));
    assert_eq!(activation_token(None, text("")), None);
}
