use launchr::matcher::{
    best_chain, boundary, fold, fold_char, greedy_chain, opening, placement, push_stripped, score,
    Folded, DP_LIMIT,
};

fn s(needle: &str, hay: &str) -> Option<i32> {
    score(&Folded::new(needle), &Folded::new(hay))
}

fn chars(text: &str) -> Vec<char> {
    text.chars().collect()
}

#[test]
fn non_subsequence_does_not_match() {
    assert!(s("zzz", "firefox").is_none());
    assert!(s("firefoxx", "firefox").is_none());
}

#[test]
fn empty_needle_matches_everything() {
    assert_eq!(s("", "anything"), Some(0));
}

#[test]
fn prefix_beats_scattered_match() {
    let prefix = s("fire", "firefox").unwrap();
    let scattered = s("fire", "flatpak internal runtime engine").unwrap();
    assert!(prefix > scattered, "{prefix} !> {scattered}");
}

#[test]
fn word_boundary_beats_mid_word() {
    let boundary = s("vs", "visual studio code").unwrap();
    let mid = s("vs", "aviso serviceon").unwrap();
    assert!(boundary > mid, "{boundary} !> {mid}");
}

#[test]
fn word_start_beats_a_hit_buried_inside_a_word() {
    let word_start = s("co", "chromium").unwrap();
    let buried = s("co", "avahi zeroconf browser").unwrap();
    assert!(word_start > buried, "{word_start} !> {buried}");
}

#[test]
fn shorter_name_wins_on_equal_match() {
    let short = s("term", "terminal").unwrap();
    let long = s("term", "terminal emulator for the gnome desktop").unwrap();
    assert!(short > long, "{short} !> {long}");
}

#[test]
fn a_later_contiguous_run_beats_the_first_occurrence() {
    // The greedy scan pinned "a" at 0 and then had to take a detached "p";
    // the run at index 2 is worth more.
    let best = s("ap", "a app").unwrap();
    let greedy = {
        // 50 for "a" at 0, 16 for a detached "p", +40 for containing "ap",
        // -0 for the length: what the first-occurrence scan would return.
        50 + 16 + 40
    };
    assert!(best > greedy, "{best} !> {greedy}");
}

#[test]
fn long_haystacks_still_match_through_the_fallback() {
    let hay = "z".repeat(DP_LIMIT) + " launchr";
    assert!(s("launchr", &hay).is_some());
    assert!(s("launchrx", &hay).is_none());
}

#[test]
fn folding_strips_diacritics_and_case() {
    assert_eq!(fold("Café"), "cafe");
    assert_eq!(fold("Größe"), "grosse");
    assert_eq!(fold("ŁÓDŹ"), "lodz");
    assert_eq!(fold("Ægir"), "aegir");
}

#[test]
fn an_unaccented_query_finds_an_accented_name() {
    assert!(s("cafe", "Café Player").is_some());
    assert!(s("okular", "Okular").is_some());
}

#[test]
fn letters_outside_the_folded_range_are_lowercased() {
    assert_eq!(fold("ЯНДЕКС"), "яндекс");
    assert_eq!(fold("Ж\u{307}"), "ж\u{307}");
    assert_eq!(fold_char('x'), None);
    assert_eq!(fold_char('þ'), Some("th"));
}

#[test]
fn a_folded_text_knows_whether_it_is_empty() {
    assert!(Folded::new("").is_empty());
    assert!(!Folded::new(" ").is_empty());
    assert_eq!(Folded::new("Ab").chars, ['a', 'b']);
}

#[test]
fn scores_are_exact() {
    // 50 + three times (16 + 20), 60 for the prefix, nothing for the length.
    assert_eq!(s("fire", "firefox"), Some(218));
    // The run at index 2: 40 - 4 for opening there, 36 for the run, 40 for
    // occurring.
    assert_eq!(s("ap", "a app"), Some(112));
    // Inside a word: 16 - 30 - 2, then 40 for occurring.
    assert_eq!(s("b", "ab"), Some(24));
    // A match in a long text is scored by its leftmost placement: ten less
    // for every hundred characters.
    let hay = "x".to_owned() + &"y".repeat(99);
    assert_eq!(s("x", &hay), Some(50 + 60 - 10));
}

#[test]
fn places_are_worth_what_they_follow() {
    let hay = chars("ab-cd");
    assert!(boundary(&hay, 0) && boundary(&hay, 3) && !boundary(&hay, 1));
    assert_eq!(placement(&hay, 0), 50);
    assert_eq!(placement(&hay, 3), 40);
    assert_eq!(placement(&hay, 4), 16);
    assert_eq!(opening(&hay, 3), 40 - 6);
    assert_eq!(opening(&hay, 4), 16 - 30 - 8);
}

#[test]
fn the_best_chain_is_no_worse_than_the_leftmost() {
    for (needle, hay) in [("ap", "a app"), ("co", "chromium code"), ("aa", "a-a aa")] {
        let (needle, hay) = (chars(needle), chars(hay));
        let greedy = greedy_chain(&needle, &hay).unwrap();
        assert!(best_chain(&needle, &hay) >= greedy);
    }
    assert_eq!(greedy_chain(&chars("ap"), &chars("a app")), Some(66));
    assert_eq!(best_chain(&chars("ap"), &chars("a app")), 72);
    assert_eq!(greedy_chain(&chars("q"), &chars("a app")), None);
}

#[test]
fn every_text_is_found_by_its_parts() {
    let name = "Visual Studio Code";
    for from in 0..name.len() {
        for to in from..=name.len() {
            assert!(s(&name[from..to], name).is_some());
        }
    }
}

#[test]
fn typing_on_narrows_the_list() {
    let query = "visio";
    for hay in ["visual studio code", "vision", "vlc", "aviso"] {
        for end in 1..=query.len() {
            if s(&query[..end], hay).is_some() {
                assert!(s(&query[..end - 1], hay).is_some());
            }
        }
    }
    assert_eq!(fold("Groß") + &fold("É"), fold("GroßÉ"));
}

#[test]
fn a_dotted_capital_loses_its_dot() {
    assert_eq!(fold("İ"), "i");
    assert_eq!(fold("İstanbul"), "istanbul");
    assert_eq!(s("istanbul", "İstanbul"), s("istanbul", "Istanbul"));
}

#[test]
fn every_capital_of_the_folded_range_folds_to_plain_letters() {
    for code in 0xC0..=0x17F {
        let c = char::from_u32(code).unwrap();
        let lower: Vec<char> = c.to_lowercase().collect();
        if c.is_uppercase() && lower != ['ĳ'] {
            assert!(fold(&c.to_string()).is_ascii(), "{c}");
        }
    }
}

#[test]
fn folding_folded_text_changes_nothing() {
    for code in 0..0x11_0000 {
        if let Some(c) = char::from_u32(code) {
            let once = fold(&c.to_string());
            assert_eq!(fold(&once), once, "{code:x}");
        }
    }
    let folded = Folded::new("Größe İ Café ЯНДЕКС");
    assert_eq!(Folded::new(&folded.text).text, folded.text);
}

#[test]
fn what_a_letter_lowercases_to_is_stripped() {
    let mut out = "x".to_owned();
    push_stripped(&mut out, &vec!['é', 'ж', 'ß', '\u{307}']);
    assert_eq!(out, "xeжss\u{307}");
}
