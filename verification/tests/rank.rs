use launchr::apps::{field, Entry};
use launchr::rank::{fits, rank};
use launchr::weight::Weight;

/// An entry as the ranking sees it.
fn entry(name: &str, count: u32, last_used: u64) -> Entry {
    Entry {
        id: format!("{name}.desktop"),
        name: name.to_owned(),
        fields: vec![field(name, Weight::name())],
        count,
        last_used,
    }
}

/// A catalog leaves the list in folded-name order and the ranking relies on
/// it, so the fixtures here do the same.
fn sorted(mut entries: Vec<Entry>) -> Vec<Entry> {
    entries.sort_by(|a, b| a.sort_key().cmp(b.sort_key()));
    entries
}

fn names(entries: &[Entry], shown: &[usize]) -> Vec<String> {
    shown.iter().map(|&i| entries[i].name.clone()).collect()
}

fn bonus(count: u32) -> i32 {
    if count == 0 {
        0
    } else {
        (((count + 1) as f32).ln() * 40.0) as i32
    }
}

fn ranked(entries: &[Entry], query: &str, lines: usize) -> Vec<usize> {
    let bonuses: Vec<i32> = entries.iter().map(|entry| bonus(entry.count)).collect();
    assert!(entries.iter().zip(&bonuses).all(|(entry, &bonus)| fits(entry, bonus)));
    rank(entries, &bonuses, query, lines)
}

#[test]
fn a_poor_name_match_still_outranks_a_poor_comment_match() {
    // Both score badly enough to go negative, which is where the weighting
    // used to invert and put the description first.
    let mut described = entry("Aardvark Nine", 0, 0);
    described
        .fields
        .push(field("a tool for organising the zebra photographs you keep", Weight::comment()));
    let entries = sorted(vec![described, entry("Zebra", 0, 0)]);
    assert_eq!(names(&entries, &ranked(&entries, "zebra", 6))[0], "Zebra");
}

#[test]
fn an_empty_query_is_most_used_first() {
    let entries = sorted(vec![
        entry("Alacritty", 0, 0),
        entry("Firefox", 9, 100),
        entry("Gimp", 3, 400),
    ]);
    assert_eq!(names(&entries, &ranked(&entries, "", 6)), ["Firefox", "Gimp", "Alacritty"]);
}

#[test]
fn equally_used_entries_fall_back_to_recency_then_name() {
    let entries = sorted(vec![
        entry("Zathura", 2, 500),
        entry("Alacritty", 2, 500),
        entry("Gimp", 2, 900),
    ]);
    assert_eq!(names(&entries, &ranked(&entries, "", 6)), ["Gimp", "Alacritty", "Zathura"]);
}

#[test]
fn the_result_list_is_capped_at_lines() {
    let entries = sorted((0..200).map(|i| entry(&format!("app{i:03}"), i, 0)).collect());
    let shown = ranked(&entries, "", 6);
    assert_eq!(shown.len(), 6);
    assert_eq!(names(&entries, &shown)[0], "app199");
    assert_eq!(ranked(&entries, "app", 4).len(), 4);
}

#[test]
fn a_query_ranks_by_match_quality_not_popularity_alone() {
    let entries = sorted(vec![entry("Firefox", 0, 0), entry("Files", 40, 900)]);
    // "firef" is a much better match than anything in "files", so the
    // popularity bonus must not be able to bury it.
    assert_eq!(names(&entries, &ranked(&entries, "firef", 6)), ["Firefox"]);
}

#[test]
fn popularity_breaks_a_tie_between_equal_matches() {
    // Both are a clean prefix match for "term", so nothing but the tie
    // breaks separates them and the shorter name comes first.
    let cold = sorted(vec![entry("Termite", 0, 0), entry("Terminal", 0, 0)]);
    assert_eq!(names(&cold, &ranked(&cold, "term", 6)), ["Termite", "Terminal"]);

    // Launch history is enough to turn that around.
    let warm = sorted(vec![entry("Termite", 0, 0), entry("Terminal", 25, 900)]);
    assert_eq!(names(&warm, &ranked(&warm, "term", 6)), ["Terminal", "Termite"]);
}

#[test]
fn a_query_that_matches_nothing_shows_nothing() {
    let entries = sorted(vec![entry("Firefox", 5, 0), entry("Gimp", 5, 0)]);
    assert!(ranked(&entries, "zzzz", 6).is_empty());
}

#[test]
fn rank_folds_the_query_before_matching() {
    let entries = sorted(vec![entry("Café Player", 0, 0), entry("Gimp", 0, 0)]);
    assert_eq!(names(&entries, &ranked(&entries, "  CAFE  ", 6)), ["Café Player"]);
}

#[test]
fn fewer_lines_show_the_front_of_the_list() {
    let entries = sorted((0..30).map(|i| entry(&format!("app{i:02}"), i % 7, i as u64)).collect());
    for query in ["", "a", "p1"] {
        let all = ranked(&entries, query, 30);
        for lines in 0..all.len() {
            assert_eq!(ranked(&entries, query, lines), all[..lines]);
        }
    }
}

#[test]
fn the_best_field_of_an_entry_counts() {
    let mut described = entry("Zed", 0, 0);
    described.fields.push(field("code editor", Weight::comment()));
    let entries = vec![entry("Calc", 0, 0), described];
    assert_eq!(ranked(&entries, "code", 6), [1]);
    assert_eq!(ranked(&entries, "c", 6), [0, 1]);
}

#[test]
fn a_bonus_that_could_leave_the_range_does_not_fit() {
    let small = entry("Calc", 0, 0);
    assert!(fits(&small, 0));
    assert!(fits(&small, 887));
    assert!(!fits(&small, i32::MAX));
    assert!(!fits(&small, -1));
}

#[test]
fn more_launches_never_move_an_entry_down() {
    let names = ["Files", "Firefox", "Fire Fighter", "Fi", "Gimp"];
    let all = |counts: &[u32]| -> Vec<Entry> {
        names.iter().zip(counts).map(|(name, &count)| entry(name, count, 7)).collect()
    };
    let before = [3, 1, 0, 2, 5];
    for query in ["", "f", "fi", "fire", "g"] {
        for lines in 1..=names.len() {
            let shown = ranked(&all(&before), query, lines);
            for (place, &i) in shown.iter().enumerate() {
                for more in [1, 2, 10, 1000] {
                    let mut after = before;
                    after[i] += more;
                    let now = ranked(&all(&after), query, lines);
                    assert!(now[..=place].contains(&i), "{query} {lines} {i} {more}");
                }
            }
        }
    }
}
