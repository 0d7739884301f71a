use launchr::usage::{store_path, Usage};

#[test]
fn unknown_ids_report_zero() {
    let usage = Usage::new();
    assert_eq!(usage.get("nope.desktop"), (0, 0));
}

#[test]
fn record_counts_and_round_trips_through_text() {
    let mut usage = Usage::new();
    usage.record("firefox.desktop", 100);
    usage.record("firefox.desktop", 200);
    usage.record("foot.desktop", 300);
    assert_eq!(usage.get("firefox.desktop"), (2, 200));

    let text = usage.render();
    assert_eq!(text, "2\t200\tfirefox.desktop\n1\t300\tfoot.desktop\n");
    let reloaded = Usage::load(&text);
    assert_eq!(reloaded.get("firefox.desktop").0, 2);
    assert_eq!(reloaded.get("foot.desktop").0, 1);
}

#[test]
fn corrupt_lines_are_skipped() {
    let loaded = Usage::load("3\t100\tgood.desktop\ngarbage\nx\ty\tbad.desktop\n");
    assert_eq!(loaded.get("good.desktop").0, 3);
    assert_eq!(loaded.get("bad.desktop"), (0, 0));
}

#[test]
fn rows_are_read_as_they_stand() {
    let loaded = Usage::load("1\t2\ta\tb\r\n4294967296\t1\tbig\n5\t6\t\n7\t8\tlast");
    assert_eq!(loaded.get("a\tb"), (1, 2));
    assert_eq!(loaded.get("big"), (0, 0));
    assert_eq!(loaded.get(""), (0, 0));
    assert_eq!(loaded.get("last"), (7, 8));
    // The last row for an id counts.
    assert_eq!(Usage::load("1\t1\tx\n2\t2\tx\n").get("x"), (2, 2));
}

#[test]
fn the_most_launched_are_written_first() {
    let mut usage = Usage::new();
    for id in ["b", "a", "c", "c"] {
        usage.record(id, 9);
    }
    assert_eq!(usage.render(), "2\t9\tc\n1\t9\ta\n1\t9\tb\n");
    assert_eq!(Usage::new().render(), "");
}

#[test]
fn counts_stop_at_the_largest() {
    let mut usage = Usage::load("4294967295\t1\tx\n");
    usage.record("x", 5);
    assert_eq!(usage.get("x"), (u32::MAX, 5));
}

#[test]
fn the_store_is_kept_with_the_other_data() {
    let text = |s: &str| Some(s.to_owned());
    assert_eq!(store_path(&text("/data"), &None), text("/data/launchr/usage.tsv"));
    assert_eq!(
        store_path(&text("data"), &text("/home/me")),
        text("/home/me/.local/share/launchr/usage.tsv")
    );
    assert_eq!(store_path(&None, &None), None);
}
