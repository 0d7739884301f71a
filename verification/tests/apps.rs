use launchr::apps::{
    appimage_item, desktop_item, with_untranslated, words, Catalog, DesktopInfo, LaunchEnv,
    Restore, Target,
};
use launchr::config::AppImageConfig;
use launchr::usage::Usage;
use launchr::weight::Weight;

fn text(value: &str) -> Option<String> {
    Some(value.to_owned())
}

fn info(id: &str, name: &str) -> DesktopInfo {
    DesktopInfo {
        id: text(id),
        name: name.to_owned(),
        generic_name: None,
        raw_generic_name: None,
        executable: String::new(),
        keywords: Vec::new(),
        raw_keywords: None,
        description: None,
        should_show: true,
    }
}

#[test]
fn keywords_are_plain_words() {
    assert_eq!(words("web;browser; internet;;"), "web browser internet");
    assert_eq!(words(""), "");
}

#[test]
fn untranslated_text_is_kept_beside_a_translation() {
    let both = with_untranslated("navigateur web".into(), Some("web browser".into()));
    assert_eq!(both, "navigateur web web browser");
    // An English desktop, or a file without translations: said once.
    assert_eq!(with_untranslated("web browser".into(), Some("web browser".into())), "web browser");
    assert_eq!(with_untranslated(String::new(), Some("browser".into())), "browser");
    assert_eq!(with_untranslated("browser".into(), None), "browser");
}

#[test]
fn a_launched_command_gets_the_original_environment_back() {
    // What was pinned: GTK_THEME was unset before the launcher set it,
    // GSK_RENDERER was set to something of the user's own.
    let env = LaunchEnv { saved: vec![("GTK_THEME", None), ("GSK_RENDERER", Some("gl"))] };
    let steps = env.restore();
    assert_eq!(steps.len(), 2);
    assert!(matches!(steps[0], Restore::Remove("GTK_THEME")));
    assert!(matches!(steps[1], Restore::Put("GSK_RENDERER", &"gl")));
}

#[test]
fn only_variables_without_a_value_are_set() {
    let defaults = [("GSK_RENDERER", "cairo"), ("GTK_THEME", "Empty")];
    let (env, wanted) = LaunchEnv::pin(&defaults, vec![Some("gl"), None]);
    assert_eq!(wanted, [("GTK_THEME", "Empty")]);
    assert_eq!(env.saved, [("GSK_RENDERER", Some("gl")), ("GTK_THEME", None)]);
}

#[test]
fn words_of_words_stay_the_same() {
    for raw in ["web;browser; internet;;", "", ";;", " a\u{a0}b ", "one"] {
        assert_eq!(words(&words(raw)), words(raw));
    }
    assert_eq!(words(" a\u{a0}b "), "a b");
}

#[test]
fn a_desktop_entry_is_searched_by_everything_it_says() {
    let mut usage = Usage::new();
    usage.record("ff.desktop", 77);
    let entry = desktop_item(
        &usage,
        &DesktopInfo {
            id: text("ff.desktop"),
            name: "Firefox".to_owned(),
            generic_name: text("Navigateur Web"),
            raw_generic_name: text("Web Browser"),
            executable: "/usr/bin/firefox".to_owned(),
            keywords: vec!["Internet".to_owned(), "www;web".to_owned()],
            raw_keywords: text("Internet;WWW"),
            description: text("Browse"),
            should_show: true,
        },
    )
    .unwrap();
    assert_eq!((entry.id.as_str(), entry.name.as_str()), ("ff.desktop", "Firefox"));
    assert_eq!((entry.count, entry.last_used), (1, 77));
    assert_eq!(entry.sort_key(), "firefox");
    let fields: Vec<(&str, u32)> =
        entry.fields.iter().map(|f| (f.folded.text.as_str(), f.weight.parts)).collect();
    assert_eq!(
        fields,
        [
            ("firefox", Weight::name().parts),
            ("navigateur web web browser", Weight::generic_name().parts),
            ("firefox", Weight::executable().parts),
            ("internet www web internet www", Weight::keywords().parts),
            ("browse", Weight::comment().parts),
        ]
    );
}

#[test]
fn a_desktop_entry_with_little_to_say_has_its_name() {
    let usage = Usage::new();
    let mut bare = info("x.desktop", "X");
    bare.description = text("");
    bare.raw_keywords = text(" ; ");
    let entry = desktop_item(&usage, &bare).unwrap();
    assert_eq!(entry.fields.len(), 1);
    assert_eq!((entry.count, entry.last_used), (0, 0));
    bare.id = None;
    assert!(desktop_item(&usage, &bare).is_none());
}

#[test]
fn an_appimage_is_found_by_its_name_and_file() {
    let usage = Usage::load("4\t5\tappimage:/opt/Krita-5.2.AppImage\n");
    let app = AppImageConfig {
        name: "Krita".to_owned(),
        path: "/opt/Krita-5.2.AppImage".to_owned(),
        icon: None,
    };
    let entry = appimage_item(&usage, &app);
    assert_eq!(entry.id, "appimage:/opt/Krita-5.2.AppImage");
    assert_eq!((entry.count, entry.last_used), (4, 5));
    let fields: Vec<&str> = entry.fields.iter().map(|f| f.folded.text.as_str()).collect();
    assert_eq!(fields, ["krita", "krita-5.2"]);
}

#[test]
fn a_catalog_is_in_folded_name_order() {
    let mut hidden = info("h.desktop", "Aaa");
    hidden.should_show = false;
    let listed = vec![
        (info("z.desktop", "zathura"), 1),
        (hidden, 2),
        (info("e.desktop", "Éclair"), 3),
        (info("g.desktop", "GIMP"), 4),
        (info("g2.desktop", "gimp"), 5),
    ];
    let app = AppImageConfig { name: "Foo".to_owned(), path: "/x".to_owned(), icon: None };
    let catalog = Catalog::load(Usage::new(), listed, vec![app]);
    let names: Vec<&str> = catalog.entries.iter().map(|e| e.name.as_str()).collect();
    assert_eq!(names, ["Éclair", "Foo", "GIMP", "gimp", "zathura"]);
    let targets: Vec<i32> = catalog
        .targets
        .iter()
        .map(|t| match t {
            Target::Desktop(number) => *number,
            Target::AppImage(_) => 0,
        })
        .collect();
    assert_eq!(targets, [3, 0, 4, 5, 1]);
    assert!(Catalog::<i32>::new().entries.is_empty());
}
