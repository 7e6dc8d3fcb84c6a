use freedesktop_desktop_entry::matching::SCORE_SCALE;
use freedesktop_desktop_entry::{
    best_identifier_match, find_app_by_id, find_entry_from_appid, DesktopEntry, MatchOptions,
};

fn entry(path: &str, text: &str) -> DesktopEntry {
    DesktopEntry::from_str(path.to_string(), text, None).unwrap()
}

#[test]
fn firefox_wins_by_last_segment() {
    let entries = vec![
        DesktopEntry::from_appid("org.gnome.Nautilus".to_string()),
        DesktopEntry::from_appid("org.mozilla.firefox".to_string()),
    ];
    let patterns = vec!["firefox".to_string()];
    let best = best_identifier_match(&patterns, &entries, &MatchOptions::default()).unwrap();
    assert_eq!(best.appid, "org.mozilla.firefox");
}

#[test]
fn entropy_policy_rejects_a_narrow_gap() {
    // scores 0.5 and 0.48: the gap 0.02 is under the 0.15 entropy threshold
    // and the best score is under the 0.7 minimum, so nothing is accepted
    let p: String = format!("{}{}", "a".repeat(25), "b".repeat(25));
    let e1 = DesktopEntry::from_appid(format!("{}{}", "a".repeat(25), "c".repeat(25)));
    let e2 = DesktopEntry::from_appid(format!("{}{}", "a".repeat(24), "d".repeat(26)));
    let entries = vec![e1, e2];
    let patterns = vec![p];
    let opts = MatchOptions {
        min_score: 700_000,
        entropy: Some((150_000, 100_000)),
    };
    assert!(best_identifier_match(&patterns, &entries, &opts).is_none());
}

#[test]
fn entropy_policy_accepts_a_wide_gap() {
    // scores 0.5 and 0.2: the gap 0.3 beats the 0.15 threshold and the best
    // score 0.5 beats the entropy minimum 0.1
    let p: String = format!("{}{}", "a".repeat(25), "b".repeat(25));
    let e1 = DesktopEntry::from_appid(format!("{}{}", "a".repeat(25), "c".repeat(25)));
    let e2 = DesktopEntry::from_appid(format!("{}{}", "a".repeat(10), "d".repeat(40)));
    let entries = vec![e1, e2];
    let patterns = vec![p];
    let opts = MatchOptions {
        min_score: 700_000,
        entropy: Some((150_000, 100_000)),
    };
    let best = best_identifier_match(&patterns, &entries, &opts).unwrap();
    assert!(best.appid.starts_with("aaaaaaaaaaaaaaaaaaaaaaaaa"));
}

#[test]
fn identical_identifier_scores_full_scale() {
    let e = DesktopEntry::from_appid("exact".to_string());
    assert_eq!(e.match_score("exact"), SCORE_SCALE);
}

#[test]
fn startup_wm_class_counts_unpenalized() {
    let e = entry(
        "a.desktop",
        "[Desktop Entry]\nName=N\nStartupWMClass=editor\n",
    );
    assert_eq!(e.match_score("editor"), SCORE_SCALE);
}

#[test]
fn find_entry_from_appid_is_case_insensitive() {
    let entries = vec![
        DesktopEntry::from_appid("Org.Gnome.Files".to_string()),
        DesktopEntry::from_appid("other".to_string()),
    ];
    let found = find_entry_from_appid(&entries, "org.gnome.files").unwrap();
    assert_eq!(found.appid, "Org.Gnome.Files");
    assert!(find_entry_from_appid(&entries, "missing").is_none());
}

#[test]
fn find_entry_from_appid_uses_wm_class() {
    let entries = vec![entry(
        "x.desktop",
        "[Desktop Entry]\nStartupWMClass=MyClass\n",
    )];
    let found = find_entry_from_appid(&entries, "myclass").unwrap();
    assert_eq!(found.appid, "x");
}

#[test]
fn find_app_by_id_prefers_wm_class_over_name() {
    let by_name = entry("a.desktop", "[Desktop Entry]\nName=Target\n");
    let by_class = entry("b.desktop", "[Desktop Entry]\nStartupWMClass=target\n");
    let entries = vec![by_name, by_class];
    let found = find_app_by_id(&entries, "Target").unwrap();
    assert_eq!(found.appid, "b");
}

#[test]
fn find_app_by_id_matches_exec_words() {
    let entries = vec![entry(
        "a.desktop",
        "[Desktop Entry]\nExec=runner --flag\n",
    )];
    let found = find_app_by_id(&entries, "runner").unwrap();
    assert_eq!(found.appid, "a");
    assert!(find_app_by_id(&entries, "--flag").is_none());
}

#[test]
fn find_app_by_id_matches_id_segment() {
    let entries = vec![entry("files.desktop", "[Desktop Entry]\nName=N\n")];
    let found = find_app_by_id(&entries, "org.gnome.Files").unwrap();
    assert_eq!(found.appid, "files");
}

#[test]
fn match_score_exact_ratio() {
    // longest common substring "fire" of length 4 against length 7
    let e = DesktopEntry::from_appid("firefox".to_string());
    assert_eq!(e.match_score("fire"), 4 * SCORE_SCALE / 7);
}

#[test]
fn scan_stops_at_the_first_near_perfect_entry() {
    let entries = vec![
        DesktopEntry::from_appid("target".to_string()),
        DesktopEntry::from_appid("target2".to_string()),
    ];
    let patterns = vec!["target".to_string()];
    let best = best_identifier_match(&patterns, &entries, &MatchOptions::default()).unwrap();
    assert_eq!(best.appid, "target");
}

#[test]
fn query_score_is_full_scale_on_an_exact_name() {
    let e = entry("a.desktop", "[Desktop Entry]\nName=Files\n");
    // identical lower-cased text plus the containment bonus clamps to 1.0
    assert_eq!(e.match_query("files", &Vec::new(), &Vec::new()), SCORE_SCALE);
}

#[test]
fn query_score_uses_the_containment_band() {
    let e = entry("a.desktop", "[Desktop Entry]\nName=System File Manager\n");
    // "file" is a literal substring, so the score sits in the reserved band
    let s = e.match_query("file", &Vec::new(), &Vec::new());
    assert!(s >= 610_000);
    // an unrelated query scores low
    let s = e.match_query("zzzz", &Vec::new(), &Vec::new());
    assert!(s < 610_000);
}

#[test]
fn query_score_zero_on_an_empty_haystack() {
    let e = entry("a.desktop", "[Other]\nk=v\n");
    assert_eq!(e.match_query("anything", &Vec::new(), &Vec::new()), 0);
}

#[test]
fn query_score_reads_localized_keywords() {
    let e = entry(
        "a.desktop",
        "[Desktop Entry]\nName=N\nKeywords=editor;\nKeywords[fr]=redacteur;\n",
    );
    let locales = vec!["fr".to_string()];
    let s = e.match_query("redacteur", &locales, &Vec::new());
    assert_eq!(s, SCORE_SCALE);
    // without the locale preference the localized keyword is not searched
    let s = e.match_query("redacteur", &Vec::new(), &Vec::new());
    assert!(s < SCORE_SCALE);
}

#[test]
fn query_score_searches_extra_haystack_values() {
    let e = entry("a.desktop", "[Desktop Entry]\nName=N\n");
    let extra = vec!["Terminal Emulator".to_string()];
    let s = e.match_query("terminal", &Vec::new(), &extra);
    assert!(s >= 610_000);
}
