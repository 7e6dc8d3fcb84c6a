use freedesktop_desktop_entry::{DecodeError, DesktopEntry, Translator};

fn fr() -> Vec<String> {
    vec!["fr".to_string()]
}

#[test]
fn add_field() {
    let appid = "appid";
    let de = DesktopEntry::from_appid(appid.to_string());

    assert_eq!(de.appid, appid);
    assert_eq!(de.name(&Vec::new()).unwrap(), appid);
}

#[test]
fn decodes_simple_document() {
    let text = "[Desktop Entry]\nName=Files\nExec=files %u\nTerminal=false\n";
    let de = DesktopEntry::from_str("files.desktop".to_string(), text, None).unwrap();
    assert_eq!(de.appid, "files");
    assert_eq!(de.name(&Vec::new()).unwrap(), "Files");
    assert_eq!(de.exec().unwrap(), "files %u");
    assert!(!de.terminal());
    assert!(de.path().is_none());
}

#[test]
fn decoding_is_deterministic() {
    let text = "[Desktop Entry]\nName=A\nName[fr]=B\n[Other]\nK=V\n";
    let a = DesktopEntry::from_str("x.desktop".to_string(), text, None).unwrap();
    let b = DesktopEntry::from_str("x.desktop".to_string(), text, None).unwrap();
    assert_eq!(a.appid, b.appid);
    assert_eq!(
        a.name(&fr()).unwrap(),
        b.name(&fr()).unwrap()
    );
    assert_eq!(
        a.groups.group("Other").unwrap().entry("K"),
        b.groups.group("Other").unwrap().entry("K")
    );
}

#[test]
fn locale_fallback_prefix_and_default() {
    let text = "[Desktop Entry]\nX=C\nX[fr]=A\nX[en]=B\n";
    let de = DesktopEntry::from_str("a.desktop".to_string(), text, None).unwrap();
    // language-prefix fallback: fr_FR finds fr
    let got = de
        .desktop_entry_localized("X", &vec!["fr_FR".to_string()])
        .unwrap();
    assert_eq!(got, "A");
    // no match at all: the default value
    let got = de
        .desktop_entry_localized("X", &vec!["de".to_string()])
        .unwrap();
    assert_eq!(got, "C");
}

#[test]
fn trailing_backslash_is_invalid_value() {
    let text = "[G]\nk=a\\";
    let err = DesktopEntry::from_str("a.desktop".to_string(), text, None).unwrap_err();
    assert!(matches!(err, DecodeError::InvalidValue));
}

#[test]
fn unknown_escape_is_invalid_value() {
    let text = "[G]\nk=a\\x";
    let err = DesktopEntry::from_str("a.desktop".to_string(), text, None).unwrap_err();
    assert!(matches!(err, DecodeError::InvalidValue));
}

#[test]
fn empty_key_is_invalid_key() {
    let text = "[G]\n=value";
    let err = DesktopEntry::from_str("a.desktop".to_string(), text, None).unwrap_err();
    assert!(matches!(err, DecodeError::InvalidKey));
}

#[test]
fn key_value_without_a_group() {
    let text = "A=1\nB=2\n";
    let err = DesktopEntry::from_str("a.desktop".to_string(), text, None).unwrap_err();
    assert!(matches!(err, DecodeError::KeyValueWithoutAGroup));
}

#[test]
fn orphan_locale_key_is_key_does_not_exist() {
    let text = "[G]\nName[fr]=Bonjour\n";
    let err = DesktopEntry::from_str("a.desktop".to_string(), text, None).unwrap_err();
    assert!(matches!(err, DecodeError::KeyDoesNotExist));
}

#[test]
fn bad_suffix_is_app_id_error() {
    let err = DesktopEntry::from_str("a.txt".to_string(), "", None).unwrap_err();
    assert!(matches!(err, DecodeError::AppID));
}

#[test]
fn locale_key_before_default_still_attaches() {
    let text = "[G]\nName[fr]=Bonjour\nName=Hello\n";
    let de = DesktopEntry::from_str("a.desktop".to_string(), text, None).unwrap();
    let g = de.groups.group("G").unwrap();
    assert_eq!(g.localized_entry("Name", &fr()).unwrap(), "Bonjour");
    assert_eq!(g.entry("Name").unwrap(), "Hello");
}

#[test]
fn escapes_decode_to_control_characters() {
    let text = "[G]\nk=a\\sb\\nc\\td\\re\\\\f";
    let de = DesktopEntry::from_str("a.desktop".to_string(), text, None).unwrap();
    let g = de.groups.group("G").unwrap();
    assert_eq!(g.entry("k").unwrap(), "a b\nc\td\re\\f");
}

#[test]
fn adjacent_escapes_are_not_rescanned() {
    // four backslashes in the document are two in the text and decode to
    // two literal backslashes, not to an escape of an escape
    let text = "[G]\nk=\\\\\\\\";
    let de = DesktopEntry::from_str("a.desktop".to_string(), text, None).unwrap();
    assert_eq!(de.groups.group("G").unwrap().entry("k").unwrap(), "\\\\");
}

#[test]
fn one_leading_space_is_stripped() {
    let de = DesktopEntry::from_str("a.desktop".to_string(), "[G]\nk= v\n", None).unwrap();
    assert_eq!(de.groups.group("G").unwrap().entry("k").unwrap(), "v");
    let de = DesktopEntry::from_str("a.desktop".to_string(), "[G]\nk=  v\n", None).unwrap();
    assert_eq!(de.groups.group("G").unwrap().entry("k").unwrap(), " v");
}

#[test]
fn translation_domain_key_is_not_a_field() {
    let text = "[Desktop Entry]\nName=N\nX-Ubuntu-Gettext-Domain=nautilus\n";
    let de = DesktopEntry::from_str("a.desktop".to_string(), text, None).unwrap();
    assert_eq!(de.ubuntu_gettext_domain.as_deref(), Some("nautilus"));
    assert!(de.desktop_entry("X-Ubuntu-Gettext-Domain").is_none());
}

#[test]
fn repeated_group_merges_with_last_writer_wins() {
    let text = "[G]\nk=1\nkeep=x\n[H]\nh=2\n[G]\nk=3\nm=4\n";
    let de = DesktopEntry::from_str("a.desktop".to_string(), text, None).unwrap();
    let g = de.groups.group("G").unwrap();
    assert_eq!(g.entry("k").unwrap(), "3");
    assert_eq!(g.entry("keep").unwrap(), "x");
    assert_eq!(g.entry("m").unwrap(), "4");
    assert_eq!(de.groups.group("H").unwrap().entry("h").unwrap(), "2");
}

#[test]
fn comments_and_blank_lines_are_ignored() {
    let text = "# header\n\n   \n[G]\n# inner\nk=v\n";
    let de = DesktopEntry::from_str("a.desktop".to_string(), text, None).unwrap();
    assert_eq!(de.groups.group("G").unwrap().entry("k").unwrap(), "v");
}

#[test]
fn locale_filter_keeps_only_requested_locales() {
    let text = "[Desktop Entry]\nName=N\nName[fr]=F\nName[de]=D\n";
    let filter = vec!["fr_FR".to_string()];
    let de =
        DesktopEntry::from_str("a.desktop".to_string(), text, Some(&filter)).unwrap();
    // fr passes through the language-prefix expansion of fr_FR
    assert_eq!(de.name(&fr()).unwrap(), "F");
    // de was filtered out while decoding, so its lookup falls back
    assert_eq!(de.name(&vec!["de".to_string()]).unwrap(), "N");
}

#[test]
fn app_id_from_applications_segment() {
    let de = DesktopEntry::from_str(
        "/usr/share/applications/org.gnome.Files.desktop".to_string(),
        "",
        None,
    )
    .unwrap();
    assert_eq!(de.appid, "org.gnome.Files");

    let de = DesktopEntry::from_str(
        "/data/applications/sub/dir/app.desktop".to_string(),
        "",
        None,
    )
    .unwrap();
    assert_eq!(de.appid, "sub-dir-app");
}

#[test]
fn app_id_from_file_stem() {
    let de =
        DesktopEntry::from_str("/tmp/entries/foo.bar.desktop".to_string(), "", None).unwrap();
    assert_eq!(de.appid, "foo.bar");
}

#[test]
fn group_name_keeps_inner_brackets() {
    let text = "[a]b]\nk=v\n";
    let de = DesktopEntry::from_str("a.desktop".to_string(), text, None).unwrap();
    assert_eq!(de.groups.group("a]b").unwrap().entry("k").unwrap(), "v");
}

#[test]
fn crlf_line_endings_decode_like_lf() {
    let text = "[G]\r\nk=v\r\n";
    let de = DesktopEntry::from_str("a.desktop".to_string(), text, None).unwrap();
    assert_eq!(de.groups.group("G").unwrap().entry("k").unwrap(), "v");
}

#[test]
fn entry_bool_accepts_only_exact_booleans() {
    let text = "[Desktop Entry]\nA=true\nB=false\nC=yes\n";
    let de = DesktopEntry::from_str("a.desktop".to_string(), text, None).unwrap();
    let g = de.groups.desktop_entry().unwrap();
    assert_eq!(g.entry_bool("A"), Some(true));
    assert_eq!(g.entry_bool("B"), Some(false));
    assert_eq!(g.entry_bool("C"), None);
    assert_eq!(g.entry_bool("D"), None);
}

#[test]
fn list_accessors_split_on_semicolons() {
    let text = "[Desktop Entry]\nCategories=A;B;\nMimeType=x/y;z/w;\nKeywords=k1;k2\nKeywords[fr]=m1;m2\nActions=new;open;\n";
    let de = DesktopEntry::from_str("a.desktop".to_string(), text, None).unwrap();
    assert_eq!(
        de.categories().unwrap(),
        vec!["A".to_string(), "B".to_string(), String::new()]
    );
    // MimeType drops the single trailing empty piece
    assert_eq!(
        de.mime_type().unwrap(),
        vec!["x/y".to_string(), "z/w".to_string()]
    );
    assert_eq!(
        de.keywords(&fr()).unwrap(),
        vec!["m1".to_string(), "m2".to_string()]
    );
    assert_eq!(
        de.keywords(&Vec::new()).unwrap(),
        vec!["k1".to_string(), "k2".to_string()]
    );
    assert_eq!(
        de.actions().unwrap(),
        vec!["new".to_string(), "open".to_string(), String::new()]
    );
}

#[test]
fn action_entries_resolve() {
    let text = "[Desktop Entry]\nName=N\n[Desktop Action new-window]\nName=Open a New Window\nName[fr]=Nouvelle\nExec=app --new\n";
    let de = DesktopEntry::from_str("a.desktop".to_string(), text, None).unwrap();
    assert_eq!(de.action_entry("new-window", "Name").unwrap(), "Open a New Window");
    assert_eq!(de.action_exec("new-window").unwrap(), "app --new");
    assert_eq!(de.action_name("new-window", &fr()).unwrap(), "Nouvelle");
    assert!(de.action_entry("missing", "Name").is_none());
}

#[test]
fn full_name_falls_back_when_empty() {
    let text = "[Desktop Entry]\nName=Short\nX-GNOME-FullName=\n";
    let de = DesktopEntry::from_str("a.desktop".to_string(), text, None).unwrap();
    assert_eq!(de.full_name(&Vec::new()).unwrap(), "Short");

    let text = "[Desktop Entry]\nName=Short\nX-GNOME-FullName=Long Name\n";
    let de = DesktopEntry::from_str("a.desktop".to_string(), text, None).unwrap();
    assert_eq!(de.full_name(&Vec::new()).unwrap(), "Long Name");
}

#[test]
fn add_desktop_entry_replaces_value_and_locales() {
    let text = "[Desktop Entry]\nName=A\nName[fr]=B\n";
    let mut de = DesktopEntry::from_str("a.desktop".to_string(), text, None).unwrap();
    de.add_desktop_entry("Name".to_string(), "New".to_string());
    assert_eq!(de.name(&fr()).unwrap(), "New");
}

#[test]
fn render_round_trips() {
    let text = "[Desktop Entry]\nName=App \\\\ one\nName[fr]=Application\nExec=run %u\n[Desktop Action new]\nName=New\n";
    let de = DesktopEntry::from_str("a.desktop".to_string(), text, None).unwrap();
    let rendered = de.to_entry_text();
    let again = DesktopEntry::from_str("a.desktop".to_string(), &rendered, None).unwrap();
    assert_eq!(again.name(&Vec::new()).unwrap(), "App \\ one");
    assert_eq!(again.name(&fr()).unwrap(), "Application");
    assert_eq!(again.exec().unwrap(), "run %u");
    assert_eq!(again.action_name("new", &Vec::new()).unwrap(), "New");
}

#[test]
fn render_escapes_control_characters() {
    let mut de = DesktopEntry::from_appid("app".to_string());
    de.add_desktop_entry("Comment".to_string(), " tab\there\nand newline".to_string());
    let rendered = de.to_entry_text();
    let again = DesktopEntry::from_str("app.desktop".to_string(), &rendered, None).unwrap();
    assert_eq!(
        again.comment(&Vec::new()).unwrap(),
        " tab\there\nand newline"
    );
}

#[test]
fn render_keeps_the_translation_domain() {
    let text = "[Desktop Entry]\nName=N\nX-Ubuntu-Gettext-Domain=dom\n";
    let de = DesktopEntry::from_str("a.desktop".to_string(), text, None).unwrap();
    let again =
        DesktopEntry::from_str("a.desktop".to_string(), &de.to_entry_text(), None).unwrap();
    assert_eq!(again.ubuntu_gettext_domain.as_deref(), Some("dom"));
}

struct Upper;

impl Translator for Upper {
    fn translate(&self, _domain: &str, message: &str) -> String {
        message.to_uppercase()
    }
}

#[test]
fn translation_hook_applies_only_without_locale_match() {

    let text = "[Desktop Entry]\nName=hello\nName[fr]=bonjour\nX-Ubuntu-Gettext-Domain=dom\n";
    let de = DesktopEntry::from_str("a.desktop".to_string(), text, None).unwrap();
    // a locale match bypasses the hook
    assert_eq!(
        de.desktop_entry_localized_with(&Upper, "Name", &fr()).unwrap(),
        "bonjour"
    );
    // without one, the default value goes through the hook
    assert_eq!(
        de.desktop_entry_localized_with(&Upper, "Name", &vec!["de".to_string()])
            .unwrap(),
        "HELLO"
    );
    // without a domain, the hook is never consulted
    let text = "[Desktop Entry]\nName=hello\n";
    let de = DesktopEntry::from_str("a.desktop".to_string(), text, None).unwrap();
    assert_eq!(
        de.desktop_entry_localized_with(&Upper, "Name", &Vec::new())
            .unwrap(),
        "hello"
    );
}
