use freedesktop_desktop_entry::{
    DesktopEntry, DesktopEntryBuf, ExecError, GenericEntry, IconSource, MimeApps, MimeValue,
    Thumbnail,
};

#[test]
fn filenames_iterator_handles_trailing_semicolon() {
    let value = "a.desktop;b.desktop;c.desktop;".to_string();
    let collected = MimeValue(&value).filenames();
    assert_eq!(
        collected,
        vec![
            "a.desktop".to_string(),
            "b.desktop".to_string(),
            "c.desktop".to_string()
        ]
    );
}

#[test]
fn generic_entry_replaces_repeated_groups() {
    let text = "[G]\nk=1\nkeep=x\n[G]\nk=2\n";
    let ge = GenericEntry::from_str("any".to_string(), text).unwrap();
    let g = ge.group("G").unwrap();
    assert_eq!(g.entry("k").unwrap(), "2");
    // a repeated group replaces the earlier one outright
    assert!(g.entry("keep").is_none());
}

#[test]
fn generic_entry_ignores_lines_outside_groups() {
    let text = "stray=1\n[G]\nk=v\n";
    let ge = GenericEntry::from_str("any".to_string(), text).unwrap();
    assert_eq!(ge.group("G").unwrap().entry("k").unwrap(), "v");
}

#[test]
fn generic_entry_keeps_locale_syntax_verbatim() {
    let text = "[G]\nName[fr]=Bonjour\n";
    let ge = GenericEntry::from_str("any".to_string(), text).unwrap();
    assert_eq!(ge.group("G").unwrap().entry("Name[fr]").unwrap(), "Bonjour");
}

#[test]
fn mime_apps_filters_malformed_identifiers() {
    let text = "[Default Applications]\nnot-a-mime=fo.desktop;\ntext/html=browser.desktop;\n\
[Added Associations]\napplication/pdf=evince.desktop;okular.desktop;\n";
    let ge = GenericEntry::from_str("mimeapps.list".to_string(), text).unwrap();
    let apps = MimeApps {
        path: "mimeapps.list".to_string(),
        groups: ge.groups,
    };

    let defaults = apps.default_applications();
    assert_eq!(defaults.len(), 1);
    assert_eq!(defaults[0].0.essence_str(), "text/html");
    assert_eq!(defaults[0].1, "browser.desktop;");

    let added = apps.added_associations();
    assert_eq!(added.len(), 1);
    let names = MimeValue(&added[0].1).filenames();
    assert_eq!(names, vec!["evince.desktop".to_string(), "okular.desktop".to_string()]);

    assert!(apps.removed_associations().is_empty());
}

#[test]
fn thumbnailer_getters() {
    let text = "[Thumbnailer Entry]\nExec=cosmic-player --thumbnail %o --size %s %u\n\
TryExec=cosmic-player\nMimeType=application/mxf;application/ram\n";
    let ge = GenericEntry::from_str("t".to_string(), text).unwrap();
    let t = Thumbnail {
        path: "t".to_string(),
        groups: ge.groups,
    };
    assert_eq!(t.exec().unwrap(), "cosmic-player --thumbnail %o --size %s %u");
    assert_eq!(t.try_exec().unwrap(), "cosmic-player");
    assert_eq!(
        t.mime_type().unwrap(),
        vec!["application/mxf".to_string(), "application/ram".to_string()]
    );
}

#[test]
fn parse_exec_substitutes_field_codes() {
    let text = "[Desktop Entry]\nName=My App\nIcon=app-icon\nExec=run %f --icon %i --name %c %k tail\n";
    let de = DesktopEntry::from_str("/x/applications/app.desktop".to_string(), text, None)
        .unwrap();
    let uris = vec!["file:///a".to_string(), "file:///b".to_string()];
    let args = de.parse_exec_with_uris(&uris, &Vec::new()).unwrap();
    assert_eq!(
        args,
        vec![
            "run".to_string(),
            "file:///a".to_string(),
            "--icon".to_string(),
            "app-icon".to_string(),
            "--name".to_string(),
            "My App".to_string(),
            "/x/applications/app.desktop".to_string(),
            "tail".to_string()
        ]
    );
}

#[test]
fn parse_exec_expands_uri_lists_and_skips_unknown_codes() {
    let text = "[Desktop Entry]\nExec=run %U %d %z\n";
    let de = DesktopEntry::from_str("a.desktop".to_string(), text, None).unwrap();
    let uris = vec!["u1".to_string(), "u2".to_string()];
    let args = de.parse_exec_with_uris(&uris, &Vec::new()).unwrap();
    assert_eq!(args, vec!["run".to_string(), "u1".to_string(), "u2".to_string()]);
}

#[test]
fn parse_exec_unmatched_quote_fails() {
    let text = "[Desktop Entry]\nExec=\"cmd --flag\n";
    let de = DesktopEntry::from_str("a.desktop".to_string(), text, None).unwrap();
    assert_eq!(de.exec().unwrap(), "\"cmd --flag");
    let err = de.parse_exec().unwrap_err();
    assert!(matches!(err, ExecError::WrongFormat(..)));
}

#[test]
fn parse_exec_empty_after_substitution_fails() {
    let text = "[Desktop Entry]\nExec=%d\n";
    let de = DesktopEntry::from_str("a.desktop".to_string(), text, None).unwrap();
    let err = de.parse_exec().unwrap_err();
    assert!(matches!(err, ExecError::ExecFieldIsEmpty));
}

#[test]
fn parse_exec_missing_key_fails() {
    let text = "[Desktop Entry]\nName=N\n";
    let de = DesktopEntry::from_str("a.desktop".to_string(), text, None).unwrap();
    let err = de.parse_exec().unwrap_err();
    assert!(matches!(err, ExecError::ExecFieldNotFound));
}

#[test]
fn parse_exec_rejects_leading_assignment() {
    let text = "[Desktop Entry]\nExec=FOO=bar cmd\n";
    let de = DesktopEntry::from_str("a.desktop".to_string(), text, None).unwrap();
    let err = de.parse_exec().unwrap_err();
    assert!(matches!(err, ExecError::WrongFormat(..)));
}

#[test]
fn parse_exec_action_uses_the_action_group() {
    let text = "[Desktop Entry]\nExec=main\n[Desktop Action new]\nExec=main --new %u\n";
    let de = DesktopEntry::from_str("a.desktop".to_string(), text, None).unwrap();
    let uris = vec!["file:///z".to_string()];
    let args = de
        .parse_exec_action_with_uris("new", &uris, &Vec::new())
        .unwrap();
    assert_eq!(
        args,
        vec!["main".to_string(), "--new".to_string(), "file:///z".to_string()]
    );
}

#[test]
fn builder_fills_the_primary_group() {
    let buf = DesktopEntryBuf::new("org.example.App".to_string())
        .name("App".to_string(), None)
        .name("Application".to_string(), Some("fr".to_string()))
        .exec("app %u".to_string())
        .terminal(true)
        .categories("Utility;".to_string());
    assert_eq!(buf.appid, "org.example.App");
    let g = buf.groups.desktop_entry().unwrap();
    assert_eq!(g.entry("Name").unwrap(), "App");
    assert_eq!(
        g.localized_entry("Name", &vec!["fr".to_string()]).unwrap(),
        "Application"
    );
    assert_eq!(g.entry("Exec").unwrap(), "app %u");
    assert_eq!(g.entry_bool("Terminal"), Some(true));
    assert_eq!(g.entry("Categories").unwrap(), "Utility;");
}

#[test]
fn builder_action_groups() {
    let buf = DesktopEntryBuf::new("id".to_string())
        .action_name("new".to_string(), "New Window".to_string(), None)
        .action_exec("new".to_string(), "app --new".to_string());
    let g = buf.groups.group("Desktop Action new").unwrap();
    assert_eq!(g.entry("Name").unwrap(), "New Window");
    assert_eq!(g.entry("Exec").unwrap(), "app --new");
}

#[test]
fn builder_set_bool_keeps_locales() {
    let buf = DesktopEntryBuf::new("id".to_string())
        .name("N".to_string(), Some("fr".to_string()))
        .set_bool("Name".to_string(), false);
    let g = buf.groups.desktop_entry().unwrap();
    assert_eq!(g.entry("Name").unwrap(), "false");
    assert_eq!(
        g.localized_entry("Name", &vec!["fr".to_string()]).unwrap(),
        "N"
    );
}

#[test]
fn icon_source_classification() {
    assert_eq!(
        IconSource::from_unknown("/usr/share/icons/a.png", true),
        IconSource::Path("/usr/share/icons/a.png".to_string())
    );
    assert_eq!(
        IconSource::from_unknown("/usr/share/icons/a.png", false),
        IconSource::Name("/usr/share/icons/a.png".to_string())
    );
    assert_eq!(
        IconSource::from_unknown("folder", true),
        IconSource::Name("folder".to_string())
    );
    assert_eq!(
        IconSource::default(),
        IconSource::Name("application-default".to_string())
    );
}

#[test]
fn builder_group_accessors_create_groups() {
    let buf = DesktopEntryBuf::new("id".to_string())
        .desktop_entry()
        .action_entry("new".to_string());
    assert!(buf.groups.desktop_entry().is_some());
    assert!(buf.groups.group("Desktop Action new").is_some());
    // creating again changes nothing
    let buf = buf.desktop_entry();
    assert!(buf.groups.desktop_entry().is_some());
}
