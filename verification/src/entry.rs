//! The decoded document: its identifier, its groups, and the accessors that
//! read and localize its fields.

use crate::decoder::{
    app_id_of, decode_lines, decode_text, expand_filter, filter_view, get_app_id, group_close,
    st_init, st_wf, DecodeError, DecoderState,
};
use crate::locale::{locales_view, resolve_field, split_list, split_value, Translator};
use crate::maps::{assoc, groups_view_wf, gs_replace_entry, Group, Groups, GroupsView};
use crate::strutil::{
    eq_ign, spec_lines, spec_rfind_char, split_lines, split_str, str_eq, str_eq_ignore_ascii_case,
};
use vstd::prelude::*;

verus! {

/// One decoded document.
#[derive(Debug)]
pub struct DesktopEntry {
    /// The identifier derived from the source path.
    pub appid: String,
    /// The grouped key/value model of the document body.
    pub groups: Groups,
    /// The source path the document was decoded from.
    pub path: String,
    /// The translation domain named by the document, if any.
    pub ubuntu_gettext_domain: Option<String>,
}

/// The mathematical model of a decoded document.
#[verifier::ext_equal]
pub struct EntryView {
    pub appid: Seq<char>,
    pub groups: GroupsView,
    pub path: Seq<char>,
    pub ubuntu_gettext_domain: Option<Seq<char>>,
}

impl View for DesktopEntry {
    type V = EntryView;

    open spec fn view(&self) -> EntryView {
        EntryView {
            appid: self.appid@,
            groups: self.groups@,
            path: self.path@,
            ubuntu_gettext_domain: match self.ubuntu_gettext_domain {
                Some(d) => Some(d@),
                None => None,
            },
        }
    }
}

/// The locale filter after expansion with language-only prefixes.
pub open spec fn expand_opt(f: Option<Seq<Seq<char>>>) -> Option<Seq<Seq<char>>> {
    match f {
        Some(fl) => Some(expand_filter(fl)),
        None => None,
    }
}

/// What decoding a whole document yields: deterministic in the source path,
/// the text and the locale filter.
pub open spec fn decode_result(
    path: Seq<char>,
    text: Seq<char>,
    filter: Option<Seq<Seq<char>>>,
) -> Result<EntryView, DecodeError> {
    match app_id_of(path) {
        None => Err(DecodeError::AppID),
        Some(id) => match decode_text(text, expand_opt(filter)) {
            Err(e) => Err(e),
            Ok((gs, dom)) => Ok(
                EntryView { appid: id, groups: gs, path: path, ubuntu_gettext_domain: dom },
            ),
        },
    }
}

impl DesktopEntry {
    pub open spec fn wf(&self) -> bool {
        groups_view_wf(self@.groups)
    }

    /// Decode a document from its source path and text, keeping only the
    /// locale-qualified values that the filter admits.
    pub fn from_str(path: String, input: &str, locales_filter: Option<&Vec<String>>) -> (r:
        Result<DesktopEntry, DecodeError>)
        ensures
            match r {
                Ok(e) => decode_result(path@, input@, filter_view(locales_filter)) == Ok::<
                    EntryView,
                    DecodeError,
                >(e@) && e.wf(),
                Err(err) => decode_result(path@, input@, filter_view(locales_filter)) == Err::<
                    EntryView,
                    DecodeError,
                >(err),
            },
    {
        let ghost fv0 = filter_view(locales_filter);
        let appid = match get_app_id(path.as_str()) {
            Ok(a) => a,
            Err(e) => {
                return Err(e);
            },
        };
        let expanded: Option<Vec<String>> = match locales_filter {
            Some(fl) => Some(crate::decoder::expand_locales(fl)),
            None => None,
        };
        let exp_ref: Option<&Vec<String>> = match &expanded {
            Some(v) => Some(v),
            None => None,
        };
        let ghost fve = filter_view(exp_ref);
        proof {
            assert(fve == expand_opt(fv0));
        }
        let lines = split_lines(input);
        let ghost linesv = lines@.map_values(|l: String| l@);
        let mut st = DecoderState::new();
        let n = lines.len();
        let mut i: usize = 0;
        proof {
            assert(linesv.skip(0) =~= linesv);
        }
        while i < n
            invariant
                i <= n,
                n == lines@.len(),
                linesv == lines@.map_values(|l: String| l@),
                linesv == spec_lines(input@),
                app_id_of(path@) == Some(appid@),
                fve == filter_view(exp_ref),
                fve == expand_opt(filter_view(locales_filter)),
                st_wf(st@),
                decode_lines(st_init(), linesv, fve) == decode_lines(
                    st@,
                    linesv.skip(i as int),
                    fve,
                ),
            decreases n - i,
        {
            let ghost stc = st@;
            let ghost restv = linesv.skip(i as int);
            proof {
                assert(restv[0] == lines@[i as int]@);
                assert(restv.drop_first() =~= linesv.skip(i as int + 1));
            }
            match st.process_line(lines[i].as_str(), exp_ref) {
                Ok(_) => (),
                Err(e) => {
                    return Err(e);
                },
            }
            i += 1;
        }
        proof {
            assert(linesv.skip(n as int).len() == 0);
            assert(linesv.skip(n as int) =~= Seq::<Seq<char>>::empty());
            assert(decode_lines(st@, Seq::<Seq<char>>::empty(), fve) == Ok::<
                crate::decoder::DecState,
                DecodeError,
            >(st@));
        }
        match st.close() {
            Ok(_) => (),
            Err(e) => {
                return Err(e);
            },
        }
        let DecoderState { groups, domain, .. } = st;
        let e = DesktopEntry { appid, groups, path, ubuntu_gettext_domain: domain };
        proof {
            assert(e@ =~= decode_result(e.path@, input@, fv0)->Ok_0);
        }
        Ok(e)
    }
}

/// The name of the primary group of a desktop entry document.
pub open spec fn de_group_name() -> Seq<char> {
    "Desktop Entry"@
}

/// The group name under which one named action's keys live.
pub open spec fn action_group_name(action: Seq<char>) -> Seq<char> {
    "Desktop Action "@ + action
}

/// A key's default value inside a named group of a document.
pub open spec fn g_entry(gs: GroupsView, gname: Seq<char>, key: Seq<char>) -> Option<Seq<char>> {
    match assoc(gs, gname) {
        Some(g) => match assoc(g, key) {
            Some(f) => Some(f.default_value),
            None => None,
        },
        None => None,
    }
}

/// A key's locale-resolved value inside a named group of a document,
/// without a translation hook.
pub open spec fn g_localized(
    gs: GroupsView,
    gname: Seq<char>,
    key: Seq<char>,
    prefs: Seq<Seq<char>>,
) -> Option<Seq<char>> {
    match assoc(gs, gname) {
        Some(g) => match assoc(g, key) {
            Some(f) => Some(resolve_field(f, prefs)),
            None => None,
        },
        None => None,
    }
}

impl Groups {
    /// The primary group of a desktop entry document.
    pub fn desktop_entry<'a>(&'a self) -> (r: Option<&'a crate::maps::Group>)
        ensures
            match r {
                Some(g) => assoc(self@, de_group_name()) == Some(g@),
                None => assoc(self@, de_group_name()) is None,
            },
    {
        self.group("Desktop Entry")
    }

    /// The primary group of a thumbnailer document.
    pub fn thumbnailer_entry<'a>(&'a self) -> (r: Option<&'a crate::maps::Group>)
        ensures
            match r {
                Some(g) => assoc(self@, "Thumbnailer Entry"@) == Some(g@),
                None => assoc(self@, "Thumbnailer Entry"@) is None,
            },
    {
        self.group("Thumbnailer Entry")
    }
}

impl DesktopEntry {
    /// Construct an entry from an identifier alone; its `Name` field is set
    /// to the identifier's last dot-separated segment.
    pub fn from_appid(appid: String) -> (r: DesktopEntry)
        ensures
            r@.appid == appid@,
            r@.path == Seq::<char>::empty(),
            r@.ubuntu_gettext_domain is None,
            r@.groups == gs_replace_entry(
                Seq::empty(),
                de_group_name(),
                "Name"@,
                ({
                    let k = spec_rfind_char(appid@, '.', appid@.len() as int);
                    appid@.skip(k + 1)
                }),
            ),
            r.wf(),
    {
        let alen = appid.as_str().unicode_len();
        let name: String = match crate::strutil::rfind_char(appid.as_str(), '.', alen) {
            Some(k) => {
                proof {
                    crate::strutil::lemma_rfind_char(appid@, '.', alen as int);
                }
                let seg = appid.as_str().substring_char(k + 1, alen);
                proof {
                    assert(seg@ =~= appid@.skip(k as int + 1));
                }
                String::from_str(seg)
            },
            None => {
                proof {
                    assert(appid@.skip(0) =~= appid@);
                }
                appid.clone()
            },
        };
        let mut de = DesktopEntry {
            appid,
            groups: Groups::new(),
            path: String::new(),
            ubuntu_gettext_domain: None,
        };
        de.add_desktop_entry(String::from_str("Name"), name);
        de
    }

    /// The entry's identifier.
    pub fn id<'a>(&'a self) -> (r: &'a str)
        ensures
            r@ == self@.appid,
    {
        self.appid.as_str()
    }

    /// Bind a key in the primary group, dropping any previous value and
    /// localized values of that key.
    pub fn add_desktop_entry(&mut self, key: String, value: String)
        requires
            old(self).wf(),
        ensures
            final(self)@ == (EntryView {
                groups: gs_replace_entry(old(self)@.groups, de_group_name(), key@, value@),
                ..old(self)@
            }),
            final(self).wf(),
    {
        self.groups.replace_entry(String::from_str("Desktop Entry"), key, value);
        proof {
            assert(final(self)@ =~= EntryView {
                groups: gs_replace_entry(old(self)@.groups, de_group_name(), key@, value@),
                ..old(self)@
            });
        }
    }

    /// A key's default value in the primary group.
    pub fn desktop_entry<'a>(&'a self, key: &str) -> (r: Option<&'a str>)
        ensures
            match r {
                Some(v) => g_entry(self@.groups, de_group_name(), key@) == Some(v@),
                None => g_entry(self@.groups, de_group_name(), key@) is None,
            },
    {
        match self.groups.desktop_entry() {
            Some(g) => g.entry(key),
            None => None,
        }
    }

    /// A key's default value in the primary group read as a boolean; any
    /// text but `true` counts as false.
    pub fn desktop_entry_bool(&self, key: &str) -> (r: bool)
        ensures
            r == (g_entry(self@.groups, de_group_name(), key@) == Some("true"@)),
    {
        match self.desktop_entry(key) {
            Some(v) => str_eq(v, "true"),
            None => false,
        }
    }

    /// A key's locale-resolved value in the primary group, without a
    /// translation hook.
    pub fn desktop_entry_localized<'a>(&'a self, key: &str, locales: &Vec<String>) -> (r: Option<
        &'a str,
    >)
        ensures
            match r {
                Some(v) => g_localized(self@.groups, de_group_name(), key@, locales_view(locales))
                    == Some(v@),
                None => g_localized(self@.groups, de_group_name(), key@, locales_view(locales))
                    is None,
            },
    {
        match self.groups.desktop_entry() {
            Some(g) => g.localized_entry(key, locales),
            None => None,
        }
    }

    /// A key's locale-resolved value in the primary group, consulting the
    /// translation hook when the document names a translation domain and no
    /// caller-preferred locale matched.
    pub fn desktop_entry_localized_with<T: Translator>(
        &self,
        hook: &T,
        key: &str,
        locales: &Vec<String>,
    ) -> (r: Option<String>)
        ensures
            match assoc(self@.groups, de_group_name()) {
                None => r is None,
                Some(g) => match assoc(g, key@) {
                    None => r is None,
                    Some(f) => {
                        &&& r is Some
                        &&& ((crate::locale::lookup_locale(f.locales, locales_view(locales))
                            is Some || self@.ubuntu_gettext_domain is None) ==> (r matches Some(v)
                            && v@ == resolve_field(f, locales_view(locales))))
                    },
                },
            },
    {
        let g = match self.groups.desktop_entry() {
            Some(g) => g,
            None => {
                return None;
            },
        };
        let f = match g.get(key) {
            Some(f) => f,
            None => {
                return None;
            },
        };
        if f.has_locale_match(locales) {
            Some(f.resolve(locales).clone())
        } else {
            match &self.ubuntu_gettext_domain {
                Some(domain) => Some(hook.translate(domain.as_str(), f.default_value.as_str())),
                None => Some(f.default_value.clone()),
            }
        }
    }
}

/// A resolved list value with one trailing empty piece dropped, as a
/// terminator-style split leaves it.
pub open spec fn split_term(v: Seq<char>) -> Seq<Seq<char>> {
    let p = split_list(v);
    if p.len() > 0 && p.last().len() == 0 {
        p.drop_last()
    } else {
        p
    }
}

/// The text after the last dot of an identifier; the identifier itself if
/// it has no dot.
pub open spec fn last_dot_segment(id: Seq<char>) -> Seq<char> {
    id.skip(spec_rfind_char(id, '.', id.len() as int) + 1)
}

/// The file stem of a path: the last path segment, its last extension
/// removed unless the dot is its first character.
pub open spec fn file_stem_of(path: Seq<char>) -> Option<Seq<char>> {
    let k = spec_rfind_char(path, '/', path.len() as int);
    let name = path.skip(k + 1);
    if name.len() == 0 {
        None
    } else {
        let d = spec_rfind_char(name, '.', name.len() as int);
        if d <= 0 {
            Some(name)
        } else {
            Some(name.take(d))
        }
    }
}

impl DesktopEntry {
    /// The localized application name.
    pub fn name<'a>(&'a self, locales: &Vec<String>) -> (r: Option<&'a str>)
        ensures
            match r {
                Some(v) => g_localized(self@.groups, de_group_name(), "Name"@, locales_view(
                    locales,
                )) == Some(v@),
                None => g_localized(self@.groups, de_group_name(), "Name"@, locales_view(locales))
                    is None,
            },
    {
        self.desktop_entry_localized("Name", locales)
    }

    /// The localized generic name.
    pub fn generic_name<'a>(&'a self, locales: &Vec<String>) -> (r: Option<&'a str>)
        ensures
            match r {
                Some(v) => g_localized(self@.groups, de_group_name(), "GenericName"@, locales_view(
                    locales,
                )) == Some(v@),
                None => g_localized(
                    self@.groups,
                    de_group_name(),
                    "GenericName"@,
                    locales_view(locales),
                ) is None,
            },
    {
        self.desktop_entry_localized("GenericName", locales)
    }

    /// The localized human-readable description.
    pub fn comment<'a>(&'a self, locales: &Vec<String>) -> (r: Option<&'a str>)
        ensures
            match r {
                Some(v) => g_localized(self@.groups, de_group_name(), "Comment"@, locales_view(
                    locales,
                )) == Some(v@),
                None => g_localized(
                    self@.groups,
                    de_group_name(),
                    "Comment"@,
                    locales_view(locales),
                ) is None,
            },
    {
        self.desktop_entry_localized("Comment", locales)
    }

    /// The localized full name, falling back to the plain name when absent
    /// or empty.
    pub fn full_name<'a>(&'a self, locales: &Vec<String>) -> (r: Option<&'a str>)
        ensures
            ({
                let full = g_localized(
                    self@.groups,
                    de_group_name(),
                    "X-GNOME-FullName"@,
                    locales_view(locales),
                );
                let plain = g_localized(
                    self@.groups,
                    de_group_name(),
                    "Name"@,
                    locales_view(locales),
                );
                match full {
                    Some(v) if v.len() > 0 => r matches Some(s) && s@ == v,
                    _ => match r {
                        Some(s) => plain == Some(s@),
                        None => plain is None,
                    },
                }
            }),
    {
        match self.desktop_entry_localized("X-GNOME-FullName", locales) {
            Some(v) => {
                if v.unicode_len() > 0 {
                    Some(v)
                } else {
                    self.name(locales)
                }
            },
            None => self.name(locales),
        }
    }

    /// The icon name or path.
    pub fn icon<'a>(&'a self) -> (r: Option<&'a str>)
        ensures
            match r {
                Some(v) => g_entry(self@.groups, de_group_name(), "Icon"@) == Some(v@),
                None => g_entry(self@.groups, de_group_name(), "Icon"@) is None,
            },
    {
        self.desktop_entry("Icon")
    }

    /// The command line to execute.
    pub fn exec<'a>(&'a self) -> (r: Option<&'a str>)
        ensures
            match r {
                Some(v) => g_entry(self@.groups, de_group_name(), "Exec"@) == Some(v@),
                None => g_entry(self@.groups, de_group_name(), "Exec"@) is None,
            },
    {
        self.desktop_entry("Exec")
    }

    /// Path or name of an executable to test whether the app is installed.
    pub fn try_exec<'a>(&'a self) -> (r: Option<&'a str>)
        ensures
            match r {
                Some(v) => g_entry(self@.groups, de_group_name(), "TryExec"@) == Some(v@),
                None => g_entry(self@.groups, de_group_name(), "TryExec"@) is None,
            },
    {
        self.desktop_entry("TryExec")
    }

    /// Whether the application can be activated over the message bus.
    pub fn dbus_activatable(&self) -> (r: bool)
        ensures
            r == (g_entry(self@.groups, de_group_name(), "DBusActivatable"@) == Some("true"@)),
    {
        self.desktop_entry_bool("DBusActivatable")
    }

    /// The categories the entry declares.
    pub fn categories(&self) -> (r: Option<Vec<String>>)
        ensures
            match r {
                Some(v) => g_entry(self@.groups, de_group_name(), "Categories"@) matches Some(val)
                    && v@.map_values(|s: String| s@) == split_list(val),
                None => g_entry(self@.groups, de_group_name(), "Categories"@) is None,
            },
    {
        match self.desktop_entry("Categories") {
            Some(v) => Some(split_value(v)),
            None => None,
        }
    }

    /// The localized keyword list.
    pub fn keywords(&self, locales: &Vec<String>) -> (r: Option<Vec<String>>)
        ensures
            match r {
                Some(v) => g_localized(self@.groups, de_group_name(), "Keywords"@, locales_view(
                    locales,
                )) matches Some(val) && v@.map_values(|s: String| s@) == split_list(val),
                None => g_localized(
                    self@.groups,
                    de_group_name(),
                    "Keywords"@,
                    locales_view(locales),
                ) is None,
            },
    {
        match self.desktop_entry_localized("Keywords", locales) {
            Some(v) => Some(split_value(v)),
            None => None,
        }
    }

    /// The MIME types the entry handles.
    pub fn mime_type(&self) -> (r: Option<Vec<String>>)
        ensures
            match r {
                Some(v) => g_entry(self@.groups, de_group_name(), "MimeType"@) matches Some(val)
                    && v@.map_values(|s: String| s@) == split_term(val),
                None => g_entry(self@.groups, de_group_name(), "MimeType"@) is None,
            },
    {
        match self.desktop_entry("MimeType") {
            Some(v) => {
                let mut parts = split_value(v);
                let last = parts.len() - 1;
                if parts[last].as_str().unicode_len() == 0 {
                    let ghost p0 = parts@.map_values(|s: String| s@);
                    parts.pop();
                    proof {
                        assert(parts@.map_values(|s: String| s@) =~= p0.drop_last());
                    }
                }
                Some(parts)
            },
            None => None,
        }
    }

    /// The bus interfaces the application implements.
    pub fn implements(&self) -> (r: Option<Vec<String>>)
        ensures
            match r {
                Some(v) => g_entry(self@.groups, de_group_name(), "Implements"@) matches Some(val)
                    && v@.map_values(|s: String| s@) == split_list(val),
                None => g_entry(self@.groups, de_group_name(), "Implements"@) is None,
            },
    {
        match self.desktop_entry("Implements") {
            Some(v) => Some(split_value(v)),
            None => None,
        }
    }

    /// Whether the entry exists but should not be shown in menus.
    pub fn no_display(&self) -> (r: bool)
        ensures
            r == (g_entry(self@.groups, de_group_name(), "NoDisplay"@) == Some("true"@)),
    {
        self.desktop_entry_bool("NoDisplay")
    }

    /// The desktop environments that should display this entry.
    pub fn only_show_in(&self) -> (r: Option<Vec<String>>)
        ensures
            match r {
                Some(v) => g_entry(self@.groups, de_group_name(), "OnlyShowIn"@) matches Some(val)
                    && v@.map_values(|s: String| s@) == split_list(val),
                None => g_entry(self@.groups, de_group_name(), "OnlyShowIn"@) is None,
            },
    {
        match self.desktop_entry("OnlyShowIn") {
            Some(v) => Some(split_value(v)),
            None => None,
        }
    }

    /// The desktop environments that should not display this entry.
    pub fn not_show_in(&self) -> (r: Option<Vec<String>>)
        ensures
            match r {
                Some(v) => g_entry(self@.groups, de_group_name(), "NotShowIn"@) matches Some(val)
                    && v@.map_values(|s: String| s@) == split_list(val),
                None => g_entry(self@.groups, de_group_name(), "NotShowIn"@) is None,
            },
    {
        match self.desktop_entry("NotShowIn") {
            Some(v) => Some(split_value(v)),
            None => None,
        }
    }

    /// Whether the entry should be treated as not existing at all.
    pub fn hidden(&self) -> (r: bool)
        ensures
            r == (g_entry(self@.groups, de_group_name(), "Hidden"@) == Some("true"@)),
    {
        self.desktop_entry_bool("Hidden")
    }

    /// The flatpak identifier, for entries installed through flatpak.
    pub fn flatpak<'a>(&'a self) -> (r: Option<&'a str>)
        ensures
            match r {
                Some(v) => g_entry(self@.groups, de_group_name(), "X-Flatpak"@) == Some(v@),
                None => g_entry(self@.groups, de_group_name(), "X-Flatpak"@) is None,
            },
    {
        self.desktop_entry("X-Flatpak")
    }

    /// Whether the application prefers to run on the non-default GPU.
    pub fn prefers_non_default_gpu(&self) -> (r: bool)
        ensures
            r == (g_entry(self@.groups, de_group_name(), "PrefersNonDefaultGPU"@) == Some(
                "true"@,
            )),
    {
        self.desktop_entry_bool("PrefersNonDefaultGPU")
    }

    /// Whether the application sends startup notification.
    pub fn startup_notify(&self) -> (r: bool)
        ensures
            r == (g_entry(self@.groups, de_group_name(), "StartupNotify"@) == Some("true"@)),
    {
        self.desktop_entry_bool("StartupNotify")
    }

    /// The window class the application sets at startup.
    pub fn startup_wm_class<'a>(&'a self) -> (r: Option<&'a str>)
        ensures
            match r {
                Some(v) => g_entry(self@.groups, de_group_name(), "StartupWMClass"@) == Some(v@),
                None => g_entry(self@.groups, de_group_name(), "StartupWMClass"@) is None,
            },
    {
        self.desktop_entry("StartupWMClass")
    }

    /// Whether the application runs in a terminal.
    pub fn terminal(&self) -> (r: bool)
        ensures
            r == (g_entry(self@.groups, de_group_name(), "Terminal"@) == Some("true"@)),
    {
        self.desktop_entry_bool("Terminal")
    }

    /// Whether the application has a single main window only.
    pub fn single_main_window(&self) -> (r: bool)
        ensures
            r == (g_entry(self@.groups, de_group_name(), "SingleMainWindow"@) == Some("true"@)),
    {
        self.desktop_entry_bool("SingleMainWindow")
    }

    /// The working directory to run the program in.
    pub fn path<'a>(&'a self) -> (r: Option<&'a str>)
        ensures
            match r {
                Some(v) => g_entry(self@.groups, de_group_name(), "Path"@) == Some(v@),
                None => g_entry(self@.groups, de_group_name(), "Path"@) is None,
            },
    {
        self.desktop_entry("Path")
    }

    /// The type of the entry.
    pub fn type_<'a>(&'a self) -> (r: Option<&'a str>)
        ensures
            match r {
                Some(v) => g_entry(self@.groups, de_group_name(), "Type"@) == Some(v@),
                None => g_entry(self@.groups, de_group_name(), "Type"@) is None,
            },
    {
        self.desktop_entry("Type")
    }

    /// The URL to access, for entries of type Link.
    pub fn url<'a>(&'a self) -> (r: Option<&'a str>)
        ensures
            match r {
                Some(v) => g_entry(self@.groups, de_group_name(), "URL"@) == Some(v@),
                None => g_entry(self@.groups, de_group_name(), "URL"@) is None,
            },
    {
        self.desktop_entry("URL")
    }

    /// The version of the specification the entry follows.
    pub fn version<'a>(&'a self) -> (r: Option<&'a str>)
        ensures
            match r {
                Some(v) => g_entry(self@.groups, de_group_name(), "Version"@) == Some(v@),
                None => g_entry(self@.groups, de_group_name(), "Version"@) is None,
            },
    {
        self.desktop_entry("Version")
    }

    /// The action identifiers the entry declares.
    pub fn actions(&self) -> (r: Option<Vec<String>>)
        ensures
            match r {
                Some(v) => g_entry(self@.groups, de_group_name(), "Actions"@) matches Some(val)
                    && v@.map_values(|s: String| s@) == split_list(val),
                None => g_entry(self@.groups, de_group_name(), "Actions"@) is None,
            },
    {
        match self.desktop_entry("Actions") {
            Some(v) => Some(split_value(v)),
            None => None,
        }
    }

    /// A key's default value inside one named action's group.
    pub fn action_entry<'a>(&'a self, action: &str, key: &str) -> (r: Option<&'a str>)
        ensures
            match r {
                Some(v) => g_entry(self@.groups, action_group_name(action@), key@) == Some(v@),
                None => g_entry(self@.groups, action_group_name(action@), key@) is None,
            },
    {
        let gname = String::from_str("Desktop Action ").concat(action);
        match self.groups.group(gname.as_str()) {
            Some(g) => g.entry(key),
            None => None,
        }
    }

    /// A key's locale-resolved value inside one named action's group.
    pub fn action_entry_localized<'a>(&'a self, action: &str, key: &str, locales: &Vec<String>)
        -> (r: Option<&'a str>)
        ensures
            match r {
                Some(v) => g_localized(
                    self@.groups,
                    action_group_name(action@),
                    key@,
                    locales_view(locales),
                ) == Some(v@),
                None => g_localized(
                    self@.groups,
                    action_group_name(action@),
                    key@,
                    locales_view(locales),
                ) is None,
            },
    {
        let gname = String::from_str("Desktop Action ").concat(action);
        match self.groups.group(gname.as_str()) {
            Some(g) => g.localized_entry(key, locales),
            None => None,
        }
    }

    /// One named action's localized name.
    pub fn action_name<'a>(&'a self, action: &str, locales: &Vec<String>) -> (r: Option<&'a str>)
        ensures
            match r {
                Some(v) => g_localized(
                    self@.groups,
                    action_group_name(action@),
                    "Name"@,
                    locales_view(locales),
                ) == Some(v@),
                None => g_localized(
                    self@.groups,
                    action_group_name(action@),
                    "Name"@,
                    locales_view(locales),
                ) is None,
            },
    {
        self.action_entry_localized(action, "Name", locales)
    }

    /// One named action's command line.
    pub fn action_exec<'a>(&'a self, action: &str) -> (r: Option<&'a str>)
        ensures
            match r {
                Some(v) => g_entry(self@.groups, action_group_name(action@), "Exec"@) == Some(v@),
                None => g_entry(self@.groups, action_group_name(action@), "Exec"@) is None,
            },
    {
        self.action_entry(action, "Exec")
    }

    /// A key's locale-resolved value in the given group, split at `;` into
    /// its list form, without a translation hook.
    pub fn localized_entry_splitted(&self, group: Option<&Group>, key: &str, locales: &Vec<String>)
        -> (r: Option<Vec<String>>)
        ensures
            match group {
                None => r is None,
                Some(g) => match assoc(g@, key@) {
                    None => r is None,
                    Some(f) => r matches Some(v) && v@.map_values(|s: String| s@) == split_list(
                        resolve_field(f, locales_view(locales)),
                    ),
                },
            },
    {
        match group {
            Some(g) => match g.localized_entry(key, locales) {
                Some(v) => Some(split_value(v)),
                None => None,
            },
            None => None,
        }
    }

    /// Whether the entry's startup window class equals the identifier,
    /// ignoring ASCII case.
    pub fn matches_wm_class(&self, id: &str) -> (r: bool)
        ensures
            r == match g_entry(self@.groups, de_group_name(), "StartupWMClass"@) {
                Some(w) => eq_ign(w, id@),
                None => false,
            },
    {
        match self.startup_wm_class() {
            Some(w) => str_eq_ignore_ascii_case(w, id),
            None => false,
        }
    }

    /// Whether the identifier names this entry: the identifier itself, the
    /// source file's stem, or the identifier's last dot-separated segment
    /// against that stem, all ignoring ASCII case.
    pub fn matches_id(&self, id: &str) -> (r: bool)
        ensures
            r == (eq_ign(id@, self@.appid) || match file_stem_of(self@.path) {
                Some(n) => eq_ign(n, id@) || eq_ign(last_dot_segment(id@), n),
                None => false,
            }),
    {
        if str_eq_ignore_ascii_case(id, self.appid.as_str()) {
            return true;
        }
        let plen = self.path.as_str().unicode_len();
        let name_start: usize = match crate::strutil::rfind_char(self.path.as_str(), '/', plen) {
            Some(k) => {
                proof {
                    crate::strutil::lemma_rfind_char(self@.path, '/', plen as int);
                }
                k + 1
            },
            None => 0,
        };
        let name = self.path.as_str().substring_char(name_start, plen);
        proof {
            assert(name@ =~= self@.path.skip(name_start as int));
        }
        let nlen = plen - name_start;
        if nlen == 0 {
            return false;
        }
        let stem: &str = match crate::strutil::rfind_char(name, '.', nlen) {
            Some(d) if d > 0 => {
                proof {
                    crate::strutil::lemma_rfind_char(name@, '.', nlen as int);
                }
                name.substring_char(0, d)
            },
            _ => name,
        };
        proof {
            assert(file_stem_of(self@.path) == Some(stem@));
        }
        if str_eq_ignore_ascii_case(stem, id) {
            return true;
        }
        let idlen = id.unicode_len();
        let seg_start: usize = match crate::strutil::rfind_char(id, '.', idlen) {
            Some(k) => {
                proof {
                    crate::strutil::lemma_rfind_char(id@, '.', idlen as int);
                }
                k + 1
            },
            None => 0,
        };
        let seg = id.substring_char(seg_start, idlen);
        proof {
            assert(seg@ =~= last_dot_segment(id@));
        }
        str_eq_ignore_ascii_case(seg, stem)
    }

    /// Whether the entry's unlocalized name equals the query, ignoring
    /// ASCII case.
    pub fn matches_name(&self, name: &str) -> (r: bool)
        ensures
            r == match g_entry(self@.groups, de_group_name(), "Name"@) {
                Some(n) => eq_ign(n, name@),
                None => false,
            },
    {
        match self.desktop_entry("Name") {
            Some(n) => str_eq_ignore_ascii_case(n, name),
            None => false,
        }
    }
}

/// Decoding is deterministic: one path, text and locale filter always yield
/// one result — byte-identical structure, including iteration order.
pub proof fn lemma_decode_deterministic(
    path: Seq<char>,
    text: Seq<char>,
    filter: Option<Seq<Seq<char>>>,
    r1: Result<EntryView, DecodeError>,
    r2: Result<EntryView, DecodeError>,
)
    requires
        r1 == decode_result(path, text, filter),
        r2 == decode_result(path, text, filter),
    ensures
        r1 == r2,
{
}

} // verus!
