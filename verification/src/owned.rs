//! A builder for entry documents: starts from an identifier and fills the
//! grouped key/value model field by field.

use crate::entry::{action_group_name, de_group_name};
use crate::maps::{aset, g_set_default, g_set_locale, group_or_empty, groups_view_wf, Groups};
use vstd::prelude::*;

verus! {

/// An entry document under construction.
#[derive(Debug)]
pub struct DesktopEntryBuf {
    pub appid: String,
    pub groups: Groups,
}

impl DesktopEntryBuf {
    pub open spec fn wf(&self) -> bool {
        groups_view_wf(self.groups@)
    }

    pub fn new(appid: String) -> (r: Self)
        ensures
            r.appid@ == appid@,
            r.groups@ == Seq::<(Seq<char>, crate::maps::GroupView)>::empty(),
            r.wf(),
    {
        DesktopEntryBuf { appid, groups: Groups::new() }
    }

    /// Set a key in the primary group: its default value, or one localized
    /// value; what is not set is kept.
    pub fn set_localized(self, key: String, value: String, locale: Option<String>) -> (r: Self)
        requires
            self.wf(),
        ensures
            r.appid@ == self.appid@,
            r.groups@ == (match locale {
                Some(l) => aset(
                    self.groups@,
                    de_group_name(),
                    g_set_locale(
                        group_or_empty(self.groups@, de_group_name()),
                        key@,
                        l@,
                        value@,
                    ),
                ),
                None => aset(
                    self.groups@,
                    de_group_name(),
                    g_set_default(group_or_empty(self.groups@, de_group_name()), key@, value@),
                ),
            }),
            r.wf(),
    {
        let mut this = self;
        match locale {
            Some(l) => this.groups.set_entry_locale(
                String::from_str("Desktop Entry"),
                key,
                l,
                value,
            ),
            None => this.groups.set_entry_default(String::from_str("Desktop Entry"), key, value),
        }
        this
    }

    /// Set a key in one named action's group: its default value, or one
    /// localized value.
    pub fn set_localized_action(
        self,
        action: String,
        key: String,
        value: String,
        locale: Option<String>,
    ) -> (r: Self)
        requires
            self.wf(),
        ensures
            r.appid@ == self.appid@,
            r.groups@ == (match locale {
                Some(l) => aset(
                    self.groups@,
                    action_group_name(action@),
                    g_set_locale(
                        group_or_empty(self.groups@, action_group_name(action@)),
                        key@,
                        l@,
                        value@,
                    ),
                ),
                None => aset(
                    self.groups@,
                    action_group_name(action@),
                    g_set_default(
                        group_or_empty(self.groups@, action_group_name(action@)),
                        key@,
                        value@,
                    ),
                ),
            }),
            r.wf(),
    {
        let mut this = self;
        let gname = String::from_str("Desktop Action ").concat(action.as_str());
        proof {
            assert(gname@ == action_group_name(action@));
        }
        match locale {
            Some(l) => this.groups.set_entry_locale(gname, key, l, value),
            None => this.groups.set_entry_default(gname, key, value),
        }
        this
    }

    /// Set a boolean key in the primary group.
    pub fn set_bool(self, key: String, value: bool) -> (r: Self)
        requires
            self.wf(),
        ensures
            r.appid@ == self.appid@,
            r.groups@ == aset(
                self.groups@,
                de_group_name(),
                g_set_default(
                    group_or_empty(self.groups@, de_group_name()),
                    key@,
                    (if value {
                        "true"@
                    } else {
                        "false"@
                    }),
                ),
            ),
            r.wf(),
    {
        let text = if value {
            String::from_str("true")
        } else {
            String::from_str("false")
        };
        self.set_localized(key, text, None)
    }

    /// Declare the action identifiers.
    pub fn actions(self, actions: String) -> (r: Self)
        requires
            self.wf(),
        ensures
            r.appid@ == self.appid@,
            r.groups@ == aset(
                self.groups@,
                de_group_name(),
                g_set_default(group_or_empty(self.groups@, de_group_name()), "Actions"@, actions@),
            ),
            r.wf(),
    {
        self.set_localized(String::from_str("Actions"), actions, None)
    }

    /// Declare the categories.
    pub fn categories(self, categories: String) -> (r: Self)
        requires
            self.wf(),
        ensures
            r.appid@ == self.appid@,
            r.groups@ == aset(
                self.groups@,
                de_group_name(),
                g_set_default(
                    group_or_empty(self.groups@, de_group_name()),
                    "Categories"@,
                    categories@,
                ),
            ),
            r.wf(),
    {
        self.set_localized(String::from_str("Categories"), categories, None)
    }

    /// Set the description, for one locale or as the default.
    pub fn comment(self, comment: String, locale: Option<String>) -> (r: Self)
        requires
            self.wf(),
        ensures
            r.appid@ == self.appid@,
            r.groups@ == (match locale {
                Some(l) => aset(
                    self.groups@,
                    de_group_name(),
                    g_set_locale(
                        group_or_empty(self.groups@, de_group_name()),
                        "Comment"@,
                        l@,
                        comment@,
                    ),
                ),
                None => aset(
                    self.groups@,
                    de_group_name(),
                    g_set_default(
                        group_or_empty(self.groups@, de_group_name()),
                        "Comment"@,
                        comment@,
                    ),
                ),
            }),
            r.wf(),
    {
        self.set_localized(String::from_str("Comment"), comment, locale)
    }

    /// Set the command line.
    pub fn exec(self, exec: String) -> (r: Self)
        requires
            self.wf(),
        ensures
            r.appid@ == self.appid@,
            r.groups@ == aset(
                self.groups@,
                de_group_name(),
                g_set_default(group_or_empty(self.groups@, de_group_name()), "Exec"@, exec@),
            ),
            r.wf(),
    {
        self.set_localized(String::from_str("Exec"), exec, None)
    }

    /// Set the icon.
    pub fn icon(self, icon: String) -> (r: Self)
        requires
            self.wf(),
        ensures
            r.appid@ == self.appid@,
            r.groups@ == aset(
                self.groups@,
                de_group_name(),
                g_set_default(group_or_empty(self.groups@, de_group_name()), "Icon"@, icon@),
            ),
            r.wf(),
    {
        self.set_localized(String::from_str("Icon"), icon, None)
    }

    /// Declare the keywords.
    pub fn keywords(self, keywords: String) -> (r: Self)
        requires
            self.wf(),
        ensures
            r.appid@ == self.appid@,
            r.groups@ == aset(
                self.groups@,
                de_group_name(),
                g_set_default(
                    group_or_empty(self.groups@, de_group_name()),
                    "Keywords"@,
                    keywords@,
                ),
            ),
            r.wf(),
    {
        self.set_localized(String::from_str("Keywords"), keywords, None)
    }

    /// Declare the MIME types.
    pub fn mime_type(self, mime_type: String) -> (r: Self)
        requires
            self.wf(),
        ensures
            r.appid@ == self.appid@,
            r.groups@ == aset(
                self.groups@,
                de_group_name(),
                g_set_default(
                    group_or_empty(self.groups@, de_group_name()),
                    "MimeType"@,
                    mime_type@,
                ),
            ),
            r.wf(),
    {
        self.set_localized(String::from_str("MimeType"), mime_type, None)
    }

    /// Set the name, for one locale or as the default.
    pub fn name(self, name: String, locale: Option<String>) -> (r: Self)
        requires
            self.wf(),
        ensures
            r.appid@ == self.appid@,
            r.groups@ == (match locale {
                Some(l) => aset(
                    self.groups@,
                    de_group_name(),
                    g_set_locale(
                        group_or_empty(self.groups@, de_group_name()),
                        "Name"@,
                        l@,
                        name@,
                    ),
                ),
                None => aset(
                    self.groups@,
                    de_group_name(),
                    g_set_default(group_or_empty(self.groups@, de_group_name()), "Name"@, name@),
                ),
            }),
            r.wf(),
    {
        self.set_localized(String::from_str("Name"), name, locale)
    }

    /// Set whether the entry is kept out of menus.
    pub fn no_display(self, value: bool) -> (r: Self)
        requires
            self.wf(),
        ensures
            r.appid@ == self.appid@,
            r.groups@ == aset(
                self.groups@,
                de_group_name(),
                g_set_default(
                    group_or_empty(self.groups@, de_group_name()),
                    "NoDisplay"@,
                    (if value {
                        "true"@
                    } else {
                        "false"@
                    }),
                ),
            ),
            r.wf(),
    {
        self.set_bool(String::from_str("NoDisplay"), value)
    }

    /// Set whether the application prefers the non-default GPU.
    pub fn prefers_non_default_gpu(self, value: bool) -> (r: Self)
        requires
            self.wf(),
        ensures
            r.appid@ == self.appid@,
            r.groups@ == aset(
                self.groups@,
                de_group_name(),
                g_set_default(
                    group_or_empty(self.groups@, de_group_name()),
                    "PrefersNonDefaultGPU"@,
                    (if value {
                        "true"@
                    } else {
                        "false"@
                    }),
                ),
            ),
            r.wf(),
    {
        self.set_bool(String::from_str("PrefersNonDefaultGPU"), value)
    }

    /// Set whether the application sends startup notification.
    pub fn startup_notify(self, value: bool) -> (r: Self)
        requires
            self.wf(),
        ensures
            r.appid@ == self.appid@,
            r.groups@ == aset(
                self.groups@,
                de_group_name(),
                g_set_default(
                    group_or_empty(self.groups@, de_group_name()),
                    "StartupNotify"@,
                    (if value {
                        "true"@
                    } else {
                        "false"@
                    }),
                ),
            ),
            r.wf(),
    {
        self.set_bool(String::from_str("StartupNotify"), value)
    }

    /// Set whether the application runs in a terminal.
    pub fn terminal(self, value: bool) -> (r: Self)
        requires
            self.wf(),
        ensures
            r.appid@ == self.appid@,
            r.groups@ == aset(
                self.groups@,
                de_group_name(),
                g_set_default(
                    group_or_empty(self.groups@, de_group_name()),
                    "Terminal"@,
                    (if value {
                        "true"@
                    } else {
                        "false"@
                    }),
                ),
            ),
            r.wf(),
    {
        self.set_bool(String::from_str("Terminal"), value)
    }

    /// Set the entry's type.
    pub fn type_(self, type_: String) -> (r: Self)
        requires
            self.wf(),
        ensures
            r.appid@ == self.appid@,
            r.groups@ == aset(
                self.groups@,
                de_group_name(),
                g_set_default(group_or_empty(self.groups@, de_group_name()), "Type"@, type_@),
            ),
            r.wf(),
    {
        self.set_localized(String::from_str("Type"), type_, None)
    }

    /// Set one named action's command line.
    pub fn action_exec(self, action: String, exec: String) -> (r: Self)
        requires
            self.wf(),
        ensures
            r.appid@ == self.appid@,
            r.groups@ == aset(
                self.groups@,
                action_group_name(action@),
                g_set_default(
                    group_or_empty(self.groups@, action_group_name(action@)),
                    "Exec"@,
                    exec@,
                ),
            ),
            r.wf(),
    {
        self.set_localized_action(action, String::from_str("Exec"), exec, None)
    }

    /// Set one named action's name, for one locale or as the default.
    pub fn action_name(self, action: String, name: String, locale: Option<String>) -> (r: Self)
        requires
            self.wf(),
        ensures
            r.appid@ == self.appid@,
            r.groups@ == (match locale {
                Some(l) => aset(
                    self.groups@,
                    action_group_name(action@),
                    g_set_locale(
                        group_or_empty(self.groups@, action_group_name(action@)),
                        "Name"@,
                        l@,
                        name@,
                    ),
                ),
                None => aset(
                    self.groups@,
                    action_group_name(action@),
                    g_set_default(
                        group_or_empty(self.groups@, action_group_name(action@)),
                        "Name"@,
                        name@,
                    ),
                ),
            }),
            r.wf(),
    {
        self.set_localized_action(action, String::from_str("Name"), name, locale)
    }
}

impl DesktopEntryBuf {
    /// Make sure the primary group exists, creating it empty if absent.
    pub fn desktop_entry(self) -> (r: Self)
        requires
            self.wf(),
        ensures
            r.appid@ == self.appid@,
            r.groups@ == (match crate::maps::assoc(self.groups@, de_group_name()) {
                Some(_) => self.groups@,
                None => self.groups@.push(
                    (de_group_name(), Seq::<(Seq<char>, crate::maps::FieldView)>::empty()),
                ),
            }),
            r.wf(),
    {
        let mut this = self;
        this.groups.ensure_group(String::from_str("Desktop Entry"));
        this
    }

    /// Make sure one named action's group exists, creating it empty if
    /// absent.
    pub fn action_entry(self, action: String) -> (r: Self)
        requires
            self.wf(),
        ensures
            r.appid@ == self.appid@,
            r.groups@ == (match crate::maps::assoc(self.groups@, action_group_name(action@)) {
                Some(_) => self.groups@,
                None => self.groups@.push(
                    (
                        action_group_name(action@),
                        Seq::<(Seq<char>, crate::maps::FieldView)>::empty(),
                    ),
                ),
            }),
            r.wf(),
    {
        let mut this = self;
        let gname = String::from_str("Desktop Action ").concat(action.as_str());
        proof {
            assert(gname@ == action_group_name(action@));
        }
        this.groups.ensure_group(gname);
        this
    }
}

} // verus!
