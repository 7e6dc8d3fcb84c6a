//! The locale resolver: given a caller's ordered locale preferences, pick a
//! key's best value — an exact locale match first, then the language-only
//! prefix, then the translation hook, then the default value.

use crate::maps::{assoc, Field, FieldView, Group};
use crate::strutil::{find_char, lemma_find_char, spec_find_char, spec_split, split_str};
use vstd::prelude::*;

verus! {

/// An external catalog that can translate a default value.  The result is
/// deliberately unconstrained: translation depends on process-global state
/// and on what catalogs are installed, so nothing is promised of it.
pub trait Translator {
    /// Translate `message` through the catalog named `domain`.
    fn translate(&self, domain: &str, message: &str) -> String;
}

/// A translator that hands the message back unchanged, for callers that
/// have no catalog.
pub struct NullTranslator;

impl Translator for NullTranslator {
    fn translate(&self, _domain: &str, message: &str) -> String {
        String::from_str(message)
    }
}

/// The view of an ordered locale preference list.
pub open spec fn locales_view(v: &Vec<String>) -> Seq<Seq<char>> {
    v@.map_values(|s: String| s@)
}

/// The first hit in the caller's preference order: an exact match on the
/// tag, else a match on its language-only prefix (before `_`).
pub open spec fn lookup_locale(
    lm: Seq<(Seq<char>, Seq<char>)>,
    prefs: Seq<Seq<char>>,
) -> Option<Seq<char>>
    decreases prefs.len(),
{
    if prefs.len() == 0 {
        None
    } else {
        let l = prefs[0];
        match assoc(lm, l) {
            Some(v) => Some(v),
            None => {
                let p = spec_find_char(l, '_', 0);
                if p < l.len() {
                    match assoc(lm, l.take(p)) {
                        Some(v) => Some(v),
                        None => lookup_locale(lm, prefs.drop_first()),
                    }
                } else {
                    lookup_locale(lm, prefs.drop_first())
                }
            },
        }
    }
}

/// A field resolved without a translation hook: the first locale hit, else
/// the default value.
pub open spec fn resolve_field(f: FieldView, prefs: Seq<Seq<char>>) -> Seq<char> {
    match lookup_locale(f.locales, prefs) {
        Some(v) => v,
        None => f.default_value,
    }
}

impl Field {
    /// The best value of this field for the caller's locale preferences,
    /// with no translation hook.
    pub fn resolve<'a>(&'a self, locales: &Vec<String>) -> (r: &'a String)
        ensures
            r@ == resolve_field(self@, locales_view(locales)),
    {
        let ghost prefs = locales_view(locales);
        let n = locales.len();
        let mut i: usize = 0;
        proof {
            assert(prefs.skip(0) =~= prefs);
        }
        while i < n
            invariant
                i <= n,
                n == locales@.len(),
                prefs == locales_view(locales),
                lookup_locale(self@.locales, prefs) == lookup_locale(
                    self@.locales,
                    prefs.skip(i as int),
                ),
            decreases n - i,
        {
            let ghost restp = prefs.skip(i as int);
            let l = &locales[i];
            proof {
                assert(restp[0] == l@);
                assert(restp.drop_first() =~= prefs.skip(i as int + 1));
            }
            match self.locales.get(l.as_str()) {
                Some(v) => {
                    return v;
                },
                None => {
                    let llen = l.as_str().unicode_len();
                    let p = find_char(l.as_str(), '_', 0);
                    if p < llen {
                        let prefix = l.as_str().substring_char(0, p);
                        proof {
                            assert(prefix@ =~= l@.take(p as int));
                        }
                        match self.locales.get(prefix) {
                            Some(v) => {
                                return v;
                            },
                            None => {},
                        }
                    }
                },
            }
            i += 1;
        }
        proof {
            assert(prefs.skip(n as int).len() == 0);
        }
        &self.default_value
    }

    /// Whether any caller-preferred locale has an explicit localized value;
    /// exactly when none does, the translation hook or the default applies.
    pub fn has_locale_match(&self, locales: &Vec<String>) -> (r: bool)
        ensures
            r == (lookup_locale(self@.locales, locales_view(locales)) is Some),
    {
        let ghost prefs = locales_view(locales);
        let n = locales.len();
        let mut i: usize = 0;
        proof {
            assert(prefs.skip(0) =~= prefs);
        }
        while i < n
            invariant
                i <= n,
                n == locales@.len(),
                prefs == locales_view(locales),
                lookup_locale(self@.locales, prefs) == lookup_locale(
                    self@.locales,
                    prefs.skip(i as int),
                ),
            decreases n - i,
        {
            let ghost restp = prefs.skip(i as int);
            let l = &locales[i];
            proof {
                assert(restp[0] == l@);
                assert(restp.drop_first() =~= prefs.skip(i as int + 1));
            }
            match self.locales.get(l.as_str()) {
                Some(_) => {
                    return true;
                },
                None => {
                    let llen = l.as_str().unicode_len();
                    let p = find_char(l.as_str(), '_', 0);
                    if p < llen {
                        let prefix = l.as_str().substring_char(0, p);
                        proof {
                            assert(prefix@ =~= l@.take(p as int));
                        }
                        match self.locales.get(prefix) {
                            Some(_) => {
                                return true;
                            },
                            None => {},
                        }
                    }
                },
            }
            i += 1;
        }
        proof {
            assert(prefs.skip(n as int).len() == 0);
        }
        false
    }
}

impl Group {
    /// A key's raw default value.
    pub fn entry<'a>(&'a self, key: &str) -> (r: Option<&'a str>)
        ensures
            match assoc(self@, key@) {
                Some(f) => r matches Some(v) && v@ == f.default_value,
                None => r is None,
            },
    {
        match self.get(key) {
            Some(f) => Some(f.default_value.as_str()),
            None => None,
        }
    }

    /// A key's default value read as a boolean: only the exact texts `true`
    /// and `false` count.
    pub fn entry_bool(&self, key: &str) -> (r: Option<bool>)
        ensures
            r == match assoc(self@, key@) {
                Some(f) => if f.default_value == "true"@ {
                    Some(true)
                } else if f.default_value == "false"@ {
                    Some(false)
                } else {
                    None::<bool>
                },
                None => None::<bool>,
            },
    {
        match self.get(key) {
            Some(f) => {
                if crate::strutil::str_eq(f.default_value.as_str(), "true") {
                    Some(true)
                } else if crate::strutil::str_eq(f.default_value.as_str(), "false") {
                    Some(false)
                } else {
                    None
                }
            },
            None => None,
        }
    }

    /// A key's value resolved for the caller's locale preferences, without
    /// a translation hook.
    pub fn localized_entry<'a>(&'a self, key: &str, locales: &Vec<String>) -> (r: Option<&'a str>)
        ensures
            match assoc(self@, key@) {
                Some(f) => r matches Some(v) && v@ == resolve_field(f, locales_view(locales)),
                None => r is None,
            },
    {
        match self.get(key) {
            Some(f) => Some(f.resolve(locales).as_str()),
            None => None,
        }
    }
}

/// A resolved value split at every `;` into its list form.
pub open spec fn split_list(v: Seq<char>) -> Seq<Seq<char>> {
    spec_split(v, ';')
}

/// Split a resolved value into the sequence of its `;`-separated parts.
pub fn split_value(v: &str) -> (r: Vec<String>)
    ensures
        r@.map_values(|s: String| s@) == split_list(v@),
        r@.len() >= 1,
{
    split_str(v, ';')
}

} // verus!
