//! Building the argument list of an entry's command line: splitting the
//! `Exec` value on whitespace and substituting its field codes.

use crate::entry::{de_group_name, g_entry, g_localized, DesktopEntry, EntryView};
use crate::locale::locales_view;
use crate::strutil::{spec_find_char, split_ws_tokens, str_eq, ws_tokens};
use vstd::prelude::*;

verus! {

/// Why a command line could not be built.
#[derive(Debug, Clone)]
pub enum ExecError {
    /// The command line is malformed; the payload says how.
    WrongFormat(String),
    /// Substitution left no arguments at all.
    ExecFieldIsEmpty,
    /// The entry has no command-line key.
    ExecFieldNotFound,
}

/// What one whitespace-delimited token of the command line contributes to
/// the argument list: itself, the substitution of its field code, or
/// nothing for deprecated and unknown codes.
pub open spec fn token_args(
    tok: Seq<char>,
    uris: Seq<Seq<char>>,
    icon: Option<Seq<char>>,
    name: Option<Seq<char>>,
    path: Seq<char>,
) -> Seq<Seq<char>> {
    if tok == "%f"@ || tok == "%u"@ {
        if uris.len() > 0 {
            seq![uris[0]]
        } else {
            Seq::empty()
        }
    } else if tok == "%F"@ || tok == "%U"@ {
        uris
    } else if tok == "%i"@ {
        match icon {
            Some(i) => seq![i],
            None => Seq::empty(),
        }
    } else if tok == "%c"@ {
        match name {
            Some(n) => seq![n],
            None => Seq::empty(),
        }
    } else if tok == "%k"@ {
        seq![path]
    } else if tok.len() > 0 && tok[0] == '%' {
        Seq::empty()
    } else {
        seq![tok]
    }
}

/// The whole argument list that a token list yields.
pub open spec fn tokens_args(
    toks: Seq<Seq<char>>,
    uris: Seq<Seq<char>>,
    icon: Option<Seq<char>>,
    name: Option<Seq<char>>,
    path: Seq<char>,
) -> Seq<Seq<char>>
    decreases toks.len(),
{
    if toks.len() == 0 {
        Seq::empty()
    } else {
        token_args(toks[0], uris, icon, name, path) + tokens_args(
            toks.drop_first(),
            uris,
            icon,
            name,
            path,
        )
    }
}

/// The command line with one enclosing pair of double quotes removed; an
/// opening quote without a closing one is malformed (`None`).
pub open spec fn unquoted(x: Seq<char>) -> Option<Seq<char>> {
    if x.len() > 0 && x[0] == '"' {
        if x.len() >= 2 && x[x.len() - 1] == '"' {
            Some(x.subrange(1, x.len() - 1))
        } else {
            None
        }
    } else {
        Some(x)
    }
}

/// The icon the entry declares, and its locale-resolved name, as the field
/// codes `%i` and `%c` substitute them.
pub open spec fn icon_of(ev: EntryView) -> Option<Seq<char>> {
    g_entry(ev.groups, de_group_name(), "Icon"@)
}

pub open spec fn name_of(ev: EntryView, prefs: Seq<Seq<char>>) -> Option<Seq<char>> {
    g_localized(ev.groups, de_group_name(), "Name"@, prefs)
}

impl DesktopEntry {
    /// Build the argument list of one command-line value, substituting its
    /// field codes from `uris`, the entry's icon and localized name, and
    /// its source path.
    fn get_args(&self, exec: Option<&str>, uris: &Vec<String>, locales: &Vec<String>) -> (r:
        Result<Vec<String>, ExecError>)
        ensures
            ({
                let uv = uris@.map_values(|s: String| s@);
                let icon = icon_of(self@);
                let name = name_of(self@, locales_view(locales));
                match exec {
                    None => r matches Err(e) && e is ExecFieldNotFound,
                    Some(x) => match unquoted(x@) {
                        None => r matches Err(e) && (e matches ExecError::WrongFormat(m) && m@
                            == "unmatched quote"@),
                        Some(body) => {
                            let args = tokens_args(ws_tokens(body), uv, icon, name, self@.path);
                            if args.len() == 0 {
                                r matches Err(e) && e is ExecFieldIsEmpty
                            } else if spec_find_char(args[0], '=', 0) < args[0].len() {
                                r matches Err(e) && (e matches ExecError::WrongFormat(m) && m@
                                    == "equal sign detected"@)
                            } else {
                                r matches Ok(v) && v@.map_values(|s: String| s@) == args
                            }
                        },
                    },
                }
            }),
    {
        let ghost uv = uris@.map_values(|s: String| s@);
        let x = match exec {
            Some(x) => x,
            None => {
                return Err(ExecError::ExecFieldNotFound);
            },
        };
        let xlen = x.unicode_len();
        let body: &str = if xlen > 0 && x.get_char(0) == '"' {
            if xlen >= 2 && x.get_char(xlen - 1) == '"' {
                let b = x.substring_char(1, xlen - 1);
                proof {
                    assert(b@ =~= x@.subrange(1, x@.len() - 1));
                }
                b
            } else {
                return Err(ExecError::WrongFormat(String::from_str("unmatched quote")));
            }
        } else {
            x
        };
        let icon = self.icon();
        let name = self.desktop_entry_localized("Name", locales);
        let ghost iconv = icon_of(self@);
        let ghost namev = name_of(self@, locales_view(locales));
        let toks = split_ws_tokens(body);
        let ghost toksv = toks@.map_values(|t: String| t@);
        let mut args: Vec<String> = Vec::new();
        let n = toks.len();
        let mut i: usize = 0;
        proof {
            assert(toksv.skip(0) =~= toksv);
            assert(args@.map_values(|s: String| s@) =~= Seq::<Seq<char>>::empty());
            assert(Seq::<Seq<char>>::empty() + tokens_args(toksv, uv, iconv, namev, self@.path)
                =~= tokens_args(toksv, uv, iconv, namev, self@.path));
        }
        while i < n
            invariant
                i <= n,
                n == toks@.len(),
                toksv == toks@.map_values(|t: String| t@),
                uv == uris@.map_values(|s: String| s@),
                iconv == icon_of(self@),
                namev == name_of(self@, locales_view(locales)),
                (match icon {
                    Some(ic) => iconv == Some(ic@),
                    None => iconv is None,
                }),
                (match name {
                    Some(nm) => namev == Some(nm@),
                    None => namev is None,
                }),
                tokens_args(toksv, uv, iconv, namev, self@.path) == args@.map_values(
                    |s: String| s@,
                ) + tokens_args(toksv.skip(i as int), uv, iconv, namev, self@.path),
            decreases n - i,
        {
            let ghost restv = toksv.skip(i as int);
            let ghost args0 = args@.map_values(|s: String| s@);
            proof {
                assert(restv[0] == toks@[i as int]@);
                assert(restv.drop_first() =~= toksv.skip(i as int + 1));
            }
            let tok = toks[i].as_str();
            if str_eq(tok, "%f") || str_eq(tok, "%u") {
                if uris.len() > 0 {
                    args.push(uris[0].clone());
                    proof {
                        assert(uv[0] == uris@[0]@);
                    }
                }
            } else if str_eq(tok, "%F") || str_eq(tok, "%U") {
                let m = uris.len();
                let mut j: usize = 0;
                while j < m
                    invariant
                        j <= m,
                        m == uris@.len(),
                        uv == uris@.map_values(|s: String| s@),
                        args@.map_values(|s: String| s@) =~= args0 + uv.take(j as int),
                    decreases m - j,
                {
                    let ghost before = args@.map_values(|s: String| s@);
                    args.push(uris[j].clone());
                    proof {
                        assert(uv[j as int] == uris@[j as int]@);
                        assert(args@.map_values(|s: String| s@) =~= before.push(uv[j as int]));
                        assert(before.push(uv[j as int]) =~= args0 + uv.take(j as int + 1));
                    }
                    j += 1;
                }
                proof {
                    assert(uv.take(m as int) =~= uv);
                }
            } else if str_eq(tok, "%i") {
                match icon {
                    Some(ic) => {
                        args.push(String::from_str(ic));
                    },
                    None => (),
                }
            } else if str_eq(tok, "%c") {
                match name {
                    Some(nm) => {
                        args.push(String::from_str(nm));
                    },
                    None => (),
                }
            } else if str_eq(tok, "%k") {
                args.push(self.path.clone());
            } else {
                let tlen = tok.unicode_len();
                if tlen > 0 && tok.get_char(0) == '%' {
                    // deprecated or unknown field codes contribute nothing
                } else {
                    args.push(String::from_str(tok));
                }
            }
            proof {
                assert(tokens_args(restv, uv, iconv, namev, self@.path) == token_args(
                    restv[0],
                    uv,
                    iconv,
                    namev,
                    self@.path,
                ) + tokens_args(restv.drop_first(), uv, iconv, namev, self@.path));
                assert(args@.map_values(|s: String| s@) =~= args0 + token_args(
                    restv[0],
                    uv,
                    iconv,
                    namev,
                    self@.path,
                ));
                assert(args0 + (token_args(restv[0], uv, iconv, namev, self@.path) + tokens_args(
                    restv.drop_first(),
                    uv,
                    iconv,
                    namev,
                    self@.path,
                )) =~= (args0 + token_args(restv[0], uv, iconv, namev, self@.path))
                    + tokens_args(restv.drop_first(), uv, iconv, namev, self@.path));
            }
            i += 1;
        }
        proof {
            assert(toksv.skip(n as int).len() == 0);
            assert(toksv.skip(n as int) =~= Seq::<Seq<char>>::empty());
            assert(args@.map_values(|s: String| s@) + Seq::<Seq<char>>::empty()
                =~= args@.map_values(|s: String| s@));
        }
        if args.len() == 0 {
            return Err(ExecError::ExecFieldIsEmpty);
        }
        let first_len = args[0].as_str().unicode_len();
        let eq_pos = crate::strutil::find_char(args[0].as_str(), '=', 0);
        proof {
            assert(args@[0]@ == args@.map_values(|s: String| s@)[0]);
        }
        if eq_pos < first_len {
            return Err(ExecError::WrongFormat(String::from_str("equal sign detected")));
        }
        Ok(args)
    }

    /// The argument list of the entry's command line, with no URIs and no
    /// locale preferences.
    pub fn parse_exec(&self) -> (r: Result<Vec<String>, ExecError>)
        ensures
            ({
                let icon = icon_of(self@);
                let name = name_of(self@, Seq::empty());
                match g_entry(self@.groups, de_group_name(), "Exec"@) {
                    None => r matches Err(e) && e is ExecFieldNotFound,
                    Some(x) => match unquoted(x) {
                        None => r matches Err(e) && (e matches ExecError::WrongFormat(m) && m@
                            == "unmatched quote"@),
                        Some(body) => {
                            let args = tokens_args(
                                ws_tokens(body),
                                Seq::empty(),
                                icon,
                                name,
                                self@.path,
                            );
                            if args.len() == 0 {
                                r matches Err(e) && e is ExecFieldIsEmpty
                            } else if spec_find_char(args[0], '=', 0) < args[0].len() {
                                r matches Err(e) && (e matches ExecError::WrongFormat(m) && m@
                                    == "equal sign detected"@)
                            } else {
                                r matches Ok(v) && v@.map_values(|s: String| s@) == args
                            }
                        },
                    },
                }
            }),
    {
        let uris: Vec<String> = Vec::new();
        let locales: Vec<String> = Vec::new();
        let r = self.get_args(self.exec(), &uris, &locales);
        proof {
            assert(uris@.map_values(|s: String| s@) =~= Seq::<Seq<char>>::empty());
            assert(locales_view(&locales) =~= Seq::<Seq<char>>::empty());
        }
        r
    }

    /// The argument list of the entry's command line, substituting the
    /// given URIs and resolving the translated name for the given locales.
    pub fn parse_exec_with_uris(&self, uris: &Vec<String>, locales: &Vec<String>) -> (r: Result<
        Vec<String>,
        ExecError,
    >)
        ensures
            ({
                let uv = uris@.map_values(|s: String| s@);
                let icon = icon_of(self@);
                let name = name_of(self@, locales_view(locales));
                match g_entry(self@.groups, de_group_name(), "Exec"@) {
                    None => r matches Err(e) && e is ExecFieldNotFound,
                    Some(x) => match unquoted(x) {
                        None => r matches Err(e) && (e matches ExecError::WrongFormat(m) && m@
                            == "unmatched quote"@),
                        Some(body) => {
                            let args = tokens_args(ws_tokens(body), uv, icon, name, self@.path);
                            if args.len() == 0 {
                                r matches Err(e) && e is ExecFieldIsEmpty
                            } else if spec_find_char(args[0], '=', 0) < args[0].len() {
                                r matches Err(e) && (e matches ExecError::WrongFormat(m) && m@
                                    == "equal sign detected"@)
                            } else {
                                r matches Ok(v) && v@.map_values(|s: String| s@) == args
                            }
                        },
                    },
                }
            }),
    {
        self.get_args(self.exec(), uris, locales)
    }

    /// The argument list of one named action's command line.
    pub fn parse_exec_action(&self, action_name: &str) -> (r: Result<Vec<String>, ExecError>)
        ensures
            ({
                let icon = icon_of(self@);
                let name = name_of(self@, Seq::empty());
                match g_entry(
                    self@.groups,
                    crate::entry::action_group_name(action_name@),
                    "Exec"@,
                ) {
                    None => r matches Err(e) && e is ExecFieldNotFound,
                    Some(x) => match unquoted(x) {
                        None => r matches Err(e) && (e matches ExecError::WrongFormat(m) && m@
                            == "unmatched quote"@),
                        Some(body) => {
                            let args = tokens_args(
                                ws_tokens(body),
                                Seq::empty(),
                                icon,
                                name,
                                self@.path,
                            );
                            if args.len() == 0 {
                                r matches Err(e) && e is ExecFieldIsEmpty
                            } else if spec_find_char(args[0], '=', 0) < args[0].len() {
                                r matches Err(e) && (e matches ExecError::WrongFormat(m) && m@
                                    == "equal sign detected"@)
                            } else {
                                r matches Ok(v) && v@.map_values(|s: String| s@) == args
                            }
                        },
                    },
                }
            }),
    {
        let uris: Vec<String> = Vec::new();
        let locales: Vec<String> = Vec::new();
        let r = self.get_args(self.action_exec(action_name), &uris, &locales);
        proof {
            assert(uris@.map_values(|s: String| s@) =~= Seq::<Seq<char>>::empty());
            assert(locales_view(&locales) =~= Seq::<Seq<char>>::empty());
        }
        r
    }

    /// The argument list of one named action's command line, substituting
    /// the given URIs and locales.
    pub fn parse_exec_action_with_uris(
        &self,
        action_name: &str,
        uris: &Vec<String>,
        locales: &Vec<String>,
    ) -> (r: Result<Vec<String>, ExecError>)
        ensures
            ({
                let uv = uris@.map_values(|s: String| s@);
                let icon = icon_of(self@);
                let name = name_of(self@, locales_view(locales));
                match g_entry(
                    self@.groups,
                    crate::entry::action_group_name(action_name@),
                    "Exec"@,
                ) {
                    None => r matches Err(e) && e is ExecFieldNotFound,
                    Some(x) => match unquoted(x) {
                        None => r matches Err(e) && (e matches ExecError::WrongFormat(m) && m@
                            == "unmatched quote"@),
                        Some(body) => {
                            let args = tokens_args(ws_tokens(body), uv, icon, name, self@.path);
                            if args.len() == 0 {
                                r matches Err(e) && e is ExecFieldIsEmpty
                            } else if spec_find_char(args[0], '=', 0) < args[0].len() {
                                r matches Err(e) && (e matches ExecError::WrongFormat(m) && m@
                                    == "equal sign detected"@)
                            } else {
                                r matches Ok(v) && v@.map_values(|s: String| s@) == args
                            }
                        },
                    },
                }
            }),
    {
        self.get_args(self.action_exec(action_name), uris, locales)
    }
}

} // verus!
