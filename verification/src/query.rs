//! The matching engine, free-text side: build a lower-cased haystack from an
//! entry's human-facing fields across all caller-preferred locales, and score
//! a query against it, rewarding literal substring containment.

use crate::entry::{de_group_name, DesktopEntry};
use crate::locale::locales_view;
use crate::maps::{assoc, FieldView, GroupsView};
use crate::matching::{lower_of, lowercase, SCORE_SCALE};
use crate::similarity::{jaro_winkler_scaled, spec_jaro_winkler};
use crate::strutil::{check_match, matches_at, spec_find_char, spec_split, split_ws_tokens, ws_tokens};
use vstd::prelude::*;

verus! {

/// The lower-cased views of a list of texts.
pub open spec fn lower_all(vs: Seq<Seq<char>>) -> Seq<Seq<char>> {
    vs.map_values(|v: Seq<char>| lower_of(v))
}

/// What one field value contributes to the haystack: itself lower-cased, or
/// its `;`-separated pieces each lower-cased.
pub open spec fn parts_of(v: Seq<char>, multiple: bool) -> Seq<Seq<char>> {
    if multiple {
        spec_split(v, ';').map_values(|p: Seq<char>| lower_of(p))
    } else {
        seq![lower_of(v)]
    }
}

/// What a field's localized values contribute: for every caller-preferred
/// locale that resolves — exactly or through its language prefix — the
/// resolved value's parts.
pub open spec fn locale_adds(f: FieldView, prefs: Seq<Seq<char>>, multiple: bool) -> Seq<
    Seq<char>,
>
    decreases prefs.len(),
{
    if prefs.len() == 0 {
        Seq::empty()
    } else {
        let l = prefs[0];
        let rest = locale_adds(f, prefs.drop_first(), multiple);
        match assoc(f.locales, l) {
            Some(v) => parts_of(v, multiple) + rest,
            None => {
                let p = spec_find_char(l, '_', 0);
                if p < l.len() {
                    match assoc(f.locales, l.take(p)) {
                        Some(v) => parts_of(v, multiple) + rest,
                        None => rest,
                    }
                } else {
                    rest
                }
            },
        }
    }
}

/// What one key of the primary group contributes: its default value's
/// parts, then every resolving locale's parts.
pub open spec fn field_adds(
    gs: GroupsView,
    key: Seq<char>,
    multiple: bool,
    prefs: Seq<Seq<char>>,
) -> Seq<Seq<char>> {
    match assoc(gs, de_group_name()) {
        Some(g) => match assoc(g, key) {
            Some(f) => parts_of(f.default_value, multiple) + locale_adds(f, prefs, multiple),
            None => Seq::empty(),
        },
        None => Seq::empty(),
    }
}

/// The whole haystack: the caller's extra values, then the name, generic
/// name, comment, categories and keywords fields.
pub open spec fn spec_haystack(
    gs: GroupsView,
    prefs: Seq<Seq<char>>,
    extra: Seq<Seq<char>>,
) -> Seq<Seq<char>> {
    lower_all(extra) + field_adds(gs, "Name"@, false, prefs) + field_adds(
        gs,
        "GenericName"@,
        false,
        prefs,
    ) + field_adds(gs, "Comment"@, false, prefs) + field_adds(gs, "Categories"@, true, prefs)
        + field_adds(gs, "Keywords"@, true, prefs)
}

/// Whether `t` occurs in `h` as a contiguous substring.
pub open spec fn spec_contains_sub(h: Seq<char>, t: Seq<char>) -> bool {
    exists|i: int| matches_at(h, t, i)
}

/// Whether any query token is contained in the haystack text.
pub open spec fn any_token_in(toks: Seq<Seq<char>>, h: Seq<char>) -> bool {
    exists|i: int| 0 <= i < toks.len() && spec_contains_sub(h, #[trigger] toks[i])
}

/// The score of the query against one haystack text: its similarity,
/// lifted into the reserved band `[0.61, 1]` with a fixed bonus when a
/// query token is literally contained.
pub open spec fn spec_score_one(q: Seq<char>, toks: Seq<Seq<char>>, h: Seq<char>) -> int {
    let jw = spec_jaro_winkler(q, h);
    if any_token_in(toks, h) {
        let lifted = if jw + 100000 > 610000 {
            jw + 100000
        } else {
            610000
        };
        if lifted > SCORE_SCALE as int {
            SCORE_SCALE as int
        } else {
            lifted
        }
    } else {
        jw
    }
}

/// The best score over the whole haystack; zero when it is empty.
pub open spec fn spec_best_score(q: Seq<char>, toks: Seq<Seq<char>>, hs: Seq<Seq<char>>) -> int
    decreases hs.len(),
{
    if hs.len() == 0 {
        0
    } else {
        let rest = spec_best_score(q, toks, hs.drop_first());
        let s = spec_score_one(q, toks, hs[0]);
        if s >= rest {
            s
        } else {
            rest
        }
    }
}

/// Whether `t` occurs in `h` as a contiguous substring.
fn str_contains(h: &str, t: &str) -> (r: bool)
    ensures
        r == spec_contains_sub(h@, t@),
{
    let hl = h.unicode_len();
    let tl = t.unicode_len();
    if tl > hl {
        proof {
            assert forall|i: int| !matches_at(h@, t@, i) by {}
        }
        return false;
    }
    let bound = hl - tl;
    let mut i: usize = 0;
    loop
        invariant_except_break
            i <= bound,
            tl <= hl,
            hl == h@.len(),
            tl == t@.len(),
            bound == hl - tl,
            forall|k: int| 0 <= k < i ==> !matches_at(h@, t@, k),
        ensures
            forall|k: int| 0 <= k <= bound ==> !matches_at(h@, t@, k),
        decreases bound - i,
    {
        if check_match(h, t, i) {
            return true;
        }
        if i == bound {
            break ;
        }
        i += 1;
    }
    proof {
        assert forall|k: int| !matches_at(h@, t@, k) by {
            if 0 <= k <= hl - tl {
            }
        }
    }
    false
}

/// Append one field value's parts, lower-cased, to the haystack.
fn add_value(out: &mut Vec<String>, value: &str, multiple: bool)
    ensures
        final(out)@.map_values(|s: String| s@) == old(out)@.map_values(|s: String| s@)
            + parts_of(value@, multiple),
{
    let ghost out0 = old(out)@.map_values(|s: String| s@);
    if multiple {
        let parts = crate::locale::split_value(value);
        let ghost pv = parts@.map_values(|s: String| s@);
        let n = parts.len();
        let mut i: usize = 0;
        proof {
            assert(out@.map_values(|s: String| s@) =~= out0 + pv.take(0).map_values(
                |p: Seq<char>| lower_of(p),
            ));
        }
        while i < n
            invariant
                i <= n,
                n == parts@.len(),
                pv == parts@.map_values(|s: String| s@),
                out@.map_values(|s: String| s@) == out0 + pv.take(i as int).map_values(
                    |p: Seq<char>| lower_of(p),
                ),
            decreases n - i,
        {
            let ghost before = out@.map_values(|s: String| s@);
            out.push(lowercase(parts[i].as_str()));
            proof {
                assert(out@.map_values(|s: String| s@) =~= before.push(lower_of(pv[i as int])));
                assert(before.push(lower_of(pv[i as int])) =~= out0 + pv.take(i as int + 1)
                    .map_values(|p: Seq<char>| lower_of(p)));
            }
            i += 1;
        }
        proof {
            assert(pv.take(n as int) =~= pv);
            assert(parts_of(value@, true) == pv.map_values(|p: Seq<char>| lower_of(p)));
        }
    } else {
        out.push(lowercase(value));
        proof {
            assert(out@.map_values(|s: String| s@) =~= out0 + seq![lower_of(value@)]);
        }
    }
}

impl DesktopEntry {
    /// Append one primary-group key's haystack values.
    fn field_values(&self, out: &mut Vec<String>, key: &str, multiple: bool, locales: &Vec<String>)
        ensures
            final(out)@.map_values(|s: String| s@) == old(out)@.map_values(|s: String| s@)
                + field_adds(self@.groups, key@, multiple, locales_view(locales)),
    {
        let ghost out0 = old(out)@.map_values(|s: String| s@);
        let g = match self.groups.desktop_entry() {
            Some(g) => g,
            None => {
                proof {
                    assert(out@.map_values(|s: String| s@) =~= out0 + Seq::<Seq<char>>::empty());
                }
                return ;
            },
        };
        let f = match g.get(key) {
            Some(f) => f,
            None => {
                proof {
                    assert(out@.map_values(|s: String| s@) =~= out0 + Seq::<Seq<char>>::empty());
                }
                return ;
            },
        };
        add_value(out, f.default_value.as_str(), multiple);
        let ghost prefs = locales_view(locales);
        let n = locales.len();
        let mut i: usize = 0;
        proof {
            assert(prefs.skip(0) =~= prefs);
        }
        while i < n
            invariant
                i <= n,
                n == locales@.len(),
                prefs == locales_view(locales),
                f@ == f@,
                out@.map_values(|s: String| s@) + locale_adds(
                    f@,
                    prefs.skip(i as int),
                    multiple,
                ) == out0 + field_adds(self@.groups, key@, multiple, prefs),
                assoc(self@.groups, de_group_name()) == Some(g@),
                assoc(g@, key@) == Some(f@),
            decreases n - i,
        {
            let ghost restp = prefs.skip(i as int);
            let ghost before = out@.map_values(|s: String| s@);
            let l = &locales[i];
            proof {
                assert(restp[0] == l@);
                assert(restp.drop_first() =~= prefs.skip(i as int + 1));
            }
            match f.locales.get(l.as_str()) {
                Some(v) => {
                    add_value(out, v.as_str(), multiple);
                    proof {
                        assert(locale_adds(f@, restp, multiple) == parts_of(v@, multiple)
                            + locale_adds(f@, restp.drop_first(), multiple));
                        assert((before + parts_of(v@, multiple)) + locale_adds(
                            f@,
                            restp.drop_first(),
                            multiple,
                        ) =~= before + (parts_of(v@, multiple) + locale_adds(
                            f@,
                            restp.drop_first(),
                            multiple,
                        )));
                    }
                },
                None => {
                    let llen = l.as_str().unicode_len();
                    let p = crate::strutil::find_char(l.as_str(), '_', 0);
                    if p < llen {
                        let prefix = l.as_str().substring_char(0, p);
                        proof {
                            assert(prefix@ =~= l@.take(p as int));
                        }
                        match f.locales.get(prefix) {
                            Some(v) => {
                                add_value(out, v.as_str(), multiple);
                                proof {
                                    assert(locale_adds(f@, restp, multiple) == parts_of(
                                        v@,
                                        multiple,
                                    ) + locale_adds(f@, restp.drop_first(), multiple));
                                    assert((before + parts_of(v@, multiple)) + locale_adds(
                                        f@,
                                        restp.drop_first(),
                                        multiple,
                                    ) =~= before + (parts_of(v@, multiple) + locale_adds(
                                        f@,
                                        restp.drop_first(),
                                        multiple,
                                    )));
                                }
                            },
                            None => (),
                        }
                    }
                },
            }
            i += 1;
        }
        proof {
            assert(prefs.skip(n as int).len() == 0);
            assert(locale_adds(f@, prefs.skip(n as int), multiple)
                =~= Seq::<Seq<char>>::empty());
            assert(out@.map_values(|s: String| s@) + Seq::<Seq<char>>::empty()
                =~= out@.map_values(|s: String| s@));
        }
    }

    /// Score a free-text query against this entry: the best similarity of
    /// the lower-cased query against the entry's lower-cased haystack, with
    /// containment of a query token lifting the score into the reserved
    /// band.  Zero when the haystack is empty.
    pub fn match_query(
        &self,
        query: &str,
        locales: &Vec<String>,
        additional_haystack_values: &Vec<String>,
    ) -> (r: u64)
        ensures
            r as int == spec_best_score(
                lower_of(query@),
                ws_tokens(lower_of(query@)),
                spec_haystack(
                    self@.groups,
                    locales_view(locales),
                    additional_haystack_values@.map_values(|s: String| s@),
                ),
            ),
            r <= SCORE_SCALE,
    {
        let ghost prefs = locales_view(locales);
        let ghost extra = additional_haystack_values@.map_values(|s: String| s@);
        let ql = lowercase(query);
        let toks = split_ws_tokens(ql.as_str());
        let ghost toksv = toks@.map_values(|t: String| t@);

        // build the haystack
        let mut hs: Vec<String> = Vec::new();
        let ne = additional_haystack_values.len();
        let mut i: usize = 0;
        proof {
            assert(hs@.map_values(|s: String| s@) =~= extra.take(0).map_values(
                |v: Seq<char>| lower_of(v),
            ));
        }
        while i < ne
            invariant
                i <= ne,
                ne == additional_haystack_values@.len(),
                extra == additional_haystack_values@.map_values(|s: String| s@),
                hs@.map_values(|s: String| s@) == extra.take(i as int).map_values(
                    |v: Seq<char>| lower_of(v),
                ),
            decreases ne - i,
        {
            let ghost before = hs@.map_values(|s: String| s@);
            hs.push(lowercase(additional_haystack_values[i].as_str()));
            proof {
                assert(hs@.map_values(|s: String| s@) =~= before.push(lower_of(
                    extra[i as int],
                )));
                assert(before.push(lower_of(extra[i as int])) =~= extra.take(i as int + 1)
                    .map_values(|v: Seq<char>| lower_of(v)));
            }
            i += 1;
        }
        proof {
            assert(extra.take(ne as int) =~= extra);
        }
        self.field_values(&mut hs, "Name", false, locales);
        self.field_values(&mut hs, "GenericName", false, locales);
        self.field_values(&mut hs, "Comment", false, locales);
        self.field_values(&mut hs, "Categories", true, locales);
        self.field_values(&mut hs, "Keywords", true, locales);
        proof {
            assert(hs@.map_values(|s: String| s@) =~= spec_haystack(self@.groups, prefs, extra));
        }

        // score each haystack value and keep the best
        let ghost hsv = hs@.map_values(|s: String| s@);
        let nh = hs.len();
        let mut best: u64 = 0;
        let mut h: usize = nh;
        proof {
            assert(hsv.skip(nh as int) =~= Seq::<Seq<char>>::empty());
        }
        while h > 0
            invariant
                h <= nh,
                nh == hs@.len(),
                hsv == hs@.map_values(|s: String| s@),
                ql@ == lower_of(query@),
                toksv == ws_tokens(lower_of(query@)),
                toksv == toks@.map_values(|t: String| t@),
                best <= SCORE_SCALE,
                best as int == spec_best_score(ql@, toksv, hsv.skip(h as int)),
            decreases h,
        {
            h -= 1;
            proof {
                assert(hsv.skip(h as int)[0] == hs@[h as int]@);
                assert(hsv.skip(h as int).drop_first() =~= hsv.skip(h as int + 1));
            }
            let hay = hs[h].as_str();
            let jw = jaro_winkler_scaled(ql.as_str(), hay);
            let nt = toks.len();
            let mut ti: usize = 0;
            let mut contained = false;
            while ti < nt && !contained
                invariant
                    ti <= nt,
                    nt == toks@.len(),
                    toksv == toks@.map_values(|t: String| t@),
                    hay@ == hs@[h as int]@,
                    contained ==> any_token_in(toksv, hay@),
                    !contained ==> forall|k: int|
                        0 <= k < ti ==> !spec_contains_sub(hay@, #[trigger] toksv[k]),
                decreases nt - ti + (if contained {
                    0int
                } else {
                    1int
                }),
            {
                if str_contains(hay, toks[ti].as_str()) {
                    contained = true;
                    proof {
                        assert(toksv[ti as int] == toks@[ti as int]@);
                        assert(spec_contains_sub(hay@, toksv[ti as int]));
                    }
                } else {
                    ti += 1;
                }
            }
            let s: u64 = if contained {
                let lifted = if jw + 100000 > 610000 {
                    jw + 100000
                } else {
                    610000
                };
                if lifted > SCORE_SCALE {
                    SCORE_SCALE
                } else {
                    lifted
                }
            } else {
                proof {
                    assert(!any_token_in(toksv, hay@));
                }
                jw
            };
            proof {
                assert(s as int == spec_score_one(ql@, toksv, hsv.skip(h as int)[0]));
            }
            if s >= best {
                best = s;
            }
        }
        proof {
            assert(hsv.skip(0) =~= hsv);
        }
        best
    }
}

} // verus!
