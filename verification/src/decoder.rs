//! Decoding of the line-oriented entry format: the document-level state
//! machine that turns raw text into the grouped key/value model, and the
//! derivation of an application identifier from a source path.
//!
//! The whole decode is specified as a fold of `step_line` over the lines of
//! the text; the executable decoder is proved to compute exactly that fold.

use crate::maps::{
    aset, assoc, field_view_wf, group_view_wf, groups_view_wf, gs_absorb, Field, FieldView, Group,
    GroupView, Groups, GroupsView,
};
use crate::strutil::{
    check_match, find_char, lemma_find_char, lemma_rfind_char, lemma_rfind_sub, matches_at,
    rfind_char, rfind_sub, spec_find_char, spec_lines, spec_rfind_char, spec_rfind_sub, spec_trim,
    str_eq, trim,
};
use crate::value::{format_value, strip_leading_space, unescape_seq};
use vstd::prelude::*;

verus! {

/// Why a document failed to decode.  Every failure is local to one document;
/// batch callers are expected to skip the document and continue.
#[derive(Debug, Clone)]
pub enum DecodeError {
    /// No valid application identifier could be derived from the source path.
    AppID,
    /// A reading failure reported by the caller that loaded the document.
    Io(String),
    /// A key/value line appeared before any group header.
    KeyValueWithoutAGroup,
    /// A key/value line with an empty key.
    InvalidKey,
    /// A locale-qualified key never matched any default-value key.
    KeyDoesNotExist,
    /// A value with a malformed escape sequence.
    InvalidValue,
}

/// The reserved key that names a translation domain instead of a field.
pub open spec fn domain_key() -> Seq<char> {
    "X-Ubuntu-Gettext-Domain"@
}

/// The decoder's state between lines.
#[verifier::ext_equal]
pub struct DecState {
    /// Groups already closed.
    pub groups: GroupsView,
    /// The group currently being filled, if a header was seen.
    pub active_group: Option<(Seq<char>, GroupView)>,
    /// The default-value key currently accepting locale lines.
    pub active_key: Option<(Seq<char>, FieldView)>,
    /// The translation domain, once its reserved key was seen.
    pub domain: Option<Seq<char>>,
    /// Locale lines seen before any matching default-value key, pending
    /// resolution at group close or end of input: (key, locale, value).
    pub unknown: Seq<(Seq<char>, Seq<char>, Seq<char>)>,
}

pub open spec fn st_init() -> DecState {
    DecState {
        groups: Seq::empty(),
        active_group: None,
        active_key: None,
        domain: None,
        unknown: Seq::empty(),
    }
}

pub open spec fn st_wf(st: DecState) -> bool {
    &&& groups_view_wf(st.groups)
    &&& match st.active_group {
        Some((_, g)) => group_view_wf(g),
        None => true,
    }
    &&& match st.active_key {
        Some((_, f)) => field_view_wf(f),
        None => true,
    }
}

/// Move the pending key into the open group; a pending key with no open
/// group is an error.
pub open spec fn flush_key(st: DecState) -> Result<DecState, DecodeError> {
    match st.active_key {
        None => Ok(st),
        Some((k, f)) => match st.active_group {
            Some((gn, g)) => Ok(
                DecState { active_group: Some((gn, aset(g, k, f))), active_key: None, ..st },
            ),
            None => Err(DecodeError::KeyValueWithoutAGroup),
        },
    }
}

/// Resolve the buffered locale lines against the open group's fields.
pub open spec fn drain_unknown(st: DecState) -> Result<DecState, DecodeError>
    decreases st.unknown.len(),
{
    if st.unknown.len() == 0 {
        Ok(st)
    } else {
        let u = st.unknown[0];
        match st.active_group {
            None => Err(DecodeError::KeyDoesNotExist),
            Some((gn, g)) => match assoc(g, u.0) {
                None => Err(DecodeError::KeyDoesNotExist),
                Some(f) => drain_unknown(
                    DecState {
                        active_group: Some(
                            (
                                gn,
                                aset(
                                    g,
                                    u.0,
                                    FieldView {
                                        default_value: f.default_value,
                                        locales: aset(f.locales, u.1, u.2),
                                    },
                                ),
                            ),
                        ),
                        unknown: st.unknown.drop_first(),
                        ..st
                    },
                ),
            },
        }
    }
}

/// Move the open group into the document, merging on a repeated name.
pub open spec fn flush_group(st: DecState) -> DecState {
    match st.active_group {
        None => st,
        Some((gn, g)) => DecState {
            groups: gs_absorb(st.groups, gn, g),
            active_group: None,
            ..st
        },
    }
}

/// Everything that happens when a group ends: the pending key joins the
/// group, buffered locale lines resolve, the group joins the document.
pub open spec fn group_close(st: DecState) -> Result<DecState, DecodeError> {
    match flush_key(st) {
        Err(e) => Err(e),
        Ok(st1) => match drain_unknown(st1) {
            Err(e) => Err(e),
            Ok(st2) => Ok(flush_group(st2)),
        },
    }
}

/// Whether a line carries nothing: only whitespace, or a comment.
pub open spec fn is_blank_line(line: Seq<char>) -> bool {
    spec_trim(line).len() == 0 || (line.len() > 0 && line[0] == '#')
}

/// Whether the locale filter discards this locale tag.
pub open spec fn filter_discards(filter: Option<Seq<Seq<char>>>, locale: Seq<char>) -> bool {
    match filter {
        Some(fl) => !fl.contains(locale),
        None => false,
    }
}

/// One line of input applied to the decoder state.
pub open spec fn step_line(
    st: DecState,
    line: Seq<char>,
    filter: Option<Seq<Seq<char>>>,
) -> Result<DecState, DecodeError> {
    if is_blank_line(line) {
        Ok(st)
    } else if line[0] == '[' {
        let j = spec_rfind_char(line, ']', line.len() as int);
        if j < 0 {
            // a header line that never closes opens no group, but still
            // resolves the buffered locale lines
            match drain_unknown(st) {
                Err(e) => Err(e),
                Ok(st1) => Ok(st1),
            }
        } else {
            let name = line.subrange(1, j);
            match group_close(st) {
                Err(e) => Err(e),
                Ok(st1) => Ok(
                    DecState { active_group: Some((name, Seq::empty())), ..st1 },
                ),
            }
        }
    } else {
        let d = spec_find_char(line, '=', 0);
        if d == line.len() {
            Ok(st)
        } else {
            let key = line.take(d);
            let raw = line.skip(d + 1);
            match unescape_seq(strip_leading_space(raw)) {
                None => Err(DecodeError::InvalidValue),
                Some(value) => {
                    if key.len() == 0 {
                        Err(DecodeError::InvalidKey)
                    } else if key[key.len() - 1] == ']' && spec_find_char(key, '[', 0)
                        < key.len() {
                        let start = spec_find_char(key, '[', 0);
                        let locale = key.subrange(start + 1, key.len() - 1);
                        let base = key.take(start);
                        if filter_discards(filter, locale) {
                            Ok(st)
                        } else {
                            match st.active_key {
                                Some((ak, f)) => if ak == base {
                                    Ok(
                                        DecState {
                                            active_key: Some(
                                                (
                                                    ak,
                                                    FieldView {
                                                        default_value: f.default_value,
                                                        locales: aset(f.locales, locale, value),
                                                    },
                                                ),
                                            ),
                                            ..st
                                        },
                                    )
                                } else {
                                    Ok(
                                        DecState {
                                            unknown: st.unknown.push((base, locale, value)),
                                            ..st
                                        },
                                    )
                                },
                                None => Ok(
                                    DecState {
                                        unknown: st.unknown.push((base, locale, value)),
                                        ..st
                                    },
                                ),
                            }
                        }
                    } else if key == domain_key() {
                        Ok(DecState { domain: Some(value), ..st })
                    } else {
                        match flush_key(st) {
                            Err(e) => Err(e),
                            Ok(st1) => Ok(
                                DecState {
                                    active_key: Some(
                                        (
                                            spec_trim(key),
                                            FieldView {
                                                default_value: value,
                                                locales: Seq::empty(),
                                            },
                                        ),
                                    ),
                                    ..st1
                                },
                            ),
                        }
                    }
                },
            }
        }
    }
}

/// The fold of `step_line` over a sequence of lines.
pub open spec fn decode_lines(
    st: DecState,
    lines: Seq<Seq<char>>,
    filter: Option<Seq<Seq<char>>>,
) -> Result<DecState, DecodeError>
    decreases lines.len(),
{
    if lines.len() == 0 {
        Ok(st)
    } else {
        match step_line(st, lines[0], filter) {
            Err(e) => Err(e),
            Ok(st1) => decode_lines(st1, lines.drop_first(), filter),
        }
    }
}

/// Decoding a whole text: fold its lines, then close what is still open.
pub open spec fn decode_text(text: Seq<char>, filter: Option<Seq<Seq<char>>>) -> Result<
    (GroupsView, Option<Seq<char>>),
    DecodeError,
> {
    match decode_lines(st_init(), spec_lines(text), filter) {
        Err(e) => Err(e),
        Ok(st) => match group_close(st) {
            Err(e) => Err(e),
            Ok(st2) => Ok((st2.groups, st2.domain)),
        },
    }
}

/// The caller's locale filter, extended with each tag's language-only
/// prefix, in order.
pub open spec fn expand_filter(fl: Seq<Seq<char>>) -> Seq<Seq<char>>
    decreases fl.len(),
{
    if fl.len() == 0 {
        Seq::empty()
    } else {
        let l = fl[0];
        let rest = expand_filter(fl.drop_first());
        let p = spec_find_char(l, '_', 0);
        if p < l.len() {
            seq![l, l.take(p)] + rest
        } else {
            seq![l] + rest
        }
    }
}

/// The application identifier derived from a source path, or `None` when
/// the path yields no non-empty identifier.
pub open spec fn app_id_of(path: Seq<char>) -> Option<Seq<char>> {
    let suffix = ".desktop"@;
    if path.len() < 8 || path.subrange(path.len() - 8, path.len() as int) != suffix {
        None
    } else {
        let stripped = path.take(path.len() - 8);
        let j = spec_rfind_sub(stripped, "/applications/"@, stripped.len() - 14);
        if j >= 0 {
            let entry = stripped.skip(j + 14);
            let id = entry.map_values(|c: char| if c == '/' { '-' } else { c });
            if id.len() == 0 {
                None
            } else {
                Some(id)
            }
        } else {
            let k = spec_rfind_char(path, '/', path.len() as int);
            let name = path.skip(k + 1);
            if name.len() == 8 {
                Some(name)
            } else {
                Some(name.take(name.len() - 8))
            }
        }
    }
}

/// The view of an optional owned string.
pub open spec fn opt_str_view(o: Option<String>) -> Option<Seq<char>> {
    match o {
        Some(s) => Some(s@),
        None => None,
    }
}

/// The view of an optional locale filter.
pub open spec fn filter_view(f: Option<&Vec<String>>) -> Option<Seq<Seq<char>>> {
    match f {
        Some(v) => Some(v@.map_values(|s: String| s@)),
        None => None,
    }
}

/// The executable decoder state; its view is the specification state.
pub struct DecoderState {
    pub groups: Groups,
    pub active_group: Option<(String, Group)>,
    pub active_key: Option<(String, Field)>,
    pub domain: Option<String>,
    pub unknown: Vec<(String, String, String)>,
}

impl View for DecoderState {
    type V = DecState;

    open spec fn view(&self) -> DecState {
        DecState {
            groups: self.groups@,
            active_group: match self.active_group {
                Some(p) => Some((p.0@, p.1@)),
                None => None,
            },
            active_key: match self.active_key {
                Some(p) => Some((p.0@, p.1@)),
                None => None,
            },
            domain: opt_str_view(self.domain),
            unknown: self.unknown@.map_values(
                |u: (String, String, String)| (u.0@, u.1@, u.2@),
            ),
        }
    }
}

impl DecoderState {
    pub fn new() -> (r: Self)
        ensures
            r@ == st_init(),
            st_wf(r@),
    {
        let r = DecoderState {
            groups: Groups::new(),
            active_group: None,
            active_key: None,
            domain: None,
            unknown: Vec::new(),
        };
        proof {
            assert(r@.unknown =~= Seq::<(Seq<char>, Seq<char>, Seq<char>)>::empty());
            assert(r@ =~= st_init());
        }
        r
    }

    fn do_flush_key(&mut self) -> (r: Result<(), DecodeError>)
        requires
            st_wf(old(self)@),
        ensures
            match r {
                Ok(_) => flush_key(old(self)@) == Ok::<DecState, DecodeError>(final(self)@)
                    && st_wf(final(self)@),
                Err(e) => flush_key(old(self)@) == Err::<DecState, DecodeError>(e),
            },
    {
        let ak = self.active_key.take();
        match ak {
            None => {
                proof {
                    assert(self@ =~= old(self)@);
                }
                Ok(())
            },
            Some(kf) => {
                match &mut self.active_group {
                    Some(ag) => {
                        let ghost kv = kf.0@;
                        let ghost fv = kf.1@;
                        ag.1.insert(kf.0, kf.1);
                        proof {
                            let st0 = old(self)@;
                            let gn = st0.active_group->Some_0.0;
                            let g = st0.active_group->Some_0.1;
                            assert(self@ =~= DecState {
                                active_group: Some((gn, aset(g, kv, fv))),
                                active_key: None,
                                ..st0
                            });
                        }
                        Ok(())
                    },
                    None => Err(DecodeError::KeyValueWithoutAGroup),
                }
            },
        }
    }

    fn do_drain(&mut self) -> (r: Result<(), DecodeError>)
        requires
            st_wf(old(self)@),
        ensures
            match r {
                Ok(_) => drain_unknown(old(self)@) == Ok::<DecState, DecodeError>(final(self)@)
                    && st_wf(final(self)@),
                Err(e) => drain_unknown(old(self)@) == Err::<DecState, DecodeError>(e),
            },
    {
        while self.unknown.len() > 0
            invariant
                st_wf(self@),
                drain_unknown(old(self)@) == drain_unknown(self@),
            decreases self.unknown@.len(),
        {
            let ghost stc = self@;
            let u = self.unknown.remove(0);
            proof {
                assert(stc.unknown[0] == (u.0@, u.1@, u.2@));
                assert(self@.unknown =~= stc.unknown.drop_first());
            }
            match &mut self.active_group {
                None => {
                    proof {
                        assert(drain_unknown(stc) == Err::<DecState, DecodeError>(
                            DecodeError::KeyDoesNotExist,
                        ));
                    }
                    return Err(DecodeError::KeyDoesNotExist);
                },
                Some(ag) => {
                    let ghost gn = ag.0@;
                    let ghost g = ag.1@;
                    let ok = ag.1.set_locale(u.0.as_str(), u.1, u.2);
                    if !ok {
                        proof {
                            assert(assoc(g, u.0@) is None);
                            assert(drain_unknown(stc) == Err::<DecState, DecodeError>(
                                DecodeError::KeyDoesNotExist,
                            ));
                        }
                        return Err(DecodeError::KeyDoesNotExist);
                    }
                    proof {
                        let f = assoc(g, u.0@)->Some_0;
                        let stn = DecState {
                            active_group: Some(
                                (
                                    gn,
                                    aset(
                                        g,
                                        u.0@,
                                        FieldView {
                                            default_value: f.default_value,
                                            locales: aset(f.locales, u.1@, u.2@),
                                        },
                                    ),
                                ),
                            ),
                            unknown: stc.unknown.drop_first(),
                            ..stc
                        };
                        assert(self@ =~= stn);
                        assert(drain_unknown(stc) == drain_unknown(self@));
                    }
                },
            }
        }
        proof {
            assert(self@.unknown.len() == 0);
            assert(drain_unknown(self@) == Ok::<DecState, DecodeError>(self@));
        }
        Ok(())
    }

    fn do_flush_group(&mut self)
        requires
            st_wf(old(self)@),
        ensures
            final(self)@ == flush_group(old(self)@),
            st_wf(final(self)@),
    {
        let ag = self.active_group.take();
        match ag {
            None => {
                proof {
                    assert(self@ =~= old(self)@);
                }
            },
            Some(p) => {
                let ghost gn = p.0@;
                let ghost g = p.1@;
                self.groups.absorb(p.0, p.1);
                proof {
                    let st0 = old(self)@;
                    assert(self@ =~= DecState {
                        groups: gs_absorb(st0.groups, gn, g),
                        active_group: None,
                        ..st0
                    });
                }
            },
        }
    }

    /// Apply one line of the document to the decoder state.
    pub fn process_line(&mut self, line: &str, filter: Option<&Vec<String>>) -> (r: Result<
        (),
        DecodeError,
    >)
        requires
            st_wf(old(self)@),
        ensures
            match r {
                Ok(_) => step_line(old(self)@, line@, filter_view(filter)) == Ok::<
                    DecState,
                    DecodeError,
                >(final(self)@) && st_wf(final(self)@),
                Err(e) => step_line(old(self)@, line@, filter_view(filter)) == Err::<
                    DecState,
                    DecodeError,
                >(e),
            },
    {
        let ghost st0 = self@;
        let ghost fv = filter_view(filter);
        let llen = line.unicode_len();
        let trimmed = trim(line);
        if trimmed.unicode_len() == 0 {
            proof {
                assert(is_blank_line(line@));
            }
            return Ok(());
        }
        let c0 = line.get_char(0);
        if c0 == '#' {
            proof {
                assert(is_blank_line(line@));
            }
            return Ok(());
        }
        proof {
            assert(!is_blank_line(line@));
        }
        if c0 == '[' {
            match rfind_char(line, ']', llen) {
                None => {
                    proof {
                        assert(spec_rfind_char(line@, ']', line@.len() as int) == -1);
                    }
                    match self.do_drain() {
                        Ok(_) => Ok(()),
                        Err(e) => Err(e),
                    }
                },
                Some(j) => {
                    proof {
                        lemma_rfind_char(line@, ']', line@.len() as int);
                        assert(line@[j as int] == ']');
                        assert(j != 0);
                    }
                    match self.do_flush_key() {
                        Ok(_) => (),
                        Err(e) => {
                            return Err(e);
                        },
                    }
                    match self.do_drain() {
                        Ok(_) => (),
                        Err(e) => {
                            return Err(e);
                        },
                    }
                    self.do_flush_group();
                    let ghost st3 = self@;
                    let name = line.substring_char(1, j);
                    self.active_group = Some((String::from_str(name), Group::new()));
                    proof {
                        assert(name@ =~= line@.subrange(1, j as int));
                        assert(self@ =~= DecState {
                            active_group: Some(
                                (line@.subrange(1, j as int), Seq::<(Seq<char>, FieldView)>::empty()),
                            ),
                            ..st3
                        });
                    }
                    Ok(())
                },
            }
        } else {
            let d = find_char(line, '=', 0);
            proof {
                lemma_find_char(line@, '=', 0);
            }
            if d >= llen {
                return Ok(());
            }
            let key = line.substring_char(0, d);
            let raw = line.substring_char(d + 1, llen);
            proof {
                assert(key@ =~= line@.take(d as int));
                assert(raw@ =~= line@.skip(d as int + 1));
            }
            let value = match format_value(raw) {
                Ok(v) => v,
                Err(e) => {
                    return Err(e);
                },
            };
            let klen = key.unicode_len();
            if klen == 0 {
                return Err(DecodeError::InvalidKey);
            }
            let last_is_bracket = key.get_char(klen - 1) == ']';
            let start = if last_is_bracket {
                find_char(key, '[', 0)
            } else {
                klen
            };
            proof {
                lemma_find_char(key@, '[', 0);
            }
            if last_is_bracket && start < klen {
                proof {
                    assert(key@[start as int] == '[');
                    assert(start != klen - 1);
                }
                let locale = key.substring_char(start + 1, klen - 1);
                let base = key.substring_char(0, start);
                proof {
                    assert(locale@ =~= key@.subrange(start as int + 1, klen as int - 1));
                    assert(base@ =~= key@.take(start as int));
                }
                if let Some(fl) = filter {
                    let fln = fl.len();
                    let mut fi: usize = 0;
                    let mut found = false;
                    while fi < fln
                        invariant
                            fi <= fln,
                            fln == fl@.len(),
                            found ==> fv->Some_0.contains(locale@),
                            !found ==> forall|k: int|
                                0 <= k < fi ==> (#[trigger] fl@[k])@ != locale@,
                            fv == filter_view(Some(fl)),
                        decreases fln - fi,
                    {
                        if str_eq(fl[fi].as_str(), locale) {
                            found = true;
                            proof {
                                assert(fv->Some_0[fi as int] == locale@);
                            }
                        }
                        fi += 1;
                    }
                    if !found {
                        proof {
                            assert forall|k: int| 0 <= k < fv->Some_0.len() implies fv->Some_0[k]
                                != locale@ by {
                                assert(fv->Some_0[k] == fl@[k]@);
                            }
                            assert(!fv->Some_0.contains(locale@));
                            assert(filter_discards(fv, locale@));
                        }
                        return Ok(());
                    }
                    proof {
                        assert(!filter_discards(fv, locale@));
                    }
                } else {
                    proof {
                        assert(!filter_discards(fv, locale@));
                    }
                }
                let is_match = match &self.active_key {
                    Some(ak) => str_eq(ak.0.as_str(), base),
                    None => false,
                };
                if is_match {
                    match &mut self.active_key {
                        Some(ak) => {
                            let ghost akv = ak.0@;
                            let ghost f = ak.1@;
                            ak.1.locales.insert(String::from_str(locale), value);
                            proof {
                                assert(self@ =~= DecState {
                                    active_key: Some(
                                        (
                                            akv,
                                            FieldView {
                                                default_value: f.default_value,
                                                locales: aset(f.locales, locale@, value@),
                                            },
                                        ),
                                    ),
                                    ..st0
                                });
                            }
                        },
                        None => {
                            proof {
                                assert(false);
                            }
                        },
                    }
                } else {
                    let ghost u0 = self.unknown@;
                    self.unknown.push((String::from_str(base), String::from_str(locale), value));
                    proof {
                        assert(self@.unknown =~= st0.unknown.push((base@, locale@, value@)));
                        assert(self@ =~= DecState {
                            unknown: st0.unknown.push((base@, locale@, value@)),
                            ..st0
                        });
                    }
                }
                Ok(())
            } else {
                if str_eq(key, "X-Ubuntu-Gettext-Domain") {
                    self.domain = Some(value);
                    proof {
                        assert(self@ =~= DecState { domain: Some(value@), ..st0 });
                    }
                    return Ok(());
                }
                match self.do_flush_key() {
                    Ok(_) => (),
                    Err(e) => {
                        return Err(e);
                    },
                }
                let ghost st1 = self@;
                let kt = trim(key);
                self.active_key = Some(
                    (String::from_str(kt), Field::plain(value)),
                );
                proof {
                    assert(self@ =~= DecState {
                        active_key: Some(
                            (
                                spec_trim(key@),
                                FieldView { default_value: value@, locales: Seq::empty() },
                            ),
                        ),
                        ..st1
                    });
                }
                Ok(())
            }
        }
    }
}

impl DecoderState {
    /// Close what is still open at end of input: the pending key joins the
    /// group, buffered locale lines resolve, the group joins the document.
    pub fn close(&mut self) -> (r: Result<(), DecodeError>)
        requires
            st_wf(old(self)@),
        ensures
            match r {
                Ok(_) => group_close(old(self)@) == Ok::<DecState, DecodeError>(final(self)@)
                    && st_wf(final(self)@),
                Err(e) => group_close(old(self)@) == Err::<DecState, DecodeError>(e),
            },
    {
        match self.do_flush_key() {
            Ok(_) => (),
            Err(e) => {
                return Err(e);
            },
        }
        match self.do_drain() {
            Ok(_) => (),
            Err(e) => {
                return Err(e);
            },
        }
        self.do_flush_group();
        Ok(())
    }
}

/// Derive the application identifier from a source path.  Fails with
/// `AppID` when the path does not end in the entry suffix or yields an
/// empty identifier.
pub fn get_app_id(path: &str) -> (r: Result<String, DecodeError>)
    ensures
        match app_id_of(path@) {
            Some(id) => r matches Ok(s) && s@ == id,
            None => r matches Err(e) && e is AppID,
        },
{
    proof {
        reveal_strlit(".desktop");
        reveal_strlit("/applications/");
    }
    let plen = path.unicode_len();
    if plen < 8 {
        return Err(DecodeError::AppID);
    }
    if !check_match(path, ".desktop", plen - 8) {
        proof {
            assert(path@.subrange(plen as int - 8, plen as int) != ".desktop"@);
        }
        return Err(DecodeError::AppID);
    }
    proof {
        assert(path@.subrange(plen as int - 8, plen as int) == ".desktop"@);
    }
    let stripped = path.substring_char(0, plen - 8);
    proof {
        assert(stripped@ =~= path@.take(plen as int - 8));
    }
    match rfind_sub(stripped, "/applications/") {
        Some(j) => {
            proof {
                lemma_rfind_sub(stripped@, "/applications/"@, stripped@.len() - 14);
                assert(matches_at(stripped@, "/applications/"@, j as int));
            }
            let entry = stripped.substring_char(j + 14, plen - 8);
            proof {
                assert(entry@ =~= stripped@.skip(j as int + 14));
            }
            let elen = entry.unicode_len();
            if elen == 0 {
                proof {
                    assert(stripped@.skip(j as int + 14).map_values(
                        |c: char| if c == '/' { '-' } else { c },
                    ).len() == 0);
                }
                return Err(DecodeError::AppID);
            }
            let mut id = String::new();
            let mut i: usize = 0;
            while i < elen
                invariant
                    i <= elen,
                    elen == entry@.len(),
                    id@.len() == i,
                    forall|m: int|
                        0 <= m < i ==> id@[m] == (if entry@[m] == '/' {
                            '-'
                        } else {
                            entry@[m]
                        }),
                decreases elen - i,
            {
                let c = entry.get_char(i);
                if c == '/' {
                    id.push('-');
                } else {
                    id.push(c);
                }
                i += 1;
            }
            proof {
                assert(id@ =~= entry@.map_values(|c: char| if c == '/' { '-' } else { c }));
            }
            Ok(id)
        },
        None => {
            let name_start: usize = match rfind_char(path, '/', plen) {
                Some(k) => {
                    proof {
                        lemma_rfind_char(path@, '/', plen as int);
                        assert(path@[k as int] == '/');
                        assert forall|m: int| plen - 8 <= m < plen implies path@[m] != '/' by {
                            assert(path@[m] == path@.subrange(plen as int - 8, plen as int)[m - (
                            plen - 8)]);
                        }
                        assert(k < plen - 8);
                    }
                    k + 1
                },
                None => 0,
            };
            let name = path.substring_char(name_start, plen);
            proof {
                assert(name@ =~= path@.skip(name_start as int));
            }
            let name_len = plen - name_start;
            if name_len == 8 {
                Ok(String::from_str(name))
            } else {
                let stem = name.substring_char(0, name_len - 8);
                proof {
                    assert(stem@ =~= name@.take(name@.len() - 8));
                }
                Ok(String::from_str(stem))
            }
        },
    }
}

/// Extend a locale filter with each tag's language-only prefix.
pub fn expand_locales(fl: &Vec<String>) -> (r: Vec<String>)
    ensures
        r@.map_values(|s: String| s@) == expand_filter(fl@.map_values(|s: String| s@)),
{
    let ghost fv = fl@.map_values(|s: String| s@);
    let mut out: Vec<String> = Vec::new();
    let n = fl.len();
    let mut i: usize = 0;
    proof {
        assert(fv.skip(0) =~= fv);
        assert(out@.map_values(|s: String| s@) =~= Seq::<Seq<char>>::empty());
        assert(Seq::<Seq<char>>::empty() + expand_filter(fv) =~= expand_filter(fv));
    }
    while i < n
        invariant
            i <= n,
            n == fl@.len(),
            fv == fl@.map_values(|s: String| s@),
            expand_filter(fv) == out@.map_values(|s: String| s@) + expand_filter(
                fv.skip(i as int),
            ),
        decreases n - i,
    {
        let ghost out0 = out@.map_values(|s: String| s@);
        let ghost restv = fv.skip(i as int);
        let l = &fl[i];
        proof {
            assert(restv[0] == l@);
            assert(restv.drop_first() =~= fv.skip(i as int + 1));
        }
        let llen = l.as_str().unicode_len();
        let p = find_char(l.as_str(), '_', 0);
        out.push(l.clone());
        if p < llen {
            let prefix = l.as_str().substring_char(0, p);
            out.push(String::from_str(prefix));
            proof {
                assert(prefix@ =~= l@.take(p as int));
                assert(out@.map_values(|s: String| s@) =~= out0 + seq![l@, l@.take(p as int)]);
                assert(expand_filter(restv) == seq![l@, l@.take(p as int)] + expand_filter(
                    restv.drop_first(),
                ));
                assert(out0 + (seq![l@, l@.take(p as int)] + expand_filter(restv.drop_first()))
                    =~= (out0 + seq![l@, l@.take(p as int)]) + expand_filter(
                    restv.drop_first(),
                ));
            }
        } else {
            proof {
                assert(out@.map_values(|s: String| s@) =~= out0 + seq![l@]);
                assert(expand_filter(restv) == seq![l@] + expand_filter(restv.drop_first()));
                assert(out0 + (seq![l@] + expand_filter(restv.drop_first())) =~= (out0
                    + seq![l@]) + expand_filter(restv.drop_first()));
            }
        }
        i += 1;
    }
    proof {
        assert(fv.skip(n as int).len() == 0);
        assert(fv.skip(n as int) =~= Seq::<Seq<char>>::empty());
        assert(expand_filter(Seq::<Seq<char>>::empty()) =~= Seq::<Seq<char>>::empty());
        assert(out@.map_values(|s: String| s@) + Seq::<Seq<char>>::empty() =~= out@.map_values(
            |s: String| s@,
        ));
    }
    out
}

} // verus!
