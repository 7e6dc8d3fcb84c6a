//! Rendering a decoded document back to the line format, and the round-trip
//! law: decoding a rendered document restores it exactly.

use crate::decoder::{
    decode_lines, decode_text, domain_key, group_close, st_init, step_line, DecState, DecodeError,
};
use crate::entry::{DesktopEntry, EntryView};
use crate::maps::{
    adistinct, aset, assoc, field_view_wf, group_view_wf, groups_view_wf, lemma_aset_push,
    lemma_assoc_none, FieldView, GroupView, GroupsView,
};
use crate::strutil::{
    is_space_char, lemma_find_char, lemma_find_char_at, lemma_trim_id, lemma_trim_nonblank,
    spec_find_char, spec_lines, spec_rfind_char, spec_trim,
};
use crate::maps::{Field, Group, Groups, LocaleMap};
use crate::value::{escape_seq, strip_leading_space, unescape_seq};
use vstd::prelude::*;

verus! {

/// How a value is written after `=`: escaped, with one extra leading space
/// when the value itself begins with a space.
pub open spec fn render_value(v: Seq<char>) -> Seq<char> {
    (if v.len() > 0 && v[0] == ' ' {
        seq![' ']
    } else {
        Seq::empty()
    }) + escape_seq(v)
}

/// One `key=value` line.
pub open spec fn kv_line(keypart: Seq<char>, v: Seq<char>) -> Seq<char> {
    keypart + seq!['='] + render_value(v)
}

/// One locale-qualified key.
pub open spec fn loc_key(k: Seq<char>, l: Seq<char>) -> Seq<char> {
    k + seq!['['] + l + seq![']']
}

/// One group header line.
pub open spec fn header_line(gn: Seq<char>) -> Seq<char> {
    seq!['['] + gn + seq![']']
}

/// The lines of one field: its default value, then its localized values.
pub open spec fn render_field_lines(k: Seq<char>, f: FieldView) -> Seq<Seq<char>> {
    seq![kv_line(k, f.default_value)] + f.locales.map_values(
        |p: (Seq<char>, Seq<char>)| kv_line(loc_key(k, p.0), p.1),
    )
}

/// The lines of a group body.
pub open spec fn render_fields(g: GroupView) -> Seq<Seq<char>>
    decreases g.len(),
{
    if g.len() == 0 {
        Seq::empty()
    } else {
        render_field_lines(g[0].0, g[0].1) + render_fields(g.drop_first())
    }
}

/// The lines of a group list.
pub open spec fn render_groups(gs: GroupsView) -> Seq<Seq<char>>
    decreases gs.len(),
{
    if gs.len() == 0 {
        Seq::empty()
    } else {
        seq![header_line(gs[0].0)] + render_fields(gs[0].1) + render_groups(gs.drop_first())
    }
}

/// The lines of a whole document: the translation-domain directive if one
/// is set, then every group.
pub open spec fn render_entry_lines(ev: EntryView) -> Seq<Seq<char>> {
    (match ev.ubuntu_gettext_domain {
        Some(d) => seq![kv_line(domain_key(), d)],
        None => Seq::empty(),
    }) + render_groups(ev.groups)
}

/// A key that decodes back to itself: non-empty, already trimmed, free of
/// the characters that the line grammar claims, not the reserved
/// translation-domain key, and not a comment starter.
pub open spec fn renderable_key(k: Seq<char>) -> bool {
    &&& k.len() > 0
    &&& spec_trim(k) == k
    &&& !k.contains('\n')
    &&& !k.contains('=')
    &&& !k.contains('[')
    &&& k[k.len() - 1] != ']'
    &&& k[0] != '#'
    &&& k != domain_key()
}

/// A locale tag that decodes back to itself.
pub open spec fn renderable_locale(l: Seq<char>) -> bool {
    &&& !l.contains('\n')
    &&& !l.contains('=')
}

pub open spec fn renderable_field(k: Seq<char>, f: FieldView) -> bool {
    &&& renderable_key(k)
    &&& forall|i: int| 0 <= i < f.locales.len() ==> renderable_locale(#[trigger] f.locales[i].0)
}

pub open spec fn renderable_group(gn: Seq<char>, g: GroupView) -> bool {
    &&& !gn.contains('\n')
    &&& forall|i: int| 0 <= i < g.len() ==> renderable_field(g[i].0, #[trigger] g[i].1)
}

/// An entry whose rendering decodes back to it.
pub open spec fn renderable(ev: EntryView) -> bool {
    &&& groups_view_wf(ev.groups)
    &&& forall|i: int|
        0 <= i < ev.groups.len() ==> renderable_group(
            ev.groups[i].0,
            #[trigger] ev.groups[i].1,
        )
}

/// Escaping never produces a newline, a carriage return, or — except for a
/// leading space carried over — a leading space.
proof fn lemma_escape_free(v: Seq<char>)
    ensures
        !escape_seq(v).contains('\n'),
        !escape_seq(v).contains('\r'),
        escape_seq(v).len() >= v.len(),
        v.len() > 0 && v[0] != ' ' ==> escape_seq(v).len() > 0 && escape_seq(v)[0] != ' '
            && escape_seq(v)[0] != '\n',
    decreases v.len(),
{
    if v.len() > 0 {
        lemma_escape_free(v.drop_first());
        let e = escape_seq(v);
        let h = crate::value::escape_char(v[0]);
        assert(e == h + escape_seq(v.drop_first()));
        assert forall|i: int| 0 <= i < e.len() implies e[i] != '\n' && e[i] != '\r' by {
            if i < h.len() {
                assert(e[i] == h[i]);
            } else {
                assert(e[i] == escape_seq(v.drop_first())[i - h.len()]);
            }
        }
        assert(!e.contains('\n'));
        assert(!e.contains('\r'));
    } else {
        assert(escape_seq(v).len() == 0);
    }
}

/// A rendered value holds no newline or carriage return.
proof fn lemma_render_value_clean(v: Seq<char>)
    ensures
        !render_value(v).contains('\n'),
        !render_value(v).contains('\r'),
    decreases v.len(),
{
    lemma_escape_free(v);
    let r = render_value(v);
    assert forall|i: int| 0 <= i < r.len() implies r[i] != '\n' && r[i] != '\r' by {
        if v.len() > 0 && v[0] == ' ' {
            if i == 0 {
            } else {
                assert(r[i] == escape_seq(v)[i - 1]);
            }
        } else {
            assert(r[i] == escape_seq(v)[i]);
        }
    }
}

/// Unescaping a rendered value restores the value.
proof fn lemma_render_value_round(v: Seq<char>)
    ensures
        unescape_seq(strip_leading_space(render_value(v))) == Some(v),
{
    crate::value::lemma_unescape_escape(v);
    let r = render_value(v);
    if v.len() > 0 && v[0] == ' ' {
        assert(r[0] == ' ');
        assert(strip_leading_space(r) =~= escape_seq(v));
    } else {
        lemma_escape_free(v);
        if v.len() > 0 {
            assert(escape_seq(v)[0] != ' ');
            assert(r =~= escape_seq(v));
            assert(strip_leading_space(r) == r);
        } else {
            assert(r =~= escape_seq(v));
            assert(strip_leading_space(r) =~= escape_seq(v));
        }
    }
}

/// One default-value key line, decoded: the pending key is flushed and the
/// key becomes pending with its fresh value.
proof fn lemma_step_key_line(st: DecState, k: Seq<char>, v: Seq<char>)
    requires
        renderable_key(k),
        st.active_group is Some,
    ensures
        crate::decoder::flush_key(st) is Ok,
        step_line(st, kv_line(k, v), None) == Ok::<DecState, DecodeError>(
            DecState {
                active_key: Some(
                    (k, FieldView { default_value: v, locales: Seq::empty() }),
                ),
                ..crate::decoder::flush_key(st)->Ok_0
            },
        ),
{
    let line = kv_line(k, v);
    let rv = render_value(v);
    assert(line.len() == k.len() + 1 + rv.len());
    assert forall|i: int| 0 <= i < k.len() implies line[i] == k[i] by {}
    assert(line[k.len() as int] == '=');
    lemma_trim_id(k);
    assert(line[0] == k[0]);
    lemma_trim_nonblank(line);
    assert(!crate::decoder::is_blank_line(line));
    assert(k[0] != '[') by {
        if k[0] == '[' {
            assert(k.contains('['));
        }
    }
    assert forall|i: int| 0 <= i < k.len() implies line[i] != '=' by {
        if k[i] == '=' {
            assert(k.contains('='));
        }
    }
    lemma_find_char_at(line, '=', k.len() as int);
    let d = spec_find_char(line, '=', 0);
    assert(d == k.len());
    assert(line.take(d) =~= k);
    assert(line.skip(d + 1) =~= rv);
    lemma_render_value_round(v);
    assert(k[k.len() - 1] != ']');
    assert(spec_trim(line.take(d)) == k);
}

/// One locale line, decoded: the localized value joins the pending key.
proof fn lemma_step_locale_line(st: DecState, k: Seq<char>, l: Seq<char>, v: Seq<char>, f: FieldView)
    requires
        renderable_key(k),
        renderable_locale(l),
        st.active_key == Some((k, f)),
    ensures
        step_line(st, kv_line(loc_key(k, l), v), None) == Ok::<DecState, DecodeError>(
            DecState {
                active_key: Some(
                    (
                        k,
                        FieldView {
                            default_value: f.default_value,
                            locales: aset(f.locales, l, v),
                        },
                    ),
                ),
                ..st
            },
        ),
{
    let kp = loc_key(k, l);
    let line = kv_line(kp, v);
    let rv = render_value(v);
    assert(kp.len() == k.len() + 1 + l.len() + 1);
    assert(line.len() == kp.len() + 1 + rv.len());
    assert forall|i: int| 0 <= i < kp.len() implies line[i] == kp[i] by {}
    assert forall|i: int| 0 <= i < k.len() implies kp[i] == k[i] by {}
    assert(kp[k.len() as int] == '[');
    assert forall|i: int| 0 <= i < l.len() implies kp[k.len() + 1 + i] == l[i] by {}
    assert(kp[kp.len() - 1] == ']');
    assert(line[kp.len() as int] == '=');
    lemma_trim_id(k);
    assert(line[0] == k[0]);
    lemma_trim_nonblank(line);
    assert(!crate::decoder::is_blank_line(line));
    assert(k[0] != '[') by {
        if k[0] == '[' {
            assert(k.contains('['));
        }
    }
    // the first '=' sits right after the bracketed key
    assert forall|i: int| 0 <= i < kp.len() implies line[i] != '=' by {
        if i < k.len() {
            if k[i] == '=' {
                assert(k.contains('='));
            }
        } else if i == k.len() {
        } else if i < k.len() + 1 + l.len() {
            if l[i - k.len() - 1] == '=' {
                assert(l.contains('='));
            }
        } else {
            assert(i == kp.len() - 1);
        }
    }
    lemma_find_char_at(line, '=', kp.len() as int);
    let d = spec_find_char(line, '=', 0);
    assert(d == kp.len());
    let key = line.take(d);
    assert(key =~= kp);
    assert(line.skip(d + 1) =~= rv);
    lemma_render_value_round(v);
    assert(key.len() > 0);
    assert(key[key.len() - 1] == ']');
    // the first '[' sits right after the bare key
    assert forall|i: int| 0 <= i < k.len() implies key[i] != '[' by {
        if k[i] == '[' {
            assert(k.contains('['));
        }
    }
    assert(key[k.len() as int] == '[');
    lemma_find_char_at(key, '[', k.len() as int);
    let start = spec_find_char(key, '[', 0);
    assert(start == k.len());
    assert(start < key.len());
    assert(key.subrange(start + 1, key.len() - 1) =~= l);
    assert(key.take(start) =~= k);
    assert(!crate::decoder::filter_discards(None::<Seq<Seq<char>>>, l));
}

/// One group header line, decoded: the open group closes and the named
/// group opens empty.
proof fn lemma_step_header(st: DecState, gn: Seq<char>)
    requires
        !gn.contains('\n'),
        group_close(st) is Ok,
    ensures
        step_line(st, header_line(gn), None) == Ok::<DecState, DecodeError>(
            DecState { active_group: Some((gn, Seq::empty())), ..group_close(st)->Ok_0 },
        ),
{
    let line = header_line(gn);
    assert(line[0] == '[');
    assert(line[line.len() - 1] == ']');
    lemma_trim_nonblank(line);
    assert(!crate::decoder::is_blank_line(line));
    let j = spec_rfind_char(line, ']', line.len() as int);
    assert(j == line.len() - 1);
    assert(line.subrange(1, j) =~= gn);
}

/// The translation-domain directive, decoded: only the domain changes.
proof fn lemma_step_domain(st: DecState, d: Seq<char>)
    ensures
        step_line(st, kv_line(domain_key(), d), None) == Ok::<DecState, DecodeError>(
            DecState { domain: Some(d), ..st },
        ),
{
    let dk = domain_key();
    reveal_strlit("X-Ubuntu-Gettext-Domain");
    let line = kv_line(dk, d);
    let rv = render_value(d);
    assert(dk.len() == 23);
    assert(line.len() == dk.len() + 1 + rv.len());
    assert forall|i: int| 0 <= i < dk.len() implies line[i] == dk[i] by {}
    assert(line[dk.len() as int] == '=');
    assert(line[0] == 'X');
    lemma_trim_nonblank(line);
    assert(!crate::decoder::is_blank_line(line));
    assert forall|i: int| 0 <= i < dk.len() implies line[i] != '=' by {}
    lemma_find_char_at(line, '=', dk.len() as int);
    let dpos = spec_find_char(line, '=', 0);
    assert(dpos == dk.len());
    assert(line.take(dpos) =~= dk);
    assert(line.skip(dpos + 1) =~= rv);
    lemma_render_value_round(d);
    assert(dk[dk.len() - 1] == 'n');
}

/// Folding lines distributes over concatenation.
proof fn lemma_decode_lines_append(
    st: DecState,
    a: Seq<Seq<char>>,
    b: Seq<Seq<char>>,
    filter: Option<Seq<Seq<char>>>,
)
    ensures
        decode_lines(st, a + b, filter) == (match decode_lines(st, a, filter) {
            Ok(m) => decode_lines(m, b, filter),
            Err(e) => Err(e),
        }),
    decreases a.len(),
{
    if a.len() == 0 {
        assert(a + b =~= b);
    } else {
        assert((a + b)[0] == a[0]);
        assert((a + b).drop_first() =~= a.drop_first() + b);
        match step_line(st, a[0], filter) {
            Ok(st1) => {
                lemma_decode_lines_append(st1, a.drop_first(), b, filter);
            },
            Err(_) => {},
        }
    }
}

/// The locale lines of a field, decoded in order: each localized value is
/// appended to the pending key's locale list.
proof fn lemma_dec_locales(
    st: DecState,
    k: Seq<char>,
    f0: FieldView,
    locs: Seq<(Seq<char>, Seq<char>)>,
)
    requires
        renderable_key(k),
        st.active_key == Some((k, f0)),
        adistinct(locs),
        forall|i: int| 0 <= i < locs.len() ==> renderable_locale(#[trigger] locs[i].0),
        forall|i: int| 0 <= i < locs.len() ==> assoc(f0.locales, #[trigger] locs[i].0) is None,
    ensures
        decode_lines(
            st,
            locs.map_values(|p: (Seq<char>, Seq<char>)| kv_line(loc_key(k, p.0), p.1)),
            None,
        ) == Ok::<DecState, DecodeError>(
            DecState {
                active_key: Some(
                    (
                        k,
                        FieldView {
                            default_value: f0.default_value,
                            locales: f0.locales + locs,
                        },
                    ),
                ),
                ..st
            },
        ),
    decreases locs.len(),
{
    let lines = locs.map_values(|p: (Seq<char>, Seq<char>)| kv_line(loc_key(k, p.0), p.1));
    if locs.len() == 0 {
        assert(lines.len() == 0);
        assert(f0.locales + locs =~= f0.locales);
        assert(DecState {
            active_key: Some(
                (k, FieldView { default_value: f0.default_value, locales: f0.locales + locs }),
            ),
            ..st
        } =~= st);
    } else {
        let l = locs[0].0;
        let v = locs[0].1;
        lemma_step_locale_line(st, k, l, v, f0);
        lemma_aset_push(f0.locales, l, v);
        assert(aset(f0.locales, l, v) =~= f0.locales.push(locs[0]));
        let f1 = FieldView { default_value: f0.default_value, locales: f0.locales.push(locs[0]) };
        let st1 = DecState { active_key: Some((k, f1)), ..st };
        assert(step_line(st, lines[0], None) == Ok::<DecState, DecodeError>(st1)) by {
            assert(lines[0] == kv_line(loc_key(k, l), v));
            assert(DecState {
                active_key: Some(
                    (
                        k,
                        FieldView {
                            default_value: f0.default_value,
                            locales: aset(f0.locales, l, v),
                        },
                    ),
                ),
                ..st
            } =~= st1);
        }
        let rest = locs.drop_first();
        assert(adistinct(rest)) by {
            assert(forall|a: int, b: int|
                0 <= a < b < rest.len() ==> rest[a] == locs[a + 1] && rest[b] == locs[b + 1]);
        }
        assert(forall|i: int| 0 <= i < rest.len() ==> #[trigger] rest[i] == locs[i + 1]);
        assert forall|i: int| 0 <= i < rest.len() implies assoc(
            f1.locales,
            #[trigger] rest[i].0,
        ) is None by {
            lemma_assoc_none(f0.locales, rest[i].0);
            lemma_assoc_none(f1.locales, rest[i].0);
            assert(locs[0].0 != locs[i + 1].0);
            assert(forall|j: int|
                0 <= j < f1.locales.len() ==> f1.locales[j] == (if j < f0.locales.len() {
                    f0.locales[j]
                } else {
                    locs[0]
                }));
        }
        lemma_dec_locales(st1, k, f1, rest);
        assert(lines.drop_first() =~= rest.map_values(
            |p: (Seq<char>, Seq<char>)| kv_line(loc_key(k, p.0), p.1),
        ));
        assert(f1.locales + rest =~= f0.locales + locs);
        assert(DecState {
            active_key: Some(
                (k, FieldView { default_value: f1.default_value, locales: f1.locales + rest }),
            ),
            ..st1
        } =~= DecState {
            active_key: Some(
                (k, FieldView { default_value: f0.default_value, locales: f0.locales + locs }),
            ),
            ..st
        });
    }
}

/// One whole field's lines, decoded: the earlier pending key is flushed and
/// the field stands complete as the new pending key.
proof fn lemma_dec_field(st: DecState, k: Seq<char>, f: FieldView)
    requires
        renderable_field(k, f),
        field_view_wf(f),
        st.active_group is Some,
    ensures
        crate::decoder::flush_key(st) is Ok,
        decode_lines(st, render_field_lines(k, f), None) == Ok::<DecState, DecodeError>(
            DecState { active_key: Some((k, f)), ..crate::decoder::flush_key(st)->Ok_0 },
        ),
{
    let lines = render_field_lines(k, f);
    lemma_step_key_line(st, k, f.default_value);
    let f0 = FieldView { default_value: f.default_value, locales: Seq::empty() };
    let st1 = DecState { active_key: Some((k, f0)), ..crate::decoder::flush_key(st)->Ok_0 };
    let locl = f.locales.map_values(
        |p: (Seq<char>, Seq<char>)| kv_line(loc_key(k, p.0), p.1),
    );
    assert(lines =~= seq![kv_line(k, f.default_value)] + locl);
    lemma_decode_lines_append(st, seq![kv_line(k, f.default_value)], locl, None);
    assert(decode_lines(st, seq![kv_line(k, f.default_value)], None) == Ok::<
        DecState,
        DecodeError,
    >(st1)) by {
        let one = seq![kv_line(k, f.default_value)];
        assert(one.len() == 1);
        assert(one[0] == kv_line(k, f.default_value));
        assert(one.drop_first() =~= Seq::<Seq<char>>::empty());
        assert(step_line(st, one[0], None) == Ok::<DecState, DecodeError>(st1));
        assert(decode_lines(st1, one.drop_first(), None) == Ok::<DecState, DecodeError>(st1));
    }
    assert forall|i: int| 0 <= i < f.locales.len() implies assoc(
        f0.locales,
        #[trigger] f.locales[i].0,
    ) is None by {
        lemma_assoc_none(f0.locales, f.locales[i].0);
    }
    lemma_dec_locales(st1, k, f0, f.locales);
    assert(f0.locales + f.locales =~= f.locales);
    assert(DecState {
        active_key: Some(
            (k, FieldView { default_value: f0.default_value, locales: f0.locales + f.locales }),
        ),
        ..st1
    } =~= DecState { active_key: Some((k, f)), ..crate::decoder::flush_key(st)->Ok_0 });
}

/// The field a pending key flushes into the group, if one is pending.
pub open spec fn flush_into(
    ga: GroupView,
    ak: Option<(Seq<char>, FieldView)>,
) -> GroupView {
    match ak {
        Some((k, f)) => aset(ga, k, f),
        None => ga,
    }
}

/// A group body's lines, decoded: all fields but the last are flushed into
/// the open group, and the last stands pending.
proof fn lemma_dec_fields(st: DecState, gn: Seq<char>, ga: GroupView, g: GroupView)
    requires
        st.active_group == Some((gn, ga)),
        st.active_key matches Some((k, _)) ==> renderable_key(k),
        group_view_wf(g),
        forall|i: int| 0 <= i < g.len() ==> renderable_field(g[i].0, #[trigger] g[i].1),
    ensures
        decode_lines(st, render_fields(g), None) == Ok::<DecState, DecodeError>(
            (if g.len() == 0 {
                st
            } else {
                DecState {
                    active_group: Some(
                        (
                            gn,
                            crate::maps::merge_fields(
                                flush_into(ga, st.active_key),
                                g.take(g.len() - 1),
                            ),
                        ),
                    ),
                    active_key: Some((g[g.len() - 1].0, g[g.len() - 1].1)),
                    ..st
                }
            }),
        ),
    decreases g.len(),
{
    if g.len() == 0 {
        assert(render_fields(g).len() == 0);
    } else {
        let k0 = g[0].0;
        let f0 = g[0].1;
        assert(renderable_field(k0, f0));
        assert(field_view_wf(f0));
        lemma_dec_field(st, k0, f0);
        let stf = crate::decoder::flush_key(st)->Ok_0;
        assert(stf.active_group == Some((gn, flush_into(ga, st.active_key))));
        let st1 = DecState { active_key: Some((k0, f0)), ..stf };
        lemma_decode_lines_append(st, render_field_lines(k0, f0), render_fields(g.drop_first()), None);
        assert(render_fields(g) == render_field_lines(k0, f0) + render_fields(g.drop_first()));
        let ga1 = flush_into(ga, st.active_key);
        assert(forall|i: int|
            0 <= i < g.drop_first().len() ==> #[trigger] g.drop_first()[i] == g[i + 1]);
        assert(group_view_wf(g.drop_first())) by {
            assert(forall|a: int, b: int|
                0 <= a < b < g.drop_first().len() ==> g.drop_first()[a] == g[a + 1]
                    && g.drop_first()[b] == g[b + 1]);
        }
        lemma_dec_fields(st1, gn, ga1, g.drop_first());
        if g.len() == 1 {
            assert(g.drop_first().len() == 0);
            assert(decode_lines(st1, render_fields(g.drop_first()), None) == Ok::<
                DecState,
                DecodeError,
            >(st1));
            assert(crate::maps::merge_fields(flush_into(ga, st.active_key), g.take(0int))
                == ga1) by {
                assert(g.take(0int) =~= Seq::<(Seq<char>, FieldView)>::empty());
            }
            assert(st1 =~= DecState {
                active_group: Some(
                    (gn, crate::maps::merge_fields(flush_into(ga, st.active_key), g.take(0int))),
                ),
                active_key: Some((g[0].0, g[0].1)),
                ..st
            });
        } else {
            let rest = g.drop_first();
            assert(flush_into(ga1, st1.active_key) == aset(ga1, k0, f0));
            assert(crate::maps::merge_fields(ga1, g.take(g.len() - 1)) == crate::maps::merge_fields(
                aset(ga1, k0, f0),
                rest.take(rest.len() - 1),
            )) by {
                assert(g.take(g.len() - 1)[0] == g[0]);
                assert(g.take(g.len() - 1).drop_first() =~= rest.take(rest.len() - 1));
                assert(g.take(g.len() - 1).len() > 0);
            }
            assert(rest[rest.len() - 1] == g[g.len() - 1]);
            assert(DecState {
                active_group: Some(
                    (
                        gn,
                        crate::maps::merge_fields(
                            flush_into(ga1, st1.active_key),
                            rest.take(rest.len() - 1),
                        ),
                    ),
                ),
                active_key: Some((rest[rest.len() - 1].0, rest[rest.len() - 1].1)),
                ..st1
            } =~= DecState {
                active_group: Some(
                    (
                        gn,
                        crate::maps::merge_fields(
                            flush_into(ga, st.active_key),
                            g.take(g.len() - 1),
                        ),
                    ),
                ),
                active_key: Some((g[g.len() - 1].0, g[g.len() - 1].1)),
                ..st
            });
        }
    }
}

/// Merging fields with fresh keys is concatenation.
proof fn lemma_merge_append(base: GroupView, add: GroupView)
    requires
        adistinct(add),
        forall|i: int| 0 <= i < add.len() ==> assoc(base, #[trigger] add[i].0) is None,
    ensures
        crate::maps::merge_fields(base, add) =~= base + add,
    decreases add.len(),
{
    if add.len() == 0 {
        assert(base + add =~= base);
    } else {
        lemma_aset_push(base, add[0].0, add[0].1);
        assert(aset(base, add[0].0, add[0].1) =~= base.push(add[0]));
        let base1 = base.push(add[0]);
        let rest = add.drop_first();
        assert(adistinct(rest)) by {
            assert(forall|a: int, b: int|
                0 <= a < b < rest.len() ==> rest[a] == add[a + 1] && rest[b] == add[b + 1]);
        }
        assert(forall|i: int| 0 <= i < rest.len() ==> #[trigger] rest[i] == add[i + 1]);
        assert forall|i: int| 0 <= i < rest.len() implies assoc(
            base1,
            #[trigger] rest[i].0,
        ) is None by {
            lemma_assoc_none(base, rest[i].0);
            lemma_assoc_none(base1, rest[i].0);
            assert(add[0].0 != add[i + 1].0);
            assert(forall|j: int|
                0 <= j < base1.len() ==> base1[j] == (if j < base.len() {
                    base[j]
                } else {
                    add[0]
                }));
        }
        lemma_merge_append(base1, rest);
        assert(crate::maps::merge_fields(base, add) == crate::maps::merge_fields(base1, rest));
        assert(base1 + rest =~= base + add);
    }
}

/// Resolving the buffered locale lines touches only the open group and the
/// buffer.
proof fn lemma_drain_shape(st: DecState)
    requires
        crate::decoder::drain_unknown(st) is Ok,
    ensures
        ({
            let r = crate::decoder::drain_unknown(st)->Ok_0;
            &&& r.domain == st.domain
            &&& r.active_key == st.active_key
            &&& r.groups == st.groups
            &&& r.unknown.len() == 0
        }),
    decreases st.unknown.len(),
{
    if st.unknown.len() > 0 {
        let u = st.unknown[0];
        match st.active_group {
            None => {},
            Some((gn, g)) => {
                match assoc(g, u.0) {
                    None => {},
                    Some(f) => {
                        let stn = DecState {
                            active_group: Some(
                                (
                                    gn,
                                    aset(
                                        g,
                                        u.0,
                                        FieldView {
                                            default_value: f.default_value,
                                            locales: aset(f.locales, u.1, u.2),
                                        },
                                    ),
                                ),
                            ),
                            unknown: st.unknown.drop_first(),
                            ..st
                        };
                        lemma_drain_shape(stn);
                    },
                }
            },
        }
    }
}

/// Closing leaves nothing open and keeps the domain.
proof fn lemma_close_shape(st: DecState)
    requires
        group_close(st) is Ok,
    ensures
        ({
            let r = group_close(st)->Ok_0;
            &&& r.active_group is None
            &&& r.active_key is None
            &&& r.unknown.len() == 0
            &&& r.domain == st.domain
        }),
{
    let st1 = crate::decoder::flush_key(st)->Ok_0;
    lemma_drain_shape(st1);
}

/// A group list's lines, decoded and then closed: every group lands in the
/// document, in order, exactly as rendered.
proof fn lemma_dec_groups(st: DecState, gs: GroupsView)
    requires
        group_close(st) is Ok,
        forall|i: int|
            0 <= i < gs.len() ==> renderable_group(gs[i].0, #[trigger] gs[i].1),
        forall|i: int| 0 <= i < gs.len() ==> group_view_wf(#[trigger] gs[i].1),
        adistinct(gs),
        forall|i: int|
            0 <= i < gs.len() ==> assoc(group_close(st)->Ok_0.groups, #[trigger] gs[i].0)
                is None,
    ensures
        decode_lines(st, render_groups(gs), None) is Ok,
        group_close(decode_lines(st, render_groups(gs), None)->Ok_0) == Ok::<
            DecState,
            DecodeError,
        >(
            DecState {
                groups: group_close(st)->Ok_0.groups + gs,
                active_group: None,
                active_key: None,
                domain: st.domain,
                unknown: Seq::empty(),
            },
        ),
    decreases gs.len(),
{
    lemma_close_shape(st);
    let base = group_close(st)->Ok_0;
    if gs.len() == 0 {
        assert(render_groups(gs).len() == 0);
        assert(decode_lines(st, render_groups(gs), None) == Ok::<DecState, DecodeError>(st));
        assert(base =~= DecState {
            groups: base.groups + gs,
            active_group: None,
            active_key: None,
            domain: st.domain,
            unknown: Seq::empty(),
        }) by {
            assert(base.groups + gs =~= base.groups);
            assert(base.unknown =~= Seq::<(Seq<char>, Seq<char>, Seq<char>)>::empty());
        }
    } else {
        let gn0 = gs[0].0;
        let g0 = gs[0].1;
        assert(renderable_group(gs[0].0, gs[0].1));
        assert(group_view_wf(gs[0].1));
        lemma_step_header(st, gn0);
        let st1 = DecState { active_group: Some((gn0, Seq::empty())), ..base };
        let g0v: GroupView = g0;
        lemma_dec_fields(st1, gn0, Seq::empty(), g0v);
        let st2 = if g0v.len() == 0 {
            st1
        } else {
            DecState {
                active_group: Some(
                    (
                        gn0,
                        crate::maps::merge_fields(
                            flush_into(Seq::empty(), st1.active_key),
                            g0v.take(g0v.len() - 1),
                        ),
                    ),
                ),
                active_key: Some((g0v[g0v.len() - 1].0, g0v[g0v.len() - 1].1)),
                ..st1
            }
        };
        // closing the group after its body restores exactly the group
        let full: GroupView = g0v;
        assert(group_close(st2) == Ok::<DecState, DecodeError>(
            DecState {
                groups: crate::maps::gs_absorb(base.groups, gn0, full),
                active_group: None,
                active_key: None,
                ..st2
            },
        )) by {
            if g0v.len() == 0 {
                assert(crate::decoder::flush_key(st2) == Ok::<DecState, DecodeError>(st2));
                assert(st2.unknown.len() == 0);
                assert(crate::decoder::drain_unknown(st2) == Ok::<DecState, DecodeError>(st2));
                assert(full =~= Seq::<(Seq<char>, FieldView)>::empty());
                assert(crate::decoder::flush_group(st2) =~= DecState {
                    groups: crate::maps::gs_absorb(base.groups, gn0, full),
                    active_group: None,
                    active_key: None,
                    ..st2
                });
            } else {
                let merged = crate::maps::merge_fields(
                    flush_into(Seq::empty(), st1.active_key),
                    g0v.take(g0v.len() - 1),
                );
                let lastk = g0v[g0v.len() - 1].0;
                let lastf = g0v[g0v.len() - 1].1;
                assert(flush_into(Seq::empty(), st1.active_key) =~= Seq::<(
                    Seq<char>,
                    FieldView,
                )>::empty());
                let takeg = g0v.take(g0v.len() - 1);
                assert(adistinct(takeg)) by {
                    assert(forall|a: int, b: int|
                        0 <= a < b < takeg.len() ==> takeg[a] == g0v[a] && takeg[b] == g0v[b]);
                }
                assert(forall|i: int|
                    0 <= i < takeg.len() ==> assoc(
                        Seq::<(Seq<char>, FieldView)>::empty(),
                        #[trigger] takeg[i].0,
                    ) is None);
                lemma_merge_append(Seq::empty(), takeg);
                assert(merged =~= takeg);
                assert(assoc(takeg, lastk) is None) by {
                    lemma_assoc_none(takeg, lastk);
                    assert(forall|j: int| 0 <= j < takeg.len() ==> takeg[j] == g0v[j]);
                }
                lemma_aset_push(takeg, lastk, lastf);
                assert(aset(merged, lastk, lastf) == aset(takeg, lastk, lastf));
                assert(aset(takeg, lastk, lastf) =~= takeg.push((lastk, lastf)));
                assert(takeg.push((lastk, lastf)) =~= g0v);
                let st3 = crate::decoder::flush_key(st2)->Ok_0;
                assert(st3 == DecState {
                    active_group: Some((gn0, aset(merged, lastk, lastf))),
                    active_key: None,
                    ..st2
                });
                assert(st3.unknown.len() == 0);
                assert(crate::decoder::drain_unknown(st3) == Ok::<DecState, DecodeError>(st3));
                assert(crate::decoder::flush_group(st3) =~= DecState {
                    groups: crate::maps::gs_absorb(base.groups, gn0, aset(merged, lastk, lastf)),
                    active_group: None,
                    active_key: None,
                    ..st2
                });
                assert(aset(merged, lastk, lastf) == full);
            }
        }
        assert(crate::maps::gs_absorb(base.groups, gn0, full) =~= base.groups.push(
            (gn0, full),
        )) by {
            assert(assoc(base.groups, gn0) is None);
        }
        let rest = gs.drop_first();
        assert(forall|i: int| 0 <= i < rest.len() ==> #[trigger] rest[i] == gs[i + 1]);
        assert(adistinct(rest)) by {
            assert(forall|a: int, b: int|
                0 <= a < b < rest.len() ==> rest[a] == gs[a + 1] && rest[b] == gs[b + 1]);
        }
        assert(group_close(st2)->Ok_0.groups == base.groups.push((gn0, full)));
        assert forall|i: int| 0 <= i < rest.len() implies assoc(
            group_close(st2)->Ok_0.groups,
            #[trigger] rest[i].0,
        ) is None by {
            lemma_assoc_none(base.groups, rest[i].0);
            lemma_assoc_none(base.groups.push((gn0, full)), rest[i].0);
            assert(gs[0].0 != gs[i + 1].0);
            assert(forall|j: int|
                0 <= j < base.groups.push((gn0, full)).len() ==> base.groups.push(
                    (gn0, full),
                )[j] == (if j < base.groups.len() {
                    base.groups[j]
                } else {
                    (gn0, full)
                }));
        }
        lemma_dec_groups(st2, rest);
        // stitch the three line blocks together
        assert(render_groups(gs) == seq![header_line(gn0)] + render_fields(g0v) + render_groups(
            rest,
        ));
        let hl = seq![header_line(gn0)];
        lemma_decode_lines_append(st, hl + render_fields(g0v), render_groups(rest), None);
        lemma_decode_lines_append(st, hl, render_fields(g0v), None);
        assert(decode_lines(st, hl, None) == Ok::<DecState, DecodeError>(st1)) by {
            assert(hl.len() == 1);
            assert(hl[0] == header_line(gn0));
            assert(hl.drop_first() =~= Seq::<Seq<char>>::empty());
            assert(step_line(st, hl[0], None) == Ok::<DecState, DecodeError>(st1));
            assert(decode_lines(st1, hl.drop_first(), None) == Ok::<DecState, DecodeError>(st1));
        }
        assert((hl + render_fields(g0v)) + render_groups(rest) =~= render_groups(gs));
        assert(decode_lines(st1, render_fields(g0v), None) == Ok::<DecState, DecodeError>(st2));
        assert(st2.domain == st.domain);
        assert(group_close(decode_lines(st2, render_groups(rest), None)->Ok_0) == Ok::<
            DecState,
            DecodeError,
        >(
            DecState {
                groups: group_close(st2)->Ok_0.groups + rest,
                active_group: None,
                active_key: None,
                domain: st2.domain,
                unknown: Seq::empty(),
            },
        ));
        assert(base.groups.push((gn0, full)) + rest =~= base.groups + gs);
    }
}

/// A line that survives the line splitter unchanged.
pub open spec fn clean_line(l: Seq<char>) -> bool {
    &&& !l.contains('\n')
    &&& l.len() > 0
    &&& l[l.len() - 1] != '\r'
}

/// Joining lines with newlines.
pub open spec fn join_lines(ls: Seq<Seq<char>>) -> Seq<char>
    decreases ls.len(),
{
    if ls.len() == 0 {
        Seq::empty()
    } else if ls.len() == 1 {
        ls[0]
    } else {
        ls[0] + seq!['\n'] + join_lines(ls.drop_first())
    }
}

/// Splitting joined clean lines gives the lines back.
proof fn lemma_split_join(ls: Seq<Seq<char>>)
    requires
        forall|i: int| 0 <= i < ls.len() ==> clean_line(#[trigger] ls[i]),
    ensures
        spec_lines(join_lines(ls)) == ls,
    decreases ls.len(),
{
    if ls.len() == 0 {
        assert(spec_lines(join_lines(ls)) =~= ls);
    } else if ls.len() == 1 {
        let l = ls[0];
        assert(clean_line(l));
        lemma_find_char(l, '\n', 0);
        assert(spec_find_char(l, '\n', 0) == l.len()) by {
            let f = spec_find_char(l, '\n', 0);
            if f < l.len() {
                assert(l[f] == '\n');
                assert(l.contains('\n'));
            }
        }
        assert(spec_lines(l) =~= seq![l]);
        assert(seq![l] =~= ls);
    } else {
        let l = ls[0];
        let rest = ls.drop_first();
        assert(clean_line(l));
        assert(forall|i: int| 0 <= i < rest.len() ==> #[trigger] rest[i] == ls[i + 1]);
        let s = join_lines(ls);
        assert(s == l + seq!['\n'] + join_lines(rest));
        assert(s.len() > 0) by {
            assert(s.len() == l.len() + 1 + join_lines(rest).len());
        }
        assert forall|i: int| 0 <= i < l.len() implies s[i] != '\n' by {
            assert(s[i] == l[i]);
            if l[i] == '\n' {
                assert(l.contains('\n'));
            }
        }
        assert(s[l.len() as int] == '\n');
        lemma_find_char_at(s, '\n', l.len() as int);
        let f = spec_find_char(s, '\n', 0);
        assert(f == l.len());
        assert(f < s.len());
        assert(s.take(f) =~= l);
        assert(crate::strutil::strip_cr(s.take(f)) == l);
        assert(s.skip(f + 1) =~= join_lines(rest));
        lemma_split_join(rest);
        assert(spec_lines(s) == seq![l] + spec_lines(join_lines(rest)));
        assert(seq![l] + rest =~= ls);
    }
}

/// Every rendered line is clean: non-empty, without newlines, and not
/// ending in a carriage return.
proof fn lemma_kv_clean(kp: Seq<char>, v: Seq<char>)
    requires
        kp.len() > 0,
        !kp.contains('\n'),
    ensures
        clean_line(kv_line(kp, v)),
{
    lemma_render_value_clean(v);
    let line = kv_line(kp, v);
    let rv = render_value(v);
    assert forall|i: int| 0 <= i < line.len() implies line[i] != '\n' by {
        if i < kp.len() {
            assert(line[i] == kp[i]);
            if kp[i] == '\n' {
                assert(kp.contains('\n'));
            }
        } else if i == kp.len() {
            assert(line[i] == '=');
        } else {
            assert(line[i] == rv[i - kp.len() - 1]);
            if rv[i - kp.len() - 1] == '\n' {
                assert(rv.contains('\n'));
            }
        }
    }
    assert(!line.contains('\n')) by {
        if line.contains('\n') {
            let i = choose|i: int| 0 <= i < line.len() && line[i] == '\n';
            assert(line[i] != '\n');
        }
    }
    assert(line.len() > 0);
    assert(line[line.len() - 1] != '\r') by {
        if rv.len() == 0 {
            assert(line[line.len() - 1] == '=');
        } else {
            assert(line[line.len() - 1] == rv[rv.len() - 1]);
            if rv[rv.len() - 1] == '\r' {
                assert(rv.contains('\r'));
            }
        }
    }
}

proof fn lemma_loc_key_clean(k: Seq<char>, l: Seq<char>)
    requires
        !k.contains('\n'),
        !l.contains('\n'),
    ensures
        !loc_key(k, l).contains('\n'),
        loc_key(k, l).len() > 0,
{
    let kp = loc_key(k, l);
    assert forall|i: int| 0 <= i < kp.len() implies kp[i] != '\n' by {
        if i < k.len() {
            assert(kp[i] == k[i]);
            if k[i] == '\n' {
                assert(k.contains('\n'));
            }
        } else if i == k.len() {
            assert(kp[i] == '[');
        } else if i < k.len() + 1 + l.len() {
            assert(kp[i] == l[i - k.len() - 1]);
            if l[i - k.len() - 1] == '\n' {
                assert(l.contains('\n'));
            }
        } else {
            assert(kp[i] == ']');
        }
    }
    if kp.contains('\n') {
        let i = choose|i: int| 0 <= i < kp.len() && kp[i] == '\n';
        assert(kp[i] != '\n');
    }
}

proof fn lemma_field_lines_clean(k: Seq<char>, f: FieldView)
    requires
        renderable_field(k, f),
    ensures
        forall|i: int|
            0 <= i < render_field_lines(k, f).len() ==> clean_line(
                #[trigger] render_field_lines(k, f)[i],
            ),
{
    let lines = render_field_lines(k, f);
    assert forall|i: int| 0 <= i < lines.len() implies clean_line(lines[i]) by {
        if i == 0 {
            lemma_kv_clean(k, f.default_value);
        } else {
            let p = f.locales[i - 1];
            assert(renderable_locale(p.0));
            lemma_loc_key_clean(k, p.0);
            lemma_kv_clean(loc_key(k, p.0), p.1);
            assert(lines[i] == kv_line(loc_key(k, p.0), p.1));
        }
    }
}

proof fn lemma_fields_lines_clean(g: GroupView)
    requires
        forall|i: int| 0 <= i < g.len() ==> renderable_field(g[i].0, #[trigger] g[i].1),
    ensures
        forall|i: int|
            0 <= i < render_fields(g).len() ==> clean_line(#[trigger] render_fields(g)[i]),
    decreases g.len(),
{
    if g.len() > 0 {
        lemma_field_lines_clean(g[0].0, g[0].1);
        assert(forall|i: int|
            0 <= i < g.drop_first().len() ==> #[trigger] g.drop_first()[i] == g[i + 1]);
        lemma_fields_lines_clean(g.drop_first());
        let head = render_field_lines(g[0].0, g[0].1);
        let lines = render_fields(g);
        assert forall|i: int| 0 <= i < lines.len() implies clean_line(lines[i]) by {
            if i < head.len() {
                assert(lines[i] == head[i]);
            } else {
                assert(lines[i] == render_fields(g.drop_first())[i - head.len()]);
            }
        }
    }
}

proof fn lemma_groups_lines_clean(gs: GroupsView)
    requires
        forall|i: int| 0 <= i < gs.len() ==> renderable_group(gs[i].0, #[trigger] gs[i].1),
    ensures
        forall|i: int|
            0 <= i < render_groups(gs).len() ==> clean_line(#[trigger] render_groups(gs)[i]),
    decreases gs.len(),
{
    if gs.len() > 0 {
        assert(renderable_group(gs[0].0, gs[0].1));
        let hd = header_line(gs[0].0);
        assert(clean_line(hd)) by {
            assert forall|i: int| 0 <= i < hd.len() implies hd[i] != '\n' by {
                if i == 0 {
                } else if i == hd.len() - 1 {
                } else {
                    assert(hd[i] == gs[0].0[i - 1]);
                    if gs[0].0[i - 1] == '\n' {
                        assert(gs[0].0.contains('\n'));
                    }
                }
            }
            if hd.contains('\n') {
                let i = choose|i: int| 0 <= i < hd.len() && hd[i] == '\n';
                assert(hd[i] != '\n');
            }
            assert(hd[hd.len() - 1] == ']');
        }
        lemma_fields_lines_clean(gs[0].1);
        assert(forall|i: int|
            0 <= i < gs.drop_first().len() ==> #[trigger] gs.drop_first()[i] == gs[i + 1]);
        lemma_groups_lines_clean(gs.drop_first());
        let body = render_fields(gs[0].1);
        let lines = render_groups(gs);
        assert forall|i: int| 0 <= i < lines.len() implies clean_line(lines[i]) by {
            if i == 0 {
                assert(lines[0] == hd);
            } else if i < 1 + body.len() {
                assert(lines[i] == body[i - 1]);
            } else {
                assert(lines[i] == render_groups(gs.drop_first())[i - 1 - body.len()]);
            }
        }
    }
}

/// The rendered text of a whole document.
pub open spec fn render_entry_text(ev: EntryView) -> Seq<char> {
    join_lines(render_entry_lines(ev))
}

/// Rendering a document and decoding the result restores its groups and
/// its translation domain exactly, for every renderable document.
pub proof fn lemma_render_round_trip(ev: EntryView)
    requires
        renderable(ev),
    ensures
        decode_text(render_entry_text(ev), None) == Ok::<
            (GroupsView, Option<Seq<char>>),
            DecodeError,
        >((ev.groups, ev.ubuntu_gettext_domain)),
{
    let lines = render_entry_lines(ev);
    // the splitter recovers the rendered lines
    lemma_groups_lines_clean(ev.groups);
    assert forall|i: int| 0 <= i < lines.len() implies clean_line(#[trigger] lines[i]) by {
        match ev.ubuntu_gettext_domain {
            Some(d) => {
                if i == 0 {
                    reveal_strlit("X-Ubuntu-Gettext-Domain");
                    assert(domain_key().len() == 23);
                    assert(!domain_key().contains('\n')) by {
                        if domain_key().contains('\n') {
                            let t = choose|t: int|
                                0 <= t < domain_key().len() && domain_key()[t] == '\n';
                            assert(domain_key()[t] != '\n');
                        }
                    }
                    lemma_kv_clean(domain_key(), d);
                    assert(lines[0] == kv_line(domain_key(), d));
                } else {
                    assert(lines[i] == render_groups(ev.groups)[i - 1]);
                }
            },
            None => {
                assert(lines[i] == render_groups(ev.groups)[i]);
            },
        }
    }
    lemma_split_join(lines);
    // decode the lines
    let st0 = st_init();
    assert(group_close(st0) == Ok::<DecState, DecodeError>(st0));
    let std = match ev.ubuntu_gettext_domain {
        Some(d) => DecState { domain: Some(d), ..st0 },
        None => st0,
    };
    assert(group_close(std) == Ok::<DecState, DecodeError>(std));
    assert(adistinct(ev.groups));
    assert forall|i: int| 0 <= i < ev.groups.len() implies group_view_wf(
        #[trigger] ev.groups[i].1,
    ) by {}
    assert forall|i: int| 0 <= i < ev.groups.len() implies assoc(
        group_close(std)->Ok_0.groups,
        #[trigger] ev.groups[i].0,
    ) is None by {
        assert(group_close(std)->Ok_0.groups.len() == 0);
    }
    lemma_dec_groups(std, ev.groups);
    match ev.ubuntu_gettext_domain {
        Some(d) => {
            lemma_step_domain(st0, d);
            let gl = render_groups(ev.groups);
            assert(lines == seq![kv_line(domain_key(), d)] + gl);
            lemma_decode_lines_append(st0, seq![kv_line(domain_key(), d)], gl, None);
            assert(decode_lines(st0, seq![kv_line(domain_key(), d)], None) == Ok::<
                DecState,
                DecodeError,
            >(std)) by {
                let one = seq![kv_line(domain_key(), d)];
                assert(one.len() == 1);
                assert(one[0] == kv_line(domain_key(), d));
                assert(one.drop_first() =~= Seq::<Seq<char>>::empty());
                assert(step_line(st0, one[0], None) == Ok::<DecState, DecodeError>(std));
                assert(decode_lines(std, one.drop_first(), None) == Ok::<DecState, DecodeError>(
                    std,
                ));
            }
            let stf = decode_lines(std, gl, None)->Ok_0;
            assert(decode_lines(st0, lines, None) == Ok::<DecState, DecodeError>(stf));
            assert(group_close(stf)->Ok_0.groups =~= ev.groups) by {
                assert(group_close(std)->Ok_0.groups + ev.groups =~= ev.groups);
            }
            assert(group_close(stf)->Ok_0.domain == Some(d));
        },
        None => {
            assert(lines =~= render_groups(ev.groups));
            let stf = decode_lines(std, render_groups(ev.groups), None)->Ok_0;
            assert(decode_lines(st0, lines, None) == Ok::<DecState, DecodeError>(stf));
            assert(group_close(stf)->Ok_0.groups =~= ev.groups) by {
                assert(group_close(std)->Ok_0.groups + ev.groups =~= ev.groups);
            }
        },
    }
}

/// Joining grows line by line.
proof fn lemma_join_push(ls: Seq<Seq<char>>, i: int)
    requires
        0 <= i < ls.len(),
    ensures
        join_lines(ls.take(i + 1)) == (if i == 0 {
            ls[0]
        } else {
            join_lines(ls.take(i)) + seq!['\n'] + ls[i]
        }),
    decreases i,
{
    if i == 0 {
        assert(ls.take(1).len() == 1);
        assert(ls.take(1)[0] == ls[0]);
    } else if i == 1 {
        assert(ls.take(2).len() == 2);
        assert(ls.take(2)[0] == ls[0]);
        assert(ls.take(2).drop_first() =~= seq![ls[1]]);
        assert(join_lines(seq![ls[1]]) == ls[1]) by {
            assert(seq![ls[1]].len() == 1);
            assert(seq![ls[1]][0] == ls[1]);
        }
        assert(ls.take(1) =~= seq![ls[0]]);
        assert(join_lines(ls.take(1)) == ls[0]) by {
            assert(ls.take(1).len() == 1);
            assert(ls.take(1)[0] == ls[0]);
        }
    } else {
        let drop = ls.drop_first();
        lemma_join_push(drop, i - 1);
        assert(ls.take(i + 1).len() == i + 1);
        assert(ls.take(i + 1)[0] == ls[0]);
        assert(ls.take(i + 1).drop_first() =~= drop.take(i));
        assert(ls.take(i).len() == i);
        assert(ls.take(i)[0] == ls[0]);
        assert(ls.take(i).drop_first() =~= drop.take(i - 1));
        assert(drop[i - 1] == ls[i]);
        assert(join_lines(ls.take(i + 1)) == ls[0] + seq!['\n'] + join_lines(drop.take(i)));
        assert(join_lines(ls.take(i)) == ls[0] + seq!['\n'] + join_lines(drop.take(i - 1)));
        assert(ls[0] + seq!['\n'] + (join_lines(drop.take(i - 1)) + seq!['\n'] + drop[i - 1])
            =~= (ls[0] + seq!['\n'] + join_lines(drop.take(i - 1))) + seq!['\n'] + ls[i]);
    }
}

/// Append the rendered form of a value to a line under construction.
fn append_value(out: &mut String, v: &str)
    ensures
        final(out)@ == old(out)@ + render_value(v@),
{
    let ghost out0 = old(out)@;
    let ghost target = render_value(v@);
    let len = v.unicode_len();
    if len > 0 && v.get_char(0) == ' ' {
        out.push(' ');
    }
    let ghost mid = out@;
    proof {
        assert(out0 + target =~= mid + escape_seq(v@));
    }
    let mut i: usize = 0;
    proof {
        assert(v@.skip(0) =~= v@);
    }
    while i < len
        invariant
            i <= len,
            len == v@.len(),
            out0 + target == mid + escape_seq(v@),
            mid + escape_seq(v@) == out@ + escape_seq(v@.skip(i as int)),
        decreases len - i,
    {
        let c = v.get_char(i);
        let ghost pre = v@.skip(i as int);
        let ghost before = out@;
        proof {
            assert(pre[0] == c);
            assert(pre.drop_first() =~= v@.skip(i as int + 1));
        }
        if c == '\\' {
            out.push('\\');
            out.push('\\');
        } else if c == '\n' {
            out.push('\\');
            out.push('n');
        } else if c == '\t' {
            out.push('\\');
            out.push('t');
        } else if c == '\r' {
            out.push('\\');
            out.push('r');
        } else {
            out.push(c);
        }
        proof {
            assert(out@ =~= before + crate::value::escape_char(c));
            assert(escape_seq(pre) == crate::value::escape_char(c) + escape_seq(
                pre.drop_first(),
            ));
            assert(before + (crate::value::escape_char(c) + escape_seq(pre.drop_first())) =~= (
            before + crate::value::escape_char(c)) + escape_seq(pre.drop_first()));
        }
        i += 1;
    }
    proof {
        assert(escape_seq(v@.skip(len as int)) =~= Seq::<char>::empty());
        assert(out@ + Seq::<char>::empty() =~= out@);
        assert(out@ =~= out0 + target);
    }
}

/// Build one `key=value` line.
fn make_kv_line(keypart: &str, v: &str) -> (r: String)
    ensures
        r@ == kv_line(keypart@, v@),
{
    let mut out = String::from_str(keypart);
    out.push('=');
    append_value(&mut out, v);
    proof {
        assert(out@ =~= kv_line(keypart@, v@));
    }
    out
}

/// Push one field's lines.
fn push_field_lines(lines: &mut Vec<String>, key: &String, field: &Field)
    ensures
        final(lines)@.map_values(|l: String| l@) == old(lines)@.map_values(|l: String| l@)
            + render_field_lines(key@, field@),
{
    let ghost base = old(lines)@.map_values(|l: String| l@);
    let ghost target = render_field_lines(key@, field@);
    lines.push(make_kv_line(key.as_str(), field.default_value.as_str()));
    let ghost locl = field@.locales.map_values(
        |p: (Seq<char>, Seq<char>)| kv_line(loc_key(key@, p.0), p.1),
    );
    proof {
        assert(lines@.map_values(|l: String| l@) =~= base + seq![kv_line(
            key@,
            field@.default_value,
        )]);
        assert(target =~= seq![kv_line(key@, field@.default_value)] + locl);
    }
    let n = field.locales.len();
    let mut i: usize = 0;
    proof {
        assert(lines@.map_values(|l: String| l@) =~= base + target.take(1));
    }
    while i < n
        invariant
            i <= n,
            n == field@.locales.len(),
            locl == field@.locales.map_values(
                |p: (Seq<char>, Seq<char>)| kv_line(loc_key(key@, p.0), p.1),
            ),
            target == render_field_lines(key@, field@),
            target == seq![kv_line(key@, field@.default_value)] + locl,
            lines@.map_values(|l: String| l@) == base + target.take(1 + i as int),
        decreases n - i,
    {
        let pair = field.locales.pair(i);
        let mut kp = String::from_str(key.as_str());
        kp.push('[');
        kp.append(pair.0.as_str());
        kp.push(']');
        proof {
            assert(kp@ =~= loc_key(key@, field@.locales[i as int].0));
        }
        let ghost before = lines@.map_values(|l: String| l@);
        lines.push(make_kv_line(kp.as_str(), pair.1.as_str()));
        proof {
            assert(lines@.map_values(|l: String| l@) =~= before.push(kv_line(
                loc_key(key@, field@.locales[i as int].0),
                field@.locales[i as int].1,
            )));
            assert(locl[i as int] == kv_line(
                loc_key(key@, field@.locales[i as int].0),
                field@.locales[i as int].1,
            ));
            assert(before.push(locl[i as int]) =~= base + target.take(1 + i as int + 1)) by {
                assert(target[1 + i as int] == locl[i as int]);
            }
        }
        i += 1;
    }
    proof {
        assert(target.take(1 + n as int) =~= target);
    }
}

/// Push one group's lines: its header, then its fields.
fn push_group_lines(lines: &mut Vec<String>, name: &String, group: &Group)
    ensures
        final(lines)@.map_values(|l: String| l@) == old(lines)@.map_values(|l: String| l@) + (
        seq![header_line(name@)] + render_fields(group@)),
{
    let ghost base = old(lines)@.map_values(|l: String| l@);
    let mut h = String::from_str("[");
    h.append(name.as_str());
    h.push(']');
    proof {
        reveal_strlit("[");
        assert(h@ =~= header_line(name@));
    }
    lines.push(h);
    proof {
        assert(lines@.map_values(|l: String| l@) =~= base + seq![header_line(name@)]);
    }
    let ghost mid = lines@.map_values(|l: String| l@);
    let n = group.len();
    let mut i: usize = 0;
    proof {
        assert(group@.skip(0) =~= group@);
        assert(mid + render_fields(group@) =~= base + (seq![header_line(name@)]
            + render_fields(group@)));
    }
    while i < n
        invariant
            i <= n,
            n == group@.len(),
            mid + render_fields(group@) == lines@.map_values(|l: String| l@) + render_fields(
                group@.skip(i as int),
            ),
            mid + render_fields(group@) == base + (seq![header_line(name@)] + render_fields(
                group@,
            )),
        decreases n - i,
    {
        let pair = group.pair(i);
        let ghost rest = group@.skip(i as int);
        let ghost before = lines@.map_values(|l: String| l@);
        proof {
            assert(rest[0] == group@[i as int]);
            assert(rest.drop_first() =~= group@.skip(i as int + 1));
        }
        push_field_lines(lines, pair.0, pair.1);
        proof {
            assert(render_fields(rest) == render_field_lines(group@[i as int].0, group@[i as int].1)
                + render_fields(rest.drop_first()));
            assert((before + render_field_lines(group@[i as int].0, group@[i as int].1))
                + render_fields(rest.drop_first()) =~= before + (render_field_lines(
                group@[i as int].0,
                group@[i as int].1,
            ) + render_fields(rest.drop_first())));
        }
        i += 1;
    }
    proof {
        assert(render_fields(group@.skip(n as int)) =~= Seq::<Seq<char>>::empty());
        assert(lines@.map_values(|l: String| l@) + Seq::<Seq<char>>::empty() =~= lines@.map_values(
            |l: String| l@,
        ));
    }
}

impl DesktopEntry {
    /// Render the document back to the line format: the translation-domain
    /// directive if one is set, then every group with its fields and their
    /// localized values, newline-separated.
    pub fn to_entry_text(&self) -> (r: String)
        ensures
            r@ == render_entry_text(self@),
    {
        let mut lines: Vec<String> = Vec::new();
        match &self.ubuntu_gettext_domain {
            Some(d) => {
                lines.push(make_kv_line("X-Ubuntu-Gettext-Domain", d.as_str()));
                proof {
                    assert(lines@.map_values(|l: String| l@) =~= seq![kv_line(domain_key(), d@)]);
                }
            },
            None => {
                proof {
                    assert(lines@.map_values(|l: String| l@) =~= Seq::<Seq<char>>::empty());
                }
            },
        }
        let ghost head = lines@.map_values(|l: String| l@);
        let n = self.groups.len();
        let mut i: usize = 0;
        proof {
            assert(self@.groups.skip(0) =~= self@.groups);
        }
        while i < n
            invariant
                i <= n,
                n == self@.groups.len(),
                head + render_groups(self@.groups) == lines@.map_values(|l: String| l@)
                    + render_groups(self@.groups.skip(i as int)),
                head == (match self@.ubuntu_gettext_domain {
                    Some(d) => seq![kv_line(domain_key(), d)],
                    None => Seq::<Seq<char>>::empty(),
                }),
            decreases n - i,
        {
            let pair = self.groups.pair(i);
            let ghost rest = self@.groups.skip(i as int);
            let ghost before = lines@.map_values(|l: String| l@);
            proof {
                assert(rest[0] == self@.groups[i as int]);
                assert(rest.drop_first() =~= self@.groups.skip(i as int + 1));
            }
            push_group_lines(&mut lines, pair.0, pair.1);
            proof {
                assert(render_groups(rest) == seq![header_line(self@.groups[i as int].0)]
                    + render_fields(self@.groups[i as int].1) + render_groups(rest.drop_first()));
                assert((before + (seq![header_line(self@.groups[i as int].0)] + render_fields(
                    self@.groups[i as int].1,
                ))) + render_groups(rest.drop_first()) =~= before + (seq![header_line(
                    self@.groups[i as int].0,
                )] + render_fields(self@.groups[i as int].1) + render_groups(rest.drop_first())));
            }
            i += 1;
        }
        proof {
            assert(render_groups(self@.groups.skip(n as int)) =~= Seq::<Seq<char>>::empty());
            assert(lines@.map_values(|l: String| l@) + Seq::<Seq<char>>::empty()
                =~= lines@.map_values(|l: String| l@));
            assert(lines@.map_values(|l: String| l@) =~= render_entry_lines(self@));
        }
        // join the lines with newlines
        let ghost lsv = lines@.map_values(|l: String| l@);
        let m = lines.len();
        let mut out = String::new();
        let mut j: usize = 0;
        proof {
            assert(lsv.take(0) =~= Seq::<Seq<char>>::empty());
            assert(out@ =~= join_lines(lsv.take(0)));
        }
        while j < m
            invariant
                j <= m,
                m == lines@.len(),
                lsv == lines@.map_values(|l: String| l@),
                out@ == join_lines(lsv.take(j as int)),
            decreases m - j,
        {
            let ghost before = out@;
            if j > 0 {
                out.push('\n');
            }
            out.append(lines[j].as_str());
            proof {
                lemma_join_push(lsv, j as int);
                if j == 0 {
                    assert(out@ =~= lsv[0]);
                } else {
                    assert(out@ =~= (join_lines(lsv.take(j as int)) + seq!['\n']) + lsv[
                    j as int]);
                    assert((join_lines(lsv.take(j as int)) + seq!['\n']) + lsv[j as int]
                        =~= join_lines(lsv.take(j as int)) + seq!['\n'] + lsv[j as int]);
                }
            }
            j += 1;
        }
        proof {
            assert(lsv.take(m as int) =~= lsv);
        }
        out
    }
}

/// One locale line with no matching pending key, decoded: the triple joins
/// the deferred-resolution buffer.
proof fn lemma_step_locale_unknown(st: DecState, k: Seq<char>, l: Seq<char>, v: Seq<char>)
    requires
        renderable_key(k),
        renderable_locale(l),
        match st.active_key {
            Some((ak, _)) => ak != k,
            None => true,
        },
    ensures
        step_line(st, kv_line(loc_key(k, l), v), None) == Ok::<DecState, DecodeError>(
            DecState { unknown: st.unknown.push((k, l, v)), ..st },
        ),
{
    let kp = loc_key(k, l);
    let line = kv_line(kp, v);
    let rv = render_value(v);
    assert(kp.len() == k.len() + 1 + l.len() + 1);
    assert(line.len() == kp.len() + 1 + rv.len());
    assert forall|i: int| 0 <= i < kp.len() implies line[i] == kp[i] by {}
    assert forall|i: int| 0 <= i < k.len() implies kp[i] == k[i] by {}
    assert(kp[k.len() as int] == '[');
    assert forall|i: int| 0 <= i < l.len() implies kp[k.len() + 1 + i] == l[i] by {}
    assert(kp[kp.len() - 1] == ']');
    assert(line[kp.len() as int] == '=');
    lemma_trim_id(k);
    assert(line[0] == k[0]);
    lemma_trim_nonblank(line);
    assert(!crate::decoder::is_blank_line(line));
    assert(k[0] != '[') by {
        if k[0] == '[' {
            assert(k.contains('['));
        }
    }
    assert forall|i: int| 0 <= i < kp.len() implies line[i] != '=' by {
        if i < k.len() {
            if k[i] == '=' {
                assert(k.contains('='));
            }
        } else if i == k.len() {
        } else if i < k.len() + 1 + l.len() {
            if l[i - k.len() - 1] == '=' {
                assert(l.contains('='));
            }
        } else {
            assert(i == kp.len() - 1);
        }
    }
    lemma_find_char_at(line, '=', kp.len() as int);
    let d = spec_find_char(line, '=', 0);
    assert(d == kp.len());
    let key = line.take(d);
    assert(key =~= kp);
    assert(line.skip(d + 1) =~= rv);
    lemma_render_value_round(v);
    assert(key[key.len() - 1] == ']');
    assert forall|i: int| 0 <= i < k.len() implies key[i] != '[' by {
        if k[i] == '[' {
            assert(k.contains('['));
        }
    }
    assert(key[k.len() as int] == '[');
    lemma_find_char_at(key, '[', k.len() as int);
    assert(key.subrange(k.len() as int + 1, key.len() - 1) =~= l);
    assert(key.take(k.len() as int) =~= k);
    assert(!crate::decoder::filter_discards(None::<Seq<Seq<char>>>, l));
}

/// A locale-qualified key that appears in the text before its default-value
/// counterpart still ends up attached to that key's locale map: the
/// document with a header, then the localized line, then the default line
/// decodes to exactly the one group holding the one key with its one
/// localized value.
pub proof fn lemma_locale_before_default(
    gn: Seq<char>,
    k: Seq<char>,
    l: Seq<char>,
    lv: Seq<char>,
    dv: Seq<char>,
)
    requires
        !gn.contains('\n'),
        renderable_key(k),
        renderable_locale(l),
    ensures
        decode_text(
            join_lines(
                seq![
                    header_line(gn),
                    kv_line(loc_key(k, l), lv),
                    kv_line(k, dv),
                ],
            ),
            None,
        ) == Ok::<(GroupsView, Option<Seq<char>>), DecodeError>(
            (
                seq![
                    (
                        gn,
                        seq![
                            (
                                k,
                                FieldView {
                                    default_value: dv,
                                    locales: seq![(l, lv)],
                                },
                            ),
                        ],
                    ),
                ],
                None,
            ),
        ),
{
    let hl = header_line(gn);
    let ll = kv_line(loc_key(k, l), lv);
    let kl = kv_line(k, dv);
    let lines = seq![hl, ll, kl];
    // the splitter recovers the three lines
    assert forall|i: int| 0 <= i < lines.len() implies clean_line(#[trigger] lines[i]) by {
        if i == 0 {
            assert forall|t: int| 0 <= t < hl.len() implies hl[t] != '\n' by {
                if t == 0 {
                } else if t == hl.len() - 1 {
                } else {
                    assert(hl[t] == gn[t - 1]);
                    if gn[t - 1] == '\n' {
                        assert(gn.contains('\n'));
                    }
                }
            }
            if hl.contains('\n') {
                let t = choose|t: int| 0 <= t < hl.len() && hl[t] == '\n';
                assert(hl[t] != '\n');
            }
            assert(hl[hl.len() - 1] == ']');
        } else if i == 1 {
            lemma_loc_key_clean(k, l);
            lemma_kv_clean(loc_key(k, l), lv);
        } else {
            lemma_kv_clean(k, dv);
        }
    }
    lemma_split_join(lines);
    let st0 = st_init();
    assert(group_close(st0) == Ok::<DecState, DecodeError>(st0));
    lemma_step_header(st0, gn);
    let st1 = DecState { active_group: Some((gn, Seq::empty())), ..st0 };
    assert(step_line(st0, hl, None) == Ok::<DecState, DecodeError>(st1));
    lemma_step_locale_unknown(st1, k, l, lv);
    let st2 = DecState { unknown: st1.unknown.push((k, l, lv)), ..st1 };
    assert(step_line(st1, ll, None) == Ok::<DecState, DecodeError>(st2));
    lemma_step_key_line(st2, k, dv);
    assert(crate::decoder::flush_key(st2) == Ok::<DecState, DecodeError>(st2));
    let f0 = FieldView { default_value: dv, locales: Seq::empty() };
    let st3 = DecState { active_key: Some((k, f0)), ..st2 };
    assert(step_line(st2, kl, None) == Ok::<DecState, DecodeError>(st3));
    // the whole fold
    assert(decode_lines(st0, lines, None) == Ok::<DecState, DecodeError>(st3)) by {
        let r1 = lines.drop_first();
        let r2 = r1.drop_first();
        let r3 = r2.drop_first();
        assert(lines[0] == hl);
        assert(r1[0] == ll);
        assert(r2[0] == kl);
        assert(r3 =~= Seq::<Seq<char>>::empty());
        assert(decode_lines(st3, r3, None) == Ok::<DecState, DecodeError>(st3));
        assert(decode_lines(st2, r2, None) == Ok::<DecState, DecodeError>(st3));
        assert(decode_lines(st1, r1, None) == Ok::<DecState, DecodeError>(st3));
    }
    // closing: the pending key joins the group, then the buffered locale
    // line resolves against it
    let g1: GroupView = seq![(k, f0)];
    assert(crate::decoder::flush_key(st3) == Ok::<DecState, DecodeError>(
        DecState { active_group: Some((gn, g1)), active_key: None, ..st3 },
    )) by {
        assert(aset(Seq::<(Seq<char>, FieldView)>::empty(), k, f0) =~= g1);
    }
    let st4 = DecState { active_group: Some((gn, g1)), active_key: None, ..st3 };
    let f1 = FieldView { default_value: dv, locales: seq![(l, lv)] };
    let g2: GroupView = seq![(k, f1)];
    assert(crate::decoder::drain_unknown(st4) == Ok::<DecState, DecodeError>(
        DecState { active_group: Some((gn, g2)), unknown: Seq::empty(), ..st4 },
    )) by {
        assert(st4.unknown.len() == 1);
        assert(st4.unknown[0] == (k, l, lv));
        assert(assoc(g1, k) == Some(f0)) by {
            assert(g1[0] == (k, f0));
        }
        assert(aset(f0.locales, l, lv) =~= seq![(l, lv)]);
        assert(aset(g1, k, f1) =~= g2) by {
            assert(g1[0].0 == k);
        }
        let st5 = DecState {
            active_group: Some((gn, g2)),
            unknown: st4.unknown.drop_first(),
            ..st4
        };
        assert(st5.unknown.len() == 0);
        assert(crate::decoder::drain_unknown(st5) == Ok::<DecState, DecodeError>(st5));
        assert(st4.unknown.drop_first() =~= Seq::<(Seq<char>, Seq<char>, Seq<char>)>::empty());
        assert(st5 =~= DecState { active_group: Some((gn, g2)), unknown: Seq::empty(), ..st4 });
    }
    let st6 = DecState { active_group: Some((gn, g2)), unknown: Seq::empty(), ..st4 };
    assert(group_close(st3) == Ok::<DecState, DecodeError>(
        crate::decoder::flush_group(st6),
    ));
    assert(crate::decoder::flush_group(st6) == DecState {
        groups: crate::maps::gs_absorb(st6.groups, gn, g2),
        active_group: None,
        ..st6
    });
    assert(crate::maps::gs_absorb(st6.groups, gn, g2) =~= seq![(gn, g2)]) by {
        assert(st6.groups.len() == 0);
        assert(assoc(st6.groups, gn) is None);
    }
}

} // verus!
