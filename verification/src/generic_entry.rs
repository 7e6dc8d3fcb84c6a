//! A looser reading of the same line format: groups of plain key/value
//! pairs, where a repeated group name replaces the earlier group outright,
//! lines outside any group are ignored, and locale qualifiers get no
//! special treatment.

use crate::decoder::DecodeError;
use crate::maps::{aset, assoc, Field, FieldView, Group, GroupView, Groups, GroupsView};
use crate::strutil::{
    find_char, lemma_find_char, lemma_rfind_char, rfind_char, spec_find_char, spec_lines,
    spec_rfind_char, spec_trim, split_lines, trim,
};
use crate::value::{format_value, strip_leading_space, unescape_seq};
use vstd::prelude::*;

verus! {

/// The view of the group being filled.
pub open spec fn ag_view(o: &Option<(String, Group)>) -> Option<(Seq<char>, GroupView)> {
    match o {
        Some(p) => Some((p.0@, p.1@)),
        None => None,
    }
}

/// The state between lines: closed groups, and the group being filled.
pub struct GenState {
    pub groups: GroupsView,
    pub active: Option<(Seq<char>, GroupView)>,
}

/// One line applied to the state.
pub open spec fn gen_step(st: GenState, line: Seq<char>) -> Result<GenState, DecodeError> {
    if spec_trim(line).len() == 0 || (line.len() > 0 && line[0] == '#') {
        Ok(st)
    } else if line[0] == '[' {
        let j = spec_rfind_char(line, ']', line.len() as int);
        if j < 0 {
            Ok(st)
        } else {
            let name = line.subrange(1, j);
            let gs = match st.active {
                Some((n, g)) => aset(st.groups, n, g),
                None => st.groups,
            };
            Ok(GenState { groups: gs, active: Some((name, Seq::empty())) })
        }
    } else {
        let d = spec_find_char(line, '=', 0);
        if d == line.len() {
            Ok(st)
        } else {
            let key = line.take(d);
            let raw = line.skip(d + 1);
            match unescape_seq(strip_leading_space(raw)) {
                None => Err(DecodeError::InvalidValue),
                Some(value) => {
                    if key.len() == 0 {
                        Err(DecodeError::InvalidKey)
                    } else {
                        match st.active {
                            Some((n, g)) => Ok(
                                GenState {
                                    groups: st.groups,
                                    active: Some(
                                        (
                                            n,
                                            aset(
                                                g,
                                                key,
                                                FieldView {
                                                    default_value: value,
                                                    locales: Seq::empty(),
                                                },
                                            ),
                                        ),
                                    ),
                                },
                            ),
                            None => Ok(st),
                        }
                    }
                },
            }
        }
    }
}

/// The fold of `gen_step` over a line list, closing the last group at the
/// end.
pub open spec fn gen_lines(st: GenState, lines: Seq<Seq<char>>) -> Result<GenState, DecodeError>
    decreases lines.len(),
{
    if lines.len() == 0 {
        Ok(st)
    } else {
        match gen_step(st, lines[0]) {
            Err(e) => Err(e),
            Ok(st1) => gen_lines(st1, lines.drop_first()),
        }
    }
}

/// What decoding a whole text yields under the loose reading.
pub open spec fn gen_decode(text: Seq<char>) -> Result<GroupsView, DecodeError> {
    match gen_lines(GenState { groups: Seq::empty(), active: None }, spec_lines(text)) {
        Err(e) => Err(e),
        Ok(st) => Ok(
            match st.active {
                Some((n, g)) => aset(st.groups, n, g),
                None => st.groups,
            },
        ),
    }
}

/// A document decoded under the loose reading.
#[derive(Debug)]
pub struct GenericEntry {
    pub path: String,
    pub groups: Groups,
}

impl GenericEntry {
    pub open spec fn wf(&self) -> bool {
        crate::maps::groups_view_wf(self.groups@)
    }

    /// Retrieve a group under its header name.
    pub fn group<'a>(&'a self, key: &str) -> (r: Option<&'a Group>)
        ensures
            match r {
                Some(g) => assoc(self.groups@, key@) == Some(g@),
                None => assoc(self.groups@, key@) is None,
            },
    {
        self.groups.group(key)
    }

    /// Decode a document from its source path and text.
    pub fn from_str(path: String, input: &str) -> (r: Result<GenericEntry, DecodeError>)
        ensures
            match r {
                Ok(e) => gen_decode(input@) == Ok::<GroupsView, DecodeError>(e.groups@) && e.path@
                    == path@ && e.wf(),
                Err(err) => gen_decode(input@) == Err::<GroupsView, DecodeError>(err),
            },
    {
        let lines = split_lines(input);
        let ghost linesv = lines@.map_values(|l: String| l@);
        let mut groups = Groups::new();
        let mut active: Option<(String, Group)> = None;
        let ghost st0 = GenState { groups: Seq::empty(), active: None };
        let n = lines.len();
        let mut i: usize = 0;
        proof {
            assert(linesv.skip(0) =~= linesv);
        }
        while i < n
            invariant
                i <= n,
                n == lines@.len(),
                linesv == lines@.map_values(|l: String| l@),
                linesv == spec_lines(input@),
                groups.wf(),
                (match ag_view(&active) {
                    Some(p) => crate::maps::group_view_wf(p.1),
                    None => true,
                }),
                gen_lines(st0, linesv) == gen_lines(
                    GenState { groups: groups@, active: ag_view(&active) },
                    linesv.skip(i as int),
                ),
                st0 == (GenState { groups: Seq::<(Seq<char>, GroupView)>::empty(), active: None::<(Seq<char>, GroupView)> }),
            decreases n - i,
        {
            let ghost stc = GenState { groups: groups@, active: ag_view(&active) };
            let ghost restv = linesv.skip(i as int);
            proof {
                assert(restv[0] == lines@[i as int]@);
                assert(restv.drop_first() =~= linesv.skip(i as int + 1));
            }
            let line = lines[i].as_str();
            let llen = line.unicode_len();
            let trimmed = trim(line);
            if trimmed.unicode_len() == 0 {
                i += 1;
                continue ;
            }
            let c0 = line.get_char(0);
            if c0 == '#' {
                i += 1;
                continue ;
            }
            if c0 == '[' {
                match rfind_char(line, ']', llen) {
                    None => {
                        proof {
                            assert(gen_step(stc, restv[0]) == Ok::<GenState, DecodeError>(stc));
                        }
                    },
                    Some(j) => {
                        proof {
                            lemma_rfind_char(line@, ']', line@.len() as int);
                            assert(line@[j as int] == ']');
                            assert(j != 0);
                        }
                        let name = line.substring_char(1, j);
                        match active.take() {
                            Some(p) => {
                                groups.insert_group(p.0, p.1);
                            },
                            None => (),
                        }
                        active = Some((String::from_str(name), Group::new()));
                        proof {
                            assert(name@ =~= line@.subrange(1, j as int));
                        }
                    },
                }
                i += 1;
                continue ;
            }
            let d = find_char(line, '=', 0);
            proof {
                lemma_find_char(line@, '=', 0);
            }
            if d >= llen {
                i += 1;
                continue ;
            }
            let key = line.substring_char(0, d);
            let raw = line.substring_char(d + 1, llen);
            proof {
                assert(key@ =~= line@.take(d as int));
                assert(raw@ =~= line@.skip(d as int + 1));
            }
            let value = match format_value(raw) {
                Ok(v) => v,
                Err(e) => {
                    return Err(e);
                },
            };
            if key.unicode_len() == 0 {
                return Err(DecodeError::InvalidKey);
            }
            match &mut active {
                Some(p) => {
                    p.1.insert(String::from_str(key), Field::plain(value));
                },
                None => (),
            }
            i += 1;
        }
        proof {
            assert(linesv.skip(n as int).len() == 0);
            assert(linesv.skip(n as int) =~= Seq::<Seq<char>>::empty());
        }
        match active.take() {
            Some(p) => {
                groups.insert_group(p.0, p.1);
            },
            None => (),
        }
        Ok(GenericEntry { path, groups })
    }
}

} // verus!
