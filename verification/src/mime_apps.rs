//! Reading MIME-association lists: the same grouped key/value model, whose
//! keys are MIME identifiers and whose values list desktop file names.

use crate::entry::split_term;
use crate::maps::{group_or_empty, GroupView, Groups};
use vstd::prelude::*;

verus! {

/// Whether a text parses as a MIME identifier.  The grammar belongs to the
/// outside parser; only the outcome is named here.
pub uninterp spec fn mime_ok(s: Seq<char>) -> bool;

/// Relies on `mime_guess::Mime`'s `FromStr` parse: deterministic in the
/// text alone; `Some` exactly on well-formed MIME identifiers.
#[verifier::external_body]
fn parse_mime(s: &str) -> (r: Option<mime_guess::Mime>)
    ensures
        r is Some == mime_ok(s@),
{
    s.parse::<mime_guess::Mime>().ok()
}

/// The outside MIME type, opaque to the verifier.
#[verifier::external_type_specification]
#[verifier::external_body]
pub struct ExMime(mime_guess::Mime);

/// The (key, value) pairs of a group whose keys are well-formed MIME
/// identifiers, in order.
pub open spec fn mime_pairs(g: GroupView) -> Seq<(Seq<char>, Seq<char>)>
    decreases g.len(),
{
    if g.len() == 0 {
        Seq::empty()
    } else {
        let rest = mime_pairs(g.drop_first());
        if mime_ok(g[0].0) {
            seq![(g[0].0, g[0].1.default_value)] + rest
        } else {
            rest
        }
    }
}

/// One `;`-separated list of desktop file names.
pub struct MimeValue<'a>(pub &'a String);

impl<'a> MimeValue<'a> {
    /// The individual desktop file names, a trailing empty piece dropped.
    pub fn filenames(&self) -> (r: Vec<String>)
        ensures
            r@.map_values(|s: String| s@) == split_term(self.0@),
    {
        let mut parts = crate::locale::split_value(self.0.as_str());
        let last = parts.len() - 1;
        if parts[last].as_str().unicode_len() == 0 {
            let ghost p0 = parts@.map_values(|s: String| s@);
            parts.pop();
            proof {
                assert(parts@.map_values(|s: String| s@) =~= p0.drop_last());
            }
        }
        parts
    }
}

/// A decoded MIME-association list.
#[derive(Debug)]
pub struct MimeApps {
    pub path: String,
    pub groups: Groups,
}

impl MimeApps {
    /// The pairs of one association group whose keys are well-formed MIME
    /// identifiers, each with its parsed MIME type.
    fn entries(&self, group: &str) -> (r: Vec<(mime_guess::Mime, String)>)
        ensures
            ({
                let ps = mime_pairs(group_or_empty(self.groups@, group@));
                r@.len() == ps.len() && forall|i: int| 0 <= i < ps.len() ==> #[trigger] r@[i].1@
                    == ps[i].1
            }),
    {
        let mut out: Vec<(mime_guess::Mime, String)> = Vec::new();
        let g = match self.groups.group(group) {
            Some(g) => g,
            None => {
                proof {
                    assert(group_or_empty(self.groups@, group@)
                        =~= Seq::<(Seq<char>, crate::maps::FieldView)>::empty());
                }
                return out;
            },
        };
        let n = g.len();
        let mut i: usize = n;
        proof {
            assert(g@.skip(n as int) =~= Seq::<(Seq<char>, crate::maps::FieldView)>::empty());
        }
        while i > 0
            invariant
                i <= n,
                n == g@.len(),
                ({
                    let ps = mime_pairs(g@.skip(i as int));
                    out@.len() == ps.len() && forall|k: int| 0 <= k < ps.len() ==> #[trigger] out@[
                    k].1@ == ps[k].1
                }),
            decreases i,
        {
            i -= 1;
            let ghost before = mime_pairs(g@.skip(i as int + 1));
            let pair = g.pair(i);
            proof {
                assert(g@.skip(i as int)[0] == g@[i as int]);
                assert(g@.skip(i as int).drop_first() =~= g@.skip(i as int + 1));
            }
            match parse_mime(pair.0.as_str()) {
                Some(m) => {
                    let ghost o0 = out@;
                    let mut out2: Vec<(mime_guess::Mime, String)> = Vec::new();
                    out2.push((m, pair.1.default_value.clone()));
                    out2.append(&mut out);
                    out = out2;
                    proof {
                        let ps = mime_pairs(g@.skip(i as int));
                        assert(ps =~= seq![(g@[i as int].0, g@[i as int].1.default_value)]
                            + before);
                        assert(out@.len() == 1 + o0.len());
                        assert forall|k: int| 0 <= k < ps.len() implies #[trigger] out@[k].1@
                            == ps[k].1 by {
                            if k == 0 {
                                assert(out@[0].1@ == g@[i as int].1.default_value);
                            } else {
                                assert(out@[k] == o0[k - 1]);
                                assert(ps[k] == before[k - 1]);
                            }
                        }
                    }
                },
                None => (),
            }
        }
        proof {
            assert(g@.skip(0) =~= g@);
        }
        out
    }

    /// The default applications group's well-formed associations.
    pub fn default_applications(&self) -> (r: Vec<(mime_guess::Mime, String)>)
        ensures
            ({
                let ps = mime_pairs(group_or_empty(self.groups@, "Default Applications"@));
                r@.len() == ps.len() && forall|i: int| 0 <= i < ps.len() ==> #[trigger] r@[i].1@
                    == ps[i].1
            }),
    {
        self.entries("Default Applications")
    }

    /// The added associations group's well-formed associations.
    pub fn added_associations(&self) -> (r: Vec<(mime_guess::Mime, String)>)
        ensures
            ({
                let ps = mime_pairs(group_or_empty(self.groups@, "Added Associations"@));
                r@.len() == ps.len() && forall|i: int| 0 <= i < ps.len() ==> #[trigger] r@[i].1@
                    == ps[i].1
            }),
    {
        self.entries("Added Associations")
    }

    /// The removed associations group's well-formed associations.
    pub fn removed_associations(&self) -> (r: Vec<(mime_guess::Mime, String)>)
        ensures
            ({
                let ps = mime_pairs(group_or_empty(self.groups@, "Removed Associations"@));
                r@.len() == ps.len() && forall|i: int| 0 <= i < ps.len() ==> #[trigger] r@[i].1@
                    == ps[i].1
            }),
    {
        self.entries("Removed Associations")
    }
}

} // verus!
