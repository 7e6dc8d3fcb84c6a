//! Reading thumbnailer definitions: a thin view over the grouped key/value
//! model with a fixed primary group name.

use crate::entry::{g_entry, split_term};
use crate::maps::Groups;
use vstd::prelude::*;

verus! {

/// The name of the primary group of a thumbnailer document.
pub open spec fn th_group_name() -> Seq<char> {
    "Thumbnailer Entry"@
}

/// A decoded thumbnailer definition.
#[derive(Debug)]
pub struct Thumbnail {
    pub path: String,
    pub groups: Groups,
}

impl Thumbnail {
    /// A key's default value in the thumbnailer group.
    pub fn thumbnailer_entry<'a>(&'a self, key: &str) -> (r: Option<&'a str>)
        ensures
            match r {
                Some(v) => g_entry(self.groups@, th_group_name(), key@) == Some(v@),
                None => g_entry(self.groups@, th_group_name(), key@) is None,
            },
    {
        match self.groups.thumbnailer_entry() {
            Some(g) => g.entry(key),
            None => None,
        }
    }

    /// The thumbnailer's command line.
    pub fn exec<'a>(&'a self) -> (r: Option<&'a str>)
        ensures
            match r {
                Some(v) => g_entry(self.groups@, th_group_name(), "Exec"@) == Some(v@),
                None => g_entry(self.groups@, th_group_name(), "Exec"@) is None,
            },
    {
        self.thumbnailer_entry("Exec")
    }

    /// The executable whose presence marks the thumbnailer as installed.
    pub fn try_exec<'a>(&'a self) -> (r: Option<&'a str>)
        ensures
            match r {
                Some(v) => g_entry(self.groups@, th_group_name(), "TryExec"@) == Some(v@),
                None => g_entry(self.groups@, th_group_name(), "TryExec"@) is None,
            },
    {
        self.thumbnailer_entry("TryExec")
    }

    /// The MIME types the thumbnailer handles.
    pub fn mime_type(&self) -> (r: Option<Vec<String>>)
        ensures
            match r {
                Some(v) => g_entry(self.groups@, th_group_name(), "MimeType"@) matches Some(val)
                    && v@.map_values(|s: String| s@) == split_term(val),
                None => g_entry(self.groups@, th_group_name(), "MimeType"@) is None,
            },
    {
        match self.thumbnailer_entry("MimeType") {
            Some(v) => {
                let mut parts = crate::locale::split_value(v);
                let last = parts.len() - 1;
                if parts[last].as_str().unicode_len() == 0 {
                    let ghost p0 = parts@.map_values(|s: String| s@);
                    parts.pop();
                    proof {
                        assert(parts@.map_values(|s: String| s@) =~= p0.drop_last());
                    }
                }
                Some(parts)
            },
            None => None,
        }
    }
}

} // verus!
