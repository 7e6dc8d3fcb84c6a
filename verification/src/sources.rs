//! Where an icon or an entry file comes from.

use vstd::prelude::*;

verus! {

/// An icon reference: a theme name, or an absolute path on disk.
#[derive(Debug, Clone, PartialEq, Eq)]
pub enum IconSource {
    Name(String),
    Path(String),
}

impl IconSource {
    /// Classify an icon reference: an absolute path that is present on disk
    /// is a path, anything else a theme name.  The caller reports whether
    /// the path exists, since only it can look at the disk.
    pub fn from_unknown(icon: &str, exists_on_disk: bool) -> (r: IconSource)
        ensures
            (icon@.len() > 0 && icon@[0] == '/' && exists_on_disk) ==> (r matches IconSource::Path(
                p,
            ) && p@ == icon@),
            !(icon@.len() > 0 && icon@[0] == '/' && exists_on_disk) ==> (r
                matches IconSource::Name(n) && n@ == icon@),
    {
        let len = icon.unicode_len();
        if len > 0 && icon.get_char(0) == '/' && exists_on_disk {
            IconSource::Path(String::from_str(icon))
        } else {
            IconSource::Name(String::from_str(icon))
        }
    }
}

impl Default for IconSource {
    /// The generic application icon name.
    fn default() -> (r: Self)
        ensures
            r matches IconSource::Name(n) && n@ == "application-default"@,
    {
        IconSource::Name(String::from_str("application-default"))
    }
}

/// Which installation area an entry file was found in.
#[derive(Debug, Clone, Hash, PartialEq, Eq)]
pub enum PathSource {
    Local,
    LocalDesktop,
    LocalFlatpak,
    LocalNix,
    Nix,
    System,
    SystemLocal,
    SystemFlatpak,
    SystemSnap,
    Other(String),
}

} // verus!
