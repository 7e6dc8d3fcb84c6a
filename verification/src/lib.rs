//! A verified decoder and matcher for freedesktop "desktop entry" style
//! documents: line-oriented, INI-like text grouped into named sections whose
//! keys carry a default value and optional locale-qualified overrides.
//!
//! The crate decodes such documents into a grouped key/value model, resolves
//! fields against ordered locale preferences, and ranks entries against
//! free-text or identifier queries.

pub mod decoder;
pub mod entry;
pub mod exec;
pub mod generic_entry;
pub mod locale;
pub mod maps;
pub mod matching;
pub mod mime_apps;
pub mod owned;
pub mod query;
pub mod render;
pub mod similarity;
pub mod sources;
pub mod strutil;
pub mod thumbnail;
pub mod value;

pub use decoder::DecodeError;
pub use entry::DesktopEntry;
pub use exec::ExecError;
pub use generic_entry::GenericEntry;
pub use locale::Translator;
pub use maps::{Field, Group, Groups, LocaleMap};
pub use matching::{best_identifier_match, find_app_by_id, find_entry_from_appid, MatchOptions};
pub use mime_apps::{MimeApps, MimeValue};
pub use owned::DesktopEntryBuf;
pub use sources::{IconSource, PathSource};
pub use thumbnail::Thumbnail;

use vstd::prelude::*;

verus! {

/// A group's name in a document.
pub type GroupName = String;

/// A key inside a group.
pub type Key = String;

/// A locale tag qualifying a key.
pub type Locale = String;

/// A key's value.
pub type Value = String;

} // verus!
