//! Conversion of file-system paths to `file://` URIs.
//!
//! The conversion itself is done by the `url` crate (re-exported by
//! `languageserver_types`); the library names its results so contracts can
//! speak about them.

use vstd::prelude::*;

verus! {

/// The string rendering of the `file://` URL that `url::Url::from_file_path`
/// builds for an absolute path. A function of the path alone.
pub uninterp spec fn uri_of(path: Seq<char>) -> Seq<char>;

/// The string rendering of the `file://` URL, with a trailing slash, that
/// `url::Url::from_directory_path` builds for an absolute path. A function
/// of the path alone.
pub uninterp spec fn dir_uri_of(path: Seq<char>) -> Seq<char>;

/// A path this platform treats as absolute: it starts with a root
/// separator. This is Unix path semantics; on Windows the `url` crate
/// calls a `/`-rooted path non-absolute, so the contracts below hold
/// per-Unix, which is the platform this tool targets.
pub open spec fn is_absolute_path(s: Seq<char>) -> bool {
    s.len() > 0 && s[0] == '/'
}

/// Relies on `url::Url::from_file_path` (through the `languageserver_types`
/// re-export): it returns `Ok` exactly for absolute paths, and the URL it
/// builds, rendered by `to_string`, depends on the path alone.
#[verifier::external_body]
pub(crate) fn file_uri(path: &str) -> (r: String)
    requires
        is_absolute_path(path@),
    ensures
        r@ == uri_of(path@),
{
    match languageserver_types::Url::from_file_path(path) {
        Ok(u) => u.to_string(),
        Err(()) => String::new(),
    }
}

/// Relies on `url::Url::from_directory_path` (through the
/// `languageserver_types` re-export): it returns `Ok` exactly for absolute
/// paths, and the URL it builds, rendered by `to_string`, depends on the
/// path alone.
#[verifier::external_body]
pub(crate) fn directory_uri(path: &str) -> (r: String)
    requires
        is_absolute_path(path@),
    ensures
        r@ == dir_uri_of(path@),
{
    match languageserver_types::Url::from_directory_path(path) {
        Ok(u) => u.to_string(),
        Err(()) => String::new(),
    }
}

} // verus!
