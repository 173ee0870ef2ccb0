//! How paths given on the command line are resolved.

use vstd::prelude::*;

verus! {

/// What to do to resolve a path.
#[derive(Debug, Clone, Copy, PartialEq, Eq, Structural)]
pub enum Resolution {
    /// Take it as it is.
    Keep,
    /// Join it onto the current directory.
    JoinCurrentDir,
    /// Ask the file system for its canonical form.
    Canonicalize,
}

/// How to resolve the path of a tree that may be missing: one that exists has a canonical form;
/// a missing one is only made absolute.
pub fn resolve_path_allow_missing(exists: bool, is_absolute: bool) -> (r: Resolution)
    ensures
        r is Canonicalize <==> exists,
        r is Keep <==> !exists && is_absolute,
        r is JoinCurrentDir <==> !exists && !is_absolute,
{
    if exists {
        return Resolution::Canonicalize;
    }
    if is_absolute {
        return Resolution::Keep;
    }
    Resolution::JoinCurrentDir
}

/// How to make the path of an ignore file absolute, before its canonical form is asked for.
pub fn resolve_ignore_path(is_absolute: bool) -> (r: Resolution)
    ensures
        r is Keep <==> is_absolute,
        r is JoinCurrentDir <==> !is_absolute,
{
    if is_absolute {
        Resolution::Keep
    } else {
        Resolution::JoinCurrentDir
    }
}

} // verus!
