//! Which entries of a directory tree are walked and which files are
//! indexed.
use vstd::prelude::*;
use crate::parse::{extension_of, path_extension};
use crate::text::str_eq;

verus! {

/// The file extensions of the sources a project is indexed from.
pub open spec fn is_source_extension(e: Seq<char>) -> bool {
    e == "ts"@ || e == "js"@ || e == "tsx"@ || e == "jsx"@
}

/// Whether the file at `path` is a source to index: its extension is
/// `ts`, `js`, `tsx` or `jsx`.
pub fn is_source_file(path: &str) -> (r: bool)
    ensures
        r == (path_extension(path@) matches Some(e) && is_source_extension(e)),
{
    match extension_of(path) {
        Some(e) => {
            let e = e.as_str();
            str_eq(e, "ts") || str_eq(e, "js") || str_eq(e, "tsx") || str_eq(e, "jsx")
        },
        None => false,
    }
}

/// Whether a directory entry is walked into or kept: anything but
/// `node_modules`.
pub fn is_walked_entry(name: &str) -> (r: bool)
    ensures
        r == (name@ != "node_modules"@),
{
    !str_eq(name, "node_modules")
}

} // verus!
