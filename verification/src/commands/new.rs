//! What a new site is made of.

use vstd::prelude::*;
use crate::commands::site::strings_view;

verus! {

/// The names of the directories of a site: for the markdown files, for the
/// layouts and for the files that are copied as they are.
pub open spec fn site_dirs() -> Seq<Seq<char>> {
    seq!["content"@, "layouts"@, "resources"@]
}

/// The directories that a new site starts with.
pub fn get_site_dirs() -> (dirs: Vec<String>)
    ensures
        strings_view(dirs@) == site_dirs(),
{
    let mut dirs: Vec<String> = Vec::new();
    dirs.push("content".to_owned());
    dirs.push("layouts".to_owned());
    dirs.push("resources".to_owned());
    assert(strings_view(dirs@) =~= site_dirs());
    dirs
}

} // verus!
