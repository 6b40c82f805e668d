//! The files that a search visits.

pub mod simple;

use vstd::prelude::*;

verus! {

/// The texts of a run of strings.
pub open spec fn texts(strings: Seq<String>) -> Seq<Seq<char>> {
    strings.map_values(|s: String| s@)
}

/// What a search asks of a walker: the paths of the files to search, and no
/// directories. Callers bring their own: one that walks the disk, or
/// `simple::SimpleWalker`. A walker says which paths it names, and `files`
/// gives those; whoever brings a walker answers for that.
pub trait Walker {
    /// The paths that the walker names, in its order.
    open spec fn names(&self) -> Seq<Seq<char>> {
        arbitrary()
    }

    /// The files to search.
    fn files(&self) -> (files: Vec<String>)
        ensures
            texts(files@) == self.names(),
    ;
}

} // verus!
