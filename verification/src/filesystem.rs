//! Access to files, as the apply engine and the search see it.

pub mod errors;
pub mod memory;

use vstd::prelude::*;
use crate::filesystem::errors::FilesystemError;
use crate::text::bytes_of;

verus! {

/// What the apply engine and the search ask of a file system. Callers bring
/// their own: one that goes to the disk, or `memory::MemoryFS`.
///
/// A file system is a store of files that changes only through its own
/// `write_string`. It says which files it holds, with their bytes, and
/// which of them can be read and written; its methods answer as it says.
/// Whoever brings a file system answers for that: what is proved of the
/// apply engine and of the search is proved of such a store. Of a file
/// system that does not say what it holds, nothing is known.
pub trait FileSystem {
    /// The files that the file system holds, each with its bytes.
    open spec fn holds(&self) -> Map<Seq<char>, Seq<u8>> {
        arbitrary()
    }

    /// True when the file at the path can be read as text.
    open spec fn readable(&self, path: Seq<char>) -> bool {
        arbitrary()
    }

    /// True when a text can be written to the path.
    open spec fn writable(&self, path: Seq<char>) -> bool {
        arbitrary()
    }

    /// True when something stands at the path, a file or anything else.
    open spec fn stands(&self, path: Seq<char>) -> bool {
        arbitrary()
    }

    /// The path on the disk that `path` stands for, where the files live on
    /// a disk.
    open spec fn on_disk(&self, path: Seq<char>) -> Option<Seq<char>> {
        arbitrary()
    }

    /// The text of a file: of a file that can be read, the bytes that the
    /// file system holds for it.
    fn read_to_string(&self, path: &str) -> (r: Result<String, FilesystemError>)
        ensures
            r is Ok <==> self.readable(path@),
            r matches Ok(text) ==> self.holds().dom().contains(path@) && bytes_of(text@)
                == self.holds()[path@],
    ;

    /// Puts `content` in place of what the file holds. A write that fails
    /// leaves every file as it was; no write changes what can be read or
    /// written at another path.
    fn write_string(&mut self, path: &str, content: &str) -> (r: Result<(), FilesystemError>)
        ensures
            r is Ok <==> old(self).writable(path@),
            r is Ok ==> final(self).holds() == old(self).holds().insert(
                path@,
                bytes_of(content@),
            ),
            r is Err ==> final(self).holds() == old(self).holds(),
            forall|other: Seq<char>|
                #![trigger final(self).readable(other)]
                #![trigger final(self).writable(other)]
                other != path@ ==> final(self).readable(other) == old(self).readable(other)
                    && final(self).writable(other) == old(self).writable(other),
    ;

    /// The path on the disk that `path` stands for, where the files live on
    /// a disk.
    fn as_real_path(&self, path: &str) -> (r: Option<String>)
        ensures
            match r {
                Some(on_disk) => self.on_disk(path@) == Some(on_disk@),
                None => self.on_disk(path@) is None,
            },
    ;

    /// True when something stands at the path.
    fn path_exists(&self, path: &str) -> (b: bool)
        ensures
            b == self.stands(path@),
    ;

    /// True when a file stands at the path.
    fn is_file(&self, path: &str) -> (b: bool)
        ensures
            b == self.holds().dom().contains(path@),
    ;
}

} // verus!

