//! A file system that lives in memory: files are entries of a table.

use vstd::prelude::*;
use vstd::utf8::*;
use crate::filesystem::errors::FilesystemError;
use crate::filesystem::FileSystem;
use crate::text::{append_range, bytes_of, same_text, str_bytes, try_string};

verus! {

/// A file system in memory. It holds files only, each under the path it was
/// added with.
pub struct MemoryFS {
    files: Vec<(String, Vec<u8>)>,
}

/// What the table holds under a path: the content of the first entry that
/// has the path.
pub open spec fn lookup(files: Seq<(String, Vec<u8>)>, path: Seq<char>) -> Option<Seq<u8>>
    decreases files.len(),
{
    if files.len() == 0 {
        None
    } else if files[0].0@ == path {
        Some(files[0].1@)
    } else {
        lookup(files.drop_first(), path)
    }
}

/// The files of a table: what each path holds.
pub open spec fn files_of(files: Seq<(String, Vec<u8>)>) -> Map<Seq<char>, Seq<u8>> {
    Map::new(
        |path: Seq<char>| lookup(files, path) is Some,
        |path: Seq<char>| lookup(files, path)->Some_0,
    )
}

/// No entry before `i` has the path.
pub open spec fn none_before(files: Seq<(String, Vec<u8>)>, path: Seq<char>, i: int) -> bool {
    forall|j: int| 0 <= j < i && j < files.len() ==> (#[trigger] files[j]).0@ != path
}

/// A table holds under a path what its first entry of that path holds, and
/// nothing where no entry has the path.
proof fn lemma_lookup_at(files: Seq<(String, Vec<u8>)>, path: Seq<char>, i: int)
    requires
        0 <= i <= files.len(),
        none_before(files, path, i),
        i < files.len() ==> files[i].0@ == path,
    ensures
        lookup(files, path) == if i < files.len() {
            Some(files[i].1@)
        } else {
            None
        },
    decreases files.len(),
{
    if files.len() > 0 && i > 0 {
        let rest = files.drop_first();
        assert(files[0].0@ != path);
        assert forall|j: int| 0 <= j < i - 1 && j < rest.len() implies (#[trigger] rest[j]).0@
            != path by {
            assert(rest[j] == files[j + 1]);
        }
        lemma_lookup_at(rest, path, i - 1);
    }
}

/// Entries of other paths do not change what a table holds under a path.
proof fn lemma_lookup_update(
    files: Seq<(String, Vec<u8>)>,
    i: int,
    entry: (String, Vec<u8>),
    path: Seq<char>,
)
    requires
        0 <= i < files.len(),
        files[i].0@ == entry.0@,
        entry.0@ != path,
    ensures
        lookup(files.update(i, entry), path) == lookup(files, path),
    decreases files.len(),
{
    let after = files.update(i, entry);
    if i > 0 {
        assert(after[0] == files[0]);
        assert(after.drop_first() =~= files.drop_first().update(i - 1, entry));
        lemma_lookup_update(files.drop_first(), i - 1, entry, path);
    } else {
        assert(after.drop_first() =~= files.drop_first());
    }
}

/// What a table holds once an entry stands behind its entries.
proof fn lemma_lookup_push(
    files: Seq<(String, Vec<u8>)>,
    entry: (String, Vec<u8>),
    path: Seq<char>,
)
    ensures
        lookup(files.push(entry), path) == match lookup(files, path) {
            Some(held) => Some(held),
            None => if entry.0@ == path {
                Some(entry.1@)
            } else {
                None
            },
        },
    decreases files.len(),
{
    let after = files.push(entry);
    if files.len() > 0 {
        assert(after[0] == files[0]);
        assert(after.drop_first() =~= files.drop_first().push(entry));
        lemma_lookup_push(files.drop_first(), entry, path);
    } else {
        assert(after[0] == entry);
        assert(after.drop_first() =~= Seq::<(String, Vec<u8>)>::empty());
        assert(lookup(after.drop_first(), path) is None);
    }
}

/// Taking out an entry of another path does not change what a table holds
/// under a path.
proof fn lemma_lookup_remove(files: Seq<(String, Vec<u8>)>, i: int, path: Seq<char>)
    requires
        0 <= i < files.len(),
        files[i].0@ != path,
    ensures
        lookup(files.remove(i), path) == lookup(files, path),
    decreases files.len(),
{
    let after = files.remove(i);
    if i > 0 {
        assert(after[0] == files[0]);
        assert(after.drop_first() =~= files.drop_first().remove(i - 1));
        lemma_lookup_remove(files.drop_first(), i - 1, path);
    } else {
        assert(after =~= files.drop_first());
    }
}

impl View for MemoryFS {
    type V = Map<Seq<char>, Seq<u8>>;

    closed spec fn view(&self) -> Map<Seq<char>, Seq<u8>> {
        files_of(self.files@)
    }
}

impl MemoryFS {
    /// A file system without files.
    pub fn new() -> (fs: MemoryFS)
        ensures
            fs@ == Map::<Seq<char>, Seq<u8>>::empty(),
    {
        let fs = MemoryFS { files: Vec::new() };
        assert(fs@ =~= Map::<Seq<char>, Seq<u8>>::empty());
        fs
    }

    /// The place of the first entry that has the path.
    fn position(&self, path: &str) -> (r: Option<usize>)
        ensures
            match r {
                Some(i) => i < self.files@.len() && self.files@[i as int].0@ == path@
                    && none_before(self.files@, path@, i as int) && lookup(self.files@, path@)
                    == Some(self.files@[i as int].1@),
                None => none_before(self.files@, path@, self.files@.len() as int) && lookup(
                    self.files@,
                    path@,
                ) is None,
            },
    {
        let mut i: usize = 0;
        while i < self.files.len()
            invariant
                i <= self.files@.len(),
                none_before(self.files@, path@, i as int),
            decreases self.files@.len() - i,
        {
            if same_text(self.files[i].0.as_str(), path) {
                proof {
                    lemma_lookup_at(self.files@, path@, i as int);
                }
                return Some(i);
            }
            i = i + 1;
        }
        proof {
            lemma_lookup_at(self.files@, path@, i as int);
        }
        None
    }

    /// Adds a file with the given bytes, in place of the file that the path
    /// named before, if it named one.
    pub fn add_file_bytes(&mut self, path: &str, content: &[u8]) -> (r: Result<
        (),
        FilesystemError,
    >)
        ensures
            r is Ok,
            final(self)@ == old(self)@.insert(path@, content@),
    {
        let mut bytes: Vec<u8> = Vec::new();
        append_range(&mut bytes, content, 0, content.len());
        assert(bytes@ =~= content@);
        let ghost before = self.files@;
        let name = path.to_owned();
        let ghost entry = (name, bytes);
        match self.position(path) {
            Some(i) => {
                self.files.set(i, (name, bytes));
                proof {
                    let after = self.files@;
                    assert(after == before.update(i as int, entry));
                    assert(none_before(after, path@, i as int)) by {
                        assert forall|j: int| 0 <= j < i && j < after.len() implies (
                        #[trigger] after[j]).0@ != path@ by {
                            assert(after[j] == before[j]);
                        }
                    }
                    lemma_lookup_at(after, path@, i as int);
                    assert forall|p: Seq<char>| p != path@ implies lookup(after, p) == lookup(
                        before,
                        p,
                    ) by {
                        lemma_lookup_update(before, i as int, entry, p);
                    }
                    assert(files_of(after) =~= files_of(before).insert(path@, content@));
                }
            },
            None => {
                self.files.push((name, bytes));
                proof {
                    let after = self.files@;
                    assert forall|p: Seq<char>| lookup(after, p) == (if p == path@ {
                        Some(content@)
                    } else {
                        lookup(before, p)
                    }) by {
                        lemma_lookup_push(before, entry, p);
                    }
                    assert(files_of(after) =~= files_of(before).insert(path@, content@));
                }
            },
        }
        Ok(())
    }

    /// Adds a file with the given text.
    pub fn add_file(&mut self, path: &str, content: &str) -> (r: Result<(), FilesystemError>)
        ensures
            r is Ok,
            final(self)@ == old(self)@.insert(path@, bytes_of(content@)),
    {
        self.add_file_bytes(path, str_bytes(content))
    }

    /// Removes the file that the path names; fails where it names none.
    pub fn remove_file(&mut self, path: &str) -> (r: Result<(), FilesystemError>)
        ensures
            final(self)@ == old(self)@.remove(path@),
            old(self)@.dom().contains(path@) ==> r is Ok,
            !old(self)@.dom().contains(path@) ==> (r matches Err(
                FilesystemError::FileNotFound { path: p },
            ) && p@ == path@),
    {
        let ghost before = self.files@;
        let mut found = false;
        loop
            invariant
                forall|p: Seq<char>| p != path@ ==> lookup(self.files@, p) == lookup(before, p),
                found ==> lookup(before, path@) is Some,
                !found ==> lookup(self.files@, path@) == lookup(before, path@),
            ensures
                forall|p: Seq<char>| p != path@ ==> lookup(self.files@, p) == lookup(before, p),
                lookup(self.files@, path@) is None,
                found <==> lookup(before, path@) is Some,
            decreases self.files@.len(),
        {
            match self.position(path) {
                None => {
                    break ;
                },
                Some(i) => {
                    let ghost held = self.files@;
                    self.files.remove(i);
                    found = true;
                    proof {
                        assert forall|p: Seq<char>| p != path@ implies lookup(self.files@, p)
                            == lookup(before, p) by {
                            lemma_lookup_remove(held, i as int, p);
                        }
                    }
                },
            }
        }
        assert(files_of(self.files@) =~= files_of(before).remove(path@));
        if found {
            Ok(())
        } else {
            Err(FilesystemError::FileNotFound { path: path.to_owned() })
        }
    }

    /// Removes every file.
    pub fn clear(&mut self)
        ensures
            final(self)@ == Map::<Seq<char>, Seq<u8>>::empty(),
    {
        self.files.clear();
        assert(self@ =~= Map::<Seq<char>, Seq<u8>>::empty());
    }

    /// The text of the file that the path names: the file must be there, and
    /// it must hold valid UTF-8.
    pub fn read_file(&self, path: &str) -> (r: Result<String, FilesystemError>)
        ensures
            match r {
                Ok(text) => self@.dom().contains(path@) && bytes_of(text@) == self@[path@],
                Err(FilesystemError::FileNotFound { path: p }) => p@ == path@
                    && !self@.dom().contains(path@),
                Err(FilesystemError::InvalidUtf8 { path: p }) => p@ == path@
                    && self@.dom().contains(path@) && !valid_utf8(self@[path@]),
                Err(_) => false,
            },
    {
        match self.position(path) {
            None => Err(FilesystemError::FileNotFound { path: path.to_owned() }),
            Some(i) => {
                let stored: &Vec<u8> = &self.files[i].1;
                let mut bytes: Vec<u8> = Vec::new();
                append_range(&mut bytes, stored.as_slice(), 0, stored.len());
                assert(bytes@ =~= stored@);
                match try_string(bytes) {
                    Some(text) => Ok(text),
                    None => Err(FilesystemError::InvalidUtf8 { path: path.to_owned() }),
                }
            },
        }
    }

    /// True when the path names a file.
    pub fn has_file(&self, path: &str) -> (b: bool)
        ensures
            b == self@.dom().contains(path@),
    {
        self.position(path).is_some()
    }
}

impl Default for MemoryFS {
    fn default() -> (fs: MemoryFS)
        ensures
            fs@ == Map::<Seq<char>, Seq<u8>>::empty(),
    {
        MemoryFS::new()
    }
}

impl FileSystem for MemoryFS {
    /// The files of the table.
    open spec fn holds(&self) -> Map<Seq<char>, Seq<u8>> {
        self@
    }

    /// A file can be read where the table has it and its bytes are text.
    open spec fn readable(&self, path: Seq<char>) -> bool {
        self@.dom().contains(path) && valid_utf8(self@[path])
    }

    /// Every path can be written.
    open spec fn writable(&self, path: Seq<char>) -> bool {
        true
    }

    /// Nothing but files stands in the table.
    open spec fn stands(&self, path: Seq<char>) -> bool {
        self@.dom().contains(path)
    }

    /// Files in memory stand for no path on a disk.
    open spec fn on_disk(&self, path: Seq<char>) -> Option<Seq<char>> {
        None
    }

    /// The text of the file that the path names, as `read_file` gives it.
    fn read_to_string(&self, path: &str) -> (r: Result<String, FilesystemError>)
        ensures
            match r {
                Ok(text) => self@.dom().contains(path@) && bytes_of(text@) == self@[path@],
                Err(FilesystemError::FileNotFound { path: p }) => p@ == path@
                    && !self@.dom().contains(path@),
                Err(FilesystemError::InvalidUtf8 { path: p }) => p@ == path@
                    && self@.dom().contains(path@) && !valid_utf8(self@[path@]),
                Err(_) => false,
            },
    {
        let r = self.read_file(path);
        proof {
            if r is Ok {
                encode_utf8_valid_utf8(r->Ok_0@);
            }
        }
        r
    }

    /// Puts a file with the given text in place of what the path named.
    fn write_string(&mut self, path: &str, content: &str) -> (r: Result<(), FilesystemError>)
        ensures
            r is Ok,
            final(self)@ == old(self)@.insert(path@, bytes_of(content@)),
    {
        self.add_file(path, content)
    }

    /// Files in memory stand for no path on a disk.
    fn as_real_path(&self, path: &str) -> (r: Option<String>)
        ensures
            r is None,
    {
        None
    }

    /// True when the path names a file.
    fn path_exists(&self, path: &str) -> (b: bool)
        ensures
            b == self@.dom().contains(path@),
    {
        self.has_file(path)
    }

    /// True when the path names a file: the file system holds files only.
    fn is_file(&self, path: &str) -> (b: bool)
        ensures
            b == self@.dom().contains(path@),
    {
        self.has_file(path)
    }
}

} // verus!
