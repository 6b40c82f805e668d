//! A walker that visits the files it was given.

use vstd::prelude::*;
use crate::walker::{Walker, texts};

verus! {

/// A walker over a fixed list of files.
pub struct SimpleWalker {
    files: Vec<String>,
}

/// The texts of a run of string slices.
pub open spec fn slice_texts(strings: Seq<&str>) -> Seq<Seq<char>> {
    strings.map_values(|s: &str| s@)
}

impl View for SimpleWalker {
    type V = Seq<Seq<char>>;

    closed spec fn view(&self) -> Seq<Seq<char>> {
        texts(self.files@)
    }
}

impl SimpleWalker {
    /// A walker over the given files, in the given order.
    pub fn new(files: Vec<String>) -> (walker: SimpleWalker)
        ensures
            walker@ == texts(files@),
    {
        SimpleWalker { files }
    }

    /// A walker over the files that the given paths name.
    pub fn from_paths(paths: &[&str]) -> (walker: SimpleWalker)
        ensures
            walker@ == slice_texts(paths@),
    {
        let mut files: Vec<String> = Vec::new();
        let mut i: usize = 0;
        while i < paths.len()
            invariant
                i <= paths@.len(),
                texts(files@) == slice_texts(paths@).subrange(0, i as int),
            decreases paths@.len() - i,
        {
            let ghost before = texts(files@);
            files.push(paths[i].to_owned());
            proof {
                assert(texts(files@) =~= before.push(paths@[i as int]@));
                assert(slice_texts(paths@).subrange(0, i + 1) =~= slice_texts(paths@).subrange(
                    0,
                    i as int,
                ).push(paths@[i as int]@));
            }
            i = i + 1;
        }
        assert(slice_texts(paths@).subrange(0, paths@.len() as int) =~= slice_texts(paths@));
        SimpleWalker { files }
    }

    /// The files of the walker, in their order.
    pub fn list(&self) -> (files: Vec<String>)
        ensures
            texts(files@) == self@,
    {
        let mut files: Vec<String> = Vec::new();
        let mut i: usize = 0;
        while i < self.files.len()
            invariant
                i <= self.files@.len(),
                texts(files@) == texts(self.files@).subrange(0, i as int),
            decreases self.files@.len() - i,
        {
            let ghost before = texts(files@);
            files.push(self.files[i].clone());
            proof {
                assert(texts(files@) =~= before.push(self.files@[i as int]@));
                assert(texts(self.files@).subrange(0, i + 1) =~= texts(self.files@).subrange(
                    0,
                    i as int,
                ).push(self.files@[i as int]@));
            }
            i = i + 1;
        }
        assert(texts(self.files@).subrange(0, self.files@.len() as int) =~= texts(self.files@));
        files
    }
}

impl Walker for SimpleWalker {
    /// The files that the walker was given.
    open spec fn names(&self) -> Seq<Seq<char>> {
        self@
    }

    /// The files of the walker, in their order.
    fn files(&self) -> (files: Vec<String>)
        ensures
            texts(files@) == self@,
    {
        self.list()
    }
}

} // verus!
