//! What there is on disk of the paths that were looked for. The rules take it
//! as a value, so what they decide follows from it alone.
use vstd::prelude::*;
use crate::text::{same, views};

verus! {

/// The paths found to be files, and those found to be folders.
pub struct Listing {
    pub files: Vec<String>,
    pub folders: Vec<String>,
}

#[verifier::ext_equal]
pub struct ListingView {
    pub files: Set<Seq<char>>,
    pub folders: Set<Seq<char>>,
}

impl View for Listing {
    type V = ListingView;

    open spec fn view(&self) -> ListingView {
        ListingView { files: views(self.files@).to_set(), folders: views(self.folders@).to_set() }
    }
}

/// Whether a path is one of some paths.
pub fn is_among(path: &str, paths: &Vec<String>) -> (b: bool)
    ensures
        b == views(paths@).contains(path@),
{
    let mut i: usize = 0;
    while i < paths.len()
        invariant
            i <= paths@.len(),
            forall|k: int| 0 <= k < i ==> views(paths@)[k] != path@,
        decreases paths@.len() - i,
    {
        if same(&paths[i], path) {
            proof {
                assert(views(paths@)[i as int] == path@);
            }
            return true;
        }
        i += 1;
    }
    false
}

impl Listing {
    /// Whether a path is a file.
    pub fn is_file(&self, path: &str) -> (b: bool)
        ensures
            b == self@.files.contains(path@),
    {
        is_among(path, &self.files)
    }

    /// Whether a path is a folder.
    pub fn is_folder(&self, path: &str) -> (b: bool)
        ensures
            b == self@.folders.contains(path@),
    {
        is_among(path, &self.folders)
    }
}

} // verus!
