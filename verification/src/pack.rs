//! The repository record: one discovered (or to-be-restored) working copy,
//! described by its location on disk, the URL of its tracked remote, and the
//! logical name of that remote.

use vstd::prelude::*;

verus! {

/// Mathematical view of a repository record: the three fields as character
/// sequences.
pub struct PackView {
    pub path: Seq<char>,
    pub url: Seq<char>,
    pub remote_name: Seq<char>,
}

/// One repository record. Immutable once constructed: reconciliation
/// replaces records, it never edits them.
pub struct Pack {
    path: String,
    url: String,
    remote_name: String,
}

impl View for Pack {
    type V = PackView;

    closed spec fn view(&self) -> PackView {
        PackView { path: self.path@, url: self.url@, remote_name: self.remote_name@ }
    }
}

impl Pack {
    pub fn new(path: String, url: &str, remote_name: &str) -> (p: Pack)
        ensures
            p@.path == path@,
            p@.url == url@,
            p@.remote_name == remote_name@,
    {
        Pack { path, url: url.to_owned(), remote_name: remote_name.to_owned() }
    }

    pub fn url(&self) -> (u: &String)
        ensures
            u@ == self@.url,
    {
        &self.url
    }

    pub fn path(&self) -> (p: &String)
        ensures
            p@ == self@.path,
    {
        &self.path
    }

    pub fn remote_name(&self) -> (n: &String)
        ensures
            n@ == self@.remote_name,
    {
        &self.remote_name
    }
}

/// The views of a sequence of records, in order.
pub open spec fn packs_view(s: Seq<Pack>) -> Seq<PackView> {
    s.map_values(|p: Pack| p@)
}

} // verus!
