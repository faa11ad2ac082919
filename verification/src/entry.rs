//! What a walk reads and what it finds: directory listings as plain values,
//! the entries found in them, and the ways a run can fail.

use vstd::prelude::*;

verus! {

/// How a run fails.
#[derive(Debug)]
pub enum FilesError {
    /// A pattern did not compile; the text says why.
    Regex(String),
    /// A directory could not be listed; the text describes the failure.
    IO(String),
    /// An entry does not lie under the root it is shown against.
    StripPrefix,
    /// Any other failure.
    Other(String),
}

impl From<String> for FilesError {
    /// A failure that is nothing but a message.
    fn from(err: String) -> (r: FilesError) {
        FilesError::Other(err)
    }
}

impl vstd::std_specs::convert::FromSpecImpl<String> for FilesError {
    open spec fn obeys_from_spec() -> bool {
        true
    }

    open spec fn from_spec(err: String) -> FilesError {
        FilesError::Other(err)
    }
}

/// One object in a directory tree, as a listing reports it. For a
/// directory, `children` are the objects that its own listing handed out,
/// in that order, and `failure` describes the error that ended the listing
/// early, if one did. Both are empty for anything that is no directory.
#[derive(Debug)]
pub struct Node {
    pub name: String,
    pub is_dir: bool,
    pub children: Vec<Node>,
    pub failure: Option<String>,
}

/// One object found by a walk: the names on the way to it, and whether it
/// was a directory when it was found.
#[derive(Debug)]
pub struct Entry {
    pub path: Vec<String>,
    pub is_dir: bool,
}

/// What an `Entry` stands for.
pub struct EntryView {
    pub path: Seq<Seq<char>>,
    pub is_dir: bool,
}

/// The texts of a sequence of strings.
pub open spec fn names(path: Seq<String>) -> Seq<Seq<char>> {
    path.map_values(|s: String| s@)
}

impl View for Entry {
    type V = EntryView;

    open spec fn view(&self) -> EntryView {
        EntryView { path: names(self.path@), is_dir: self.is_dir }
    }
}

/// What a sequence of entries stands for.
pub open spec fn entries(found: Seq<Entry>) -> Seq<EntryView> {
    found.map_values(|e: Entry| e@)
}

/// The text of an optional string.
pub open spec fn text_of(s: Option<String>) -> Option<Seq<char>> {
    match s {
        Some(t) => Some(t@),
        None => None,
    }
}

/// A copy of `path`.
pub fn copy_path(path: &Vec<String>) -> (r: Vec<String>)
    ensures
        names(r@) == names(path@),
{
    let mut r: Vec<String> = Vec::new();
    let mut i: usize = 0;
    while i < path.len()
        invariant
            i <= path@.len(),
            r@ == path@.subrange(0, i as int),
        decreases path@.len() - i,
    {
        r.push(path[i].clone());
        i += 1;
    }
    assert(r@ == path@);
    r
}

/// The path of `name` inside the directory at `path`.
pub fn child_path(path: &Vec<String>, name: &String) -> (r: Vec<String>)
    ensures
        names(r@) == names(path@).push(name@),
{
    let mut r = copy_path(path);
    let ghost before = r@;
    r.push(name.clone());
    assert(names(r@) == names(before).push(name@));
    r
}

impl Entry {
    /// The last name of the path: the base name. `None` for an empty path.
    pub open spec fn base_name(self) -> Option<Seq<char>> {
        if self.path@.len() > 0 {
            Some(self.path@.last()@)
        } else {
            None
        }
    }

    /// The base name of this entry, if its path has one.
    pub fn file_name(&self) -> (r: Option<&String>)
        ensures
            text_of(match r { Some(s) => Some(*s), None => None }) == self.base_name(),
    {
        if self.path.len() > 0 {
            Some(&self.path[self.path.len() - 1])
        } else {
            None
        }
    }
}

} // verus!
