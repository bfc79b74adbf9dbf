//! What the object store hands out, as plain values.

use vstd::prelude::*;
use crate::types::string_views;

verus! {

/// A commit as the store reads it: its id, its tree, its parents in the
/// order in which the commit names them, the two signature texts as they
/// stand in the commit, and the message.
#[derive(Debug)]
pub struct RawCommit {
    pub id: String,
    pub tree_id: String,
    pub parent_ids: Vec<String>,
    pub author_raw: String,
    pub committer_raw: String,
    pub message: String,
}

/// The view of a `RawCommit`: every text as the sequence of its characters.
pub struct RawCommitView {
    pub id: Seq<char>,
    pub tree_id: Seq<char>,
    pub parent_ids: Seq<Seq<char>>,
    pub author_raw: Seq<char>,
    pub committer_raw: Seq<char>,
    pub message: Seq<char>,
}

impl View for RawCommit {
    type V = RawCommitView;

    open spec fn view(&self) -> RawCommitView {
        RawCommitView {
            id: self.id@,
            tree_id: self.tree_id@,
            parent_ids: string_views(self.parent_ids@),
            author_raw: self.author_raw@,
            committer_raw: self.committer_raw@,
            message: self.message@,
        }
    }
}

/// The views of a list of commits, in order.
pub open spec fn raw_views(commits: Seq<RawCommit>) -> Seq<RawCommitView> {
    Seq::new(commits.len(), |i: int| commits[i]@)
}

/// A copy of a list of strings.
pub fn copy_strings(strings: &Vec<String>) -> (copy: Vec<String>)
    ensures
        string_views(copy@) == string_views(strings@),
{
    let mut copy: Vec<String> = Vec::new();
    let mut i: usize = 0;
    while i < strings.len()
        invariant
            i <= strings@.len(),
            copy@.len() == i,
            forall|k: int| 0 <= k < i ==> copy@[k]@ == strings@[k]@,
        decreases strings@.len() - i,
    {
        copy.push(strings[i].clone());
        i += 1;
    }
    assert(string_views(copy@) =~= string_views(strings@));
    copy
}

/// What an entry of a tree is. Anything that is neither a file nor a
/// directory (a link, a nested repository) is `Other`.
#[derive(Debug, Clone, Copy, PartialEq, Eq, Structural)]
pub enum EntryKind {
    Blob,
    Tree,
    Other,
}

/// An entry of a tree: its name, what it is, its id and, for a directory,
/// the entries of that directory.
#[derive(Debug)]
pub struct TreeEntry {
    pub name: String,
    pub kind: EntryKind,
    pub id: String,
    pub children: Vec<TreeEntry>,
}

/// The content of a file, as the store reads it.
#[derive(Debug)]
pub struct Blob {
    pub id: String,
    pub data: Vec<u8>,
}

} // verus!
