//! Refs: what a ref names, and the labels made of the refs of a repository.

use vstd::prelude::*;
use vstd::string::*;
use crate::text::{strip_prefix, strip_prefix_of};
use crate::types::{RefInfo, RefInfoView, RefType};

verus! {

/// A ref as the store lists it: its full name and the id at which it
/// points in the end, if the store could follow it there.
#[derive(Debug)]
pub struct RawRef {
    pub full_name: String,
    pub target: Option<String>,
}

/// The display name and the kind of a ref, by the beginning of its full
/// name: a local branch under `refs/heads/`, a remote branch under
/// `refs/remotes/`, a tag under `refs/tags/`. Any other ref counts as a
/// local branch under its full name.
pub open spec fn categorize(full_name: Seq<char>) -> (Seq<char>, RefType) {
    if strip_prefix(full_name, "refs/heads/"@) is Some {
        (strip_prefix(full_name, "refs/heads/"@)->0, RefType::LocalBranch)
    } else if strip_prefix(full_name, "refs/remotes/"@) is Some {
        (strip_prefix(full_name, "refs/remotes/"@)->0, RefType::RemoteBranch)
    } else if strip_prefix(full_name, "refs/tags/"@) is Some {
        (strip_prefix(full_name, "refs/tags/"@)->0, RefType::Tag)
    } else {
        (full_name, RefType::LocalBranch)
    }
}

/// The display name and the kind of a ref.
pub fn categorize_ref(full_name: &str) -> (named: (String, RefType))
    ensures
        named.0@ == categorize(full_name@).0,
        named.1 == categorize(full_name@).1,
{
    match strip_prefix_of(full_name, "refs/heads/") {
        Some(name) => {
            return (name, RefType::LocalBranch);
        },
        None => {},
    }
    match strip_prefix_of(full_name, "refs/remotes/") {
        Some(name) => {
            return (name, RefType::RemoteBranch);
        },
        None => {},
    }
    match strip_prefix_of(full_name, "refs/tags/") {
        Some(name) => {
            return (name, RefType::Tag);
        },
        None => {},
    }
    (String::from_str(full_name), RefType::LocalBranch)
}

/// The label of a ref. A ref that could not be followed to an id has the
/// empty target, which is the id of no commit.
pub open spec fn label_of(full_name: Seq<char>, target: Option<Seq<char>>) -> RefInfoView {
    RefInfoView {
        name: categorize(full_name).0,
        full_name,
        target_oid: match target {
            Some(id) => id,
            None => Seq::empty(),
        },
        ref_type: categorize(full_name).1,
    }
}

/// The labels of the refs of a repository, in the order of the refs.
pub fn list_refs(refs: &Vec<RawRef>) -> (labels: Vec<RefInfo>)
    ensures
        labels@.len() == refs@.len(),
        forall|i: int|
            0 <= i < refs@.len() ==> (#[trigger] labels@[i])@ == label_of(
                refs@[i].full_name@,
                match refs@[i].target {
                    Some(id) => Some(id@),
                    None => None,
                },
            ),
{
    let mut labels: Vec<RefInfo> = Vec::new();
    let mut i: usize = 0;
    while i < refs.len()
        invariant
            i <= refs@.len(),
            labels@.len() == i,
            forall|k: int|
                0 <= k < i ==> (#[trigger] labels@[k])@ == label_of(
                    refs@[k].full_name@,
                    match refs@[k].target {
                        Some(id) => Some(id@),
                        None => None,
                    },
                ),
        decreases refs@.len() - i,
    {
        let named = categorize_ref(refs[i].full_name.as_str());
        let target_oid = match &refs[i].target {
            Some(id) => id.clone(),
            None => String::new(),
        };
        labels.push(
            RefInfo {
                name: named.0,
                full_name: refs[i].full_name.clone(),
                target_oid,
                ref_type: named.1,
            },
        );
        i += 1;
    }
    labels
}

} // verus!
