//! Bare repositories on disk: what a directory is, what is known of a
//! repository, and where the repositories below a directory are.

use std::path::Path;
use vstd::prelude::*;
use vstd::string::*;
use crate::error::AppError;
use crate::types::{option_view, string_views, RepositoryInfo, RepositoryInfoView};

verus! {

/// What was found at a directory: a `.git` directory in it, a file `HEAD`,
/// a directory `objects` and a directory `refs`.
#[derive(Debug, Clone, Copy, PartialEq, Eq, Structural)]
pub struct DirectoryProbe {
    pub has_git_dir: bool,
    pub has_head_file: bool,
    pub has_objects_dir: bool,
    pub has_refs_dir: bool,
}

/// A directory is laid out as a bare repository when it holds `HEAD`,
/// `objects` and `refs`.
pub open spec fn is_bare_layout(probe: DirectoryProbe) -> bool {
    probe.has_head_file && probe.has_objects_dir && probe.has_refs_dir
}

/// Whether a directory is laid out as a bare repository.
pub fn is_bare_repo(probe: &DirectoryProbe) -> (bare: bool)
    ensures
        bare == is_bare_layout(*probe),
{
    probe.has_head_file && probe.has_objects_dir && probe.has_refs_dir
}

/// Accepts a repository that is bare and refuses any other.
pub fn check_bare(is_bare: bool, path: &str) -> (checked: Result<(), AppError>)
    ensures
        checked is Ok <==> is_bare,
        checked matches Err(e) ==> e matches AppError::Path(m) && m@ == "Not a bare repository: "@
            + path@,
{
    if is_bare {
        Ok(())
    } else {
        Err(AppError::Path(String::from_str("Not a bare repository: ").concat(path)))
    }
}

/// The final component of a path, as `Path::file_name` finds it by the path
/// rules of the platform; none where the path ends in `..` or has no
/// component.
pub uninterp spec fn path_file_name(path: Seq<char>) -> Option<Seq<char>>;

/// `Path::file_name` of the path that `path` spells.
#[verifier::external_body]
fn file_name(path: &str) -> (name: Option<String>)
    ensures
        option_view(name) == path_file_name(path@),
{
    Path::new(path).file_name().map(|n| n.to_string_lossy().into_owned())
}

/// The name, or the fallback where there is none.
pub open spec fn name_or(name: Option<Seq<char>>, fallback: Seq<char>) -> Seq<char> {
    match name {
        Some(n) => n,
        None => fallback,
    }
}

/// The name, or the fallback where there is none.
pub fn name_or_else(name: Option<String>, fallback: &str) -> (chosen: String)
    ensures
        chosen@ == name_or(option_view(name), fallback@),
{
    match name {
        Some(n) => n,
        None => String::from_str(fallback),
    }
}

/// The final component of `path`, or the fallback where it has none.
pub fn file_name_or(path: &str, fallback: &str) -> (chosen: String)
    ensures
        chosen@ == name_or(path_file_name(path@), fallback@),
{
    name_or_else(file_name(path), fallback)
}

/// The head of a repository: the name of the ref that `HEAD` points at and
/// the id behind it, if the ref could be followed there.
#[derive(Debug)]
pub struct HeadRef {
    pub name: String,
    pub oid: Option<String>,
}

/// What is known of the bare repository at `path`: its name is the final
/// component of the path, or `unknown`; its head is given where `HEAD`
/// points at a ref.
pub open spec fn repository_info(path: Seq<char>, head: Option<HeadRef>) -> RepositoryInfoView {
    RepositoryInfoView {
        path,
        name: name_or(path_file_name(path), "unknown"@),
        is_bare: true,
        head_oid: match head {
            Some(h) => option_view(h.oid),
            None => None,
        },
        head_ref: match head {
            Some(h) => Some(h.name@),
            None => None,
        },
    }
}

/// What is known of the bare repository at `path`, given its head.
pub fn get_repository_info(path: &str, head: Option<HeadRef>) -> (info: RepositoryInfo)
    ensures
        info@ == repository_info(path@, head),
{
    let name = file_name_or(path, "unknown");
    let (head_oid, head_ref) = match head {
        Some(h) => (h.oid, Some(h.name)),
        None => (None, None),
    };
    RepositoryInfo { path: String::from_str(path), name, is_bare: true, head_oid, head_ref }
}

/// A directory as a search sees it: its path, what was found at it, and the
/// directories in it.
#[derive(Debug)]
pub struct DirNode {
    pub path: String,
    pub probe: DirectoryProbe,
    pub children: Vec<DirNode>,
}

/// The bare repositories at or below a directory, in the order of the
/// search, on top of `found`. The search does not go below a repository,
/// nor deeper than `max_depth` below its start.
pub open spec fn discovered_onto(
    found: Seq<Seq<char>>,
    dir: DirNode,
    depth: nat,
    max_depth: nat,
) -> Seq<Seq<char>>
    decreases dir, 1nat,
{
    if depth > max_depth {
        found
    } else if is_bare_layout(dir.probe) {
        found.push(dir.path@)
    } else {
        discovered_in(found, dir.children@, depth + 1, max_depth)
    }
}

/// The bare repositories at or below the directories of a list, one
/// directory after the other, on top of `found`.
pub open spec fn discovered_in(
    found: Seq<Seq<char>>,
    dirs: Seq<DirNode>,
    depth: nat,
    max_depth: nat,
) -> Seq<Seq<char>>
    decreases dirs, 0nat,
{
    if dirs.len() == 0 {
        found
    } else {
        discovered_onto(
            discovered_in(found, dirs.drop_last(), depth, max_depth),
            dirs.last(),
            depth,
            max_depth,
        )
    }
}

/// Whether the search looks into the directories of a directory at
/// `depth`: it does not look into a repository, nor below the greatest depth.
pub fn search_goes_below(probe: &DirectoryProbe, depth: usize, max_depth: usize) -> (below: bool)
    ensures
        below == (depth < max_depth && !is_bare_layout(*probe)),
{
    depth < max_depth && !is_bare_repo(probe)
}

/// What is found at or below a directory does not depend on the
/// directories in it, where the search does not look into them.
pub proof fn lemma_unsearched_directories_do_not_matter(
    found: Seq<Seq<char>>,
    dir: DirNode,
    other: DirNode,
    depth: nat,
    max_depth: nat,
)
    requires
        dir.path == other.path,
        dir.probe == other.probe,
        !(depth < max_depth && !is_bare_layout(dir.probe)),
    ensures
        discovered_onto(found, dir, depth, max_depth) == discovered_onto(
            found,
            other,
            depth,
            max_depth,
        ),
{
    if depth <= max_depth && !is_bare_layout(dir.probe) {
        lemma_nothing_below_max_depth(found, dir.children@, depth + 1, max_depth);
        lemma_nothing_below_max_depth(found, other.children@, depth + 1, max_depth);
    }
}

/// Below the depth at which the search ends, nothing is found.
pub proof fn lemma_nothing_below_max_depth(
    found: Seq<Seq<char>>,
    dirs: Seq<DirNode>,
    depth: nat,
    max_depth: nat,
)
    requires
        depth > max_depth,
    ensures
        discovered_in(found, dirs, depth, max_depth) == found,
    decreases dirs.len(),
{
    if dirs.len() > 0 {
        lemma_nothing_below_max_depth(found, dirs.drop_last(), depth, max_depth);
        assert(discovered_onto(found, dirs.last(), depth, max_depth) == found);
    }
}

/// Searches a directory and what lies below it, and adds the path of each
/// bare repository to `repos`.
fn discover_recursive(
    dir: &DirNode,
    current_depth: usize,
    max_depth: usize,
    repos: &mut Vec<String>,
)
    ensures
        string_views(final(repos)@) == discovered_onto(
            string_views(old(repos)@),
            *dir,
            current_depth as nat,
            max_depth as nat,
        ),
    decreases dir,
{
    if current_depth > max_depth {
        return ;
    }
    if is_bare_repo(&dir.probe) {
        let ghost was = string_views(repos@);
        repos.push(dir.path.clone());
        assert(string_views(repos@) =~= was.push(dir.path@));
        return ;
    }
    if current_depth == max_depth {
        proof {
            lemma_nothing_below_max_depth(
                string_views(repos@),
                dir.children@,
                (current_depth + 1) as nat,
                max_depth as nat,
            );
        }
        return ;
    }
    let mut i: usize = 0;
    assert(dir.children@.take(0) =~= Seq::empty());
    while i < dir.children.len()
        invariant
            i <= dir.children@.len(),
            current_depth < max_depth,
            string_views(repos@) == discovered_in(
                string_views(old(repos)@),
                dir.children@.take(i as int),
                (current_depth + 1) as nat,
                max_depth as nat,
            ),
        decreases dir.children@.len() - i,
    {
        assert(dir.children@.take(i + 1).drop_last() =~= dir.children@.take(i as int));
        assert(dir.children@.take(i + 1).last() == dir.children@[i as int]);
        discover_recursive(&dir.children[i], current_depth + 1, max_depth, repos);
        i += 1;
    }
    assert(dir.children@.take(dir.children@.len() as int) =~= dir.children@);
}

/// The paths of the bare repositories at or below `root`, in the order of
/// the search, which goes at most `max_depth` directories below the root
/// and not into a repository.
pub fn discover_bare_repos(root: &DirNode, max_depth: usize) -> (repos: Vec<String>)
    ensures
        string_views(repos@) == discovered_onto(
            Seq::empty(),
            *root,
            0,
            max_depth as nat,
        ),
{
    let mut repos: Vec<String> = Vec::new();
    assert(string_views(repos@) =~= Seq::empty());
    discover_recursive(root, 0, max_depth, &mut repos);
    repos
}

} // verus!
