//! The values handed to a presentation layer, each with its mathematical view.

use vstd::prelude::*;

verus! {

/// What a ref names.
#[derive(Debug, Clone, Copy, PartialEq, Eq, Structural)]
pub enum RefType {
    LocalBranch,
    RemoteBranch,
    Tag,
}

/// A ref label: display name, fully-qualified name, target id and kind.
#[derive(Debug)]
pub struct RefInfo {
    pub name: String,
    pub full_name: String,
    pub target_oid: String,
    pub ref_type: RefType,
}

/// The view of a `RefInfo`: every text as the sequence of its characters.
pub struct RefInfoView {
    pub name: Seq<char>,
    pub full_name: Seq<char>,
    pub target_oid: Seq<char>,
    pub ref_type: RefType,
}

impl View for RefInfo {
    type V = RefInfoView;

    open spec fn view(&self) -> RefInfoView {
        RefInfoView {
            name: self.name@,
            full_name: self.full_name@,
            target_oid: self.target_oid@,
            ref_type: self.ref_type,
        }
    }
}

impl Clone for RefInfo {
    fn clone(&self) -> (r: Self)
        ensures
            r == *self,
    {
        RefInfo {
            name: self.name.clone(),
            full_name: self.full_name.clone(),
            target_oid: self.target_oid.clone(),
            ref_type: self.ref_type,
        }
    }
}

/// The views of a list of ref labels, in order.
pub open spec fn ref_views(refs: Seq<RefInfo>) -> Seq<RefInfoView> {
    Seq::new(refs.len(), |i: int| refs[i]@)
}

/// The views of a list of strings, in order.
pub open spec fn string_views(strings: Seq<String>) -> Seq<Seq<char>> {
    Seq::new(strings.len(), |i: int| strings[i]@)
}

/// One commit as a log shows it.
#[derive(Debug, Clone)]
pub struct CommitInfo {
    pub oid: String,
    pub short_oid: String,
    pub message: String,
    pub author_name: String,
    pub author_email: String,
    pub committer_name: String,
    pub committer_email: String,
    pub parent_oids: Vec<String>,
    pub timestamp: i64,
}

/// The view of a `CommitInfo`: every text as the sequence of its characters.
pub struct CommitInfoView {
    pub oid: Seq<char>,
    pub short_oid: Seq<char>,
    pub message: Seq<char>,
    pub author_name: Seq<char>,
    pub author_email: Seq<char>,
    pub committer_name: Seq<char>,
    pub committer_email: Seq<char>,
    pub parent_oids: Seq<Seq<char>>,
    pub timestamp: int,
}

impl View for CommitInfo {
    type V = CommitInfoView;

    open spec fn view(&self) -> CommitInfoView {
        CommitInfoView {
            oid: self.oid@,
            short_oid: self.short_oid@,
            message: self.message@,
            author_name: self.author_name@,
            author_email: self.author_email@,
            committer_name: self.committer_name@,
            committer_email: self.committer_email@,
            parent_oids: string_views(self.parent_oids@),
            timestamp: self.timestamp as int,
        }
    }
}

/// The views of a list of commits, in order.
pub open spec fn commit_views(commits: Seq<CommitInfo>) -> Seq<CommitInfoView> {
    Seq::new(commits.len(), |i: int| commits[i]@)
}

/// What is known of a bare repository on disk.
#[derive(Debug, Clone)]
pub struct RepositoryInfo {
    pub path: String,
    pub name: String,
    pub is_bare: bool,
    pub head_oid: Option<String>,
    pub head_ref: Option<String>,
}

/// The view of an optional string.
pub open spec fn option_view(s: Option<String>) -> Option<Seq<char>> {
    match s {
        Some(s) => Some(s@),
        None => None,
    }
}

/// The view of a `RepositoryInfo`: every text as the sequence of its characters.
pub struct RepositoryInfoView {
    pub path: Seq<char>,
    pub name: Seq<char>,
    pub is_bare: bool,
    pub head_oid: Option<Seq<char>>,
    pub head_ref: Option<Seq<char>>,
}

impl View for RepositoryInfo {
    type V = RepositoryInfoView;

    open spec fn view(&self) -> RepositoryInfoView {
        RepositoryInfoView {
            path: self.path@,
            name: self.name@,
            is_bare: self.is_bare,
            head_oid: option_view(self.head_oid),
            head_ref: option_view(self.head_ref),
        }
    }
}

/// A commit as the graph draws it: its labels and, once assigned, its lane.
#[derive(Debug, Clone)]
pub struct DagNode {
    pub oid: String,
    pub short_oid: String,
    pub message: String,
    pub author_name: String,
    pub timestamp: i64,
    pub refs: Vec<RefInfo>,
    pub column: usize,
}

/// The view of a `DagNode`: every text as the sequence of its characters.
pub struct DagNodeView {
    pub oid: Seq<char>,
    pub short_oid: Seq<char>,
    pub message: Seq<char>,
    pub author_name: Seq<char>,
    pub timestamp: int,
    pub refs: Seq<RefInfoView>,
    pub column: nat,
}

impl View for DagNode {
    type V = DagNodeView;

    open spec fn view(&self) -> DagNodeView {
        DagNodeView {
            oid: self.oid@,
            short_oid: self.short_oid@,
            message: self.message@,
            author_name: self.author_name@,
            timestamp: self.timestamp as int,
            refs: ref_views(self.refs@),
            column: self.column as nat,
        }
    }
}

/// An edge from a commit to one of its parents, both named by id.
#[derive(Debug, Clone)]
pub struct DagEdge {
    pub from_oid: String,
    pub to_oid: String,
}

/// The view of a `DagEdge`: every text as the sequence of its characters.
pub struct DagEdgeView {
    pub from_oid: Seq<char>,
    pub to_oid: Seq<char>,
}

impl View for DagEdge {
    type V = DagEdgeView;

    open spec fn view(&self) -> DagEdgeView {
        DagEdgeView { from_oid: self.from_oid@, to_oid: self.to_oid@ }
    }
}

/// A bounded piece of history: nodes in walk order and the edges among them.
#[derive(Debug, Clone)]
pub struct CommitDag {
    pub nodes: Vec<DagNode>,
    pub edges: Vec<DagEdge>,
}

/// The view of a `CommitDag`: every text as the sequence of its characters.
pub struct CommitDagView {
    pub nodes: Seq<DagNodeView>,
    pub edges: Seq<DagEdgeView>,
}

impl View for CommitDag {
    type V = CommitDagView;

    open spec fn view(&self) -> CommitDagView {
        CommitDagView {
            nodes: Seq::new(self.nodes@.len(), |i: int| self.nodes@[i]@),
            edges: Seq::new(self.edges@.len(), |i: int| self.edges@[i]@),
        }
    }
}

/// One page of a commit log.
#[derive(Debug, Clone)]
pub struct CommitLogPage {
    pub commits: Vec<CommitInfo>,
    pub has_more: bool,
    pub cursor: Option<String>,
}

/// The view of a `CommitLogPage`: every text as the sequence of its characters.
pub struct CommitLogPageView {
    pub commits: Seq<CommitInfoView>,
    pub has_more: bool,
    pub cursor: Option<Seq<char>>,
}

impl View for CommitLogPage {
    type V = CommitLogPageView;

    open spec fn view(&self) -> CommitLogPageView {
        CommitLogPageView {
            commits: commit_views(self.commits@),
            has_more: self.has_more,
            cursor: option_view(self.cursor),
        }
    }
}

/// A removable volume and the bare repositories found on it.
#[derive(Debug, Clone)]
pub struct UsbDevice {
    pub label: String,
    pub mount_point: String,
    pub uuid: Option<String>,
    pub repositories: Vec<RepositoryInfo>,
}

/// The view of a `UsbDevice`: every text as the sequence of its characters.
pub struct UsbDeviceView {
    pub label: Seq<char>,
    pub mount_point: Seq<char>,
    pub uuid: Option<Seq<char>>,
    pub repositories: Seq<RepositoryInfoView>,
}

impl View for UsbDevice {
    type V = UsbDeviceView;

    open spec fn view(&self) -> UsbDeviceView {
        UsbDeviceView {
            label: self.label@,
            mount_point: self.mount_point@,
            uuid: option_view(self.uuid),
            repositories: Seq::new(self.repositories@.len(), |i: int| self.repositories@[i]@),
        }
    }
}

} // verus!
