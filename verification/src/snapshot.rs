//! Tree snapshots: the files of a tree by path, in ascending order of the
//! paths.

use vstd::prelude::*;
use vstd::string::*;
use crate::store::{EntryKind, TreeEntry};
use crate::text::chars_of;

verus! {

/// `a` comes before `b` where the two agree up to `i`: `a` ends first, or
/// the first character in which they differ is the smaller one in `a`.
pub open spec fn before_from(a: Seq<char>, b: Seq<char>, i: int) -> bool
    decreases a.len() - i,
{
    if i < 0 || i >= b.len() {
        false
    } else if i >= a.len() {
        true
    } else if a[i] != b[i] {
        (a[i] as u32) < (b[i] as u32)
    } else {
        before_from(a, b, i + 1)
    }
}

/// `a` comes before `b` in the order of paths: character by character, a
/// path before every path that it begins.
pub open spec fn path_before(a: Seq<char>, b: Seq<char>) -> bool {
    before_from(a, b, 0)
}

/// Two characters with the same code are the same character.
pub proof fn lemma_same_code(c: char, d: char)
    ensures
        c as u32 == d as u32 ==> c == d,
{
}

/// Of two paths that agree up to `i`, one comes before the other or they
/// are the same, and only one of the three holds.
pub proof fn lemma_order_is_total_from(a: Seq<char>, b: Seq<char>, i: int)
    requires
        0 <= i <= a.len(),
        i <= b.len(),
        a.take(i) == b.take(i),
    ensures
        before_from(a, b, i) || before_from(b, a, i) || a == b,
        !(before_from(a, b, i) && before_from(b, a, i)),
        before_from(a, b, i) ==> a != b,
        before_from(b, a, i) ==> a != b,
    decreases a.len() - i,
{
    if i >= a.len() || i >= b.len() {
        if a.len() == b.len() {
            assert(a.take(i) =~= a);
            assert(b.take(i) =~= b);
        }
    } else if a[i] == b[i] {
        assert(a.take(i + 1) =~= a.take(i).push(a[i]));
        assert(b.take(i + 1) =~= b.take(i).push(b[i]));
        lemma_order_is_total_from(a, b, i + 1);
    } else {
        lemma_same_code(a[i], b[i]);
    }
}

/// Of two paths one comes before the other or they are the same, and only
/// one of the three holds.
pub proof fn lemma_order_is_total(a: Seq<char>, b: Seq<char>)
    ensures
        path_before(a, b) || path_before(b, a) || a == b,
        !(path_before(a, b) && path_before(b, a)),
        path_before(a, b) ==> a != b,
        path_before(b, a) ==> a != b,
{
    assert(a.take(0) =~= b.take(0));
    lemma_order_is_total_from(a, b, 0);
}

/// The order of paths that agree up to `i` is transitive.
pub proof fn lemma_order_is_transitive_from(a: Seq<char>, b: Seq<char>, c: Seq<char>, i: int)
    requires
        0 <= i,
        before_from(a, b, i),
        before_from(b, c, i),
    ensures
        before_from(a, c, i),
    decreases a.len() - i,
{
    if i < a.len() && i < b.len() && i < c.len() && a[i] == b[i] && b[i] == c[i] {
        lemma_order_is_transitive_from(a, b, c, i + 1);
    }
}

/// The order of paths is transitive.
pub proof fn lemma_order_is_transitive(a: Seq<char>, b: Seq<char>, c: Seq<char>)
    requires
        path_before(a, b),
        path_before(b, c),
    ensures
        path_before(a, c),
{
    lemma_order_is_transitive_from(a, b, c, 0);
}

/// How two paths stand to each other.
#[derive(Debug, Clone, Copy, PartialEq, Eq, Structural)]
pub enum PathOrder {
    Before,
    Same,
    After,
}

/// How `a` stands to `b` in the order of paths.
pub open spec fn path_order(a: Seq<char>, b: Seq<char>) -> PathOrder {
    if path_before(a, b) {
        PathOrder::Before
    } else if a == b {
        PathOrder::Same
    } else {
        PathOrder::After
    }
}

/// How the path `a` stands to the path `b`.
pub fn order_paths(a: &str, b: &str) -> (order: PathOrder)
    ensures
        order == path_order(a@, b@),
        order == PathOrder::After ==> path_before(b@, a@),
{
    let x = chars_of(a);
    let y = chars_of(b);
    let mut i: usize = 0;
    assert(x@.take(0) =~= y@.take(0));
    while i < x.len() && i < y.len()
        invariant
            i <= x@.len(),
            i <= y@.len(),
            x@ == a@,
            y@ == b@,
            x@.take(i as int) == y@.take(i as int),
            before_from(x@, y@, 0) == before_from(x@, y@, i as int),
            before_from(y@, x@, 0) == before_from(y@, x@, i as int),
        decreases x@.len() - i,
    {
        let p: u32 = x[i] as u32;
        let q: u32 = y[i] as u32;
        if p != q {
            proof {
                lemma_order_is_total_from(x@, y@, i as int);
            }
            if p < q {
                return PathOrder::Before;
            } else {
                return PathOrder::After;
            }
        }
        proof {
            lemma_same_code(x@[i as int], y@[i as int]);
        }
        assert(x@.take(i + 1) =~= x@.take(i as int).push(x@[i as int]));
        assert(y@.take(i + 1) =~= y@.take(i as int).push(y@[i as int]));
        i += 1;
    }
    proof {
        lemma_order_is_total_from(x@, y@, i as int);
    }
    if i < y.len() {
        PathOrder::Before
    } else if i < x.len() {
        PathOrder::After
    } else {
        PathOrder::Same
    }
}

/// The files of a tree as a list of (path, blob id).
pub type Files = Seq<(Seq<char>, Seq<char>)>;

/// The paths ascend strictly, so that no path occurs twice.
pub open spec fn ascending(files: Files) -> bool {
    forall|i: int, j: int| 0 <= i < j < files.len() ==> path_before(files[i].0, files[j].0)
}

/// The list with `id` recorded for `path`: in the place of the entry of
/// that path where there is one, else where the order of paths puts it.
pub open spec fn put(files: Files, path: Seq<char>, id: Seq<char>) -> Files
    decreases files.len(),
{
    if files.len() == 0 {
        seq![(path, id)]
    } else if files.last().0 == path {
        files.drop_last().push((path, id))
    } else if path_before(files.last().0, path) {
        files.push((path, id))
    } else {
        put(files.drop_last(), path, id).push(files.last())
    }
}

/// Where `put` records a path in an ascending list: at `j`, when every path
/// from `j` on comes behind it and the path before `j` does not. The list
/// stays ascending.
pub proof fn lemma_put_at(files: Files, path: Seq<char>, id: Seq<char>, j: int)
    requires
        ascending(files),
        0 <= j <= files.len(),
        forall|k: int| j <= k < files.len() ==> path_before(path, #[trigger] files[k].0),
        j > 0 ==> !path_before(path, files[j - 1].0),
    ensures
        put(files, path, id) == if j > 0 && files[j - 1].0 == path {
            files.update(j - 1, (path, id))
        } else {
            files.insert(j, (path, id))
        },
        ascending(put(files, path, id)),
    decreases files.len(),
{
    let placed = if j > 0 && files[j - 1].0 == path {
        files.update(j - 1, (path, id))
    } else {
        files.insert(j, (path, id))
    };
    if files.len() == 0 {
        assert(seq![(path, id)] =~= placed);
    } else if j == files.len() {
        lemma_order_is_total(files.last().0, path);
        if files.last().0 == path {
            assert(files.drop_last().push((path, id)) =~= placed);
        } else {
            assert(files.push((path, id)) =~= placed);
        }
    } else {
        assert(path_before(path, files[files.len() - 1].0));
        lemma_order_is_total(files.last().0, path);
        assert(ascending(files.drop_last()));
        assert forall|k: int| j <= k < files.drop_last().len() implies path_before(
            path,
            #[trigger] files.drop_last()[k].0,
        ) by {
            assert(path_before(path, files[k].0));
        }
        lemma_put_at(files.drop_last(), path, id, j);
        assert(put(files.drop_last(), path, id).push(files.last()) =~= placed);
    }
    assert(put(files, path, id) == placed);
    if j > 0 && files[j - 1].0 == path {
        assert forall|a: int, b: int| 0 <= a < b < placed.len() implies path_before(
            placed[a].0,
            placed[b].0,
        ) by {
            assert(placed[a].0 == files[a].0);
            assert(placed[b].0 == files[b].0);
        }
    } else {
        if j > 0 {
            lemma_order_is_total(files[j - 1].0, path);
        }
        assert forall|a: int, b: int| 0 <= a < b < placed.len() implies path_before(
            placed[a].0,
            placed[b].0,
        ) by {
            if b < j {
                assert(path_before(files[a].0, files[b].0));
            } else if b == j {
                if a < j - 1 {
                    assert(path_before(files[a].0, files[j - 1].0));
                    lemma_order_is_transitive(files[a].0, files[j - 1].0, path);
                }
            } else if a == j {
                assert(path_before(path, files[b - 1].0));
            } else if a < j {
                assert(path_before(files[a].0, files[b - 1].0));
            } else {
                assert(path_before(files[a - 1].0, files[b - 1].0));
            }
        }
    }
}

/// Where a path belongs in a list: before the paths at the end of the list
/// that come behind it.
pub open spec fn place_of(files: Files, path: Seq<char>) -> int
    decreases files.len(),
{
    if files.len() == 0 {
        0
    } else if path_before(path, files.last().0) {
        place_of(files.drop_last(), path)
    } else {
        files.len() as int
    }
}

/// Recording a path keeps an ascending list ascending.
pub proof fn lemma_put_ascends(files: Files, path: Seq<char>, id: Seq<char>)
    requires
        ascending(files),
    ensures
        ascending(put(files, path, id)),
{
    lemma_place_of(files, path);
    lemma_put_at(files, path, id, place_of(files, path));
}

/// Every path from the place of a path on comes behind it, and the path
/// before that place does not.
proof fn lemma_place_of(files: Files, path: Seq<char>)
    ensures
        0 <= place_of(files, path) <= files.len(),
        forall|k: int|
            place_of(files, path) <= k < files.len() ==> path_before(path, #[trigger] files[k].0),
        place_of(files, path) > 0 ==> !path_before(path, files[place_of(files, path) - 1].0),
    decreases files.len(),
{
    if files.len() > 0 && path_before(path, files.last().0) {
        lemma_place_of(files.drop_last(), path);
        assert forall|k: int| place_of(files, path) <= k < files.len() implies path_before(
            path,
            #[trigger] files[k].0,
        ) by {
            if k < files.len() - 1 {
                assert(path_before(path, files.drop_last()[k].0));
            }
        }
    }
}

/// One file of a snapshot: its path from the root of the tree, and its blob.
#[derive(Debug)]
pub struct SnapshotEntry {
    pub path: String,
    pub id: String,
}

/// The files of a tree by path. A snapshot is well formed when its paths
/// ascend; every snapshot that this module makes is.
#[derive(Debug)]
pub struct TreeSnapshot {
    pub entries: Vec<SnapshotEntry>,
}

impl View for TreeSnapshot {
    type V = Files;

    open spec fn view(&self) -> Files {
        Seq::new(self.entries@.len(), |i: int| (self.entries@[i].path@, self.entries@[i].id@))
    }
}

impl TreeSnapshot {
    /// The paths of the snapshot ascend.
    pub open spec fn wf(&self) -> bool {
        ascending(self@)
    }

    /// The snapshot of the empty tree.
    pub fn new() -> (snapshot: Self)
        ensures
            snapshot@ == Files::empty(),
            snapshot.wf(),
    {
        let snapshot = TreeSnapshot { entries: Vec::new() };
        assert(snapshot@ =~= Files::empty());
        snapshot
    }

    /// Records `id` for `path`; an earlier id of that path is forgotten.
    pub fn insert(&mut self, path: String, id: String)
        requires
            old(self).wf(),
        ensures
            final(self).wf(),
            final(self)@ == put(old(self)@, path@, id@),
    {
        let ghost files = self@;
        let mut j: usize = self.entries.len();
        while j > 0 && order_paths(path.as_str(), self.entries[j - 1].path.as_str())
            == PathOrder::Before
            invariant
                j <= self.entries@.len(),
                *self == *old(self),
                files == self@,
                forall|k: int| j <= k < files.len() ==> path_before(path@, #[trigger] files[k].0),
            decreases j,
        {
            j -= 1;
        }
        proof {
            if j > 0 {
                assert(files[j - 1].0 == self.entries@[j - 1].path@);
            }
            lemma_put_at(files, path@, id@, j as int);
        }
        if j > 0 && order_paths(self.entries[j - 1].path.as_str(), path.as_str())
            == PathOrder::Same {
            self.entries[j - 1].id = id;
            assert(self@ =~= files.update(j - 1, (path@, id@)));
        } else {
            self.entries.insert(j, SnapshotEntry { path, id });
            assert(self@ =~= files.insert(j as int, (path@, id@)));
        }
    }
}

/// A name below a directory: the two joined by `/`; at the root, the name alone.
pub open spec fn join_path(prefix: Seq<char>, name: Seq<char>) -> Seq<char> {
    if prefix.len() == 0 {
        name
    } else {
        prefix + seq!['/'] + name
    }
}

/// The files below the entries of a directory, recorded on top of `files`
/// entry by entry.
pub open spec fn flatten_onto(files: Files, entries: Seq<TreeEntry>, prefix: Seq<char>) -> Files
    decreases entries,
{
    if entries.len() == 0 {
        files
    } else {
        entry_onto(flatten_onto(files, entries.drop_last(), prefix), entries.last(), prefix)
    }
}

/// The files below one entry, recorded on top of `files`: a file under its
/// path, a directory as the files below its own entries, anything else not
/// at all.
pub open spec fn entry_onto(files: Files, entry: TreeEntry, prefix: Seq<char>) -> Files
    decreases entry,
{
    match entry.kind {
        EntryKind::Blob => put(files, join_path(prefix, entry.name@), entry.id@),
        EntryKind::Tree => flatten_onto(files, entry.children@, join_path(prefix, entry.name@)),
        EntryKind::Other => files,
    }
}

/// The files of a tree by path: every file at any depth under its path from
/// the root, joined by `/`, and no directory.
pub open spec fn flatten(entries: Seq<TreeEntry>, prefix: Seq<char>) -> Files {
    flatten_onto(Files::empty(), entries, prefix)
}

/// The files below the entries of a directory, recorded on top of an
/// ascending list, ascend.
pub proof fn lemma_flatten_onto_ascends(files: Files, entries: Seq<TreeEntry>, prefix: Seq<char>)
    requires
        ascending(files),
    ensures
        ascending(flatten_onto(files, entries, prefix)),
    decreases entries, 0nat,
{
    if entries.len() > 0 {
        lemma_flatten_onto_ascends(files, entries.drop_last(), prefix);
        lemma_entry_onto_ascends(
            flatten_onto(files, entries.drop_last(), prefix),
            entries.last(),
            prefix,
        );
    }
}

/// The files below one entry, recorded on top of an ascending list, ascend.
pub proof fn lemma_entry_onto_ascends(files: Files, entry: TreeEntry, prefix: Seq<char>)
    requires
        ascending(files),
    ensures
        ascending(entry_onto(files, entry, prefix)),
    decreases entry, 1nat,
{
    match entry.kind {
        EntryKind::Blob => {
            lemma_put_ascends(files, join_path(prefix, entry.name@), entry.id@);
        },
        EntryKind::Tree => {
            lemma_flatten_onto_ascends(files, entry.children@, join_path(prefix, entry.name@));
        },
        EntryKind::Other => {},
    }
}

/// The paths of the files of a tree ascend, so that no path comes twice.
pub proof fn lemma_flatten_ascends(entries: Seq<TreeEntry>, prefix: Seq<char>)
    ensures
        ascending(flatten(entries, prefix)),
{
    lemma_flatten_onto_ascends(Files::empty(), entries, prefix);
}

/// The path of `name` below the directory `prefix`.
pub fn join_path_of(prefix: &str, name: &str) -> (path: String)
    ensures
        path@ == join_path(prefix@, name@),
{
    if prefix.is_empty() {
        String::from_str(name)
    } else {
        let mut path = String::from_str(prefix);
        path.push('/');
        path.append(name);
        assert(path@ =~= prefix@ + seq!['/'] + name@);
        path
    }
}

/// Records the files below the entries of a directory in `snapshot`.
fn flatten_into(snapshot: &mut TreeSnapshot, entries: &Vec<TreeEntry>, prefix: &str)
    requires
        old(snapshot).wf(),
    ensures
        final(snapshot).wf(),
        final(snapshot)@ == flatten_onto(old(snapshot)@, entries@, prefix@),
    decreases entries,
{
    let mut i: usize = 0;
    assert(entries@.take(0) =~= Seq::empty());
    while i < entries.len()
        invariant
            i <= entries@.len(),
            snapshot.wf(),
            snapshot@ == flatten_onto(old(snapshot)@, entries@.take(i as int), prefix@),
        decreases entries@.len() - i,
    {
        let ghost next = entries@.take(i + 1);
        let ghost so_far = snapshot@;
        assert(next.drop_last() =~= entries@.take(i as int));
        assert(next.last() == entries@[i as int]);
        assert(flatten_onto(old(snapshot)@, next, prefix@) == entry_onto(
            so_far,
            entries@[i as int],
            prefix@,
        ));
        let entry = &entries[i];
        match entry.kind {
            EntryKind::Blob => {
                let path = join_path_of(prefix, entry.name.as_str());
                snapshot.insert(path, entry.id.clone());
            },
            EntryKind::Tree => {
                let path = join_path_of(prefix, entry.name.as_str());
                flatten_into(snapshot, &entry.children, path.as_str());
            },
            EntryKind::Other => {},
        }
        i += 1;
    }
    assert(entries@.take(entries@.len() as int) =~= entries@);
}

/// The snapshot of a tree, given by the entries of its root: its files at
/// any depth by path, the paths joined by `/` and ascending. Directories are
/// no entries of the snapshot, and entries that are neither files nor
/// directories are left out.
pub fn collect_tree_blobs(entries: &Vec<TreeEntry>, prefix: &str) -> (snapshot: TreeSnapshot)
    ensures
        snapshot@ == flatten(entries@, prefix@),
        snapshot.wf(),
{
    let mut snapshot = TreeSnapshot::new();
    flatten_into(&mut snapshot, entries, prefix);
    snapshot
}

} // verus!
