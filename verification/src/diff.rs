//! The tree diff: which files differ between two snapshots, and the
//! unified diff text that shows how.

use similar::TextDiff;
use vstd::prelude::*;
use vstd::string::*;
use crate::error::AppError;
use crate::oid::{fault_message, fault_of, is_object_id, parse_object_id};
use crate::snapshot::{
    ascending, collect_tree_blobs, flatten, lemma_order_is_total, lemma_order_is_transitive,
    order_paths, path_before, Files, PathOrder, TreeSnapshot,
};
use crate::store::{Blob, RawCommit, TreeEntry};
use crate::text::{decimal, line_views, lines, lines_of, push_chars, push_decimal, same_text};
use crate::types::string_views;

verus! {

/// A file that differs between two trees, with its blob on either side as
/// far as the side has the file.
#[derive(Debug)]
pub enum FileChange {
    /// Only the new tree has the file.
    Added { path: String, new_id: String },
    /// Only the old tree has the file.
    Removed { path: String, old_id: String },
    /// Both trees have the file, with different blobs.
    Modified { path: String, old_id: String, new_id: String },
}

/// The view of a `FileChange`: every text as the sequence of its characters.
pub enum FileChangeView {
    Added { path: Seq<char>, new_id: Seq<char> },
    Removed { path: Seq<char>, old_id: Seq<char> },
    Modified { path: Seq<char>, old_id: Seq<char>, new_id: Seq<char> },
}

impl View for FileChange {
    type V = FileChangeView;

    open spec fn view(&self) -> FileChangeView {
        match self {
            FileChange::Added { path, new_id } => FileChangeView::Added {
                path: path@,
                new_id: new_id@,
            },
            FileChange::Removed { path, old_id } => FileChangeView::Removed {
                path: path@,
                old_id: old_id@,
            },
            FileChange::Modified { path, old_id, new_id } => FileChangeView::Modified {
                path: path@,
                old_id: old_id@,
                new_id: new_id@,
            },
        }
    }
}

/// The views of a list of changes, in order.
pub open spec fn change_views(changes: Seq<FileChange>) -> Seq<FileChangeView> {
    Seq::new(changes.len(), |i: int| changes[i]@)
}

/// A file that only the new tree has.
pub open spec fn added(file: (Seq<char>, Seq<char>)) -> FileChangeView {
    FileChangeView::Added { path: file.0, new_id: file.1 }
}

/// A file that only the old tree has.
pub open spec fn removed(file: (Seq<char>, Seq<char>)) -> FileChangeView {
    FileChangeView::Removed { path: file.0, old_id: file.1 }
}

/// A file that both trees have, with different blobs.
pub open spec fn modified(
    old: (Seq<char>, Seq<char>),
    new: (Seq<char>, Seq<char>),
) -> FileChangeView {
    FileChangeView::Modified { path: new.0, old_id: old.1, new_id: new.1 }
}

/// The changes among the files from `i` on in the old snapshot and from `j`
/// on in the new one, in the order of the paths of both: a path of the new
/// snapshot alone is added, one of the old alone is removed, one of both is
/// modified where the blobs differ and no change where they are the same.
pub open spec fn changes_from(old: Files, new: Files, i: int, j: int) -> Seq<FileChangeView>
    decreases old.len() - i + new.len() - j,
{
    if i < 0 || j < 0 || i > old.len() || j > new.len() || (i == old.len() && j == new.len()) {
        Seq::empty()
    } else if j >= new.len() || (i < old.len() && path_before(old[i].0, new[j].0)) {
        seq![removed(old[i])] + changes_from(old, new, i + 1, j)
    } else if i >= old.len() || path_before(new[j].0, old[i].0) {
        seq![added(new[j])] + changes_from(old, new, i, j + 1)
    } else if old[i].1 == new[j].1 {
        changes_from(old, new, i + 1, j + 1)
    } else {
        seq![modified(old[i], new[j])] + changes_from(old, new, i + 1, j + 1)
    }
}

/// The files that differ between two snapshots, in the order of their paths.
pub open spec fn changes_between(old: Files, new: Files) -> Seq<FileChangeView> {
    changes_from(old, new, 0, 0)
}

/// A snapshot does not differ from itself.
pub proof fn lemma_no_changes_from(files: Files, i: int)
    requires
        0 <= i,
    ensures
        changes_from(files, files, i, i) == Seq::<FileChangeView>::empty(),
    decreases files.len() - i,
{
    if i < files.len() {
        lemma_order_is_total(files[i].0, files[i].0);
        lemma_no_changes_from(files, i + 1);
    }
}

/// The path of the file that a change is about.
pub open spec fn change_path(change: FileChangeView) -> Seq<char> {
    match change {
        FileChangeView::Added { path, new_id } => path,
        FileChangeView::Removed { path, old_id } => path,
        FileChangeView::Modified { path, old_id, new_id } => path,
    }
}

/// The paths of the changes ascend strictly.
pub open spec fn changes_ascend(changes: Seq<FileChangeView>) -> bool {
    forall|a: int, b: int|
        0 <= a < b < changes.len() ==> path_before(
            change_path(#[trigger] changes[a]),
            change_path(#[trigger] changes[b]),
        )
}

/// The blob that a snapshot holds for a path, if it holds the path.
pub open spec fn blob_at(files: Files, path: Seq<char>) -> Option<Seq<char>>
    decreases files.len(),
{
    if files.len() == 0 {
        None
    } else if files[0].0 == path {
        Some(files[0].1)
    } else {
        blob_at(files.skip(1), path)
    }
}

/// How a path differs, given its blob on either side: it is added where
/// only the new side has it, removed where only the old side has it,
/// modified where both have it with different blobs, and no change else.
pub open spec fn difference(
    path: Seq<char>,
    old: Option<Seq<char>>,
    new: Option<Seq<char>>,
) -> Option<FileChangeView> {
    match (old, new) {
        (None, None) => None,
        (None, Some(new_id)) => Some(FileChangeView::Added { path, new_id }),
        (Some(old_id), None) => Some(FileChangeView::Removed { path, old_id }),
        (Some(old_id), Some(new_id)) => if old_id == new_id {
            None
        } else {
            Some(FileChangeView::Modified { path, old_id, new_id })
        },
    }
}

/// The changes from some place on are the changes of what the snapshots
/// hold from there on.
proof fn lemma_changes_of_the_rest(old: Files, new: Files, i: int, j: int)
    requires
        0 <= i <= old.len(),
        0 <= j <= new.len(),
    ensures
        changes_from(old, new, i, j) == changes_between(old.skip(i), new.skip(j)),
    decreases old.len() - i + new.len() - j,
{
    let rest_old = old.skip(i);
    let rest_new = new.skip(j);
    if i == old.len() && j == new.len() {
    } else if j >= new.len() || (i < old.len() && path_before(old[i].0, new[j].0)) {
        lemma_changes_of_the_rest(old, new, i + 1, j);
        lemma_changes_of_the_rest(rest_old, rest_new, 1, 0);
        assert(rest_old.skip(1) =~= old.skip(i + 1));
        assert(rest_new.skip(0) =~= rest_new);
    } else if i >= old.len() || path_before(new[j].0, old[i].0) {
        lemma_changes_of_the_rest(old, new, i, j + 1);
        lemma_changes_of_the_rest(rest_old, rest_new, 0, 1);
        assert(rest_new.skip(1) =~= new.skip(j + 1));
        assert(rest_old.skip(0) =~= rest_old);
    } else {
        lemma_changes_of_the_rest(old, new, i + 1, j + 1);
        lemma_changes_of_the_rest(rest_old, rest_new, 1, 1);
        assert(rest_old.skip(1) =~= old.skip(i + 1));
        assert(rest_new.skip(1) =~= new.skip(j + 1));
    }
}

/// A snapshot holds no blob for a path that comes before all its paths,
/// and a blob that it holds is the blob of one of its files.
proof fn lemma_blob_at(files: Files, path: Seq<char>)
    requires
        ascending(files),
    ensures
        files.len() == 0 || path_before(path, files[0].0) ==> blob_at(files, path) is None,
        blob_at(files, path) is Some ==> exists|k: int|
            0 <= k < files.len() && #[trigger] files[k] == (path, blob_at(files, path)->0),
    decreases files.len(),
{
    if files.len() > 0 {
        let rest = files.skip(1);
        assert(ascending(rest)) by {
            assert forall|a: int, b: int| 0 <= a < b < rest.len() implies path_before(
                rest[a].0,
                rest[b].0,
            ) by {
                assert(path_before(files[a + 1].0, files[b + 1].0));
            }
        }
        lemma_blob_at(rest, path);
        lemma_order_is_total(path, files[0].0);
        if path_before(path, files[0].0) && rest.len() > 0 {
            assert(path_before(files[0].0, files[1].0));
            lemma_order_is_transitive(path, files[0].0, rest[0].0);
        }
        if files[0].0 == path {
            assert(files[0] == (path, blob_at(files, path)->0));
        } else if blob_at(files, path) is Some {
            let k = choose|k: int|
                0 <= k < rest.len() && #[trigger] rest[k] == (path, blob_at(rest, path)->0);
            assert(files[k + 1] == (path, blob_at(files, path)->0));
        }
    }
}

/// The changes between two snapshots are the differences of their paths,
/// each once and in the order of the paths: a change is among them exactly
/// when it is how its path differs between the two.
pub proof fn lemma_changes_are_the_differences(old: Files, new: Files)
    requires
        ascending(old),
        ascending(new),
    ensures
        changes_ascend(changes_between(old, new)),
        forall|c: FileChangeView| #[trigger]
            changes_between(old, new).contains(c) <==> difference(
                change_path(c),
                blob_at(old, change_path(c)),
                blob_at(new, change_path(c)),
            ) == Some(c),
    decreases old.len() + new.len(),
{
    let changes = changes_between(old, new);
    if old.len() == 0 && new.len() == 0 {
        assert forall|c: FileChangeView| #[trigger]
            changes.contains(c) <==> difference(
                change_path(c),
                blob_at(old, change_path(c)),
                blob_at(new, change_path(c)),
            ) == Some(c) by {}
    } else {
        // Which side gives the first path, and what is left of either side.
        let takes_old = new.len() == 0 || (old.len() > 0 && !path_before(new[0].0, old[0].0));
        let takes_new = old.len() == 0 || (new.len() > 0 && !path_before(old[0].0, new[0].0));
        let first = if takes_old {
            old[0].0
        } else {
            new[0].0
        };
        let rest_old = if takes_old {
            old.skip(1)
        } else {
            old
        };
        let rest_new = if takes_new {
            new.skip(1)
        } else {
            new
        };
        let rest = changes_between(rest_old, rest_new);
        let head = difference(first, blob_at(old, first), blob_at(new, first));
        if old.len() > 0 && new.len() > 0 {
            lemma_order_is_total(old[0].0, new[0].0);
        }
        lemma_order_is_total(first, first);
        assert(ascending(rest_old)) by {
            assert forall|a: int, b: int| 0 <= a < b < rest_old.len() implies path_before(
                rest_old[a].0,
                rest_old[b].0,
            ) by {
                if takes_old {
                    assert(path_before(old[a + 1].0, old[b + 1].0));
                }
            }
        }
        assert(ascending(rest_new)) by {
            assert forall|a: int, b: int| 0 <= a < b < rest_new.len() implies path_before(
                rest_new[a].0,
                rest_new[b].0,
            ) by {
                if takes_new {
                    assert(path_before(new[a + 1].0, new[b + 1].0));
                }
            }
        }
        lemma_changes_are_the_differences(rest_old, rest_new);
        let from_old = if takes_old {
            1int
        } else {
            0int
        };
        let from_new = if takes_new {
            1int
        } else {
            0int
        };
        lemma_changes_of_the_rest(old, new, from_old, from_new);
        assert(old.skip(0) =~= old);
        assert(new.skip(0) =~= new);
        // The first path comes before every path of what is left.
        assert(rest_old.len() > 0 ==> path_before(first, rest_old[0].0)) by {
            if rest_old.len() > 0 {
                if takes_old {
                    assert(path_before(old[0].0, old[1].0));
                }
            }
        }
        assert(rest_new.len() > 0 ==> path_before(first, rest_new[0].0)) by {
            if rest_new.len() > 0 {
                if takes_new {
                    assert(path_before(new[0].0, new[1].0));
                }
            }
        }
        lemma_blob_at(rest_old, first);
        lemma_blob_at(rest_new, first);
        lemma_blob_at(old, first);
        lemma_blob_at(new, first);
        assert(changes =~= match head {
            Some(c) => seq![c] + rest,
            None => rest,
        });
        // Every path of the changes of what is left comes behind the first.
        assert forall|k: int| 0 <= k < rest.len() implies path_before(
            first,
            change_path(#[trigger] rest[k]),
        ) by {
            let p = change_path(rest[k]);
            assert(rest.contains(rest[k]));
            lemma_blob_at(rest_old, p);
            lemma_blob_at(rest_new, p);
            if blob_at(rest_old, p) is Some {
                let m = choose|m: int|
                    0 <= m < rest_old.len() && #[trigger] rest_old[m] == (
                        p,
                        blob_at(rest_old, p)->0,
                    );
                if m > 0 {
                    assert(path_before(rest_old[0].0, rest_old[m].0));
                    lemma_order_is_transitive(first, rest_old[0].0, p);
                }
            } else {
                let m = choose|m: int|
                    0 <= m < rest_new.len() && #[trigger] rest_new[m] == (
                        p,
                        blob_at(rest_new, p)->0,
                    );
                if m > 0 {
                    assert(path_before(rest_new[0].0, rest_new[m].0));
                    lemma_order_is_transitive(first, rest_new[0].0, p);
                }
            }
        }
        assert(changes_ascend(changes)) by {
            assert forall|a: int, b: int| 0 <= a < b < changes.len() implies path_before(
                change_path(#[trigger] changes[a]),
                change_path(#[trigger] changes[b]),
            ) by {
                if head is Some {
                    if a == 0 {
                        assert(changes[b] == rest[b - 1]);
                    } else {
                        assert(changes[a] == rest[a - 1]);
                        assert(changes[b] == rest[b - 1]);
                    }
                }
            }
        }
        assert forall|c: FileChangeView| #[trigger]
            changes.contains(c) <==> difference(
                change_path(c),
                blob_at(old, change_path(c)),
                blob_at(new, change_path(c)),
            ) == Some(c) by {
            let p = change_path(c);
            if p == first {
                if changes.contains(c) {
                    let k = choose|k: int| 0 <= k < changes.len() && changes[k] == c;
                    if head is Some {
                        if k > 0 {
                            assert(changes[k] == rest[k - 1]);
                            lemma_order_is_total(first, change_path(rest[k - 1]));
                        }
                    } else {
                        lemma_order_is_total(first, change_path(rest[k]));
                    }
                }
                if head == Some(c) {
                    assert(changes[0] == c);
                }
            } else {
                assert(blob_at(old, p) == blob_at(rest_old, p));
                assert(blob_at(new, p) == blob_at(rest_new, p));
                assert(rest.contains(c) <==> difference(
                    p,
                    blob_at(rest_old, p),
                    blob_at(rest_new, p),
                ) == Some(c));
                if changes.contains(c) {
                    let k = choose|k: int| 0 <= k < changes.len() && changes[k] == c;
                    if head is Some {
                        assert(k > 0);
                        assert(rest[k - 1] == c);
                    } else {
                        assert(rest[k] == c);
                    }
                    assert(rest.contains(c));
                }
                if rest.contains(c) {
                    let k = choose|k: int| 0 <= k < rest.len() && rest[k] == c;
                    if head is Some {
                        assert(changes[k + 1] == c);
                    } else {
                        assert(changes[k] == c);
                    }
                    assert(changes.contains(c));
                }
            }
        }
    }
}

/// The files that differ between two snapshots, in the order of their
/// paths. Files with the same blob on both sides are left out.
pub fn diff_snapshots(old: &TreeSnapshot, new: &TreeSnapshot) -> (changes: Vec<FileChange>)
    ensures
        change_views(changes@) == changes_between(old@, new@),
{
    let mut changes: Vec<FileChange> = Vec::new();
    let mut i: usize = 0;
    let mut j: usize = 0;
    assert(change_views(changes@) =~= Seq::empty());
    while i < old.entries.len() || j < new.entries.len()
        invariant
            i <= old.entries@.len(),
            j <= new.entries@.len(),
            changes_between(old@, new@) == change_views(changes@) + changes_from(
                old@,
                new@,
                i as int,
                j as int,
            ),
        decreases old.entries@.len() - i + new.entries@.len() - j,
    {
        let ghost was = change_views(changes@);
        let order = if j >= new.entries.len() {
            PathOrder::Before
        } else if i >= old.entries.len() {
            PathOrder::After
        } else {
            order_paths(old.entries[i].path.as_str(), new.entries[j].path.as_str())
        };
        proof {
            if i < old.entries@.len() && j < new.entries@.len() {
                lemma_order_is_total(old@[i as int].0, new@[j as int].0);
            }
        }
        match order {
            PathOrder::Before => {
                let change = FileChange::Removed {
                    path: old.entries[i].path.clone(),
                    old_id: old.entries[i].id.clone(),
                };
                assert(change@ == removed(old@[i as int]));
                changes.push(change);
                i += 1;
                assert(change_views(changes@) =~= was + seq![removed(old@[i - 1])]);
            },
            PathOrder::After => {
                let change = FileChange::Added {
                    path: new.entries[j].path.clone(),
                    new_id: new.entries[j].id.clone(),
                };
                assert(change@ == added(new@[j as int]));
                changes.push(change);
                j += 1;
                assert(change_views(changes@) =~= was + seq![added(new@[j - 1])]);
            },
            PathOrder::Same => {
                if !same_text(old.entries[i].id.as_str(), new.entries[j].id.as_str()) {
                    let change = FileChange::Modified {
                        path: new.entries[j].path.clone(),
                        old_id: old.entries[i].id.clone(),
                        new_id: new.entries[j].id.clone(),
                    };
                    assert(change@ == modified(old@[i as int], new@[j as int]));
                    changes.push(change);
                    assert(change_views(changes@) =~= was + seq![
                        modified(old@[i as int], new@[j as int]),
                    ]);
                }
                i += 1;
                j += 1;
            },
        }
        assert(changes_between(old@, new@) =~= change_views(changes@) + changes_from(
            old@,
            new@,
            i as int,
            j as int,
        ));
    }
    assert(change_views(changes@) + Seq::<FileChangeView>::empty() =~= change_views(changes@));
    changes
}

/// The unified diff that `similar` makes of two texts, line by line: a
/// pair of header lines with the two names, then the hunks, with `radius`
/// lines of context around each change. Nothing where the texts are the same.
pub uninterp spec fn unified_diff_text(
    old: Seq<char>,
    new: Seq<char>,
    old_name: Seq<char>,
    new_name: Seq<char>,
    radius: nat,
) -> Seq<char>;

/// `TextDiff::from_lines` on the two texts, shown by its `unified_diff`
/// with the header and the context radius given. The diff is made without a
/// deadline, so that it depends on nothing but the arguments. The grouping
/// of the changes doubles the radius, so the radius must leave room for that.
#[verifier::external_body]
fn unified_diff(old: &str, new: &str, old_name: &str, new_name: &str, radius: usize) -> (text:
    String)
    requires
        radius <= usize::MAX / 2,
    ensures
        text@ == unified_diff_text(old@, new@, old_name@, new_name@, radius as nat),
{
    TextDiff::from_lines(old, new).unified_diff().header(old_name, new_name).context_radius(
        radius,
    ).to_string()
}

/// The text that `String::from_utf8_lossy` reads from bytes: the text that
/// the bytes encode, with a replacement character for each part that
/// encodes none.
pub uninterp spec fn utf8_lossy(bytes: Seq<u8>) -> Seq<char>;

/// `String::from_utf8_lossy`: never fails, whatever the bytes are.
#[verifier::external_body]
fn decode_lossy(data: &Vec<u8>) -> (text: String)
    ensures
        text@ == utf8_lossy(data@),
{
    String::from_utf8_lossy(data).into_owned()
}

/// The line that opens the diff of a file.
pub open spec fn file_header(path: Seq<char>) -> Seq<char> {
    "diff --git a/"@ + path + " b/"@ + path + "\n"@
}

/// The lines one below the other, each behind `sign` and ended by a line feed.
pub open spec fn signed_lines(lines: Seq<Seq<char>>, sign: char) -> Seq<char>
    decreases lines.len(),
{
    if lines.len() == 0 {
        Seq::empty()
    } else {
        signed_lines(lines.drop_last(), sign) + seq![sign] + lines.last() + seq!['\n']
    }
}

/// The diff of a file that only the new tree has: one hunk of all its
/// lines, against no line of the old side.
pub open spec fn addition_text(path: Seq<char>, content: Seq<char>) -> Seq<char> {
    file_header(path) + "new file mode 100644\n--- /dev/null\n+++ b/"@ + path + "\n@@ -0,0 +1,"@
        + decimal(lines(content).len()) + " @@\n"@ + signed_lines(lines(content), '+')
}

/// The diff of a file that only the old tree has: one hunk of all its
/// lines, against no line of the new side.
pub open spec fn deletion_text(path: Seq<char>, content: Seq<char>) -> Seq<char> {
    file_header(path) + "deleted file mode 100644\n--- a/"@ + path + "\n+++ /dev/null\n@@ -1,"@
        + decimal(lines(content).len()) + " +0,0 @@\n"@ + signed_lines(lines(content), '-')
}

/// The diff of a file that both trees have: the unified diff of its two
/// texts with three lines of context, under the names `a/path` and `b/path`.
pub open spec fn modification_text(path: Seq<char>, old: Seq<char>, new: Seq<char>) -> Seq<char> {
    file_header(path) + unified_diff_text(old, new, "a/"@ + path, "b/"@ + path, 3)
}

/// Appends the line that opens the diff of a file.
fn push_file_header(text: &mut String, path: &str)
    ensures
        final(text)@ == old(text)@ + file_header(path@),
{
    text.append("diff --git a/");
    text.append(path);
    text.append(" b/");
    text.append(path);
    text.append("\n");
    assert(text@ =~= old(text)@ + file_header(path@));
}

/// Appends the lines one below the other, each behind `sign`.
fn push_signed_lines(text: &mut String, found: &Vec<Vec<char>>, sign: char)
    ensures
        final(text)@ == old(text)@ + signed_lines(line_views(found@), sign),
{
    let mut i: usize = 0;
    assert(line_views(found@).take(0) =~= Seq::empty());
    assert(text@ =~= old(text)@ + signed_lines(line_views(found@).take(0), sign));
    while i < found.len()
        invariant
            i <= found@.len(),
            text@ == old(text)@ + signed_lines(line_views(found@).take(i as int), sign),
        decreases found@.len() - i,
    {
        let ghost was = signed_lines(line_views(found@).take(i as int), sign);
        let ghost next = line_views(found@).take(i + 1);
        assert(next.drop_last() =~= line_views(found@).take(i as int));
        assert(next.last() == found@[i as int]@);
        text.push(sign);
        push_chars(text, &found[i]);
        text.push('\n');
        assert(text@ =~= old(text)@ + (was + seq![sign] + found@[i as int]@ + seq!['\n']));
        i += 1;
    }
    assert(line_views(found@).take(found@.len() as int) =~= line_views(found@));
}

/// Appends the diff of a file that only the new tree has.
pub fn write_addition_diff(output: &mut String, path: &str, content: &str)
    ensures
        final(output)@ == old(output)@ + addition_text(path@, content@),
{
    let found = lines_of(content);
    push_file_header(output, path);
    output.append("new file mode 100644\n--- /dev/null\n+++ b/");
    output.append(path);
    output.append("\n@@ -0,0 +1,");
    push_decimal(output, found.len());
    output.append(" @@\n");
    push_signed_lines(output, &found, '+');
    assert(output@ =~= old(output)@ + addition_text(path@, content@));
}

/// Appends the diff of a file that only the old tree has.
pub fn write_deletion_diff(output: &mut String, path: &str, content: &str)
    ensures
        final(output)@ == old(output)@ + deletion_text(path@, content@),
{
    let found = lines_of(content);
    push_file_header(output, path);
    output.append("deleted file mode 100644\n--- a/");
    output.append(path);
    output.append("\n+++ /dev/null\n@@ -1,");
    push_decimal(output, found.len());
    output.append(" +0,0 @@\n");
    push_signed_lines(output, &found, '-');
    assert(output@ =~= old(output)@ + deletion_text(path@, content@));
}

/// Appends the diff of a file that both trees have, given the unified diff
/// of its two texts.
pub fn write_unified_diff(output: &mut String, path: &str, unified: &str)
    ensures
        final(output)@ == old(output)@ + file_header(path@) + unified@,
{
    push_file_header(output, path);
    output.append(unified);
}

/// Appends the diff of a file that both trees have.
pub fn write_modification_diff(
    output: &mut String,
    path: &str,
    old_content: &str,
    new_content: &str,
)
    ensures
        final(output)@ == old(output)@ + modification_text(path@, old_content@, new_content@),
{
    let mut old_name = String::from_str("a/");
    old_name.append(path);
    let mut new_name = String::from_str("b/");
    new_name.append(path);
    let unified = unified_diff(old_content, new_content, old_name.as_str(), new_name.as_str(), 3);
    write_unified_diff(output, path, unified.as_str());
    assert(output@ =~= old(output)@ + modification_text(path@, old_content@, new_content@));
}

/// The first index at or after `from` of a blob with the id `id`, or the
/// number of blobs.
pub open spec fn find_blob(blobs: Seq<Blob>, id: Seq<char>, from: int) -> int
    decreases blobs.len() - from,
{
    if from < 0 || from >= blobs.len() {
        blobs.len() as int
    } else if blobs[from].id@ == id {
        from
    } else {
        find_blob(blobs, id, from + 1)
    }
}

/// The text of the blob `id`: its bytes read as text, where the blobs hold it.
pub open spec fn blob_text(blobs: Seq<Blob>, id: Seq<char>) -> Option<Seq<char>> {
    if find_blob(blobs, id, 0) < blobs.len() {
        Some(utf8_lossy(blobs[find_blob(blobs, id, 0)].data@))
    } else {
        None
    }
}

/// The text of the blob `id`. Bytes that are no text are replaced, so that
/// a blob that is held never fails to be read; a blob that is not held is
/// not found.
pub fn read_blob_text(blobs: &Vec<Blob>, id: &str) -> (text: Result<String, AppError>)
    ensures
        match blob_text(blobs@, id@) {
            Some(t) => text matches Ok(s) && s@ == t,
            None => text matches Err(AppError::NotFound(m)) && m@ == id@,
        },
{
    let mut i: usize = 0;
    while i < blobs.len()
        invariant
            i <= blobs@.len(),
            find_blob(blobs@, id@, 0) == find_blob(blobs@, id@, i as int),
        decreases blobs@.len() - i,
    {
        if same_text(blobs[i].id.as_str(), id) {
            return Ok(decode_lossy(&blobs[i].data));
        }
        i += 1;
    }
    Err(AppError::NotFound(String::from_str(id)))
}

/// The diff of one file, or the id of the first blob that it needs and the
/// blobs do not hold. Of a modified file the old blob is read first.
pub open spec fn change_text(change: FileChangeView, blobs: Seq<Blob>) -> Result<
    Seq<char>,
    Seq<char>,
> {
    match change {
        FileChangeView::Added { path, new_id } => match blob_text(blobs, new_id) {
            Some(content) => Ok(addition_text(path, content)),
            None => Err(new_id),
        },
        FileChangeView::Removed { path, old_id } => match blob_text(blobs, old_id) {
            Some(content) => Ok(deletion_text(path, content)),
            None => Err(old_id),
        },
        FileChangeView::Modified { path, old_id, new_id } => match blob_text(blobs, old_id) {
            Some(old) => match blob_text(blobs, new_id) {
                Some(new) => Ok(modification_text(path, old, new)),
                None => Err(new_id),
            },
            None => Err(old_id),
        },
    }
}

/// The diffs of the files one below the other, in their order, or the id of
/// the first blob that is needed and not held.
pub open spec fn diff_text(changes: Seq<FileChangeView>, blobs: Seq<Blob>) -> Result<
    Seq<char>,
    Seq<char>,
>
    decreases changes.len(),
{
    if changes.len() == 0 {
        Ok(Seq::empty())
    } else {
        match diff_text(changes.drop_last(), blobs) {
            Ok(text) => match change_text(changes.last(), blobs) {
                Ok(more) => Ok(text + more),
                Err(id) => Err(id),
            },
            Err(id) => Err(id),
        }
    }
}

/// Whether what a call returned is what the diff says: the text, or the
/// blob that was not found.
pub open spec fn is_diff(
    returned: Result<String, AppError>,
    diff: Result<Seq<char>, Seq<char>>,
) -> bool {
    match diff {
        Ok(text) => returned matches Ok(s) && s@ == text,
        Err(id) => returned matches Err(AppError::NotFound(m)) && m@ == id,
    }
}

/// Appends the diff of one file. Where a blob is not held, nothing is
/// appended.
pub fn write_change(output: &mut String, change: &FileChange, blobs: &Vec<Blob>) -> (done: Result<
    (),
    AppError,
>)
    ensures
        match change_text(change@, blobs@) {
            Ok(text) => done is Ok && final(output)@ == old(output)@ + text,
            Err(id) => done matches Err(AppError::NotFound(m)) && m@ == id && final(output)@ == old(
                output,
            )@,
        },
{
    match change {
        FileChange::Added { path, new_id } => {
            match read_blob_text(blobs, new_id.as_str()) {
                Ok(content) => {
                    write_addition_diff(output, path.as_str(), content.as_str());
                    Ok(())
                },
                Err(e) => Err(e),
            }
        },
        FileChange::Removed { path, old_id } => {
            match read_blob_text(blobs, old_id.as_str()) {
                Ok(content) => {
                    write_deletion_diff(output, path.as_str(), content.as_str());
                    Ok(())
                },
                Err(e) => Err(e),
            }
        },
        FileChange::Modified { path, old_id, new_id } => {
            match read_blob_text(blobs, old_id.as_str()) {
                Ok(old_content) => {
                    match read_blob_text(blobs, new_id.as_str()) {
                        Ok(new_content) => {
                            write_modification_diff(
                                output,
                                path.as_str(),
                                old_content.as_str(),
                                new_content.as_str(),
                            );
                            Ok(())
                        },
                        Err(e) => Err(e),
                    }
                },
                Err(e) => Err(e),
            }
        },
    }
}

/// The blobs that the diffs of the files read, in the order in which they
/// are read: of each file its blob, of a modified file the old one first.
pub open spec fn blobs_read(changes: Seq<FileChangeView>) -> Seq<Seq<char>>
    decreases changes.len(),
{
    if changes.len() == 0 {
        Seq::empty()
    } else {
        blobs_read(changes.drop_last()) + match changes.last() {
            FileChangeView::Added { path, new_id } => seq![new_id],
            FileChangeView::Removed { path, old_id } => seq![old_id],
            FileChangeView::Modified { path, old_id, new_id } => seq![old_id, new_id],
        }
    }
}

/// Where every blob that is read is held, the diff succeeds.
pub proof fn lemma_diff_succeeds_when_blobs_are_held(changes: Seq<FileChangeView>, blobs: Seq<Blob>)
    requires
        forall|i: int|
            0 <= i < blobs_read(changes).len() ==> blob_text(
                blobs,
                #[trigger] blobs_read(changes)[i],
            ) is Some,
    ensures
        diff_text(changes, blobs) is Ok,
    decreases changes.len(),
{
    if changes.len() > 0 {
        let before = blobs_read(changes.drop_last());
        let all = blobs_read(changes);
        assert forall|i: int| 0 <= i < before.len() implies blob_text(
            blobs,
            #[trigger] before[i],
        ) is Some by {
            assert(all[i] == before[i]);
        }
        lemma_diff_succeeds_when_blobs_are_held(changes.drop_last(), blobs);
        match changes.last() {
            FileChangeView::Added { path, new_id } => {
                assert(all[before.len() as int] == new_id);
            },
            FileChangeView::Removed { path, old_id } => {
                assert(all[before.len() as int] == old_id);
            },
            FileChangeView::Modified { path, old_id, new_id } => {
                assert(all[before.len() as int] == old_id);
                assert(all[before.len() as int + 1] == new_id);
            },
        }
    }
}

/// The ids of the blobs that the diffs of the files read, in that order.
pub fn needed_blobs(changes: &Vec<FileChange>) -> (ids: Vec<String>)
    ensures
        string_views(ids@) == blobs_read(change_views(changes@)),
{
    let mut ids: Vec<String> = Vec::new();
    let mut i: usize = 0;
    assert(change_views(changes@).take(0) =~= Seq::empty());
    assert(string_views(ids@) =~= Seq::empty());
    while i < changes.len()
        invariant
            i <= changes@.len(),
            string_views(ids@) == blobs_read(change_views(changes@).take(i as int)),
        decreases changes@.len() - i,
    {
        let ghost was = string_views(ids@);
        let ghost next = change_views(changes@).take(i + 1);
        assert(next.drop_last() =~= change_views(changes@).take(i as int));
        assert(next.last() == changes@[i as int]@);
        match &changes[i] {
            FileChange::Added { path, new_id } => {
                ids.push(new_id.clone());
                assert(string_views(ids@) =~= was + seq![new_id@]);
            },
            FileChange::Removed { path, old_id } => {
                ids.push(old_id.clone());
                assert(string_views(ids@) =~= was + seq![old_id@]);
            },
            FileChange::Modified { path, old_id, new_id } => {
                ids.push(old_id.clone());
                ids.push(new_id.clone());
                assert(string_views(ids@) =~= was + seq![old_id@, new_id@]);
            },
        }
        i += 1;
    }
    assert(change_views(changes@).take(changes@.len() as int) =~= change_views(changes@));
    ids
}

/// The unified diff text of a list of changes: the diffs of the files one
/// below the other. A blob that is needed and not held fails the whole
/// call; no part of the text is returned then.
pub fn render_changes(changes: &Vec<FileChange>, blobs: &Vec<Blob>) -> (text: Result<
    String,
    AppError,
>)
    ensures
        is_diff(text, diff_text(change_views(changes@), blobs@)),
{
    let mut output = String::new();
    let mut i: usize = 0;
    assert(change_views(changes@).take(0) =~= Seq::empty());
    while i < changes.len()
        invariant
            i <= changes@.len(),
            diff_text(change_views(changes@).take(i as int), blobs@) == Ok::<
                Seq<char>,
                Seq<char>,
            >(output@),
        decreases changes@.len() - i,
    {
        let ghost next = change_views(changes@).take(i + 1);
        assert(next.drop_last() =~= change_views(changes@).take(i as int));
        assert(next.last() == changes@[i as int]@);
        match write_change(&mut output, &changes[i], blobs) {
            Ok(()) => {},
            Err(e) => {
                proof {
                    lemma_diff_fails_on(change_views(changes@), blobs@, i + 1);
                }
                return Err(e);
            },
        }
        i += 1;
    }
    assert(change_views(changes@).take(changes@.len() as int) =~= change_views(changes@));
    Ok(output)
}

/// A diff that fails on a beginning of the changes fails on all of them,
/// with the same blob.
pub proof fn lemma_diff_fails_on(changes: Seq<FileChangeView>, blobs: Seq<Blob>, k: int)
    requires
        0 <= k <= changes.len(),
        diff_text(changes.take(k), blobs) is Err,
    ensures
        diff_text(changes, blobs) == diff_text(changes.take(k), blobs),
    decreases changes.len(),
{
    if k == changes.len() {
        assert(changes.take(k) =~= changes);
    } else {
        assert(changes.drop_last().take(k) =~= changes.take(k));
        lemma_diff_fails_on(changes.drop_last(), blobs, k);
    }
}

/// The files of a tree that may be absent: no tree has no files.
pub open spec fn files_of(tree: Option<&Vec<TreeEntry>>) -> Files {
    match tree {
        Some(entries) => flatten(entries@, Seq::empty()),
        None => Files::empty(),
    }
}

/// The diff between two trees: the files of both by path, and for each path
/// on which they differ the diff of that file, in the order of the paths.
pub open spec fn tree_diff(old: Files, new: Files, blobs: Seq<Blob>) -> Result<
    Seq<char>,
    Seq<char>,
> {
    diff_text(changes_between(old, new), blobs)
}

/// The diff between a tree and itself is empty, whatever blobs are held.
pub proof fn lemma_same_tree_has_empty_diff(files: Files, blobs: Seq<Blob>)
    ensures
        tree_diff(files, files, blobs) == Ok::<Seq<char>, Seq<char>>(Seq::empty()),
{
    lemma_no_changes_from(files, 0);
}

/// The unified diff text between two trees, each given by the entries of
/// its root; no old tree stands for the empty tree. `blobs` holds the
/// contents that the store has read. A blob that is needed and not held
/// fails the whole call.
pub fn diff_trees(old: Option<&Vec<TreeEntry>>, new: &Vec<TreeEntry>, blobs: &Vec<Blob>) -> (text:
    Result<String, AppError>)
    ensures
        is_diff(text, tree_diff(files_of(old), flatten(new@, Seq::empty()), blobs@)),
{
    let old_files = match old {
        Some(entries) => collect_tree_blobs(entries, ""),
        None => TreeSnapshot::new(),
    };
    let new_files = collect_tree_blobs(new, "");
    proof {
        reveal_strlit("");
        assert(""@ =~= Seq::<char>::empty());
    }
    let changes = diff_snapshots(&old_files, &new_files);
    render_changes(&changes, blobs)
}

/// The ids of the blobs that the diff between two trees reads, in the order
/// in which it reads them. Where all of them are held, the diff succeeds.
pub fn blobs_to_read(old: Option<&Vec<TreeEntry>>, new: &Vec<TreeEntry>) -> (ids: Vec<String>)
    ensures
        string_views(ids@) == blobs_read(
            changes_between(files_of(old), flatten(new@, Seq::empty())),
        ),
{
    let old_files = match old {
        Some(entries) => collect_tree_blobs(entries, ""),
        None => TreeSnapshot::new(),
    };
    let new_files = collect_tree_blobs(new, "");
    proof {
        reveal_strlit("");
        assert(""@ =~= Seq::<char>::empty());
    }
    let changes = diff_snapshots(&old_files, &new_files);
    needed_blobs(&changes)
}

/// Accepts the two ids between which a diff is asked for, before anything
/// is read. An id that is no object id is refused as an invalid id, the old
/// one first.
pub fn check_diff_ids(old_oid: &str, new_oid: &str) -> (checked: Result<(), AppError>)
    ensures
        checked is Ok <==> is_object_id(old_oid@) && is_object_id(new_oid@),
        checked matches Err(e) ==> e matches AppError::InvalidId(m) && m@ == fault_message(
            fault_of(
                if !is_object_id(old_oid@) {
                    old_oid
                } else {
                    new_oid
                },
            ),
        ),
{
    match parse_object_id(old_oid) {
        Ok(_) => {},
        Err(e) => {
            return Err(e);
        },
    }
    match parse_object_id(new_oid) {
        Ok(_) => Ok(()),
        Err(e) => Err(e),
    }
}

/// The parent against which a commit is shown: its first one, if it has any.
pub fn first_parent(commit: &RawCommit) -> (parent: Option<String>)
    ensures
        match parent {
            Some(id) => commit.parent_ids@.len() > 0 && id@ == commit.parent_ids@[0]@,
            None => commit.parent_ids@.len() == 0,
        },
{
    if commit.parent_ids.len() > 0 {
        Some(commit.parent_ids[0].clone())
    } else {
        None
    }
}

/// The unified diff text between the trees of two commits.
pub fn generate_unified_diff_text(
    old_tree: &Vec<TreeEntry>,
    new_tree: &Vec<TreeEntry>,
    blobs: &Vec<Blob>,
) -> (text: Result<String, AppError>)
    ensures
        is_diff(
            text,
            tree_diff(
                flatten(old_tree@, Seq::empty()),
                flatten(new_tree@, Seq::empty()),
                blobs@,
            ),
        ),
{
    diff_trees(Some(old_tree), new_tree, blobs)
}

/// The unified diff text of a commit against its first parent, given the
/// tree of the commit and the tree of that parent. A commit without parents
/// has no parent tree and is shown against the empty tree: every file is
/// added.
pub fn diff_commit_to_parent(
    commit: &RawCommit,
    parent_tree: Option<&Vec<TreeEntry>>,
    tree: &Vec<TreeEntry>,
    blobs: &Vec<Blob>,
) -> (text: Result<String, AppError>)
    requires
        parent_tree is Some <==> commit.parent_ids@.len() > 0,
    ensures
        is_diff(text, tree_diff(files_of(parent_tree), flatten(tree@, Seq::empty()), blobs@)),
        commit.parent_ids@.len() == 0 ==> is_diff(
            text,
            tree_diff(Files::empty(), flatten(tree@, Seq::empty()), blobs@),
        ),
{
    diff_trees(parent_tree, tree, blobs)
}

} // verus!
