use sukis_git::diff::{
    blobs_to_read, check_diff_ids, diff_commit_to_parent, diff_snapshots, diff_trees,
    first_parent, generate_unified_diff_text,
    needed_blobs, read_blob_text, render_changes, write_addition_diff, write_change, write_deletion_diff,
    write_modification_diff, write_unified_diff, FileChange,
};
use sukis_git::error::AppError;
use sukis_git::snapshot::{collect_tree_blobs, join_path_of, order_paths, PathOrder, TreeSnapshot};
use sukis_git::store::{Blob, EntryKind, RawCommit, TreeEntry};

fn file(name: &str, id: &str) -> TreeEntry {
    TreeEntry { name: name.to_string(), kind: EntryKind::Blob, id: id.to_string(), children: Vec::new() }
}

fn folder(name: &str, children: Vec<TreeEntry>) -> TreeEntry {
    TreeEntry {
        name: name.to_string(),
        kind: EntryKind::Tree,
        id: format!("tree-{}", name),
        children,
    }
}

fn link(name: &str) -> TreeEntry {
    TreeEntry {
        name: name.to_string(),
        kind: EntryKind::Other,
        id: "link".to_string(),
        children: Vec::new(),
    }
}

fn blob(id: &str, text: &str) -> Blob {
    Blob { id: id.to_string(), data: text.as_bytes().to_vec() }
}

fn pairs(snapshot: &TreeSnapshot) -> Vec<(String, String)> {
    snapshot.entries.iter().map(|e| (e.path.clone(), e.id.clone())).collect()
}

fn pair(path: &str, id: &str) -> (String, String) {
    (path.to_string(), id.to_string())
}

fn commit_on(parents: &[&str]) -> RawCommit {
    RawCommit {
        id: "c".to_string(),
        tree_id: "t".to_string(),
        parent_ids: parents.iter().map(|p| p.to_string()).collect(),
        author_raw: String::new(),
        committer_raw: String::new(),
        message: String::new(),
    }
}

#[test]
fn flattening_joins_paths_with_slashes_in_ascending_order() {
    let tree = vec![
        file("z.txt", "z"),
        folder("src", vec![file("main.rs", "m"), folder("deep", vec![file("x", "x1")]), file("lib.rs", "l")]),
        file("README.md", "r"),
        folder("a", vec![file("b", "ab")]),
    ];
    let snapshot = collect_tree_blobs(&tree, "");
    assert_eq!(
        pairs(&snapshot),
        vec![
            pair("README.md", "r"),
            pair("a/b", "ab"),
            pair("src/deep/x", "x1"),
            pair("src/lib.rs", "l"),
            pair("src/main.rs", "m"),
            pair("z.txt", "z"),
        ]
    );
    let mut sorted = pairs(&snapshot);
    sorted.sort();
    assert_eq!(sorted, pairs(&snapshot));
}

#[test]
fn directories_and_other_entries_are_no_files() {
    let tree = vec![folder("empty", vec![]), link("symlink"), folder("d", vec![link("inner"), file("f", "1")])];
    assert_eq!(pairs(&collect_tree_blobs(&tree, "")), vec![pair("d/f", "1")]);
    assert!(collect_tree_blobs(&Vec::new(), "").entries.is_empty());
}

#[test]
fn flattening_below_a_prefix_puts_the_prefix_in_front() {
    let tree = vec![file("f", "1"), folder("d", vec![file("g", "2")])];
    assert_eq!(
        pairs(&collect_tree_blobs(&tree, "top/sub")),
        vec![pair("top/sub/d/g", "2"), pair("top/sub/f", "1")]
    );
}

#[test]
fn a_path_that_comes_twice_keeps_its_last_blob() {
    let tree = vec![file("f", "first"), folder("d", vec![file("x", "1")]), file("f", "second"), folder("d", vec![file("x", "2")])];
    assert_eq!(pairs(&collect_tree_blobs(&tree, "")), vec![pair("d/x", "2"), pair("f", "second")]);
}

#[test]
fn paths_order_by_character_and_not_by_component() {
    // '.' and '-' sort before '/', so that "a.txt" and "a-b" come before "a/x".
    let tree = vec![folder("a", vec![file("x", "1")]), file("a.txt", "2"), file("a-b", "3"), file("a0", "4"), file("B", "5")];
    let snapshot = collect_tree_blobs(&tree, "");
    let paths: Vec<&str> = snapshot.entries.iter().map(|e| e.path.as_str()).collect();
    assert_eq!(paths, vec!["B", "a-b", "a.txt", "a/x", "a0"]);
}

#[test]
fn order_of_paths_is_the_order_of_strings() {
    let samples = ["", "a", "A", "a/b", "a.b", "ab", "b", "a/", "한", "é", "z", "a\u{10FFFF}", "a\u{e000}", "a\u{d7ff}"];
    for x in samples.iter() {
        for y in samples.iter() {
            let expected = if x < y {
                PathOrder::Before
            } else if x == y {
                PathOrder::Same
            } else {
                PathOrder::After
            };
            assert_eq!(order_paths(x, y), expected, "{:?} against {:?}", x, y);
        }
    }
}

#[test]
fn snapshot_insert_keeps_the_order_and_replaces() {
    let mut snapshot = TreeSnapshot::new();
    snapshot.insert("m".to_string(), "1".to_string());
    snapshot.insert("a".to_string(), "2".to_string());
    snapshot.insert("z".to_string(), "3".to_string());
    snapshot.insert("m".to_string(), "4".to_string());
    snapshot.insert("b".to_string(), "5".to_string());
    assert_eq!(pairs(&snapshot), vec![pair("a", "2"), pair("b", "5"), pair("m", "4"), pair("z", "3")]);
}

#[test]
fn join_path_puts_a_slash_between() {
    assert_eq!(join_path_of("", "name"), "name");
    assert_eq!(join_path_of("dir", "name"), "dir/name");
    assert_eq!(join_path_of("a/b", ""), "a/b/");
}

#[test]
fn changes_follow_the_order_of_the_paths() {
    let old = collect_tree_blobs(&vec![file("b", "1"), file("c", "2"), file("d", "3"), file("f", "9")], "");
    let new = collect_tree_blobs(&vec![file("a", "7"), file("c", "2"), file("d", "4"), file("e", "8")], "");
    let changes = diff_snapshots(&old, &new);
    let shown: Vec<String> = changes
        .iter()
        .map(|c| match c {
            FileChange::Added { path, new_id } => format!("A {} {}", path, new_id),
            FileChange::Removed { path, old_id } => format!("D {} {}", path, old_id),
            FileChange::Modified { path, old_id, new_id } => format!("M {} {} {}", path, old_id, new_id),
        })
        .collect();
    assert_eq!(shown, vec!["A a 7", "D b 1", "M d 3 4", "A e 8", "D f 9"]);
}

#[test]
fn a_snapshot_does_not_differ_from_itself() {
    let tree = vec![file("a", "1"), folder("d", vec![file("x", "2")])];
    let snapshot = collect_tree_blobs(&tree, "");
    assert!(diff_snapshots(&snapshot, &snapshot).is_empty());
    assert!(diff_snapshots(&TreeSnapshot::new(), &TreeSnapshot::new()).is_empty());
}

#[test]
fn diff_of_a_tree_against_itself_is_empty() {
    let tree = vec![file("a.txt", "a1"), folder("d", vec![file("x", "x1")])];
    // No blob is read, so none needs to be held.
    assert_eq!(diff_trees(Some(&tree), &tree, &Vec::new()).unwrap(), "");
    assert_eq!(generate_unified_diff_text(&tree, &tree, &Vec::new()).unwrap(), "");
    assert_eq!(diff_trees(None, &Vec::new(), &Vec::new()).unwrap(), "");
}

#[test]
fn diff_against_the_empty_tree_adds_every_file() {
    let tree = vec![file("b.txt", "b1"), file("a.txt", "a1")];
    let blobs = vec![blob("a1", "one\ntwo\n"), blob("b1", "x\ny\nz")];
    let text = diff_trees(None, &tree, &blobs).unwrap();
    assert_eq!(
        text,
        "diff --git a/a.txt b/a.txt\nnew file mode 100644\n--- /dev/null\n+++ b/a.txt\n@@ -0,0 +1,2 @@\n+one\n+two\n\
         diff --git a/b.txt b/b.txt\nnew file mode 100644\n--- /dev/null\n+++ b/b.txt\n@@ -0,0 +1,3 @@\n+x\n+y\n+z\n"
    );
    assert_eq!(text.matches("new file mode").count(), 2);
    assert_eq!(text.matches("@@ -0,0 +1,").count(), 2);
    assert_eq!(text.matches("diff --git").count(), 2);
    assert_eq!(diff_commit_to_parent(&commit_on(&[]), None, &tree, &blobs).unwrap(), text);
}

#[test]
fn diff_to_the_empty_tree_removes_every_file() {
    let tree = vec![file("gone.txt", "g")];
    let blobs = vec![blob("g", "bye\n")];
    assert_eq!(
        diff_trees(Some(&tree), &Vec::new(), &blobs).unwrap(),
        "diff --git a/gone.txt b/gone.txt\ndeleted file mode 100644\n--- a/gone.txt\n+++ /dev/null\n@@ -1,1 +0,0 @@\n-bye\n"
    );
}

#[test]
fn a_commit_on_top_of_its_parent_shows_the_line_it_adds() {
    let parent = vec![file("a.txt", "v1")];
    let commit = vec![file("a.txt", "v2")];
    let blobs = vec![blob("v1", "1\n"), blob("v2", "1\n2\n")];
    let text = diff_commit_to_parent(&commit_on(&["a"]), Some(&parent), &commit, &blobs).unwrap();
    assert_eq!(
        text,
        "diff --git a/a.txt b/a.txt\n--- a/a.txt\n+++ b/a.txt\n@@ -1 +1,2 @@\n 1\n+2\n"
    );
    assert_eq!(text.matches("@@ -").count(), 1);
    assert!(text.contains("\n 1\n"));
    assert!(text.contains("\n+2\n"));
    assert_eq!(generate_unified_diff_text(&parent, &commit, &blobs).unwrap(), text);
}

#[test]
fn a_modification_keeps_three_lines_of_context() {
    let old: String = (1..=20).map(|n| format!("line {}\n", n)).collect();
    let new = old.replace("line 10\n", "line ten\n");
    let mut out = String::from("head\n");
    write_modification_diff(&mut out, "f", &old, &new);
    assert_eq!(
        out,
        "head\ndiff --git a/f b/f\n--- a/f\n+++ b/f\n@@ -7,7 +7,7 @@\n line 7\n line 8\n line 9\n-line 10\n+line ten\n line 11\n line 12\n line 13\n"
    );
}

#[test]
fn a_modification_of_equal_texts_shows_the_file_line_alone() {
    let mut out = String::new();
    write_modification_diff(&mut out, "same.txt", "a\nb\n", "a\nb\n");
    assert_eq!(out, "diff --git a/same.txt b/same.txt\n");
}

#[test]
fn unified_text_goes_below_the_file_line_as_it_is() {
    let mut out = String::from("x");
    write_unified_diff(&mut out, "p", "--- a/p\n+++ b/p\n");
    assert_eq!(out, "xdiff --git a/p b/p\n--- a/p\n+++ b/p\n");
}

#[test]
fn an_addition_is_one_hunk_of_all_lines() {
    let mut out = String::from("before\n");
    write_addition_diff(&mut out, "dir/new.txt", "a\r\nb\n\nc");
    assert_eq!(
        out,
        "before\ndiff --git a/dir/new.txt b/dir/new.txt\nnew file mode 100644\n--- /dev/null\n+++ b/dir/new.txt\n@@ -0,0 +1,4 @@\n+a\n+b\n+\n+c\n"
    );
}

#[test]
fn an_addition_of_an_empty_file_has_no_lines() {
    let mut out = String::new();
    write_addition_diff(&mut out, "e", "");
    assert_eq!(out, "diff --git a/e b/e\nnew file mode 100644\n--- /dev/null\n+++ b/e\n@@ -0,0 +1,0 @@\n");
}

#[test]
fn a_deletion_is_one_hunk_of_all_lines() {
    let mut out = String::new();
    write_deletion_diff(&mut out, "old.txt", "1\n2\n3\n4\n5\n6\n7\n8\n9\n10\n11\n12\n");
    assert!(out.starts_with(
        "diff --git a/old.txt b/old.txt\ndeleted file mode 100644\n--- a/old.txt\n+++ /dev/null\n@@ -1,12 +0,0 @@\n-1\n-2\n"
    ));
    assert!(out.ends_with("-11\n-12\n"));
    assert_eq!(out.lines().filter(|l| l.starts_with('-') && !l.starts_with("---")).count(), 12);
}

#[test]
fn blobs_are_read_as_text_with_replacements() {
    let blobs = vec![
        Blob { id: "bin".to_string(), data: vec![0x66, 0xff, 0x6f, 0x0a] },
        blob("txt", "plain ünïcödé"),
        Blob { id: "bin".to_string(), data: vec![0x00] },
    ];
    assert_eq!(read_blob_text(&blobs, "bin").unwrap(), "f\u{FFFD}o\n");
    assert_eq!(read_blob_text(&blobs, "txt").unwrap(), "plain ünïcödé");
}

#[test]
fn a_blob_that_is_not_held_is_not_found() {
    let blobs = vec![blob("a", "x")];
    match read_blob_text(&blobs, "b") {
        Err(AppError::NotFound(id)) => assert_eq!(id, "b"),
        other => panic!("expected not found, got {:?}", other),
    }
}

#[test]
fn a_missing_blob_fails_the_whole_diff() {
    let old = vec![file("a", "a1"), file("m", "m1")];
    let new = vec![file("a", "a2"), file("m", "m2"), file("z", "z1")];
    let blobs = vec![blob("a1", "1\n"), blob("a2", "2\n"), blob("m1", "x\n"), blob("z1", "z\n")];
    match diff_trees(Some(&old), &new, &blobs) {
        Err(AppError::NotFound(id)) => assert_eq!(id, "m2"),
        other => panic!("expected not found, got {:?}", other),
    }
    // Of a modified file the old blob is asked for first.
    match diff_trees(Some(&old), &new, &vec![blob("a1", "1\n"), blob("a2", "2\n")]) {
        Err(AppError::NotFound(id)) => assert_eq!(id, "m1"),
        other => panic!("expected not found, got {:?}", other),
    }
}

#[test]
fn a_change_that_fails_writes_nothing() {
    let change = FileChange::Added { path: "p".to_string(), new_id: "missing".to_string() };
    let mut out = String::from("kept");
    assert!(write_change(&mut out, &change, &Vec::new()).is_err());
    assert_eq!(out, "kept");
    let change = FileChange::Removed { path: "p".to_string(), old_id: "held".to_string() };
    assert!(write_change(&mut out, &change, &vec![blob("held", "l\n")]).is_ok());
    assert_eq!(out, "keptdiff --git a/p b/p\ndeleted file mode 100644\n--- a/p\n+++ /dev/null\n@@ -1,1 +0,0 @@\n-l\n");
}

#[test]
fn changes_render_one_below_the_other() {
    let changes = vec![
        FileChange::Added { path: "a".to_string(), new_id: "1".to_string() },
        FileChange::Modified { path: "b".to_string(), old_id: "1".to_string(), new_id: "2".to_string() },
    ];
    let blobs = vec![blob("1", "x\n"), blob("2", "y\n")];
    assert_eq!(
        render_changes(&changes, &blobs).unwrap(),
        "diff --git a/a b/a\nnew file mode 100644\n--- /dev/null\n+++ b/a\n@@ -0,0 +1,1 @@\n+x\n\
         diff --git a/b b/b\n--- a/b\n+++ b/b\n@@ -1 +1 @@\n-x\n+y\n"
    );
    assert_eq!(render_changes(&Vec::new(), &blobs).unwrap(), "");
}

#[test]
fn a_commit_is_shown_against_its_first_parent() {
    let mut commit = RawCommit {
        id: "c".to_string(),
        tree_id: "t".to_string(),
        parent_ids: vec!["left".to_string(), "right".to_string()],
        author_raw: String::new(),
        committer_raw: String::new(),
        message: String::new(),
    };
    assert_eq!(first_parent(&commit), Some("left".to_string()));
    commit.parent_ids.clear();
    assert_eq!(first_parent(&commit), None);
}

#[test]
fn blobs_are_needed_in_the_order_in_which_they_are_read() {
    let changes = vec![
        FileChange::Added { path: "a".to_string(), new_id: "1".to_string() },
        FileChange::Modified { path: "b".to_string(), old_id: "2".to_string(), new_id: "3".to_string() },
        FileChange::Removed { path: "c".to_string(), old_id: "4".to_string() },
        FileChange::Added { path: "d".to_string(), new_id: "1".to_string() },
    ];
    assert_eq!(needed_blobs(&changes), vec!["1", "2", "3", "4", "1"]);
    assert!(needed_blobs(&Vec::new()).is_empty());
}

#[test]
fn ids_of_a_diff_are_checked_before_anything_is_read() {
    let good = "0123456789abcdef0123456789abcdef01234567";
    let other = "89abcdef0123456789abcdef0123456789abcdef";
    assert!(check_diff_ids(good, other).is_ok());
    assert!(check_diff_ids(good, good).is_ok());
    match check_diff_ids("xyz", other) {
        Err(AppError::InvalidId(m)) => {
            assert_eq!(m, "Invalid OID: A hash sized 3 hexadecimal characters is invalid")
        }
        other => panic!("expected an invalid id, got {:?}", other),
    }
    match check_diff_ids(good, "") {
        Err(AppError::InvalidId(m)) => {
            assert_eq!(m, "Invalid OID: A hash sized 0 hexadecimal characters is invalid")
        }
        other => panic!("expected an invalid id, got {:?}", other),
    }
    // Where both are wrong, the old one is named.
    match check_diff_ids(&"z".repeat(40), "short") {
        Err(AppError::InvalidId(m)) => assert_eq!(m, "Invalid OID: Invalid character encountered"),
        other => panic!("expected an invalid id, got {:?}", other),
    }
}

#[test]
fn the_blobs_to_read_are_those_of_the_files_that_differ() {
    let old = vec![file("a", "a1"), file("keep", "k"), file("m", "m1")];
    let new = vec![file("keep", "k"), file("m", "m2"), folder("d", vec![file("n", "n1")])];
    assert_eq!(blobs_to_read(Some(&old), &new), vec!["a1", "n1", "m1", "m2"]);
    assert_eq!(blobs_to_read(None, &new), vec!["n1", "k", "m2"]);
    assert!(blobs_to_read(Some(&new), &new).is_empty());
    let blobs: Vec<Blob> =
        blobs_to_read(Some(&old), &new).iter().map(|id| blob(id, "text\n")).collect();
    assert!(diff_trees(Some(&old), &new, &blobs).is_ok());
}
