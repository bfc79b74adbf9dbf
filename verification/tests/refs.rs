use sukis_git::refs::{categorize_ref, list_refs, RawRef};
use sukis_git::types::RefType;

#[test]
fn test_categorize_ref_local_branch() {
    let (name, ref_type) = categorize_ref("refs/heads/main");
    assert_eq!(name, "main");
    assert_eq!(ref_type, RefType::LocalBranch);
}

#[test]
fn test_categorize_ref_remote_branch() {
    let (name, ref_type) = categorize_ref("refs/remotes/origin/main");
    assert_eq!(name, "origin/main");
    assert_eq!(ref_type, RefType::RemoteBranch);
}

#[test]
fn test_categorize_ref_tag() {
    let (name, ref_type) = categorize_ref("refs/tags/v1.0");
    assert_eq!(name, "v1.0");
    assert_eq!(ref_type, RefType::Tag);
}

#[test]
fn other_refs_count_as_local_branches_under_their_full_name() {
    let (name, ref_type) = categorize_ref("HEAD");
    assert_eq!(name, "HEAD");
    assert_eq!(ref_type, RefType::LocalBranch);
    let (name, ref_type) = categorize_ref("refs/notes/commits");
    assert_eq!(name, "refs/notes/commits");
    assert_eq!(ref_type, RefType::LocalBranch);
    let (name, ref_type) = categorize_ref("refs/heads");
    assert_eq!(name, "refs/heads");
    assert_eq!(ref_type, RefType::LocalBranch);
    let (name, ref_type) = categorize_ref("refs/heads/");
    assert_eq!(name, "");
    assert_eq!(ref_type, RefType::LocalBranch);
}

#[test]
fn list_refs_labels_each_ref_in_order() {
    let id = "0123456789abcdef0123456789abcdef01234567";
    let raw = vec![
        RawRef { full_name: "refs/heads/main".to_string(), target: Some(id.to_string()) },
        RawRef { full_name: "refs/tags/v1".to_string(), target: None },
        RawRef { full_name: "refs/remotes/origin/dev".to_string(), target: Some(id.to_string()) },
    ];
    let labels = list_refs(&raw);
    assert_eq!(labels.len(), 3);
    assert_eq!(labels[0].name, "main");
    assert_eq!(labels[0].full_name, "refs/heads/main");
    assert_eq!(labels[0].target_oid, id);
    assert_eq!(labels[0].ref_type, RefType::LocalBranch);
    assert_eq!(labels[1].name, "v1");
    assert_eq!(labels[1].target_oid, "");
    assert_eq!(labels[1].ref_type, RefType::Tag);
    assert_eq!(labels[2].name, "origin/dev");
    assert_eq!(labels[2].ref_type, RefType::RemoteBranch);
}

#[test]
fn list_refs_of_nothing_is_nothing() {
    assert!(list_refs(&Vec::new()).is_empty());
}
