use sukis_git::error::AppError;
use sukis_git::repository::{
    check_bare, discover_bare_repos, file_name_or, get_repository_info, is_bare_repo,
    name_or_else, search_goes_below, DirNode, DirectoryProbe, HeadRef,
};

fn bare() -> DirectoryProbe {
    DirectoryProbe {
        has_git_dir: false,
        has_head_file: true,
        has_objects_dir: true,
        has_refs_dir: true,
    }
}

fn plain() -> DirectoryProbe {
    DirectoryProbe {
        has_git_dir: false,
        has_head_file: false,
        has_objects_dir: false,
        has_refs_dir: false,
    }
}

fn dir(path: &str, probe: DirectoryProbe, children: Vec<DirNode>) -> DirNode {
    DirNode { path: path.to_string(), probe, children }
}

#[test]
fn test_is_bare_repo() {
    assert!(is_bare_repo(&bare()));
}

#[test]
fn a_work_tree_is_not_bare() {
    let probe = DirectoryProbe {
        has_git_dir: true,
        has_head_file: false,
        has_objects_dir: false,
        has_refs_dir: false,
    };
    assert!(!is_bare_repo(&probe));
    assert!(!is_bare_repo(&plain()));
}

#[test]
fn test_open_bare_repo() {
    let result = check_bare(true, "/usb/repo.git");
    assert!(result.is_ok());
}

#[test]
fn a_repository_with_a_work_tree_is_refused() {
    match check_bare(false, "/home/me/project") {
        Err(AppError::Path(m)) => assert_eq!(m, "Not a bare repository: /home/me/project"),
        other => panic!("expected a path error, got {:?}", other),
    }
}

#[test]
fn test_get_repository_info() {
    let info = get_repository_info("/usb/my-repo.git", None);
    assert!(info.is_bare);
}

#[test]
fn repository_info_holds_name_and_head() {
    let head = HeadRef {
        name: "refs/heads/master".to_string(),
        oid: Some("0123456789abcdef0123456789abcdef01234567".to_string()),
    };
    let info = get_repository_info("/usb/my-repo.git", Some(head));
    assert_eq!(info.path, "/usb/my-repo.git");
    assert_eq!(info.name, "my-repo.git");
    assert_eq!(info.head_ref.as_deref(), Some("refs/heads/master"));
    assert_eq!(info.head_oid.as_deref(), Some("0123456789abcdef0123456789abcdef01234567"));

    let unborn = HeadRef { name: "refs/heads/main".to_string(), oid: None };
    let info = get_repository_info("/", Some(unborn));
    assert_eq!(info.name, "unknown");
    assert_eq!(info.head_ref.as_deref(), Some("refs/heads/main"));
    assert_eq!(info.head_oid, None);

    let info = get_repository_info("/usb/r.git", None);
    assert_eq!(info.head_ref, None);
    assert_eq!(info.head_oid, None);
}

#[test]
fn file_name_is_the_final_component() {
    assert_eq!(file_name_or("/a/b/c.txt", "none"), "c.txt");
    assert_eq!(file_name_or("/a/b/", "none"), "b");
    assert_eq!(file_name_or("..", "none"), "none");
    assert_eq!(name_or_else(Some("x".to_string()), "none"), "x");
    assert_eq!(name_or_else(None, "none"), "none");
}

#[test]
fn test_discover_bare_repos() {
    let root = dir("/root", plain(), vec![dir("/root/my-repo.git", bare(), vec![])]);
    let repos = discover_bare_repos(&root, 3);
    assert_eq!(repos.len(), 1);
}

#[test]
fn discovery_stops_at_repositories_and_at_the_depth() {
    let tree = dir(
        "/r",
        plain(),
        vec![
            dir("/r/a.git", bare(), vec![dir("/r/a.git/inner.git", bare(), vec![])]),
            dir(
                "/r/d1",
                plain(),
                vec![
                    dir("/r/d1/b.git", bare(), vec![]),
                    dir("/r/d1/d2", plain(), vec![dir("/r/d1/d2/c.git", bare(), vec![])]),
                ],
            ),
            dir("/r/z.git", bare(), vec![]),
        ],
    );
    assert_eq!(discover_bare_repos(&tree, 3), vec!["/r/a.git", "/r/d1/b.git", "/r/d1/d2/c.git", "/r/z.git"]);
    assert_eq!(discover_bare_repos(&tree, 2), vec!["/r/a.git", "/r/d1/b.git", "/r/z.git"]);
    assert_eq!(discover_bare_repos(&tree, 1), vec!["/r/a.git", "/r/z.git"]);
    assert!(discover_bare_repos(&tree, 0).is_empty());
    let itself = dir("/x.git", bare(), vec![]);
    assert_eq!(discover_bare_repos(&itself, 0), vec!["/x.git"]);
}

#[test]
fn the_search_looks_below_plain_directories_above_the_depth() {
    assert!(search_goes_below(&plain(), 0, 3));
    assert!(search_goes_below(&plain(), 2, 3));
    assert!(!search_goes_below(&plain(), 3, 3));
    assert!(!search_goes_below(&plain(), 4, 3));
    assert!(!search_goes_below(&bare(), 0, 3));
    assert!(!search_goes_below(&plain(), 0, 0));
}

#[test]
fn directories_that_are_not_searched_do_not_matter() {
    let deep = dir("/r", plain(), vec![dir("/r/a", plain(), vec![dir("/r/a/x.git", bare(), vec![])])]);
    let cut = dir("/r", plain(), vec![dir("/r/a", plain(), vec![])]);
    assert_eq!(discover_bare_repos(&deep, 1), discover_bare_repos(&cut, 1));
    assert!(discover_bare_repos(&cut, 1).is_empty());
    assert_eq!(discover_bare_repos(&deep, 2), vec!["/r/a/x.git"]);
}
