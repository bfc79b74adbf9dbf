use sukis_git::error::AppError;
use sukis_git::init::{
    add_remote_to_config, append_remote, bare_dir_name, check_destination, clone_target_name,
    detect_source_type, escape_git_config_value, format_remote_config, is_hidden_name,
    remote_name_for,
    suggest_repo_name, validate_repo_name, SourceType,
};
use sukis_git::repository::DirectoryProbe;

fn probe(git: bool, head: bool, objects: bool, refs: bool) -> DirectoryProbe {
    DirectoryProbe {
        has_git_dir: git,
        has_head_file: head,
        has_objects_dir: objects,
        has_refs_dir: refs,
    }
}

#[test]
fn test_detect_plain_directory() {
    assert_eq!(detect_source_type(&probe(false, false, false, false)), SourceType::PlainDirectory);
}

#[test]
fn test_detect_git_repo() {
    assert_eq!(detect_source_type(&probe(true, false, false, false)), SourceType::GitRepo);
}

#[test]
fn test_detect_bare_repo() {
    assert_eq!(detect_source_type(&probe(false, true, true, true)), SourceType::GitRepo);
}

#[test]
fn detect_needs_the_whole_bare_layout() {
    assert_eq!(detect_source_type(&probe(false, true, true, false)), SourceType::PlainDirectory);
    assert_eq!(detect_source_type(&probe(false, true, false, true)), SourceType::PlainDirectory);
    assert_eq!(detect_source_type(&probe(false, false, true, true)), SourceType::PlainDirectory);
}

#[test]
fn test_suggest_repo_name() {
    assert_eq!(suggest_repo_name("/some/path/my-project"), "my-project");
}

#[test]
fn suggest_repo_name_falls_back() {
    assert_eq!(suggest_repo_name("/"), "repo");
    assert_eq!(suggest_repo_name(""), "repo");
    assert_eq!(suggest_repo_name("/some/path/.."), "repo");
}

#[test]
fn test_validate_repo_name_valid() {
    assert!(validate_repo_name("my-repo").is_ok());
    assert!(validate_repo_name("한글리포").is_ok());
    assert!(validate_repo_name("repo with spaces").is_ok());
    assert!(validate_repo_name("repo#1").is_ok());
}

#[test]
fn test_validate_repo_name_invalid() {
    assert!(validate_repo_name("").is_err());
    assert!(validate_repo_name("..").is_err());
    assert!(validate_repo_name("../etc").is_err());
    assert!(validate_repo_name("foo/bar").is_err());
    assert!(validate_repo_name("foo\\bar").is_err());
    assert!(validate_repo_name("foo/..").is_err());
}

#[test]
fn validate_repo_name_refuses_nul_and_names_the_fault() {
    assert!(validate_repo_name("a\0b").is_err());
    assert!(validate_repo_name("...").is_ok());
    assert!(validate_repo_name(".").is_ok());
    match validate_repo_name("foo/bar") {
        Err(AppError::Path(m)) => assert_eq!(m, "Invalid repository name: foo/bar"),
        other => panic!("expected a path error, got {:?}", other),
    }
}

#[test]
fn test_escape_git_config_value_plain() {
    assert_eq!(escape_git_config_value("simple"), "simple");
    assert_eq!(escape_git_config_value("/path/to/repo"), "/path/to/repo");
    assert_eq!(escape_git_config_value("한글경로"), "한글경로");
}

#[test]
fn test_escape_git_config_value_special_chars() {
    assert_eq!(escape_git_config_value("C:\\Users\\test"), "C:\\\\Users\\\\test");
    assert_eq!(escape_git_config_value("has\"quote"), "has\\\"quote");
    assert_eq!(escape_git_config_value("line\nnew"), "line\\nnew");
    assert_eq!(escape_git_config_value("tab\there"), "tab\\there");
}

#[test]
fn escape_of_nothing_is_nothing() {
    assert_eq!(escape_git_config_value(""), "");
}

#[test]
fn test_format_remote_config() {
    let config = format_remote_config("origin", "/tmp/repo.git");
    assert!(config.contains("[remote \"origin\"]"));
    assert!(config.contains("url = \"/tmp/repo.git\""));
    assert!(config.contains("fetch = +refs/heads/*:refs/remotes/origin/*"));
}

#[test]
fn test_format_remote_config_special_path() {
    let config = format_remote_config("usb", "/tmp/한글 경로/repo.git");
    assert!(config.contains("[remote \"usb\"]"));
    assert!(config.contains("url = \"/tmp/한글 경로/repo.git\""));
}

#[test]
fn format_remote_config_is_exact() {
    assert_eq!(
        format_remote_config("origin", "C:\\usb\\my \"repo\".git"),
        "[remote \"origin\"]\n\turl = \"C:/usb/my \\\"repo\\\".git\"\n\tfetch = +refs/heads/*:refs/remotes/origin/*\n"
    );
}

#[test]
fn remote_name_avoids_a_taken_origin() {
    assert_eq!(remote_name_for("[core]\n\tbare = false\n"), "origin");
    assert_eq!(remote_name_for("[core]\n[remote \"origin\"]\n\turl = x\n"), "usb");
    assert_eq!(remote_name_for("[remote \"origin2\"]\n"), "origin");
    assert_eq!(remote_name_for(""), "origin");
}

#[test]
fn remote_is_appended_behind_a_line_feed() {
    assert_eq!(
        append_remote("[core]", "origin", "/r.git"),
        "[core]\n[remote \"origin\"]\n\turl = \"/r.git\"\n\tfetch = +refs/heads/*:refs/remotes/origin/*\n"
    );
    assert_eq!(
        add_remote_to_config("[remote \"origin\"]", "/r.git"),
        "[remote \"origin\"]\n[remote \"usb\"]\n\turl = \"/r.git\"\n\tfetch = +refs/heads/*:refs/remotes/usb/*\n"
    );
}

#[test]
fn bare_directory_ends_in_git() {
    assert_eq!(bare_dir_name("test-repo"), "test-repo.git");
}

#[test]
fn test_init_destination_not_empty() {
    let result = check_destination(true, true, "/dest/test-repo.git");
    assert!(result.is_err());
}

#[test]
fn test_clone_destination_not_empty() {
    match check_destination(true, true, "/dest/my-clone") {
        Err(AppError::Io(m)) => {
            assert_eq!(m, "Destination already exists and is not empty: /dest/my-clone")
        }
        other => panic!("expected an IO error, got {:?}", other),
    }
}

#[test]
fn empty_or_absent_destination_is_accepted() {
    assert!(check_destination(true, false, "/d").is_ok());
    assert!(check_destination(false, false, "/d").is_ok());
    assert!(check_destination(false, true, "/d").is_ok());
}

#[test]
fn clone_name_is_the_one_asked_for_or_the_source_stem() {
    assert_eq!(clone_target_name(Some("my-clone"), "/usb/project.git"), "my-clone");
    assert_eq!(clone_target_name(Some("keep.git"), "/usb/project.git"), "keep.git");
    assert_eq!(clone_target_name(None, "/usb/project.git"), "project");
    assert_eq!(clone_target_name(None, "/usb/project"), "project");
    assert_eq!(clone_target_name(None, "/"), "repo");
    assert_eq!(clone_target_name(None, "/usb/.git"), "");
}

#[test]
fn names_that_begin_with_a_dot_are_hidden() {
    assert!(is_hidden_name(".hidden"));
    assert!(is_hidden_name(".git"));
    assert!(is_hidden_name("."));
    assert!(!is_hidden_name("README.md"));
    assert!(!is_hidden_name("a.b"));
    assert!(!is_hidden_name(""));
}
