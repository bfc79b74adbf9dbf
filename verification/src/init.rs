//! Adding a repository to a volume: what the source is, which names are
//! accepted, and the remote section of a configuration file.

use vstd::prelude::*;
use vstd::string::*;
use crate::error::AppError;
use crate::repository::{file_name_or, is_bare_layout, name_or, path_file_name, DirectoryProbe};
use crate::text::{
    chars_of, contains, contains_char_in, contains_in, push_chars, replace_char, replace_char_in,
    same_text, starts_with, starts_with_in, strip_suffix, strip_suffix_of,
};

verus! {

/// What a directory that is to be added holds.
#[derive(Debug, Clone, Copy, PartialEq, Eq, Structural)]
pub enum SourceType {
    GitRepo,
    PlainDirectory,
}

/// A directory is a repository when it has a `.git` directory or is laid
/// out as a bare repository; else it is a plain directory.
pub fn detect_source_type(probe: &DirectoryProbe) -> (source: SourceType)
    ensures
        source == if probe.has_git_dir || is_bare_layout(*probe) {
            SourceType::GitRepo
        } else {
            SourceType::PlainDirectory
        },
{
    let is_bare = probe.has_head_file && probe.has_objects_dir && probe.has_refs_dir;
    if probe.has_git_dir || is_bare {
        SourceType::GitRepo
    } else {
        SourceType::PlainDirectory
    }
}

/// A repository name is accepted when it is not empty, holds no `/`, no
/// `\` and no NUL, and neither is `..` nor leads out of its directory.
pub open spec fn is_valid_repo_name(name: Seq<char>) -> bool {
    !(name.len() == 0 || name.contains('/') || name.contains('\\') || name.contains('\0') || name
        == ".."@ || starts_with(name, "../"@) || contains(name, "/.."@))
}

/// Accepts a repository name or refuses it as a path error.
pub fn validate_repo_name(name: &str) -> (checked: Result<(), AppError>)
    ensures
        checked is Ok <==> is_valid_repo_name(name@),
        checked matches Err(e) ==> e matches AppError::Path(m) && m@
            == "Invalid repository name: "@ + name@,
{
    let chars = chars_of(name);
    let up = chars_of("../");
    let below = chars_of("/..");
    if chars.len() == 0 || contains_char_in(&chars, '/') || contains_char_in(&chars, '\\')
        || contains_char_in(&chars, '\0') || same_text(name, "..") || starts_with_in(&chars, &up)
        || contains_in(&chars, &below) {
        Err(AppError::Path(String::from_str("Invalid repository name: ").concat(name)))
    } else {
        Ok(())
    }
}

/// How a character stands in a quoted configuration value: a backslash
/// before `\` and before `"`, and `\n` and `\t` for a line feed and a tab.
pub open spec fn escape_char(c: char) -> Seq<char> {
    if c == '\\' {
        seq!['\\', '\\']
    } else if c == '"' {
        seq!['\\', '"']
    } else if c == '\n' {
        seq!['\\', 'n']
    } else if c == '\t' {
        seq!['\\', 't']
    } else {
        seq![c]
    }
}

/// A value as it stands between the quotes of a configuration file.
pub open spec fn escaped(value: Seq<char>) -> Seq<char>
    decreases value.len(),
{
    if value.len() == 0 {
        Seq::empty()
    } else {
        escaped(value.drop_last()) + escape_char(value.last())
    }
}

/// Appends the characters of `value` as they stand between quotes.
fn push_escaped(out: &mut String, value: &Vec<char>)
    ensures
        final(out)@ == old(out)@ + escaped(value@),
{
    let mut i: usize = 0;
    assert(value@.take(0) =~= Seq::empty());
    assert(out@ =~= old(out)@ + escaped(value@.take(0)));
    while i < value.len()
        invariant
            i <= value@.len(),
            out@ == old(out)@ + escaped(value@.take(i as int)),
        decreases value@.len() - i,
    {
        let ghost was = escaped(value@.take(i as int));
        assert(value@.take(i + 1).drop_last() =~= value@.take(i as int));
        let c = value[i];
        if c == '\\' {
            out.push('\\');
            out.push('\\');
        } else if c == '"' {
            out.push('\\');
            out.push('"');
        } else if c == '\n' {
            out.push('\\');
            out.push('n');
        } else if c == '\t' {
            out.push('\\');
            out.push('t');
        } else {
            out.push(c);
        }
        assert(out@ =~= old(out)@ + (was + escape_char(c)));
        i += 1;
    }
    assert(value@.take(value@.len() as int) =~= value@);
}

/// A value as it stands between the quotes of a configuration file.
pub fn escape_git_config_value(value: &str) -> (quoted: String)
    ensures
        quoted@ == escaped(value@),
{
    let chars = chars_of(value);
    let mut quoted = String::new();
    push_escaped(&mut quoted, &chars);
    assert(quoted@ =~= escaped(value@));
    quoted
}

/// The section that declares the remote `remote_name` at `repo_path`. In
/// the url, every `\` of the path is a `/`.
pub open spec fn remote_section(remote_name: Seq<char>, repo_path: Seq<char>) -> Seq<char> {
    "[remote \""@ + remote_name + "\"]\n\turl = \""@ + escaped(
        replace_char(repo_path, '\\', '/'),
    ) + "\"\n\tfetch = +refs/heads/*:refs/remotes/"@ + remote_name + "/*\n"@
}

/// The section that declares the remote `remote_name` at `repo_path`.
pub fn format_remote_config(remote_name: &str, repo_path: &str) -> (section: String)
    ensures
        section@ == remote_section(remote_name@, repo_path@),
{
    let path = chars_of(repo_path);
    let url = replace_char_in(&path, '\\', '/');
    let mut section = String::from_str("[remote \"");
    section.append(remote_name);
    section.append("\"]\n\turl = \"");
    push_escaped(&mut section, &url);
    section.append("\"\n\tfetch = +refs/heads/*:refs/remotes/");
    section.append(remote_name);
    section.append("/*\n");
    assert(section@ =~= remote_section(remote_name@, repo_path@));
    section
}

/// The name under which a new remote is declared: `origin`, or `usb` where
/// the configuration declares an `origin` already.
pub open spec fn new_remote_name(config: Seq<char>) -> Seq<char> {
    if contains(config, "[remote \"origin\"]"@) {
        "usb"@
    } else {
        "origin"@
    }
}

/// The name under which a new remote is declared in a configuration.
pub fn remote_name_for(config: &str) -> (name: String)
    ensures
        name@ == new_remote_name(config@),
{
    let chars = chars_of(config);
    let origin = chars_of("[remote \"origin\"]");
    if contains_in(&chars, &origin) {
        String::from_str("usb")
    } else {
        String::from_str("origin")
    }
}

/// A configuration with the remote `remote_name` declared at its end,
/// behind a line feed.
pub fn append_remote(config: &str, remote_name: &str, repo_path: &str) -> (extended: String)
    ensures
        extended@ == config@ + "\n"@ + remote_section(remote_name@, repo_path@),
{
    let section = format_remote_config(remote_name, repo_path);
    let mut extended = String::from_str(config);
    extended.append("\n");
    extended.append(section.as_str());
    extended
}

/// The configuration of a repository that was forked, with the fork
/// declared as a remote: as `origin`, or as `usb` where `origin` is taken.
pub fn add_remote_to_config(config: &str, bare_repo_path: &str) -> (extended: String)
    ensures
        extended@ == config@ + "\n"@ + remote_section(new_remote_name(config@), bare_repo_path@),
{
    let name = remote_name_for(config);
    append_remote(config, name.as_str(), bare_repo_path)
}

/// The name of the directory of the bare repository `repo_name`.
pub fn bare_dir_name(repo_name: &str) -> (dir: String)
    ensures
        dir@ == repo_name@ + ".git"@,
{
    String::from_str(repo_name).concat(".git")
}

/// Accepts a destination that does not exist or is empty, and refuses one
/// that holds anything.
pub fn check_destination(exists: bool, holds_entries: bool, dest_path: &str) -> (checked: Result<
    (),
    AppError,
>)
    ensures
        checked is Ok <==> !(exists && holds_entries),
        checked matches Err(e) ==> e matches AppError::Io(m) && m@
            == "Destination already exists and is not empty: "@ + dest_path@,
{
    if exists && holds_entries {
        Err(
            AppError::Io(
                String::from_str("Destination already exists and is not empty: ").concat(dest_path),
            ),
        )
    } else {
        Ok(())
    }
}

/// Whether a file or directory is left out when a directory is taken into
/// a repository: one whose name begins with a dot is.
pub fn is_hidden_name(name: &str) -> (hidden: bool)
    ensures
        hidden == starts_with(name@, "."@),
{
    let chars = chars_of(name);
    let dot = chars_of(".");
    starts_with_in(&chars, &dot)
}

/// The name that is suggested for the repository of a directory: the final
/// component of its path, or `repo` where the path has none.
pub fn suggest_repo_name(source: &str) -> (name: String)
    ensures
        name@ == name_or(path_file_name(source@), "repo"@),
{
    file_name_or(source, "repo")
}

/// The name without `.git` at its end, if it ends so.
pub open spec fn without_git_suffix(name: Seq<char>) -> Seq<char> {
    match strip_suffix(name, ".git"@) {
        Some(stem) => stem,
        None => name,
    }
}

/// The name of the working copy that a clone makes: the name asked for, or
/// else the final component of the source path, or `repo`, without `.git`
/// at its end.
pub fn clone_target_name(repo_name: Option<&str>, source: &str) -> (name: String)
    ensures
        name@ == match repo_name {
            Some(asked) => asked@,
            None => without_git_suffix(name_or(path_file_name(source@), "repo"@)),
        },
{
    match repo_name {
        Some(asked) => String::from_str(asked),
        None => {
            let raw = file_name_or(source, "repo");
            match strip_suffix_of(raw.as_str(), ".git") {
                Some(stem) => stem,
                None => raw,
            }
        },
    }
}

} // verus!
