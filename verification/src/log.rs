//! The commit log: signature texts, commits as a log shows them, and pages.

use vstd::prelude::*;
use vstd::string::*;
use crate::error::AppError;
use crate::oid::{fault_message, fault_of, is_object_id, parse_object_id};
use crate::store::{copy_strings, raw_views, RawCommit, RawCommitView};
use crate::text::{
    chars_of, find_char, find_char_in, first_word, first_word_in, lemma_find_char, parse_i64,
    parse_i64_in, same_text, string_of, sub_vec, trim, trim_in,
};
use crate::types::{
    commit_views, option_view, CommitInfo, CommitInfoView, CommitLogPage, CommitLogPageView,
};

verus! {

/// A signature text taken apart.
#[derive(Debug)]
pub struct ParsedSignature {
    pub name: String,
    pub email: String,
    pub timestamp: i64,
}

/// The text has the shape `name <email> rest`: a `<`, and its first `>`
/// behind its first `<`.
pub open spec fn has_email_part(raw: Seq<char>) -> bool {
    find_char(raw, '<', 0) < find_char(raw, '>', 0) < raw.len()
}

/// The name of a signature text: what stands before the first `<`, without
/// the white space around it. A text of another shape is the name as a whole.
pub open spec fn signature_name(raw: Seq<char>) -> Seq<char> {
    if has_email_part(raw) {
        trim(raw.subrange(0, find_char(raw, '<', 0)))
    } else {
        raw
    }
}

/// The address of a signature text: what stands between the first `<` and
/// the first `>`. A text of another shape has none.
pub open spec fn signature_email(raw: Seq<char>) -> Seq<char> {
    if has_email_part(raw) {
        raw.subrange(find_char(raw, '<', 0) + 1, find_char(raw, '>', 0))
    } else {
        Seq::empty()
    }
}

/// The number that a signature text gives as its time: the first word
/// behind the first `>`, read as a decimal number of seconds. There is none
/// where the text has another shape, no word follows, or the word is no
/// such number.
pub open spec fn stated_time(raw: Seq<char>) -> Option<i64> {
    if has_email_part(raw) {
        match first_word(raw.subrange(find_char(raw, '>', 0) + 1, raw.len() as int)) {
            Some(word) => parse_i64(word),
            None => None,
        }
    } else {
        None
    }
}

/// The time of a signature text: the number that it gives, or 0 where it
/// gives none.
pub open spec fn signature_time(raw: Seq<char>) -> i64 {
    match stated_time(raw) {
        Some(seconds) => seconds,
        None => 0,
    }
}

/// The text is a whole signature: it has the shape `name <email> rest`,
/// and gives a number as its time.
pub open spec fn has_time(raw: Seq<char>) -> bool {
    stated_time(raw) is Some
}

/// The name of an author's signature text: what stands before the first
/// `<`, without the white space around it. A text that is no whole
/// signature is the name as it stands.
pub open spec fn author_name(raw: Seq<char>) -> Seq<char> {
    if has_time(raw) {
        trim(raw.subrange(0, find_char(raw, '<', 0)))
    } else {
        raw
    }
}

/// The time of an author's signature text: the number that it gives, and 0
/// for a text that is no whole signature.
pub open spec fn author_time(raw: Seq<char>) -> i64 {
    if has_time(raw) {
        signature_time(raw)
    } else {
        0
    }
}

/// The number that the text behind index `gt` gives as a time.
fn read_time(chars: &Vec<char>, gt: usize) -> (seconds: Option<i64>)
    requires
        gt < chars@.len(),
    ensures
        seconds == match first_word(chars@.subrange(gt + 1, chars@.len() as int)) {
            Some(word) => parse_i64(word),
            None => None,
        },
{
    let end = chars.len();
    let after = sub_vec(chars, gt + 1, end);
    match first_word_in(&after) {
        Some(word) => parse_i64_in(&word),
        None => None,
    }
}

/// Takes a signature text `Name <email> seconds zone` apart. A text of
/// another shape gives the whole text as the name, no address and time 0.
pub fn parse_signature(raw: &str) -> (sig: ParsedSignature)
    ensures
        sig.name@ == signature_name(raw@),
        sig.email@ == signature_email(raw@),
        sig.timestamp == signature_time(raw@),
{
    let chars = chars_of(raw);
    let lt = find_char_in(&chars, '<');
    let gt = find_char_in(&chars, '>');
    if lt < gt && gt < chars.len() {
        let before = sub_vec(&chars, 0, lt);
        let name = trim_in(&before);
        let timestamp = match read_time(&chars, gt) {
            Some(seconds) => seconds,
            None => 0,
        };
        ParsedSignature {
            name: string_of(&name, 0, name.len()),
            email: string_of(&chars, lt + 1, gt),
            timestamp,
        }
    } else {
        ParsedSignature { name: String::from_str(raw), email: String::new(), timestamp: 0 }
    }
}

/// The name and the time of an author's signature text `Name <email>
/// seconds zone`. A text that is no whole signature, for want of the
/// brackets or of a number as its time, gives the whole text as the name
/// and time 0.
pub fn parse_author_info(raw: &str) -> (author: (String, i64))
    ensures
        author.0@ == author_name(raw@),
        author.1 == author_time(raw@),
{
    let chars = chars_of(raw);
    let lt = find_char_in(&chars, '<');
    let gt = find_char_in(&chars, '>');
    if lt < gt && gt < chars.len() {
        match read_time(&chars, gt) {
            Some(seconds) => {
                let before = sub_vec(&chars, 0, lt);
                let name = trim_in(&before);
                return (string_of(&name, 0, name.len()), seconds);
            },
            None => {},
        }
    }
    (String::from_str(raw), 0)
}

/// The short form of an id: its first seven characters, or all of a shorter id.
pub open spec fn short_id(id: Seq<char>) -> Seq<char> {
    if id.len() <= 7 {
        id
    } else {
        id.take(7)
    }
}

/// The short form of an id.
pub fn short_id_of(id: &str) -> (short: String)
    ensures
        short@ == short_id(id@),
{
    let chars = chars_of(id);
    let n: usize = if chars.len() <= 7 {
        chars.len()
    } else {
        7
    };
    assert(chars@.subrange(0, n as int) =~= short_id(id@));
    string_of(&chars, 0, n)
}

/// A commit as a log shows it.
pub open spec fn commit_info(commit: RawCommitView) -> CommitInfoView {
    CommitInfoView {
        oid: commit.id,
        short_oid: short_id(commit.id),
        message: commit.message,
        author_name: signature_name(commit.author_raw),
        author_email: signature_email(commit.author_raw),
        committer_name: signature_name(commit.committer_raw),
        committer_email: signature_email(commit.committer_raw),
        parent_oids: commit.parent_ids,
        timestamp: signature_time(commit.author_raw) as int,
    }
}

/// Turns a commit of the store into the commit that a log shows. The time
/// is the author's.
pub fn parse_commit(commit: &RawCommit) -> (info: CommitInfo)
    ensures
        info@ == commit_info(commit@),
{
    let author = parse_signature(commit.author_raw.as_str());
    let committer = parse_signature(commit.committer_raw.as_str());
    CommitInfo {
        oid: commit.id.clone(),
        short_oid: short_id_of(commit.id.as_str()),
        message: commit.message.clone(),
        author_name: author.name,
        author_email: author.email,
        committer_name: committer.name,
        committer_email: committer.email,
        parent_oids: copy_strings(&commit.parent_ids),
        timestamp: author.timestamp,
    }
}

/// How many commits of the walk a page of `limit` commits needs: one more
/// than it shows, which tells whether the walk goes on, and one more again
/// for the commit that a cursor names.
pub open spec fn commits_needed(limit: nat, resumed: bool) -> nat {
    if resumed {
        limit + 2
    } else {
        limit + 1
    }
}

/// How many commits of the walk have to be read for a page of `limit`
/// commits; the greatest number that the machine has where more are needed.
pub fn fetch_count(limit: usize, start_oid: Option<&str>) -> (count: usize)
    ensures
        count == if commits_needed(limit as nat, start_oid is Some) <= usize::MAX {
            commits_needed(limit as nat, start_oid is Some)
        } else {
            usize::MAX as nat
        },
{
    let extra: usize = if start_oid.is_some() {
        2
    } else {
        1
    };
    if limit <= usize::MAX - extra {
        limit + extra
    } else {
        usize::MAX
    }
}

/// How many commits at the head of the walk a page leaves out: the commit
/// that the cursor names, where the walk starts with it.
pub open spec fn resumed_at(walk: Seq<RawCommitView>, cursor: Option<Seq<char>>) -> int {
    if cursor is Some && walk.len() > 0 && walk[0].id == cursor->0 {
        1
    } else {
        0
    }
}

/// The commits of a page: at most `limit` of the walk, from where the page starts.
pub open spec fn page_commits(
    walk: Seq<RawCommitView>,
    cursor: Option<Seq<char>>,
    limit: nat,
) -> Seq<RawCommitView> {
    let rest = walk.skip(resumed_at(walk, cursor));
    if rest.len() <= limit {
        rest
    } else {
        rest.take(limit as int)
    }
}

/// One page of the log of a walk. The page holds at most `limit` commits. It
/// says whether the walk goes on behind them, and its cursor is the id of its
/// last commit. A page that is asked for with a cursor goes on behind the
/// commit that the cursor names.
pub open spec fn log_page(
    walk: Seq<RawCommitView>,
    cursor: Option<Seq<char>>,
    limit: nat,
) -> CommitLogPageView {
    let shown = page_commits(walk, cursor, limit);
    CommitLogPageView {
        commits: Seq::new(shown.len(), |i: int| commit_info(shown[i])),
        has_more: walk.len() - resumed_at(walk, cursor) > limit,
        cursor: if shown.len() > 0 {
            Some(shown.last().id)
        } else {
            None
        },
    }
}

/// A page that is asked for with the cursor of the page before it shows
/// what follows that page: where the walk starts with the commit that the
/// cursor names, the page is the page of the walk behind that commit.
pub proof fn lemma_resumed_page_starts_behind_the_cursor(walk: Seq<RawCommitView>, limit: nat)
    requires
        walk.len() > 0,
    ensures
        log_page(walk, Some(walk[0].id), limit) == log_page(walk.skip(1), None, limit),
{
    assert(walk.skip(1).skip(0) =~= walk.skip(1));
}

/// A page needs no more of the walk than `commits_needed` says: the page of
/// that many commits is the page of the whole walk.
pub proof fn lemma_page_needs_only_its_commits(
    walk: Seq<RawCommitView>,
    cursor: Option<Seq<char>>,
    limit: nat,
    k: int,
)
    requires
        commits_needed(limit, cursor is Some) <= k <= walk.len(),
    ensures
        log_page(walk.take(k), cursor, limit) == log_page(walk, cursor, limit),
{
    let part = walk.take(k);
    assert(part[0] == walk[0]);
    let skipped = resumed_at(walk, cursor);
    assert(resumed_at(part, cursor) == skipped);
    let shown = page_commits(walk, cursor, limit);
    let shown_of_part = page_commits(part, cursor, limit);
    assert(shown_of_part =~= shown);
    assert(log_page(part, cursor, limit).commits =~= log_page(walk, cursor, limit).commits);
}

/// One page of the log of the walk that starts at `start_oid`, or at the
/// head where none is given. The walk holds the commits in the order in which the
/// store walks them, the starting commit first. A start that is no object
/// id is refused.
pub fn get_commit_log(walk: &Vec<RawCommit>, start_oid: Option<&str>, limit: usize) -> (page:
    Result<CommitLogPage, AppError>)
    ensures
        page is Ok <==> (start_oid is Some ==> is_object_id(start_oid->0@)),
        page matches Ok(p) ==> p@ == log_page(
            raw_views(walk@),
            match start_oid {
                Some(s) => Some(s@),
                None => None,
            },
            limit as nat,
        ),
        page matches Err(e) ==> e matches AppError::InvalidId(m) && m@ == fault_message(
            fault_of(start_oid->0),
        ),
{
    let ghost cursor: Option<Seq<char>> = match start_oid {
        Some(s) => Some(s@),
        None => None,
    };
    let mut first: usize = 0;
    match start_oid {
        Some(s) => {
            match parse_object_id(s) {
                Ok(_) => {},
                Err(e) => {
                    return Err(e);
                },
            }
            if walk.len() > 0 && same_text(walk[0].id.as_str(), s) {
                first = 1;
            }
        },
        None => {},
    }
    assert(first == resumed_at(raw_views(walk@), cursor));
    let ghost shown = page_commits(raw_views(walk@), cursor, limit as nat);
    let mut commits: Vec<CommitInfo> = Vec::new();
    let mut i: usize = first;
    while i < walk.len() && commits.len() < limit
        invariant
            first <= i <= walk@.len(),
            first <= 1,
            commits@.len() == i - first,
            commits@.len() <= limit,
            forall|k: int|
                0 <= k < commits@.len() ==> commits@[k]@ == commit_info(walk@[first + k]@),
        decreases walk@.len() - i,
    {
        commits.push(parse_commit(&walk[i]));
        i += 1;
    }
    let has_more = walk.len() - first > limit;
    let cursor_out = if commits.len() > 0 {
        Some(commits[commits.len() - 1].oid.clone())
    } else {
        None
    };
    proof {
        assert(shown.len() == commits@.len());
        assert forall|k: int| 0 <= k < shown.len() implies shown[k] == walk@[first + k]@ by {}
        assert(commit_views(commits@) =~= Seq::new(shown.len(), |i: int| commit_info(shown[i])));
    }
    Ok(CommitLogPage { commits, has_more, cursor: cursor_out })
}

} // verus!
