use sukis_git::error::AppError;
use sukis_git::log::{
    fetch_count, get_commit_log, parse_author_info, parse_commit, parse_signature, short_id_of,
};
use sukis_git::store::RawCommit;

fn oid(n: u32) -> String {
    format!("{:040x}", n)
}

fn commit(n: u32, time: i64, parents: &[u32]) -> RawCommit {
    RawCommit {
        id: oid(n),
        tree_id: oid(1000 + n),
        parent_ids: parents.iter().map(|p| oid(*p)).collect(),
        author_raw: format!("Test <test@test.com> {} +0000", time),
        committer_raw: format!("Other <other@test.com> {} +0100", time + 5),
        message: format!("commit {}", n),
    }
}

/// Two commits, the second on top of the first, newest first.
fn two_commits() -> Vec<RawCommit> {
    vec![commit(2, 20, &[1]), commit(1, 10, &[])]
}

#[test]
fn test_parse_signature() {
    let sig = parse_signature("Test User <test@example.com> 1234567890 +0000");
    assert_eq!(sig.name, "Test User");
    assert_eq!(sig.email, "test@example.com");
    assert_eq!(sig.timestamp, 1234567890);
}

#[test]
fn signature_without_brackets_is_all_name() {
    let sig = parse_signature("just a name");
    assert_eq!(sig.name, "just a name");
    assert_eq!(sig.email, "");
    assert_eq!(sig.timestamp, 0);
    let sig = parse_signature("");
    assert_eq!(sig.name, "");
    assert_eq!(sig.timestamp, 0);
}

#[test]
fn signature_with_brackets_the_wrong_way_is_all_name() {
    let sig = parse_signature("odd > name < 12");
    assert_eq!(sig.name, "odd > name < 12");
    assert_eq!(sig.email, "");
    assert_eq!(sig.timestamp, 0);
    let sig = parse_signature("only <open 12");
    assert_eq!(sig.name, "only <open 12");
    let sig = parse_signature("only close> 12");
    assert_eq!(sig.name, "only close> 12");
}

#[test]
fn signature_time_is_the_first_word_behind_the_address() {
    assert_eq!(parse_signature("A <a@b>   42   +0900").timestamp, 42);
    assert_eq!(parse_signature("A <a@b>\t-7 +0900").timestamp, -7);
    assert_eq!(parse_signature("A <a@b> +15").timestamp, 15);
    assert_eq!(parse_signature("A <a@b>").timestamp, 0);
    assert_eq!(parse_signature("A <a@b>    ").timestamp, 0);
    assert_eq!(parse_signature("A <a@b> soon 12").timestamp, 0);
    assert_eq!(parse_signature("A <a@b> 12x").timestamp, 0);
    assert_eq!(parse_signature("A <a@b> 9223372036854775807").timestamp, i64::MAX);
    assert_eq!(parse_signature("A <a@b> -9223372036854775808").timestamp, i64::MIN);
    assert_eq!(parse_signature("A <a@b> 9223372036854775808").timestamp, 0);
    assert_eq!(parse_signature("A <a@b>12").timestamp, 12);
    assert_eq!(parse_signature("A <a@b> 1 > 2").timestamp, 1);
}

#[test]
fn signature_name_is_trimmed_and_the_address_is_not() {
    let sig = parse_signature("  Ada  Lovelace \t< ada@x > 5 +0000");
    assert_eq!(sig.name, "Ada  Lovelace");
    assert_eq!(sig.email, " ada@x ");
    assert_eq!(sig.timestamp, 5);
    let sig = parse_signature("<> 5");
    assert_eq!(sig.name, "");
    assert_eq!(sig.email, "");
    assert_eq!(sig.timestamp, 5);
    let sig = parse_signature("한글 이름 <k@x> 7 +0900");
    assert_eq!(sig.name, "한글 이름");
    assert_eq!(sig.email, "k@x");
    assert_eq!(sig.timestamp, 7);
}

#[test]
fn author_info_is_name_and_time() {
    assert_eq!(
        parse_author_info("Test User <test@example.com> 1234567890 +0000"),
        ("Test User".to_string(), 1234567890)
    );
    assert_eq!(parse_author_info("raw text"), ("raw text".to_string(), 0));
    assert_eq!(parse_author_info(" A  <a@b> -5 +0100"), ("A".to_string(), -5));
    assert_eq!(parse_author_info("<> 0"), ("".to_string(), 0));
}

#[test]
fn author_without_a_whole_signature_is_the_raw_text() {
    for raw in [
        "Bob <b@x.org> soon +0000",
        "Bob <b@x.org>",
        "Bob <b@x.org>   ",
        "Bob <b@x.org> 12x +0000",
        "Bob <b@x.org> 9223372036854775808 +0000",
        "Bob > b@x.org < 12",
        "Bob <b@x.org 12",
        "  spaces kept  ",
        "",
    ] {
        assert_eq!(parse_author_info(raw), (raw.to_string(), 0), "{:?}", raw);
    }
    // The log keeps the parts of such a text apart.
    let sig = parse_signature("Bob <b@x.org> soon +0000");
    assert_eq!(sig.name, "Bob");
    assert_eq!(sig.email, "b@x.org");
    assert_eq!(sig.timestamp, 0);
}

#[test]
fn short_id_is_seven_characters() {
    assert_eq!(short_id_of("0123456789abcdef0123456789abcdef01234567"), "0123456");
    assert_eq!(short_id_of("0123456"), "0123456");
    assert_eq!(short_id_of("012"), "012");
    assert_eq!(short_id_of(""), "");
}

#[test]
fn commit_info_takes_the_time_of_the_author() {
    let info = parse_commit(&commit(2, 20, &[1, 7]));
    assert_eq!(info.oid, oid(2));
    assert_eq!(info.short_oid, "0000000");
    assert_eq!(info.message, "commit 2");
    assert_eq!(info.author_name, "Test");
    assert_eq!(info.author_email, "test@test.com");
    assert_eq!(info.committer_name, "Other");
    assert_eq!(info.committer_email, "other@test.com");
    assert_eq!(info.parent_oids, vec![oid(1), oid(7)]);
    assert_eq!(info.timestamp, 20);
}

#[test]
fn test_get_commit_log() {
    let page = get_commit_log(&two_commits(), None, 10).unwrap();
    assert_eq!(page.commits.len(), 2);
    assert!(!page.has_more);
}

#[test]
fn test_get_commit_log_pagination() {
    let page = get_commit_log(&two_commits(), None, 1).unwrap();
    assert_eq!(page.commits.len(), 1);
    assert!(page.has_more);
}

#[test]
fn second_page_goes_on_behind_the_cursor() {
    let page = get_commit_log(&two_commits(), None, 1).unwrap();
    assert_eq!(page.commits.len(), 1);
    assert!(page.has_more);
    assert_eq!(page.commits[0].oid, oid(2));
    assert_eq!(page.cursor, Some(oid(2)));

    let cursor = page.cursor.unwrap();
    // The store walks from the cursor, which it yields first.
    let page = get_commit_log(&two_commits(), Some(&cursor), 1).unwrap();
    assert_eq!(page.commits.len(), 1);
    assert_eq!(page.commits[0].oid, oid(1));
    assert!(!page.has_more);
    assert_eq!(page.cursor, Some(oid(1)));
}

#[test]
fn page_of_exactly_the_rest_has_no_more() {
    let page = get_commit_log(&two_commits(), None, 2).unwrap();
    assert_eq!(page.commits.len(), 2);
    assert!(!page.has_more);
    assert_eq!(page.cursor, Some(oid(1)));
}

#[test]
fn page_of_nothing_has_no_cursor() {
    let page = get_commit_log(&Vec::new(), None, 5).unwrap();
    assert!(page.commits.is_empty());
    assert!(!page.has_more);
    assert_eq!(page.cursor, None);
    let page = get_commit_log(&two_commits(), None, 0).unwrap();
    assert!(page.commits.is_empty());
    assert!(page.has_more);
    assert_eq!(page.cursor, None);
    let last = oid(1);
    let page = get_commit_log(&vec![commit(1, 10, &[])], Some(&last), 5).unwrap();
    assert!(page.commits.is_empty());
    assert!(!page.has_more);
    assert_eq!(page.cursor, None);
}

#[test]
fn a_walk_that_does_not_start_at_the_cursor_is_shown_whole() {
    let elsewhere = oid(9);
    let page = get_commit_log(&two_commits(), Some(&elsewhere), 5).unwrap();
    assert_eq!(page.commits.len(), 2);
}

#[test]
fn a_start_that_is_no_id_is_refused() {
    match get_commit_log(&two_commits(), Some("HEAD"), 5) {
        Err(AppError::InvalidId(m)) => {
            assert_eq!(m, "Invalid OID: A hash sized 4 hexadecimal characters is invalid")
        }
        other => panic!("expected an invalid id, got {:?}", other),
    }
    let not_hex = "z".repeat(40);
    match get_commit_log(&two_commits(), Some(&not_hex), 5) {
        Err(AppError::InvalidId(m)) => assert_eq!(m, "Invalid OID: Invalid character encountered"),
        other => panic!("expected an invalid id, got {:?}", other),
    }
}

#[test]
fn a_page_reads_one_commit_more_than_it_shows() {
    assert_eq!(fetch_count(1, None), 2);
    assert_eq!(fetch_count(50, None), 51);
    assert_eq!(fetch_count(0, None), 1);
    assert_eq!(fetch_count(1, Some("cursor")), 3);
    assert_eq!(fetch_count(usize::MAX, None), usize::MAX);
    assert_eq!(fetch_count(usize::MAX - 1, None), usize::MAX);
    assert_eq!(fetch_count(usize::MAX - 1, Some("c")), usize::MAX);
    assert_eq!(fetch_count(usize::MAX - 2, Some("c")), usize::MAX);
}

#[test]
fn a_page_of_what_was_read_is_the_page_of_the_walk() {
    let walk: Vec<RawCommit> = (0..10u32).rev().map(|n| commit(n + 1, 10 * n as i64, &[])).collect();
    let cursor = oid(10);
    for (start, limit) in [(None, 3usize), (Some(cursor.as_str()), 3), (None, 0), (Some(cursor.as_str()), 8)] {
        let whole = get_commit_log(&walk, start, limit).unwrap();
        let read: Vec<RawCommit> = (0..10u32)
            .rev()
            .map(|n| commit(n + 1, 10 * n as i64, &[]))
            .take(fetch_count(limit, start))
            .collect();
        let part = get_commit_log(&read, start, limit).unwrap();
        let ids = |p: &sukis_git::types::CommitLogPage| -> Vec<String> {
            p.commits.iter().map(|c| c.oid.clone()).collect()
        };
        assert_eq!(ids(&whole), ids(&part));
        assert_eq!(whole.has_more, part.has_more);
        assert_eq!(whole.cursor, part.cursor);
    }
}
