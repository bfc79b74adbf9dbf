use sukis_git::text::{
    chars_of, contains_char_in, contains_in, find_char_from, find_char_in, first_word_in,
    is_space, lines_of, occurs_at_in, parse_i64_in, push_chars, push_decimal, replace_char_in,
    same_text, skip_space_in, skip_word_in, starts_with_in, string_of, strip_prefix_of,
    strip_suffix_of, sub_vec, trailing_space_in, trim_in,
};

fn chars(s: &str) -> Vec<char> {
    s.chars().collect()
}

fn text(v: &Vec<char>) -> String {
    v.iter().collect()
}

#[test]
fn white_space_is_what_unicode_says() {
    let mut n = 0;
    for code in 0..=0x10FFFFu32 {
        if let Some(c) = char::from_u32(code) {
            assert_eq!(is_space(c), c.is_whitespace(), "U+{:04X}", code);
            if is_space(c) {
                n += 1;
            }
        }
    }
    assert_eq!(n, 25);
}

#[test]
fn characters_go_to_a_list_and_back() {
    let s = "héllo, 한글 \u{1F600}";
    assert_eq!(chars_of(s), chars(s));
    assert_eq!(chars_of(""), Vec::<char>::new());
    let v = chars(s);
    assert_eq!(string_of(&v, 0, v.len()), s);
    assert_eq!(string_of(&v, 1, 5), "éllo");
    assert_eq!(string_of(&v, 3, 3), "");
    assert_eq!(text(&sub_vec(&v, 7, 9)), "한글");
    let mut out = String::from(">");
    push_chars(&mut out, &chars("ab"));
    assert_eq!(out, ">ab");
}

#[test]
fn same_text_compares_the_characters() {
    assert!(same_text("abc", "abc"));
    assert!(same_text("", ""));
    assert!(!same_text("abc", "abd"));
    assert!(!same_text("abc", "ab"));
    assert!(!same_text("ABC", "abc"));
}

#[test]
fn find_char_finds_the_first() {
    assert_eq!(find_char_in(&chars("a<b<c"), '<'), 1);
    assert_eq!(find_char_in(&chars("abc"), '<'), 3);
    assert_eq!(find_char_in(&chars(""), '<'), 0);
    assert_eq!(find_char_from(&chars("a<b<c"), '<', 2), 3);
    assert_eq!(find_char_from(&chars("a<b<c"), '<', 1), 1);
    assert_eq!(find_char_from(&chars("a<b<c"), '<', 4), 5);
    assert_eq!(find_char_from(&chars("a<b<c"), '<', 5), 5);
    assert!(contains_char_in(&chars("a/b"), '/'));
    assert!(!contains_char_in(&chars("ab"), '/'));
}

#[test]
fn trimming_is_what_std_does() {
    let samples = ["", " ", "a", "  a b  ", "\t\n x\r\n", "\u{3000}wide\u{a0}", "no", " \u{2003}\u{85}"];
    for s in samples.iter() {
        assert_eq!(text(&trim_in(&chars(s))), s.trim(), "{:?}", s);
        assert_eq!(
            first_word_in(&chars(s)).map(|w| text(&w)),
            s.split_whitespace().next().map(|w| w.to_string()),
            "{:?}",
            s
        );
    }
    assert_eq!(skip_space_in(&chars("  ab "), 0), 2);
    assert_eq!(skip_space_in(&chars("  ab "), 3), 3);
    assert_eq!(skip_space_in(&chars("   "), 1), 3);
    assert_eq!(skip_word_in(&chars("  ab "), 2), 4);
    assert_eq!(skip_word_in(&chars("ab"), 0), 2);
    assert_eq!(trailing_space_in(&chars("ab  ")), 2);
    assert_eq!(trailing_space_in(&chars("   ")), 0);
    assert_eq!(trailing_space_in(&chars("a b")), 3);
}

#[test]
fn numbers_are_read_as_std_reads_them() {
    let samples = [
        "", "0", "7", "42", "-42", "+42", "-0", "+0", "007", "-", "+", "--1", "+-1", "1-", "1 ",
        " 1", "1.5", "1e3", "0x10", "١٢", "9223372036854775807", "9223372036854775808",
        "-9223372036854775808", "-9223372036854775809", "99999999999999999999999999",
        "-99999999999999999999999999", "000000000000000000000000000001", "12a", "a12", "1_000",
        "+9223372036854775807", "18446744073709551616",
    ];
    for s in samples.iter() {
        assert_eq!(parse_i64_in(&chars(s)), s.parse::<i64>().ok(), "{:?}", s);
    }
    assert_eq!(parse_i64_in(&chars("1234567890")), Some(1234567890));
    assert_eq!(parse_i64_in(&chars("-9223372036854775808")), Some(i64::MIN));
}

#[test]
fn numbers_are_written_in_decimal() {
    for n in [0usize, 1, 9, 10, 11, 99, 100, 101, 12345, 1000000, usize::MAX] {
        let mut out = String::from("n=");
        push_decimal(&mut out, n);
        assert_eq!(out, format!("n={}", n));
    }
}

#[test]
fn lines_are_what_std_splits() {
    let samples = [
        "", "\n", "a", "a\n", "a\nb", "a\nb\n", "a\r\nb\r\n", "a\rb\n", "a\r", "\r\n", "\r",
        "\n\n", "a\n\nb", "a\r\r\n", "\n\r", "x\n\r\ny", "no newline at end\r\n\r", "한\n글\n",
    ];
    for s in samples.iter() {
        let found: Vec<String> = lines_of(s).iter().map(text).collect();
        let expected: Vec<String> = s.lines().map(|l| l.to_string()).collect();
        assert_eq!(found, expected, "{:?}", s);
    }
    assert_eq!(lines_of("1\n2\n").len(), 2);
    assert_eq!(lines_of("").len(), 0);
}

#[test]
fn patterns_are_found_where_they_stand() {
    let s = chars("refs/heads/main");
    assert!(starts_with_in(&s, &chars("refs/heads/")));
    assert!(starts_with_in(&s, &chars("")));
    assert!(starts_with_in(&s, &s));
    assert!(!starts_with_in(&s, &chars("refs/tags/")));
    assert!(!starts_with_in(&chars("refs"), &chars("refs/")));
    assert!(occurs_at_in(&s, &chars("heads"), 5));
    assert!(!occurs_at_in(&s, &chars("heads"), 4));
    assert!(occurs_at_in(&s, &chars(""), 15));
    assert!(!occurs_at_in(&s, &chars(""), 16));
    assert!(!occurs_at_in(&s, &chars("main!"), 11));
    assert!(contains_in(&s, &chars("/main")));
    assert!(contains_in(&s, &chars("")));
    assert!(contains_in(&chars(""), &chars("")));
    assert!(!contains_in(&s, &chars("mainly")));
    assert!(!contains_in(&chars(""), &chars("a")));
    assert!(contains_in(&chars("aab"), &chars("ab")));
}

#[test]
fn prefixes_and_suffixes_are_stripped() {
    assert_eq!(strip_prefix_of("refs/heads/main", "refs/heads/").as_deref(), Some("main"));
    assert_eq!(strip_prefix_of("refs/heads/", "refs/heads/").as_deref(), Some(""));
    assert_eq!(strip_prefix_of("refs/head", "refs/heads/"), None);
    assert_eq!(strip_prefix_of("x", "").as_deref(), Some("x"));
    assert_eq!(strip_suffix_of("repo.git", ".git").as_deref(), Some("repo"));
    assert_eq!(strip_suffix_of(".git", ".git").as_deref(), Some(""));
    assert_eq!(strip_suffix_of("git", ".git"), None);
    assert_eq!(strip_suffix_of("repo.git.", ".git"), None);
    assert_eq!(strip_suffix_of("x", "").as_deref(), Some("x"));
}

#[test]
fn replacing_turns_every_one() {
    assert_eq!(text(&replace_char_in(&chars("C:\\a\\b"), '\\', '/')), "C:/a/b");
    assert_eq!(text(&replace_char_in(&chars("none"), '\\', '/')), "none");
    assert_eq!(text(&replace_char_in(&chars(""), 'a', 'b')), "");
}
