//! Character-level helpers shared by the parsers and the renderers.

use vstd::prelude::*;
use vstd::string::*;

verus! {

/// `String::push` appends one character.
pub assume_specification[ String::push ](s: &mut String, c: char)
    ensures
        final(s)@ == old(s)@.push(c),
;

/// The characters of `s`, in order.
pub fn chars_of(s: &str) -> (v: Vec<char>)
    ensures
        v@ == s@,
{
    let mut v: Vec<char> = Vec::new();
    for c in it: s.chars()
        invariant
            it.seq() == s@,
            v@ == it.seq().take(it.index() as int),
    {
        v.push(c);
    }
    v
}

/// The string made of the characters `v[from..to]`.
pub fn string_of(v: &Vec<char>, from: usize, to: usize) -> (s: String)
    requires
        from <= to <= v@.len(),
    ensures
        s@ == v@.subrange(from as int, to as int),
{
    let mut s = String::new();
    let mut i: usize = from;
    while i < to
        invariant
            from <= i <= to <= v@.len(),
            s@ == v@.subrange(from as int, i as int),
        decreases to - i,
    {
        s.push(v[i]);
        i += 1;
    }
    s
}

/// Whether two texts hold the same characters.
pub fn same_text(a: &str, b: &str) -> (r: bool)
    ensures
        r == (a@ == b@),
{
    String::from_str(a).eq(&String::from_str(b))
}

/// The characters `v[from..to]` as a list of their own.
pub fn sub_vec(v: &Vec<char>, from: usize, to: usize) -> (part: Vec<char>)
    requires
        from <= to <= v@.len(),
    ensures
        part@ == v@.subrange(from as int, to as int),
{
    let mut part: Vec<char> = Vec::new();
    let mut i: usize = from;
    while i < to
        invariant
            from <= i <= to <= v@.len(),
            part@ == v@.subrange(from as int, i as int),
        decreases to - i,
    {
        part.push(v[i]);
        i += 1;
    }
    part
}

/// Appends the characters of `v` to `out`.
pub fn push_chars(out: &mut String, v: &Vec<char>)
    ensures
        final(out)@ == old(out)@ + v@,
{
    let mut i: usize = 0;
    while i < v.len()
        invariant
            i <= v@.len(),
            out@ == old(out)@ + v@.take(i as int),
        decreases v@.len() - i,
    {
        out.push(v[i]);
        i += 1;
    }
    assert(v@.take(v@.len() as int) =~= v@);
}

/// White space: the characters that Unicode gives the property White_Space.
pub open spec fn is_whitespace(c: char) -> bool {
    let u = c as u32;
    ||| 0x09 <= u <= 0x0D
    ||| u == 0x20
    ||| u == 0x85
    ||| u == 0xA0
    ||| u == 0x1680
    ||| 0x2000 <= u <= 0x200A
    ||| u == 0x2028
    ||| u == 0x2029
    ||| u == 0x202F
    ||| u == 0x205F
    ||| u == 0x3000
}

/// Whether `c` is white space.
pub fn is_space(c: char) -> (r: bool)
    ensures
        r == is_whitespace(c),
{
    let u: u32 = c as u32;
    (0x09 <= u && u <= 0x0D) || u == 0x20 || u == 0x85 || u == 0xA0 || u == 0x1680 || (0x2000 <= u
        && u <= 0x200A) || u == 0x2028 || u == 0x2029 || u == 0x202F || u == 0x205F || u == 0x3000
}

/// The first index at or after `from` that holds `c`, or the length of `s`
/// when there is none.
pub open spec fn find_char(s: Seq<char>, c: char, from: int) -> int
    decreases s.len() - from,
{
    if from < 0 || from >= s.len() {
        s.len() as int
    } else if s[from] == c {
        from
    } else {
        find_char(s, c, from + 1)
    }
}

/// What `find_char` finds: an index in range that holds `c`, with no `c`
/// between `from` and it.
pub proof fn lemma_find_char(s: Seq<char>, c: char, from: int)
    requires
        0 <= from <= s.len(),
    ensures
        from <= find_char(s, c, from) <= s.len(),
        find_char(s, c, from) < s.len() ==> s[find_char(s, c, from)] == c,
        forall|k: int| from <= k < find_char(s, c, from) ==> s[k] != c,
    decreases s.len() - from,
{
    if from < s.len() && s[from] != c {
        lemma_find_char(s, c, from + 1);
    }
}

/// The first index that holds `c`, or the length of `s`.
pub fn find_char_in(s: &Vec<char>, c: char) -> (index: usize)
    ensures
        index == find_char(s@, c, 0),
        index <= s@.len(),
{
    let mut i: usize = 0;
    while i < s.len()
        invariant
            i <= s@.len(),
            find_char(s@, c, 0) == find_char(s@, c, i as int),
        decreases s@.len() - i,
    {
        if s[i] == c {
            return i;
        }
        i += 1;
    }
    i
}

/// The first index at or after `from` that holds no white space, or the
/// length of `s`.
pub open spec fn skip_space(s: Seq<char>, from: int) -> int
    decreases s.len() - from,
{
    if from < 0 || from >= s.len() {
        s.len() as int
    } else if !is_whitespace(s[from]) {
        from
    } else {
        skip_space(s, from + 1)
    }
}

/// The first index at or after `from` that holds white space, or the length
/// of `s`.
pub open spec fn skip_word(s: Seq<char>, from: int) -> int
    decreases s.len() - from,
{
    if from < 0 || from >= s.len() {
        s.len() as int
    } else if is_whitespace(s[from]) {
        from
    } else {
        skip_word(s, from + 1)
    }
}

/// The index from which `s` holds white space only.
pub open spec fn trailing_space(s: Seq<char>) -> int
    decreases s.len(),
{
    if s.len() == 0 {
        0
    } else if is_whitespace(s.last()) {
        trailing_space(s.drop_last())
    } else {
        s.len() as int
    }
}

/// `s` without the white space at its two ends.
pub open spec fn trim(s: Seq<char>) -> Seq<char> {
    if skip_space(s, 0) < trailing_space(s) {
        s.subrange(skip_space(s, 0), trailing_space(s))
    } else {
        Seq::empty()
    }
}

/// The first run of characters of `s` that are no white space, if `s` has one.
pub open spec fn first_word(s: Seq<char>) -> Option<Seq<char>> {
    if skip_space(s, 0) < s.len() {
        Some(s.subrange(skip_space(s, 0), skip_word(s, skip_space(s, 0))))
    } else {
        None
    }
}

/// The first index at or after `from` without white space, or the length.
pub fn skip_space_in(s: &Vec<char>, from: usize) -> (index: usize)
    requires
        from <= s@.len(),
    ensures
        index == skip_space(s@, from as int),
        from <= index <= s@.len(),
{
    let mut i: usize = from;
    while i < s.len()
        invariant
            from <= i <= s@.len(),
            skip_space(s@, from as int) == skip_space(s@, i as int),
        decreases s@.len() - i,
    {
        if !is_space(s[i]) {
            return i;
        }
        i += 1;
    }
    i
}

/// The first index at or after `from` with white space, or the length.
pub fn skip_word_in(s: &Vec<char>, from: usize) -> (index: usize)
    requires
        from <= s@.len(),
    ensures
        index == skip_word(s@, from as int),
        from <= index <= s@.len(),
{
    let mut i: usize = from;
    while i < s.len()
        invariant
            from <= i <= s@.len(),
            skip_word(s@, from as int) == skip_word(s@, i as int),
        decreases s@.len() - i,
    {
        if is_space(s[i]) {
            return i;
        }
        i += 1;
    }
    i
}

/// The index from which `s` holds white space only.
pub fn trailing_space_in(s: &Vec<char>) -> (index: usize)
    ensures
        index == trailing_space(s@),
        index <= s@.len(),
{
    let mut i: usize = s.len();
    assert(s@.take(i as int) =~= s@);
    while i > 0
        invariant
            i <= s@.len(),
            trailing_space(s@) == trailing_space(s@.take(i as int)),
        decreases i,
    {
        if !is_space(s[i - 1]) {
            return i;
        }
        assert(s@.take(i as int).drop_last() =~= s@.take(i - 1));
        i -= 1;
    }
    i
}

/// `s` without the white space at its two ends.
pub fn trim_in(s: &Vec<char>) -> (trimmed: Vec<char>)
    ensures
        trimmed@ == trim(s@),
{
    let from = skip_space_in(s, 0);
    let to = trailing_space_in(s);
    if from < to {
        sub_vec(s, from, to)
    } else {
        Vec::new()
    }
}

/// The first run of characters that are no white space, if there is one.
pub fn first_word_in(s: &Vec<char>) -> (word: Option<Vec<char>>)
    ensures
        word is Some == first_word(s@) is Some,
        word is Some ==> word->0@ == first_word(s@)->0,
{
    let from = skip_space_in(s, 0);
    if from < s.len() {
        let to = skip_word_in(s, from);
        Some(sub_vec(s, from, to))
    } else {
        None
    }
}

/// `c` is one of the ten decimal digits.
pub open spec fn is_digit(c: char) -> bool {
    0x30 <= c as u32 <= 0x39
}

/// The number that a decimal digit stands for.
pub open spec fn digit_value(c: char) -> int {
    c as u32 - 0x30
}

/// Every character of `s` is a decimal digit.
pub open spec fn all_digits(s: Seq<char>) -> bool {
    forall|i: int| 0 <= i < s.len() ==> is_digit(#[trigger] s[i])
}

/// The number that a string of decimal digits stands for.
pub open spec fn digits_value(s: Seq<char>) -> int
    decreases s.len(),
{
    if s.len() == 0 {
        0
    } else {
        digits_value(s.drop_last()) * 10 + digit_value(s.last())
    }
}

/// The digits of a decimal number, after its sign if it has one.
pub open spec fn digits_part(s: Seq<char>) -> Seq<char> {
    if s.len() > 0 && (s[0] == '-' || s[0] == '+') {
        s.skip(1)
    } else {
        s
    }
}

/// The number that `s` stands for without regard to its size: decimal
/// digits, which `-` in front negates.
pub open spec fn signed_value(s: Seq<char>) -> int {
    if s.len() > 0 && s[0] == '-' {
        -digits_value(digits_part(s))
    } else {
        digits_value(digits_part(s))
    }
}

/// The 64-bit signed integer that `s` is the decimal notation of: an
/// optional `+` or `-`, then one digit or more and nothing else, for a
/// number that fits.
pub open spec fn parse_i64(s: Seq<char>) -> Option<i64> {
    if digits_part(s).len() > 0 && all_digits(digits_part(s)) && i64::MIN <= signed_value(s)
        <= i64::MAX {
        Some(signed_value(s) as i64)
    } else {
        None
    }
}

/// A number of digits is at least the number of any of its beginnings.
pub proof fn lemma_digits_value_grows(s: Seq<char>, k: int)
    requires
        all_digits(s),
        0 <= k <= s.len(),
    ensures
        0 <= digits_value(s.take(k)) <= digits_value(s),
    decreases s.len(),
{
    if k == s.len() {
        assert(s.take(k) =~= s);
        if s.len() > 0 {
            assert(all_digits(s.drop_last())) by {
                assert forall|i: int| 0 <= i < s.drop_last().len() implies is_digit(
                    #[trigger] s.drop_last()[i],
                ) by {
                    assert(is_digit(s[i]));
                }
            }
            assert(s.drop_last().take(k - 1) =~= s.drop_last());
            lemma_digits_value_grows(s.drop_last(), k - 1);
            assert(is_digit(s[s.len() - 1]));
        }
    } else {
        assert(all_digits(s.drop_last())) by {
            assert forall|i: int| 0 <= i < s.drop_last().len() implies is_digit(
                #[trigger] s.drop_last()[i],
            ) by {
                assert(is_digit(s[i]));
            }
        }
        lemma_digits_value_grows(s.drop_last(), k);
        assert(s.drop_last().take(k) =~= s.take(k));
        assert(is_digit(s[s.len() - 1]));
    }
}

/// Reads a 64-bit signed integer in decimal notation.
pub fn parse_i64_in(s: &Vec<char>) -> (value: Option<i64>)
    ensures
        value == parse_i64(s@),
{
    let n = s.len();
    let negative = n > 0 && s[0] == '-';
    let start: usize = if n > 0 && (s[0] == '-' || s[0] == '+') {
        1
    } else {
        0
    };
    let ghost digits = digits_part(s@);
    assert(digits =~= s@.skip(start as int));
    if start == n {
        return None;
    }
    let limit: u64 = if negative {
        9223372036854775808
    } else {
        9223372036854775807
    };
    let mut acc: u64 = 0;
    let mut i: usize = start;
    while i < n
        invariant
            start <= i <= n == s@.len(),
            digits == s@.skip(start as int),
            digits == digits_part(s@),
            negative == (s@.len() > 0 && s@[0] == '-'),
            limit == if negative {
                9223372036854775808u64
            } else {
                9223372036854775807u64
            },
            all_digits(digits.take(i - start)),
            acc == digits_value(digits.take(i - start)),
            acc <= limit,
        decreases n - i,
    {
        let u: u32 = s[i] as u32;
        assert(digits[i - start] == s@[i as int]);
        if u < 0x30 || u > 0x39 {
            assert(!is_digit(digits[i - start]));
            return None;
        }
        let d: u64 = (u - 0x30) as u64;
        proof {
            let next = digits.take(i - start + 1);
            assert(next.drop_last() =~= digits.take(i - start));
            assert(next.last() == s@[i as int]);
            assert(all_digits(next)) by {
                assert forall|j: int| 0 <= j < next.len() implies is_digit(#[trigger] next[j]) by {
                    if j < next.len() - 1 {
                        assert(is_digit(digits.take(i - start)[j]));
                    }
                }
            }
            assert(digits_value(next) == acc * 10 + d);
        }
        if acc > (limit - d) / 10 {
            proof {
                if all_digits(digits) {
                    lemma_digits_value_grows(digits, i - start + 1);
                }
            }
            return None;
        }
        acc = acc * 10 + d;
        i += 1;
    }
    assert(digits.take(n - start) =~= digits);
    if negative {
        if acc == 9223372036854775808 {
            Some(i64::MIN)
        } else {
            Some(-(acc as i64))
        }
    } else {
        Some(acc as i64)
    }
}

/// The character of a decimal digit.
pub open spec fn digit_char(d: int) -> char {
    ((0x30 + d) as u8) as char
}

/// The decimal notation of a natural number.
pub open spec fn decimal(n: nat) -> Seq<char>
    decreases n,
{
    if n < 10 {
        seq![digit_char(n as int)]
    } else {
        decimal(n / 10).push(digit_char((n % 10) as int))
    }
}

/// Appends the decimal notation of `n` to `out`.
pub fn push_decimal(out: &mut String, n: usize)
    ensures
        final(out)@ == old(out)@ + decimal(n as nat),
    decreases n,
{
    if n >= 10 {
        push_decimal(out, n / 10);
    }
    let d: u8 = (n % 10) as u8;
    out.push((0x30 + d) as char);
    assert(out@ =~= old(out)@ + decimal(n as nat));
}

/// `s` begins with `prefix`.
pub open spec fn starts_with(s: Seq<char>, prefix: Seq<char>) -> bool {
    prefix.len() <= s.len() && s.subrange(0, prefix.len() as int) == prefix
}

/// `pattern` stands in `s` at index `at`.
pub open spec fn occurs_at(s: Seq<char>, pattern: Seq<char>, at: int) -> bool {
    0 <= at && at + pattern.len() <= s.len() && s.subrange(at, at + pattern.len()) == pattern
}

/// `pattern` stands somewhere in `s`.
pub open spec fn contains(s: Seq<char>, pattern: Seq<char>) -> bool {
    exists|at: int| occurs_at(s, pattern, at)
}

/// Whether `pattern` stands in `s` at index `at`.
pub fn occurs_at_in(s: &Vec<char>, pattern: &Vec<char>, at: usize) -> (r: bool)
    ensures
        r == occurs_at(s@, pattern@, at as int),
{
    if at > s.len() || pattern.len() > s.len() - at {
        return false;
    }
    let mut i: usize = 0;
    assert(s@.subrange(at as int, at + 0) =~= pattern@.take(0));
    while i < pattern.len()
        invariant
            i <= pattern@.len(),
            at + pattern@.len() <= s@.len() <= usize::MAX,
            s@.subrange(at as int, at + i) == pattern@.take(i as int),
        decreases pattern@.len() - i,
    {
        if s[at + i] != pattern[i] {
            assert(s@.subrange(at as int, at + pattern@.len())[i as int] != pattern@[i as int]);
            return false;
        }
        assert(s@.subrange(at as int, at + i + 1) =~= s@.subrange(at as int, at + i).push(
            s@[at + i],
        ));
        assert(pattern@.take(i + 1) =~= pattern@.take(i as int).push(pattern@[i as int]));
        i += 1;
    }
    assert(pattern@.take(pattern@.len() as int) =~= pattern@);
    true
}

/// Whether `s` begins with `prefix`.
pub fn starts_with_in(s: &Vec<char>, prefix: &Vec<char>) -> (r: bool)
    ensures
        r == starts_with(s@, prefix@),
{
    occurs_at_in(s, prefix, 0)
}

/// Whether `pattern` stands somewhere in `s`.
pub fn contains_in(s: &Vec<char>, pattern: &Vec<char>) -> (r: bool)
    ensures
        r == contains(s@, pattern@),
{
    let mut at: usize = 0;
    while at < s.len()
        invariant
            at <= s@.len(),
            forall|k: int| 0 <= k < at ==> !occurs_at(s@, pattern@, k),
        decreases s@.len() - at,
    {
        if occurs_at_in(s, pattern, at) {
            return true;
        }
        at += 1;
    }
    occurs_at_in(s, pattern, at)
}

/// Whether the character `c` stands somewhere in `s`.
pub fn contains_char_in(s: &Vec<char>, c: char) -> (r: bool)
    ensures
        r == s@.contains(c),
{
    let at = find_char_in(s, c);
    proof {
        lemma_find_char(s@, c, 0);
    }
    at < s.len()
}

/// A line without the carriage return at its end, if it has one.
pub open spec fn strip_return(line: Seq<char>) -> Seq<char> {
    if line.len() > 0 && line.last() == '\r' {
        line.drop_last()
    } else {
        line
    }
}

/// The lines of `s` from index `from` on. A line ends at a line feed, and a
/// carriage return just before that line feed belongs to the line ending.
/// What follows the last line feed is a line too, as it stands, unless it
/// is empty.
pub open spec fn lines_from(s: Seq<char>, from: int) -> Seq<Seq<char>>
    decreases s.len() - from,
    via lines_from_decreases
{
    if from < 0 || from >= s.len() {
        Seq::empty()
    } else if find_char(s, '\n', from) >= s.len() {
        seq![s.subrange(from, s.len() as int)]
    } else {
        seq![strip_return(s.subrange(from, find_char(s, '\n', from)))] + lines_from(
            s,
            find_char(s, '\n', from) + 1,
        )
    }
}

#[via_fn]
proof fn lines_from_decreases(s: Seq<char>, from: int) {
    if 0 <= from < s.len() {
        lemma_find_char(s, '\n', from);
    }
}

/// The lines of a text.
pub open spec fn lines(s: Seq<char>) -> Seq<Seq<char>> {
    lines_from(s, 0)
}

/// The views of a list of lines, in order.
pub open spec fn line_views(lines: Seq<Vec<char>>) -> Seq<Seq<char>> {
    Seq::new(lines.len(), |i: int| lines[i]@)
}

/// The first index at or after `from` that holds `c`, or the length.
pub fn find_char_from(s: &Vec<char>, c: char, from: usize) -> (index: usize)
    requires
        from <= s@.len(),
    ensures
        index == find_char(s@, c, from as int),
        from <= index <= s@.len(),
{
    let mut i: usize = from;
    while i < s.len()
        invariant
            from <= i <= s@.len(),
            find_char(s@, c, from as int) == find_char(s@, c, i as int),
        decreases s@.len() - i,
    {
        if s[i] == c {
            return i;
        }
        i += 1;
    }
    i
}

/// The lines of a text.
pub fn lines_of(text: &str) -> (found: Vec<Vec<char>>)
    ensures
        line_views(found@) == lines(text@),
{
    let s = chars_of(text);
    let mut found: Vec<Vec<char>> = Vec::new();
    let mut from: usize = 0;
    assert(line_views(found@) =~= Seq::empty());
    while from < s.len()
        invariant
            from <= s@.len(),
            s@ == text@,
            lines(s@) == line_views(found@) + lines_from(s@, from as int),
        decreases s@.len() - from,
    {
        let ghost was = line_views(found@);
        let end = find_char_from(&s, '\n', from);
        if end >= s.len() {
            found.push(sub_vec(&s, from, s.len()));
            assert(line_views(found@) =~= was.push(s@.subrange(from as int, s@.len() as int)));
            assert(lines(s@) =~= line_views(found@));
            return found;
        }
        let stop: usize = if end > from && s[end - 1] == '\r' {
            end - 1
        } else {
            end
        };
        let line = sub_vec(&s, from, stop);
        assert(line@ =~= strip_return(s@.subrange(from as int, end as int)));
        found.push(line);
        assert(line_views(found@) =~= was.push(line@));
        assert(lines(s@) =~= line_views(found@) + lines_from(s@, end + 1));
        from = end + 1;
    }
    assert(line_views(found@) + Seq::<Seq<char>>::empty() =~= line_views(found@));
    found
}

/// `s` without `prefix` at its beginning, if it begins with it.
pub open spec fn strip_prefix(s: Seq<char>, prefix: Seq<char>) -> Option<Seq<char>> {
    if starts_with(s, prefix) {
        Some(s.skip(prefix.len() as int))
    } else {
        None
    }
}

/// `s` ends with `suffix`.
pub open spec fn ends_with(s: Seq<char>, suffix: Seq<char>) -> bool {
    suffix.len() <= s.len() && s.skip(s.len() - suffix.len()) == suffix
}

/// `s` without `suffix` at its end, if it ends with it.
pub open spec fn strip_suffix(s: Seq<char>, suffix: Seq<char>) -> Option<Seq<char>> {
    if ends_with(s, suffix) {
        Some(s.take(s.len() - suffix.len()))
    } else {
        None
    }
}

/// `s` without `prefix` at its beginning, if it begins with it.
pub fn strip_prefix_of(s: &str, prefix: &str) -> (rest: Option<String>)
    ensures
        rest is Some == strip_prefix(s@, prefix@) is Some,
        rest is Some ==> rest->0@ == strip_prefix(s@, prefix@)->0,
{
    let chars = chars_of(s);
    let head = chars_of(prefix);
    if starts_with_in(&chars, &head) {
        assert(chars@.subrange(head@.len() as int, chars@.len() as int) =~= s@.skip(
            prefix@.len() as int,
        ));
        Some(string_of(&chars, head.len(), chars.len()))
    } else {
        None
    }
}

/// `s` without `suffix` at its end, if it ends with it.
pub fn strip_suffix_of(s: &str, suffix: &str) -> (rest: Option<String>)
    ensures
        rest is Some == strip_suffix(s@, suffix@) is Some,
        rest is Some ==> rest->0@ == strip_suffix(s@, suffix@)->0,
{
    let chars = chars_of(s);
    let tail = chars_of(suffix);
    if tail.len() > chars.len() {
        return None;
    }
    let at = chars.len() - tail.len();
    assert(chars@.subrange(at as int, at + tail@.len()) =~= chars@.skip(at as int));
    if occurs_at_in(&chars, &tail, at) {
        assert(chars@.subrange(0, at as int) =~= s@.take(at as int));
        Some(string_of(&chars, 0, at))
    } else {
        None
    }
}

/// `s` with every `from` turned into `to`.
pub open spec fn replace_char(s: Seq<char>, from: char, to: char) -> Seq<char> {
    Seq::new(
        s.len(),
        |i: int|
            if s[i] == from {
                to
            } else {
                s[i]
            },
    )
}

/// `s` with every `from` turned into `to`.
pub fn replace_char_in(s: &Vec<char>, from: char, to: char) -> (replaced: Vec<char>)
    ensures
        replaced@ == replace_char(s@, from, to),
{
    let mut replaced: Vec<char> = Vec::new();
    let mut i: usize = 0;
    while i < s.len()
        invariant
            i <= s@.len(),
            replaced@ == replace_char(s@, from, to).take(i as int),
        decreases s@.len() - i,
    {
        let c = if s[i] == from {
            to
        } else {
            s[i]
        };
        replaced.push(c);
        assert(replaced@ =~= replace_char(s@, from, to).take(i + 1));
        i += 1;
    }
    assert(replace_char(s@, from, to).take(s@.len() as int) =~= replace_char(s@, from, to));
    replaced
}

} // verus!
