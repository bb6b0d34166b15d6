//! Character-level scanning over template text.
//!
//! Every predicate here is stated over `Seq<char>`; the executable functions
//! work on `Vec<char>` and are proved against them.
use vstd::prelude::*;

verus! {

/// `String::push` appends one character.
pub assume_specification[ String::push ](s: &mut String, c: char)
    ensures
        final(s)@ == old(s)@.push(c),
;

/// Space or tab: the whitespace that may indent a line.
pub open spec fn is_hws(c: char) -> bool {
    c == ' ' || c == '\t'
}

/// The whitespace beyond ASCII: the other characters with the Unicode
/// property `White_Space`.
#[verifier::opaque]
pub open spec fn is_wide_space(c: char) -> bool {
    ||| c == '\u{85}'
    ||| c == '\u{A0}'
    ||| c == '\u{1680}'
    ||| c == '\u{2000}'
    ||| c == '\u{2001}'
    ||| c == '\u{2002}'
    ||| c == '\u{2003}'
    ||| c == '\u{2004}'
    ||| c == '\u{2005}'
    ||| c == '\u{2006}'
    ||| c == '\u{2007}'
    ||| c == '\u{2008}'
    ||| c == '\u{2009}'
    ||| c == '\u{200A}'
    ||| c == '\u{2028}'
    ||| c == '\u{2029}'
    ||| c == '\u{202F}'
    ||| c == '\u{205F}'
    ||| c == '\u{3000}'
}

/// Whitespace: the characters with the Unicode property `White_Space`. It is
/// what is trimmed from tag names and what separates two delimiters.
pub open spec fn is_space(c: char) -> bool {
    c == ' ' || c == '\t' || c == '\n' || c == '\r' || c == '\x0B' || c == '\x0C'
        || is_wide_space(c)
}

/// `pat` occurs in `s` at index `i`.
pub open spec fn matches_at(s: Seq<char>, pat: Seq<char>, i: int) -> bool {
    0 <= i && i + pat.len() <= s.len() && s.subrange(i, i + pat.len()) == pat
}

/// The least index at or after `from` where `pat` occurs in `s`.
pub open spec fn find_from(s: Seq<char>, pat: Seq<char>, from: int) -> Option<int>
    decreases s.len() - from,
{
    if pat.len() == 0 || from < 0 || from + pat.len() > s.len() {
        None
    } else if matches_at(s, pat, from) {
        Some(from)
    } else {
        find_from(s, pat, from + 1)
    }
}

/// `find_from` returns the first occurrence and nothing before it matches.
pub proof fn lemma_find_from(s: Seq<char>, pat: Seq<char>, from: int)
    requires
        0 <= from,
        pat.len() > 0,
    ensures
        match find_from(s, pat, from) {
            Some(k) => from <= k && matches_at(s, pat, k) && forall|j: int|
                from <= j < k ==> !matches_at(s, pat, j),
            None => forall|j: int| from <= j ==> !matches_at(s, pat, j),
        },
    decreases s.len() - from,
{
    if from + pat.len() > s.len() {
    } else if matches_at(s, pat, from) {
    } else {
        lemma_find_from(s, pat, from + 1);
    }
}

/// A pattern is found at `e` where it occurs there and nowhere between
/// `from` and `e`.
pub proof fn lemma_find_first(s: Seq<char>, pat: Seq<char>, from: int, e: int)
    requires
        pat.len() > 0,
        0 <= from <= e,
        matches_at(s, pat, e),
        forall|j: int| from <= j < e ==> !matches_at(s, pat, j),
    ensures
        find_from(s, pat, from) == Some(e),
    decreases e - from,
{
    if from < e {
        lemma_find_first(s, pat, from + 1, e);
    }
}

/// A pattern is found at `e` where it occurs there and its first character
/// occurs nowhere between `from` and `e`.
pub proof fn lemma_find_at(s: Seq<char>, pat: Seq<char>, from: int, e: int)
    requires
        pat.len() > 0,
        0 <= from <= e,
        matches_at(s, pat, e),
        forall|j: int| from <= j < e ==> s[j] != pat[0],
    ensures
        find_from(s, pat, from) == Some(e),
    decreases e - from,
{
    if from < e {
        if matches_at(s, pat, from) {
            assert(s.subrange(from, from + pat.len())[0] == pat[0]);
        }
        lemma_find_at(s, pat, from + 1, e);
    }
}

/// A pattern whose first character does not occur is not found.
pub proof fn lemma_find_nowhere(s: Seq<char>, pat: Seq<char>, from: int)
    requires
        pat.len() > 0,
        0 <= from,
        forall|j: int| from <= j < s.len() ==> s[j] != pat[0],
    ensures
        find_from(s, pat, from) is None,
    decreases s.len() - from,
{
    if from + pat.len() <= s.len() {
        if matches_at(s, pat, from) {
            assert(s.subrange(from, from + pat.len())[0] == pat[0]);
        }
        lemma_find_nowhere(s, pat, from + 1);
    }
}

/// What occurs in a part of a text occurs in the text.
pub proof fn lemma_match_in_part(s: Seq<char>, pat: Seq<char>, a: int, b: int, j: int)
    requires
        0 <= a <= b <= s.len(),
        matches_at(s.subrange(a, b), pat, j),
    ensures
        matches_at(s, pat, a + j),
{
    assert(s.subrange(a + j, a + j + pat.len()) =~= s.subrange(a, b).subrange(
        j,
        j + pat.len(),
    ));
}

/// Where a pattern with one more character occurs, the pattern occurs.
pub proof fn lemma_match_prefix(s: Seq<char>, pat: Seq<char>, c: char, i: int)
    requires
        matches_at(s, pat.push(c), i),
    ensures
        matches_at(s, pat, i),
{
    assert(s.subrange(i, i + pat.len()) =~= s.subrange(i, i + pat.len() + 1).take(
        pat.len() as int,
    ));
    assert(pat.push(c).take(pat.len() as int) =~= pat);
}

/// `s` without its leading whitespace.
pub open spec fn trim_start(s: Seq<char>) -> Seq<char>
    decreases s.len(),
{
    if s.len() > 0 && is_space(s[0]) {
        trim_start(s.drop_first())
    } else {
        s
    }
}

/// `s` without its trailing whitespace.
pub open spec fn trim_end(s: Seq<char>) -> Seq<char>
    decreases s.len(),
{
    if s.len() > 0 && is_space(s.last()) {
        trim_end(s.drop_last())
    } else {
        s
    }
}

/// `s` without leading and trailing whitespace.
pub open spec fn trimmed(s: Seq<char>) -> Seq<char> {
    trim_end(trim_start(s))
}

/// The number of spaces and tabs that end `s`.
pub open spec fn trailing_hws(s: Seq<char>) -> nat
    decreases s.len(),
{
    if s.len() > 0 && is_hws(s.last()) {
        1 + trailing_hws(s.drop_last())
    } else {
        0
    }
}

/// No more spaces and tabs end a text than it holds characters.
pub proof fn lemma_trailing_hws_bound(s: Seq<char>)
    ensures
        trailing_hws(s) <= s.len(),
    decreases s.len(),
{
    if s.len() > 0 && is_hws(s.last()) {
        lemma_trailing_hws_bound(s.drop_last());
    }
}

/// `s` holds nothing but spaces and tabs (the empty text included).
pub open spec fn all_hws(s: Seq<char>) -> bool {
    trailing_hws(s) == s.len()
}

/// `s` without the spaces and tabs that end it.
pub open spec fn strip_trailing_hws(s: Seq<char>) -> Seq<char> {
    s.take(s.len() - trailing_hws(s))
}

/// `s` ends with the line break `nl` followed by spaces and tabs only.
pub open spec fn ends_with_newline_hws(s: Seq<char>, nl: Seq<char>) -> bool {
    matches_at(s, nl, s.len() - trailing_hws(s) - nl.len())
}

/// `s` begins with the line break `nl`.
pub open spec fn starts_with_newline(s: Seq<char>, nl: Seq<char>) -> bool {
    matches_at(s, nl, 0)
}

/// `s` without the line break `nl` that begins it, if one does.
pub open spec fn strip_leading_newline(s: Seq<char>, nl: Seq<char>) -> Seq<char> {
    if starts_with_newline(s, nl) {
        s.skip(nl.len() as int)
    } else {
        s
    }
}

/// The number of occurrences of `pat` in `s` at or after `from`, counted
/// from left to right without overlap.
pub open spec fn count_from(s: Seq<char>, pat: Seq<char>, from: int) -> nat
    decreases s.len() - from,
{
    if from < 0 || pat.len() == 0 || from + pat.len() > s.len() {
        0
    } else if matches_at(s, pat, from) {
        1 + count_from(s, pat, from + pat.len())
    } else {
        count_from(s, pat, from + 1)
    }
}

/// The least index at or after `from` that holds whitespace.
pub open spec fn first_space(s: Seq<char>, from: int) -> Option<int>
    decreases s.len() - from,
{
    if from < 0 || from >= s.len() {
        None
    } else if is_space(s[from]) {
        Some(from)
    } else {
        first_space(s, from + 1)
    }
}

/// The number of line feeds in `s` at or after `from` that no carriage return
/// stands before: the line breaks that are not CRLF.
pub open spec fn bare_line_feeds(s: Seq<char>, from: int) -> nat
    decreases s.len() - from,
{
    if from < 0 || from >= s.len() {
        0
    } else if s[from] == '\n' && (from == 0 || s[from - 1] != '\r') {
        1 + bare_line_feeds(s, from + 1)
    } else {
        bare_line_feeds(s, from + 1)
    }
}

/// `n` spaces.
pub open spec fn spaces(n: nat) -> Seq<char> {
    Seq::new(n, |i: int| ' ')
}

/// The characters of `s`, in order.
pub fn chars_of(s: &str) -> (out: Vec<char>)
    ensures
        out@ == s@,
{
    let mut out: Vec<char> = Vec::new();
    for c in it: s.chars()
        invariant
            out@ == it.seq().take(it.index() as int),
            it.seq() == s@,
    {
        out.push(c);
    }
    out
}

/// The text made of `v[from..to]`.
pub(crate) fn string_of_range(v: &Vec<char>, from: usize, to: usize) -> (out: String)
    requires
        from <= to <= v.len(),
    ensures
        out@ == v@.subrange(from as int, to as int),
{
    let mut out = String::new();
    let mut i: usize = from;
    while i < to
        invariant
            from <= i <= to <= v.len(),
            out@ == v@.subrange(from as int, i as int),
        decreases to - i,
    {
        out.push(v[i]);
        i += 1;
    }
    out
}

/// Whether `c` is a space or a tab.
pub fn is_hws_char(c: char) -> (r: bool)
    ensures
        r == is_hws(c),
{
    c == ' ' || c == '\t'
}

/// Whether `c` is whitespace.
pub fn is_space_char(c: char) -> (r: bool)
    ensures
        r == is_space(c),
{
    proof {
        reveal(is_wide_space);
    }
    c == ' ' || c == '\t' || c == '\n' || c == '\r' || c == '\x0B' || c == '\x0C'
        || c == '\u{85}' || c == '\u{A0}' || c == '\u{1680}' || c == '\u{2000}'
        || c == '\u{2001}' || c == '\u{2002}' || c == '\u{2003}' || c == '\u{2004}'
        || c == '\u{2005}' || c == '\u{2006}' || c == '\u{2007}' || c == '\u{2008}'
        || c == '\u{2009}' || c == '\u{200A}' || c == '\u{2028}' || c == '\u{2029}'
        || c == '\u{202F}' || c == '\u{205F}' || c == '\u{3000}'
}

/// Whether `pat` occurs in `s` at index `i`.
pub fn starts_with_at(s: &Vec<char>, pat: &Vec<char>, i: usize) -> (r: bool)
    ensures
        r == matches_at(s@, pat@, i as int),
{
    if pat.len() > s.len() || i > s.len() - pat.len() {
        return false;
    }
    let mut k: usize = 0;
    while k < pat.len()
        invariant
            k <= pat.len(),
            i + pat.len() <= s.len(),
            s@.subrange(i as int, i + k) == pat@.take(k as int),
        decreases pat.len() - k,
    {
        if s[i + k] != pat[k] {
            assert(s@.subrange(i as int, i + pat.len())[k as int] != pat@[k as int]);
            return false;
        }
        assert(s@.subrange(i as int, i + k + 1) == s@.subrange(i as int, i + k).push(
            s@[i + k],
        ));
        assert(pat@.take(k + 1) == pat@.take(k as int).push(pat@[k as int]));
        k += 1;
    }
    assert(pat@.take(pat.len() as int) == pat@);
    true
}

/// The first index at or after `from` where `pat` occurs in `s`.
pub fn find(s: &Vec<char>, pat: &Vec<char>, from: usize) -> (r: Option<usize>)
    ensures
        match r {
            Some(k) => find_from(s@, pat@, from as int) == Some(k as int),
            None => find_from(s@, pat@, from as int) is None,
        },
{
    if pat.len() == 0 || pat.len() > s.len() || from > s.len() - pat.len() {
        return None;
    }
    let last: usize = s.len() - pat.len();
    let mut i: usize = from;
    while i <= last
        invariant
            from <= i <= last + 1,
            pat.len() > 0,
            last == s.len() - pat.len(),
            find_from(s@, pat@, from as int) == find_from(s@, pat@, i as int),
        decreases last + 1 - i,
    {
        if starts_with_at(s, pat, i) {
            return Some(i);
        }
        i += 1;
    }
    None
}

/// The first index at or after `from` and before `limit` where `pat` occurs
/// in `s`, or `limit` where it occurs at none of them.
pub(crate) fn find_before(s: &Vec<char>, pat: &Vec<char>, from: usize, limit: usize) -> (r: usize)
    requires
        from <= limit <= s.len(),
    ensures
        r == match find_from(s@, pat@, from as int) {
            Some(k) => if k < limit {
                k
            } else {
                limit as int
            },
            None => limit as int,
        },
{
    if pat.len() == 0 {
        return limit;
    }
    let mut i: usize = from;
    while i < limit
        invariant
            from <= i <= limit <= s.len(),
            pat.len() > 0,
            find_from(s@, pat@, from as int) == find_from(s@, pat@, i as int),
        decreases limit - i,
    {
        if starts_with_at(s, pat, i) {
            return i;
        }
        i += 1;
    }
    proof {
        lemma_find_from(s@, pat@, limit as int);
    }
    limit
}

/// The bounds of `v[from..to]` without the whitespace on both sides.
pub(crate) fn trim_range(v: &Vec<char>, from: usize, to: usize) -> (r: (usize, usize))
    requires
        from <= to <= v.len(),
    ensures
        from <= r.0 <= r.1 <= to,
        v@.subrange(r.0 as int, r.1 as int) == trimmed(v@.subrange(from as int, to as int)),
{
    let mut a: usize = from;
    while a < to && is_space_char(v[a])
        invariant
            from <= a <= to <= v.len(),
            trim_start(v@.subrange(from as int, to as int)) == trim_start(
                v@.subrange(a as int, to as int),
            ),
        decreases to - a,
    {
        assert(v@.subrange(a as int, to as int).drop_first() == v@.subrange(a + 1, to as int));
        a += 1;
    }
    let mut b: usize = to;
    while b > a && is_space_char(v[b - 1])
        invariant
            a <= b <= to <= v.len(),
            trim_end(v@.subrange(a as int, to as int)) == trim_end(
                v@.subrange(a as int, b as int),
            ),
        decreases b - a,
    {
        assert(v@.subrange(a as int, b as int).drop_last() == v@.subrange(a as int, b - 1));
        b -= 1;
    }
    (a, b)
}

/// The number of spaces and tabs that end `v`.
pub fn count_trailing_hws(v: &Vec<char>) -> (n: usize)
    ensures
        n == trailing_hws(v@),
        n <= v.len(),
{
    let mut b: usize = v.len();
    assert(v@.take(v.len() as int) == v@);
    while b > 0 && is_hws_char(v[b - 1])
        invariant
            b <= v.len(),
            trailing_hws(v@) == (v.len() - b) + trailing_hws(v@.take(b as int)),
        decreases b,
    {
        assert(v@.take(b as int).drop_last() == v@.take(b - 1));
        b -= 1;
    }
    v.len() - b
}

/// The number of line feeds in `s` that no carriage return stands before.
pub fn count_bare_line_feeds(s: &Vec<char>) -> (n: usize)
    ensures
        n == bare_line_feeds(s@, 0),
{
    let mut i: usize = 0;
    let mut n: usize = 0;
    while i < s.len()
        invariant
            n <= i <= s.len(),
            bare_line_feeds(s@, 0) == n + bare_line_feeds(s@, i as int),
        decreases s.len() - i,
    {
        if s[i] == '\n' && (i == 0 || s[i - 1] != '\r') {
            n += 1;
        }
        i += 1;
    }
    n
}

/// The number of occurrences of `pat` in `s`, counted without overlap.
pub fn count_matches(s: &Vec<char>, pat: &Vec<char>) -> (n: usize)
    ensures
        n == count_from(s@, pat@, 0),
{
    if pat.len() == 0 || pat.len() > s.len() {
        return 0;
    }
    let last: usize = s.len() - pat.len();
    let mut i: usize = 0;
    let mut n: usize = 0;
    while i <= last
        invariant
            pat.len() > 0,
            last == s.len() - pat.len(),
            n <= i,
            i <= s.len(),
            count_from(s@, pat@, 0) == n + count_from(s@, pat@, i as int),
        decreases s.len() - i,
    {
        if starts_with_at(s, pat, i) {
            n += 1;
            i += pat.len();
        } else {
            i += 1;
        }
    }
    n
}

/// A copy of `v[from..to]`.
pub(crate) fn sub_vec(v: &Vec<char>, from: usize, to: usize) -> (out: Vec<char>)
    requires
        from <= to <= v.len(),
    ensures
        out@ == v@.subrange(from as int, to as int),
{
    let mut out: Vec<char> = Vec::new();
    let mut i: usize = from;
    while i < to
        invariant
            from <= i <= to <= v.len(),
            out@ == v@.subrange(from as int, i as int),
        decreases to - i,
    {
        out.push(v[i]);
        i += 1;
    }
    out
}

/// The text made of the characters of `v`.
pub fn string_of(v: &Vec<char>) -> (out: String)
    ensures
        out@ == v@,
{
    assert(v@.subrange(0, v.len() as int) == v@);
    string_of_range(v, 0, v.len())
}

/// `v` without the whitespace on both sides.
pub fn trim_vec(v: &Vec<char>) -> (out: Vec<char>)
    ensures
        out@ == trimmed(v@),
{
    assert(v@.subrange(0, v.len() as int) == v@);
    let (a, b) = trim_range(v, 0, v.len());
    sub_vec(v, a, b)
}

/// The first index at or after `from` that holds whitespace.
pub fn find_space(v: &Vec<char>, from: usize) -> (r: Option<usize>)
    ensures
        match r {
            Some(k) => first_space(v@, from as int) == Some(k as int) && from <= k < v.len(),
            None => first_space(v@, from as int) is None,
        },
{
    let mut i: usize = from;
    while i < v.len()
        invariant
            from <= i,
            first_space(v@, from as int) == first_space(v@, i as int),
        decreases v.len() - i,
    {
        if is_space_char(v[i]) {
            return Some(i);
        }
        i += 1;
    }
    None
}

/// The index of the first character of `v` at or after `from` that is not
/// whitespace, or the length of `v`.
pub(crate) fn skip_spaces(v: &Vec<char>, from: usize) -> (k: usize)
    requires
        from <= v.len(),
    ensures
        from <= k <= v.len(),
        v@.skip(k as int) == trim_start(v@.skip(from as int)),
{
    let mut k: usize = from;
    while k < v.len() && is_space_char(v[k])
        invariant
            from <= k <= v.len(),
            trim_start(v@.skip(from as int)) == trim_start(v@.skip(k as int)),
        decreases v.len() - k,
    {
        assert(v@.skip(k as int).drop_first() == v@.skip(k + 1));
        k += 1;
    }
    k
}

/// Whether `s` holds nothing but spaces and tabs.
pub fn text_all_hws(s: &str) -> (r: bool)
    ensures
        r == all_hws(s@),
{
    let chars = chars_of(s);
    count_trailing_hws(&chars) == chars.len()
}

/// Whether `s` ends with the line break `nl` followed by spaces and tabs only.
pub fn text_ends_with_newline_hws(s: &str, nl: &Vec<char>) -> (r: bool)
    ensures
        r == ends_with_newline_hws(s@, nl@),
{
    let chars = chars_of(s);
    let n = count_trailing_hws(&chars);
    let body = chars.len() - n;
    if nl.len() > body {
        false
    } else {
        starts_with_at(&chars, nl, body - nl.len())
    }
}

/// Whether `s` begins with the line break `nl`.
pub fn text_starts_with_newline(s: &str, nl: &Vec<char>) -> (r: bool)
    ensures
        r == starts_with_newline(s@, nl@),
{
    let chars = chars_of(s);
    starts_with_at(&chars, nl, 0)
}

} // verus!
