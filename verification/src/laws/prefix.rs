//! The tokenizer up to a line break: what it has read when it stands at the
//! line break is decided by the text up to and with that line break.
use crate::error::RibboncurlsError;
use crate::text::{
    find_from, first_space, is_space, lemma_find_from, matches_at, trim_end, trim_start, trimmed,
};
use crate::token::{
    delimiter_pair, emit, lemma_text_end, lex_from, prepend, tag_token, text_end, LexState,
    TokenView,
};
use crate::utils::Newline;
use vstd::prelude::*;

verus! {

/// A text holds no whitespace.
pub open spec fn plain(s: Seq<char>) -> bool {
    forall|k: int| 0 <= k < s.len() ==> !is_space(#[trigger] s[k])
}

/// Neither delimiter of a state holds whitespace.
pub open spec fn plain_delimiters(st: LexState) -> bool {
    plain(st.left) && plain(st.right)
}

/// Where `pat` is found at or after `from` so that it ends at or before `b`.
pub open spec fn found_before(t: Seq<char>, pat: Seq<char>, from: int, b: int) -> Option<int> {
    match find_from(t, pat, from) {
        Some(e) => if e + pat.len() <= b {
            Some(e)
        } else {
            None
        },
        None => None,
    }
}

/// A token put before the tokens read up to a place.
pub open spec fn cons(tok: TokenView, rest: Option<(Seq<TokenView>, LexState)>) -> Option<
    (Seq<TokenView>, LexState),
> {
    match rest {
        Some((toks, st)) => Some((seq![tok] + toks, st)),
        None => None,
    }
}

/// The tokens that the tokenizer reads from index `i` up to index `b`, and
/// its state there; `None` where it fails before `b` or never stands at `b`,
/// because a tag or a text spans it.
pub open spec fn lex_upto(t: Seq<char>, i: int, b: int, st: LexState) -> Option<
    (Seq<TokenView>, LexState),
>
    decreases t.len() - i,
{
    if i == b {
        Some((Seq::empty(), st))
    } else if i < 0 || i > b || b > t.len() || st.left.len() == 0 || st.right.len() == 0 {
        None
    } else {
        let raw_left = st.left.push(st.left[0]);
        let raw_right = st.right.push(st.right[0]);
        if matches_at(t, raw_left, i) {
            match found_before(t, raw_right, i + raw_left.len(), b) {
                None => None,
                Some(e) => {
                    proof {
                        lemma_find_from(t, raw_right, i + raw_left.len());
                    }
                    cons(
                        TokenView::Variable {
                            name: trimmed(t.subrange(i + raw_left.len(), e)),
                            escaped: false,
                        },
                        lex_upto(t, e + raw_right.len(), b, st),
                    )
                },
            }
        } else if matches_at(t, st.left, i) {
            match found_before(t, st.right, i + st.left.len(), b) {
                None => None,
                Some(e) => {
                    proof {
                        lemma_find_from(t, st.right, i + st.left.len());
                    }
                    match tag_token(t.subrange(i + st.left.len(), e), st) {
                        Err(_) => None,
                        Ok((tok, next)) => cons(tok, lex_upto(t, e + st.right.len(), b, next)),
                    }
                },
            }
        } else {
            proof {
                lemma_text_end(t, i, st);
            }
            cons(
                TokenView::Text(t.subrange(i, text_end(t, i, st))),
                lex_upto(t, text_end(t, i, st), b, st),
            )
        }
    }
}

proof fn lemma_prepend_cons(
    first: TokenView,
    rest: Seq<TokenView>,
    r: Result<(Seq<TokenView>, LexState), RibboncurlsError>,
)
    ensures
        prepend(seq![first] + rest, r) == emit(first, prepend(rest, r)),
        prepend(Seq::empty(), r) == r,
{
    if let Ok((tokens, st)) = r {
        assert((seq![first] + rest) + tokens =~= seq![first] + (rest + tokens));
        assert(Seq::<TokenView>::empty() + tokens =~= tokens);
    }
}

/// Where the tokenizer stands at `b`, what it returns for the whole text is
/// what it has read up to `b` followed by what it returns from `b` on.
pub proof fn lemma_lex_split(t: Seq<char>, i: int, b: int, st: LexState)
    ensures
        match lex_upto(t, i, b, st) {
            Some((tokens, at)) => lex_from(t, i, st) == prepend(tokens, lex_from(t, b, at)),
            None => true,
        },
    decreases t.len() - i,
{
    if i == b {
        lemma_prepend_cons(TokenView::Comment, Seq::empty(), lex_from(t, b, st));
    } else if i < 0 || i > b || b > t.len() || st.left.len() == 0 || st.right.len() == 0 {
    } else {
        let raw_left = st.left.push(st.left[0]);
        let raw_right = st.right.push(st.right[0]);
        if matches_at(t, raw_left, i) {
            if let Some(e) = found_before(t, raw_right, i + raw_left.len(), b) {
                lemma_find_from(t, raw_right, i + raw_left.len());
                lemma_lex_split(t, e + raw_right.len(), b, st);
                if let Some((rest, at)) = lex_upto(t, e + raw_right.len(), b, st) {
                    lemma_prepend_cons(
                        TokenView::Variable {
                            name: trimmed(t.subrange(i + raw_left.len(), e)),
                            escaped: false,
                        },
                        rest,
                        lex_from(t, b, at),
                    );
                }
            }
        } else if matches_at(t, st.left, i) {
            if let Some(e) = found_before(t, st.right, i + st.left.len(), b) {
                lemma_find_from(t, st.right, i + st.left.len());
                if let Ok((tok, next)) = tag_token(t.subrange(i + st.left.len(), e), st) {
                    lemma_lex_split(t, e + st.right.len(), b, next);
                    if let Some((rest, at)) = lex_upto(t, e + st.right.len(), b, next) {
                        lemma_prepend_cons(tok, rest, lex_from(t, b, at));
                    }
                }
            }
        } else {
            lemma_text_end(t, i, st);
            let end = text_end(t, i, st);
            lemma_lex_split(t, end, b, st);
            if let Some((rest, at)) = lex_upto(t, end, b, st) {
                lemma_prepend_cons(
                    TokenView::Text(t.subrange(i, end)),
                    rest,
                    lex_from(t, b, at),
                );
            }
        }
    }
}

/// Before the first whitespace there is none.
proof fn lemma_first_space(s: Seq<char>, from: int)
    requires
        0 <= from,
    ensures
        match first_space(s, from) {
            Some(p) => from <= p < s.len() && is_space(s[p]) && forall|k: int|
                from <= k < p ==> !is_space(s[k]),
            None => forall|k: int| from <= k < s.len() ==> !is_space(s[k]),
        },
    decreases s.len() - from,
{
    if from < s.len() && !is_space(s[from]) {
        lemma_first_space(s, from + 1);
    }
}

/// Trimmed at the end, a text that is not empty ends in no whitespace, and
/// begins as it did.
proof fn lemma_trim_end_shape(s: Seq<char>)
    ensures
        trim_end(s).len() <= s.len(),
        trim_end(s).len() > 0 ==> !is_space(trim_end(s).last()) && trim_end(s)[0] == s[0],
    decreases s.len(),
{
    if s.len() > 0 && is_space(s.last()) {
        lemma_trim_end_shape(s.drop_last());
    }
}

/// Trimmed at the start, a text that is not empty begins with no whitespace,
/// and ends as it did; and it is empty only where the text is whitespace.
proof fn lemma_trim_start_shape(s: Seq<char>)
    ensures
        trim_start(s).len() <= s.len(),
        trim_start(s).len() > 0 ==> !is_space(trim_start(s)[0]) && trim_start(s).last()
            == s.last(),
        s.len() > 0 && !is_space(s.last()) ==> trim_start(s).len() > 0,
    decreases s.len(),
{
    if s.len() > 0 && is_space(s[0]) {
        lemma_trim_start_shape(s.drop_first());
        if s.len() > 1 {
            assert(s.drop_first().last() == s.last());
        }
    }
}

/// The delimiters that a tag names are not empty.
pub proof fn lemma_delimiter_pair_full(content: Seq<char>)
    ensures
        match delimiter_pair(content) {
            Some((left, right)) => left.len() > 0 && right.len() > 0,
            None => true,
        },
{
    if content.len() >= 2 && content.last() == '=' {
        let inner = content.subrange(1, content.len() - 1);
        let words = trimmed(inner);
        lemma_trim_start_shape(inner);
        lemma_trim_end_shape(trim_start(inner));
        lemma_first_space(words, 0);
        if let Some(p) = first_space(words, 0) {
            assert(p > 0);
            let after = words.skip(p);
            assert(after.last() == words.last());
            lemma_trim_start_shape(after);
        }
    }
}

/// A tag leaves the delimiters not empty.
pub proof fn lemma_delimiters_stay(content: Seq<char>, st: LexState)
    requires
        st.left.len() > 0,
        st.right.len() > 0,
    ensures
        match tag_token(content, st) {
            Ok((_, next)) => next.left.len() > 0 && next.right.len() > 0,
            Err(_) => true,
        },
{
    lemma_delimiter_pair_full(content);
}

/// The delimiters that a tag names hold no whitespace.
pub proof fn lemma_delimiter_pair_plain(content: Seq<char>)
    ensures
        match delimiter_pair(content) {
            Some((left, right)) => plain(left) && plain(right),
            None => true,
        },
{
    if content.len() >= 2 && content.last() == '=' {
        let words = trimmed(content.subrange(1, content.len() - 1));
        lemma_first_space(words, 0);
        if let Some(p) = first_space(words, 0) {
            let second = trim_start(words.skip(p));
            lemma_first_space(second, 0);
        }
    }
}

/// A tag leaves the delimiters without whitespace, and the line terminator
/// as it is.
pub proof fn lemma_tag_keeps_plain(content: Seq<char>, st: LexState)
    requires
        plain_delimiters(st),
    ensures
        match tag_token(content, st) {
            Ok((_, next)) => plain_delimiters(next) && next.newline == st.newline,
            Err(_) => true,
        },
{
    lemma_delimiter_pair_plain(content);
}

/// The state in which the tokenizer stands at `b` has delimiters without
/// whitespace, where the state it started in has.
pub proof fn lemma_upto_keeps_plain(t: Seq<char>, i: int, b: int, st: LexState)
    requires
        plain_delimiters(st),
        st.left.len() > 0,
        st.right.len() > 0,
    ensures
        match lex_upto(t, i, b, st) {
            Some((_, at)) => plain_delimiters(at) && at.newline == st.newline && at.left.len() > 0
                && at.right.len() > 0,
            None => true,
        },
    decreases t.len() - i,
{
    if i == b {
    } else if i < 0 || i > b || b > t.len() || st.left.len() == 0 || st.right.len() == 0 {
    } else {
        let raw_left = st.left.push(st.left[0]);
        let raw_right = st.right.push(st.right[0]);
        if matches_at(t, raw_left, i) {
            if let Some(e) = found_before(t, raw_right, i + raw_left.len(), b) {
                lemma_find_from(t, raw_right, i + raw_left.len());
                lemma_upto_keeps_plain(t, e + raw_right.len(), b, st);
            }
        } else if matches_at(t, st.left, i) {
            if let Some(e) = found_before(t, st.right, i + st.left.len(), b) {
                lemma_find_from(t, st.right, i + st.left.len());
                let content = t.subrange(i + st.left.len(), e);
                lemma_tag_keeps_plain(content, st);
                lemma_delimiters_stay(content, st);
                if let Ok((tok, next)) = tag_token(content, st) {
                    lemma_upto_keeps_plain(t, e + st.right.len(), b, next);
                }
            }
        } else {
            lemma_text_end(t, i, st);
            lemma_upto_keeps_plain(t, text_end(t, i, st), b, st);
        }
    }
}

/// Two texts hold the same characters before `limit`.
#[verifier::opaque]
pub open spec fn agree_upto(t1: Seq<char>, t2: Seq<char>, limit: int) -> bool {
    &&& 0 <= limit <= t1.len()
    &&& limit <= t2.len()
    &&& t1.take(limit) == t2.take(limit)
}

/// Two texts begin alike, up to and with a line break at `b`.
pub open spec fn same_head(t1: Seq<char>, t2: Seq<char>, b: int, newline: Newline) -> bool {
    &&& 0 <= b
    &&& agree_upto(t1, t2, b + newline.chars().len())
    &&& matches_at(t1, newline.chars(), b)
}

proof fn lemma_agree_part(t1: Seq<char>, t2: Seq<char>, limit: int, a: int, c: int)
    requires
        agree_upto(t1, t2, limit),
        0 <= a <= c <= limit,
    ensures
        t1.subrange(a, c) == t2.subrange(a, c),
        limit <= t1.len(),
        limit <= t2.len(),
{
    reveal(agree_upto);
    assert(t1.subrange(a, c) =~= t1.take(limit).subrange(a, c));
    assert(t2.subrange(a, c) =~= t2.take(limit).subrange(a, c));
}

proof fn lemma_agree_match(t1: Seq<char>, t2: Seq<char>, limit: int, pat: Seq<char>, k: int)
    requires
        agree_upto(t1, t2, limit),
        0 <= k,
        k + pat.len() <= limit,
    ensures
        matches_at(t1, pat, k) == matches_at(t2, pat, k),
{
    lemma_agree_part(t1, t2, limit, k, k + pat.len());
}

proof fn lemma_agree_swap(t1: Seq<char>, t2: Seq<char>, b: int, newline: Newline)
    requires
        same_head(t1, t2, b, newline),
    ensures
        same_head(t2, t1, b, newline),
        b + newline.chars().len() <= t1.len(),
        b + newline.chars().len() <= t2.len(),
        is_space(t1[b]),
        is_space(t2[b]),
        t1[b] == t2[b],
{
    let nl = newline.chars();
    lemma_agree_match(t1, t2, b + nl.len(), nl, b);
    assert(agree_upto(t2, t1, b + nl.len())) by {
        reveal(agree_upto);
    }
    lemma_agree_part(t1, t2, b + nl.len(), b, b + nl.len());
    assert(t1.subrange(b, b + nl.len())[0] == nl[0]);
    assert(t2.subrange(b, b + nl.len())[0] == nl[0]);
}

/// A pattern without whitespace does not occur across whitespace.
pub proof fn lemma_no_cover(t: Seq<char>, pat: Seq<char>, k: int, b: int)
    requires
        plain(pat),
        0 <= k <= b < k + pat.len(),
        b < t.len(),
        is_space(t[b]),
    ensures
        !matches_at(t, pat, k),
{
    if matches_at(t, pat, k) {
        assert(t.subrange(k, k + pat.len())[b - k] == pat[b - k]);
    }
}

/// A pattern without whitespace occurs at the same places before and at the
/// line break in two texts that begin alike.
proof fn lemma_head_match(
    t1: Seq<char>,
    t2: Seq<char>,
    b: int,
    newline: Newline,
    pat: Seq<char>,
    k: int,
)
    requires
        same_head(t1, t2, b, newline),
        plain(pat),
        0 <= k <= b,
    ensures
        matches_at(t1, pat, k) == matches_at(t2, pat, k),
{
    lemma_agree_swap(t1, t2, b, newline);
    if k + pat.len() <= b {
        lemma_agree_match(t1, t2, b + newline.chars().len(), pat, k);
    } else {
        lemma_no_cover(t1, pat, k, b);
        lemma_no_cover(t2, pat, k, b);
    }
}

proof fn lemma_head_found_half(
    t1: Seq<char>,
    t2: Seq<char>,
    b: int,
    newline: Newline,
    pat: Seq<char>,
    from: int,
)
    requires
        same_head(t1, t2, b, newline),
        plain(pat),
        pat.len() > 0,
        0 <= from,
        found_before(t1, pat, from, b) is Some,
    ensures
        found_before(t2, pat, from, b) == found_before(t1, pat, from, b),
{
    let e = found_before(t1, pat, from, b)->Some_0;
    lemma_find_from(t1, pat, from);
    lemma_head_match(t1, t2, b, newline, pat, e);
    assert forall|j: int| from <= j < e implies !matches_at(t2, pat, j) by {
        lemma_head_match(t1, t2, b, newline, pat, j);
    }
    crate::text::lemma_find_first(t2, pat, from, e);
}

/// A pattern without whitespace is found before the line break at the same
/// place in two texts that begin alike.
proof fn lemma_head_found(
    t1: Seq<char>,
    t2: Seq<char>,
    b: int,
    newline: Newline,
    pat: Seq<char>,
    from: int,
)
    requires
        same_head(t1, t2, b, newline),
        plain(pat),
        pat.len() > 0,
        0 <= from,
    ensures
        found_before(t2, pat, from, b) == found_before(t1, pat, from, b),
{
    lemma_agree_swap(t1, t2, b, newline);
    if found_before(t1, pat, from, b) is Some {
        lemma_head_found_half(t1, t2, b, newline, pat, from);
    } else if found_before(t2, pat, from, b) is Some {
        lemma_head_found_half(t2, t1, b, newline, pat, from);
    }
}

/// Two line breaks do not overlap.
pub proof fn lemma_breaks_apart(t: Seq<char>, i: int, b: int, newline: Newline)
    requires
        matches_at(t, newline.chars(), i),
        matches_at(t, newline.chars(), b),
        i < b,
    ensures
        i + newline.chars().len() <= b,
{
    let nl = newline.chars();
    if b < i + nl.len() {
        assert(t.subrange(i, i + nl.len())[1] == nl[1]);
        assert(t.subrange(b, b + nl.len())[0] == nl[0]);
    }
}

/// The next line break at or after `from` is at the same place in two texts
/// that begin alike, and not after `b`.
proof fn lemma_head_line(
    t1: Seq<char>,
    t2: Seq<char>,
    b: int,
    newline: Newline,
    from: int,
)
    requires
        same_head(t1, t2, b, newline),
        0 <= from <= b,
    ensures
        find_from(t1, newline.chars(), from) is Some,
        find_from(t1, newline.chars(), from) == find_from(t2, newline.chars(), from),
        find_from(t1, newline.chars(), from)->Some_0 <= b,
{
    let nl = newline.chars();
    lemma_agree_swap(t1, t2, b, newline);
    lemma_find_from(t1, nl, from);
    lemma_find_from(t2, nl, from);
    let l1 = find_from(t1, nl, from)->Some_0;
    let l2 = find_from(t2, nl, from)->Some_0;
    lemma_agree_match(t1, t2, b + nl.len(), nl, l1);
    lemma_agree_match(t1, t2, b + nl.len(), nl, l2);
}

/// The text that begins before the line break ends at the same place in two
/// texts that begin alike, and not after the line break.
proof fn lemma_head_text_end(
    t1: Seq<char>,
    t2: Seq<char>,
    b: int,
    newline: Newline,
    st: LexState,
    i: int,
)
    requires
        same_head(t1, t2, b, newline),
        plain_delimiters(st),
        st.newline == newline,
        st.left.len() > 0,
        0 <= i < b,
    ensures
        text_end(t1, i, st) == text_end(t2, i, st),
        text_end(t1, i, st) <= b,
{
    let nl = newline.chars();
    lemma_agree_swap(t1, t2, b, newline);
    lemma_agree_match(t1, t2, b + nl.len(), nl, i);
    if matches_at(t1, nl, i) {
        lemma_breaks_apart(t1, i, b, newline);
    }
    let from = if matches_at(t1, nl, i) {
        i + nl.len()
    } else {
        i
    };
    lemma_head_line(t1, t2, b, newline, from);
    lemma_head_found(t1, t2, b, newline, st.left, from);
    let line = find_from(t1, nl, from)->Some_0;
    lemma_find_from(t1, st.left, from);
    lemma_find_from(t2, st.left, from);
    if let Some(e1) = find_from(t1, st.left, from) {
        if e1 < line && e1 + st.left.len() > b {
            lemma_no_cover(t1, st.left, e1, b);
        }
    }
    if let Some(e2) = find_from(t2, st.left, from) {
        if e2 < line && e2 + st.left.len() > b {
            lemma_no_cover(t2, st.left, e2, b);
        }
    }
}

proof fn lemma_plain_push(pat: Seq<char>)
    requires
        plain(pat),
        pat.len() > 0,
    ensures
        plain(pat.push(pat[0])),
{
    let more = pat.push(pat[0]);
    assert forall|k: int| 0 <= k < more.len() implies !is_space(#[trigger] more[k]) by {
        if k < pat.len() {
            assert(more[k] == pat[k]);
        }
    }
}

proof fn lemma_upto_same_raw(
    t1: Seq<char>,
    t2: Seq<char>,
    i: int,
    b: int,
    newline: Newline,
    st: LexState,
)
    requires
        same_head(t1, t2, b, newline),
        plain_delimiters(st),
        st.newline == newline,
        st.left.len() > 0,
        st.right.len() > 0,
        0 <= i < b,
        matches_at(t1, st.left.push(st.left[0]), i),
    ensures
        lex_upto(t1, i, b, st) == lex_upto(t2, i, b, st),
    decreases t1.len() - i, 0nat,
{
    let raw_left = st.left.push(st.left[0]);
    let raw_right = st.right.push(st.right[0]);
    lemma_agree_swap(t1, t2, b, newline);
    lemma_plain_push(st.left);
    lemma_plain_push(st.right);
    lemma_head_match(t1, t2, b, newline, raw_left, i);
    lemma_head_found(t1, t2, b, newline, raw_right, i + raw_left.len());
    if let Some(e) = found_before(t1, raw_right, i + raw_left.len(), b) {
        lemma_find_from(t1, raw_right, i + raw_left.len());
        lemma_agree_part(t1, t2, b + newline.chars().len(), i + raw_left.len(), e);
        lemma_upto_same(t1, t2, e + raw_right.len(), b, newline, st);
    }
}

proof fn lemma_upto_same_tag(
    t1: Seq<char>,
    t2: Seq<char>,
    i: int,
    b: int,
    newline: Newline,
    st: LexState,
)
    requires
        same_head(t1, t2, b, newline),
        plain_delimiters(st),
        st.newline == newline,
        st.left.len() > 0,
        st.right.len() > 0,
        0 <= i < b,
        !matches_at(t1, st.left.push(st.left[0]), i),
        matches_at(t1, st.left, i),
    ensures
        lex_upto(t1, i, b, st) == lex_upto(t2, i, b, st),
    decreases t1.len() - i, 0nat,
{
    let raw_left = st.left.push(st.left[0]);
    lemma_agree_swap(t1, t2, b, newline);
    lemma_plain_push(st.left);
    lemma_head_match(t1, t2, b, newline, raw_left, i);
    lemma_head_match(t1, t2, b, newline, st.left, i);
    lemma_head_found(t1, t2, b, newline, st.right, i + st.left.len());
    if let Some(e) = found_before(t1, st.right, i + st.left.len(), b) {
        lemma_find_from(t1, st.right, i + st.left.len());
        lemma_agree_part(t1, t2, b + newline.chars().len(), i + st.left.len(), e);
        let content = t1.subrange(i + st.left.len(), e);
        lemma_tag_keeps_plain(content, st);
        lemma_delimiters_stay(content, st);
        assert forall|next: LexState|
            plain_delimiters(next) && next.newline == newline implies #[trigger] lex_upto(
            t1,
            e + st.right.len(),
            b,
            next,
        ) == lex_upto(t2, e + st.right.len(), b, next) by {
            lemma_upto_same(t1, t2, e + st.right.len(), b, newline, next);
        }
        assert(t2.subrange(i + st.left.len(), e) == content);
        assert(lex_upto(t1, i, b, st) == match tag_token(content, st) {
            Err(_) => None,
            Ok((tok, next)) => cons(tok, lex_upto(t1, e + st.right.len(), b, next)),
        });
        assert(lex_upto(t2, i, b, st) == match tag_token(content, st) {
            Err(_) => None,
            Ok((tok, next)) => cons(tok, lex_upto(t2, e + st.right.len(), b, next)),
        });
    }
}

proof fn lemma_upto_same_text(
    t1: Seq<char>,
    t2: Seq<char>,
    i: int,
    b: int,
    newline: Newline,
    st: LexState,
)
    requires
        same_head(t1, t2, b, newline),
        plain_delimiters(st),
        st.newline == newline,
        st.left.len() > 0,
        st.right.len() > 0,
        0 <= i < b,
        !matches_at(t1, st.left.push(st.left[0]), i),
        !matches_at(t1, st.left, i),
    ensures
        lex_upto(t1, i, b, st) == lex_upto(t2, i, b, st),
    decreases t1.len() - i, 0nat,
{
    let raw_left = st.left.push(st.left[0]);
    lemma_agree_swap(t1, t2, b, newline);
    lemma_plain_push(st.left);
    lemma_head_match(t1, t2, b, newline, raw_left, i);
    lemma_head_match(t1, t2, b, newline, st.left, i);
    lemma_head_text_end(t1, t2, b, newline, st, i);
    lemma_text_end(t1, i, st);
    let end = text_end(t1, i, st);
    lemma_agree_part(t1, t2, b + newline.chars().len(), i, end);
    lemma_upto_same(t1, t2, end, b, newline, st);
}

/// Two texts that begin alike, up to and with a line break, are read alike up
/// to that line break: the same tokens, the same state there, or in neither
/// does the tokenizer come to stand at the line break.
pub proof fn lemma_upto_same(
    t1: Seq<char>,
    t2: Seq<char>,
    i: int,
    b: int,
    newline: Newline,
    st: LexState,
)
    requires
        same_head(t1, t2, b, newline),
        plain_delimiters(st),
        st.newline == newline,
    ensures
        lex_upto(t1, i, b, st) == lex_upto(t2, i, b, st),
    decreases t1.len() - i, 1nat,
{
    lemma_agree_swap(t1, t2, b, newline);
    if i == b || i < 0 || i > b || st.left.len() == 0 || st.right.len() == 0 {
    } else if matches_at(t1, st.left.push(st.left[0]), i) {
        lemma_upto_same_raw(t1, t2, i, b, newline, st);
    } else if matches_at(t1, st.left, i) {
        lemma_upto_same_tag(t1, t2, i, b, newline, st);
    } else {
        lemma_upto_same_text(t1, t2, i, b, newline, st);
    }
}

} // verus!
