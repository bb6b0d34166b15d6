//! The tokenizer reads forward only: what it returns from a position on is
//! decided by the text from that position on.

use crate::text::{find_from, lemma_find_from, matches_at};
use crate::token::{emit, lemma_text_end, lex_from, tag_token, text_end, LexState};
use vstd::prelude::*;

verus! {

/// Two texts hold the same characters from `i1` and from `i2` on.
#[verifier::opaque]
pub open spec fn same_from(t1: Seq<char>, i1: int, t2: Seq<char>, i2: int) -> bool {
    &&& 0 <= i1 <= t1.len()
    &&& 0 <= i2 <= t2.len()
    &&& t1.skip(i1) == t2.skip(i2)
}

/// The same part of both texts.
pub proof fn lemma_same_part(t1: Seq<char>, i1: int, t2: Seq<char>, i2: int, a: int, b: int)
    requires
        same_from(t1, i1, t2, i2),
        0 <= a <= b <= t1.len() - i1,
    ensures
        t1.len() - i1 == t2.len() - i2,
        t1.subrange(i1 + a, i1 + b) == t2.subrange(i2 + a, i2 + b),
        same_from(t1, i1 + a, t2, i2 + a),
{
    reveal(same_from);
    assert(t1.skip(i1).len() == t2.skip(i2).len());
    assert(t1.subrange(i1 + a, i1 + b) =~= t1.skip(i1).subrange(a, b));
    assert(t2.subrange(i2 + a, i2 + b) =~= t2.skip(i2).subrange(a, b));
    assert(t1.skip(i1 + a) =~= t1.skip(i1).skip(a));
    assert(t2.skip(i2 + a) =~= t2.skip(i2).skip(a));
}

/// A pattern occurs at the same distance in both texts.
pub proof fn lemma_same_match(
    t1: Seq<char>,
    i1: int,
    t2: Seq<char>,
    i2: int,
    pat: Seq<char>,
    d: int,
)
    requires
        same_from(t1, i1, t2, i2),
        0 <= d,
    ensures
        matches_at(t1, pat, i1 + d) == matches_at(t2, pat, i2 + d),
{
    reveal(same_from);
    assert(t1.skip(i1).len() == t2.skip(i2).len());
    if d + pat.len() <= t1.len() - i1 {
        lemma_same_part(t1, i1, t2, i2, d, d + pat.len());
    }
}

/// A pattern is found at the same distance in both texts.
pub proof fn lemma_same_find(
    t1: Seq<char>,
    i1: int,
    t2: Seq<char>,
    i2: int,
    pat: Seq<char>,
    d: int,
)
    requires
        same_from(t1, i1, t2, i2),
        0 <= d,
    ensures
        match find_from(t1, pat, i1 + d) {
            Some(k) => find_from(t2, pat, i2 + d) == Some(k - i1 + i2),
            None => find_from(t2, pat, i2 + d) is None,
        },
    decreases t1.len() - i1 - d,
{
    reveal(same_from);
    assert(t1.skip(i1).len() == t2.skip(i2).len());
    if pat.len() == 0 || i1 + d + pat.len() > t1.len() {
    } else {
        lemma_same_match(t1, i1, t2, i2, pat, d);
        if !matches_at(t1, pat, i1 + d) {
            lemma_same_find(t1, i1, t2, i2, pat, d + 1);
        }
    }
}

/// The text that begins at the same distance ends at the same distance.
pub proof fn lemma_same_text_end(t1: Seq<char>, i1: int, t2: Seq<char>, i2: int, st: LexState)
    requires
        same_from(t1, i1, t2, i2),
    ensures
        text_end(t1, i1, st) - i1 == text_end(t2, i2, st) - i2,
        0 <= i1 <= t1.len(),
{
    reveal(same_from);
    let nl = st.newline.chars();
    assert(t1.skip(i1).len() == t2.skip(i2).len());
    lemma_same_match(t1, i1, t2, i2, nl, 0);
    let skip = if matches_at(t1, nl, i1) {
        nl.len() as int
    } else {
        0
    };
    lemma_same_find(t1, i1, t2, i2, st.left, skip);
    lemma_same_find(t1, i1, t2, i2, nl, skip);
}

proof fn lemma_same_bounds(t1: Seq<char>, i1: int, t2: Seq<char>, i2: int)
    requires
        same_from(t1, i1, t2, i2),
    ensures
        0 <= i1 <= t1.len(),
        0 <= i2 <= t2.len(),
        t1.len() - i1 == t2.len() - i2,
{
    reveal(same_from);
    assert(t1.skip(i1).len() == t2.skip(i2).len());
}

proof fn lemma_same_advance(t1: Seq<char>, i1: int, t2: Seq<char>, i2: int, a: int)
    requires
        same_from(t1, i1, t2, i2),
        0 <= a <= t1.len() - i1,
    ensures
        same_from(t1, i1 + a, t2, i2 + a),
{
    lemma_same_part(t1, i1, t2, i2, a, a);
}

proof fn lemma_lex_same_raw(t1: Seq<char>, i1: int, t2: Seq<char>, i2: int, st: LexState)
    requires
        same_from(t1, i1, t2, i2),
        st.left.len() > 0,
        st.right.len() > 0,
        i1 < t1.len(),
        matches_at(t1, st.left.push(st.left[0]), i1),
    ensures
        lex_from(t1, i1, st) == lex_from(t2, i2, st),
    decreases t1.len() - i1, 0nat,
{
    let raw_left = st.left.push(st.left[0]);
    let raw_right = st.right.push(st.right[0]);
    let d = raw_left.len() as int;
    lemma_same_bounds(t1, i1, t2, i2);
    lemma_same_match(t1, i1, t2, i2, raw_left, 0);
    lemma_same_find(t1, i1, t2, i2, raw_right, d);
    if let Some(e) = find_from(t1, raw_right, i1 + d) {
        lemma_find_from(t1, raw_right, i1 + d);
        lemma_same_part(t1, i1, t2, i2, d, e - i1);
        let a = e - i1 + raw_right.len();
        lemma_same_advance(t1, i1, t2, i2, a);
        lemma_lex_same(t1, i1 + a, t2, i2 + a, st);
    }
}

proof fn lemma_lex_same_tag(t1: Seq<char>, i1: int, t2: Seq<char>, i2: int, st: LexState)
    requires
        same_from(t1, i1, t2, i2),
        st.left.len() > 0,
        st.right.len() > 0,
        i1 < t1.len(),
        !matches_at(t1, st.left.push(st.left[0]), i1),
        matches_at(t1, st.left, i1),
    ensures
        lex_from(t1, i1, st) == lex_from(t2, i2, st),
    decreases t1.len() - i1, 0nat,
{
    let raw_left = st.left.push(st.left[0]);
    let d = st.left.len() as int;
    lemma_same_bounds(t1, i1, t2, i2);
    lemma_same_match(t1, i1, t2, i2, raw_left, 0);
    lemma_same_match(t1, i1, t2, i2, st.left, 0);
    lemma_same_find(t1, i1, t2, i2, st.right, d);
    if let Some(e) = find_from(t1, st.right, i1 + d) {
        lemma_find_from(t1, st.right, i1 + d);
        lemma_same_part(t1, i1, t2, i2, d, e - i1);
        let e2 = find_from(t2, st.right, i2 + d)->Some_0;
        lemma_same_advance(t1, i1, t2, i2, e - i1 + st.right.len());
        assert forall|next: LexState| #[trigger]
            lex_from(t1, e + st.right.len(), next) == lex_from(
                t2,
                e2 + st.right.len(),
                next,
            ) by {
            lemma_lex_same(t1, e + st.right.len(), t2, e2 + st.right.len(), next);
        }
        let content = t1.subrange(i1 + d, e);
        assert(e2 == e - i1 + i2);
        assert(t2.subrange(i2 + d, e2) == content);
        assert(lex_from(t1, i1, st) == match tag_token(content, st) {
            Err(err) => Err(err),
            Ok((token, next)) => emit(token, lex_from(t1, e + st.right.len(), next)),
        });
        assert(lex_from(t2, i2, st) == match tag_token(content, st) {
            Err(err) => Err(err),
            Ok((token, next)) => emit(token, lex_from(t2, e2 + st.right.len(), next)),
        });
    }
}

proof fn lemma_lex_same_text(t1: Seq<char>, i1: int, t2: Seq<char>, i2: int, st: LexState)
    requires
        same_from(t1, i1, t2, i2),
        st.left.len() > 0,
        st.right.len() > 0,
        i1 < t1.len(),
        !matches_at(t1, st.left.push(st.left[0]), i1),
        !matches_at(t1, st.left, i1),
    ensures
        lex_from(t1, i1, st) == lex_from(t2, i2, st),
    decreases t1.len() - i1, 0nat,
{
    let raw_left = st.left.push(st.left[0]);
    lemma_same_bounds(t1, i1, t2, i2);
    lemma_same_match(t1, i1, t2, i2, raw_left, 0);
    lemma_same_match(t1, i1, t2, i2, st.left, 0);
    lemma_same_text_end(t1, i1, t2, i2, st);
    lemma_text_end(t1, i1, st);
    let a = text_end(t1, i1, st) - i1;
    lemma_same_part(t1, i1, t2, i2, 0, a);
    lemma_same_advance(t1, i1, t2, i2, a);
    lemma_lex_same(t1, i1 + a, t2, i2 + a, st);
}

/// Where two texts hold the same characters from a position on, the
/// tokenizer in the same state returns the same for both from there.
pub proof fn lemma_lex_same(t1: Seq<char>, i1: int, t2: Seq<char>, i2: int, st: LexState)
    requires
        same_from(t1, i1, t2, i2),
    ensures
        lex_from(t1, i1, st) == lex_from(t2, i2, st),
    decreases t1.len() - i1, 1nat,
{
    lemma_same_bounds(t1, i1, t2, i2);
    if st.left.len() == 0 || st.right.len() == 0 || i1 >= t1.len() {
        lemma_lex_same_end(t1, i1, t2, i2, st);
    } else if matches_at(t1, st.left.push(st.left[0]), i1) {
        lemma_lex_same_raw(t1, i1, t2, i2, st);
    } else if matches_at(t1, st.left, i1) {
        lemma_lex_same_tag(t1, i1, t2, i2, st);
    } else {
        lemma_lex_same_text(t1, i1, t2, i2, st);
    }
}

proof fn lemma_lex_same_end(t1: Seq<char>, i1: int, t2: Seq<char>, i2: int, st: LexState)
    requires
        same_from(t1, i1, t2, i2),
        st.left.len() == 0 || st.right.len() == 0 || i1 >= t1.len(),
    ensures
        lex_from(t1, i1, st) == lex_from(t2, i2, st),
{
    lemma_same_bounds(t1, i1, t2, i2);
}

} // verus!
