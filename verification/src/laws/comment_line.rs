//! Standalone stability from the template text: a comment that stands alone
//! on a line can be taken out with its line.
use crate::error::RibboncurlsError;
use crate::laws::indentation::{lemma_line_end, line_end, text_tokens};
use crate::laws::prefix::{
    agree_upto, lemma_breaks_apart, lemma_lex_split, lemma_upto_keeps_plain, lemma_upto_same,
    lex_upto, plain, plain_delimiters, same_head,
};
use crate::laws::rendering::lemma_render_single;
use crate::laws::stability::{
    first_plain_line, first_tag_line, last_plain_line, last_tag_line, lemma_first_line_vanishes,
    lemma_last_line_vanishes, lemma_standalone_line_vanishes, plain_line, rendered_tokens,
    tag_line,
};
use crate::laws::suffix::{
    lemma_lex_same, lemma_same_find, lemma_same_match, lemma_same_part, same_from,
};
use crate::render::{render_nodes_spec, render_spec, root_env, template_forest, RenderEnv};
use crate::syntax_tree::{
    build_from, build_step, dropped_at, pushed, standalone_at, tree_spec, BuildState, Node,
};
use crate::text::{
    all_hws, find_from, is_hws, is_space, is_wide_space, lemma_find_at, lemma_find_first,
    lemma_find_from, lemma_match_prefix, lemma_trailing_hws_bound, matches_at,
};
use crate::token::{
    default_right, emit, initial_state, lemma_text_end, lex_from, prepend, tag_token, text_end,
    tokenize_spec, LexState, TokenView,
};
use crate::utils::{newline_variant, Newline};
use crate::value::DataView;
use vstd::prelude::*;

verus! {

/// A comment tag, written with the delimiters of a state.
pub open spec fn comment_tag(comment: Seq<char>, at: LexState) -> Seq<char> {
    at.left + seq!['!'] + comment + at.right
}

/// A template in which a tag stands alone on a line: `head`, a line break,
/// the indentation, the tag, a line break, and `tail`.
pub open spec fn with_line(
    head: Seq<char>,
    indent: Seq<char>,
    tag: Seq<char>,
    tail: Seq<char>,
    newline: Newline,
) -> Seq<char> {
    head + newline.chars() + indent + tag + newline.chars() + tail
}

/// The same template without the line of the tag.
pub open spec fn without_line(head: Seq<char>, tail: Seq<char>, newline: Newline) -> Seq<char> {
    head + newline.chars() + tail
}

/// What a template that starts with the delimiters `{{` and `}}` renders as
/// in a context.
pub open spec fn rendered_template(t: Seq<char>, env: RenderEnv) -> Result<
    Seq<char>,
    RibboncurlsError,
> {
    match template_forest(t, env.newline) {
        Err(e) => Err(e),
        Ok(forest) => render_nodes_spec(forest, 0, env, false),
    }
}

/// Text that is indentation holds spaces and tabs only.
pub proof fn lemma_all_hws_chars(s: Seq<char>)
    requires
        all_hws(s),
    ensures
        forall|k: int| 0 <= k < s.len() ==> is_hws(#[trigger] s[k]),
    decreases s.len(),
{
    if s.len() > 0 {
        lemma_trailing_hws_bound(s.drop_last());
        lemma_all_hws_chars(s.drop_last());
        assert forall|k: int| 0 <= k < s.len() implies is_hws(#[trigger] s[k]) by {
            if k < s.len() - 1 {
                assert(s[k] == s.drop_last()[k]);
            }
        }
    }
}

/// The parts of a template with a tag line, by their places.
pub proof fn lemma_with_shape(
    head: Seq<char>,
    indent: Seq<char>,
    tag: Seq<char>,
    tail: Seq<char>,
    newline: Newline,
)
    ensures
        ({
            let nl = newline.chars();
            let t = with_line(head, indent, tag, tail, newline);
            let b = head.len() as int;
            let q = b + nl.len() + indent.len();
            let r = q + tag.len();
            &&& t.len() == r + nl.len() + tail.len()
            &&& t.take(b + nl.len()) == head + nl
            &&& t.subrange(b, b + nl.len()) == nl
            &&& t.subrange(b, q) == nl + indent
            &&& t.subrange(q, r) == tag
            &&& t.skip(r) == nl + tail
        }),
{
    let nl = newline.chars();
    let t = with_line(head, indent, tag, tail, newline);
    let b = head.len() as int;
    let q = b + nl.len() + indent.len();
    let r = q + tag.len();
    assert(t.take(b + nl.len()) =~= head + nl);
    assert(t.subrange(b, b + nl.len()) =~= nl);
    assert(t.subrange(b, q) =~= nl + indent);
    assert(t.subrange(q, r) =~= tag);
    assert(t.skip(r) =~= nl + tail);
}

/// The two templates begin alike, up to and with the line break after
/// `head`.
pub proof fn lemma_same_heads(
    head: Seq<char>,
    indent: Seq<char>,
    tag: Seq<char>,
    tail: Seq<char>,
    newline: Newline,
)
    ensures
        same_head(
            without_line(head, tail, newline),
            with_line(head, indent, tag, tail, newline),
            head.len() as int,
            newline,
        ),
{
    let nl = newline.chars();
    let t1 = with_line(head, indent, tag, tail, newline);
    let t2 = without_line(head, tail, newline);
    let b = head.len() as int;
    lemma_with_shape(head, indent, tag, tail, newline);
    assert(t2.take(b + nl.len()) =~= head + nl);
    assert(t2.subrange(b, b + nl.len()) =~= nl);
    assert(agree_upto(t2, t1, b + nl.len())) by {
        reveal(agree_upto);
    }
}

/// A tag with the interior `body` ends where it is written to end: in the
/// interior and the right delimiter `right` after it, the delimiter occurs
/// nowhere before its own place.
pub open spec fn ends_tag(body: Seq<char>, right: Seq<char>) -> bool {
    forall|k: int| 0 <= k < body.len() ==> !#[trigger] matches_at(body + right, right, k)
}

/// In a text that holds, from `c` on, an interior and the right delimiter
/// that ends its tag, the delimiter first occurs after the interior.
pub proof fn lemma_tag_end(t: Seq<char>, body: Seq<char>, right: Seq<char>, c: int)
    requires
        0 <= c,
        c + body.len() + right.len() <= t.len(),
        t.subrange(c, c + body.len() + right.len()) == body + right,
        ends_tag(body, right),
    ensures
        forall|k: int| c <= k < c + body.len() ==> !#[trigger] matches_at(t, right, k),
        matches_at(t, right, c + body.len()),
{
    let e = c + body.len();
    let r = e + right.len();
    let part = body + right;
    assert forall|k: int| c <= k < e implies !#[trigger] matches_at(t, right, k) by {
        if matches_at(t, right, k) {
            assert(part.subrange(k - c, k - c + right.len()) =~= t.subrange(c, r).subrange(
                k - c,
                k - c + right.len(),
            ));
            assert(t.subrange(c, r).subrange(k - c, k - c + right.len()) =~= t.subrange(
                k,
                k + right.len(),
            ));
            assert(matches_at(part, right, k - c));
        }
    }
    assert(t.subrange(e, r) =~= t.subrange(c, r).subrange(e - c, r - c));
    assert(part.subrange(e - c, r - c) =~= right);
}

/// The conditions under which `comment`, between the delimiters of `at`, is
/// read as a comment tag and nothing else.
pub open spec fn reads_as_comment(comment: Seq<char>, at: LexState) -> bool {
    &&& at.left.len() > 0
    &&& at.right.len() > 0
    &&& plain_delimiters(at)
    &&& at.left[0] != '!'
    &&& ends_tag(seq!['!'] + comment, at.right)
}

/// A line break and the indentation after it, before a tag, are read as one
/// text.
pub proof fn lemma_lex_indent(t: Seq<char>, b: int, q: int, at: LexState)
    requires
        at.left.len() > 0,
        at.right.len() > 0,
        plain_delimiters(at),
        0 <= b,
        matches_at(t, at.newline.chars(), b),
        b + at.newline.chars().len() <= q,
        forall|k: int| b + at.newline.chars().len() <= k < q ==> is_hws(#[trigger] t[k]),
        matches_at(t, at.left, q),
    ensures
        lex_from(t, b, at) == emit(TokenView::Text(t.subrange(b, q)), lex_from(t, q, at)),
{
    let nl = at.newline.chars();
    let left = at.left;
    let raw_left = left.push(left[0]);
    assert(t[b] == t.subrange(b, b + nl.len())[0]);
    assert(is_space(t[b]));
    assert(!is_space(left[0]));
    if matches_at(t, left, b) {
        assert(t.subrange(b, b + left.len())[0] == left[0]);
    }
    if matches_at(t, raw_left, b) {
        assert(t.subrange(b, b + raw_left.len())[0] == raw_left[0]);
    }
    lemma_find_at(t, left, b + nl.len(), q);
    lemma_find_from(t, nl, b + nl.len());
    if let Some(k) = find_from(t, nl, b + nl.len()) {
        if k < q {
            assert(t.subrange(k, k + nl.len())[0] == nl[0]);
            assert(is_hws(t[k]));
        }
    }
    assert(text_end(t, b, at) == q);
}

/// A tag whose interior begins with `!`, and that the right delimiter ends
/// nowhere before its end, is read as a comment.
proof fn lemma_lex_comment(t: Seq<char>, q: int, e: int, at: LexState)
    requires
        at.left.len() > 0,
        at.right.len() > 0,
        at.left[0] != '!',
        0 <= q,
        matches_at(t, at.left, q),
        q + at.left.len() < e,
        t[q + at.left.len()] == '!',
        forall|k: int| q + at.left.len() <= k < e ==> !#[trigger] matches_at(t, at.right, k),
        matches_at(t, at.right, e),
    ensures
        lex_from(t, q, at) == emit(TokenView::Comment, lex_from(t, e + at.right.len(), at)),
{
    let left = at.left;
    let right = at.right;
    let raw_left = left.push(left[0]);
    let c = q + left.len();
    if matches_at(t, raw_left, q) {
        assert(t.subrange(q, q + raw_left.len())[left.len() as int] == raw_left[left.len() as int]);
    }
    lemma_find_first(t, right, c, e);
    let content = t.subrange(c, e);
    assert(content[0] == '!');
    assert(tag_token(content, at) == Ok::<(TokenView, LexState), RibboncurlsError>(
        (TokenView::Comment, at),
    ));
}

/// The characters of the line of a comment, by their places.
proof fn lemma_comment_shape(
    head: Seq<char>,
    indent: Seq<char>,
    comment: Seq<char>,
    tail: Seq<char>,
    at: LexState,
)
    requires
        all_hws(indent),
        reads_as_comment(comment, at),
    ensures
        ({
            let nl = at.newline.chars();
            let t = with_line(head, indent, comment_tag(comment, at), tail, at.newline);
            let b = head.len() as int;
            let q = b + nl.len() + indent.len();
            let c = q + at.left.len();
            let e = c + 1 + comment.len();
            let r = e + at.right.len();
            &&& t.len() == r + nl.len() + tail.len()
            &&& matches_at(t, nl, b)
            &&& t.subrange(b, q) == nl + indent
            &&& forall|k: int| b + nl.len() <= k < q ==> is_hws(#[trigger] t[k])
            &&& matches_at(t, at.left, q)
            &&& t[c] == '!'
            &&& forall|k: int| c <= k < e ==> !#[trigger] matches_at(t, at.right, k)
            &&& matches_at(t, at.right, e)
            &&& t.skip(r) == nl + tail
        }),
{
    let newline = at.newline;
    let nl = newline.chars();
    let tag = comment_tag(comment, at);
    let t = with_line(head, indent, tag, tail, newline);
    let left = at.left;
    let right = at.right;
    let b = head.len() as int;
    let q = b + nl.len() + indent.len();
    let c = q + left.len();
    let e = c + 1 + comment.len();
    let r = e + right.len();
    lemma_with_shape(head, indent, tag, tail, newline);
    lemma_all_hws_chars(indent);
    assert(r == q + tag.len());
    assert forall|k: int| b + nl.len() <= k < q implies is_hws(#[trigger] t[k]) by {
        assert(t[k] == t.subrange(b, q)[k - b]);
        assert((nl + indent)[k - b] == indent[k - b - nl.len()]);
    }
    assert forall|k: int| q <= k < r implies #[trigger] t[k] == tag[k - q] by {
        assert(t[k] == t.subrange(q, r)[k - q]);
    }
    assert(t.subrange(q, c) =~= left) by {
        assert forall|k: int| 0 <= k < left.len() implies t.subrange(q, c)[k] == left[k] by {
            assert(t[q + k] == tag[k]);
        }
    }
    assert(t[c] == '!') by {
        assert(t[c] == tag[c - q]);
    }
    assert(t.subrange(c, r) =~= seq!['!'] + comment + right);
    lemma_tag_end(t, seq!['!'] + comment, right, c);
    assert(t.subrange(e, r) =~= right) by {
        assert forall|k: int| 0 <= k < right.len() implies t.subrange(e, r)[k] == right[k] by {
            assert(t[e + k] == tag[e + k - q]);
        }
    }
}

/// In a template with a comment line the tokenizer reads, from the line
/// break before the comment, the indentation and the comment, and then what
/// it reads from that line break in the template without the line.
proof fn lemma_lex_comment_line(
    head: Seq<char>,
    indent: Seq<char>,
    comment: Seq<char>,
    tail: Seq<char>,
    at: LexState,
)
    requires
        all_hws(indent),
        reads_as_comment(comment, at),
    ensures
        lex_from(
            with_line(head, indent, comment_tag(comment, at), tail, at.newline),
            head.len() as int,
            at,
        ) == emit(
            TokenView::Text(at.newline.chars() + indent),
            emit(
                TokenView::Comment,
                lex_from(without_line(head, tail, at.newline), head.len() as int, at),
            ),
        ),
{
    let nl = at.newline.chars();
    let t = with_line(head, indent, comment_tag(comment, at), tail, at.newline);
    let t2 = without_line(head, tail, at.newline);
    let b = head.len() as int;
    let q = b + nl.len() + indent.len();
    let e = q + at.left.len() + 1 + comment.len();
    let r = e + at.right.len();
    lemma_comment_shape(head, indent, comment, tail, at);
    lemma_lex_indent(t, b, q, at);
    lemma_lex_comment(t, q, e, at);
    assert(t2.skip(b) =~= nl + tail);
    assert(same_from(t, r, t2, b)) by {
        reveal(same_from);
    }
    lemma_lex_same(t, r, t2, b, at);
}

/// Where the text ends that begins with the line break after `head`.
pub open spec fn break_end(head: Seq<char>, tail: Seq<char>, at: LexState) -> int {
    text_end(without_line(head, tail, at.newline), head.len() as int, at)
}

/// That text without its line break.
pub open spec fn break_rest(head: Seq<char>, tail: Seq<char>, at: LexState) -> Seq<char> {
    without_line(head, tail, at.newline).subrange(
        (head.len() + at.newline.chars().len()) as int,
        break_end(head, tail, at),
    )
}

/// From the line break after `head` the template without the tag line first
/// yields a text that begins with that line break.
proof fn lemma_lex_break(head: Seq<char>, tail: Seq<char>, at: LexState)
    requires
        at.left.len() > 0,
        at.right.len() > 0,
        plain_delimiters(at),
    ensures
        lex_from(without_line(head, tail, at.newline), head.len() as int, at) == emit(
            TokenView::Text(at.newline.chars() + break_rest(head, tail, at)),
            lex_from(without_line(head, tail, at.newline), break_end(head, tail, at), at),
        ),
{
    let nl = at.newline.chars();
    let t2 = without_line(head, tail, at.newline);
    let b = head.len() as int;
    assert(t2.subrange(b, b + nl.len()) =~= nl);
    assert(t2[b] == t2.subrange(b, b + nl.len())[0]);
    assert(is_space(t2[b]));
    assert(!is_space(at.left[0]));
    if matches_at(t2, at.left, b) {
        assert(t2.subrange(b, b + at.left.len())[0] == at.left[0]);
    }
    let raw_left = at.left.push(at.left[0]);
    if matches_at(t2, raw_left, b) {
        assert(t2.subrange(b, b + raw_left.len())[0] == raw_left[0]);
    }
    lemma_text_end(t2, b, at);
    let e2 = text_end(t2, b, at);
    lemma_find_from(t2, at.left, b + nl.len());
    lemma_find_from(t2, nl, b + nl.len());
    assert(e2 >= b + nl.len());
    assert(t2.subrange(b, e2) =~= nl + break_rest(head, tail, at));
}

/// Tokens read before a line, the tokens of the line, and the tokens after
/// it, in a row.
pub proof fn lemma_assemble(
    lines: Seq<TokenView>,
    first: TokenView,
    mark: TokenView,
    last: TokenView,
    post: Seq<TokenView>,
    end: LexState,
)
    ensures
        prepend(lines, emit(first, emit(mark, emit(last, Ok((post, end)))))) == Ok::<
            (Seq<TokenView>, LexState),
            RibboncurlsError,
        >((lines + seq![first, mark, last] + post, end)),
        prepend(lines, emit(last, Ok((post, end)))) == Ok::<
            (Seq<TokenView>, LexState),
            RibboncurlsError,
        >((lines + seq![last] + post, end)),
{
    assert(lines + (seq![first] + (seq![mark] + (seq![last] + post))) =~= lines + seq![
        first,
        mark,
        last,
    ] + post);
    assert(lines + (seq![last] + post) =~= lines + seq![last] + post);
}

/// Standalone stability, from the template text.
///
/// Take a template and a line break in it at which the tokenizer comes to
/// stand: one that is not inside a tag. After the line break put a line that
/// holds nothing but indentation and a comment, written with the delimiters
/// in force there. With that line the template renders, in every context
/// that is not indented, to the same output as without it, or fails with the
/// same error.
pub proof fn lemma_standalone_comment_vanishes(
    head: Seq<char>,
    indent: Seq<char>,
    comment: Seq<char>,
    tail: Seq<char>,
    env: RenderEnv,
    before: Seq<TokenView>,
    at: LexState,
)
    requires
        lex_upto(
            without_line(head, tail, env.newline),
            0,
            head.len() as int,
            initial_state(env.newline),
        ) == Some((before, at)),
        all_hws(indent),
        at.left[0] != '!',
        ends_tag(seq!['!'] + comment, at.right),
        env.indent == 0,
    ensures
        rendered_template(
            with_line(head, indent, comment_tag(comment, at), tail, env.newline),
            env,
        ) == rendered_template(without_line(head, tail, env.newline), env),
{
    let newline = env.newline;
    let nl = newline.chars();
    let st = initial_state(newline);
    let tag = comment_tag(comment, at);
    let t1 = with_line(head, indent, tag, tail, newline);
    let t2 = without_line(head, tail, newline);
    let b = head.len() as int;
    assert(plain_delimiters(st) && st.left.len() > 0 && st.right.len() > 0) by {
        reveal(is_wide_space);
    }
    lemma_upto_keeps_plain(t2, 0, b, st);
    lemma_same_heads(head, indent, tag, tail, newline);
    lemma_upto_same(t2, t1, 0, b, newline, st);
    lemma_lex_split(t1, 0, b, st);
    lemma_lex_split(t2, 0, b, st);
    lemma_lex_comment_line(head, indent, comment, tail, at);
    lemma_lex_break(head, tail, at);
    let rest = break_rest(head, tail, at);
    let first = TokenView::Text(nl + indent);
    let last = TokenView::Text(nl + rest);
    let after = lex_from(t2, break_end(head, tail, at), at);
    assert(lex_from(t1, 0, st) == prepend(
        before,
        emit(first, emit(TokenView::Comment, emit(last, after))),
    ));
    assert(lex_from(t2, 0, st) == prepend(before, emit(last, after)));
    match after {
        Err(e) => {},
        Ok((post, end)) => {
            lemma_assemble(before, first, TokenView::Comment, last, post, end);
            let tokens1 = before + tag_line(indent, TokenView::Comment, rest, newline) + post;
            let tokens2 = before + plain_line(rest, newline) + post;
            lemma_standalone_line_vanishes(before, indent, TokenView::Comment, rest, post, env);
            assert(rendered_template(t1, env) == rendered_tokens(tokens1, env));
            assert(rendered_template(t2, env) == rendered_tokens(tokens2, env));
        },
    }
}

/// The lines of `t` from index `i` up to `b`, each with the line break
/// before it.
pub open spec fn lines_upto(t: Seq<char>, i: int, b: int, nl: Seq<char>) -> Seq<Seq<char>>
    decreases t.len() - i,
{
    if i < 0 || i >= b || b > t.len() || nl.len() == 0 {
        Seq::empty()
    } else {
        proof {
            lemma_line_end(t, i, nl);
        }
        seq![t.subrange(i, line_end(t, i, nl))] + lines_upto(t, line_end(t, i, nl), b, nl)
    }
}

/// Text without the first character of the left delimiter is read line by
/// line, and the tokenizer comes to stand at each line break in it.
pub proof fn lemma_lex_plain_upto(t: Seq<char>, i: int, b: int, st: LexState)
    requires
        0 <= i <= b <= t.len(),
        st.left.len() > 0,
        st.right.len() > 0,
        forall|k: int| i <= k < b ==> t[k] != st.left[0],
        matches_at(t, st.newline.chars(), b),
    ensures
        lex_upto(t, i, b, st) == Some(
            (text_tokens(lines_upto(t, i, b, st.newline.chars())), st),
        ),
    decreases b - i,
{
    let nl = st.newline.chars();
    if i < b {
        if matches_at(t, st.left, i) {
            assert(t.subrange(i, i + st.left.len())[0] == st.left[0]);
        }
        let raw_left = st.left.push(st.left[0]);
        if matches_at(t, raw_left, i) {
            assert(t.subrange(i, i + raw_left.len())[0] == raw_left[0]);
        }
        let from = if matches_at(t, nl, i) {
            i + nl.len()
        } else {
            i
        };
        if matches_at(t, nl, i) {
            lemma_breaks_apart(t, i, b, st.newline);
        }
        lemma_find_from(t, st.left, from);
        lemma_find_from(t, nl, from);
        if let Some(k) = find_from(t, st.left, from) {
            assert(t.subrange(k, k + st.left.len())[0] == st.left[0]);
            assert(k >= b);
        }
        let end = line_end(t, i, nl);
        assert(end <= b);
        assert(text_end(t, i, st) == end);
        lemma_line_end(t, i, nl);
        lemma_lex_plain_upto(t, end, b, st);
        let line = t.subrange(i, end);
        let rest = lines_upto(t, end, b, nl);
        assert(text_tokens(seq![line] + rest) =~= seq![TokenView::Text(line)] + text_tokens(
            rest,
        ));
    } else {
        assert(text_tokens(Seq::<Seq<char>>::empty()) =~= Seq::<TokenView>::empty());
    }
}

/// Standalone stability after plain text.
///
/// Take a template that starts with lines of plain text, in which no `{`
/// occurs, followed by a line that holds nothing but indentation and a
/// comment, in which `}}` occurs nowhere before the end of its tag, followed
/// by anything at all. With that line the template renders, for all data and
/// all partials, to the same output as without it, or fails with the same
/// error; provided that taking the line out does not change the line
/// terminator that the template is taken to use.
pub proof fn lemma_standalone_comment_render(
    head: Seq<char>,
    indent: Seq<char>,
    comment: Seq<char>,
    tail: Seq<char>,
    newline: Newline,
    data: DataView,
    partials: DataView,
)
    requires
        forall|k: int| 0 <= k < head.len() ==> head[k] != '{',
        all_hws(indent),
        ends_tag(seq!['!'] + comment, default_right()),
        newline_variant(
            with_line(
                head,
                indent,
                comment_tag(comment, initial_state(newline)),
                tail,
                newline,
            ),
        ) == newline,
        newline_variant(without_line(head, tail, newline)) == newline,
    ensures
        render_spec(
            with_line(
                head,
                indent,
                comment_tag(comment, initial_state(newline)),
                tail,
                newline,
            ),
            data,
            partials,
        ) == render_spec(without_line(head, tail, newline), data, partials),
{
    let nl = newline.chars();
    let st = initial_state(newline);
    let t2 = without_line(head, tail, newline);
    let b = head.len() as int;
    assert(t2.subrange(b, b + nl.len()) =~= nl);
    assert forall|k: int| 0 <= k < b implies t2[k] != st.left[0] by {
        assert(t2[k] == head[k]);
    }
    lemma_lex_plain_upto(t2, 0, b, st);
    lemma_standalone_comment_vanishes(
        head,
        indent,
        comment,
        tail,
        root_env(data, partials, newline),
        text_tokens(lines_upto(t2, 0, b, nl)),
        st,
    );
}

/// A template that begins with a line on which a tag stands alone: the
/// indentation, the tag, a line break, and `tail`.
pub open spec fn with_first_line(
    indent: Seq<char>,
    tag: Seq<char>,
    tail: Seq<char>,
    newline: Newline,
) -> Seq<char> {
    indent + tag + newline.chars() + tail
}

/// Indentation that begins a template, before a tag, is read as one text.
pub proof fn lemma_lex_lead(t: Seq<char>, q: int, st: LexState)
    requires
        st.left.len() > 0,
        st.right.len() > 0,
        plain_delimiters(st),
        0 < q,
        forall|k: int| 0 <= k < q ==> is_hws(#[trigger] t[k]),
        matches_at(t, st.left, q),
    ensures
        lex_from(t, 0, st) == emit(TokenView::Text(t.subrange(0, q)), lex_from(t, q, st)),
{
    let nl = st.newline.chars();
    let left = st.left;
    let raw_left = left.push(left[0]);
    assert(is_hws(t[0]));
    assert(!is_space(left[0]));
    if matches_at(t, left, 0) {
        assert(t.subrange(0, left.len() as int)[0] == left[0]);
    }
    if matches_at(t, raw_left, 0) {
        assert(t.subrange(0, raw_left.len() as int)[0] == raw_left[0]);
    }
    if matches_at(t, nl, 0) {
        assert(t.subrange(0, nl.len() as int)[0] == nl[0]);
    }
    lemma_find_at(t, left, 0, q);
    lemma_find_from(t, nl, 0);
    if let Some(k) = find_from(t, nl, 0) {
        if k < q {
            assert(t.subrange(k, k + nl.len())[0] == nl[0]);
            assert(is_hws(t[k]));
        }
    }
    assert(text_end(t, 0, st) == q);
}

/// The characters of a first line with a comment, by their places.
proof fn lemma_first_shape(
    indent: Seq<char>,
    comment: Seq<char>,
    tail: Seq<char>,
    at: LexState,
)
    requires
        all_hws(indent),
        reads_as_comment(comment, at),
    ensures
        ({
            let nl = at.newline.chars();
            let t = with_first_line(indent, comment_tag(comment, at), tail, at.newline);
            let q = indent.len() as int;
            let c = q + at.left.len();
            let e = c + 1 + comment.len();
            let r = e + at.right.len();
            &&& t.len() == r + nl.len() + tail.len()
            &&& t.subrange(0, q) == indent
            &&& forall|k: int| 0 <= k < q ==> is_hws(#[trigger] t[k])
            &&& matches_at(t, at.left, q)
            &&& t[c] == '!'
            &&& forall|k: int| c <= k < e ==> !#[trigger] matches_at(t, at.right, k)
            &&& matches_at(t, at.right, e)
            &&& matches_at(t, nl, r)
            &&& t.skip(r + nl.len()) == tail
        }),
{
    let newline = at.newline;
    let nl = newline.chars();
    let tag = comment_tag(comment, at);
    let t = with_first_line(indent, tag, tail, newline);
    let left = at.left;
    let right = at.right;
    let q = indent.len() as int;
    let c = q + left.len();
    let e = c + 1 + comment.len();
    let r = e + right.len();
    lemma_all_hws_chars(indent);
    assert(r == q + tag.len());
    assert(t.subrange(0, q) =~= indent);
    assert(t.subrange(q, r) =~= tag);
    assert(t.subrange(r, r + nl.len()) =~= nl);
    assert(t.skip(r + nl.len()) =~= tail);
    assert forall|k: int| 0 <= k < q implies is_hws(#[trigger] t[k]) by {
        assert(t[k] == indent[k]);
    }
    assert forall|k: int| q <= k < r implies #[trigger] t[k] == tag[k - q] by {
        assert(t[k] == t.subrange(q, r)[k - q]);
    }
    assert(t.subrange(q, c) =~= left) by {
        assert forall|k: int| 0 <= k < left.len() implies t.subrange(q, c)[k] == left[k] by {
            assert(t[q + k] == tag[k]);
        }
    }
    assert(t[c] == '!') by {
        assert(t[c] == tag[c - q]);
    }
    assert(t.subrange(c, r) =~= seq!['!'] + comment + right);
    lemma_tag_end(t, seq!['!'] + comment, right, c);
    assert(t.subrange(e, r) =~= right) by {
        assert forall|k: int| 0 <= k < right.len() implies t.subrange(e, r)[k] == right[k] by {
            assert(t[e + k] == tag[e + k - q]);
        }
    }
}

/// The text that begins with a line break, as the tokenizer cuts it.
pub proof fn lemma_lex_at_break(t: Seq<char>, r: int, at: LexState)
    requires
        at.left.len() > 0,
        at.right.len() > 0,
        plain_delimiters(at),
        0 <= r,
        matches_at(t, at.newline.chars(), r),
    ensures
        r + at.newline.chars().len() <= text_end(t, r, at) <= t.len(),
        lex_from(t, r, at) == emit(
            TokenView::Text(
                at.newline.chars() + t.subrange(
                    r + at.newline.chars().len(),
                    text_end(t, r, at),
                ),
            ),
            lex_from(t, text_end(t, r, at), at),
        ),
{
    let nl = at.newline.chars();
    assert(t[r] == t.subrange(r, r + nl.len())[0]);
    assert(is_space(t[r]));
    assert(!is_space(at.left[0]));
    if matches_at(t, at.left, r) {
        assert(t.subrange(r, r + at.left.len())[0] == at.left[0]);
    }
    let raw_left = at.left.push(at.left[0]);
    if matches_at(t, raw_left, r) {
        assert(t.subrange(r, r + raw_left.len())[0] == raw_left[0]);
    }
    lemma_text_end(t, r, at);
    let end = text_end(t, r, at);
    lemma_find_from(t, at.left, r + nl.len());
    lemma_find_from(t, nl, r + nl.len());
    assert(end >= r + nl.len());
    assert(t.subrange(r, end) =~= nl + t.subrange(r + nl.len(), end));
}

/// A template that begins with a tag or with a line break, or is empty, does
/// not begin with a text that is indentation only.
proof fn lemma_no_loose_start(t: Seq<char>, st: LexState)
    requires
        st.left.len() > 0,
        st.right.len() > 0,
        matches_at(t, st.left, 0) || matches_at(t, st.newline.chars(), 0) || t.len() == 0,
    ensures
        match lex_from(t, 0, st) {
            Ok((tokens, _)) => tokens.len() == 0 || !(tokens[0] is Text) || !all_hws(
                tokens[0]->Text_0,
            ),
            Err(_) => true,
        },
{
    let nl = st.newline.chars();
    if t.len() == 0 {
    } else {
        let raw_left = st.left.push(st.left[0]);
        let raw_right = st.right.push(st.right[0]);
        if matches_at(t, raw_left, 0) {
            if let Some(e) = find_from(t, raw_right, raw_left.len() as int) {
                if let Ok((rest, end)) = lex_from(t, e + raw_right.len(), st) {
                    let name = crate::text::trimmed(t.subrange(raw_left.len() as int, e));
                    let token = TokenView::Variable { name, escaped: false };
                    assert((seq![token] + rest)[0] == token);
                }
            }
        } else if matches_at(t, st.left, 0) {
            if let Some(e) = find_from(t, st.right, st.left.len() as int) {
                if let Ok((token, next)) = tag_token(t.subrange(st.left.len() as int, e), st) {
                    if let Ok((rest, end)) = lex_from(t, e + st.right.len(), next) {
                        assert((seq![token] + rest)[0] == token);
                    }
                }
            }
        } else {
            lemma_text_end(t, 0, st);
            let end = text_end(t, 0, st);
            lemma_find_from(t, st.left, nl.len() as int);
            lemma_find_from(t, nl, nl.len() as int);
            let text = t.subrange(0, end);
            if let Ok((rest, last)) = lex_from(t, end, st) {
                assert((seq![TokenView::Text(text)] + rest)[0] == TokenView::Text(text));
            }
            if all_hws(text) {
                lemma_all_hws_chars(text);
                assert(text[0] == t.subrange(0, nl.len() as int)[0]);
                assert(is_hws(text[0]));
            }
        }
    }
}

/// The template without the first line is read as the first line's rest and
/// what follows it.
pub proof fn lemma_lex_rest(t1: Seq<char>, p: int, e1: int, t2: Seq<char>, st: LexState)
    requires
        st.left.len() > 0,
        st.right.len() > 0,
        plain_delimiters(st),
        same_from(t1, p, t2, 0),
        0 <= p < e1 <= t1.len(),
        e1 == {
            let tag = match find_from(t1, st.left, p) {
                Some(k) => k,
                None => t1.len() as int,
            };
            let line = match find_from(t1, st.newline.chars(), p) {
                Some(k) => k,
                None => t1.len() as int,
            };
            if tag <= line {
                tag
            } else {
                line
            }
        },
    ensures
        lex_from(t2, 0, st) == emit(
            TokenView::Text(t1.subrange(p, e1)),
            lex_from(t2, e1 - p, st),
        ),
{
    let nl = st.newline.chars();
    let raw_left = st.left.push(st.left[0]);
    lemma_same_part(t1, p, t2, 0, 0, e1 - p);
    lemma_find_from(t1, st.left, p);
    lemma_find_from(t1, nl, p);
    lemma_same_match(t1, p, t2, 0, st.left, 0);
    lemma_same_match(t1, p, t2, 0, nl, 0);
    lemma_same_find(t1, p, t2, 0, st.left, 0);
    lemma_same_find(t1, p, t2, 0, nl, 0);
    if matches_at(t2, raw_left, 0) {
        lemma_match_prefix(t2, st.left, st.left[0], 0);
    }
    assert(text_end(t2, 0, st) == e1 - p);
}

/// Where the line after a first comment line ends, in the template with
/// that line.
pub open spec fn first_rest_end(
    indent: Seq<char>,
    comment: Seq<char>,
    tail: Seq<char>,
    st: LexState,
) -> int {
    text_end(
        with_first_line(indent, comment_tag(comment, st), tail, st.newline),
        (indent.len() + comment_tag(comment, st).len()) as int,
        st,
    )
}

/// The line after a first comment line.
pub open spec fn first_rest(
    indent: Seq<char>,
    comment: Seq<char>,
    tail: Seq<char>,
    st: LexState,
) -> Seq<char> {
    with_first_line(indent, comment_tag(comment, st), tail, st.newline).subrange(
        (indent.len() + comment_tag(comment, st).len() + st.newline.chars().len()) as int,
        first_rest_end(indent, comment, tail, st),
    )
}

/// How the tokenizer reads a template that begins with a comment line, and
/// the template without that line.
proof fn lemma_lex_first_line(
    indent: Seq<char>,
    comment: Seq<char>,
    tail: Seq<char>,
    st: LexState,
)
    requires
        all_hws(indent),
        reads_as_comment(comment, st),
    ensures
        ({
            let t1 = with_first_line(indent, comment_tag(comment, st), tail, st.newline);
            let rest = first_rest(indent, comment, tail, st);
            let after = lex_from(tail, rest.len() as int, st);
            let line = emit(
                TokenView::Comment,
                emit(TokenView::Text(st.newline.chars() + rest), after),
            );
            &&& rest.len() <= tail.len()
            &&& lex_from(t1, 0, st) == if indent.len() > 0 {
                emit(TokenView::Text(indent), line)
            } else {
                line
            }
            &&& rest.len() > 0 ==> lex_from(tail, 0, st) == emit(TokenView::Text(rest), after)
            &&& rest.len() == 0 ==> match after {
                Ok((tokens, _)) => tokens.len() == 0 || !(tokens[0] is Text) || !all_hws(
                    tokens[0]->Text_0,
                ),
                Err(_) => true,
            }
        }),
{
    let nl = st.newline.chars();
    let t1 = with_first_line(indent, comment_tag(comment, st), tail, st.newline);
    let q = indent.len() as int;
    let e = q + st.left.len() + 1 + comment.len();
    let r = e + st.right.len();
    let p = r + nl.len();
    lemma_first_shape(indent, comment, tail, st);
    if q > 0 {
        lemma_lex_lead(t1, q, st);
    }
    lemma_lex_comment(t1, q, e, st);
    lemma_lex_at_break(t1, r, st);
    let e1 = text_end(t1, r, st);
    assert(tail.skip(0) =~= tail);
    assert(same_from(t1, p, tail, 0)) by {
        reveal(same_from);
    }
    lemma_same_part(t1, p, tail, 0, e1 - p, e1 - p);
    lemma_lex_same(t1, e1, tail, e1 - p, st);
    if e1 > p {
        lemma_lex_rest(t1, p, e1, tail, st);
    } else {
        lemma_find_from(t1, st.left, p);
        lemma_find_from(t1, nl, p);
        lemma_same_match(t1, p, tail, 0, st.left, 0);
        lemma_same_match(t1, p, tail, 0, nl, 0);
        lemma_no_loose_start(tail, st);
    }
}

/// Standalone stability on the first line, from the template text.
///
/// Take any template and put before it a line that holds nothing but
/// indentation and a comment, in which `}}` occurs nowhere before the end
/// of its tag. With that line the template renders, in every context that
/// is not indented, to the same output as without it, or fails with the
/// same error.
pub proof fn lemma_first_comment_vanishes(
    indent: Seq<char>,
    comment: Seq<char>,
    tail: Seq<char>,
    env: RenderEnv,
)
    requires
        all_hws(indent),
        ends_tag(seq!['!'] + comment, default_right()),
        env.indent == 0,
    ensures
        rendered_template(
            with_first_line(
                indent,
                comment_tag(comment, initial_state(env.newline)),
                tail,
                env.newline,
            ),
            env,
        ) == rendered_template(tail, env),
{
    let newline = env.newline;
    let nl = newline.chars();
    let st = initial_state(newline);
    let t1 = with_first_line(indent, comment_tag(comment, st), tail, newline);
    assert(reads_as_comment(comment, st)) by {
        reveal(is_wide_space);
    }
    lemma_lex_first_line(indent, comment, tail, st);
    let rest = first_rest(indent, comment, tail, st);
    let after = lex_from(tail, rest.len() as int, st);
    let last = TokenView::Text(nl + rest);
    match after {
        Err(e) => {},
        Ok((post, end)) => {
            let tokens1 = first_tag_line(indent, TokenView::Comment, rest, newline) + post;
            let tokens2 = first_plain_line(rest) + post;
            assert(tokenize_spec(t1, st) == Ok::<(Seq<TokenView>, LexState), RibboncurlsError>(
                (tokens1, end),
            )) by {
                if indent.len() > 0 {
                    assert(seq![TokenView::Text(indent)] + (seq![TokenView::Comment] + (seq![
                        last,
                    ] + post)) =~= tokens1);
                } else {
                    assert(seq![TokenView::Comment] + (seq![last] + post) =~= tokens1);
                }
            }
            assert(tokenize_spec(tail, st) == Ok::<
                (Seq<TokenView>, LexState),
                RibboncurlsError,
            >((tokens2, end))) by {
                if rest.len() > 0 {
                    assert(seq![TokenView::Text(rest)] + post =~= tokens2);
                } else {
                    assert(Seq::<TokenView>::empty() + post =~= post);
                }
            }
            lemma_first_line_vanishes(indent, TokenView::Comment, rest, post, env);
            assert(rendered_template(t1, env) == rendered_tokens(tokens1, env));
            assert(rendered_template(tail, env) == rendered_tokens(tokens2, env));
        },
    }
}

/// Standalone stability on the first line, for whole renders: where taking
/// the line out does not change the line terminator that the template is
/// taken to use, the render with the comment line and the render without it
/// agree for all data and all partials.
pub proof fn lemma_first_comment_render(
    indent: Seq<char>,
    comment: Seq<char>,
    tail: Seq<char>,
    newline: Newline,
    data: DataView,
    partials: DataView,
)
    requires
        all_hws(indent),
        ends_tag(seq!['!'] + comment, default_right()),
        newline_variant(
            with_first_line(indent, comment_tag(comment, initial_state(newline)), tail, newline),
        ) == newline,
        newline_variant(tail) == newline,
    ensures
        render_spec(
            with_first_line(indent, comment_tag(comment, initial_state(newline)), tail, newline),
            data,
            partials,
        ) == render_spec(tail, data, partials),
{
    lemma_first_comment_vanishes(indent, comment, tail, root_env(data, partials, newline));
}

/// A template that ends with a line on which a tag stands alone, with no
/// line break after it: `head`, a line break, the indentation, the tag.
pub open spec fn with_last_line(
    head: Seq<char>,
    indent: Seq<char>,
    tag: Seq<char>,
    newline: Newline,
) -> Seq<char> {
    head + newline.chars() + indent + tag
}

/// The same template without the tag and its indentation.
pub open spec fn without_last_line(head: Seq<char>, newline: Newline) -> Seq<char> {
    head + newline.chars()
}

/// The characters of a last line with a comment, by their places.
proof fn lemma_last_shape(head: Seq<char>, indent: Seq<char>, comment: Seq<char>, at: LexState)
    requires
        all_hws(indent),
        reads_as_comment(comment, at),
    ensures
        ({
            let nl = at.newline.chars();
            let t = with_last_line(head, indent, comment_tag(comment, at), at.newline);
            let b = head.len() as int;
            let q = b + nl.len() + indent.len();
            let c = q + at.left.len();
            let e = c + 1 + comment.len();
            &&& t.len() == e + at.right.len()
            &&& t.take(b + nl.len()) == head + nl
            &&& matches_at(t, nl, b)
            &&& t.subrange(b, q) == nl + indent
            &&& forall|k: int| b + nl.len() <= k < q ==> is_hws(#[trigger] t[k])
            &&& matches_at(t, at.left, q)
            &&& t[c] == '!'
            &&& forall|k: int| c <= k < e ==> !#[trigger] matches_at(t, at.right, k)
            &&& matches_at(t, at.right, e)
        }),
{
    let newline = at.newline;
    let nl = newline.chars();
    let tag = comment_tag(comment, at);
    let t = with_last_line(head, indent, tag, newline);
    let left = at.left;
    let right = at.right;
    let b = head.len() as int;
    let q = b + nl.len() + indent.len();
    let c = q + left.len();
    let e = c + 1 + comment.len();
    let r = e + right.len();
    lemma_all_hws_chars(indent);
    assert(r == q + tag.len());
    assert(t.take(b + nl.len()) =~= head + nl);
    assert(t.subrange(b, b + nl.len()) =~= nl);
    assert(t.subrange(b, q) =~= nl + indent);
    assert(t.subrange(q, r) =~= tag);
    assert forall|k: int| b + nl.len() <= k < q implies is_hws(#[trigger] t[k]) by {
        assert(t[k] == t.subrange(b, q)[k - b]);
        assert((nl + indent)[k - b] == indent[k - b - nl.len()]);
    }
    assert forall|k: int| q <= k < r implies #[trigger] t[k] == tag[k - q] by {
        assert(t[k] == t.subrange(q, r)[k - q]);
    }
    assert(t.subrange(q, c) =~= left) by {
        assert forall|k: int| 0 <= k < left.len() implies t.subrange(q, c)[k] == left[k] by {
            assert(t[q + k] == tag[k]);
        }
    }
    assert(t[c] == '!') by {
        assert(t[c] == tag[c - q]);
    }
    assert(t.subrange(c, r) =~= seq!['!'] + comment + right);
    lemma_tag_end(t, seq!['!'] + comment, right, c);
    assert(t.subrange(e, r) =~= right) by {
        assert forall|k: int| 0 <= k < right.len() implies t.subrange(e, r)[k] == right[k] by {
            assert(t[e + k] == tag[e + k - q]);
        }
    }
}

/// How the tokenizer reads, from the last line break on, a template that
/// ends with a comment line, and the template without that line.
proof fn lemma_lex_last_line(head: Seq<char>, indent: Seq<char>, comment: Seq<char>, at: LexState)
    requires
        all_hws(indent),
        reads_as_comment(comment, at),
    ensures
        ({
            let nl = at.newline.chars();
            let t1 = with_last_line(head, indent, comment_tag(comment, at), at.newline);
            let t2 = without_last_line(head, at.newline);
            let end: Result<(Seq<TokenView>, LexState), RibboncurlsError> = if at.open.len()
                == 0 {
                Ok((Seq::empty(), at))
            } else {
                Err(RibboncurlsError::MissingEndTag)
            };
            &&& lex_from(t1, head.len() as int, at) == emit(
                TokenView::Text(nl + indent),
                emit(TokenView::Comment, end),
            )
            &&& lex_from(t2, head.len() as int, at) == emit(TokenView::Text(nl), end)
        }),
{
    let nl = at.newline.chars();
    let t1 = with_last_line(head, indent, comment_tag(comment, at), at.newline);
    let t2 = without_last_line(head, at.newline);
    let b = head.len() as int;
    let q = b + nl.len() + indent.len();
    let e = q + at.left.len() + 1 + comment.len();
    lemma_last_shape(head, indent, comment, at);
    lemma_lex_indent(t1, b, q, at);
    lemma_lex_comment(t1, q, e, at);
    assert(t2.subrange(b, b + nl.len()) =~= nl);
    lemma_lex_at_break(t2, b, at);
    assert(text_end(t2, b, at) == t2.len());
    assert(nl + t2.subrange(b + nl.len(), t2.len() as int) =~= nl);
}

/// Standalone stability on the last line, from the template text.
///
/// Take a template that ends with a line break at which the tokenizer comes
/// to stand. After it put indentation and a comment, written with the
/// delimiters in force there, and no line break. With them the template
/// renders, in every context that is not indented, to the same output as
/// without them, or fails with the same error.
pub proof fn lemma_last_comment_vanishes(
    head: Seq<char>,
    indent: Seq<char>,
    comment: Seq<char>,
    env: RenderEnv,
    before: Seq<TokenView>,
    at: LexState,
)
    requires
        lex_upto(
            without_last_line(head, env.newline),
            0,
            head.len() as int,
            initial_state(env.newline),
        ) == Some((before, at)),
        all_hws(indent),
        at.left[0] != '!',
        ends_tag(seq!['!'] + comment, at.right),
        env.indent == 0,
    ensures
        rendered_template(
            with_last_line(head, indent, comment_tag(comment, at), env.newline),
            env,
        ) == rendered_template(without_last_line(head, env.newline), env),
{
    let newline = env.newline;
    let nl = newline.chars();
    let st = initial_state(newline);
    let t1 = with_last_line(head, indent, comment_tag(comment, at), newline);
    let t2 = without_last_line(head, newline);
    let b = head.len() as int;
    assert(plain_delimiters(st) && st.left.len() > 0 && st.right.len() > 0) by {
        reveal(is_wide_space);
    }
    lemma_upto_keeps_plain(t2, 0, b, st);
    lemma_last_shape(head, indent, comment, at);
    assert(t2.take(b + nl.len()) =~= head + nl);
    assert(t2.subrange(b, b + nl.len()) =~= nl);
    assert(agree_upto(t2, t1, b + nl.len())) by {
        reveal(agree_upto);
    }
    lemma_upto_same(t2, t1, 0, b, newline, st);
    lemma_lex_split(t1, 0, b, st);
    lemma_lex_split(t2, 0, b, st);
    lemma_lex_last_line(head, indent, comment, at);
    if at.open.len() == 0 {
        let first = TokenView::Text(nl + indent);
        let last = TokenView::Text(nl);
        let none = Seq::<TokenView>::empty();
        let tokens1 = before + last_tag_line(indent, TokenView::Comment, newline);
        let tokens2 = before + last_plain_line(newline);
        assert(before + (seq![first] + (seq![TokenView::Comment] + none)) =~= tokens1);
        assert(before + (seq![last] + none) =~= tokens2);
        assert(tokenize_spec(t1, st) == Ok::<(Seq<TokenView>, LexState), RibboncurlsError>(
            (tokens1, at),
        ));
        assert(tokenize_spec(t2, st) == Ok::<(Seq<TokenView>, LexState), RibboncurlsError>(
            (tokens2, at),
        ));
        lemma_last_line_vanishes(before, indent, TokenView::Comment, env);
        assert(rendered_template(t1, env) == rendered_tokens(tokens1, env));
        assert(rendered_template(t2, env) == rendered_tokens(tokens2, env));
    }
}

/// Standalone stability for a template that is one line.
///
/// A template that holds nothing but indentation and a comment, in which
/// `}}` occurs nowhere before the end of its tag, renders to nothing, as the
/// empty template does.
pub proof fn lemma_only_comment_vanishes(indent: Seq<char>, comment: Seq<char>, env: RenderEnv)
    requires
        all_hws(indent),
        ends_tag(seq!['!'] + comment, default_right()),
    ensures
        rendered_template(indent + comment_tag(comment, initial_state(env.newline)), env)
            == Ok::<Seq<char>, RibboncurlsError>(Seq::empty()),
        rendered_template(Seq::empty(), env) == Ok::<Seq<char>, RibboncurlsError>(Seq::empty()),
{
    let newline = env.newline;
    let nl = newline.chars();
    let st = initial_state(newline);
    let tag = comment_tag(comment, st);
    let t = indent + tag;
    let left = st.left;
    let right = st.right;
    let q = indent.len() as int;
    let c = q + left.len();
    let e = c + 1 + comment.len();
    let r = e + right.len();
    assert(reads_as_comment(comment, st)) by {
        reveal(is_wide_space);
    }
    lemma_all_hws_chars(indent);
    assert(t.len() == r);
    assert(t.subrange(0, q) =~= indent);
    assert forall|k: int| 0 <= k < q implies is_hws(#[trigger] t[k]) by {
        assert(t[k] == indent[k]);
    }
    assert forall|k: int| q <= k < r implies #[trigger] t[k] == tag[k - q] by {}
    assert(t.subrange(q, c) =~= left);
    assert(t[c] == '!') by {
        assert(t[c] == tag[c - q]);
    }
    assert(t.subrange(c, r) =~= seq!['!'] + comment + right);
    lemma_tag_end(t, seq!['!'] + comment, right, c);
    assert(t.subrange(e, r) =~= right);
    if q > 0 {
        lemma_lex_lead(t, q, st);
    }
    lemma_lex_comment(t, q, e, st);
    let none = Seq::<TokenView>::empty();
    let tokens = if q > 0 {
        seq![TokenView::Text(indent), TokenView::Comment]
    } else {
        seq![TokenView::Comment]
    };
    assert(seq![TokenView::Comment] + none =~= seq![TokenView::Comment]);
    assert(seq![TokenView::Text(indent)] + seq![TokenView::Comment] =~= seq![
        TokenView::Text(indent),
        TokenView::Comment,
    ]);
    assert(tokenize_spec(t, st) == Ok::<(Seq<TokenView>, LexState), RibboncurlsError>(
        (tokens, st),
    ));
    // the forest is the comment alone
    let init = BuildState { root: Seq::<Node>::empty(), stack: Seq::<Node>::empty() };
    let mark = Node::Comment { standalone: true };
    let done = BuildState { root: seq![mark], stack: Seq::<Node>::empty() };
    assert(pushed(init, mark).root =~= done.root);
    if q > 0 {
        assert(standalone_at(tokens, 1, nl));
        assert(dropped_at(tokens, 0, nl));
        assert(build_step(tokens, 0, init, nl) == Ok::<BuildState, RibboncurlsError>(init));
        assert(build_step(tokens, 1, init, nl) == Ok::<BuildState, RibboncurlsError>(done));
        assert(build_from(tokens, 2, done, nl) == Ok::<Seq<Node>, RibboncurlsError>(done.root));
        assert(build_from(tokens, 1, init, nl) == Ok::<Seq<Node>, RibboncurlsError>(done.root));
    } else {
        assert(standalone_at(tokens, 0, nl));
        assert(build_step(tokens, 0, init, nl) == Ok::<BuildState, RibboncurlsError>(done));
        assert(build_from(tokens, 1, done, nl) == Ok::<Seq<Node>, RibboncurlsError>(done.root));
    }
    assert(tree_spec(tokens, nl) == Ok::<Seq<Node>, RibboncurlsError>(seq![mark]));
    lemma_render_single(mark, env);
    assert(render_nodes_spec(seq![mark], 0, env, false) == Ok::<Seq<char>, RibboncurlsError>(
        Seq::empty(),
    ));
    // the empty template
    let nothing = Seq::<char>::empty();
    assert(tokenize_spec(nothing, st) == Ok::<(Seq<TokenView>, LexState), RibboncurlsError>(
        (none, st),
    ));
    assert(tree_spec(none, nl) == Ok::<Seq<Node>, RibboncurlsError>(Seq::empty()));
}

/// Standalone stability after any line break outside a tag, for whole
/// renders: where taking the comment line out does not change the line
/// terminator that the template is taken to use, the render with the line
/// and the render without it agree for all data and all partials.
pub proof fn lemma_comment_line_render(
    head: Seq<char>,
    indent: Seq<char>,
    comment: Seq<char>,
    tail: Seq<char>,
    newline: Newline,
    data: DataView,
    partials: DataView,
    before: Seq<TokenView>,
    at: LexState,
)
    requires
        lex_upto(
            without_line(head, tail, newline),
            0,
            head.len() as int,
            initial_state(newline),
        ) == Some((before, at)),
        all_hws(indent),
        at.left[0] != '!',
        ends_tag(seq!['!'] + comment, at.right),
        newline_variant(with_line(head, indent, comment_tag(comment, at), tail, newline))
            == newline,
        newline_variant(without_line(head, tail, newline)) == newline,
    ensures
        render_spec(
            with_line(head, indent, comment_tag(comment, at), tail, newline),
            data,
            partials,
        ) == render_spec(without_line(head, tail, newline), data, partials),
{
    let env = root_env(data, partials, newline);
    lemma_standalone_comment_vanishes(head, indent, comment, tail, env, before, at);
}

/// Standalone stability on the last line, for whole renders: where taking
/// the comment out does not change the line terminator that the template is
/// taken to use, the render with it and the render without it agree for all
/// data and all partials.
pub proof fn lemma_last_comment_render(
    head: Seq<char>,
    indent: Seq<char>,
    comment: Seq<char>,
    newline: Newline,
    data: DataView,
    partials: DataView,
    before: Seq<TokenView>,
    at: LexState,
)
    requires
        lex_upto(without_last_line(head, newline), 0, head.len() as int, initial_state(newline))
            == Some((before, at)),
        all_hws(indent),
        at.left[0] != '!',
        ends_tag(seq!['!'] + comment, at.right),
        newline_variant(with_last_line(head, indent, comment_tag(comment, at), newline))
            == newline,
        newline_variant(without_last_line(head, newline)) == newline,
    ensures
        render_spec(
            with_last_line(head, indent, comment_tag(comment, at), newline),
            data,
            partials,
        ) == render_spec(without_last_line(head, newline), data, partials),
{
    let env = root_env(data, partials, newline);
    lemma_last_comment_vanishes(head, indent, comment, env, before, at);
}

} // verus!
