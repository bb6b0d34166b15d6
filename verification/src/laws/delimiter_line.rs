//! Standalone stability from the template text for a change of delimiters:
//! a tag that changes the delimiters and stands alone on a line can be taken
//! out with its line, where nothing after it is written with either pair of
//! delimiters.
use crate::error::RibboncurlsError;
use crate::laws::comment_line::{
    ends_tag, lemma_all_hws_chars, lemma_assemble, lemma_lex_at_break, lemma_lex_indent,
    lemma_lex_lead, lemma_lex_rest, lemma_same_heads, lemma_tag_end, lemma_with_shape,
    rendered_template, with_first_line, with_last_line, with_line, without_last_line,
    without_line,
};
use crate::laws::indentation::{
    ended, lemma_lex_plain, lemma_line_end, line_end, lines_from, text_tokens,
};
use crate::laws::prefix::{
    agree_upto, lemma_delimiters_stay, lemma_lex_split, lemma_tag_keeps_plain,
    lemma_upto_keeps_plain, lemma_upto_same, lex_upto, plain, plain_delimiters, same_head,
};
use crate::laws::rendering::lemma_render_single;
use crate::laws::stability::{
    first_plain_line, first_tag_line, last_plain_line, last_tag_line, lemma_first_line_vanishes,
    lemma_last_line_vanishes, lemma_standalone_line_vanishes, no_loose_indent, plain_line,
    rendered_tokens, tag_line,
};
use crate::laws::suffix::{lemma_lex_same, lemma_same_part, same_from};
use crate::render::{render_spec, root_env, RenderEnv};
use crate::syntax_tree::{
    build_from, build_step, dropped_at, pushed, standalone_at, tree_spec, BuildState, Node,
};
use crate::text::{
    all_hws, find_from, is_hws, is_space, is_wide_space, lemma_find_first, lemma_find_from,
    matches_at,
};
use crate::token::{
    default_left, default_right, emit, initial_state, lex_from, tag_token, text_end,
    tokenize_spec, LexState, TokenView,
};
use crate::utils::{newline_variant, Newline};
use crate::value::DataView;
use vstd::prelude::*;

verus! {

/// A tag with the interior `content`, written with the delimiters of a state.
pub open spec fn plain_tag(content: Seq<char>, at: LexState) -> Seq<char> {
    at.left + content + at.right
}

/// A tag that the right delimiter ends nowhere before its end, and that does
/// not begin as a raw variable does, is read as the token of its interior.
pub proof fn lemma_lex_tag(t: Seq<char>, q: int, e: int, at: LexState)
    requires
        at.left.len() > 0,
        at.right.len() > 0,
        0 <= q,
        matches_at(t, at.left, q),
        q + at.left.len() < e,
        t[q + at.left.len()] != at.left[0],
        forall|k: int| q + at.left.len() <= k < e ==> !#[trigger] matches_at(t, at.right, k),
        matches_at(t, at.right, e),
    ensures
        lex_from(t, q, at) == match tag_token(t.subrange(q + at.left.len(), e), at) {
            Err(x) => Err(x),
            Ok((token, next)) => emit(token, lex_from(t, e + at.right.len(), next)),
        },
{
    let left = at.left;
    let raw_left = left.push(left[0]);
    let c = q + left.len();
    if matches_at(t, raw_left, q) {
        assert(t.subrange(q, q + raw_left.len())[left.len() as int] == raw_left[left.len() as int]);
    }
    lemma_find_first(t, at.right, c, e);
}

/// The characters of the line of a tag, by their places.
proof fn lemma_tag_shape(
    head: Seq<char>,
    indent: Seq<char>,
    content: Seq<char>,
    tail: Seq<char>,
    at: LexState,
)
    requires
        all_hws(indent),
    ensures
        ({
            let nl = at.newline.chars();
            let t = with_line(head, indent, plain_tag(content, at), tail, at.newline);
            let b = head.len() as int;
            let q = b + nl.len() + indent.len();
            let c = q + at.left.len();
            let e = c + content.len();
            let r = e + at.right.len();
            &&& t.len() == r + nl.len() + tail.len()
            &&& matches_at(t, nl, b)
            &&& t.subrange(b, q) == nl + indent
            &&& forall|k: int| b + nl.len() <= k < q ==> is_hws(#[trigger] t[k])
            &&& matches_at(t, at.left, q)
            &&& t.subrange(c, e) == content
            &&& forall|k: int| c <= k < e ==> #[trigger] t[k] == content[k - c]
            &&& matches_at(t, at.right, e)
            &&& t.skip(r) == nl + tail
        }),
{
    let newline = at.newline;
    let nl = newline.chars();
    let tag = plain_tag(content, at);
    let t = with_line(head, indent, tag, tail, newline);
    let b = head.len() as int;
    let q = b + nl.len() + indent.len();
    let c = q + at.left.len();
    let e = c + content.len();
    let r = e + at.right.len();
    lemma_with_shape(head, indent, tag, tail, newline);
    lemma_all_hws_chars(indent);
    assert(r == q + tag.len());
    assert forall|k: int| b + nl.len() <= k < q implies is_hws(#[trigger] t[k]) by {
        assert(t[k] == t.subrange(b, q)[k - b]);
        assert((nl + indent)[k - b] == indent[k - b - nl.len()]);
    }
    assert forall|k: int| q <= k < r implies #[trigger] t[k] == tag[k - q] by {
        assert(t[k] == t.subrange(q, r)[k - q]);
    }
    assert(t.subrange(q, c) =~= at.left) by {
        assert forall|k: int| 0 <= k < at.left.len() implies t.subrange(q, c)[k]
            == at.left[k] by {
            assert(t[q + k] == tag[k]);
        }
    }
    assert forall|k: int| c <= k < e implies #[trigger] t[k] == content[k - c] by {
        assert(t[k] == tag[k - q]);
    }
    assert(t.subrange(c, e) =~= content);
    assert(t.subrange(e, r) =~= at.right) by {
        assert forall|k: int| 0 <= k < at.right.len() implies t.subrange(e, r)[k]
            == at.right[k] by {
            assert(t[e + k] == tag[e + k - q]);
        }
    }
}

/// A delimiter that occurs nowhere in a text occurs nowhere in the text
/// with a line break before it.
proof fn lemma_plain_after_break(tail: Seq<char>, pat: Seq<char>, newline: Newline)
    requires
        plain(pat),
        pat.len() > 0,
        find_from(tail, pat, 0) is None,
    ensures
        find_from(newline.chars() + tail, pat, 0) is None,
{
    let nl = newline.chars();
    let u = nl + tail;
    lemma_find_from(tail, pat, 0);
    lemma_find_from(u, pat, 0);
    if let Some(k) = find_from(u, pat, 0) {
        if k < nl.len() {
            assert(u.subrange(k, k + pat.len())[0] == pat[0]);
            assert(u[k] == nl[k]);
            assert(is_space(nl[k]));
        } else {
            assert(tail.subrange(k - nl.len(), k - nl.len() + pat.len()) =~= u.subrange(
                k,
                k + pat.len(),
            ));
            assert(matches_at(tail, pat, k - nl.len()));
        }
    }
}

/// The line that begins the text after the tag line, without its line
/// break.
pub open spec fn plain_rest(tail: Seq<char>, newline: Newline) -> Seq<char> {
    (newline.chars() + tail).subrange(
        newline.chars().len() as int,
        line_end(newline.chars() + tail, 0, newline.chars()),
    )
}

/// The tokens of the lines after it.
pub open spec fn plain_post(tail: Seq<char>, newline: Newline) -> Seq<TokenView> {
    text_tokens(
        lines_from(
            newline.chars() + tail,
            line_end(newline.chars() + tail, 0, newline.chars()),
            newline.chars(),
        ),
    )
}

/// A line break and plain text after it are read alike under any
/// delimiters that do not occur in the text: as the line that begins with
/// the line break, and the lines after it.
proof fn lemma_lex_plain_tail(t: Seq<char>, r: int, tail: Seq<char>, st: LexState)
    requires
        st.left.len() > 0,
        st.right.len() > 0,
        plain_delimiters(st),
        0 <= r <= t.len(),
        t.skip(r) == st.newline.chars() + tail,
        find_from(tail, st.left, 0) is None,
    ensures
        lex_from(t, r, st) == ended(
            seq![TokenView::Text(st.newline.chars() + plain_rest(tail, st.newline))] + plain_post(
                tail,
                st.newline,
            ),
            st,
        ),
{
    let nl = st.newline.chars();
    let u = nl + tail;
    assert(u.skip(0) =~= u);
    assert(same_from(t, r, u, 0)) by {
        reveal(same_from);
    }
    lemma_lex_same(t, r, u, 0, st);
    lemma_plain_after_break(tail, st.left, st.newline);
    lemma_lex_plain(u, 0, st);
    lemma_line_end(u, 0, nl);
    let end = line_end(u, 0, nl);
    assert(u.subrange(0, nl.len() as int) =~= nl);
    assert(matches_at(u, nl, 0));
    lemma_find_from(u, nl, nl.len() as int);
    assert(end >= nl.len());
    assert(u.subrange(0, end) =~= nl + plain_rest(tail, st.newline));
    assert(text_tokens(seq![u.subrange(0, end)] + lines_from(u, end, nl)) =~= seq![
        TokenView::Text(nl + plain_rest(tail, st.newline)),
    ] + plain_post(tail, st.newline));
}

/// The interior `content` makes a tag that changes the delimiters of `at` to
/// `left` and `right`, which leaves the tokenizer in the state `next`.
#[verifier::opaque]
pub open spec fn changes_delimiters(
    content: Seq<char>,
    at: LexState,
    left: Seq<char>,
    right: Seq<char>,
    next: LexState,
) -> bool {
    tag_token(content, at) == Ok::<(TokenView, LexState), RibboncurlsError>(
        (TokenView::DelimiterChange { left, right }, next),
    )
}

/// The state after a change of delimiters.
proof fn lemma_delimiter_next(
    content: Seq<char>,
    at: LexState,
    left: Seq<char>,
    right: Seq<char>,
    next: LexState,
)
    requires
        changes_delimiters(content, at, left, right, next),
        at.left.len() > 0,
        at.right.len() > 0,
        plain_delimiters(at),
    ensures
        next.left == left,
        next.open == at.open,
        next.newline == at.newline,
        next.left.len() > 0,
        next.right.len() > 0,
        plain_delimiters(next),
{
    reveal(changes_delimiters);
    lemma_tag_keeps_plain(content, at);
    lemma_delimiters_stay(content, at);
}

/// How the tokenizer reads, from the line break before it on, a line with a
/// change of delimiters before plain text, and the plain text without that
/// line.
proof fn lemma_lex_delimiter_line(
    head: Seq<char>,
    indent: Seq<char>,
    content: Seq<char>,
    tail: Seq<char>,
    at: LexState,
    left: Seq<char>,
    right: Seq<char>,
    next: LexState,
)
    requires
        at.left.len() > 0,
        at.right.len() > 0,
        plain_delimiters(at),
        all_hws(indent),
        content.len() > 0,
        content[0] != at.left[0],
        ends_tag(content, at.right),
        changes_delimiters(content, at, left, right, next),
        find_from(tail, at.left, 0) is None,
        find_from(tail, left, 0) is None,
    ensures
        ({
            let nl = at.newline.chars();
            let t1 = with_line(head, indent, plain_tag(content, at), tail, at.newline);
            let t2 = without_line(head, tail, at.newline);
            let last = TokenView::Text(nl + plain_rest(tail, at.newline));
            let post = plain_post(tail, at.newline);
            &&& lex_from(t1, head.len() as int, at) == emit(
                TokenView::Text(nl + indent),
                emit(
                    TokenView::DelimiterChange { left, right },
                    ended(seq![last] + post, next),
                ),
            )
            &&& lex_from(t2, head.len() as int, at) == ended(seq![last] + post, at)
            &&& next.open == at.open
        }),
{
    let newline = at.newline;
    let nl = newline.chars();
    let tag = plain_tag(content, at);
    let t1 = with_line(head, indent, tag, tail, newline);
    let t2 = without_line(head, tail, newline);
    let b = head.len() as int;
    let q = b + nl.len() + indent.len();
    let e = q + at.left.len() + content.len();
    let r = e + at.right.len();
    lemma_delimiter_next(content, at, left, right, next);
    lemma_tag_shape(head, indent, content, tail, at);
    assert(t1.subrange(e - content.len(), r) =~= content + at.right);
    lemma_tag_end(t1, content, at.right, e - content.len());
    lemma_lex_indent(t1, b, q, at);
    lemma_lex_tag(t1, q, e, at);
    assert(lex_from(t1, q, at) == emit(
        TokenView::DelimiterChange { left, right },
        lex_from(t1, r, next),
    )) by {
        reveal(changes_delimiters);
    }
    lemma_lex_plain_tail(t1, r, tail, next);
    assert(t2.skip(b) =~= nl + tail);
    lemma_lex_plain_tail(t2, b, tail, at);
}

/// Standalone stability for a change of delimiters, from the template text.
///
/// Take a template and a line break in it at which the tokenizer comes to
/// stand. After the line break put a line that holds nothing but indentation
/// and a tag that changes the delimiters. Where neither the left delimiter
/// in force before the tag nor the one after it occurs in what follows, the
/// template renders with that line, in every context that is not indented,
/// to the same output as without it, or fails with the same error.
pub proof fn lemma_standalone_delimiter_vanishes(
    head: Seq<char>,
    indent: Seq<char>,
    content: Seq<char>,
    tail: Seq<char>,
    env: RenderEnv,
    before: Seq<TokenView>,
    at: LexState,
    left: Seq<char>,
    right: Seq<char>,
    next: LexState,
)
    requires
        lex_upto(
            without_line(head, tail, env.newline),
            0,
            head.len() as int,
            initial_state(env.newline),
        ) == Some((before, at)),
        all_hws(indent),
        content.len() > 0,
        content[0] != at.left[0],
        ends_tag(content, at.right),
        changes_delimiters(content, at, left, right, next),
        find_from(tail, at.left, 0) is None,
        find_from(tail, left, 0) is None,
        env.indent == 0,
    ensures
        rendered_template(with_line(head, indent, plain_tag(content, at), tail, env.newline), env)
            == rendered_template(without_line(head, tail, env.newline), env),
{
    let newline = env.newline;
    let nl = newline.chars();
    let st = initial_state(newline);
    let tag = plain_tag(content, at);
    let t1 = with_line(head, indent, tag, tail, newline);
    let t2 = without_line(head, tail, newline);
    let b = head.len() as int;
    assert(plain_delimiters(st) && st.left.len() > 0 && st.right.len() > 0) by {
        reveal(is_wide_space);
    }
    lemma_upto_keeps_plain(t2, 0, b, st);
    lemma_same_heads(head, indent, tag, tail, newline);
    lemma_upto_same(t2, t1, 0, b, newline, st);
    lemma_lex_split(t1, 0, b, st);
    lemma_lex_split(t2, 0, b, st);
    lemma_lex_delimiter_line(head, indent, content, tail, at, left, right, next);
    let rest = plain_rest(tail, newline);
    let post = plain_post(tail, newline);
    let first = TokenView::Text(nl + indent);
    let mark = TokenView::DelimiterChange { left, right };
    let last = TokenView::Text(nl + rest);
    if at.open.len() == 0 {
        lemma_assemble(before, first, mark, last, post, next);
        lemma_assemble(before, first, mark, last, post, at);
        let tokens1 = before + tag_line(indent, mark, rest, newline) + post;
        let tokens2 = before + plain_line(rest, newline) + post;
        assert(emit(last, Ok::<(Seq<TokenView>, LexState), RibboncurlsError>((post, next)))
            == ended(seq![last] + post, next));
        assert(emit(last, Ok::<(Seq<TokenView>, LexState), RibboncurlsError>((post, at)))
            == ended(seq![last] + post, at));
        assert(tokenize_spec(t1, st) == Ok::<(Seq<TokenView>, LexState), RibboncurlsError>(
            (tokens1, next),
        ));
        assert(tokenize_spec(t2, st) == Ok::<(Seq<TokenView>, LexState), RibboncurlsError>(
            (tokens2, at),
        ));
        lemma_standalone_line_vanishes(before, indent, mark, rest, post, env);
        assert(rendered_template(t1, env) == rendered_tokens(tokens1, env));
        assert(rendered_template(t2, env) == rendered_tokens(tokens2, env));
    }
}

/// The characters of a last line with a tag, by their places.
proof fn lemma_last_tag_shape(
    head: Seq<char>,
    indent: Seq<char>,
    content: Seq<char>,
    at: LexState,
)
    requires
        all_hws(indent),
    ensures
        ({
            let nl = at.newline.chars();
            let t = with_last_line(head, indent, plain_tag(content, at), at.newline);
            let b = head.len() as int;
            let q = b + nl.len() + indent.len();
            let c = q + at.left.len();
            let e = c + content.len();
            &&& t.len() == e + at.right.len()
            &&& t.take(b + nl.len()) == head + nl
            &&& matches_at(t, nl, b)
            &&& t.subrange(b, q) == nl + indent
            &&& forall|k: int| b + nl.len() <= k < q ==> is_hws(#[trigger] t[k])
            &&& matches_at(t, at.left, q)
            &&& t.subrange(c, e) == content
            &&& forall|k: int| c <= k < e ==> #[trigger] t[k] == content[k - c]
            &&& matches_at(t, at.right, e)
        }),
{
    let nl = at.newline.chars();
    let tag = plain_tag(content, at);
    let t = with_last_line(head, indent, tag, at.newline);
    let b = head.len() as int;
    let q = b + nl.len() + indent.len();
    let c = q + at.left.len();
    let e = c + content.len();
    let r = e + at.right.len();
    lemma_all_hws_chars(indent);
    assert(r == q + tag.len());
    assert(t.take(b + nl.len()) =~= head + nl);
    assert(t.subrange(b, b + nl.len()) =~= nl);
    assert(t.subrange(b, q) =~= nl + indent);
    assert(t.subrange(q, r) =~= tag);
    assert forall|k: int| b + nl.len() <= k < q implies is_hws(#[trigger] t[k]) by {
        assert(t[k] == t.subrange(b, q)[k - b]);
        assert((nl + indent)[k - b] == indent[k - b - nl.len()]);
    }
    assert forall|k: int| q <= k < r implies #[trigger] t[k] == tag[k - q] by {
        assert(t[k] == t.subrange(q, r)[k - q]);
    }
    assert(t.subrange(q, c) =~= at.left) by {
        assert forall|k: int| 0 <= k < at.left.len() implies t.subrange(q, c)[k]
            == at.left[k] by {
            assert(t[q + k] == tag[k]);
        }
    }
    assert forall|k: int| c <= k < e implies #[trigger] t[k] == content[k - c] by {
        assert(t[k] == tag[k - q]);
    }
    assert(t.subrange(c, e) =~= content);
    assert(t.subrange(e, r) =~= at.right) by {
        assert forall|k: int| 0 <= k < at.right.len() implies t.subrange(e, r)[k]
            == at.right[k] by {
            assert(t[e + k] == tag[e + k - q]);
        }
    }
}

/// How the tokenizer reads, from the last line break on, a template that
/// ends with a change of delimiters alone on its line, and the template
/// without that line.
proof fn lemma_lex_last_delimiter(
    head: Seq<char>,
    indent: Seq<char>,
    content: Seq<char>,
    at: LexState,
    left: Seq<char>,
    right: Seq<char>,
    next: LexState,
)
    requires
        at.left.len() > 0,
        at.right.len() > 0,
        plain_delimiters(at),
        all_hws(indent),
        content.len() > 0,
        content[0] != at.left[0],
        ends_tag(content, at.right),
        changes_delimiters(content, at, left, right, next),
    ensures
        ({
            let nl = at.newline.chars();
            let t1 = with_last_line(head, indent, plain_tag(content, at), at.newline);
            let t2 = without_last_line(head, at.newline);
            &&& lex_from(t1, head.len() as int, at) == emit(
                TokenView::Text(nl + indent),
                emit(TokenView::DelimiterChange { left, right }, ended(Seq::empty(), next)),
            )
            &&& lex_from(t2, head.len() as int, at) == emit(
                TokenView::Text(nl),
                ended(Seq::empty(), at),
            )
            &&& next.open == at.open
        }),
{
    let nl = at.newline.chars();
    let t1 = with_last_line(head, indent, plain_tag(content, at), at.newline);
    let t2 = without_last_line(head, at.newline);
    let b = head.len() as int;
    let q = b + nl.len() + indent.len();
    let e = q + at.left.len() + content.len();
    lemma_delimiter_next(content, at, left, right, next);
    lemma_last_tag_shape(head, indent, content, at);
    assert(t1.subrange(e - content.len(), e + at.right.len()) =~= content + at.right);
    lemma_tag_end(t1, content, at.right, e - content.len());
    lemma_lex_indent(t1, b, q, at);
    lemma_lex_tag(t1, q, e, at);
    assert(lex_from(t1, q, at) == emit(
        TokenView::DelimiterChange { left, right },
        lex_from(t1, e + at.right.len(), next),
    )) by {
        reveal(changes_delimiters);
    }
    assert(t2.subrange(b, b + nl.len()) =~= nl);
    lemma_lex_at_break(t2, b, at);
    assert(text_end(t2, b, at) == t2.len());
    assert(nl + t2.subrange(b + nl.len(), t2.len() as int) =~= nl);
}

/// A template and the same template with a last line after it begin alike,
/// up to and with the line break after `head`.
pub proof fn lemma_last_heads(
    head: Seq<char>,
    indent: Seq<char>,
    tag: Seq<char>,
    newline: Newline,
)
    ensures
        same_head(
            without_last_line(head, newline),
            with_last_line(head, indent, tag, newline),
            head.len() as int,
            newline,
        ),
{
    let nl = newline.chars();
    let t1 = with_last_line(head, indent, tag, newline);
    let t2 = without_last_line(head, newline);
    let b = head.len() as int;
    assert(t1.take(b + nl.len()) =~= head + nl);
    assert(t2.take(b + nl.len()) =~= head + nl);
    assert(t2.subrange(b, b + nl.len()) =~= nl);
    assert(agree_upto(t2, t1, b + nl.len())) by {
        reveal(agree_upto);
    }
}

/// Standalone stability on the last line for a change of delimiters, from
/// the template text.
///
/// Take a template that ends with a line break at which the tokenizer comes
/// to stand. After it put indentation and a tag that changes the
/// delimiters, and no line break. With them the template renders, in every
/// context that is not indented, to the same output as without them, or
/// fails with the same error.
pub proof fn lemma_last_delimiter_vanishes(
    head: Seq<char>,
    indent: Seq<char>,
    content: Seq<char>,
    env: RenderEnv,
    before: Seq<TokenView>,
    at: LexState,
    left: Seq<char>,
    right: Seq<char>,
    next: LexState,
)
    requires
        lex_upto(
            without_last_line(head, env.newline),
            0,
            head.len() as int,
            initial_state(env.newline),
        ) == Some((before, at)),
        all_hws(indent),
        content.len() > 0,
        content[0] != at.left[0],
        ends_tag(content, at.right),
        changes_delimiters(content, at, left, right, next),
        env.indent == 0,
    ensures
        rendered_template(
            with_last_line(head, indent, plain_tag(content, at), env.newline),
            env,
        ) == rendered_template(without_last_line(head, env.newline), env),
{
    let newline = env.newline;
    let nl = newline.chars();
    let st = initial_state(newline);
    let t1 = with_last_line(head, indent, plain_tag(content, at), newline);
    let t2 = without_last_line(head, newline);
    let b = head.len() as int;
    assert(plain_delimiters(st) && st.left.len() > 0 && st.right.len() > 0) by {
        reveal(is_wide_space);
    }
    lemma_upto_keeps_plain(t2, 0, b, st);
    lemma_last_heads(head, indent, plain_tag(content, at), newline);
    lemma_upto_same(t2, t1, 0, b, newline, st);
    lemma_lex_split(t1, 0, b, st);
    lemma_lex_split(t2, 0, b, st);
    lemma_lex_last_delimiter(head, indent, content, at, left, right, next);
    if at.open.len() == 0 {
        let first = TokenView::Text(nl + indent);
        let mark = TokenView::DelimiterChange { left, right };
        let last = TokenView::Text(nl);
        let none = Seq::<TokenView>::empty();
        let tokens1 = before + last_tag_line(indent, mark, newline);
        let tokens2 = before + last_plain_line(newline);
        assert(before + (seq![first] + (seq![mark] + none)) =~= tokens1);
        assert(before + (seq![last] + none) =~= tokens2);
        assert(tokenize_spec(t1, st) == Ok::<(Seq<TokenView>, LexState), RibboncurlsError>(
            (tokens1, next),
        ));
        assert(tokenize_spec(t2, st) == Ok::<(Seq<TokenView>, LexState), RibboncurlsError>(
            (tokens2, at),
        ));
        lemma_last_line_vanishes(before, indent, mark, env);
        assert(rendered_template(t1, env) == rendered_tokens(tokens1, env));
        assert(rendered_template(t2, env) == rendered_tokens(tokens2, env));
    }
}

/// The characters of a first line with a tag, by their places.
proof fn lemma_first_tag_shape(
    indent: Seq<char>,
    content: Seq<char>,
    tail: Seq<char>,
    at: LexState,
)
    requires
        all_hws(indent),
    ensures
        ({
            let nl = at.newline.chars();
            let t = with_first_line(indent, plain_tag(content, at), tail, at.newline);
            let q = indent.len() as int;
            let c = q + at.left.len();
            let e = c + content.len();
            let r = e + at.right.len();
            &&& t.len() == r + nl.len() + tail.len()
            &&& t.subrange(0, q) == indent
            &&& forall|k: int| 0 <= k < q ==> is_hws(#[trigger] t[k])
            &&& matches_at(t, at.left, q)
            &&& t.subrange(c, e) == content
            &&& t.subrange(c, r) == content + at.right
            &&& t.skip(r) == nl + tail
        }),
{
    let nl = at.newline.chars();
    let tag = plain_tag(content, at);
    let t = with_first_line(indent, tag, tail, at.newline);
    let q = indent.len() as int;
    let c = q + at.left.len();
    let e = c + content.len();
    let r = e + at.right.len();
    lemma_all_hws_chars(indent);
    assert(r == q + tag.len());
    assert(t.subrange(0, q) =~= indent);
    assert(t.subrange(q, r) =~= tag);
    assert(t.skip(r) =~= nl + tail);
    assert forall|k: int| 0 <= k < q implies is_hws(#[trigger] t[k]) by {
        assert(t[k] == indent[k]);
    }
    assert forall|k: int| q <= k < r implies #[trigger] t[k] == tag[k - q] by {
        assert(t[k] == t.subrange(q, r)[k - q]);
    }
    assert(t.subrange(q, c) =~= at.left) by {
        assert forall|k: int| 0 <= k < at.left.len() implies t.subrange(q, c)[k]
            == at.left[k] by {
            assert(t[q + k] == tag[k]);
        }
    }
    assert(t.subrange(c, e) =~= content) by {
        assert forall|k: int| 0 <= k < content.len() implies t.subrange(c, e)[k]
            == content[k] by {
            assert(t[c + k] == tag[c + k - q]);
        }
    }
    assert(t.subrange(c, r) =~= content + at.right) by {
        assert forall|k: int| 0 <= k < r - c implies t.subrange(c, r)[k] == (content
            + at.right)[k] by {
            assert(t[c + k] == tag[c + k - q]);
        }
    }
}

/// Plain text alone is read as the line that begins it, where it has any,
/// and the lines after it, as they are read after a line break.
proof fn lemma_lex_tail_alone(tail: Seq<char>, st: LexState)
    requires
        st.left.len() > 0,
        st.right.len() > 0,
        plain_delimiters(st),
        find_from(tail, st.left, 0) is None,
    ensures
        lex_from(tail, 0, st) == ended(
            first_plain_line(plain_rest(tail, st.newline)) + plain_post(tail, st.newline),
            st,
        ),
        no_loose_indent(plain_rest(tail, st.newline), plain_post(tail, st.newline)),
{
    let nl = st.newline.chars();
    let u = nl + tail;
    let p = nl.len() as int;
    let rest = plain_rest(tail, st.newline);
    let post = plain_post(tail, st.newline);
    assert(u.subrange(0, p) =~= nl);
    assert(matches_at(u, nl, 0));
    assert(u.skip(p) =~= tail);
    assert(tail.skip(0) =~= tail);
    assert(same_from(u, p, tail, 0)) by {
        reveal(same_from);
    }
    lemma_plain_after_break(tail, st.left, st.newline);
    lemma_find_from(u, st.left, 0);
    lemma_find_from(u, st.left, p);
    lemma_find_from(u, nl, p);
    let end = line_end(u, 0, nl);
    assert(p <= end <= u.len());
    lemma_same_part(u, p, tail, 0, end - p, end - p);
    lemma_lex_same(u, end, tail, end - p, st);
    lemma_lex_plain(u, end, st);
    if end > p {
        lemma_lex_rest(u, p, end, tail, st);
        assert(seq![TokenView::Text(rest)] + post =~= first_plain_line(rest) + post);
    } else {
        assert(Seq::<TokenView>::empty() + post =~= post);
        if end < u.len() {
            lemma_line_end(u, end, nl);
            let line = u.subrange(end, line_end(u, end, nl));
            assert(post[0] == TokenView::Text(line));
            if all_hws(line) {
                lemma_all_hws_chars(line);
                assert(line[0] == u.subrange(end, end + nl.len())[0]);
                assert(is_hws(line[0]));
            }
        } else {
            assert(post.len() == 0);
        }
    }
}

/// How the tokenizer reads a template that begins with a change of
/// delimiters alone on its line, before plain text.
proof fn lemma_lex_first_delimiter(
    indent: Seq<char>,
    content: Seq<char>,
    tail: Seq<char>,
    st: LexState,
    left: Seq<char>,
    right: Seq<char>,
    next: LexState,
)
    requires
        st.left.len() > 0,
        st.right.len() > 0,
        plain_delimiters(st),
        all_hws(indent),
        content.len() > 0,
        content[0] != st.left[0],
        ends_tag(content, st.right),
        changes_delimiters(content, st, left, right, next),
        find_from(tail, left, 0) is None,
    ensures
        ({
            let nl = st.newline.chars();
            let t1 = with_first_line(indent, plain_tag(content, st), tail, st.newline);
            let last = TokenView::Text(nl + plain_rest(tail, st.newline));
            let post = plain_post(tail, st.newline);
            let line = emit(
                TokenView::DelimiterChange { left, right },
                ended(seq![last] + post, next),
            );
            &&& lex_from(t1, 0, st) == if indent.len() > 0 {
                emit(TokenView::Text(indent), line)
            } else {
                line
            }
            &&& next.open == st.open
        }),
{
    let t1 = with_first_line(indent, plain_tag(content, st), tail, st.newline);
    let q = indent.len() as int;
    let c = q + st.left.len();
    let e = c + content.len();
    let r = e + st.right.len();
    lemma_delimiter_next(content, st, left, right, next);
    lemma_first_tag_shape(indent, content, tail, st);
    lemma_tag_end(t1, content, st.right, c);
    assert(t1[c] == t1.subrange(c, e)[0]);
    if q > 0 {
        lemma_lex_lead(t1, q, st);
    }
    lemma_lex_tag(t1, q, e, st);
    assert(lex_from(t1, q, st) == emit(
        TokenView::DelimiterChange { left, right },
        lex_from(t1, r, next),
    )) by {
        reveal(changes_delimiters);
    }
    lemma_lex_plain_tail(t1, r, tail, next);
}

/// Standalone stability on the first line for a change of delimiters, from
/// the template text.
///
/// Take plain text, in which neither `{{` nor the new left delimiter
/// occurs, and put before it a line that holds nothing but indentation and
/// a tag that changes the delimiters. With that line the template renders,
/// in every context that is not indented, to the same output as without it.
pub proof fn lemma_first_delimiter_vanishes(
    indent: Seq<char>,
    content: Seq<char>,
    tail: Seq<char>,
    env: RenderEnv,
    left: Seq<char>,
    right: Seq<char>,
    next: LexState,
)
    requires
        all_hws(indent),
        content.len() > 0,
        content[0] != '{',
        ends_tag(content, default_right()),
        changes_delimiters(content, initial_state(env.newline), left, right, next),
        find_from(tail, default_left(), 0) is None,
        find_from(tail, left, 0) is None,
        env.indent == 0,
    ensures
        rendered_template(
            with_first_line(
                indent,
                plain_tag(content, initial_state(env.newline)),
                tail,
                env.newline,
            ),
            env,
        ) == rendered_template(tail, env),
{
    let newline = env.newline;
    let nl = newline.chars();
    let st = initial_state(newline);
    let t1 = with_first_line(indent, plain_tag(content, st), tail, newline);
    assert(plain_delimiters(st) && st.left.len() > 0 && st.right.len() > 0 && st.left[0] == '{')
        by {
        reveal(is_wide_space);
    }
    lemma_lex_first_delimiter(indent, content, tail, st, left, right, next);
    lemma_lex_tail_alone(tail, st);
    let rest = plain_rest(tail, newline);
    let post = plain_post(tail, newline);
    let mark = TokenView::DelimiterChange { left, right };
    let last = TokenView::Text(nl + rest);
    let tokens1 = first_tag_line(indent, mark, rest, newline) + post;
    let tokens2 = first_plain_line(rest) + post;
    assert(tokenize_spec(t1, st) == Ok::<(Seq<TokenView>, LexState), RibboncurlsError>(
        (tokens1, next),
    )) by {
        if indent.len() > 0 {
            assert(seq![TokenView::Text(indent)] + (seq![mark] + (seq![last] + post))
                =~= tokens1);
        } else {
            assert(seq![mark] + (seq![last] + post) =~= tokens1);
        }
    }
    assert(tokenize_spec(tail, st) == Ok::<(Seq<TokenView>, LexState), RibboncurlsError>(
        (tokens2, st),
    ));
    lemma_first_line_vanishes(indent, mark, rest, post, env);
    assert(rendered_template(t1, env) == rendered_tokens(tokens1, env));
    assert(rendered_template(tail, env) == rendered_tokens(tokens2, env));
}

/// Standalone stability for a template that is one line.
///
/// A template that holds nothing but indentation and a tag that changes the
/// delimiters renders to nothing, as the empty template does.
pub proof fn lemma_only_delimiter_vanishes(
    indent: Seq<char>,
    content: Seq<char>,
    env: RenderEnv,
    left: Seq<char>,
    right: Seq<char>,
    next: LexState,
)
    requires
        all_hws(indent),
        content.len() > 0,
        content[0] != '{',
        ends_tag(content, default_right()),
        changes_delimiters(content, initial_state(env.newline), left, right, next),
    ensures
        rendered_template(indent + plain_tag(content, initial_state(env.newline)), env)
            == Ok::<Seq<char>, RibboncurlsError>(Seq::empty()),
{
    let newline = env.newline;
    let nl = newline.chars();
    let st = initial_state(newline);
    let tag = plain_tag(content, st);
    let t = indent + tag;
    let q = indent.len() as int;
    let c = q + st.left.len();
    let e = c + content.len();
    let r = e + st.right.len();
    assert(plain_delimiters(st) && st.left.len() > 0 && st.right.len() > 0 && st.left[0] == '{')
        by {
        reveal(is_wide_space);
    }
    lemma_delimiter_next(content, st, left, right, next);
    lemma_all_hws_chars(indent);
    assert(t.len() == r);
    assert(t.subrange(0, q) =~= indent);
    assert forall|k: int| 0 <= k < q implies is_hws(#[trigger] t[k]) by {
        assert(t[k] == indent[k]);
    }
    assert(t.subrange(q, c) =~= st.left);
    assert(t.subrange(c, e) =~= content);
    assert(t.subrange(c, r) =~= content + st.right);
    assert(t[c] == content[0]);
    lemma_tag_end(t, content, st.right, c);
    if q > 0 {
        lemma_lex_lead(t, q, st);
    }
    lemma_lex_tag(t, q, e, st);
    let change = TokenView::DelimiterChange { left, right };
    assert(lex_from(t, q, st) == emit(change, lex_from(t, r, next))) by {
        reveal(changes_delimiters);
    }
    let none = Seq::<TokenView>::empty();
    let tokens = if q > 0 {
        seq![TokenView::Text(indent), change]
    } else {
        seq![change]
    };
    assert(seq![change] + none =~= seq![change]);
    assert(seq![TokenView::Text(indent)] + seq![change] =~= seq![TokenView::Text(indent), change]);
    assert(tokenize_spec(t, st) == Ok::<(Seq<TokenView>, LexState), RibboncurlsError>(
        (tokens, next),
    ));
    let init = BuildState { root: Seq::<Node>::empty(), stack: Seq::<Node>::empty() };
    let mark = Node::Delimiter { standalone: true };
    let done = BuildState { root: seq![mark], stack: Seq::<Node>::empty() };
    assert(pushed(init, mark).root =~= done.root);
    if q > 0 {
        assert(standalone_at(tokens, 1, nl));
        assert(dropped_at(tokens, 0, nl));
        assert(build_step(tokens, 0, init, nl) == Ok::<BuildState, RibboncurlsError>(init));
        assert(build_step(tokens, 1, init, nl) == Ok::<BuildState, RibboncurlsError>(done));
        assert(build_from(tokens, 2, done, nl) == Ok::<Seq<Node>, RibboncurlsError>(done.root));
        assert(build_from(tokens, 1, init, nl) == Ok::<Seq<Node>, RibboncurlsError>(done.root));
    } else {
        assert(standalone_at(tokens, 0, nl));
        assert(build_step(tokens, 0, init, nl) == Ok::<BuildState, RibboncurlsError>(done));
        assert(build_from(tokens, 1, done, nl) == Ok::<Seq<Node>, RibboncurlsError>(done.root));
    }
    assert(tree_spec(tokens, nl) == Ok::<Seq<Node>, RibboncurlsError>(seq![mark]));
    lemma_render_single(mark, env);
}

/// Standalone stability for a change of delimiters, for whole renders:
/// where taking its line out does not change the line terminator that the
/// template is taken to use, the render with the line and the render
/// without it agree for all data and all partials.
pub proof fn lemma_delimiter_line_render(
    head: Seq<char>,
    indent: Seq<char>,
    content: Seq<char>,
    tail: Seq<char>,
    newline: Newline,
    data: DataView,
    partials: DataView,
    before: Seq<TokenView>,
    at: LexState,
    left: Seq<char>,
    right: Seq<char>,
    next: LexState,
)
    requires
        lex_upto(
            without_line(head, tail, newline),
            0,
            head.len() as int,
            initial_state(newline),
        ) == Some((before, at)),
        all_hws(indent),
        content.len() > 0,
        content[0] != at.left[0],
        ends_tag(content, at.right),
        changes_delimiters(content, at, left, right, next),
        find_from(tail, at.left, 0) is None,
        find_from(tail, left, 0) is None,
        newline_variant(with_line(head, indent, plain_tag(content, at), tail, newline))
            == newline,
        newline_variant(without_line(head, tail, newline)) == newline,
    ensures
        render_spec(
            with_line(head, indent, plain_tag(content, at), tail, newline),
            data,
            partials,
        ) == render_spec(without_line(head, tail, newline), data, partials),
{
    let env = root_env(data, partials, newline);
    lemma_standalone_delimiter_vanishes(
        head,
        indent,
        content,
        tail,
        env,
        before,
        at,
        left,
        right,
        next,
    );
}

/// The same on the first line of a template.
pub proof fn lemma_first_delimiter_render(
    indent: Seq<char>,
    content: Seq<char>,
    tail: Seq<char>,
    newline: Newline,
    data: DataView,
    partials: DataView,
    left: Seq<char>,
    right: Seq<char>,
    next: LexState,
)
    requires
        all_hws(indent),
        content.len() > 0,
        content[0] != '{',
        ends_tag(content, default_right()),
        changes_delimiters(content, initial_state(newline), left, right, next),
        find_from(tail, default_left(), 0) is None,
        find_from(tail, left, 0) is None,
        newline_variant(
            with_first_line(indent, plain_tag(content, initial_state(newline)), tail, newline),
        ) == newline,
        newline_variant(tail) == newline,
    ensures
        render_spec(
            with_first_line(indent, plain_tag(content, initial_state(newline)), tail, newline),
            data,
            partials,
        ) == render_spec(tail, data, partials),
{
    let env = root_env(data, partials, newline);
    lemma_first_delimiter_vanishes(indent, content, tail, env, left, right, next);
}

/// The same on the last line of a template, with no line break after the
/// tag.
pub proof fn lemma_last_delimiter_render(
    head: Seq<char>,
    indent: Seq<char>,
    content: Seq<char>,
    newline: Newline,
    data: DataView,
    partials: DataView,
    before: Seq<TokenView>,
    at: LexState,
    left: Seq<char>,
    right: Seq<char>,
    next: LexState,
)
    requires
        lex_upto(without_last_line(head, newline), 0, head.len() as int, initial_state(newline))
            == Some((before, at)),
        all_hws(indent),
        content.len() > 0,
        content[0] != at.left[0],
        ends_tag(content, at.right),
        changes_delimiters(content, at, left, right, next),
        newline_variant(with_last_line(head, indent, plain_tag(content, at), newline))
            == newline,
        newline_variant(without_last_line(head, newline)) == newline,
    ensures
        render_spec(
            with_last_line(head, indent, plain_tag(content, at), newline),
            data,
            partials,
        ) == render_spec(without_last_line(head, newline), data, partials),
{
    let env = root_env(data, partials, newline);
    lemma_last_delimiter_vanishes(head, indent, content, env, before, at, left, right, next);
}

} // verus!
