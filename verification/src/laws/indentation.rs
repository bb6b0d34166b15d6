//! Partial indentation: what a partial that holds text only expands to, line
//! by line.
use crate::error::RibboncurlsError;
use crate::laws::prefix::lemma_breaks_apart;
use crate::render::{
    after_node, indent_from, lead, partial_env, partial_template, pending_from, render_node_spec,
    render_nodes_spec, template_forest, RenderEnv,
};
use crate::syntax_tree::{
    build_from, build_step, clean_text, dropped_at, pushed, standalone_at, BuildState, Node,
};
use crate::text::{
    find_from, lemma_find_from, lemma_match_in_part, lemma_match_prefix, matches_at, spaces,
};
use crate::token::{default_left, initial_state, lex_from, text_end, LexState, TokenView};
use crate::utils::Newline;
use vstd::prelude::*;

verus! {

/// Where the line that starts at `i` ends: before the next line break after
/// `i`, a line break at `i` itself being part of the line.
pub open spec fn line_end(s: Seq<char>, i: int, nl: Seq<char>) -> int {
    let from = if matches_at(s, nl, i) {
        i + nl.len()
    } else {
        i
    };
    match find_from(s, nl, from) {
        Some(k) => k,
        None => s.len() as int,
    }
}

/// A line is not empty, and ends within the text.
pub proof fn lemma_line_end(s: Seq<char>, i: int, nl: Seq<char>)
    requires
        0 <= i < s.len(),
        nl.len() > 0,
    ensures
        i < line_end(s, i, nl) <= s.len(),
{
    let from = if matches_at(s, nl, i) {
        i + nl.len()
    } else {
        i
    };
    lemma_find_from(s, nl, from);
}

/// The lines of `s` from index `i` on, each with the line break before it.
pub open spec fn lines_from(s: Seq<char>, i: int, nl: Seq<char>) -> Seq<Seq<char>>
    decreases s.len() - i,
{
    if i < 0 || i >= s.len() || nl.len() == 0 {
        Seq::empty()
    } else {
        proof {
            lemma_line_end(s, i, nl);
        }
        seq![s.subrange(i, line_end(s, i, nl))] + lines_from(s, line_end(s, i, nl), nl)
    }
}

/// Text tokens with the given contents.
pub open spec fn text_tokens(lines: Seq<Seq<char>>) -> Seq<TokenView> {
    lines.map_values(|line: Seq<char>| TokenView::Text(line))
}

/// Text nodes with the given contents.
pub open spec fn text_nodes(lines: Seq<Seq<char>>) -> Seq<Node> {
    lines.map_values(|line: Seq<char>| Node::Text(line))
}

/// What the tokenizer returns for tokens read in a state in which the
/// template ends: the tokens, or `MissingEndTag` where a section is open.
pub open spec fn ended(tokens: Seq<TokenView>, st: LexState) -> Result<
    (Seq<TokenView>, LexState),
    RibboncurlsError,
> {
    if st.open.len() == 0 {
        Ok((tokens, st))
    } else {
        Err(RibboncurlsError::MissingEndTag)
    }
}

/// A template without a left delimiter is tokenized into its lines.
pub proof fn lemma_lex_plain(t: Seq<char>, i: int, st: LexState)
    requires
        0 <= i <= t.len(),
        st.left.len() > 0,
        st.right.len() > 0,
        find_from(t, st.left, 0) is None,
    ensures
        lex_from(t, i, st) == ended(text_tokens(lines_from(t, i, st.newline.chars())), st),
    decreases t.len() - i,
{
    let nl = st.newline.chars();
    if i < t.len() {
        lemma_find_from(t, st.left, 0);
        assert(!matches_at(t, st.left, i));
        if matches_at(t, st.left.push(st.left[0]), i) {
            lemma_match_prefix(t, st.left, st.left[0], i);
        }
        let from = if matches_at(t, nl, i) {
            i + nl.len()
        } else {
            i
        };
        lemma_find_from(t, st.left, from);
        lemma_find_from(t, nl, from);
        assert(find_from(t, st.left, from) is None);
        let end = line_end(t, i, nl);
        assert(text_end(t, i, st) == end);
        lemma_line_end(t, i, nl);
        lemma_lex_plain(t, end, st);
        let line = t.subrange(i, end);
        let rest = lines_from(t, end, nl);
        assert(seq![TokenView::Text(line)] + text_tokens(rest) =~= text_tokens(
            seq![line] + rest,
        ));
    } else {
        assert(text_tokens(Seq::<Seq<char>>::empty()) =~= Seq::<TokenView>::empty());
    }
}

/// Tokens that are all text build a forest of the same texts.
pub proof fn lemma_build_plain(lines: Seq<Seq<char>>, i: int, nl: Seq<char>)
    requires
        0 <= i <= lines.len(),
    ensures
        build_from(
            text_tokens(lines),
            i,
            BuildState { root: text_nodes(lines.take(i)), stack: Seq::empty() },
            nl,
        ) == Ok::<Seq<Node>, RibboncurlsError>(text_nodes(lines)),
    decreases lines.len() - i,
{
    let tokens = text_tokens(lines);
    let state = BuildState { root: text_nodes(lines.take(i)), stack: Seq::empty() };
    if i < lines.len() {
        assert(tokens[i] == TokenView::Text(lines[i]));
        assert(!standalone_at(tokens, i - 1, nl));
        assert(!standalone_at(tokens, i + 1, nl));
        assert(!standalone_at(tokens, 1, nl));
        assert(!dropped_at(tokens, i, nl));
        assert(clean_text(tokens, i, nl) == lines[i]);
        let next = pushed(state, Node::Text(lines[i]));
        assert(build_step(tokens, i, state, nl) == Ok::<BuildState, RibboncurlsError>(next));
        assert(next.root =~= text_nodes(lines.take(i + 1)));
        assert(next.stack =~= Seq::<Node>::empty());
        lemma_build_plain(lines, i + 1, nl);
    } else {
        assert(lines.take(i) =~= lines);
    }
}

/// No line break of `t` that begins in `t[a..b]` ends outside it.
pub open spec fn clean_cut(t: Seq<char>, nl: Seq<char>, a: int, b: int) -> bool {
    &&& 0 <= a <= b <= t.len()
    &&& forall|k: int| a <= k < b && #[trigger] matches_at(t, nl, k) ==> k + nl.len() <= b
}

/// A text is written line by line as a part of it is, followed by the rest
/// from the place in the line where the part leaves off.
proof fn lemma_indent_part(
    t: Seq<char>,
    nl: Seq<char>,
    n: nat,
    a: int,
    b: int,
    j: int,
    pending: bool,
)
    requires
        clean_cut(t, nl, a, b),
        0 <= j <= b - a,
    ensures
        indent_from(t, nl, n, a + j, pending) == indent_from(t.subrange(a, b), nl, n, j, pending)
            + indent_from(t, nl, n, b, pending_from(t.subrange(a, b), nl, j, pending)),
    decreases b - a - j,
{
    let part = t.subrange(a, b);
    if j < b - a {
        assert(part[j] == t[a + j]);
        if matches_at(part, nl, j) {
            lemma_match_in_part(t, nl, a, b, j);
        }
        if matches_at(t, nl, a + j) {
            assert(part.subrange(j, j + nl.len()) =~= t.subrange(a + j, a + j + nl.len()));
        }
        if nl.len() > 0 && matches_at(t, nl, a + j) {
            lemma_indent_part(t, nl, n, a, b, j + nl.len(), true);
            let rest = indent_from(t, nl, n, b, pending_from(part, nl, j + nl.len(), true));
            let mid = indent_from(part, nl, n, j + nl.len(), true);
            assert(lead(n, pending) + nl + (mid + rest) =~= (lead(n, pending) + nl + mid)
                + rest);
        } else {
            lemma_indent_part(t, nl, n, a, b, j + 1, false);
            let rest = indent_from(t, nl, n, b, pending_from(part, nl, j + 1, false));
            let mid = indent_from(part, nl, n, j + 1, false);
            assert(lead(n, pending) + seq![t[a + j]] + (mid + rest) =~= (lead(n, pending)
                + seq![t[a + j]] + mid) + rest);
        }
    } else {
        let rest = indent_from(t, nl, n, b, pending);
        assert(Seq::<char>::empty() + rest =~= rest);
    }
}

/// A line is cut cleanly: the line break that begins it lies in it, and no
/// other begins in it.
proof fn lemma_line_clean(t: Seq<char>, i: int, newline: Newline)
    requires
        0 <= i < t.len(),
    ensures
        clean_cut(t, newline.chars(), i, line_end(t, i, newline.chars())),
{
    let nl = newline.chars();
    let end = line_end(t, i, nl);
    lemma_line_end(t, i, nl);
    let from = if matches_at(t, nl, i) {
        i + nl.len()
    } else {
        i
    };
    lemma_find_from(t, nl, from);
    assert forall|k: int| i <= k < end && #[trigger] matches_at(t, nl, k) implies k + nl.len()
        <= end by {
        if k > i && k < from {
            lemma_breaks_apart(t, i, k, newline);
        }
    }
}

/// The lines of a text, each a text node, render inside an indented partial
/// as the text written line by line.
proof fn lemma_render_lines(
    t: Seq<char>,
    i: int,
    before: Seq<Seq<char>>,
    env: RenderEnv,
    pending: bool,
)
    requires
        0 <= i <= t.len(),
        env.indent > 0,
    ensures
        render_nodes_spec(
            text_nodes(before + lines_from(t, i, env.newline.chars())),
            before.len() as int,
            env,
            pending,
        ) == Ok::<Seq<char>, RibboncurlsError>(
            indent_from(t, env.newline.chars(), env.indent as nat, i, pending),
        ),
    decreases t.len() - i,
{
    let nl = env.newline.chars();
    let n = env.indent as nat;
    let all = before + lines_from(t, i, nl);
    let nodes = text_nodes(all);
    if i < t.len() {
        lemma_line_end(t, i, nl);
        let end = line_end(t, i, nl);
        let line = t.subrange(i, end);
        let rest = lines_from(t, end, nl);
        assert(all =~= before.push(line) + rest);
        let j = before.len() as int;
        assert(nodes[j] == Node::Text(line));
        let next = after_node(nodes[j], env, pending);
        assert(next == pending_from(line, nl, 0, pending));
        lemma_render_lines(t, end, before.push(line), env, next);
        lemma_line_clean(t, i, env.newline);
        lemma_indent_part(t, nl, n, i, end, 0, pending);
        assert(text_nodes(before.push(line) + rest) == nodes);
        assert(render_node_spec(nodes[j], env, pending) == Ok::<Seq<char>, RibboncurlsError>(
            indent_from(line, nl, n, 0, pending),
        ));
    } else {
        assert(all =~= before);
    }
}

/// Partial indentation.
///
/// A partial whose template holds text and no tag, included on a line that
/// is indented by `indent`, expands to its text written line by line:
/// `indent` spaces stand before the first line and after every line break,
/// but for a line break that ends the text, which nothing follows.
pub proof fn lemma_partial_indentation(
    name: Seq<char>,
    indent: u8,
    standalone: bool,
    text: Seq<char>,
    env: RenderEnv,
    pending: bool,
)
    requires
        indent > 0,
        env.depth > 0,
        partial_template(env.partials, name) == Some(text),
        find_from(text, default_left(), 0) is None,
    ensures
        render_node_spec(Node::Partial { name, indent, standalone }, env, pending) == Ok::<
            Seq<char>,
            RibboncurlsError,
        >(indent_from(text, env.newline.chars(), indent as nat, 0, true)),
{
    let nl = env.newline.chars();
    let st = initial_state(env.newline);
    let lines = lines_from(text, 0, nl);
    lemma_lex_plain(text, 0, st);
    assert(lines.take(0) =~= Seq::<Seq<char>>::empty());
    assert(text_nodes(Seq::<Seq<char>>::empty()) =~= Seq::<Node>::empty());
    lemma_build_plain(lines, 0, nl);
    let forest = text_nodes(lines);
    assert(template_forest(text, env.newline) == Ok::<Seq<Node>, RibboncurlsError>(forest));
    let inner = partial_env(env, indent);
    assert(Seq::<Seq<char>>::empty() + lines =~= lines);
    lemma_render_lines(text, 0, Seq::empty(), inner, true);
}

} // verus!
