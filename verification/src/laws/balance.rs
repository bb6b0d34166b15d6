//! What holds of every token sequence that the tokenizer returns: its
//! sections are balanced, so that the builder accepts it, and its texts are
//! single lines.
use crate::error::RibboncurlsError;
use crate::syntax_tree::{
    build_from, build_step, closed_section, pushed, tree_spec, BuildState, Node,
};
use crate::text::{find_from, lemma_find_from, lemma_match_in_part, matches_at};
use crate::token::{
    lemma_text_end, lex_from, tag_token, text_end, tokenize_spec, LexState, TokenView,
};
use vstd::prelude::*;

verus! {

/// The open sections after the tokens from `i` on, where each end tag names
/// the innermost section that is open when it is read; `None` where one does
/// not.
pub open spec fn balance_from(tokens: Seq<TokenView>, i: int, open: Seq<Seq<char>>) -> Option<
    Seq<Seq<char>>,
>
    decreases tokens.len() - i,
{
    if i < 0 || i >= tokens.len() {
        Some(open)
    } else {
        match tokens[i] {
            TokenView::OpenSection { name, .. } => balance_from(tokens, i + 1, open.push(name)),
            TokenView::CloseSection(name) => if open.len() > 0 && open.last() == name {
                balance_from(tokens, i + 1, open.drop_last())
            } else {
                None
            },
            _ => balance_from(tokens, i + 1, open),
        }
    }
}

/// The sections of a token sequence are balanced: every end tag closes the
/// innermost open section, and none stays open.
pub open spec fn balanced(tokens: Seq<TokenView>) -> bool {
    balance_from(tokens, 0, Seq::empty()) == Some(Seq::<Seq<char>>::empty())
}

proof fn lemma_balance_shift(first: TokenView, rest: Seq<TokenView>, i: int, open: Seq<Seq<char>>)
    requires
        0 <= i <= rest.len(),
    ensures
        balance_from(seq![first] + rest, i + 1, open) == balance_from(rest, i, open),
    decreases rest.len() - i,
{
    let all = seq![first] + rest;
    if i < rest.len() {
        assert(all[i + 1] == rest[i]);
        match rest[i] {
            TokenView::OpenSection { name, .. } => {
                lemma_balance_shift(first, rest, i + 1, open.push(name));
            },
            TokenView::CloseSection(name) => {
                if open.len() > 0 && open.last() == name {
                    lemma_balance_shift(first, rest, i + 1, open.drop_last());
                }
            },
            _ => {
                lemma_balance_shift(first, rest, i + 1, open);
            },
        }
    }
}

/// The token of a tag changes the open sections as balance demands.
proof fn lemma_tag_balance(content: Seq<char>, st: LexState)
    ensures
        match tag_token(content, st) {
            Err(_) => true,
            Ok((token, next)) => match token {
                TokenView::OpenSection { name, .. } => next.open == st.open.push(name),
                TokenView::CloseSection(name) => st.open.len() > 0 && st.open.last() == name
                    && next.open == st.open.drop_last(),
                _ => next.open == st.open,
            },
        },
{
}

/// The tokens that the tokenizer reads from index `i` on close the sections
/// that are open there, and every section they open.
pub proof fn lemma_lex_balanced(t: Seq<char>, i: int, st: LexState)
    requires
        0 <= i,
    ensures
        match lex_from(t, i, st) {
            Ok((tokens, end)) => balance_from(tokens, 0, st.open) == Some(
                Seq::<Seq<char>>::empty(),
            ) && end.open.len() == 0,
            Err(_) => true,
        },
    decreases t.len() - i,
{
    if st.left.len() == 0 || st.right.len() == 0 {
    } else if i >= t.len() {
        if st.open.len() == 0 {
            assert(st.open =~= Seq::<Seq<char>>::empty());
        }
    } else {
        let raw_left = st.left.push(st.left[0]);
        let raw_right = st.right.push(st.right[0]);
        if matches_at(t, raw_left, i) {
            if let Some(e) = find_from(t, raw_right, i + raw_left.len()) {
                lemma_find_from(t, raw_right, i + raw_left.len());
                lemma_lex_balanced(t, e + raw_right.len(), st);
                if let Ok((rest, end)) = lex_from(t, e + raw_right.len(), st) {
                    let token = (seq![
                        TokenView::Variable {
                            name: crate::text::trimmed(t.subrange(i + raw_left.len(), e)),
                            escaped: false,
                        },
                    ] + rest)[0];
                    lemma_balance_shift(token, rest, 0, st.open);
                }
            }
        } else if matches_at(t, st.left, i) {
            if let Some(e) = find_from(t, st.right, i + st.left.len()) {
                lemma_find_from(t, st.right, i + st.left.len());
                let content = t.subrange(i + st.left.len(), e);
                lemma_tag_balance(content, st);
                if let Ok((token, next)) = tag_token(content, st) {
                    lemma_lex_balanced(t, e + st.right.len(), next);
                    if let Ok((rest, end)) = lex_from(t, e + st.right.len(), next) {
                        assert((seq![token] + rest)[0] == token);
                        lemma_balance_shift(token, rest, 0, next.open);
                    }
                }
            }
        } else {
            lemma_text_end(t, i, st);
            let end = text_end(t, i, st);
            lemma_lex_balanced(t, end, st);
            if let Ok((rest, last)) = lex_from(t, end, st) {
                let token = TokenView::Text(t.subrange(i, end));
                assert((seq![token] + rest)[0] == token);
                lemma_balance_shift(token, rest, 0, st.open);
            }
        }
    }
}

/// The names of the sections on the stack of a builder.
pub open spec fn stack_names(stack: Seq<Node>) -> Seq<Seq<char>> {
    stack.map_values(|n: Node| n->Section_name)
}

/// Every node on the stack of a builder is a section.
pub open spec fn all_sections(stack: Seq<Node>) -> bool {
    forall|k: int| 0 <= k < stack.len() ==> #[trigger] stack[k] is Section
}

/// The builder accepts tokens that close the sections on its stack and every
/// section they open.
pub proof fn lemma_balanced_builds(
    tokens: Seq<TokenView>,
    i: int,
    state: BuildState,
    nl: Seq<char>,
)
    requires
        0 <= i <= tokens.len(),
        all_sections(state.stack),
        balance_from(tokens, i, stack_names(state.stack)) == Some(Seq::<Seq<char>>::empty()),
    ensures
        build_from(tokens, i, state, nl) is Ok,
    decreases tokens.len() - i,
{
    let names = stack_names(state.stack);
    if i < tokens.len() {
        match tokens[i] {
            TokenView::OpenSection { name, inverted } => {
                let next = build_step(tokens, i, state, nl)->Ok_0;
                assert(stack_names(next.stack) =~= names.push(name));
                lemma_balanced_builds(tokens, i + 1, next, nl);
            },
            TokenView::CloseSection(name) => {
                assert(names.len() > 0 && names.last() == name);
                let top = state.stack.last();
                assert(top is Section);
                let base = BuildState { root: state.root, stack: state.stack.drop_last() };
                let next = pushed(base, closed_section(tokens, i, top, nl));
                assert(build_step(tokens, i, state, nl) == Ok::<BuildState, RibboncurlsError>(
                    next,
                ));
                lemma_pushed_names(base, closed_section(tokens, i, top, nl));
                assert(stack_names(base.stack) =~= names.drop_last());
                lemma_balanced_builds(tokens, i + 1, next, nl);
            },
            _ => {
                let next = build_step(tokens, i, state, nl)->Ok_0;
                assert(build_step(tokens, i, state, nl) is Ok);
                lemma_step_names(tokens, i, state, nl);
                lemma_balanced_builds(tokens, i + 1, next, nl);
            },
        }
    } else {
        assert(names.len() == 0);
    }
}

proof fn lemma_pushed_names(state: BuildState, item: Node)
    requires
        all_sections(state.stack),
    ensures
        all_sections(pushed(state, item).stack),
        stack_names(pushed(state, item).stack) == stack_names(state.stack),
{
    assert(stack_names(pushed(state, item).stack) =~= stack_names(state.stack));
}

proof fn lemma_step_names(tokens: Seq<TokenView>, i: int, state: BuildState, nl: Seq<char>)
    requires
        0 <= i < tokens.len(),
        all_sections(state.stack),
        !(tokens[i] is OpenSection),
        !(tokens[i] is CloseSection),
    ensures
        build_step(tokens, i, state, nl) is Ok,
        all_sections(build_step(tokens, i, state, nl)->Ok_0.stack),
        stack_names(build_step(tokens, i, state, nl)->Ok_0.stack) == stack_names(state.stack),
{
    let next = build_step(tokens, i, state, nl)->Ok_0;
    match tokens[i] {
        TokenView::Text(_) => {
            if !crate::syntax_tree::dropped_at(tokens, i, nl) {
                lemma_pushed_names(
                    state,
                    Node::Text(crate::syntax_tree::clean_text(tokens, i, nl)),
                );
            }
        },
        TokenView::Variable { name, escaped } => {
            lemma_pushed_names(state, Node::Variable { name, escaped });
        },
        TokenView::Partial(name) => {
            lemma_pushed_names(
                state,
                Node::Partial {
                    name,
                    indent: crate::syntax_tree::indent_at(tokens, i, nl),
                    standalone: crate::syntax_tree::standalone_at(tokens, i, nl),
                },
            );
        },
        TokenView::Comment => {
            lemma_pushed_names(
                state,
                Node::Comment { standalone: crate::syntax_tree::standalone_at(tokens, i, nl) },
            );
        },
        TokenView::DelimiterChange { .. } => {
            lemma_pushed_names(
                state,
                Node::Delimiter { standalone: crate::syntax_tree::standalone_at(tokens, i, nl) },
            );
        },
        _ => {},
    }
}

/// Every token sequence that the tokenizer returns for a template that starts
/// with no section open is balanced, and the builder makes a forest of it: a
/// template that tokenizes never fails with an error of the builder.
pub proof fn lemma_tokens_build(t: Seq<char>, st: LexState, nl: Seq<char>)
    requires
        st.open.len() == 0,
    ensures
        match tokenize_spec(t, st) {
            Ok((tokens, end)) => balanced(tokens) && end.open.len() == 0 && tree_spec(tokens, nl)
                is Ok,
            Err(_) => true,
        },
{
    lemma_lex_balanced(t, 0, st);
    if let Ok((tokens, end)) = tokenize_spec(t, st) {
        assert(st.open =~= Seq::<Seq<char>>::empty());
        let init = BuildState { root: Seq::empty(), stack: Seq::empty() };
        assert(stack_names(init.stack) =~= Seq::<Seq<char>>::empty());
        lemma_balanced_builds(tokens, 0, init, nl);
    }
}

/// A text holds no line break but one that begins it, and is not empty.
pub open spec fn single_line(s: Seq<char>, nl: Seq<char>) -> bool {
    s.len() > 0 && find_from(
        s,
        nl,
        if matches_at(s, nl, 0) {
            nl.len() as int
        } else {
            0
        },
    ) is None
}

/// Every text among the tokens from `i` on is a single line.
pub open spec fn texts_single_line(tokens: Seq<TokenView>, nl: Seq<char>) -> bool {
    forall|k: int|
        0 <= k < tokens.len() && (#[trigger] tokens[k]) is Text ==> single_line(
            tokens[k]->Text_0,
            nl,
        )
}

proof fn lemma_emit_single_line(token: TokenView, rest: Seq<TokenView>, nl: Seq<char>)
    requires
        token is Text ==> single_line(token->Text_0, nl),
        texts_single_line(rest, nl),
    ensures
        texts_single_line(seq![token] + rest, nl),
{
    let all = seq![token] + rest;
    assert forall|k: int| 0 <= k < all.len() && (#[trigger] all[k]) is Text implies single_line(
        all[k]->Text_0,
        nl,
    ) by {
        if k > 0 {
            assert(all[k] == rest[k - 1]);
        }
    }
}

/// The text that the tokenizer cuts at index `i` is a single line.
proof fn lemma_text_single_line(t: Seq<char>, i: int, st: LexState)
    requires
        0 <= i < t.len(),
        st.left.len() > 0,
        !matches_at(t, st.left, i),
    ensures
        single_line(t.subrange(i, text_end(t, i, st)), st.newline.chars()),
{
    let nl = st.newline.chars();
    let end = text_end(t, i, st);
    let piece = t.subrange(i, end);
    lemma_text_end(t, i, st);
    let skip = if matches_at(t, nl, i) {
        nl.len() as int
    } else {
        0
    };
    lemma_find_from(t, nl, i + skip);
    lemma_find_from(t, st.left, i + skip);
    if matches_at(t, nl, i) {
        assert(end >= i + nl.len());
        assert(piece.subrange(0, nl.len() as int) =~= t.subrange(i, i + nl.len()));
    }
    if matches_at(piece, nl, 0) {
        lemma_match_in_part(t, nl, i, end, 0);
    }
    lemma_find_from(piece, nl, skip);
    if let Some(k) = find_from(piece, nl, skip) {
        lemma_match_in_part(t, nl, i, end, k);
        assert(i + k + nl.len() <= end);
        assert(false);
    }
}

/// Every text that the tokenizer returns is a single line: it is not empty,
/// and it holds no line break but one that begins it.
pub proof fn lemma_lex_single_lines(t: Seq<char>, i: int, st: LexState)
    requires
        0 <= i,
    ensures
        match lex_from(t, i, st) {
            Ok((tokens, _)) => texts_single_line(tokens, st.newline.chars()),
            Err(_) => true,
        },
    decreases t.len() - i,
{
    let nl = st.newline.chars();
    if st.left.len() == 0 || st.right.len() == 0 {
    } else if i >= t.len() {
    } else {
        let raw_left = st.left.push(st.left[0]);
        let raw_right = st.right.push(st.right[0]);
        if matches_at(t, raw_left, i) {
            if let Some(e) = find_from(t, raw_right, i + raw_left.len()) {
                lemma_find_from(t, raw_right, i + raw_left.len());
                lemma_lex_single_lines(t, e + raw_right.len(), st);
                if let Ok((rest, end)) = lex_from(t, e + raw_right.len(), st) {
                    lemma_emit_single_line(
                        TokenView::Variable {
                            name: crate::text::trimmed(t.subrange(i + raw_left.len(), e)),
                            escaped: false,
                        },
                        rest,
                        nl,
                    );
                }
            }
        } else if matches_at(t, st.left, i) {
            if let Some(e) = find_from(t, st.right, i + st.left.len()) {
                lemma_find_from(t, st.right, i + st.left.len());
                let content = t.subrange(i + st.left.len(), e);
                if let Ok((token, next)) = tag_token(content, st) {
                    lemma_lex_single_lines(t, e + st.right.len(), next);
                    if let Ok((rest, end)) = lex_from(t, e + st.right.len(), next) {
                        lemma_emit_single_line(token, rest, nl);
                    }
                }
            }
        } else {
            lemma_text_end(t, i, st);
            let end = text_end(t, i, st);
            lemma_text_single_line(t, i, st);
            lemma_lex_single_lines(t, end, st);
            if let Ok((rest, last)) = lex_from(t, end, st) {
                lemma_emit_single_line(TokenView::Text(t.subrange(i, end)), rest, nl);
            }
        }
    }
}

} // verus!
