//! The truthiness law, from the template text to the output.
use crate::error::RibboncurlsError;
use crate::laws::rendering::{lemma_truthiness, repeated};
use crate::render::{render_spec, template_forest};
use crate::syntax_tree::{
    build_from, build_step, clean_text, closed_section, dropped_at, opened_section, pushed,
    standalone_at, tree_spec, BuildState, Node,
};
use crate::text::{
    is_space, is_wide_space, lemma_find_at, lemma_find_nowhere, matches_at, starts_with_newline,
    trailing_hws, trim_end, trim_start, trimmed,
};
use crate::token::{
    default_left, default_right, emit, initial_state, lex_from, tag_token, text_end,
    tokenize_spec, LexState, TokenView,
};
use crate::utils::{newline_variant, Newline};
use crate::value::{data_get, falsy, untagged, DataView};
use vstd::prelude::*;

verus! {

/// The template of the truthiness law.
pub open spec fn truthiness_template() -> Seq<char> {
    "{{#s}}Y{{/s}}{{^s}}N{{/s}}"@
}

/// The name of its section.
pub open spec fn truthiness_name() -> Seq<char> {
    seq!['s']
}

/// Its tokens.
pub open spec fn truthiness_tokens() -> Seq<TokenView> {
    seq![
        TokenView::OpenSection { name: truthiness_name(), inverted: false },
        TokenView::Text(seq!['Y']),
        TokenView::CloseSection(truthiness_name()),
        TokenView::OpenSection { name: truthiness_name(), inverted: true },
        TokenView::Text(seq!['N']),
        TokenView::CloseSection(truthiness_name()),
    ]
}

/// Its forest.
pub open spec fn truthiness_forest() -> Seq<Node> {
    seq![
        Node::Section {
            name: truthiness_name(),
            inverted: false,
            children: seq![Node::Text(seq!['Y'])],
            open_standalone: false,
            close_standalone: false,
        },
        Node::Section {
            name: truthiness_name(),
            inverted: true,
            children: seq![Node::Text(seq!['N'])],
            open_standalone: false,
            close_standalone: false,
        },
    ]
}

proof fn lemma_template_chars()
    ensures
        truthiness_template() =~= seq![
            '{', '{', '#', 's', '}', '}', 'Y', '{', '{', '/', 's', '}', '}', '{', '{', '^', 's',
            '}', '}', 'N', '{', '{', '/', 's', '}', '}',
        ],
{
    reveal_strlit("{{#s}}Y{{/s}}{{^s}}N{{/s}}");
}

proof fn lemma_trimmed_name()
    ensures
        trimmed(truthiness_name()) == truthiness_name(),
{
    let s = truthiness_name();
    reveal(is_wide_space);
    assert(!is_space(s[0]));
    assert(trim_start(s) == s);
    assert(!is_space(s.last()));
    assert(trim_end(s) == s);
}

/// The tag of four characters that begins at `i`, with its two delimiters,
/// is read as the token of its interior.
proof fn lemma_lex_tag(t: Seq<char>, i: int, st: LexState, sigil: char)
    requires
        st.left == default_left(),
        st.right == default_right(),
        0 <= i,
        i + 6 <= t.len(),
        t[i] == '{',
        t[i + 1] == '{',
        t[i + 2] == sigil,
        t[i + 3] == 's',
        t[i + 4] == '}',
        t[i + 5] == '}',
        sigil != '{',
        sigil != '}',
    ensures
        lex_from(t, i, st) == match tag_token(seq![sigil, 's'], st) {
            Err(e) => Err(e),
            Ok((token, next)) => emit(token, lex_from(t, i + 6, next)),
        },
{
    let left = st.left;
    let right = st.right;
    assert(t.subrange(i, i + 2) =~= left);
    assert(matches_at(t, left, i));
    let raw_left = left.push(left[0]);
    if matches_at(t, raw_left, i) {
        assert(t.subrange(i, i + 3)[2] == raw_left[2]);
    }
    assert(t.subrange(i + 4, i + 6) =~= right);
    assert(matches_at(t, right, i + 4));
    lemma_find_at(t, right, i + 2, i + 4);
    assert(t.subrange(i + 2, i + 4) =~= seq![sigil, 's']);
}

/// The one character of text at `i`, before a tag, is read as a text token.
proof fn lemma_lex_letter(t: Seq<char>, i: int, st: LexState, letter: char)
    requires
        st.left == default_left(),
        st.right == default_right(),
        0 <= i,
        i + 3 <= t.len(),
        t[i] == letter,
        t[i + 1] == '{',
        t[i + 2] == '{',
        letter != '{',
        letter != '\n',
        letter != '\r',
        forall|j: int| 0 <= j < t.len() ==> t[j] != '\n' && t[j] != '\r',
    ensures
        lex_from(t, i, st) == emit(TokenView::Text(seq![letter]), lex_from(t, i + 1, st)),
{
    let left = st.left;
    let nl = st.newline.chars();
    if matches_at(t, left, i) {
        assert(t.subrange(i, i + 2)[0] == left[0]);
    }
    let raw_left = left.push(left[0]);
    if matches_at(t, raw_left, i) {
        assert(t.subrange(i, i + 3)[0] == raw_left[0]);
    }
    if matches_at(t, nl, i) {
        assert(t.subrange(i, i + nl.len())[0] == nl[0]);
    }
    assert(t.subrange(i + 1, i + 3) =~= left);
    lemma_find_at(t, left, i, i + 1);
    lemma_find_nowhere(t, nl, i);
    assert(text_end(t, i, st) == i + 1);
    assert(t.subrange(i, i + 1) =~= seq![letter]);
}

/// The template of the truthiness law is tokenized into its six tokens.
pub proof fn lemma_truthiness_tokens(newline: Newline)
    ensures
        tokenize_spec(truthiness_template(), initial_state(newline)) == Ok::<
            (Seq<TokenView>, LexState),
            RibboncurlsError,
        >((truthiness_tokens(), initial_state(newline))),
{
    let t = truthiness_template();
    let name = truthiness_name();
    lemma_template_chars();
    lemma_trimmed_name();
    let closed = initial_state(newline);
    let open = LexState { open: closed.open.push(name), ..closed };
    assert(closed.open.push(name).drop_last() =~= closed.open);
    assert(seq!['#', 's'].skip(1) =~= name);
    assert(seq!['^', 's'].skip(1) =~= name);
    assert(seq!['/', 's'].skip(1) =~= name);
    // from the end of the template back to its start
    assert(lex_from(t, 26, closed) == Ok::<(Seq<TokenView>, LexState), RibboncurlsError>(
        (Seq::empty(), closed),
    ));
    lemma_lex_tag(t, 20, open, '/');
    let tail5 = seq![TokenView::CloseSection(name)];
    assert(lex_from(t, 20, open) == Ok::<(Seq<TokenView>, LexState), RibboncurlsError>(
        (tail5, closed),
    )) by {
        assert(seq![TokenView::CloseSection(name)] + Seq::<TokenView>::empty() =~= tail5);
    }
    lemma_lex_letter(t, 19, open, 'N');
    let tail4 = seq![TokenView::Text(seq!['N']), TokenView::CloseSection(name)];
    assert(lex_from(t, 19, open) == Ok::<(Seq<TokenView>, LexState), RibboncurlsError>(
        (tail4, closed),
    )) by {
        assert(seq![TokenView::Text(seq!['N'])] + tail5 =~= tail4);
    }
    lemma_lex_tag(t, 13, closed, '^');
    let tail3 = seq![
        TokenView::OpenSection { name, inverted: true },
        TokenView::Text(seq!['N']),
        TokenView::CloseSection(name),
    ];
    assert(lex_from(t, 13, closed) == Ok::<(Seq<TokenView>, LexState), RibboncurlsError>(
        (tail3, closed),
    )) by {
        assert(seq![TokenView::OpenSection { name, inverted: true }] + tail4 =~= tail3);
    }
    lemma_lex_tag(t, 7, open, '/');
    let tail2 = seq![
        TokenView::CloseSection(name),
        TokenView::OpenSection { name, inverted: true },
        TokenView::Text(seq!['N']),
        TokenView::CloseSection(name),
    ];
    assert(lex_from(t, 7, open) == Ok::<(Seq<TokenView>, LexState), RibboncurlsError>(
        (tail2, closed),
    )) by {
        assert(seq![TokenView::CloseSection(name)] + tail3 =~= tail2);
    }
    lemma_lex_letter(t, 6, open, 'Y');
    let tail1 = seq![
        TokenView::Text(seq!['Y']),
        TokenView::CloseSection(name),
        TokenView::OpenSection { name, inverted: true },
        TokenView::Text(seq!['N']),
        TokenView::CloseSection(name),
    ];
    assert(lex_from(t, 6, open) == Ok::<(Seq<TokenView>, LexState), RibboncurlsError>(
        (tail1, closed),
    )) by {
        assert(seq![TokenView::Text(seq!['Y'])] + tail2 =~= tail1);
    }
    lemma_lex_tag(t, 0, closed, '#');
    assert(lex_from(t, 0, closed) == Ok::<(Seq<TokenView>, LexState), RibboncurlsError>(
        (truthiness_tokens(), closed),
    )) by {
        assert(seq![TokenView::OpenSection { name, inverted: false }] + tail1
            =~= truthiness_tokens());
    }
}

proof fn lemma_letter_is_no_line_break(letter: char, nl: Seq<char>)
    requires
        letter != '\n',
        letter != '\r',
        letter != ' ',
        letter != '\t',
        nl == Newline::Lf.chars() || nl == Newline::Crlf.chars(),
    ensures
        !starts_with_newline(seq![letter], nl),
        !crate::text::ends_with_newline_hws(seq![letter], nl),
{
    let s = seq![letter];
    if matches_at(s, nl, 0) {
        assert(s.subrange(0, nl.len() as int)[0] == nl[0]);
    }
    assert(trailing_hws(s) == 0);
    if matches_at(s, nl, 1 - nl.len()) {
        assert(s.subrange(0, 1)[0] == nl[0]);
    }
}

/// The tokens of the template of the truthiness law build its forest.
pub proof fn lemma_truthiness_forest(newline: Newline)
    ensures
        tree_spec(truthiness_tokens(), newline.chars()) == Ok::<Seq<Node>, RibboncurlsError>(
            truthiness_forest(),
        ),
{
    let tokens = truthiness_tokens();
    let nl = newline.chars();
    let name = truthiness_name();
    lemma_letter_is_no_line_break('Y', nl);
    lemma_letter_is_no_line_break('N', nl);
    assert(!standalone_at(tokens, 0, nl));
    assert(!standalone_at(tokens, 1, nl));
    assert(!standalone_at(tokens, 2, nl));
    assert(!standalone_at(tokens, 3, nl));
    assert(!standalone_at(tokens, 4, nl));
    assert(!standalone_at(tokens, 5, nl));
    assert(!dropped_at(tokens, 1, nl));
    assert(!dropped_at(tokens, 4, nl));
    assert(clean_text(tokens, 1, nl) == seq!['Y']);
    assert(clean_text(tokens, 4, nl) == seq!['N']);
    let plain_open = opened_section(tokens, 0, name, false, nl);
    let plain_full = Node::Section {
        name,
        inverted: false,
        children: seq![Node::Text(seq!['Y'])],
        open_standalone: false,
        close_standalone: false,
    };
    let inverse_open = opened_section(tokens, 3, name, true, nl);
    let inverse_full = Node::Section {
        name,
        inverted: true,
        children: seq![Node::Text(seq!['N'])],
        open_standalone: false,
        close_standalone: false,
    };
    let s0 = BuildState { root: Seq::empty(), stack: Seq::empty() };
    let s1 = BuildState { root: Seq::empty(), stack: seq![plain_open] };
    let s2 = BuildState { root: Seq::empty(), stack: seq![plain_full] };
    let s3 = BuildState { root: seq![plain_full], stack: Seq::empty() };
    let s4 = BuildState { root: seq![plain_full], stack: seq![inverse_open] };
    let s5 = BuildState { root: seq![plain_full], stack: seq![inverse_full] };
    let s6 = BuildState { root: truthiness_forest(), stack: Seq::empty() };
    assert(build_step(tokens, 0, s0, nl) == Ok::<BuildState, RibboncurlsError>(s1)) by {
        assert(s0.stack.push(plain_open) =~= s1.stack);
    }
    assert(build_step(tokens, 1, s1, nl) == Ok::<BuildState, RibboncurlsError>(s2)) by {
        assert(Seq::<Node>::empty().push(Node::Text(seq!['Y'])) =~= seq![
            Node::Text(seq!['Y']),
        ]);
        assert(pushed(s1, Node::Text(seq!['Y'])).stack =~= s2.stack);
    }
    assert(build_step(tokens, 2, s2, nl) == Ok::<BuildState, RibboncurlsError>(s3)) by {
        assert(s2.stack.drop_last() =~= Seq::<Node>::empty());
        assert(closed_section(tokens, 2, plain_full, nl) == plain_full);
        assert(Seq::<Node>::empty().push(plain_full) =~= s3.root);
    }
    assert(build_step(tokens, 3, s3, nl) == Ok::<BuildState, RibboncurlsError>(s4)) by {
        assert(s3.stack.push(inverse_open) =~= s4.stack);
    }
    assert(build_step(tokens, 4, s4, nl) == Ok::<BuildState, RibboncurlsError>(s5)) by {
        assert(Seq::<Node>::empty().push(Node::Text(seq!['N'])) =~= seq![
            Node::Text(seq!['N']),
        ]);
        assert(pushed(s4, Node::Text(seq!['N'])).stack =~= s5.stack);
    }
    assert(build_step(tokens, 5, s5, nl) == Ok::<BuildState, RibboncurlsError>(s6)) by {
        assert(s5.stack.drop_last() =~= Seq::<Node>::empty());
        assert(closed_section(tokens, 5, inverse_full, nl) == inverse_full);
        assert(seq![plain_full].push(inverse_full) =~= s6.root);
    }
    assert(build_from(tokens, 6, s6, nl) == Ok::<Seq<Node>, RibboncurlsError>(s6.root));
    assert(build_from(tokens, 5, s5, nl) == Ok::<Seq<Node>, RibboncurlsError>(s6.root));
    assert(build_from(tokens, 4, s4, nl) == Ok::<Seq<Node>, RibboncurlsError>(s6.root));
    assert(build_from(tokens, 3, s3, nl) == Ok::<Seq<Node>, RibboncurlsError>(s6.root));
    assert(build_from(tokens, 2, s2, nl) == Ok::<Seq<Node>, RibboncurlsError>(s6.root));
    assert(build_from(tokens, 1, s1, nl) == Ok::<Seq<Node>, RibboncurlsError>(s6.root));
    assert(build_from(tokens, 0, s0, nl) == Ok::<Seq<Node>, RibboncurlsError>(s6.root));
}

/// The truthiness law.
///
/// For every value `v`, the template `{{#s}}Y{{/s}}{{^s}}N{{/s}}` rendered
/// with the data `{s: v}` gives `N` where `v` is falsy, `Y` once for each
/// element where `v` is a sequence that is not empty, and `Y` for every other
/// value.
pub proof fn lemma_truthiness_law(v: DataView, partials: DataView)
    ensures
        render_spec(
            truthiness_template(),
            DataView::Dict(seq![(DataView::Text(truthiness_name()), v)]),
            partials,
        ) == Ok::<Seq<char>, RibboncurlsError>(
            if falsy(v) {
                seq!['N']
            } else if v is List {
                repeated(seq!['Y'], v->List_0.len())
            } else {
                seq!['Y']
            },
        ),
{
    let newline = newline_variant(truthiness_template());
    let root = DataView::Dict(seq![(DataView::Text(truthiness_name()), v)]);
    lemma_truthiness_tokens(newline);
    lemma_truthiness_forest(newline);
    assert(template_forest(truthiness_template(), newline) == Ok::<
        Seq<Node>,
        RibboncurlsError,
    >(truthiness_forest()));
    assert(untagged(root) == root);
    assert(data_get(root, truthiness_name()) == Some(v));
    assert(truthiness_name() != crate::value::dot()) by {
        assert(truthiness_name()[0] != crate::value::dot()[0]);
    }
    lemma_truthiness(
        truthiness_name(),
        seq!['Y'],
        seq!['N'],
        root,
        v,
        partials,
        newline,
        (false, false, false, false),
    );
}

} // verus!
