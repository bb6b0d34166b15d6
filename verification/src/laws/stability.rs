//! Standalone stability: a tag that stands alone on its line takes the line
//! with it, and a comment or a change of delimiters on such a line leaves no
//! trace in the output.
use crate::error::RibboncurlsError;
use crate::laws::rendering::{
    lemma_after_flat, lemma_join_unit, lemma_render_concat, lemma_render_single,
};
use crate::render::{
    frame_env, render_each_spec, render_node_spec, render_nodes_spec, section_env, RenderEnv,
};
use crate::syntax_tree::{
    begins_line, build_from, build_step, clean_text, closed_section, dropped_at, ends_line,
    indent_at, is_tag, line_indent, pushed, standalone_at, tree_spec, BuildState, Node,
};
use crate::text::{
    all_hws, ends_with_newline_hws, is_hws, lemma_trailing_hws_bound, matches_at,
    starts_with_newline, strip_leading_newline, strip_trailing_hws, trailing_hws,
};
use crate::token::TokenView;
use crate::utils::Newline;
use crate::value::DataView;
use vstd::prelude::*;

verus! {

/// Spaces and tabs after text that does not end in one are the spaces and
/// tabs that end the whole.
pub proof fn lemma_trailing_hws_after(a: Seq<char>, b: Seq<char>)
    requires
        a.len() > 0,
        !is_hws(a.last()),
    ensures
        trailing_hws(a + b) == trailing_hws(b),
        trailing_hws(b) <= b.len(),
    decreases b.len(),
{
    if b.len() == 0 {
        assert(a + b =~= a);
    } else {
        assert((a + b).last() == b.last());
        assert((a + b).drop_last() =~= a + b.drop_last());
        lemma_trailing_hws_after(a, b.drop_last());
    }
}

/// What holds of a line break followed by more text.
pub proof fn lemma_newline_text(newline: Newline, x: Seq<char>)
    ensures
        starts_with_newline(newline.chars() + x, newline.chars()),
        strip_leading_newline(newline.chars() + x, newline.chars()) == x,
        !all_hws(newline.chars() + x),
        trailing_hws(newline.chars() + x) == trailing_hws(x),
        trailing_hws(x) <= x.len(),
        strip_trailing_hws(newline.chars() + x) == newline.chars() + strip_trailing_hws(x),
        all_hws(x) ==> ends_with_newline_hws(newline.chars() + x, newline.chars())
            && strip_trailing_hws(newline.chars() + x) == newline.chars(),
{
    let nl = newline.chars();
    let s = nl + x;
    assert(nl.len() > 0 && !is_hws(nl.last()));
    lemma_trailing_hws_after(nl, x);
    assert(s.subrange(0, nl.len() as int) =~= nl);
    assert(s.skip(nl.len() as int) =~= x);
    assert(s.take(s.len() - trailing_hws(x)) =~= nl + x.take(x.len() - trailing_hws(x)));
    if all_hws(x) {
        assert(x.take(0) =~= Seq::<char>::empty());
        assert(nl + Seq::<char>::empty() =~= nl);
    }
}

/// Two forests render alike in every context that is not indented.
pub open spec fn render_alike(f1: Seq<Node>, f2: Seq<Node>) -> bool {
    forall|env: RenderEnv|
        #![trigger render_nodes_spec(f1, 0, env, false)]
        env.indent == 0 ==> render_nodes_spec(f1, 0, env, false) == render_nodes_spec(
            f2,
            0,
            env,
            false,
        )
}

/// Forests that render alike, each followed by one of two forests that render
/// alike, render alike.
pub proof fn lemma_alike_append(f1: Seq<Node>, f2: Seq<Node>, g1: Seq<Node>, g2: Seq<Node>)
    requires
        render_alike(f1, f2),
        render_alike(g1, g2),
    ensures
        render_alike(f1 + g1, f2 + g2),
{
    assert forall|env: RenderEnv| env.indent == 0 implies #[trigger] render_nodes_spec(
        f1 + g1,
        0,
        env,
        false,
    ) == render_nodes_spec(f2 + g2, 0, env, false) by {
        lemma_render_concat(f1, g1, env);
        lemma_render_concat(f2, g2, env);
    }
}

proof fn lemma_each_alike(
    c1: Seq<Node>,
    c2: Seq<Node>,
    items: Seq<DataView>,
    j: int,
    env: RenderEnv,
)
    requires
        render_alike(c1, c2),
        env.indent == 0,
        0 <= j <= items.len(),
    ensures
        render_each_spec(c1, items, j, env, false) == render_each_spec(c2, items, j, env, false),
    decreases items.len() - j,
{
    if j < items.len() {
        lemma_each_alike(c1, c2, items, j + 1, env);
        let inner = frame_env(env, items[j]);
        assert(inner.indent == 0);
        lemma_after_flat(c1, 0, inner, false);
        lemma_after_flat(c2, 0, inner, false);
        assert(render_nodes_spec(c1, 0, inner, false) == render_nodes_spec(c2, 0, inner, false));
    }
}

/// Sections of one name whose children render alike render alike.
pub proof fn lemma_alike_section(
    name: Seq<char>,
    inverted: bool,
    c1: Seq<Node>,
    c2: Seq<Node>,
    flags1: (bool, bool),
    flags2: (bool, bool),
)
    requires
        render_alike(c1, c2),
    ensures
        render_alike(
            seq![
                Node::Section {
                    name,
                    inverted,
                    children: c1,
                    open_standalone: flags1.0,
                    close_standalone: flags1.1,
                },
            ],
            seq![
                Node::Section {
                    name,
                    inverted,
                    children: c2,
                    open_standalone: flags2.0,
                    close_standalone: flags2.1,
                },
            ],
        ),
{
    let n1 = Node::Section {
        name,
        inverted,
        children: c1,
        open_standalone: flags1.0,
        close_standalone: flags1.1,
    };
    let n2 = Node::Section {
        name,
        inverted,
        children: c2,
        open_standalone: flags2.0,
        close_standalone: flags2.1,
    };
    assert forall|env: RenderEnv| env.indent == 0 implies #[trigger] render_nodes_spec(
        seq![n1],
        0,
        env,
        false,
    ) == render_nodes_spec(seq![n2], 0, env, false) by {
        lemma_render_single(n1, env);
        lemma_render_single(n2, env);
        let inner = section_env(env, name);
        assert(inner.indent == 0);
        assert(render_nodes_spec(c1, 0, inner, false) == render_nodes_spec(c2, 0, inner, false));
        let value = crate::value::resolve(env.stack, env.path.push(name), name);
        if let Some(DataView::List(items)) = value {
            lemma_each_alike(c1, c2, items, 0, inner);
        }
    }
}

/// Two open sections agree in all but children that render alike; anything
/// else on the stack of a builder is the same on both sides.
pub open spec fn frames_alike(n1: Node, n2: Node) -> bool {
    if n1 is Section {
        &&& n2 is Section
        &&& n1->Section_name == n2->Section_name
        &&& n1->Section_inverted == n2->Section_inverted
        &&& render_alike(n1->Section_children, n2->Section_children)
    } else {
        n1 == n2
    }
}

/// Two states of the builder that will yield forests that render alike.
pub open spec fn states_alike(s1: BuildState, s2: BuildState) -> bool {
    &&& render_alike(s1.root, s2.root)
    &&& s1.stack.len() == s2.stack.len()
    &&& forall|k: int| 0 <= k < s1.stack.len() ==> frames_alike(#[trigger] s1.stack[k], s2.stack[k])
}

/// Appending nodes that render alike to states that are alike keeps them
/// alike.
proof fn lemma_grow_alike(
    s1: BuildState,
    s2: BuildState,
    t1: BuildState,
    t2: BuildState,
    g1: Seq<Node>,
    g2: Seq<Node>,
)
    requires
        states_alike(s1, s2),
        render_alike(g1, g2),
        grown(s1, t1, g1),
        grown(s2, t2, g2),
    ensures
        states_alike(t1, t2),
{
    if s1.stack.len() > 0 && s1.stack.last() is Section {
        let last = s1.stack.len() - 1;
        assert(frames_alike(s1.stack[last], s2.stack[last]));
        lemma_alike_append(
            s1.stack[last]->Section_children,
            s2.stack[last]->Section_children,
            g1,
            g2,
        );
        assert forall|k: int| 0 <= k < t1.stack.len() implies frames_alike(
            #[trigger] t1.stack[k],
            t2.stack[k],
        ) by {
            assert(frames_alike(s1.stack[k], s2.stack[k]));
        }
    } else {
        if s1.stack.len() > 0 {
            let last = s1.stack.len() - 1;
            assert(frames_alike(s1.stack[last], s2.stack[last]));
        }
        lemma_alike_append(s1.root, s2.root, g1, g2);
        assert forall|k: int| 0 <= k < t1.stack.len() implies frames_alike(
            #[trigger] t1.stack[k],
            t2.stack[k],
        ) by {
            assert(frames_alike(s1.stack[k], s2.stack[k]));
        }
    }
}

/// `after` is `before` with the nodes `more` appended where the next leaf
/// goes, and nothing else changed.
pub open spec fn grown(before: BuildState, after: BuildState, more: Seq<Node>) -> bool {
    if before.stack.len() > 0 && before.stack.last() is Section {
        let top = before.stack.last();
        &&& after.root == before.root
        &&& after.stack == before.stack.update(
            before.stack.len() - 1,
            Node::Section {
                name: top->Section_name,
                inverted: top->Section_inverted,
                children: top->Section_children + more,
                open_standalone: top->Section_open_standalone,
                close_standalone: top->Section_close_standalone,
            },
        )
    } else {
        &&& after.root == before.root + more
        &&& after.stack == before.stack
    }
}

proof fn lemma_pushed_grows(state: BuildState, item: Node)
    ensures
        grown(state, pushed(state, item), seq![item]),
{
    if state.stack.len() > 0 && state.stack.last() is Section {
        let top = state.stack.last();
        assert(top->Section_children.push(item) =~= top->Section_children + seq![item]);
    } else {
        assert(state.root.push(item) =~= state.root + seq![item]);
    }
}

proof fn lemma_grown_twice(a: BuildState, b: BuildState, c: BuildState, g: Seq<Node>, h: Seq<Node>)
    requires
        grown(a, b, g),
        grown(b, c, h),
    ensures
        grown(a, c, g + h),
{
    if a.stack.len() > 0 && a.stack.last() is Section {
        let top = a.stack.last();
        assert((top->Section_children + g) + h =~= top->Section_children + (g + h));
        assert(c.stack =~= a.stack.update(
            a.stack.len() - 1,
            Node::Section {
                name: top->Section_name,
                inverted: top->Section_inverted,
                children: top->Section_children + (g + h),
                open_standalone: top->Section_open_standalone,
                close_standalone: top->Section_close_standalone,
            },
        ));
    } else {
        assert((a.root + g) + h =~= a.root + (g + h));
    }
}

/// The builder is told the same about the token at `j1` of `t1` as about the
/// token at `j2` of `t2`.
pub open spec fn inputs_agree(
    t1: Seq<TokenView>,
    j1: int,
    t2: Seq<TokenView>,
    j2: int,
    nl: Seq<char>,
) -> bool {
    &&& 0 <= j1 < t1.len()
    &&& 0 <= j2 < t2.len()
    &&& t1[j1] == t2[j2]
    &&& standalone_at(t1, j1, nl) == standalone_at(t2, j2, nl)
    &&& indent_at(t1, j1, nl) == indent_at(t2, j2, nl)
    &&& (t1[j1] is Text ==> dropped_at(t1, j1, nl) == dropped_at(t2, j2, nl) && clean_text(
        t1,
        j1,
        nl,
    ) == clean_text(t2, j2, nl))
}

/// The builder is told the same about the `k`-th token after `i1` of `t1` as
/// about the `k`-th token after `i2` of `t2`.
pub open spec fn agree_at(
    t1: Seq<TokenView>,
    i1: int,
    t2: Seq<TokenView>,
    i2: int,
    k: int,
    nl: Seq<char>,
) -> bool {
    inputs_agree(t1, i1 + k, t2, i2 + k, nl)
}

proof fn lemma_alike_refl(f: Seq<Node>)
    ensures
        render_alike(f, f),
{
}

proof fn lemma_push_alike(s1: BuildState, s2: BuildState, n1: Node, n2: Node)
    requires
        states_alike(s1, s2),
        render_alike(seq![n1], seq![n2]),
    ensures
        states_alike(pushed(s1, n1), pushed(s2, n2)),
{
    lemma_pushed_grows(s1, n1);
    lemma_pushed_grows(s2, n2);
    lemma_grow_alike(s1, s2, pushed(s1, n1), pushed(s2, n2), seq![n1], seq![n2]);
}

/// One step of the builder keeps two states alike, where it is told the same
/// on both sides.
proof fn lemma_step_alike(
    t1: Seq<TokenView>,
    j1: int,
    t2: Seq<TokenView>,
    j2: int,
    s1: BuildState,
    s2: BuildState,
    nl: Seq<char>,
)
    requires
        inputs_agree(t1, j1, t2, j2, nl),
        states_alike(s1, s2),
    ensures
        match build_step(t1, j1, s1, nl) {
            Ok(n1) => build_step(t2, j2, s2, nl) is Ok && states_alike(
                n1,
                build_step(t2, j2, s2, nl)->Ok_0,
            ),
            Err(e) => build_step(t2, j2, s2, nl) == Err::<BuildState, RibboncurlsError>(e),
        },
{
    match t1[j1] {
        TokenView::Text(_) => {
            if !dropped_at(t1, j1, nl) {
                let node = Node::Text(clean_text(t1, j1, nl));
                lemma_alike_refl(seq![node]);
                lemma_push_alike(s1, s2, node, node);
            }
        },
        TokenView::Variable { name, escaped } => {
            let node = Node::Variable { name, escaped };
            lemma_alike_refl(seq![node]);
            lemma_push_alike(s1, s2, node, node);
        },
        TokenView::Partial(name) => {
            let node = Node::Partial {
                name,
                indent: indent_at(t1, j1, nl),
                standalone: standalone_at(t1, j1, nl),
            };
            lemma_alike_refl(seq![node]);
            lemma_push_alike(s1, s2, node, node);
        },
        TokenView::Comment => {
            let node = Node::Comment { standalone: standalone_at(t1, j1, nl) };
            lemma_alike_refl(seq![node]);
            lemma_push_alike(s1, s2, node, node);
        },
        TokenView::DelimiterChange { .. } => {
            let node = Node::Delimiter { standalone: standalone_at(t1, j1, nl) };
            lemma_alike_refl(seq![node]);
            lemma_push_alike(s1, s2, node, node);
        },
        TokenView::OpenSection { name, inverted } => {
            let n1 = build_step(t1, j1, s1, nl)->Ok_0;
            let n2 = build_step(t2, j2, s2, nl)->Ok_0;
            lemma_alike_refl(Seq::<Node>::empty());
            assert forall|k: int| 0 <= k < n1.stack.len() implies frames_alike(
                #[trigger] n1.stack[k],
                n2.stack[k],
            ) by {
                if k < s1.stack.len() {
                    assert(frames_alike(s1.stack[k], s2.stack[k]));
                }
            }
        },
        TokenView::CloseSection(name) => {
            if s1.stack.len() > 0 {
                let last = s1.stack.len() - 1;
                assert(frames_alike(s1.stack[last], s2.stack[last]));
                let top1 = s1.stack.last();
                let top2 = s2.stack.last();
                if top1 is Section && top1->Section_name == name {
                    let c1 = closed_section(t1, j1, top1, nl);
                    let c2 = closed_section(t2, j2, top2, nl);
                    lemma_alike_section(
                        name,
                        top1->Section_inverted,
                        top1->Section_children,
                        top2->Section_children,
                        (top1->Section_open_standalone, standalone_at(t1, j1, nl)),
                        (top2->Section_open_standalone, standalone_at(t2, j2, nl)),
                    );
                    let d1 = BuildState { root: s1.root, stack: s1.stack.drop_last() };
                    let d2 = BuildState { root: s2.root, stack: s2.stack.drop_last() };
                    assert forall|k: int| 0 <= k < d1.stack.len() implies frames_alike(
                        #[trigger] d1.stack[k],
                        d2.stack[k],
                    ) by {
                        assert(frames_alike(s1.stack[k], s2.stack[k]));
                    }
                    lemma_push_alike(d1, d2, c1, c2);
                }
            }
        },
    }
}

/// The state after the tokens from `i` up to `m`.
pub open spec fn build_upto(
    tokens: Seq<TokenView>,
    i: int,
    m: int,
    state: BuildState,
    nl: Seq<char>,
) -> Result<BuildState, RibboncurlsError>
    decreases m - i,
{
    if i >= m {
        Ok(state)
    } else {
        match build_step(tokens, i, state, nl) {
            Err(e) => Err(e),
            Ok(next) => build_upto(tokens, i + 1, m, next, nl),
        }
    }
}

/// Building may stop at any token and go on from the state reached.
pub proof fn lemma_build_split(
    tokens: Seq<TokenView>,
    i: int,
    m: int,
    state: BuildState,
    nl: Seq<char>,
)
    requires
        0 <= i <= m <= tokens.len(),
    ensures
        build_from(tokens, i, state, nl) == match build_upto(tokens, i, m, state, nl) {
            Err(e) => Err(e),
            Ok(mid) => build_from(tokens, m, mid, nl),
        },
    decreases m - i,
{
    if i < m {
        match build_step(tokens, i, state, nl) {
            Err(e) => {},
            Ok(next) => {
                lemma_build_split(tokens, i + 1, m, next, nl);
            },
        }
    }
}

/// Steps that are told the same on both sides keep two states alike.
proof fn lemma_build_sim(
    t1: Seq<TokenView>,
    i1: int,
    t2: Seq<TokenView>,
    i2: int,
    n: nat,
    s1: BuildState,
    s2: BuildState,
    nl: Seq<char>,
)
    requires
        states_alike(s1, s2),
        forall|k: int| 0 <= k < n ==> #[trigger] agree_at(t1, i1, t2, i2, k, nl),
    ensures
        match build_upto(t1, i1, i1 + n, s1, nl) {
            Ok(a) => build_upto(t2, i2, i2 + n, s2, nl) is Ok && states_alike(
                a,
                build_upto(t2, i2, i2 + n, s2, nl)->Ok_0,
            ),
            Err(e) => build_upto(t2, i2, i2 + n, s2, nl) == Err::<BuildState, RibboncurlsError>(
                e,
            ),
        },
    decreases n,
{
    if n > 0 {
        assert(agree_at(t1, i1, t2, i2, 0, nl));
        lemma_step_alike(t1, i1, t2, i2, s1, s2, nl);
        match build_step(t1, i1, s1, nl) {
            Err(e) => {},
            Ok(n1) => {
                let n2 = build_step(t2, i2, s2, nl)->Ok_0;
                assert forall|k: int| 0 <= k < n - 1 implies #[trigger] agree_at(
                    t1,
                    i1 + 1,
                    t2,
                    i2 + 1,
                    k,
                    nl,
                ) by {
                    assert(agree_at(t1, i1, t2, i2, k + 1, nl));
                }
                lemma_build_sim(t1, i1 + 1, t2, i2 + 1, (n - 1) as nat, n1, n2, nl);
            },
        }
    }
}

/// Whether a tag stands alone is decided by its two neighbours.
proof fn lemma_standalone_same(
    t1: Seq<TokenView>,
    j1: int,
    t2: Seq<TokenView>,
    j2: int,
    nl: Seq<char>,
)
    requires
        0 <= j1 < t1.len(),
        0 <= j2 < t2.len(),
        t1[j1] == t2[j2],
        (j1 == 0) == (j2 == 0),
        j1 > 0 ==> t1[j1 - 1] == t2[j2 - 1],
        j1 > 0 ==> (j1 == 1) == (j2 == 1) || !(t1[j1 - 1] is Text) || !all_hws(
            t1[j1 - 1]->Text_0,
        ),
        (j1 == t1.len() - 1) == (j2 == t2.len() - 1),
        j1 < t1.len() - 1 ==> (t1[j1 + 1] is Text) == (t2[j2 + 1] is Text),
        j1 < t1.len() - 1 && t1[j1 + 1] is Text ==> starts_with_newline(t1[j1 + 1]->Text_0, nl)
            == starts_with_newline(t2[j2 + 1]->Text_0, nl),
    ensures
        standalone_at(t1, j1, nl) == standalone_at(t2, j2, nl),
        indent_at(t1, j1, nl) == indent_at(t2, j2, nl),
{
}

/// Before a stretch of tokens that is replaced by another, both beginning
/// with text that begins with a line break, the builder is told the same.
proof fn lemma_prefix_agree(
    pre: Seq<TokenView>,
    m1: Seq<TokenView>,
    m2: Seq<TokenView>,
    post: Seq<TokenView>,
    k: int,
    nl: Seq<char>,
)
    requires
        0 <= k < pre.len(),
        m1.len() > 0,
        m2.len() > 0,
        m1[0] is Text,
        m2[0] is Text,
        starts_with_newline(m1[0]->Text_0, nl),
        starts_with_newline(m2[0]->Text_0, nl),
    ensures
        inputs_agree(pre + m1 + post, k, pre + m2 + post, k, nl),
{
    let t1 = pre + m1 + post;
    let t2 = pre + m2 + post;
    let p = pre.len() as int;
    assert(t1[p] == m1[0]);
    assert(t2[p] == m2[0]);
    assert(!standalone_at(t1, p, nl));
    assert(!standalone_at(t2, p, nl));
    assert(t1[k] == pre[k] && t2[k] == pre[k]);
    if k > 0 {
        assert(t1[k - 1] == pre[k - 1] && t2[k - 1] == pre[k - 1]);
    }
    if k > 1 {
        assert(t1[k - 2] == pre[k - 2] && t2[k - 2] == pre[k - 2]);
    }
    if k + 1 < p {
        assert(t1[k + 1] == pre[k + 1] && t2[k + 1] == pre[k + 1]);
    }
    if k + 2 < p {
        assert(t1[k + 2] == pre[k + 2] && t2[k + 2] == pre[k + 2]);
    }
    assert(t1[0] == pre[0] && t2[0] == pre[0]);
    lemma_standalone_same(t1, k, t2, k, nl);
    if k > 0 {
        lemma_standalone_same(t1, k - 1, t2, k - 1, nl);
    } else {
        assert(!standalone_at(t1, -1, nl));
        assert(!standalone_at(t2, -1, nl));
    }
    if k + 1 < p {
        lemma_standalone_same(t1, k + 1, t2, k + 1, nl);
    }
    if 1 < p {
        assert(t1[1] == pre[1] && t2[1] == pre[1]);
        if 2 < p {
            assert(t1[2] == pre[2] && t2[2] == pre[2]);
        }
        lemma_standalone_same(t1, 1, t2, 1, nl);
    }
}

/// After a stretch of tokens that is replaced by another, both ending with
/// the same text, which holds more than indentation, the builder is told the
/// same.
proof fn lemma_suffix_agree(
    pre: Seq<TokenView>,
    m1: Seq<TokenView>,
    m2: Seq<TokenView>,
    post: Seq<TokenView>,
    k: int,
    nl: Seq<char>,
)
    requires
        0 <= k < post.len(),
        m1.len() > 0,
        m2.len() > 0,
        m1.last() is Text,
        m1.last() == m2.last(),
        !all_hws(m1.last()->Text_0),
    ensures
        inputs_agree(
            pre + m1 + post,
            pre.len() + m1.len() + k,
            pre + m2 + post,
            pre.len() + m2.len() + k,
            nl,
        ),
{
    let t1 = pre + m1 + post;
    let t2 = pre + m2 + post;
    let b1 = (pre.len() + m1.len()) as int;
    let b2 = (pre.len() + m2.len()) as int;
    assert(t1.len() == b1 + post.len() && t2.len() == b2 + post.len());
    assert(t1[b1 - 1] == m1.last());
    assert(t2[b2 - 1] == m2.last());
    assert(t1[b1 + k] == post[k] && t2[b2 + k] == post[k]);
    if k > 0 {
        assert(t1[b1 + k - 1] == post[k - 1] && t2[b2 + k - 1] == post[k - 1]);
    }
    if k + 1 < post.len() {
        assert(t1[b1 + k + 1] == post[k + 1] && t2[b2 + k + 1] == post[k + 1]);
    }
    if k + 2 < post.len() {
        assert(t1[b1 + k + 2] == post[k + 2] && t2[b2 + k + 2] == post[k + 2]);
    }
    if k > 1 {
        assert(t1[b1 + k - 2] == post[k - 2] && t2[b2 + k - 2] == post[k - 2]);
    }
    lemma_standalone_same(t1, b1 + k, t2, b2 + k, nl);
    if k > 0 {
        lemma_standalone_same(t1, b1 + k - 1, t2, b2 + k - 1, nl);
    } else {
        assert(!standalone_at(t1, b1 - 1, nl));
        assert(!standalone_at(t2, b2 - 1, nl));
    }
    if k + 1 < post.len() {
        lemma_standalone_same(t1, b1 + k + 1, t2, b2 + k + 1, nl);
    } else {
        assert(!standalone_at(t1, t1.len() as int, nl));
        assert(!standalone_at(t2, t2.len() as int, nl));
    }
}

/// What a token sequence renders as in a context.
pub open spec fn rendered_tokens(tokens: Seq<TokenView>, env: RenderEnv) -> Result<
    Seq<char>,
    RibboncurlsError,
> {
    match tree_spec(tokens, env.newline.chars()) {
        Err(e) => Err(e),
        Ok(forest) => render_nodes_spec(forest, 0, env, false),
    }
}

/// The tokens of a line that holds `tag` after the indentation `indent`, with
/// the line break before it and the line `rest` after it.
pub open spec fn tag_line(
    indent: Seq<char>,
    tag: TokenView,
    rest: Seq<char>,
    newline: Newline,
) -> Seq<TokenView> {
    seq![
        TokenView::Text(newline.chars() + indent),
        tag,
        TokenView::Text(newline.chars() + rest),
    ]
}

/// The tokens of the same place without that line.
pub open spec fn plain_line(rest: Seq<char>, newline: Newline) -> Seq<TokenView> {
    seq![TokenView::Text(newline.chars() + rest)]
}

/// A tag between a line break with indentation and a line break stands alone;
/// its indentation is that of the line; the text before it keeps its line
/// break and loses the indentation, the text after it loses its line break.
pub proof fn lemma_standalone_tag_line(
    tokens: Seq<TokenView>,
    i: int,
    indent: Seq<char>,
    rest: Seq<char>,
    newline: Newline,
)
    requires
        0 < i < tokens.len() - 1,
        is_tag(tokens[i]),
        tokens[i - 1] == TokenView::Text(newline.chars() + indent),
        all_hws(indent),
        tokens[i + 1] == TokenView::Text(newline.chars() + rest),
    ensures
        standalone_at(tokens, i, newline.chars()),
        indent.len() <= u8::MAX ==> indent_at(tokens, i, newline.chars()) == indent.len(),
        clean_text(tokens, i - 1, newline.chars()) == if standalone_at(
            tokens,
            i - 2,
            newline.chars(),
        ) {
            Seq::<char>::empty()
        } else {
            newline.chars()
        },
        clean_text(tokens, i + 1, newline.chars()) == if standalone_at(
            tokens,
            i + 2,
            newline.chars(),
        ) {
            strip_trailing_hws(rest)
        } else {
            rest
        },
{
    let nl = newline.chars();
    lemma_newline_text(newline, indent);
    lemma_newline_text(newline, rest);
    lemma_newline_text(newline, strip_trailing_hws(rest));
    lemma_newline_text(newline, Seq::<char>::empty());
    assert(nl + Seq::<char>::empty() =~= nl);
}

/// What is left of the line break before the tag line: nothing where a
/// standalone tag stands before it, the line break otherwise.
pub open spec fn line_head(
    pre: Seq<TokenView>,
    indent: Seq<char>,
    tag: TokenView,
    rest: Seq<char>,
    post: Seq<TokenView>,
    newline: Newline,
) -> Seq<char> {
    if standalone_at(
        pre + tag_line(indent, tag, rest, newline) + post,
        pre.len() - 1,
        newline.chars(),
    ) {
        Seq::empty()
    } else {
        newline.chars()
    }
}

/// What is left of the line after the tag line: it has lost its indentation
/// where a standalone tag follows.
pub open spec fn line_kept(
    pre: Seq<TokenView>,
    indent: Seq<char>,
    tag: TokenView,
    rest: Seq<char>,
    post: Seq<TokenView>,
    newline: Newline,
) -> Seq<char> {
    if standalone_at(
        pre + tag_line(indent, tag, rest, newline) + post,
        (pre.len() + 3) as int,
        newline.chars(),
    ) {
        strip_trailing_hws(rest)
    } else {
        rest
    }
}

/// How the builder sees the tokens of a tag line, and the line break that
/// remains without it.
#[verifier::rlimit(60)]
proof fn lemma_tag_line_facts(
    pre: Seq<TokenView>,
    indent: Seq<char>,
    tag: TokenView,
    rest: Seq<char>,
    post: Seq<TokenView>,
    newline: Newline,
)
    requires
        is_tag(tag),
        all_hws(indent),
    ensures
        ({
            let nl = newline.chars();
            let t1 = pre + tag_line(indent, tag, rest, newline) + post;
            let t2 = pre + plain_line(rest, newline) + post;
            let p = pre.len() as int;
            let head = line_head(pre, indent, tag, rest, post, newline);
            let kept = line_kept(pre, indent, tag, rest, post, newline);
            &&& t1[p] == TokenView::Text(nl + indent)
            &&& t1[p + 1] == tag
            &&& t1[p + 2] == TokenView::Text(nl + rest)
            &&& t2[p] == TokenView::Text(nl + rest)
            &&& standalone_at(t1, p + 1, nl)
            &&& !dropped_at(t1, p, nl)
            &&& !dropped_at(t1, p + 2, nl)
            &&& !dropped_at(t2, p, nl)
            &&& clean_text(t1, p, nl) == head
            &&& clean_text(t1, p + 2, nl) == kept
            &&& clean_text(t2, p, nl) == head + kept
        }),
{
    let nl = newline.chars();
    let m1 = tag_line(indent, tag, rest, newline);
    let m2 = plain_line(rest, newline);
    let t1 = pre + m1 + post;
    let t2 = pre + m2 + post;
    let p = pre.len() as int;
    lemma_newline_text(newline, indent);
    lemma_newline_text(newline, rest);
    lemma_newline_text(newline, strip_trailing_hws(rest));
    lemma_newline_text(newline, Seq::<char>::empty());
    assert(nl + Seq::<char>::empty() =~= nl);
    assert(t1[p] == m1[0] && t1[p + 1] == m1[1] && t1[p + 2] == m1[2]);
    assert(t2[p] == m2[0]);
    assert(t1.len() == p + 3 + post.len() && t2.len() == p + 1 + post.len());
    assert(standalone_at(t1, p + 1, nl));
    if p > 0 {
        assert(t1[p - 1] == pre[p - 1] && t2[p - 1] == pre[p - 1]);
        if p > 1 {
            assert(t1[p - 2] == pre[p - 2] && t2[p - 2] == pre[p - 2]);
        }
        lemma_standalone_same(t1, p - 1, t2, p - 1, nl);
    } else {
        assert(!standalone_at(t1, p - 1, nl));
        assert(!standalone_at(t2, p - 1, nl));
    }
    if post.len() > 0 {
        assert(t1[p + 3] == post[0] && t2[p + 1] == post[0]);
        if post.len() > 1 {
            assert(t1[p + 4] == post[1] && t2[p + 2] == post[1]);
        }
        lemma_standalone_same(t1, p + 3, t2, p + 1, nl);
    } else {
        assert(!standalone_at(t1, p + 3, nl));
        assert(!standalone_at(t2, p + 1, nl));
    }
    let head = line_head(pre, indent, tag, rest, post, newline);
    let kept = line_kept(pre, indent, tag, rest, post, newline);
    lemma_newline_text(newline, kept);
    assert(!standalone_at(t1, p, nl));
    assert(!standalone_at(t1, p + 2, nl));
    assert(!standalone_at(t2, p, nl));
    assert(clean_text(t1, p, nl) == head);
    assert(clean_text(t1, p + 2, nl) == kept);
    assert(clean_text(t2, p, nl) == head + kept) by {
        assert(Seq::<char>::empty() + kept =~= kept);
    }
}

/// A text, a comment or a change of delimiters, and a text render as the two
/// texts in a row.
proof fn lemma_mark_vanishes(first: Seq<char>, mark: Node, last: Seq<char>)
    requires
        mark is Comment || mark is Delimiter,
    ensures
        render_alike(
            seq![Node::Text(first)] + seq![mark] + seq![Node::Text(last)],
            seq![Node::Text(first + last)],
        ),
{
    let a = Node::Text(first);
    let b = Node::Text(last);
    let whole = Node::Text(first + last);
    let g1 = seq![a] + seq![mark] + seq![b];
    let g2 = seq![whole];
    assert forall|env: RenderEnv| env.indent == 0 implies #[trigger] render_nodes_spec(
        g1,
        0,
        env,
        false,
    ) == render_nodes_spec(g2, 0, env, false) by {
        lemma_render_concat(seq![a] + seq![mark], seq![b], env);
        lemma_render_concat(seq![a], seq![mark], env);
        lemma_render_single(a, env);
        lemma_render_single(mark, env);
        lemma_render_single(b, env);
        lemma_render_single(whole, env);
        assert(first + Seq::<char>::empty() =~= first);
    }
}

/// Three leaves appended one by one are three leaves appended.
proof fn lemma_pushed_three(state: BuildState, a: Node, b: Node, c: Node)
    ensures
        grown(state, pushed(pushed(pushed(state, a), b), c), seq![a] + seq![b] + seq![c]),
{
    let x1 = pushed(state, a);
    let x2 = pushed(x1, b);
    let x3 = pushed(x2, c);
    lemma_pushed_grows(state, a);
    lemma_pushed_grows(x1, b);
    lemma_pushed_grows(x2, c);
    lemma_grown_twice(state, x1, x2, seq![a], seq![b]);
    lemma_grown_twice(state, x2, x3, seq![a] + seq![b], seq![c]);
}

/// The three tokens of a line with a comment or a change of delimiters leave
/// the builder in a state like the one the plain line break leaves it in.
proof fn lemma_tag_line_steps(
    pre: Seq<TokenView>,
    indent: Seq<char>,
    tag: TokenView,
    rest: Seq<char>,
    post: Seq<TokenView>,
    newline: Newline,
    s1: BuildState,
    s2: BuildState,
)
    requires
        tag is Comment || tag is DelimiterChange,
        all_hws(indent),
        states_alike(s1, s2),
    ensures
        build_upto(
            pre + tag_line(indent, tag, rest, newline) + post,
            pre.len() as int,
            (pre.len() + 3) as int,
            s1,
            newline.chars(),
        ) is Ok,
        build_upto(
            pre + plain_line(rest, newline) + post,
            pre.len() as int,
            (pre.len() + 1) as int,
            s2,
            newline.chars(),
        ) is Ok,
        states_alike(
            build_upto(
                pre + tag_line(indent, tag, rest, newline) + post,
                pre.len() as int,
                (pre.len() + 3) as int,
                s1,
                newline.chars(),
            )->Ok_0,
            build_upto(
                pre + plain_line(rest, newline) + post,
                pre.len() as int,
                (pre.len() + 1) as int,
                s2,
                newline.chars(),
            )->Ok_0,
        ),
{
    let nl = newline.chars();
    let t1 = pre + tag_line(indent, tag, rest, newline) + post;
    let t2 = pre + plain_line(rest, newline) + post;
    let p = pre.len() as int;
    lemma_tag_line_facts(pre, indent, tag, rest, post, newline);
    let head = line_head(pre, indent, tag, rest, post, newline);
    let kept = line_kept(pre, indent, tag, rest, post, newline);
    let first = Node::Text(head);
    let mark = if tag is Comment {
        Node::Comment { standalone: true }
    } else {
        Node::Delimiter { standalone: true }
    };
    let last = Node::Text(kept);
    let whole = Node::Text(head + kept);
    let x1 = pushed(s1, first);
    let x2 = pushed(x1, mark);
    let x3 = pushed(x2, last);
    let y1 = pushed(s2, whole);
    assert(build_step(t1, p, s1, nl) == Ok::<BuildState, RibboncurlsError>(x1));
    assert(build_step(t1, p + 1, x1, nl) == Ok::<BuildState, RibboncurlsError>(x2));
    assert(build_step(t1, p + 2, x2, nl) == Ok::<BuildState, RibboncurlsError>(x3));
    assert(build_step(t2, p, s2, nl) == Ok::<BuildState, RibboncurlsError>(y1));
    assert(build_upto(t1, p + 3, p + 3, x3, nl) == Ok::<BuildState, RibboncurlsError>(x3));
    assert(build_upto(t1, p + 2, p + 3, x2, nl) == Ok::<BuildState, RibboncurlsError>(x3));
    assert(build_upto(t1, p + 1, p + 3, x1, nl) == Ok::<BuildState, RibboncurlsError>(x3));
    assert(build_upto(t1, p, p + 3, s1, nl) == Ok::<BuildState, RibboncurlsError>(x3));
    assert(build_upto(t2, p + 1, p + 1, y1, nl) == Ok::<BuildState, RibboncurlsError>(y1));
    assert(build_upto(t2, p, p + 1, s2, nl) == Ok::<BuildState, RibboncurlsError>(y1));
    lemma_pushed_three(s1, first, mark, last);
    lemma_pushed_grows(s2, whole);
    lemma_mark_vanishes(head, mark, kept);
    lemma_grow_alike(
        s1,
        s2,
        x3,
        y1,
        seq![first] + seq![mark] + seq![last],
        seq![whole],
    );
}

/// Standalone stability.
///
/// Take a token sequence in which a comment or a change of delimiters stands
/// alone on a line: before it the text of a line break and indentation, after
/// it text that begins with the line break of its line. Take the tag and its
/// line out: the line break and what follows it remain, as one text. Outside
/// a partial, in any context, the two sequences render to the same output, or
/// fail with the same error.
pub proof fn lemma_standalone_line_vanishes(
    pre: Seq<TokenView>,
    indent: Seq<char>,
    tag: TokenView,
    rest: Seq<char>,
    post: Seq<TokenView>,
    env: RenderEnv,
)
    requires
        tag is Comment || tag is DelimiterChange,
        all_hws(indent),
        env.indent == 0,
    ensures
        rendered_tokens(pre + tag_line(indent, tag, rest, env.newline) + post, env)
            == rendered_tokens(pre + plain_line(rest, env.newline) + post, env),
{
    let newline = env.newline;
    let nl = newline.chars();
    let m1 = tag_line(indent, tag, rest, newline);
    let m2 = plain_line(rest, newline);
    let t1 = pre + m1 + post;
    let t2 = pre + m2 + post;
    let p = pre.len() as int;
    lemma_newline_text(newline, indent);
    lemma_newline_text(newline, rest);
    let init = BuildState { root: Seq::empty(), stack: Seq::empty() };
    lemma_alike_refl(Seq::<Node>::empty());
    assert(states_alike(init, init));
    assert(t1.len() == p + 3 + post.len() && t2.len() == p + 1 + post.len());
    assert forall|k: int| 0 <= k < p implies #[trigger] agree_at(t1, 0, t2, 0, k, nl) by {
        lemma_prefix_agree(pre, m1, m2, post, k, nl);
    }
    lemma_build_sim(t1, 0, t2, 0, p as nat, init, init, nl);
    lemma_build_split(t1, 0, p, init, nl);
    lemma_build_split(t2, 0, p, init, nl);
    match build_upto(t1, 0, p, init, nl) {
        Err(e) => {},
        Ok(s1) => {
            let s2 = build_upto(t2, 0, p, init, nl)->Ok_0;
            lemma_tag_line_steps(pre, indent, tag, rest, post, newline, s1, s2);
            lemma_build_split(t1, p, p + 3, s1, nl);
            lemma_build_split(t2, p, p + 1, s2, nl);
            let a1 = build_upto(t1, p, p + 3, s1, nl)->Ok_0;
            let a2 = build_upto(t2, p, p + 1, s2, nl)->Ok_0;
            assert forall|k: int| 0 <= k < post.len() implies #[trigger] agree_at(
                t1,
                p + 3,
                t2,
                p + 1,
                k,
                nl,
            ) by {
                lemma_suffix_agree(pre, m1, m2, post, k, nl);
            }
            lemma_build_sim(t1, p + 3, t2, p + 1, post.len(), a1, a2, nl);
            lemma_build_split(t1, p + 3, t1.len() as int, a1, nl);
            lemma_build_split(t2, p + 1, t2.len() as int, a2, nl);
            match build_upto(t1, p + 3, (p + 3 + post.len()) as int, a1, nl) {
                Err(e) => {},
                Ok(z1) => {
                    let z2 = build_upto(t2, p + 1, (p + 1 + post.len()) as int, a2, nl)->Ok_0;
                    assert(states_alike(z1, z2));
                    assert(render_nodes_spec(z1.root, 0, env, false) == render_nodes_spec(
                        z2.root,
                        0,
                        env,
                        false,
                    ));
                },
            }
        },
    }
}

/// Text after a line break ends with a line break and indentation where it
/// does so without the line break, or is indentation only.
pub proof fn lemma_newline_ends(newline: Newline, rest: Seq<char>)
    ensures
        ends_with_newline_hws(newline.chars() + rest, newline.chars()) == (ends_with_newline_hws(
            rest,
            newline.chars(),
        ) || all_hws(rest)),
{
    let nl = newline.chars();
    let s = nl + rest;
    lemma_newline_text(newline, rest);
    let d = rest.len() - trailing_hws(rest);
    if d >= nl.len() {
        if d <= rest.len() {
            assert(s.subrange(d, d + nl.len()) =~= rest.subrange(d - nl.len(), d));
        }
    } else if d > 0 {
        if matches_at(s, nl, d) {
            assert(s.subrange(d, d + nl.len())[0] == nl[0]);
        }
    }
}

/// Whether a tag stands alone, and how far it is indented, is decided by
/// what stands before and after it on its line.
proof fn lemma_standalone_local(
    t1: Seq<TokenView>,
    j1: int,
    t2: Seq<TokenView>,
    j2: int,
    nl: Seq<char>,
)
    requires
        0 <= j1 < t1.len(),
        0 <= j2 < t2.len(),
        t1[j1] == t2[j2],
        begins_line(t1, j1, nl) == begins_line(t2, j2, nl),
        ends_line(t1, j1, nl) == ends_line(t2, j2, nl),
        line_indent(t1, j1) == line_indent(t2, j2),
    ensures
        standalone_at(t1, j1, nl) == standalone_at(t2, j2, nl),
        indent_at(t1, j1, nl) == indent_at(t2, j2, nl),
{
}

/// The indentation that begins a template, as a token.
pub open spec fn lead_tokens(indent: Seq<char>) -> Seq<TokenView> {
    if indent.len() > 0 {
        seq![TokenView::Text(indent)]
    } else {
        Seq::empty()
    }
}

/// The tokens of a first line that holds `tag` after the indentation
/// `indent`, with the line `rest` after it.
pub open spec fn first_tag_line(
    indent: Seq<char>,
    tag: TokenView,
    rest: Seq<char>,
    newline: Newline,
) -> Seq<TokenView> {
    lead_tokens(indent) + seq![tag, TokenView::Text(newline.chars() + rest)]
}

/// The tokens of the same place without that line.
pub open spec fn first_plain_line(rest: Seq<char>) -> Seq<TokenView> {
    if rest.len() > 0 {
        seq![TokenView::Text(rest)]
    } else {
        Seq::empty()
    }
}

/// Where the line after the tag line is empty, no text follows that is
/// indentation only. (The tokenizer returns no such text: after a text it
/// returns another only where that begins with a line break.)
pub open spec fn no_loose_indent(rest: Seq<char>, post: Seq<TokenView>) -> bool {
    rest.len() == 0 ==> post.len() == 0 || !(post[0] is Text) || !all_hws(post[0]->Text_0)
}

/// After the first line the tags stand alone in the one sequence where they
/// do in the other, with the same indentation.
proof fn lemma_first_line_tags(
    indent: Seq<char>,
    tag: TokenView,
    rest: Seq<char>,
    post: Seq<TokenView>,
    newline: Newline,
    k: int,
)
    requires
        0 <= k < post.len(),
        no_loose_indent(rest, post),
    ensures
        standalone_at(
            first_tag_line(indent, tag, rest, newline) + post,
            lead_tokens(indent).len() + 2 + k,
            newline.chars(),
        ) == standalone_at(
            first_plain_line(rest) + post,
            first_plain_line(rest).len() + k,
            newline.chars(),
        ),
        indent_at(
            first_tag_line(indent, tag, rest, newline) + post,
            lead_tokens(indent).len() + 2 + k,
            newline.chars(),
        ) == indent_at(
            first_plain_line(rest) + post,
            first_plain_line(rest).len() + k,
            newline.chars(),
        ),
{
    let nl = newline.chars();
    let m1 = first_tag_line(indent, tag, rest, newline);
    let m2 = first_plain_line(rest);
    let t1 = m1 + post;
    let t2 = m2 + post;
    let o1 = m1.len() as int;
    let o2 = m2.len() as int;
    lemma_newline_text(newline, rest);
    lemma_newline_ends(newline, rest);
    assert(t1[o1 + k] == post[k] && t2[o2 + k] == post[k]);
    assert(t1[o1 - 1] == TokenView::Text(nl + rest));
    if k > 0 {
        assert(t1[o1 + k - 1] == post[k - 1] && t2[o2 + k - 1] == post[k - 1]);
    } else if o2 > 0 {
        assert(t2[0] == TokenView::Text(rest));
    }
    if k + 1 < post.len() {
        assert(t1[o1 + k + 1] == post[k + 1] && t2[o2 + k + 1] == post[k + 1]);
    }
    if rest.len() == 0 {
        assert(trailing_hws(rest) == 0);
        assert(all_hws(rest));
    }
    lemma_standalone_local(t1, o1 + k, t2, o2 + k, nl);
}

/// After the first line the builder is told the same about the tokens of
/// both sequences.
proof fn lemma_first_line_agree(
    indent: Seq<char>,
    tag: TokenView,
    rest: Seq<char>,
    post: Seq<TokenView>,
    newline: Newline,
    k: int,
)
    requires
        0 <= k < post.len(),
        no_loose_indent(rest, post),
    ensures
        inputs_agree(
            first_tag_line(indent, tag, rest, newline) + post,
            lead_tokens(indent).len() + 2 + k,
            first_plain_line(rest) + post,
            first_plain_line(rest).len() + k,
            newline.chars(),
        ),
{
    let nl = newline.chars();
    let m1 = first_tag_line(indent, tag, rest, newline);
    let m2 = first_plain_line(rest);
    let t1 = m1 + post;
    let t2 = m2 + post;
    let o1 = m1.len() as int;
    let o2 = m2.len() as int;
    assert(t1[o1 + k] == post[k] && t2[o2 + k] == post[k]);
    lemma_first_line_tags(indent, tag, rest, post, newline, k);
    if k > 0 {
        lemma_first_line_tags(indent, tag, rest, post, newline, k - 1);
    } else {
        assert(t1[o1 - 1] == TokenView::Text(nl + rest));
        assert(!standalone_at(t1, o1 - 1, nl));
        if o2 > 0 {
            assert(t2[0] == TokenView::Text(rest));
        }
        assert(!standalone_at(t2, o2 - 1, nl));
    }
    if k + 1 < post.len() {
        lemma_first_line_tags(indent, tag, rest, post, newline, k + 1);
    } else {
        assert(!standalone_at(t1, o1 + k + 1, nl));
        assert(!standalone_at(t2, o2 + k + 1, nl));
    }
    if o2 + k == 0 {
        assert(t2[0] == post[0]);
    }
}

/// What is left of the line after a first tag line.
pub open spec fn first_kept(
    indent: Seq<char>,
    tag: TokenView,
    rest: Seq<char>,
    post: Seq<TokenView>,
    newline: Newline,
) -> Seq<char> {
    if standalone_at(
        first_tag_line(indent, tag, rest, newline) + post,
        (lead_tokens(indent).len() + 2) as int,
        newline.chars(),
    ) {
        strip_trailing_hws(rest)
    } else {
        rest
    }
}

/// How the builder sees the tokens of a first tag line, and the line that
/// remains without it.
proof fn lemma_first_line_facts(
    indent: Seq<char>,
    tag: TokenView,
    rest: Seq<char>,
    post: Seq<TokenView>,
    newline: Newline,
)
    requires
        is_tag(tag),
        all_hws(indent),
        no_loose_indent(rest, post),
    ensures
        ({
            let nl = newline.chars();
            let t1 = first_tag_line(indent, tag, rest, newline) + post;
            let t2 = first_plain_line(rest) + post;
            let q = lead_tokens(indent).len() as int;
            let kept = first_kept(indent, tag, rest, post, newline);
            &&& t1[q] == tag
            &&& t1[q + 1] == TokenView::Text(nl + rest)
            &&& standalone_at(t1, q, nl)
            &&& q > 0 ==> t1[0] is Text && dropped_at(t1, 0, nl)
            &&& !dropped_at(t1, q + 1, nl)
            &&& clean_text(t1, q + 1, nl) == kept
            &&& rest.len() > 0 ==> t2[0] == TokenView::Text(rest) && (dropped_at(t2, 0, nl)
                ==> kept.len() == 0) && (!dropped_at(t2, 0, nl) ==> clean_text(t2, 0, nl)
                == kept)
            &&& rest.len() == 0 ==> kept.len() == 0
        }),
{
    let nl = newline.chars();
    let m1 = first_tag_line(indent, tag, rest, newline);
    let m2 = first_plain_line(rest);
    let t1 = m1 + post;
    let t2 = m2 + post;
    let q = lead_tokens(indent).len() as int;
    lemma_newline_text(newline, rest);
    lemma_newline_text(newline, strip_trailing_hws(rest));
    lemma_trailing_hws_bound(rest);
    assert(t1[q] == m1[q] && t1[q + 1] == m1[q + 1]);
    if q > 0 {
        assert(t1[0] == m1[0]);
    }
    assert(standalone_at(t1, q, nl));
    assert(!standalone_at(t1, q + 1, nl));
    if post.len() > 0 {
        lemma_first_line_tags(indent, tag, rest, post, newline, 0);
    } else {
        assert(!standalone_at(t1, q + 2, nl));
        assert(!standalone_at(t2, m2.len() as int, nl));
    }
    if rest.len() > 0 {
        assert(t2[0] == m2[0]);
        assert(!standalone_at(t2, -1, nl));
        if all_hws(rest) {
            assert(strip_trailing_hws(rest) =~= Seq::<char>::empty());
        }
    } else {
        assert(strip_trailing_hws(rest) =~= Seq::<char>::empty());
    }
}

/// A comment or a change of delimiters before a text renders as the text;
/// before an empty text, as nothing.
proof fn lemma_mark_before(mark: Node, last: Seq<char>)
    requires
        mark is Comment || mark is Delimiter,
    ensures
        render_alike(seq![mark] + seq![Node::Text(last)], seq![Node::Text(last)]),
        last.len() == 0 ==> render_alike(
            seq![mark] + seq![Node::Text(last)],
            Seq::<Node>::empty(),
        ),
{
    let b = Node::Text(last);
    let g1 = seq![mark] + seq![b];
    assert forall|env: RenderEnv| env.indent == 0 implies #[trigger] render_nodes_spec(
        g1,
        0,
        env,
        false,
    ) == render_nodes_spec(seq![b], 0, env, false) by {
        lemma_render_concat(seq![mark], seq![b], env);
        lemma_render_single(mark, env);
        lemma_render_single(b, env);
        lemma_join_unit(render_node_spec(b, env, false));
    }
    if last.len() == 0 {
        assert forall|env: RenderEnv| env.indent == 0 implies #[trigger] render_nodes_spec(
            g1,
            0,
            env,
            false,
        ) == render_nodes_spec(Seq::<Node>::empty(), 0, env, false) by {
            lemma_render_single(b, env);
            assert(last =~= Seq::<char>::empty());
        }
    }
}

/// The tokens of a first line with a comment or a change of delimiters leave
/// the builder in a state like the one the line without it leaves it in.
proof fn lemma_first_line_steps(
    indent: Seq<char>,
    tag: TokenView,
    rest: Seq<char>,
    post: Seq<TokenView>,
    newline: Newline,
)
    requires
        tag is Comment || tag is DelimiterChange,
        all_hws(indent),
        no_loose_indent(rest, post),
    ensures
        ({
            let nl = newline.chars();
            let t1 = first_tag_line(indent, tag, rest, newline) + post;
            let t2 = first_plain_line(rest) + post;
            let o1 = (lead_tokens(indent).len() + 2) as int;
            let o2 = first_plain_line(rest).len() as int;
            let init = BuildState { root: Seq::empty(), stack: Seq::empty() };
            &&& build_upto(t1, 0, o1, init, nl) is Ok
            &&& build_upto(t2, 0, o2, init, nl) is Ok
            &&& states_alike(
                build_upto(t1, 0, o1, init, nl)->Ok_0,
                build_upto(t2, 0, o2, init, nl)->Ok_0,
            )
        }),
{
    let nl = newline.chars();
    let t1 = first_tag_line(indent, tag, rest, newline) + post;
    let t2 = first_plain_line(rest) + post;
    let q = lead_tokens(indent).len() as int;
    let o1 = q + 2;
    let o2 = first_plain_line(rest).len() as int;
    let init = BuildState { root: Seq::<Node>::empty(), stack: Seq::<Node>::empty() };
    lemma_first_line_facts(indent, tag, rest, post, newline);
    let kept = first_kept(indent, tag, rest, post, newline);
    let mark = if tag is Comment {
        Node::Comment { standalone: true }
    } else {
        Node::Delimiter { standalone: true }
    };
    let last = Node::Text(kept);
    let x1 = pushed(init, mark);
    let x2 = pushed(x1, last);
    assert(build_step(t1, q, init, nl) == Ok::<BuildState, RibboncurlsError>(x1));
    assert(build_step(t1, q + 1, x1, nl) == Ok::<BuildState, RibboncurlsError>(x2));
    assert(build_upto(t1, o1, o1, x2, nl) == Ok::<BuildState, RibboncurlsError>(x2));
    assert(build_upto(t1, q + 1, o1, x1, nl) == Ok::<BuildState, RibboncurlsError>(x2));
    assert(build_upto(t1, q, o1, init, nl) == Ok::<BuildState, RibboncurlsError>(x2));
    if q > 0 {
        assert(build_step(t1, 0, init, nl) == Ok::<BuildState, RibboncurlsError>(init));
    }
    assert(build_upto(t1, 0, o1, init, nl) == Ok::<BuildState, RibboncurlsError>(x2));
    lemma_pushed_grows(init, mark);
    lemma_pushed_grows(x1, last);
    lemma_grown_twice(init, x1, x2, seq![mark], seq![last]);
    lemma_mark_before(mark, kept);
    lemma_alike_refl(Seq::<Node>::empty());
    assert(states_alike(init, init));
    if rest.len() > 0 && !dropped_at(t2, 0, nl) {
        let y = pushed(init, last);
        assert(build_step(t2, 0, init, nl) == Ok::<BuildState, RibboncurlsError>(y));
        assert(build_upto(t2, 1, 1, y, nl) == Ok::<BuildState, RibboncurlsError>(y));
        assert(build_upto(t2, 0, o2, init, nl) == Ok::<BuildState, RibboncurlsError>(y));
        lemma_pushed_grows(init, last);
        lemma_grow_alike(init, init, x2, y, seq![mark] + seq![last], seq![last]);
    } else {
        if rest.len() > 0 {
            assert(build_step(t2, 0, init, nl) == Ok::<BuildState, RibboncurlsError>(init));
            assert(build_upto(t2, 1, 1, init, nl) == Ok::<BuildState, RibboncurlsError>(init));
        }
        assert(build_upto(t2, 0, o2, init, nl) == Ok::<BuildState, RibboncurlsError>(init));
        assert(grown(init, init, Seq::<Node>::empty())) by {
            assert(init.root + Seq::<Node>::empty() =~= init.root);
        }
        lemma_grow_alike(init, init, x2, init, seq![mark] + seq![last], Seq::<Node>::empty());
    }
}

/// Standalone stability on the first line.
///
/// Take a token sequence that begins with a comment or a change of
/// delimiters alone on its line: before it at most the text of its
/// indentation, after it text that begins with the line break of its line.
/// Take the tag and its line out: what followed the line break remains, as
/// one text where there is any. Outside a partial, in any context, the two
/// sequences render to the same output, or fail with the same error.
pub proof fn lemma_first_line_vanishes(
    indent: Seq<char>,
    tag: TokenView,
    rest: Seq<char>,
    post: Seq<TokenView>,
    env: RenderEnv,
)
    requires
        tag is Comment || tag is DelimiterChange,
        all_hws(indent),
        no_loose_indent(rest, post),
        env.indent == 0,
    ensures
        rendered_tokens(first_tag_line(indent, tag, rest, env.newline) + post, env)
            == rendered_tokens(first_plain_line(rest) + post, env),
{
    let newline = env.newline;
    let nl = newline.chars();
    let t1 = first_tag_line(indent, tag, rest, newline) + post;
    let t2 = first_plain_line(rest) + post;
    let o1 = (lead_tokens(indent).len() + 2) as int;
    let o2 = first_plain_line(rest).len() as int;
    let init = BuildState { root: Seq::<Node>::empty(), stack: Seq::<Node>::empty() };
    lemma_first_line_steps(indent, tag, rest, post, newline);
    assert(t1.len() == o1 + post.len() && t2.len() == o2 + post.len());
    lemma_build_split(t1, 0, o1, init, nl);
    lemma_build_split(t2, 0, o2, init, nl);
    let a1 = build_upto(t1, 0, o1, init, nl)->Ok_0;
    let a2 = build_upto(t2, 0, o2, init, nl)->Ok_0;
    assert forall|k: int| 0 <= k < post.len() implies #[trigger] agree_at(
        t1,
        o1,
        t2,
        o2,
        k,
        nl,
    ) by {
        lemma_first_line_agree(indent, tag, rest, post, newline, k);
    }
    lemma_build_sim(t1, o1, t2, o2, post.len(), a1, a2, nl);
    lemma_build_split(t1, o1, t1.len() as int, a1, nl);
    lemma_build_split(t2, o2, t2.len() as int, a2, nl);
    match build_upto(t1, o1, (o1 + post.len()) as int, a1, nl) {
        Err(e) => {},
        Ok(z1) => {
            let z2 = build_upto(t2, o2, (o2 + post.len()) as int, a2, nl)->Ok_0;
            assert(states_alike(z1, z2));
            assert(render_nodes_spec(z1.root, 0, env, false) == render_nodes_spec(
                z2.root,
                0,
                env,
                false,
            ));
        },
    }
}

/// The tokens of a last line that holds `tag` after the indentation
/// `indent`, with the line break before it and nothing after it.
pub open spec fn last_tag_line(indent: Seq<char>, tag: TokenView, newline: Newline) -> Seq<
    TokenView,
> {
    seq![TokenView::Text(newline.chars() + indent), tag]
}

/// The tokens of the same place without that line: the line break alone.
pub open spec fn last_plain_line(newline: Newline) -> Seq<TokenView> {
    seq![TokenView::Text(newline.chars())]
}

/// A text before a comment or a change of delimiters renders as the text.
proof fn lemma_mark_after(first: Seq<char>, mark: Node)
    requires
        mark is Comment || mark is Delimiter,
    ensures
        render_alike(seq![Node::Text(first)] + seq![mark], seq![Node::Text(first)]),
{
    let a = Node::Text(first);
    assert forall|env: RenderEnv| env.indent == 0 implies #[trigger] render_nodes_spec(
        seq![a] + seq![mark],
        0,
        env,
        false,
    ) == render_nodes_spec(seq![a], 0, env, false) by {
        lemma_render_concat(seq![a], seq![mark], env);
        lemma_render_single(a, env);
        lemma_render_single(mark, env);
        lemma_join_unit(render_node_spec(a, env, false));
    }
}

/// How the builder sees the tokens of a last tag line, and the line break
/// that remains without it.
proof fn lemma_last_line_facts(
    pre: Seq<TokenView>,
    indent: Seq<char>,
    tag: TokenView,
    newline: Newline,
)
    requires
        is_tag(tag),
        all_hws(indent),
    ensures
        ({
            let nl = newline.chars();
            let t1 = pre + last_tag_line(indent, tag, newline);
            let t2 = pre + last_plain_line(newline);
            let p = pre.len() as int;
            let head = if standalone_at(t1, p - 1, nl) {
                Seq::<char>::empty()
            } else {
                nl
            };
            &&& t1.len() == p + 2
            &&& t2.len() == p + 1
            &&& t1[p] == TokenView::Text(nl + indent)
            &&& t1[p + 1] == tag
            &&& t2[p] == TokenView::Text(nl)
            &&& standalone_at(t1, p + 1, nl)
            &&& !dropped_at(t1, p, nl)
            &&& !dropped_at(t2, p, nl)
            &&& clean_text(t1, p, nl) == head
            &&& clean_text(t2, p, nl) == head
        }),
{
    let nl = newline.chars();
    let m1 = last_tag_line(indent, tag, newline);
    let m2 = last_plain_line(newline);
    let t1 = pre + m1;
    let t2 = pre + m2;
    let p = pre.len() as int;
    lemma_newline_text(newline, indent);
    lemma_newline_text(newline, Seq::<char>::empty());
    assert(nl + Seq::<char>::empty() =~= nl);
    assert(t1[p] == m1[0] && t1[p + 1] == m1[1]);
    assert(t2[p] == m2[0]);
    assert(standalone_at(t1, p + 1, nl));
    if p > 0 {
        assert(t1[p - 1] == pre[p - 1] && t2[p - 1] == pre[p - 1]);
        if p > 1 {
            assert(t1[p - 2] == pre[p - 2] && t2[p - 2] == pre[p - 2]);
        }
        lemma_standalone_same(t1, p - 1, t2, p - 1, nl);
    } else {
        assert(!standalone_at(t1, p - 1, nl));
        assert(!standalone_at(t2, p - 1, nl));
    }
    assert(!standalone_at(t2, p + 1, nl));
    assert(!standalone_at(t1, p, nl));
    assert(!standalone_at(t2, p, nl));
}

/// Standalone stability on the last line.
///
/// Take a token sequence that ends with a comment or a change of delimiters
/// alone on its line, with no line break after it: before it the text of a
/// line break and indentation. Take the tag and its indentation out: the
/// line break remains. Outside a partial, in any context, the two sequences
/// render to the same output, or fail with the same error.
pub proof fn lemma_last_line_vanishes(
    pre: Seq<TokenView>,
    indent: Seq<char>,
    tag: TokenView,
    env: RenderEnv,
)
    requires
        tag is Comment || tag is DelimiterChange,
        all_hws(indent),
        env.indent == 0,
    ensures
        rendered_tokens(pre + last_tag_line(indent, tag, env.newline), env) == rendered_tokens(
            pre + last_plain_line(env.newline),
            env,
        ),
{
    let newline = env.newline;
    let nl = newline.chars();
    let m1 = last_tag_line(indent, tag, newline);
    let m2 = last_plain_line(newline);
    let t1 = pre + m1;
    let t2 = pre + m2;
    let p = pre.len() as int;
    let none = Seq::<TokenView>::empty();
    assert(pre + m1 + none =~= t1);
    assert(pre + m2 + none =~= t2);
    lemma_newline_text(newline, indent);
    lemma_newline_text(newline, Seq::<char>::empty());
    assert(nl + Seq::<char>::empty() =~= nl);
    let init = BuildState { root: Seq::<Node>::empty(), stack: Seq::<Node>::empty() };
    lemma_alike_refl(Seq::<Node>::empty());
    assert(states_alike(init, init));
    assert forall|k: int| 0 <= k < p implies #[trigger] agree_at(t1, 0, t2, 0, k, nl) by {
        lemma_prefix_agree(pre, m1, m2, none, k, nl);
    }
    lemma_build_sim(t1, 0, t2, 0, p as nat, init, init, nl);
    lemma_build_split(t1, 0, p, init, nl);
    lemma_build_split(t2, 0, p, init, nl);
    match build_upto(t1, 0, p, init, nl) {
        Err(e) => {},
        Ok(s1) => {
            let s2 = build_upto(t2, 0, p, init, nl)->Ok_0;
            lemma_last_line_facts(pre, indent, tag, newline);
            let head = clean_text(t1, p, nl);
            let first = Node::Text(head);
            let mark = if tag is Comment {
                Node::Comment { standalone: true }
            } else {
                Node::Delimiter { standalone: true }
            };
            let x1 = pushed(s1, first);
            let x2 = pushed(x1, mark);
            let y1 = pushed(s2, first);
            assert(build_step(t1, p, s1, nl) == Ok::<BuildState, RibboncurlsError>(x1));
            assert(build_step(t1, p + 1, x1, nl) == Ok::<BuildState, RibboncurlsError>(x2));
            assert(build_step(t2, p, s2, nl) == Ok::<BuildState, RibboncurlsError>(y1));
            lemma_pushed_grows(s1, first);
            lemma_pushed_grows(x1, mark);
            lemma_grown_twice(s1, x1, x2, seq![first], seq![mark]);
            lemma_pushed_grows(s2, first);
            lemma_mark_after(head, mark);
            lemma_grow_alike(s1, s2, x2, y1, seq![first] + seq![mark], seq![first]);
            assert(states_alike(x2, y1));
            assert(build_from(t1, p + 1, x1, nl) == build_from(t1, p + 2, x2, nl));
            assert(build_from(t1, p, s1, nl) == build_from(t1, p + 2, x2, nl));
            assert(build_from(t2, p, s2, nl) == build_from(t2, p + 1, y1, nl));
            assert(render_nodes_spec(x2.root, 0, env, false) == render_nodes_spec(
                y1.root,
                0,
                env,
                false,
            ));
        },
    }
}

} // verus!
