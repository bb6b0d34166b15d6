//! Rendering is compositional; partials are isolated; sections follow the
//! truthiness of their value.
use crate::error::RibboncurlsError;
use crate::render::{
    after_node, after_nodes, frame_env, join, owed_indent, partial_env, partial_template,
    render_each_spec, render_node_spec, render_nodes_spec, render_tree_spec, root_env, section_env,
    RenderEnv,
};
use crate::syntax_tree::{tree_spec, Node};
use crate::token::{initial_state, tag_token, tokenize_spec, LexState};
use crate::utils::Newline;
use crate::value::{data_get, dot, falsy, find_in_stack, resolve, DataView};
use vstd::prelude::*;

verus! {

/// Joining three pieces of output does not depend on the grouping.
pub proof fn lemma_join_assoc(
    a: Result<Seq<char>, RibboncurlsError>,
    b: Result<Seq<char>, RibboncurlsError>,
    c: Result<Seq<char>, RibboncurlsError>,
)
    ensures
        join(a, join(b, c)) == join(join(a, b), c),
{
    if let Ok(x) = a {
        if let Ok(y) = b {
            if let Ok(z) = c {
                assert(x + (y + z) =~= (x + y) + z);
            }
        }
    }
}

/// Output that is empty changes nothing.
pub proof fn lemma_join_unit(r: Result<Seq<char>, RibboncurlsError>)
    ensures
        join(Ok(Seq::empty()), r) == r,
        join(r, Ok(Seq::empty())) == r,
{
    if let Ok(x) = r {
        assert(Seq::<char>::empty() + x =~= x);
        assert(x + Seq::<char>::empty() =~= x);
    }
}

/// Outside an indented partial the output never stands at a line start whose
/// indentation is owed.
pub proof fn lemma_after_flat(nodes: Seq<Node>, i: int, env: RenderEnv, pending: bool)
    requires
        env.indent == 0,
    ensures
        !after_nodes(nodes, i, env, pending),
    decreases nodes.len() - i,
{
    if 0 <= i < nodes.len() {
        lemma_after_flat(nodes, i + 1, env, after_node(nodes[i], env, pending));
    }
}

proof fn lemma_render_suffix(a: Seq<Node>, b: Seq<Node>, env: RenderEnv, j: int, pending: bool)
    requires
        0 <= j <= b.len(),
    ensures
        render_nodes_spec(a + b, a.len() + j, env, pending) == render_nodes_spec(
            b,
            j,
            env,
            pending,
        ),
        after_nodes(a + b, a.len() + j, env, pending) == after_nodes(b, j, env, pending),
    decreases b.len() - j,
{
    if j < b.len() {
        assert((a + b)[a.len() + j] == b[j]);
        lemma_render_suffix(a, b, env, j + 1, after_node(b[j], env, pending));
    }
}

proof fn lemma_render_prefix(a: Seq<Node>, b: Seq<Node>, env: RenderEnv, i: int, pending: bool)
    requires
        0 <= i <= a.len(),
        pending ==> env.indent > 0,
    ensures
        render_nodes_spec(a + b, i, env, pending) == join(
            render_nodes_spec(a, i, env, pending),
            render_nodes_spec(b, 0, env, after_nodes(a, i, env, pending)),
        ),
        after_nodes(a + b, i, env, pending) == after_nodes(
            b,
            0,
            env,
            after_nodes(a, i, env, pending),
        ),
    decreases a.len() - i,
{
    if i < a.len() {
        assert((a + b)[i] == a[i]);
        let next = after_node(a[i], env, pending);
        lemma_render_prefix(a, b, env, i + 1, next);
        lemma_join_assoc(
            render_node_spec(a[i], env, pending),
            render_nodes_spec(a, i + 1, env, next),
            render_nodes_spec(b, 0, env, after_nodes(a, i + 1, env, next)),
        );
    } else {
        lemma_render_suffix(a, b, env, 0, pending);
        lemma_join_unit(render_nodes_spec(b, 0, env, pending));
    }
}

/// Rendering is compositional, line by line: a forest renders as its first
/// part followed by its second part, the second rendered in the same context
/// from the place in the line where the first leaves off. Nothing else that
/// a node does while it renders, be it a section, a partial or a change of
/// delimiters inside a partial, reaches the nodes after it.
pub proof fn lemma_render_concat_lines(a: Seq<Node>, b: Seq<Node>, env: RenderEnv, pending: bool)
    requires
        pending ==> env.indent > 0,
    ensures
        render_nodes_spec(a + b, 0, env, pending) == join(
            render_nodes_spec(a, 0, env, pending),
            render_nodes_spec(b, 0, env, after_nodes(a, 0, env, pending)),
        ),
        after_nodes(a + b, 0, env, pending) == after_nodes(
            b,
            0,
            env,
            after_nodes(a, 0, env, pending),
        ),
{
    lemma_render_prefix(a, b, env, 0, pending);
}

/// Rendering is compositional: outside an indented partial a forest renders
/// as its first part followed by its second part, each rendered on its own
/// in the same context.
pub proof fn lemma_render_concat(a: Seq<Node>, b: Seq<Node>, env: RenderEnv)
    requires
        env.indent == 0,
    ensures
        render_nodes_spec(a + b, 0, env, false) == join(
            render_nodes_spec(a, 0, env, false),
            render_nodes_spec(b, 0, env, false),
        ),
{
    lemma_render_concat_lines(a, b, env, false);
    lemma_after_flat(a, 0, env, false);
}

/// A forest of one node renders as that node.
pub proof fn lemma_render_single(node: Node, env: RenderEnv)
    ensures
        render_nodes_spec(seq![node], 0, env, false) == render_node_spec(node, env, false),
{
    assert(seq![node][0] == node);
    let next = after_node(node, env, false);
    assert(render_nodes_spec(seq![node], 1, env, next) == Ok::<Seq<char>, RibboncurlsError>(
        Seq::empty(),
    ));
    lemma_join_unit(render_node_spec(node, env, false));
}

/// Delimiter isolation.
///
/// A partial is expanded from its own text, read from the delimiters `{{` and
/// `}}` whatever delimiters are in force where it is included; and a forest
/// that holds a partial renders as what stands before it, then the expansion,
/// then what stands after it, which the partial reaches in nothing but the
/// place in the line where it leaves off.
pub proof fn lemma_partial_isolation(
    before: Seq<Node>,
    name: Seq<char>,
    indent: u8,
    standalone: bool,
    after: Seq<Node>,
    env: RenderEnv,
    pending: bool,
)
    requires
        pending ==> env.indent > 0,
    ensures
        ({
            let partial = Node::Partial { name, indent, standalone };
            let at_partial = after_nodes(before, 0, env, pending);
            render_nodes_spec(before + seq![partial] + after, 0, env, pending) == join(
                render_nodes_spec(before, 0, env, pending),
                join(
                    render_node_spec(partial, env, at_partial),
                    render_nodes_spec(after, 0, env, after_node(partial, env, at_partial)),
                ),
            )
        }),
        render_node_spec(Node::Partial { name, indent, standalone }, env, pending)
            == match partial_template(env.partials, name) {
            None => Ok(Seq::empty()),
            Some(text) => if env.depth == 0 {
                Err(RibboncurlsError::PartialDepth)
            } else {
                match tokenize_spec(text, initial_state(env.newline)) {
                    Err(e) => Err(e),
                    Ok((tokens, _)) => match tree_spec(tokens, env.newline.chars()) {
                        Err(e) => Err(e),
                        Ok(forest) => if indent > 0 {
                            render_nodes_spec(forest, 0, partial_env(env, indent), true)
                        } else {
                            join(
                                Ok(owed_indent(env, pending)),
                                render_nodes_spec(forest, 0, partial_env(env, indent), false),
                            )
                        },
                    },
                }
            },
        },
{
    let partial = Node::Partial { name, indent, standalone };
    let at_partial = after_nodes(before, 0, env, pending);
    let at_rest = after_node(partial, env, at_partial);
    lemma_render_concat_lines(before, seq![partial] + after, env, pending);
    assert(before + seq![partial] + after =~= before + (seq![partial] + after));
    assert((seq![partial] + after)[0] == partial);
    lemma_render_suffix(seq![partial], after, env, 0, at_rest);
    assert(render_nodes_spec(seq![partial] + after, 1, env, at_rest) == render_nodes_spec(
        after,
        0,
        env,
        at_rest,
    ));
}

/// A tag that includes a partial leaves the tokenizer as it found it: the
/// delimiters and the open sections after the tag are those before it.
pub proof fn lemma_partial_tag_keeps_state(content: Seq<char>, st: LexState)
    requires
        content.len() > 0,
        content[0] == '>',
    ensures
        match tag_token(content, st) {
            Ok((token, next)) => token is Partial && next == st,
            Err(e) => e == RibboncurlsError::BadTag,
        },
{
}

/// `n` copies of `s` in a row.
pub open spec fn repeated(s: Seq<char>, n: nat) -> Seq<char>
    decreases n,
{
    if n == 0 {
        Seq::empty()
    } else {
        s + repeated(s, (n - 1) as nat)
    }
}

proof fn lemma_each_text(
    text: Seq<char>,
    items: Seq<DataView>,
    j: int,
    env: RenderEnv,
)
    requires
        0 <= j <= items.len(),
        env.indent == 0,
    ensures
        render_each_spec(seq![Node::Text(text)], items, j, env, false) == Ok::<
            Seq<char>,
            RibboncurlsError,
        >(repeated(text, (items.len() - j) as nat)),
    decreases items.len() - j,
{
    if j < items.len() {
        lemma_each_text(text, items, j + 1, env);
        lemma_render_single(Node::Text(text), frame_env(env, items[j]));
        lemma_after_flat(seq![Node::Text(text)], 0, frame_env(env, items[j]), false);
    }
}

/// The truthiness law, for a section and its inverse side by side.
///
/// Where the name `s` is held by the root of the data with value `v`, the
/// forest of `{{#s}}yes{{/s}}{{^s}}no{{/s}}` renders as `no` where `v` is
/// falsy, as `yes` once for each element where `v` is a sequence that is not
/// empty, and as `yes` for any other value.
pub proof fn lemma_truthiness(
    s: Seq<char>,
    yes: Seq<char>,
    no: Seq<char>,
    root: DataView,
    v: DataView,
    partials: DataView,
    newline: Newline,
    flags: (bool, bool, bool, bool),
)
    requires
        s.len() > 0,
        s != dot(),
        data_get(root, s) == Some(v),
    ensures
        render_tree_spec(
            seq![
                Node::Section {
                    name: s,
                    inverted: false,
                    children: seq![Node::Text(yes)],
                    open_standalone: flags.0,
                    close_standalone: flags.1,
                },
                Node::Section {
                    name: s,
                    inverted: true,
                    children: seq![Node::Text(no)],
                    open_standalone: flags.2,
                    close_standalone: flags.3,
                },
            ],
            root,
            partials,
            newline,
        ) == Ok::<Seq<char>, RibboncurlsError>(
            if falsy(v) {
                no
            } else if v is List {
                repeated(yes, v->List_0.len())
            } else {
                yes
            },
        ),
{
    let env = root_env(root, partials, newline);
    let plain = Node::Section {
        name: s,
        inverted: false,
        children: seq![Node::Text(yes)],
        open_standalone: flags.0,
        close_standalone: flags.1,
    };
    let inverse = Node::Section {
        name: s,
        inverted: true,
        children: seq![Node::Text(no)],
        open_standalone: flags.2,
        close_standalone: flags.3,
    };
    let forest = seq![plain, inverse];
    assert(forest =~= seq![plain] + seq![inverse]);
    lemma_render_concat(seq![plain], seq![inverse], env);
    lemma_render_single(plain, env);
    lemma_render_single(inverse, env);
    let path = env.path.push(s);
    assert(env.stack.len() == 1 && env.stack[0] == root);
    assert(find_in_stack(env.stack, s, 1) == Some(v)) by {
        assert(find_in_stack(env.stack, s, 0) is None);
    }
    assert(resolve(env.stack, path, s) == Some(v));
    let inner = section_env(env, s);
    assert(inner.indent == 0);
    lemma_render_single(Node::Text(yes), inner);
    lemma_render_single(Node::Text(no), inner);
    if let DataView::List(items) = v {
        lemma_each_text(yes, items, 0, inner);
    }
    assert(repeated(yes, 0) =~= Seq::<char>::empty());
    lemma_join_unit(Ok(yes));
    lemma_join_unit(Ok(no));
    lemma_join_unit(Ok(repeated(yes, v->List_0.len())));
}

} // verus!
