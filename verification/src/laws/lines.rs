//! Partial indentation by lines: where a partial holds no other partial and
//! each value it writes stands on one line, what it adds at an indentation
//! is what it adds without one, with the indentation before each line.
use crate::error::RibboncurlsError;
use crate::laws::rendering::lemma_after_flat;
use crate::render::{
    after_each, after_node, after_nodes, frame_env, indent_from, join, lead, partial_env,
    partial_template, pending_from, render_each_spec, render_node_spec, render_nodes_spec,
    section_env, template_forest, RenderEnv,
};
use crate::syntax_tree::Node;
use crate::text::matches_at;
use crate::utils::{escaped, Newline};
use crate::value::{falsy, resolve, to_text, DataView};
use vstd::prelude::*;

verus! {

/// The text does not end in the middle of a line terminator.
pub open spec fn ends_whole(s: Seq<char>, newline: Newline) -> bool {
    newline is Crlf ==> s.len() == 0 || s.last() != '\r'
}

/// A value that is written within one line: it is not empty and holds no
/// line terminator, nor the beginning of one at its end.
pub open spec fn on_one_line(s: Seq<char>, newline: Newline) -> bool {
    &&& s.len() > 0
    &&& ends_whole(s, newline)
    &&& forall|k: int| 0 <= k < s.len() ==> !#[trigger] matches_at(s, newline.chars(), k)
}

/// What a variable writes for a value.
pub open spec fn written(v: DataView, escape: bool) -> Seq<char> {
    if escape {
        escaped(to_text(v))
    } else {
        to_text(v)
    }
}

/// A node whose expansion in a context is made of whole lines of the
/// template and of values within a line: no partial is reached in it, every
/// variable that is reached has a value that is written within one line,
/// and no text ends in the middle of a line terminator.
pub open spec fn line_node(node: Node, env: RenderEnv) -> bool
    decreases node, 0nat,
{
    match node {
        Node::Text(s) => ends_whole(s, env.newline),
        Node::Comment { .. } => true,
        Node::Delimiter { .. } => true,
        Node::Variable { name, escaped: escape } => match resolve(env.stack, env.path, name) {
            None => false,
            Some(v) => on_one_line(written(v, escape), env.newline),
        },
        Node::Partial { .. } => false,
        Node::Section { name, inverted, children, .. } => {
            let value = resolve(env.stack, env.path.push(name), name);
            let inner = section_env(env, name);
            if inverted {
                value is None || falsy(value->0) ==> line_forest(children, inner)
            } else {
                match value {
                    None => true,
                    Some(DataView::List(items)) => forall|j: int|
                        0 <= j < items.len() ==> line_forest(
                            children,
                            frame_env(inner, #[trigger] items[j]),
                        ),
                    Some(v) => !falsy(v) ==> line_forest(children, inner),
                }
            }
        },
    }
}

/// A forest of such nodes.
pub open spec fn line_forest(nodes: Seq<Node>, env: RenderEnv) -> bool
    decreases nodes, 1nat,
{
    forall|k: int| 0 <= k < nodes.len() ==> line_node(#[trigger] nodes[k], env)
}

/// The context without its indentation.
pub open spec fn flat_env(env: RenderEnv) -> RenderEnv {
    RenderEnv { indent: 0, ..env }
}

/// What lines are written for the second of two texts in a row is what is
/// written for it alone.
proof fn lemma_indent_shift(
    a: Seq<char>,
    b: Seq<char>,
    nl: Seq<char>,
    n: nat,
    j: int,
    pending: bool,
)
    requires
        0 <= j,
    ensures
        indent_from(a + b, nl, n, a.len() + j, pending) == indent_from(b, nl, n, j, pending),
        pending_from(a + b, nl, a.len() + j, pending) == pending_from(b, nl, j, pending),
    decreases b.len() - j,
{
    let s = a + b;
    let i = a.len() + j;
    if j < b.len() {
        assert(s[i] == b[j]);
        if j + nl.len() <= b.len() {
            assert(s.subrange(i, i + nl.len()) =~= b.subrange(j, j + nl.len()));
        }
        assert(matches_at(s, nl, i) == matches_at(b, nl, j));
        if nl.len() > 0 && matches_at(b, nl, j) {
            lemma_indent_shift(a, b, nl, n, j + nl.len(), true);
        } else {
            lemma_indent_shift(a, b, nl, n, j + 1, false);
        }
    }
}

/// Two texts in a row are written line by line as the first, and then the
/// second from where the first leaves off.
pub proof fn lemma_indent_concat(
    a: Seq<char>,
    b: Seq<char>,
    newline: Newline,
    n: nat,
    i: int,
    pending: bool,
)
    requires
        0 <= i <= a.len(),
        ends_whole(a, newline),
    ensures
        indent_from(a + b, newline.chars(), n, i, pending) == indent_from(
            a,
            newline.chars(),
            n,
            i,
            pending,
        ) + indent_from(b, newline.chars(), n, 0, pending_from(a, newline.chars(), i, pending)),
        pending_from(a + b, newline.chars(), i, pending) == pending_from(
            b,
            newline.chars(),
            0,
            pending_from(a, newline.chars(), i, pending),
        ),
    decreases a.len() - i,
{
    let nl = newline.chars();
    let s = a + b;
    if i == a.len() {
        lemma_indent_shift(a, b, nl, n, 0, pending);
        assert(Seq::<char>::empty() + indent_from(b, nl, n, 0, pending) =~= indent_from(
            b,
            nl,
            n,
            0,
            pending,
        ));
    } else {
        assert(s[i] == a[i]);
        if i + nl.len() <= a.len() {
            assert(s.subrange(i, i + nl.len()) =~= a.subrange(i, i + nl.len()));
        } else if matches_at(s, nl, i) {
            assert(s.subrange(i, i + nl.len())[0] == nl[0]);
            assert(a.last() == a[i]);
        }
        assert(matches_at(s, nl, i) == matches_at(a, nl, i));
        if matches_at(a, nl, i) {
            lemma_indent_concat(a, b, newline, n, i + nl.len(), true);
            let rest = indent_from(a, nl, n, i + nl.len(), true);
            let more = indent_from(b, nl, n, 0, pending_from(a, nl, i, pending));
            assert(lead(n, pending) + nl + (rest + more) =~= (lead(n, pending) + nl + rest) + more);
        } else {
            lemma_indent_concat(a, b, newline, n, i + 1, false);
            let rest = indent_from(a, nl, n, i + 1, false);
            let more = indent_from(b, nl, n, 0, pending_from(a, nl, i, pending));
            assert(lead(n, pending) + seq![a[i]] + (rest + more) =~= (lead(n, pending) + seq![
                a[i],
            ] + rest) + more);
        }
    }
}

/// A value within one line is written after the indentation that its line
/// owes, and leaves off within the line.
proof fn lemma_value_lines(s: Seq<char>, newline: Newline, n: nat, i: int, pending: bool)
    requires
        on_one_line(s, newline),
        0 <= i < s.len(),
    ensures
        indent_from(s, newline.chars(), n, i, pending) == lead(n, pending) + s.skip(i),
        !pending_from(s, newline.chars(), i, pending),
    decreases s.len() - i,
{
    let nl = newline.chars();
    assert(!matches_at(s, nl, i));
    if i + 1 < s.len() {
        lemma_value_lines(s, newline, n, i + 1, false);
        assert(lead(n, pending) + seq![s[i]] + (lead(n, false) + s.skip(i + 1)) =~= lead(
            n,
            pending,
        ) + s.skip(i));
    } else {
        assert(indent_from(s, nl, n, i + 1, false) == Seq::<char>::empty());
        assert(!pending_from(s, nl, i + 1, false));
        assert(lead(n, pending) + seq![s[i]] + Seq::<char>::empty() =~= lead(n, pending) + s.skip(
            i,
        ));
    }
}

/// What a result holds at an indentation, given what it holds without one.
pub open spec fn by_lines(
    flat: Result<Seq<char>, RibboncurlsError>,
    env: RenderEnv,
    pending: bool,
) -> Result<Seq<char>, RibboncurlsError> {
    match flat {
        Ok(s) => Ok(indent_from(s, env.newline.chars(), env.indent as nat, 0, pending)),
        Err(e) => Err(e),
    }
}

/// A result without indentation is there, ends with a whole line
/// terminator where it ends with one, and says where the indented output
/// leaves off.
pub open spec fn leaves_off(
    flat: Result<Seq<char>, RibboncurlsError>,
    env: RenderEnv,
    pending: bool,
    after: bool,
) -> bool {
    match flat {
        Ok(s) => ends_whole(s, env.newline) && after == pending_from(
            s,
            env.newline.chars(),
            0,
            pending,
        ),
        Err(_) => false,
    }
}

/// Two results in a row, by lines.
proof fn lemma_join_lines(
    x: Result<Seq<char>, RibboncurlsError>,
    y: Result<Seq<char>, RibboncurlsError>,
    env: RenderEnv,
    pending: bool,
    mid: bool,
    after: bool,
)
    requires
        leaves_off(x, env, pending, mid),
        leaves_off(y, env, mid, after),
    ensures
        by_lines(join(x, y), env, pending) == join(
            by_lines(x, env, pending),
            by_lines(y, env, mid),
        ),
        leaves_off(join(x, y), env, pending, after),
{
    let a = x->Ok_0;
    let b = y->Ok_0;
    lemma_indent_concat(a, b, env.newline, env.indent as nat, 0, pending);
    if b.len() == 0 {
        assert(a + b =~= a);
    } else {
        assert((a + b).last() == b.last());
    }
}

/// Such a node adds, at an indentation, what it adds without one, line by
/// line.
pub proof fn lemma_node_lines(node: Node, env: RenderEnv, pending: bool)
    requires
        line_node(node, env),
        env.indent > 0,
    ensures
        render_node_spec(node, env, pending) == by_lines(
            render_node_spec(node, flat_env(env), false),
            env,
            pending,
        ),
        leaves_off(
            render_node_spec(node, flat_env(env), false),
            env,
            pending,
            after_node(node, env, pending),
        ),
    decreases node, 0nat, 0nat,
{
    let flat = flat_env(env);
    match node {
        Node::Section { name, inverted, children, .. } => {
            let value = resolve(env.stack, env.path.push(name), name);
            let inner = section_env(env, name);
            assert(section_env(flat, name) == flat_env(inner));
            if inverted {
                if value is None || falsy(value->0) {
                    lemma_nodes_lines(children, 0, inner, pending);
                }
            } else {
                match value {
                    None => {},
                    Some(DataView::List(items)) => {
                        lemma_each_lines(children, items, 0, inner, pending);
                    },
                    Some(v) => {
                        if !falsy(v) {
                            lemma_nodes_lines(children, 0, inner, pending);
                        }
                    },
                }
            }
        },
        Node::Variable { name, escaped: escape } => {
            let v = resolve(env.stack, env.path, name)->0;
            let s = written(v, escape);
            lemma_value_lines(s, env.newline, env.indent as nat, 0, pending);
            assert(s.skip(0) =~= s);
        },
        _ => {},
    }
}

/// The same of a forest, from index `i` on.
pub proof fn lemma_nodes_lines(nodes: Seq<Node>, i: int, env: RenderEnv, pending: bool)
    requires
        line_forest(nodes, env),
        env.indent > 0,
    ensures
        render_nodes_spec(nodes, i, env, pending) == by_lines(
            render_nodes_spec(nodes, i, flat_env(env), false),
            env,
            pending,
        ),
        leaves_off(
            render_nodes_spec(nodes, i, flat_env(env), false),
            env,
            pending,
            after_nodes(nodes, i, env, pending),
        ),
    decreases nodes, 0nat, nodes.len() - i,
{
    let flat = flat_env(env);
    if 0 <= i < nodes.len() {
        let mid = after_node(nodes[i], env, pending);
        lemma_node_lines(nodes[i], env, pending);
        lemma_nodes_lines(nodes, i + 1, env, mid);
        lemma_join_lines(
            render_node_spec(nodes[i], flat, false),
            render_nodes_spec(nodes, i + 1, flat, false),
            env,
            pending,
            mid,
            after_nodes(nodes, i, env, pending),
        );
    }
}

/// The same of the children of a section, once for each element from index
/// `j` on.
pub proof fn lemma_each_lines(
    children: Seq<Node>,
    items: Seq<DataView>,
    j: int,
    env: RenderEnv,
    pending: bool,
)
    requires
        forall|k: int|
            0 <= k < items.len() ==> line_forest(children, frame_env(env, #[trigger] items[k])),
        env.indent > 0,
    ensures
        render_each_spec(children, items, j, env, pending) == by_lines(
            render_each_spec(children, items, j, flat_env(env), false),
            env,
            pending,
        ),
        leaves_off(
            render_each_spec(children, items, j, flat_env(env), false),
            env,
            pending,
            after_each(children, items, j, env, pending),
        ),
    decreases children, 1nat, items.len() - j,
{
    let flat = flat_env(env);
    if 0 <= j < items.len() {
        let inner = frame_env(env, items[j]);
        assert(frame_env(flat, items[j]) == flat_env(inner));
        let mid = after_nodes(children, 0, inner, pending);
        lemma_nodes_lines(children, 0, inner, pending);
        lemma_after_flat(children, 0, flat_env(inner), false);
        lemma_each_lines(children, items, j + 1, env, mid);
        lemma_join_lines(
            render_nodes_spec(children, 0, flat_env(inner), false),
            render_each_spec(children, items, j + 1, flat, false),
            env,
            pending,
            mid,
            after_each(children, items, j, env, pending),
        );
    }
}

/// Partial indentation, by lines.
///
/// Take a partial in whose expansion no other partial is reached and every
/// value that is written stands within one line. Where the partial stands
/// at an indentation, it adds what it adds where it stands at none, with the
/// indentation before each line: before the first, and after every line
/// break but one that ends the expansion.
pub proof fn lemma_partial_lines(
    name: Seq<char>,
    indent: u8,
    standalone: bool,
    env: RenderEnv,
    pending: bool,
    text: Seq<char>,
    forest: Seq<Node>,
)
    requires
        indent > 0,
        env.depth > 0,
        partial_template(env.partials, name) == Some(text),
        template_forest(text, env.newline) == Ok::<Seq<Node>, RibboncurlsError>(forest),
        line_forest(forest, partial_env(env, indent)),
    ensures
        render_nodes_spec(forest, 0, partial_env(env, 0), false) is Ok,
        render_node_spec(Node::Partial { name, indent, standalone }, env, pending) == Ok::<
            Seq<char>,
            RibboncurlsError,
        >(
            indent_from(
                render_nodes_spec(forest, 0, partial_env(env, 0), false)->Ok_0,
                env.newline.chars(),
                indent as nat,
                0,
                true,
            ),
        ),
{
    let inner = partial_env(env, indent);
    assert(flat_env(inner) == partial_env(env, 0));
    lemma_nodes_lines(forest, 0, inner, true);
}

} // verus!
