//! The renderer: a syntax tree, walked with a stack of data frames.
use crate::error::RibboncurlsError;
use crate::syntax_tree::{
    create_syntax_tree, lemma_section_view, node_views, tree_spec, Node, SyntaxCtx, SyntaxItem,
};
use crate::text::{chars_of, matches_at, spaces, starts_with_at};
use crate::token::{initial_state, name_views, tokenize, tokenize_spec, TokenCtx};
use crate::utils::{escape_html, escaped, get_newline_variant, newline_variant, Newline};
use crate::value::{
    data_get, dot, falsy, is_value_falsy, lemma_sequence_view, lookup_value, resolve, stack_views,
    to_text, value_to_string, Data, DataView,
};
use crate::yaml::{load_document, yaml_document};
use vstd::prelude::*;

verus! {

/// How deep partials may include one another.
pub const MAX_PARTIAL_DEPTH: usize = 128;

/// What a render carries along: the frames that names are resolved against,
/// the sections that are open, the partials, and the layout of the partial
/// being expanded.
pub struct RenderCtx<'a> {
    /// The data frames, the root first and the innermost last.
    pub data_stack: Vec<&'a Data>,
    /// A mapping from the name of a partial to its template.
    pub partials: &'a Data,
    /// The names of the sections that are open, innermost last.
    pub section_path: Vec<String>,
    /// The line terminator of the template.
    pub newline: Newline,
    /// The indentation of the partial being expanded, written before every
    /// line of it; 0 outside partials.
    pub indent: u8,
    /// How many more partials may nest inside the current one.
    pub depth: usize,
}

/// The mathematical model of a [`RenderCtx`].
pub struct RenderEnv {
    pub stack: Seq<DataView>,
    pub path: Seq<Seq<char>>,
    pub partials: DataView,
    pub newline: Newline,
    pub indent: u8,
    pub depth: nat,
}

impl<'a> View for RenderCtx<'a> {
    type V = RenderEnv;

    open spec fn view(&self) -> RenderEnv {
        RenderEnv {
            stack: stack_views(self.data_stack@),
            path: name_views(self.section_path@),
            partials: self.partials@,
            newline: self.newline,
            indent: self.indent,
            depth: self.depth as nat,
        }
    }
}

/// The indentation that is still to be written at the start of a line.
pub open spec fn lead(n: nat, pending: bool) -> Seq<char> {
    if pending {
        spaces(n)
    } else {
        Seq::empty()
    }
}

/// `s` from index `i` on, written line by line with an indentation of `n`
/// spaces: the spaces stand before the first character of every line, a line
/// break that ends an empty line included. `pending` says that the text
/// begins at the start of a line whose indentation is not written yet. A
/// line break that ends the text is followed by nothing.
pub open spec fn indent_from(s: Seq<char>, nl: Seq<char>, n: nat, i: int, pending: bool) -> Seq<
    char,
>
    decreases s.len() - i,
{
    if i < 0 || i >= s.len() {
        Seq::empty()
    } else if nl.len() > 0 && matches_at(s, nl, i) {
        lead(n, pending) + nl + indent_from(s, nl, n, i + nl.len(), true)
    } else {
        lead(n, pending) + seq![s[i]] + indent_from(s, nl, n, i + 1, false)
    }
}

/// Whether `s` from index `i` on leaves off at the start of a line: it ends
/// with a line break, or is empty and began at one.
pub open spec fn pending_from(s: Seq<char>, nl: Seq<char>, i: int, pending: bool) -> bool
    decreases s.len() - i,
{
    if i < 0 || i >= s.len() {
        pending
    } else if nl.len() > 0 && matches_at(s, nl, i) {
        pending_from(s, nl, i + nl.len(), true)
    } else {
        pending_from(s, nl, i + 1, false)
    }
}

/// The indentation that a context still owes the current line.
pub open spec fn owed_indent(env: RenderEnv, pending: bool) -> Seq<char> {
    lead(env.indent as nat, env.indent > 0 && pending)
}

/// What a text node adds to the output: itself, and inside an indented
/// partial the indentation before each of its lines.
pub open spec fn render_text_spec(s: Seq<char>, env: RenderEnv, pending: bool) -> Seq<char> {
    if env.indent > 0 {
        indent_from(s, env.newline.chars(), env.indent as nat, 0, pending)
    } else {
        s
    }
}

/// The template of the partial `name`: the text that the partials hold under
/// that name.
pub open spec fn partial_template(partials: DataView, name: Seq<char>) -> Option<Seq<char>> {
    match data_get(partials, name) {
        Some(DataView::Text(template)) => Some(template),
        _ => None,
    }
}

/// The forest of a template that starts with the delimiters `{{` and `}}`.
pub open spec fn template_forest(t: Seq<char>, newline: Newline) -> Result<
    Seq<Node>,
    RibboncurlsError,
> {
    match tokenize_spec(t, initial_state(newline)) {
        Err(e) => Err(e),
        Ok((tokens, _)) => tree_spec(tokens, newline.chars()),
    }
}

/// Two pieces of output in a row; the first error wins.
pub open spec fn join(
    a: Result<Seq<char>, RibboncurlsError>,
    b: Result<Seq<char>, RibboncurlsError>,
) -> Result<Seq<char>, RibboncurlsError> {
    match a {
        Err(e) => Err(e),
        Ok(x) => match b {
            Err(e) => Err(e),
            Ok(y) => Ok(x + y),
        },
    }
}

/// The context inside a section named `name`: the name is on the path, and
/// the value it resolves to is a frame where it is a mapping.
pub open spec fn section_env(env: RenderEnv, name: Seq<char>) -> RenderEnv {
    let path = env.path.push(name);
    let stack = match resolve(env.stack, path, name) {
        Some(DataView::Dict(entries)) => env.stack.push(DataView::Dict(entries)),
        _ => env.stack,
    };
    RenderEnv { stack, path, ..env }
}

/// The context with one more frame.
pub open spec fn frame_env(env: RenderEnv, frame: DataView) -> RenderEnv {
    RenderEnv { stack: env.stack.push(frame), ..env }
}

/// The context inside a partial that stands at indentation `indent`.
pub open spec fn partial_env(env: RenderEnv, indent: u8) -> RenderEnv {
    RenderEnv { indent, depth: (env.depth - 1) as nat, ..env }
}

/// What one node adds to the output.
///
/// `pending` says that the output stands at the start of a line whose
/// indentation is not written yet; it matters inside an indented partial
/// only. A text writes the indentation before each of its lines. A variable
/// writes it before its value, which is written as it is. A partial that is
/// indented itself writes its own lines with its own indentation; one that
/// is not is written like a variable. Comments and changes of delimiters
/// write nothing, and the children of a section go on where the section
/// stands.
pub open spec fn render_node_spec(node: Node, env: RenderEnv, pending: bool) -> Result<
    Seq<char>,
    RibboncurlsError,
>
    decreases env.depth, node, 0nat, 0nat,
{
    match node {
        Node::Text(s) => Ok(render_text_spec(s, env, pending)),
        Node::Variable { name, escaped: escape } => match resolve(env.stack, env.path, name) {
            None => Ok(owed_indent(env, pending)),
            Some(v) => Ok(
                owed_indent(env, pending) + if escape {
                    escaped(to_text(v))
                } else {
                    to_text(v)
                },
            ),
        },
        Node::Comment { .. } => Ok(Seq::empty()),
        Node::Delimiter { .. } => Ok(Seq::empty()),
        Node::Partial { name, indent, .. } => match partial_template(env.partials, name) {
            None => Ok(Seq::empty()),
            Some(template) => if env.depth == 0 {
                Err(RibboncurlsError::PartialDepth)
            } else {
                match template_forest(template, env.newline) {
                    Err(e) => Err(e),
                    Ok(forest) => if indent > 0 {
                        render_nodes_spec(forest, 0, partial_env(env, indent), true)
                    } else {
                        join(
                            Ok(owed_indent(env, pending)),
                            render_nodes_spec(forest, 0, partial_env(env, indent), false),
                        )
                    },
                }
            },
        },
        Node::Section { name, inverted, children, .. } => {
            let value = resolve(env.stack, env.path.push(name), name);
            let inner = section_env(env, name);
            if inverted {
                if value is None || falsy(value->0) {
                    render_nodes_spec(children, 0, inner, pending)
                } else {
                    Ok(Seq::empty())
                }
            } else {
                match value {
                    None => Ok(Seq::empty()),
                    Some(DataView::List(items)) => render_each_spec(
                        children,
                        items,
                        0,
                        inner,
                        pending,
                    ),
                    Some(v) => if falsy(v) {
                        Ok(Seq::empty())
                    } else {
                        render_nodes_spec(children, 0, inner, pending)
                    },
                }
            }
        },
    }
}

/// Whether the output stands at the start of a line, its indentation not
/// written yet, after a node. Outside an indented partial it never does.
pub open spec fn after_node(node: Node, env: RenderEnv, pending: bool) -> bool
    decreases env.depth, node, 0nat, 0nat,
{
    if env.indent == 0 {
        false
    } else {
        match node {
            Node::Text(s) => pending_from(s, env.newline.chars(), 0, pending),
            Node::Variable { .. } => false,
            Node::Comment { .. } => pending,
            Node::Delimiter { .. } => pending,
            Node::Partial { name, indent, .. } => match partial_template(env.partials, name) {
                None => pending,
                Some(template) => if env.depth == 0 {
                    pending
                } else {
                    match template_forest(template, env.newline) {
                        Err(_) => pending,
                        Ok(forest) => if indent > 0 {
                            after_nodes(forest, 0, partial_env(env, indent), true)
                        } else {
                            false
                        },
                    }
                },
            },
            Node::Section { name, inverted, children, .. } => {
                let value = resolve(env.stack, env.path.push(name), name);
                let inner = section_env(env, name);
                if inverted {
                    if value is None || falsy(value->0) {
                        after_nodes(children, 0, inner, pending)
                    } else {
                        pending
                    }
                } else {
                    match value {
                        None => pending,
                        Some(DataView::List(items)) => after_each(
                            children,
                            items,
                            0,
                            inner,
                            pending,
                        ),
                        Some(v) => if falsy(v) {
                            pending
                        } else {
                            after_nodes(children, 0, inner, pending)
                        },
                    }
                }
            },
        }
    }
}

/// What the nodes from index `i` on add to the output, one after another.
pub open spec fn render_nodes_spec(
    nodes: Seq<Node>,
    i: int,
    env: RenderEnv,
    pending: bool,
) -> Result<Seq<char>, RibboncurlsError>
    decreases env.depth, nodes, 0nat, nodes.len() - i,
{
    if i < 0 || i >= nodes.len() {
        Ok(Seq::empty())
    } else {
        join(
            render_node_spec(nodes[i], env, pending),
            render_nodes_spec(nodes, i + 1, env, after_node(nodes[i], env, pending)),
        )
    }
}

/// Whether the output stands at the start of a line after the nodes from
/// index `i` on.
pub open spec fn after_nodes(nodes: Seq<Node>, i: int, env: RenderEnv, pending: bool) -> bool
    decreases env.depth, nodes, 0nat, nodes.len() - i,
{
    if i < 0 || i >= nodes.len() {
        env.indent > 0 && pending
    } else {
        after_nodes(nodes, i + 1, env, after_node(nodes[i], env, pending))
    }
}

/// What a section adds for the elements from index `j` on of the sequence it
/// iterates over: its children once for each, with the element as a frame.
pub open spec fn render_each_spec(
    children: Seq<Node>,
    items: Seq<DataView>,
    j: int,
    env: RenderEnv,
    pending: bool,
) -> Result<Seq<char>, RibboncurlsError>
    decreases env.depth, children, 1nat, items.len() - j,
{
    if j < 0 || j >= items.len() {
        Ok(Seq::empty())
    } else {
        join(
            render_nodes_spec(children, 0, frame_env(env, items[j]), pending),
            render_each_spec(
                children,
                items,
                j + 1,
                env,
                after_nodes(children, 0, frame_env(env, items[j]), pending),
            ),
        )
    }
}

/// Whether the output stands at the start of a line after the elements from
/// index `j` on.
pub open spec fn after_each(
    children: Seq<Node>,
    items: Seq<DataView>,
    j: int,
    env: RenderEnv,
    pending: bool,
) -> bool
    decreases env.depth, children, 1nat, items.len() - j,
{
    if j < 0 || j >= items.len() {
        env.indent > 0 && pending
    } else {
        after_each(
            children,
            items,
            j + 1,
            env,
            after_nodes(children, 0, frame_env(env, items[j]), pending),
        )
    }
}

/// The context a render starts in: the data as the only frame, no section
/// open, no indentation.
pub open spec fn root_env(data: DataView, partials: DataView, newline: Newline) -> RenderEnv {
    RenderEnv {
        stack: seq![data],
        path: Seq::empty(),
        partials,
        newline,
        indent: 0,
        depth: MAX_PARTIAL_DEPTH as nat,
    }
}

/// The output of a forest in the context a render starts in.
pub open spec fn render_tree_spec(
    forest: Seq<Node>,
    data: DataView,
    partials: DataView,
    newline: Newline,
) -> Result<Seq<char>, RibboncurlsError> {
    render_nodes_spec(forest, 0, root_env(data, partials, newline), false)
}

/// The output of a template for given data and partials, or the first error.
pub open spec fn render_spec(t: Seq<char>, data: DataView, partials: DataView) -> Result<
    Seq<char>,
    RibboncurlsError,
> {
    match template_forest(t, newline_variant(t)) {
        Err(e) => Err(e),
        Ok(forest) => render_tree_spec(forest, data, partials, newline_variant(t)),
    }
}

/// An executable result says what a specified one does.
pub open spec fn agrees(
    r: Result<String, RibboncurlsError>,
    expected: Result<Seq<char>, RibboncurlsError>,
) -> bool {
    match r {
        Ok(s) => expected == Ok::<Seq<char>, RibboncurlsError>(s@),
        Err(e) => expected == Err::<Seq<char>, RibboncurlsError>(e),
    }
}

/// An executable result, with the place in the line it leaves off at, says
/// what the specified ones do.
pub open spec fn agrees_lines(
    r: Result<(String, bool), RibboncurlsError>,
    expected: Result<Seq<char>, RibboncurlsError>,
    after: bool,
) -> bool {
    match r {
        Ok((s, pending)) => expected == Ok::<Seq<char>, RibboncurlsError>(s@) && pending
            == after,
        Err(e) => expected == Err::<Seq<char>, RibboncurlsError>(e),
    }
}

/// The models of a sequence of data values.
pub open spec fn data_views(items: Seq<Data>) -> Seq<DataView> {
    Seq::new(items.len(), |i: int| items[i]@)
}

proof fn lemma_join_step(
    out: Seq<char>,
    piece: Result<Seq<char>, RibboncurlsError>,
    rest: Result<Seq<char>, RibboncurlsError>,
)
    ensures
        join(Ok(out), join(piece, rest)) == match piece {
            Err(e) => Err(e),
            Ok(s) => join(Ok(out + s), rest),
        },
{
    match piece {
        Err(e) => {},
        Ok(s) => match rest {
            Err(e) => {},
            Ok(t) => {
                assert(out + (s + t) =~= (out + s) + t);
            },
        },
    }
}

proof fn lemma_join_empty(rest: Result<Seq<char>, RibboncurlsError>)
    ensures
        join(Ok(Seq::empty()), rest) == rest,
{
    match rest {
        Err(e) => {},
        Ok(t) => {
            assert(Seq::<char>::empty() + t =~= t);
        },
    }
}

fn push_spaces(out: &mut String, n: u8)
    ensures
        final(out)@ == old(out)@ + spaces(n as nat),
{
    let mut k: u8 = 0;
    assert(out@ + spaces(0) =~= out@);
    while k < n
        invariant
            k <= n,
            out@ == old(out)@ + spaces(k as nat),
        decreases n - k,
    {
        out.push(' ');
        assert(spaces(k as nat).push(' ') =~= spaces((k + 1) as nat));
        assert(out@ =~= old(out)@ + spaces((k + 1) as nat));
        k += 1;
    }
}

/// The indentation that the context still owes the current line.
fn owed(ctx: &RenderCtx, pending: bool) -> (out: String)
    ensures
        out@ == owed_indent(ctx@, pending),
{
    let mut out = String::new();
    if ctx.indent > 0 && pending {
        push_spaces(&mut out, ctx.indent);
        assert(out@ =~= spaces(ctx.indent as nat));
    }
    out
}

/// What a text node adds to the output, and whether it leaves off at the
/// start of a line.
fn render_text(content: &str, ctx: &RenderCtx, pending: bool) -> (r: (String, bool))
    ensures
        r.0@ == render_text_spec(content@, ctx@, pending),
        r.1 == after_node(Node::Text(content@), ctx@, pending),
{
    if ctx.indent == 0 {
        return (content.to_owned(), false);
    }
    let chars = chars_of(content);
    let nl = ctx.newline.to_chars();
    let ghost n = ctx.indent as nat;
    let mut out = String::new();
    let mut at_start = pending;
    let mut i: usize = 0;
    assert(Seq::<char>::empty() + indent_from(chars@, nl@, n, 0, pending) =~= indent_from(
        chars@,
        nl@,
        n,
        0,
        pending,
    ));
    while i < chars.len()
        invariant
            i <= chars.len(),
            nl@ == ctx.newline.chars(),
            n == ctx.indent as nat,
            indent_from(chars@, nl@, n, 0, pending) == out@ + indent_from(
                chars@,
                nl@,
                n,
                i as int,
                at_start,
            ),
            pending_from(chars@, nl@, 0, pending) == pending_from(chars@, nl@, i as int, at_start),
        decreases chars.len() - i,
    {
        let ghost before = out@;
        if at_start {
            push_spaces(&mut out, ctx.indent);
        }
        assert(out@ =~= before + lead(n, at_start));
        if starts_with_at(&chars, &nl, i) {
            out.append(ctx.newline.as_str());
            assert(before + (lead(n, at_start) + nl@ + indent_from(
                chars@,
                nl@,
                n,
                i + nl@.len(),
                true,
            )) =~= (before + lead(n, at_start) + nl@) + indent_from(
                chars@,
                nl@,
                n,
                i + nl@.len(),
                true,
            ));
            at_start = true;
            i += nl.len();
        } else {
            out.push(chars[i]);
            assert(before + (lead(n, at_start) + seq![chars@[i as int]] + indent_from(
                chars@,
                nl@,
                n,
                i + 1,
                false,
            )) =~= (before + lead(n, at_start)).push(chars@[i as int]) + indent_from(
                chars@,
                nl@,
                n,
                i + 1,
                false,
            ));
            at_start = false;
            i += 1;
        }
    }
    assert(out@ + Seq::<char>::empty() =~= out@);
    (out, at_start)
}

/// Resolves a name in a context: `.` to the current element, any other name
/// through the frames.
pub fn get_value_from_context<'a>(ctx: &RenderCtx<'a>, path: &str) -> (r: Option<&'a Data>)
    ensures
        match r {
            Some(v) => resolve(ctx@.stack, ctx@.path, path@) == Some(v@),
            None => resolve(ctx@.stack, ctx@.path, path@) is None,
        },
{
    let chars = chars_of(path);
    if chars.len() == 0 {
        return None;
    }
    if chars.len() == 1 && chars[0] == '.' {
        assert(chars@ =~= dot());
        let frames = ctx.data_stack.len();
        if frames == 0 {
            return None;
        }
        let top: &'a Data = ctx.data_stack[frames - 1];
        let open = ctx.section_path.len();
        if open > 0 {
            match top.get(ctx.section_path[open - 1].as_str()) {
                Some(v) => Some(v),
                None => Some(top),
            }
        } else {
            Some(top)
        }
    } else {
        assert(chars@ != dot()) by {
            if chars@.len() == 1 {
                assert(chars@[0] != dot()[0]);
            }
        }
        lookup_value(path, &ctx.data_stack)
    }
}

/// What one node adds to the output, and whether it leaves off at the start
/// of a line. The context is handed back as it was received, also where the
/// node fails.
pub fn render_node<'a>(node: &SyntaxItem, ctx: &mut RenderCtx<'a>, pending: bool) -> (r: Result<
    (String, bool),
    RibboncurlsError,
>)
    ensures
        final(ctx)@ == old(ctx)@,
        agrees_lines(
            r,
            render_node_spec(node@, old(ctx)@, pending),
            after_node(node@, old(ctx)@, pending),
        ),
        old(ctx).indent == 0 ==> (r matches Ok((_, after)) ==> !after),
    decreases old(ctx).depth, node, 0nat, 0nat,
{
    let ghost env = ctx@;
    match node {
        SyntaxItem::Text(content) => {
            let piece = render_text(content.as_str(), ctx, pending);
            assert(node@ == Node::Text(content@));
            Ok(piece)
        },
        SyntaxItem::Variable { name, escaped } => {
            let mut out = owed(ctx, pending);
            match get_value_from_context(ctx, name.as_str()) {
                None => {},
                Some(value) => {
                    let text = value_to_string(value);
                    if *escaped {
                        out.append(escape_html(text.as_str()).as_str());
                    } else {
                        out.append(text.as_str());
                    }
                },
            }
            assert(node@ == Node::Variable { name: name@, escaped: *escaped });
            assert(after_node(node@, env, pending) == false);
            Ok((out, false))
        },
        SyntaxItem::Comment { .. } => Ok((String::new(), ctx.indent > 0 && pending)),
        SyntaxItem::Delimiter { .. } => Ok((String::new(), ctx.indent > 0 && pending)),
        SyntaxItem::Partial { name, indent, .. } => {
            match ctx.partials.get(name.as_str()) {
                Some(Data::Text(template)) => {
                    if ctx.depth == 0 {
                        return Err(RibboncurlsError::PartialDepth);
                    }
                    match parse_template(template.as_str(), ctx.newline) {
                        Err(e) => Err(e),
                        Ok(tree) => {
                            let mut out = if *indent > 0 {
                                String::new()
                            } else {
                                owed(ctx, pending)
                            };
                            let outer = ctx.indent;
                            ctx.indent = *indent;
                            ctx.depth = ctx.depth - 1;
                            assert(ctx@ == partial_env(env, *indent));
                            let body = render_forest(&tree, ctx, *indent > 0);
                            ctx.indent = outer;
                            ctx.depth = ctx.depth + 1;
                            assert(ctx@ == env);
                            proof {
                                lemma_join_empty(
                                    render_nodes_spec(
                                        node_views(tree@),
                                        0,
                                        partial_env(env, *indent),
                                        true,
                                    ),
                                );
                            }
                            match body {
                                Err(e) => Err(e),
                                Ok((text, at_start)) => {
                                    let ghost before = out@;
                                    out.append(text.as_str());
                                    assert(*indent > 0 ==> out@ =~= text@) by {
                                        assert(Seq::<char>::empty() + text@ =~= text@);
                                    }
                                    assert(*indent == 0 ==> out@ == owed_indent(env, pending)
                                        + text@);
                                    Ok((out, outer > 0 && *indent > 0 && at_start))
                                },
                            }
                        },
                    }
                },
                Some(_) => Ok((String::new(), ctx.indent > 0 && pending)),
                None => Ok((String::new(), ctx.indent > 0 && pending)),
            }
        },
        SyntaxItem::Section { name, inverted, children, .. } => {
            proof {
                lemma_section_view(*node);
            }
            ctx.section_path.push(name.clone());
            assert(ctx@.path =~= env.path.push(name@));
            let value = get_value_from_context(ctx, name.as_str());
            let mut framed = false;
            match value {
                Some(v) => match v {
                    Data::Mapping(_) => {
                        ctx.data_stack.push(v);
                        framed = true;
                        assert(ctx@.stack =~= env.stack.push(v@));
                    },
                    _ => {},
                },
                None => {},
            }
            assert(ctx@ == section_env(env, name@));
            let skipped = Ok((String::new(), ctx.indent > 0 && pending));
            let result = if *inverted {
                let run = match value {
                    None => true,
                    Some(v) => is_value_falsy(v),
                };
                if run {
                    render_forest(children, ctx, pending)
                } else {
                    skipped
                }
            } else {
                match value {
                    None => skipped,
                    Some(v) => match v {
                        Data::Sequence(items) => {
                            proof {
                                lemma_sequence_view(*v);
                                assert(v@->List_0 =~= data_views(items@));
                            }
                            render_each(children, items, ctx, pending)
                        },
                        _ => {
                            if is_value_falsy(v) {
                                skipped
                            } else {
                                render_forest(children, ctx, pending)
                            }
                        },
                    },
                }
            };
            let ghost inner = ctx@;
            assert(inner == section_env(env, name@));
            if framed {
                ctx.data_stack.pop();
                assert(ctx@.stack =~= inner.stack.drop_last());
            }
            ctx.section_path.pop();
            assert(ctx@.path =~= inner.path.drop_last());
            assert(inner.path.drop_last() =~= env.path);
            assert(ctx@.stack =~= env.stack);
            result
        },
    }
}

/// The output of the nodes of a forest in a row, and whether it leaves off
/// at the start of a line. The context is handed back as it was received.
pub fn render_forest<'a>(
    nodes: &Vec<SyntaxItem>,
    ctx: &mut RenderCtx<'a>,
    pending: bool,
) -> (r: Result<(String, bool), RibboncurlsError>)
    ensures
        final(ctx)@ == old(ctx)@,
        agrees_lines(
            r,
            render_nodes_spec(node_views(nodes@), 0, old(ctx)@, pending),
            after_nodes(node_views(nodes@), 0, old(ctx)@, pending),
        ),
        old(ctx).indent == 0 ==> (r matches Ok((_, after)) ==> !after),
    decreases old(ctx).depth, nodes, 0nat, nodes.len(),
{
    let ghost env = ctx@;
    let ghost views = node_views(nodes@);
    let mut out = String::new();
    let mut at_start = pending;
    let mut i: usize = 0;
    proof {
        lemma_join_empty(render_nodes_spec(views, 0, env, pending));
    }
    while i < nodes.len()
        invariant
            i <= nodes.len(),
            ctx@ == env,
            env == old(ctx)@,
            views == node_views(nodes@),
            render_nodes_spec(views, 0, env, pending) == join(
                Ok(out@),
                render_nodes_spec(views, i as int, env, at_start),
            ),
            after_nodes(views, 0, env, pending) == after_nodes(views, i as int, env, at_start),
        decreases nodes.len() - i,
    {
        let piece = render_node(&nodes[i], ctx, at_start);
        proof {
            lemma_join_step(
                out@,
                render_node_spec(views[i as int], env, at_start),
                render_nodes_spec(
                    views,
                    i + 1,
                    env,
                    after_node(views[i as int], env, at_start),
                ),
            );
        }
        match piece {
            Err(e) => {
                return Err(e);
            },
            Ok((text, next)) => {
                out.append(text.as_str());
                at_start = next;
            },
        }
        i += 1;
    }
    assert(out@ + Seq::<char>::empty() =~= out@);
    Ok((out, ctx.indent > 0 && at_start))
}

/// The output of a section that iterates over `items`: its children once for
/// each element, with the element as the innermost frame.
pub fn render_each<'a>(
    children: &Vec<SyntaxItem>,
    items: &'a Vec<Data>,
    ctx: &mut RenderCtx<'a>,
    pending: bool,
) -> (r: Result<(String, bool), RibboncurlsError>)
    ensures
        final(ctx)@ == old(ctx)@,
        agrees_lines(
            r,
            render_each_spec(node_views(children@), data_views(items@), 0, old(ctx)@, pending),
            after_each(node_views(children@), data_views(items@), 0, old(ctx)@, pending),
        ),
        old(ctx).indent == 0 ==> (r matches Ok((_, after)) ==> !after),
    decreases old(ctx).depth, children, 1nat, 0nat,
{
    let ghost env = ctx@;
    let ghost views = node_views(children@);
    let ghost models = data_views(items@);
    let mut out = String::new();
    let mut at_start = pending;
    let mut j: usize = 0;
    proof {
        lemma_join_empty(render_each_spec(views, models, 0, env, pending));
    }
    while j < items.len()
        invariant
            j <= items.len(),
            ctx@ == env,
            env == old(ctx)@,
            views == node_views(children@),
            models == data_views(items@),
            render_each_spec(views, models, 0, env, pending) == join(
                Ok(out@),
                render_each_spec(views, models, j as int, env, at_start),
            ),
            after_each(views, models, 0, env, pending) == after_each(
                views,
                models,
                j as int,
                env,
                at_start,
            ),
        decreases items.len() - j,
    {
        ctx.data_stack.push(&items[j]);
        assert(ctx@.stack =~= env.stack.push(models[j as int]));
        assert(ctx@ == frame_env(env, models[j as int]));
        let piece = render_forest(children, ctx, at_start);
        let ghost framed = ctx@.stack;
        ctx.data_stack.pop();
        assert(ctx@.stack =~= framed.drop_last());
        assert(framed.drop_last() =~= env.stack);
        proof {
            let inner = frame_env(env, models[j as int]);
            lemma_join_step(
                out@,
                render_nodes_spec(views, 0, inner, at_start),
                render_each_spec(
                    views,
                    models,
                    j + 1,
                    env,
                    after_nodes(views, 0, inner, at_start),
                ),
            );
        }
        match piece {
            Err(e) => {
                return Err(e);
            },
            Ok((text, next)) => {
                out.append(text.as_str());
                at_start = next;
            },
        }
        j += 1;
    }
    assert(out@ + Seq::<char>::empty() =~= out@);
    Ok((out, ctx.indent > 0 && at_start))
}

/// The forest of a template that starts with the delimiters `{{` and `}}`.
pub fn parse_template(template: &str, newline: Newline) -> (r: Result<
    Vec<SyntaxItem>,
    RibboncurlsError,
>)
    ensures
        match r {
            Ok(tree) => template_forest(template@, newline) == Ok::<_, RibboncurlsError>(
                node_views(tree@),
            ),
            Err(e) => template_forest(template@, newline) == Err::<Seq<Node>, _>(e),
        },
{
    let mut token_ctx = TokenCtx::new(newline);
    match tokenize(template, &mut token_ctx) {
        Err(e) => Err(e),
        Ok(tokens) => {
            let syntax_ctx = SyntaxCtx { newline };
            create_syntax_tree(tokens.as_slice(), &syntax_ctx)
        },
    }
}

/// Renders a forest in a context, which is handed back as it was received.
///
/// In a context that is indented the forest is rendered as that of a
/// partial: its output begins at the start of a line, every line of it is
/// indented, and a line break that ends it is followed by nothing.
pub fn render_syntax_tree<'a>(syntax_tree: &Vec<SyntaxItem>, ctx: &mut RenderCtx<'a>) -> (r: Result<
    String,
    RibboncurlsError,
>)
    ensures
        final(ctx)@ == old(ctx)@,
        agrees(
            r,
            render_nodes_spec(node_views(syntax_tree@), 0, old(ctx)@, old(ctx).indent > 0),
        ),
{
    let pending = ctx.indent > 0;
    match render_forest(syntax_tree, ctx, pending) {
        Ok((out, _)) => Ok(out),
        Err(e) => Err(e),
    }
}

/// Renders a forest for given data and partials.
pub fn render_tree(
    syntax_tree: &Vec<SyntaxItem>,
    data: &Data,
    partials: &Data,
    newline: Newline,
) -> (r: Result<String, RibboncurlsError>)
    ensures
        agrees(r, render_tree_spec(node_views(syntax_tree@), data@, partials@, newline)),
{
    let mut data_stack: Vec<&Data> = Vec::new();
    data_stack.push(data);
    let mut ctx = RenderCtx {
        data_stack,
        partials,
        section_path: Vec::new(),
        newline,
        indent: 0,
        depth: MAX_PARTIAL_DEPTH,
    };
    assert(ctx@.stack =~= seq![data@]);
    assert(ctx@.path =~= Seq::empty());
    match render_forest(syntax_tree, &mut ctx, false) {
        Ok((out, _)) => Ok(out),
        Err(e) => Err(e),
    }
}

/// Renders a template for given data and partials.
pub fn render_data(template: &str, data: &Data, partials: &Data) -> (r: Result<
    String,
    RibboncurlsError,
>)
    ensures
        agrees(r, render_spec(template@, data@, partials@)),
{
    let newline = get_newline_variant(template);
    match parse_template(template, newline) {
        Err(e) => Err(e),
        Ok(tree) => render_tree(&tree, data, partials, newline),
    }
}

/// The data that the text `data` stands for: the YAML document it holds, or,
/// where it holds none, the text itself.
pub open spec fn data_model(data: Seq<char>) -> DataView {
    match yaml_document(data) {
        Some(d) => d,
        None => DataView::Text(data),
    }
}

/// The partials that the text `partials` stands for: the YAML document it
/// holds; none at all where no text is given; `None` where the text is not
/// YAML.
pub open spec fn partials_model(partials: Option<&str>) -> Option<DataView> {
    match partials {
        None => Some(DataView::Null),
        Some(text) => yaml_document(text@),
    }
}

/// Renders a Mustache template.
///
/// `data` is a YAML or JSON document; text that is neither is taken as a
/// plain string. `partials`, where given, is a YAML mapping from the name of
/// a partial to its template.
///
/// A template that does not tokenize or nest fails with the tokenizer's or
/// the builder's error, whatever the partials are. Partials that are not YAML
/// fail with `YamlParseError`. Otherwise the result is that of rendering the
/// template's forest.
pub fn render(template: &str, data: &str, partials: Option<&str>) -> (r: Result<
    String,
    RibboncurlsError,
>)
    ensures
        match template_forest(template@, newline_variant(template@)) {
            Err(e) => r == Err::<String, _>(e),
            Ok(forest) => match partials_model(partials) {
                None => r matches Err(RibboncurlsError::YamlParseError(_)),
                Some(partials_data) => agrees(
                    r,
                    render_tree_spec(
                        forest,
                        data_model(data@),
                        partials_data,
                        newline_variant(template@),
                    ),
                ),
            },
        },
{
    let data_value = match load_document(data) {
        Ok(value) => value,
        Err(_) => Data::Text(data.to_owned()),
    };
    let newline = get_newline_variant(template);
    match parse_template(template, newline) {
        Err(e) => Err(e),
        Ok(tree) => {
            let partials_value = match partials {
                None => Data::Null,
                Some(text) => match load_document(text) {
                    Ok(value) => value,
                    Err(e) => {
                        return Err(e);
                    },
                },
            };
            render_tree(&tree, &data_value, &partials_value, newline)
        },
    }
}

} // verus!
