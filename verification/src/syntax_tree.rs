//! The syntax-tree builder: tokens to a forest with sections nested.
use crate::error::RibboncurlsError;
use crate::text::{
    all_hws, chars_of, count_trailing_hws, ends_with_newline_hws, starts_with_at,
    starts_with_newline, string_of, strip_leading_newline, strip_trailing_hws, sub_vec,
    text_all_hws, text_ends_with_newline_hws, text_starts_with_newline, trailing_hws,
};
use crate::token::{token_views, Token, TokenView};
use crate::utils::{get_next_item, get_prev_item, Newline};
use vstd::prelude::*;

verus! {

/// A node of the syntax tree.
#[derive(Debug, PartialEq, Eq)]
pub enum SyntaxItem {
    Text(String),
    /// A variable; `escaped` says whether its value is HTML-escaped.
    Variable { name: String, escaped: bool },
    /// A partial, with the indentation of its line where it stands alone.
    Partial { name: String, indent: u8, standalone: bool },
    Comment { standalone: bool },
    /// A change of delimiters: it has done its work in the tokenizer.
    Delimiter { standalone: bool },
    /// A section with its children; the two flags say whether its start tag
    /// and its end tag stand alone on their lines.
    Section {
        name: String,
        inverted: bool,
        children: Vec<SyntaxItem>,
        open_standalone: bool,
        close_standalone: bool,
    },
}

/// The mathematical model of a [`SyntaxItem`].
pub enum Node {
    Text(Seq<char>),
    Variable { name: Seq<char>, escaped: bool },
    Partial { name: Seq<char>, indent: u8, standalone: bool },
    Comment { standalone: bool },
    Delimiter { standalone: bool },
    Section {
        name: Seq<char>,
        inverted: bool,
        children: Seq<Node>,
        open_standalone: bool,
        close_standalone: bool,
    },
}

/// The model of a syntax item.
pub open spec fn node_of(item: SyntaxItem) -> Node
    decreases item,
{
    match item {
        SyntaxItem::Text(s) => Node::Text(s@),
        SyntaxItem::Variable { name, escaped } => Node::Variable { name: name@, escaped },
        SyntaxItem::Partial { name, indent, standalone } => Node::Partial {
            name: name@,
            indent,
            standalone,
        },
        SyntaxItem::Comment { standalone } => Node::Comment { standalone },
        SyntaxItem::Delimiter { standalone } => Node::Delimiter { standalone },
        SyntaxItem::Section { name, inverted, children, open_standalone, close_standalone } => {
            Node::Section {
                name: name@,
                inverted,
                children: Seq::new(
                    children@.len(),
                    |i: int|
                        if 0 <= i < children@.len() {
                            node_of(children@[i])
                        } else {
                            Node::Comment { standalone: false }
                        },
                ),
                open_standalone,
                close_standalone,
            }
        },
    }
}

impl View for SyntaxItem {
    type V = Node;

    open spec fn view(&self) -> Node {
        node_of(*self)
    }
}

/// The models of a sequence of syntax items.
pub open spec fn node_views(items: Seq<SyntaxItem>) -> Seq<Node> {
    Seq::new(items.len(), |i: int| items[i]@)
}

/// The children of a section's model are the models of its children.
pub proof fn lemma_section_view(item: SyntaxItem)
    requires
        item is Section,
    ensures
        item@ is Section,
        item@->Section_name == item->Section_name@,
        item@->Section_inverted == item->Section_inverted,
        item@->Section_children == node_views(item->Section_children@),
        item@->Section_open_standalone == item->Section_open_standalone,
        item@->Section_close_standalone == item->Section_close_standalone,
{
    let children = item->Section_children@;
    assert forall|i: int| 0 <= i < children.len() implies #[trigger] item@->Section_children[i]
        == children[i]@ by {}
    assert(item@->Section_children =~= node_views(children));
}

/// What the builder is told about a template.
pub struct SyntaxCtx {
    /// The line terminator of the template.
    pub newline: Newline,
}

/// The kinds of token that can stand alone on a line: every tag but a
/// variable.
pub open spec fn is_tag(token: TokenView) -> bool {
    !(token is Text) && !(token is Variable)
}

/// Nothing but indentation stands before the token at `i` on its line:
/// before it stands nothing at all, or text that ends with a line break and
/// indentation, or, where the token is the second one, text that is
/// indentation only.
pub open spec fn begins_line(tokens: Seq<TokenView>, i: int, nl: Seq<char>) -> bool {
    i == 0 || (tokens[i - 1] matches TokenView::Text(s) && (ends_with_newline_hws(s, nl) || (i
        == 1 && all_hws(s))))
}

/// Nothing stands after the token at `i` on its line: after it stands
/// nothing at all, or text that begins with a line break.
pub open spec fn ends_line(tokens: Seq<TokenView>, i: int, nl: Seq<char>) -> bool {
    i == tokens.len() - 1 || (tokens[i + 1] matches TokenView::Text(s) && starts_with_newline(
        s,
        nl,
    ))
}

/// The tag at `i` stands alone on its line.
pub open spec fn standalone_at(tokens: Seq<TokenView>, i: int, nl: Seq<char>) -> bool {
    &&& 0 <= i < tokens.len()
    &&& is_tag(tokens[i])
    &&& begins_line(tokens, i, nl)
    &&& ends_line(tokens, i, nl)
}

/// The number of spaces and tabs that end the text before the token at `i`;
/// 0 where no text stands before it.
pub open spec fn line_indent(tokens: Seq<TokenView>, i: int) -> nat {
    if 0 < i <= tokens.len() {
        match tokens[i - 1] {
            TokenView::Text(s) => trailing_hws(s),
            _ => 0,
        }
    } else {
        0
    }
}

/// The indentation of the tag at `i`: the number of spaces and tabs before a
/// standalone tag on its line, 0 where the tag does not stand alone or the
/// number does not fit.
pub open spec fn indent_at(tokens: Seq<TokenView>, i: int, nl: Seq<char>) -> u8 {
    if standalone_at(tokens, i, nl) && line_indent(tokens, i) <= u8::MAX {
        line_indent(tokens, i) as u8
    } else {
        0
    }
}

/// The text at `i` as it enters the tree: without its indentation where a
/// standalone tag follows, without its leading line break where a standalone
/// tag stands before it.
pub open spec fn clean_text(tokens: Seq<TokenView>, i: int, nl: Seq<char>) -> Seq<char> {
    let s = tokens[i]->Text_0;
    let kept = if standalone_at(tokens, i + 1, nl) {
        strip_trailing_hws(s)
    } else {
        s
    };
    if standalone_at(tokens, i - 1, nl) {
        strip_leading_newline(kept, nl)
    } else {
        kept
    }
}

/// The text at `i` leaves no node: it is the indentation that begins the
/// template, before a standalone tag.
pub open spec fn dropped_at(tokens: Seq<TokenView>, i: int, nl: Seq<char>) -> bool {
    i == 0 && tokens.len() > 0 && (tokens[0] matches TokenView::Text(s) && all_hws(s))
        && standalone_at(tokens, 1, nl)
}

/// The forest under construction: the finished top-level nodes, and the
/// sections that are open, innermost last.
pub struct BuildState {
    pub root: Seq<Node>,
    pub stack: Seq<Node>,
}

/// `item` appended to the innermost open section, or to the top level where
/// none is open.
pub open spec fn pushed(state: BuildState, item: Node) -> BuildState {
    if state.stack.len() > 0 && state.stack.last() is Section {
        let top = state.stack.last();
        BuildState {
            root: state.root,
            stack: state.stack.update(
                state.stack.len() - 1,
                Node::Section {
                    name: top->Section_name,
                    inverted: top->Section_inverted,
                    children: top->Section_children.push(item),
                    open_standalone: top->Section_open_standalone,
                    close_standalone: top->Section_close_standalone,
                },
            ),
        }
    } else {
        BuildState { root: state.root.push(item), stack: state.stack }
    }
}

/// The section that the tag at `i` opens, still without children.
pub open spec fn opened_section(
    tokens: Seq<TokenView>,
    i: int,
    name: Seq<char>,
    inverted: bool,
    nl: Seq<char>,
) -> Node {
    Node::Section {
        name,
        inverted,
        children: Seq::empty(),
        open_standalone: standalone_at(tokens, i, nl),
        close_standalone: false,
    }
}

/// The open section `top`, closed by the tag at `i`.
pub open spec fn closed_section(tokens: Seq<TokenView>, i: int, top: Node, nl: Seq<char>) -> Node {
    Node::Section {
        name: top->Section_name,
        inverted: top->Section_inverted,
        children: top->Section_children,
        open_standalone: top->Section_open_standalone,
        close_standalone: standalone_at(tokens, i, nl),
    }
}

/// The state after the token at `i`.
pub open spec fn build_step(
    tokens: Seq<TokenView>,
    i: int,
    state: BuildState,
    nl: Seq<char>,
) -> Result<BuildState, RibboncurlsError> {
    match tokens[i] {
        TokenView::Text(_) => if dropped_at(tokens, i, nl) {
            Ok(state)
        } else {
            Ok(pushed(state, Node::Text(clean_text(tokens, i, nl))))
        },
        TokenView::Variable { name, escaped } => Ok(
            pushed(state, Node::Variable { name, escaped }),
        ),
        TokenView::Partial(name) => Ok(
            pushed(
                state,
                Node::Partial {
                    name,
                    indent: indent_at(tokens, i, nl),
                    standalone: standalone_at(tokens, i, nl),
                },
            ),
        ),
        TokenView::Comment => Ok(
            pushed(state, Node::Comment { standalone: standalone_at(tokens, i, nl) }),
        ),
        TokenView::DelimiterChange { .. } => Ok(
            pushed(state, Node::Delimiter { standalone: standalone_at(tokens, i, nl) }),
        ),
        TokenView::OpenSection { name, inverted } => Ok(
            BuildState {
                root: state.root,
                stack: state.stack.push(opened_section(tokens, i, name, inverted, nl)),
            },
        ),
        TokenView::CloseSection(name) => if state.stack.len() > 0 && state.stack.last() is Section
            && state.stack.last()->Section_name == name {
            Ok(
                pushed(
                    BuildState { root: state.root, stack: state.stack.drop_last() },
                    closed_section(tokens, i, state.stack.last(), nl),
                ),
            )
        } else {
            Err(RibboncurlsError::MissingEndTag)
        },
    }
}

/// The forest that the tokens from `i` on complete, starting from `state`.
pub open spec fn build_from(
    tokens: Seq<TokenView>,
    i: int,
    state: BuildState,
    nl: Seq<char>,
) -> Result<Seq<Node>, RibboncurlsError>
    decreases tokens.len() - i,
{
    if i < 0 || i >= tokens.len() {
        if state.stack.len() == 0 {
            Ok(state.root)
        } else {
            Err(RibboncurlsError::MissingEndTag)
        }
    } else {
        match build_step(tokens, i, state, nl) {
            Err(e) => Err(e),
            Ok(next) => build_from(tokens, i + 1, next, nl),
        }
    }
}

/// The forest of a token sequence: sections nested, standalone tags marked,
/// the whitespace around them removed. `MissingEndTag` where a section is
/// closed that is not the innermost open one, or is never closed.
pub open spec fn tree_spec(tokens: Seq<TokenView>, nl: Seq<char>) -> Result<
    Seq<Node>,
    RibboncurlsError,
> {
    build_from(tokens, 0, BuildState { root: Seq::empty(), stack: Seq::empty() }, nl)
}

/// The state that a forest and a stack of open sections stand for.
pub open spec fn state_of(
    syntax_tree: Seq<SyntaxItem>,
    section_stack: Seq<SyntaxItem>,
) -> BuildState {
    BuildState { root: node_views(syntax_tree), stack: node_views(section_stack) }
}

/// Whether the tag at `index` stands alone on its line.
pub fn get_is_standalone(tokens: &[Token], index: usize, ctx: &SyntaxCtx) -> (r: bool)
    ensures
        r == standalone_at(token_views(tokens@), index as int, ctx.newline.chars()),
{
    if index >= tokens.len() {
        return false;
    }
    match &tokens[index] {
        Token::Text(_) => {
            return false;
        },
        Token::Variable { .. } => {
            return false;
        },
        _ => {},
    }
    let nl = ctx.newline.to_chars();
    let before = match get_prev_item(tokens, index) {
        None => true,
        Some(Token::Text(s)) => text_ends_with_newline_hws(s.as_str(), &nl) || (index == 1
            && text_all_hws(s.as_str())),
        Some(_) => false,
    };
    let after = match get_next_item(tokens, index) {
        None => true,
        Some(Token::Text(s)) => text_starts_with_newline(s.as_str(), &nl),
        Some(_) => false,
    };
    before && after
}

/// The indentation of the tag at `index`: the number of spaces and tabs
/// before a standalone tag on its line, 0 for any other tag.
pub fn get_indent(tokens: &[Token], index: usize, ctx: &SyntaxCtx) -> (r: u8)
    ensures
        r == indent_at(token_views(tokens@), index as int, ctx.newline.chars()),
{
    if index > 0 && get_is_standalone(tokens, index, ctx) {
        match &tokens[index - 1] {
            Token::Text(s) => {
                let chars = chars_of(s.as_str());
                let n = count_trailing_hws(&chars);
                if n <= 255 {
                    n as u8
                } else {
                    0
                }
            },
            _ => 0,
        }
    } else {
        0
    }
}

/// The text at `index` as it enters the tree: without the spaces and tabs
/// that end it where a standalone tag follows, and without the line break
/// that begins it where a standalone tag stands before it. `None` where no
/// text stands at `index`.
pub fn cleanup_syntax_item_text_newline_and_spacing(
    tokens: &[Token],
    index: usize,
    ctx: &SyntaxCtx,
) -> (r: Option<String>)
    ensures
        match r {
            Some(text) => index < tokens@.len() && tokens@[index as int] is Text && text@
                == clean_text(token_views(tokens@), index as int, ctx.newline.chars()),
            None => index >= tokens@.len() || !(tokens@[index as int] is Text),
        },
{
    if index >= tokens.len() {
        return None;
    }
    match &tokens[index] {
        Token::Text(s) => {
            let nl = ctx.newline.to_chars();
            let chars = chars_of(s.as_str());
            let follows = index < usize::MAX && get_is_standalone(tokens, index + 1, ctx);
            let kept = if follows {
                let n = count_trailing_hws(&chars);
                assert(chars@.take(chars.len() - n) == chars@.subrange(0, chars.len() - n));
                sub_vec(&chars, 0, chars.len() - n)
            } else {
                chars
            };
            let precedes = index > 0 && get_is_standalone(tokens, index - 1, ctx);
            if precedes && starts_with_at(&kept, &nl, 0) {
                let rest = sub_vec(&kept, nl.len(), kept.len());
                assert(rest@ == kept@.skip(nl.len() as int));
                Some(string_of(&rest))
            } else {
                Some(string_of(&kept))
            }
        },
        _ => None,
    }
}

/// Appends `item` to the innermost open section, or to the forest where no
/// section is open.
pub fn push_item(
    syntax_tree: &mut Vec<SyntaxItem>,
    section_stack: &mut Vec<SyntaxItem>,
    item: SyntaxItem,
)
    ensures
        state_of(final(syntax_tree)@, final(section_stack)@) == pushed(
            state_of(old(syntax_tree)@, old(section_stack)@),
            item@,
        ),
{
    let ghost before = state_of(syntax_tree@, section_stack@);
    match section_stack.pop() {
        Some(
            SyntaxItem::Section { name, inverted, children, open_standalone, close_standalone },
        ) => {
            let ghost top = SyntaxItem::Section {
                name,
                inverted,
                children,
                open_standalone,
                close_standalone,
            };
            let mut children = children;
            children.push(item);
            let grown = SyntaxItem::Section {
                name,
                inverted,
                children,
                open_standalone,
                close_standalone,
            };
            proof {
                lemma_section_view(top);
                lemma_section_view(grown);
                assert(node_views(top->Section_children@.push(item)) =~= node_views(
                    top->Section_children@,
                ).push(item@));
            }
            section_stack.push(grown);
            assert(node_views(section_stack@) =~= before.stack.update(
                before.stack.len() - 1,
                grown@,
            ));
            assert(node_views(syntax_tree@) =~= before.root);
        },
        Some(other) => {
            section_stack.push(other);
            syntax_tree.push(item);
            assert(node_views(section_stack@) =~= before.stack);
            assert(node_views(syntax_tree@) =~= before.root.push(item@));
        },
        None => {
            syntax_tree.push(item);
            assert(node_views(section_stack@) =~= before.stack);
            assert(node_views(syntax_tree@) =~= before.root.push(item@));
        },
    }
}

/// The section that the tag at `index` opens, still without children.
pub fn create_syntax_tree_open_section(
    tokens: &[Token],
    name: String,
    index: usize,
    inverted: bool,
    ctx: &SyntaxCtx,
) -> (section: SyntaxItem)
    ensures
        section@ == opened_section(
            token_views(tokens@),
            index as int,
            name@,
            inverted,
            ctx.newline.chars(),
        ),
{
    let open_standalone = get_is_standalone(tokens, index, ctx);
    let section = SyntaxItem::Section {
        name,
        inverted,
        children: Vec::new(),
        open_standalone,
        close_standalone: false,
    };
    proof {
        lemma_section_view(section);
        assert(node_views(Seq::<SyntaxItem>::empty()) =~= Seq::<Node>::empty());
    }
    section
}

/// The section with the given parts, closed by the tag at `index`.
pub fn create_syntax_tree_close_section(
    tokens: &[Token],
    children: Vec<SyntaxItem>,
    name: String,
    index: usize,
    inverted: bool,
    open_standalone: bool,
    ctx: &SyntaxCtx,
) -> (section: SyntaxItem)
    ensures
        section@ == (Node::Section {
            name: name@,
            inverted,
            children: node_views(children@),
            open_standalone,
            close_standalone: standalone_at(
                token_views(tokens@),
                index as int,
                ctx.newline.chars(),
            ),
        }),
{
    let close_standalone = get_is_standalone(tokens, index, ctx);
    let section = SyntaxItem::Section {
        name,
        inverted,
        children,
        open_standalone,
        close_standalone,
    };
    proof {
        lemma_section_view(section);
    }
    section
}

/// Folds a token sequence into a forest.
///
/// Text, variables, partials, comments and delimiter changes become leaves of
/// the innermost open section; a section tag opens a section, its end tag
/// closes it. Each tag but a variable is marked standalone where it stands
/// alone on its line; the indentation before a standalone tag and the line
/// break after it leave the neighbouring text, and indentation that begins the
/// template before a standalone tag leaves no node at all.
///
/// `MissingEndTag` where an end tag does not name the innermost open section,
/// or a section is still open at the end.
pub fn create_syntax_tree(tokens: &[Token], ctx: &SyntaxCtx) -> (r: Result<
    Vec<SyntaxItem>,
    RibboncurlsError,
>)
    ensures
        match r {
            Ok(tree) => tree_spec(token_views(tokens@), ctx.newline.chars()) == Ok::<
                _,
                RibboncurlsError,
            >(node_views(tree@)),
            Err(e) => tree_spec(token_views(tokens@), ctx.newline.chars()) == Err::<Seq<Node>, _>(
                e,
            ),
        },
{
    let mut syntax_tree: Vec<SyntaxItem> = Vec::new();
    let mut section_stack: Vec<SyntaxItem> = Vec::new();
    let ghost views = token_views(tokens@);
    let ghost nl = ctx.newline.chars();
    assert(node_views(syntax_tree@) =~= Seq::<Node>::empty());
    assert(node_views(section_stack@) =~= Seq::<Node>::empty());
    let mut index: usize = 0;
    while index < tokens.len()
        invariant
            index <= tokens.len(),
            views == token_views(tokens@),
            nl == ctx.newline.chars(),
            tree_spec(views, nl) == build_from(
                views,
                index as int,
                state_of(syntax_tree@, section_stack@),
                nl,
            ),
        decreases tokens.len() - index,
    {
        let ghost state = state_of(syntax_tree@, section_stack@);
        match &tokens[index] {
            Token::Text(s) => {
                let dropped = index == 0 && text_all_hws(s.as_str()) && get_is_standalone(
                    tokens,
                    1,
                    ctx,
                );
                if !dropped {
                    match cleanup_syntax_item_text_newline_and_spacing(tokens, index, ctx) {
                        Some(text) => {
                            push_item(&mut syntax_tree, &mut section_stack, SyntaxItem::Text(text));
                        },
                        None => {},
                    }
                }
            },
            Token::Variable { name, escaped } => {
                push_item(
                    &mut syntax_tree,
                    &mut section_stack,
                    SyntaxItem::Variable { name: name.clone(), escaped: *escaped },
                );
            },
            Token::Partial(name) => {
                let standalone = get_is_standalone(tokens, index, ctx);
                let indent = get_indent(tokens, index, ctx);
                push_item(
                    &mut syntax_tree,
                    &mut section_stack,
                    SyntaxItem::Partial { name: name.clone(), indent, standalone },
                );
            },
            Token::Comment => {
                let standalone = get_is_standalone(tokens, index, ctx);
                push_item(&mut syntax_tree, &mut section_stack, SyntaxItem::Comment { standalone });
            },
            Token::DelimiterChange { .. } => {
                let standalone = get_is_standalone(tokens, index, ctx);
                push_item(
                    &mut syntax_tree,
                    &mut section_stack,
                    SyntaxItem::Delimiter { standalone },
                );
            },
            Token::OpenSection { name, inverted } => {
                let section = create_syntax_tree_open_section(
                    tokens,
                    name.clone(),
                    index,
                    *inverted,
                    ctx,
                );
                section_stack.push(section);
                assert(node_views(section_stack@) =~= state.stack.push(section@));
            },
            Token::CloseSection(name) => {
                match section_stack.pop() {
                    Some(
                        SyntaxItem::Section {
                            name: open_name,
                            inverted,
                            children,
                            open_standalone,
                            close_standalone,
                        },
                    ) => {
                        proof {
                            lemma_section_view(
                                SyntaxItem::Section {
                                    name: open_name,
                                    inverted,
                                    children,
                                    open_standalone,
                                    close_standalone,
                                },
                            );
                            assert(node_views(section_stack@) =~= state.stack.drop_last());
                        }
                        if open_name == *name {
                            let section = create_syntax_tree_close_section(
                                tokens,
                                children,
                                open_name,
                                index,
                                inverted,
                                open_standalone,
                                ctx,
                            );
                            push_item(&mut syntax_tree, &mut section_stack, section);
                        } else {
                            return Err(RibboncurlsError::MissingEndTag);
                        }
                    },
                    Some(other) => {
                        return Err(RibboncurlsError::MissingEndTag);
                    },
                    None => {
                        return Err(RibboncurlsError::MissingEndTag);
                    },
                }
            },
        }
        index += 1;
    }
    if section_stack.len() == 0 {
        Ok(syntax_tree)
    } else {
        Err(RibboncurlsError::MissingEndTag)
    }
}

} // verus!
