use ribboncurls::syntax_tree::{
    cleanup_syntax_item_text_newline_and_spacing, create_syntax_tree,
    create_syntax_tree_close_section, create_syntax_tree_open_section, get_indent,
    get_is_standalone, push_item, SyntaxCtx, SyntaxItem,
};
use ribboncurls::token::{tokenize, Token, TokenCtx};
use ribboncurls::utils::Newline;
use ribboncurls::RibboncurlsError;

fn lf() -> SyntaxCtx {
    SyntaxCtx { newline: Newline::Lf }
}

fn tokens_of(template: &str) -> Vec<Token> {
    let mut ctx = TokenCtx::new(Newline::Lf);
    tokenize(template, &mut ctx).unwrap()
}

fn tree_of(template: &str) -> Vec<SyntaxItem> {
    create_syntax_tree(&tokens_of(template), &lf()).unwrap()
}

fn text(s: &str) -> SyntaxItem {
    SyntaxItem::Text(s.to_string())
}

fn section(
    name: &str,
    inverted: bool,
    children: Vec<SyntaxItem>,
    open_standalone: bool,
    close_standalone: bool,
) -> SyntaxItem {
    SyntaxItem::Section {
        name: name.to_string(),
        inverted,
        children,
        open_standalone,
        close_standalone,
    }
}

#[test]
fn leaves_in_order() {
    assert_eq!(
        tree_of("a{{b}}{{{c}}}{{! d }}{{=[ ]=}}[>e]"),
        vec![
            text("a"),
            SyntaxItem::Variable { name: "b".to_string(), escaped: true },
            SyntaxItem::Variable { name: "c".to_string(), escaped: false },
            SyntaxItem::Comment { standalone: false },
            SyntaxItem::Delimiter { standalone: false },
            SyntaxItem::Partial { name: "e".to_string(), indent: 0, standalone: false },
        ]
    );
}

#[test]
fn sections_nest() {
    assert_eq!(
        tree_of("{{#a}}x{{^b}}y{{/b}}{{/a}}z"),
        vec![
            section(
                "a",
                false,
                vec![text("x"), section("b", true, vec![text("y")], false, false)],
                false,
                false
            ),
            text("z"),
        ]
    );
}

#[test]
fn standalone_comment_takes_its_line() {
    assert_eq!(
        tree_of("Hi\n  {{! c }}\nX"),
        vec![text("Hi"), text("\n"), SyntaxItem::Comment { standalone: true }, text("X")]
    );
}

#[test]
fn standalone_section_tags_take_their_lines() {
    assert_eq!(
        tree_of("a\n  {{#s}}\nb\n  {{/s}}\nc"),
        vec![
            text("a"),
            text("\n"),
            section("s", false, vec![text("b"), text("\n")], true, true),
            text("c"),
        ]
    );
}

#[test]
fn leading_indentation_before_a_standalone_tag_is_dropped() {
    assert_eq!(
        tree_of("  {{! c }}\nx"),
        vec![SyntaxItem::Comment { standalone: true }, text("x")]
    );
}

#[test]
fn leading_indentation_before_an_inline_tag_is_kept() {
    assert_eq!(
        tree_of("  {{! c }}x"),
        vec![text("  "), SyntaxItem::Comment { standalone: false }, text("x")]
    );
}

#[test]
fn text_between_two_standalone_tags_is_emptied() {
    assert_eq!(
        tree_of("{{! a }}\n  {{! b }}\nx"),
        vec![
            SyntaxItem::Comment { standalone: true },
            text(""),
            SyntaxItem::Comment { standalone: true },
            text("x"),
        ]
    );
}

#[test]
fn a_tag_next_to_a_variable_is_not_standalone() {
    assert_eq!(
        tree_of("\n{{! a }}{{b}}\n"),
        vec![
            text("\n"),
            SyntaxItem::Comment { standalone: false },
            SyntaxItem::Variable { name: "b".to_string(), escaped: true },
            text("\n"),
        ]
    );
}

#[test]
fn a_lone_tag_is_standalone() {
    assert_eq!(tree_of("{{! a }}"), vec![SyntaxItem::Comment { standalone: true }]);
}

#[test]
fn standalone_partial_has_the_indent_of_its_line() {
    assert_eq!(
        tree_of("x\n \t {{>p}}\ny"),
        vec![
            text("x"),
            text("\n"),
            SyntaxItem::Partial { name: "p".to_string(), indent: 3, standalone: true },
            text("y"),
        ]
    );
}

#[test]
fn inline_partial_has_no_indent() {
    assert_eq!(
        tree_of("x\n  {{>p}} y"),
        vec![
            text("x"),
            text("\n  "),
            SyntaxItem::Partial { name: "p".to_string(), indent: 0, standalone: false },
            text(" y"),
        ]
    );
}

#[test]
fn indent_that_does_not_fit_is_zero() {
    let template = format!("\n{}{{{{>p}}}}", " ".repeat(256));
    let tokens = tokens_of(&template);
    assert!(get_is_standalone(&tokens, 1, &lf()));
    assert_eq!(get_indent(&tokens, 1, &lf()), 0);
    let template = format!("\n{}{{{{>p}}}}", " ".repeat(255));
    let tokens = tokens_of(&template);
    assert_eq!(get_indent(&tokens, 1, &lf()), 255);
}

#[test]
fn standalone_is_judged_by_the_neighbours() {
    let tokens = tokens_of("a\n{{! c }}\nb{{! d }}\n{{x}}");
    assert_eq!(tokens.len(), 7);
    assert!(!get_is_standalone(&tokens, 0, &lf()));
    assert!(!get_is_standalone(&tokens, 1, &lf()));
    assert!(get_is_standalone(&tokens, 2, &lf()));
    assert!(!get_is_standalone(&tokens, 4, &lf()));
    assert!(!get_is_standalone(&tokens, 6, &lf()));
    assert!(!get_is_standalone(&tokens, 7, &lf()));
}

#[test]
fn standalone_depends_on_the_line_terminator() {
    let tokens = vec![
        Token::Text("a".to_string()),
        Token::Text("\r\n".to_string()),
        Token::Comment,
        Token::Text("\r\nb".to_string()),
    ];
    assert!(get_is_standalone(&tokens, 2, &SyntaxCtx { newline: Newline::Crlf }));
    assert!(!get_is_standalone(&tokens, 2, &lf()));
}

#[test]
fn cleanup_strips_around_standalone_tags_only() {
    let tokens = tokens_of("a\n  {{! c }}\n  b  {{! d }}\n");
    assert_eq!(
        cleanup_syntax_item_text_newline_and_spacing(&tokens, 0, &lf()),
        Some("a".to_string())
    );
    assert_eq!(
        cleanup_syntax_item_text_newline_and_spacing(&tokens, 1, &lf()),
        Some("\n".to_string())
    );
    assert_eq!(cleanup_syntax_item_text_newline_and_spacing(&tokens, 2, &lf()), None);
    assert_eq!(
        cleanup_syntax_item_text_newline_and_spacing(&tokens, 3, &lf()),
        Some("  b  ".to_string())
    );
    assert_eq!(
        cleanup_syntax_item_text_newline_and_spacing(&tokens, 5, &lf()),
        Some("\n".to_string())
    );
    assert_eq!(cleanup_syntax_item_text_newline_and_spacing(&tokens, 9, &lf()), None);
}

#[test]
fn push_item_appends_to_the_forest_without_open_section() {
    let mut forest = vec![text("a")];
    let mut stack = Vec::new();
    push_item(&mut forest, &mut stack, text("b"));
    assert_eq!(forest, vec![text("a"), text("b")]);
    assert!(stack.is_empty());
}

#[test]
fn push_item_appends_to_the_innermost_open_section() {
    let mut forest = vec![text("a")];
    let mut stack = vec![
        section("outer", false, vec![], false, false),
        section("inner", true, vec![text("x")], true, false),
    ];
    push_item(&mut forest, &mut stack, text("y"));
    assert_eq!(forest, vec![text("a")]);
    assert_eq!(
        stack,
        vec![
            section("outer", false, vec![], false, false),
            section("inner", true, vec![text("x"), text("y")], true, false),
        ]
    );
}

#[test]
fn push_item_with_a_leaf_on_the_stack_appends_to_the_forest() {
    let mut forest = Vec::new();
    let mut stack = vec![text("leaf")];
    push_item(&mut forest, &mut stack, text("b"));
    assert_eq!(forest, vec![text("b")]);
    assert_eq!(stack, vec![text("leaf")]);
}

#[test]
fn open_and_close_section_mark_standalone_tags() {
    let tokens = tokens_of("{{#s}}\nx{{/s}}");
    let opened = create_syntax_tree_open_section(&tokens, "s".to_string(), 0, false, &lf());
    assert_eq!(opened, section("s", false, vec![], true, false));
    let closed = create_syntax_tree_close_section(
        &tokens,
        vec![text("x")],
        "s".to_string(),
        2,
        false,
        true,
        &lf(),
    );
    assert_eq!(closed, section("s", false, vec![text("x")], true, false));
}

#[test]
fn unbalanced_tokens_are_missing_end_tag() {
    let open = Token::OpenSection { name: "a".to_string(), inverted: false };
    let close_a = Token::CloseSection("a".to_string());
    let close_b = Token::CloseSection("b".to_string());
    assert!(matches!(
        create_syntax_tree(&[open.clone()], &lf()),
        Err(RibboncurlsError::MissingEndTag)
    ));
    assert!(matches!(
        create_syntax_tree(&[close_a.clone()], &lf()),
        Err(RibboncurlsError::MissingEndTag)
    ));
    assert!(matches!(
        create_syntax_tree(&[open.clone(), close_b], &lf()),
        Err(RibboncurlsError::MissingEndTag)
    ));
    assert_eq!(
        create_syntax_tree(&[open, close_a], &lf()).unwrap(),
        vec![section("a", false, vec![], false, false)]
    );
}
