use ribboncurls::token::{parse_tag, tokenize, Token, TokenCtx};
use ribboncurls::utils::Newline;
use ribboncurls::RibboncurlsError;

fn text(s: &str) -> Token {
    Token::Text(s.to_string())
}

fn variable(name: &str, escaped: bool) -> Token {
    Token::Variable { name: name.to_string(), escaped }
}

fn open(name: &str, inverted: bool) -> Token {
    Token::OpenSection { name: name.to_string(), inverted }
}

fn tokens_of(template: &str) -> Vec<Token> {
    let mut ctx = TokenCtx::new(Newline::Lf);
    tokenize(template, &mut ctx).unwrap()
}

#[test]
fn new_context_has_default_delimiters() {
    let ctx = TokenCtx::new(Newline::Crlf);
    assert_eq!(ctx.left_delimiter, "{{");
    assert_eq!(ctx.right_delimiter, "}}");
    assert!(ctx.section_stack.is_empty());
    assert_eq!(ctx.newline, Newline::Crlf);
}

#[test]
fn empty_template_has_no_tokens() {
    assert_eq!(tokens_of(""), vec![]);
}

#[test]
fn plain_text_is_one_token() {
    assert_eq!(tokens_of("hello"), vec![text("hello")]);
}

#[test]
fn every_kind_of_tag() {
    assert_eq!(
        tokens_of("a{{b}}{{{c}}}{{&d}}{{#e}}{{/e}}{{^f}}{{/f}}{{>g}}{{! h }}{{=<% %>=}}z"),
        vec![
            text("a"),
            variable("b", true),
            variable("c", false),
            variable("d", false),
            open("e", false),
            Token::CloseSection("e".to_string()),
            open("f", true),
            Token::CloseSection("f".to_string()),
            Token::Partial("g".to_string()),
            Token::Comment,
            Token::DelimiterChange { left: "<%".to_string(), right: "%>".to_string() },
            text("z"),
        ]
    );
}

#[test]
fn names_are_trimmed() {
    assert_eq!(
        tokens_of("{{  a  }}{{{ b }}}{{&\tc\n}}{{# d }}{{/ d }}{{>  e }}"),
        vec![
            variable("a", true),
            variable("b", false),
            variable("c", false),
            open("d", false),
            Token::CloseSection("d".to_string()),
            Token::Partial("e".to_string()),
        ]
    );
}

#[test]
fn text_is_cut_before_each_line_break() {
    assert_eq!(
        tokens_of("one\ntwo\n\nthree\n"),
        vec![text("one"), text("\ntwo"), text("\n"), text("\nthree"), text("\n")]
    );
}

#[test]
fn text_that_begins_with_a_line_break() {
    assert_eq!(tokens_of("\na{{b}}\n"), vec![text("\na"), variable("b", true), text("\n")]);
}

#[test]
fn crlf_text_is_cut_before_each_crlf() {
    let mut ctx = TokenCtx::new(Newline::Crlf);
    assert_eq!(
        tokenize("a\r\nb\nc\r\n", &mut ctx).unwrap(),
        vec![text("a"), text("\r\nb\nc"), text("\r\n")]
    );
}

#[test]
fn lf_splitting_leaves_carriage_returns_in_place() {
    assert_eq!(tokens_of("a\r\nb"), vec![text("a\r"), text("\nb")]);
}

#[test]
fn new_delimiters_take_effect_at_once() {
    assert_eq!(
        tokens_of("{{=| |=}}|a|{{b}}|={{ }}=|{{c}}"),
        vec![
            Token::DelimiterChange { left: "|".to_string(), right: "|".to_string() },
            variable("a", true),
            text("{{b}}"),
            Token::DelimiterChange { left: "{{".to_string(), right: "}}".to_string() },
            variable("c", true),
        ]
    );
}

#[test]
fn raw_variable_with_changed_delimiters() {
    assert_eq!(
        tokens_of("{{=<% %>=}}<%< a %>%"),
        vec![
            Token::DelimiterChange { left: "<%".to_string(), right: "%>".to_string() },
            variable("a", false),
        ]
    );
}

#[test]
fn context_holds_the_state_at_the_end() {
    let mut ctx = TokenCtx::new(Newline::Lf);
    tokenize("{{=[ ]=}}[a]", &mut ctx).unwrap();
    assert_eq!(ctx.left_delimiter, "[");
    assert_eq!(ctx.right_delimiter, "]");
    assert!(ctx.section_stack.is_empty());
}

#[test]
fn context_is_unchanged_after_an_error() {
    let mut ctx = TokenCtx::new(Newline::Lf);
    let result = tokenize("{{=[ ]=}}[#a]", &mut ctx);
    assert!(matches!(result, Err(RibboncurlsError::MissingEndTag)));
    assert_eq!(ctx.left_delimiter, "{{");
    assert_eq!(ctx.right_delimiter, "}}");
    assert!(ctx.section_stack.is_empty());
}

#[test]
fn sections_open_in_the_context_may_be_closed() {
    let mut ctx = TokenCtx::new(Newline::Lf);
    ctx.section_stack.push("outer".to_string());
    assert_eq!(
        tokenize("x{{/outer}}", &mut ctx).unwrap(),
        vec![text("x"), Token::CloseSection("outer".to_string())]
    );
    assert!(ctx.section_stack.is_empty());
}

#[test]
fn empty_delimiter_is_missing_delimiter() {
    let mut ctx = TokenCtx::new(Newline::Lf);
    ctx.left_delimiter = String::new();
    assert!(matches!(tokenize("abc", &mut ctx), Err(RibboncurlsError::MissingDelimiter)));
    let mut ctx = TokenCtx::new(Newline::Lf);
    ctx.right_delimiter = String::new();
    assert!(matches!(tokenize("", &mut ctx), Err(RibboncurlsError::MissingDelimiter)));
}

#[test]
fn parse_tag_reads_each_sigil() {
    let mut ctx = TokenCtx::new(Newline::Lf);
    assert_eq!(parse_tag("! note", &mut ctx).unwrap(), Token::Comment);
    assert_eq!(parse_tag("& a ", &mut ctx).unwrap(), variable("a", false));
    assert_eq!(parse_tag(" a.b ", &mut ctx).unwrap(), variable("a.b", true));
    assert_eq!(parse_tag("", &mut ctx).unwrap(), variable("", true));
    assert_eq!(parse_tag("> p", &mut ctx).unwrap(), Token::Partial("p".to_string()));
    assert_eq!(ctx.section_stack, Vec::<String>::new());
}

#[test]
fn parse_tag_keeps_track_of_sections() {
    let mut ctx = TokenCtx::new(Newline::Lf);
    assert_eq!(parse_tag("#a", &mut ctx).unwrap(), open("a", false));
    assert_eq!(parse_tag("^ b", &mut ctx).unwrap(), open("b", true));
    assert_eq!(ctx.section_stack, vec!["a".to_string(), "b".to_string()]);
    assert!(matches!(parse_tag("/a", &mut ctx), Err(RibboncurlsError::MissingEndTag)));
    assert_eq!(ctx.section_stack, vec!["a".to_string(), "b".to_string()]);
    assert_eq!(parse_tag("/b", &mut ctx).unwrap(), Token::CloseSection("b".to_string()));
    assert_eq!(parse_tag("/ a ", &mut ctx).unwrap(), Token::CloseSection("a".to_string()));
    assert!(ctx.section_stack.is_empty());
    assert!(matches!(parse_tag("/a", &mut ctx), Err(RibboncurlsError::MissingEndTag)));
}

#[test]
fn parse_tag_changes_delimiters() {
    let mut ctx = TokenCtx::new(Newline::Lf);
    assert_eq!(
        parse_tag("= <<   >> =", &mut ctx).unwrap(),
        Token::DelimiterChange { left: "<<".to_string(), right: ">>".to_string() }
    );
    assert_eq!(ctx.left_delimiter, "<<");
    assert_eq!(ctx.right_delimiter, ">>");
    assert!(matches!(parse_tag("=a=", &mut ctx), Err(RibboncurlsError::MissingDelimiter)));
    assert!(matches!(parse_tag("=a b", &mut ctx), Err(RibboncurlsError::MissingDelimiter)));
    assert!(matches!(parse_tag("= =", &mut ctx), Err(RibboncurlsError::MissingDelimiter)));
    assert_eq!(ctx.left_delimiter, "<<");
    assert_eq!(ctx.right_delimiter, ">>");
}

#[test]
fn parse_tag_rejects_missing_names() {
    let mut ctx = TokenCtx::new(Newline::Lf);
    assert!(matches!(parse_tag("#", &mut ctx), Err(RibboncurlsError::BadTag)));
    assert!(matches!(parse_tag("^ ", &mut ctx), Err(RibboncurlsError::BadTag)));
    assert!(matches!(parse_tag("/", &mut ctx), Err(RibboncurlsError::BadTag)));
    assert!(matches!(parse_tag(">\t", &mut ctx), Err(RibboncurlsError::BadTag)));
}

#[test]
fn names_are_trimmed_of_unicode_whitespace() {
    assert_eq!(
        tokens_of("{{\u{a0}a\u{2003}}}{{#\u{3000}b\u{85}}}{{/\u{2028}b}}"),
        vec![variable("a", true), open("b", false), Token::CloseSection("b".to_string())]
    );
    assert_eq!(
        tokens_of("{{=<%\u{a0}%>=}}<%x%>"),
        vec![
            Token::DelimiterChange { left: "<%".to_string(), right: "%>".to_string() },
            variable("x", true),
        ]
    );
}
