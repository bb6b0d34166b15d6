use ribboncurls::render::{
    get_value_from_context, render_data, render_syntax_tree, render_tree, RenderCtx,
    MAX_PARTIAL_DEPTH,
};
use ribboncurls::syntax_tree::SyntaxItem;
use ribboncurls::utils::Newline;
use ribboncurls::value::{
    find_frame, get_value, is_value_falsy, is_value_truthy, lookup_value, value_to_string, Data,
};
use ribboncurls::yaml::load_document;
use ribboncurls::RibboncurlsError;

fn text(s: &str) -> Data {
    Data::Text(s.to_string())
}

fn number(s: &str) -> Data {
    Data::Number(s.to_string())
}

fn mapping(entries: Vec<(&str, Data)>) -> Data {
    Data::Mapping(entries.into_iter().map(|(k, v)| (text(k), v)).collect())
}

#[test]
fn load_document_reads_scalars() {
    assert_eq!(load_document("null").unwrap(), Data::Null);
    assert_eq!(load_document("true").unwrap(), Data::Bool(true));
    assert_eq!(load_document("42").unwrap(), number("42"));
    assert_eq!(load_document("-3").unwrap(), number("-3"));
    assert_eq!(load_document("1.5").unwrap(), number("1.5"));
    assert_eq!(load_document("hello").unwrap(), text("hello"));
    assert_eq!(load_document("").unwrap(), Data::Null);
}

#[test]
fn load_document_reads_containers_in_order() {
    assert_eq!(
        load_document("{b: [1, x], a: {c: null}}").unwrap(),
        mapping(vec![
            ("b", Data::Sequence(vec![number("1"), text("x")])),
            ("a", mapping(vec![("c", Data::Null)])),
        ])
    );
}

#[test]
fn load_document_keeps_keys_that_are_not_text() {
    assert_eq!(
        load_document("{1: one, true: yes}").unwrap(),
        Data::Mapping(vec![(number("1"), text("one")), (Data::Bool(true), text("yes"))])
    );
}

#[test]
fn load_document_keeps_the_value_under_a_tag() {
    assert_eq!(
        load_document("!thing {a: 1}").unwrap(),
        Data::Tagged(Box::new(mapping(vec![("a", number("1"))])))
    );
}

#[test]
fn load_document_rejects_what_is_not_yaml() {
    assert!(matches!(load_document("a: b: c"), Err(RibboncurlsError::YamlParseError(_))));
    assert!(matches!(load_document("[1, 2"), Err(RibboncurlsError::YamlParseError(_))));
}

#[test]
fn get_finds_the_entry_with_that_text_key() {
    let data = Data::Mapping(vec![
        (number("1"), text("number key")),
        (text("1"), text("text key")),
        (text("a"), Data::Null),
    ]);
    assert_eq!(data.get("1"), Some(&text("text key")));
    assert_eq!(data.get("a"), Some(&Data::Null));
    assert_eq!(data.get("b"), None);
    assert_eq!(text("a").get("a"), None);
    assert_eq!(Data::Sequence(vec![text("a")]).get("a"), None);
}

#[test]
fn get_looks_under_tags() {
    let inner = mapping(vec![("a", number("1"))]);
    let tagged = Data::Tagged(Box::new(Data::Tagged(Box::new(inner))));
    assert_eq!(tagged.get("a"), Some(&number("1")));
    assert_eq!(tagged.untag(), &mapping(vec![("a", number("1"))]));
}

#[test]
fn get_value_follows_segments() {
    let data = mapping(vec![("a", mapping(vec![("b", mapping(vec![("c", text("deep"))]))]))]);
    assert_eq!(get_value(&data, "a.b.c"), Some(&text("deep")));
    assert_eq!(get_value(&data, "a.b"), Some(&mapping(vec![("c", text("deep"))])));
    assert_eq!(get_value(&data, "a.x.c"), None);
    assert_eq!(get_value(&data, "a.b.c.d"), None);
    assert_eq!(get_value(&data, "a..b"), None);
    assert_eq!(get_value(&data, ""), None);
}

#[test]
fn lookup_value_prefers_the_innermost_frame() {
    let outer = mapping(vec![("a", text("outer")), ("b", text("only outer"))]);
    let inner = mapping(vec![("a", text("inner"))]);
    let stack = vec![&outer, &inner];
    assert_eq!(lookup_value("a", &stack), Some(&text("inner")));
    assert_eq!(lookup_value("b", &stack), Some(&text("only outer")));
    assert_eq!(lookup_value("c", &stack), None);
    assert_eq!(find_frame(&stack, "a"), Some(&text("inner")));
    assert_eq!(find_frame(&Vec::new(), "a"), None);
}

#[test]
fn lookup_value_sticks_to_the_frame_of_the_first_segment() {
    let outer = mapping(vec![("a", mapping(vec![("b", text("outer"))]))]);
    let inner = mapping(vec![("a", mapping(vec![]))]);
    let stack = vec![&outer, &inner];
    assert_eq!(lookup_value("a.b", &stack), None);
}

#[test]
fn lookup_value_prefers_a_key_with_dots() {
    let data = mapping(vec![("a", mapping(vec![("b", text("nested"))])), ("a.b", text("whole"))]);
    let stack = vec![&data];
    assert_eq!(lookup_value("a.b", &stack), Some(&text("whole")));
}

#[test]
fn falsy_values() {
    assert!(is_value_falsy(&Data::Null));
    assert!(is_value_falsy(&Data::Bool(false)));
    assert!(is_value_falsy(&text("")));
    assert!(is_value_falsy(&Data::Sequence(vec![])));
    assert!(is_value_falsy(&Data::Mapping(vec![])));
    assert!(is_value_truthy(&Data::Bool(true)));
    assert!(is_value_truthy(&text(" ")));
    assert!(is_value_truthy(&number("0")));
    assert!(is_value_truthy(&Data::Sequence(vec![Data::Null])));
    assert!(is_value_truthy(&mapping(vec![("a", Data::Null)])));
    assert!(is_value_truthy(&Data::Tagged(Box::new(Data::Null))));
}

#[test]
fn values_as_output() {
    assert_eq!(value_to_string(&Data::Null), "");
    assert_eq!(value_to_string(&Data::Bool(true)), "true");
    assert_eq!(value_to_string(&Data::Bool(false)), "");
    assert_eq!(value_to_string(&number("1.25")), "1.25");
    assert_eq!(value_to_string(&text("a<b")), "a<b");
    assert_eq!(value_to_string(&Data::Sequence(vec![text("a")])), "");
    assert_eq!(value_to_string(&mapping(vec![("a", text("b"))])), "");
    assert_eq!(value_to_string(&Data::Tagged(Box::new(text("a")))), "");
}

fn context<'a>(root: &'a Data, partials: &'a Data) -> RenderCtx<'a> {
    RenderCtx {
        data_stack: vec![root],
        partials,
        section_path: Vec::new(),
        newline: Newline::Lf,
        indent: 0,
        depth: MAX_PARTIAL_DEPTH,
    }
}

#[test]
fn dot_resolves_through_the_open_section() {
    let root = mapping(vec![("s", text("value"))]);
    let partials = Data::Null;
    let mut ctx = context(&root, &partials);
    assert_eq!(get_value_from_context(&ctx, "."), Some(&root));
    ctx.section_path.push("s".to_string());
    assert_eq!(get_value_from_context(&ctx, "."), Some(&text("value")));
    ctx.section_path.push("other".to_string());
    assert_eq!(get_value_from_context(&ctx, "."), Some(&root));
    assert_eq!(get_value_from_context(&ctx, ""), None);
    assert_eq!(get_value_from_context(&ctx, "s"), Some(&text("value")));
    ctx.data_stack.clear();
    assert_eq!(get_value_from_context(&ctx, "."), None);
    assert_eq!(get_value_from_context(&ctx, "s"), None);
}

#[test]
fn render_syntax_tree_hands_the_context_back() {
    let root = mapping(vec![
        ("m", mapping(vec![("x", number("1"))])),
        ("l", Data::Sequence(vec![text("a"), text("b")])),
    ]);
    let partials = mapping(vec![("bad", text("{{#open}}")), ("p", text("{{x}}\n"))]);
    let mut ctx = context(&root, &partials);
    ctx.section_path.push("outer".to_string());
    let tree = vec![
        SyntaxItem::Section {
            name: "m".to_string(),
            inverted: false,
            children: vec![SyntaxItem::Partial {
                name: "p".to_string(),
                indent: 2,
                standalone: true,
            }],
            open_standalone: false,
            close_standalone: false,
        },
        SyntaxItem::Section {
            name: "l".to_string(),
            inverted: false,
            children: vec![SyntaxItem::Variable { name: ".".to_string(), escaped: true }],
            open_standalone: false,
            close_standalone: false,
        },
    ];
    assert_eq!(render_syntax_tree(&tree, &mut ctx).unwrap(), "  1\nab");
    assert_eq!(ctx.data_stack, vec![&root]);
    assert_eq!(ctx.section_path, vec!["outer".to_string()]);
    assert_eq!(ctx.indent, 0);
    assert_eq!(ctx.depth, MAX_PARTIAL_DEPTH);

    let failing = vec![SyntaxItem::Section {
        name: "m".to_string(),
        inverted: false,
        children: vec![SyntaxItem::Partial {
            name: "bad".to_string(),
            indent: 4,
            standalone: true,
        }],
        open_standalone: false,
        close_standalone: false,
    }];
    assert!(matches!(
        render_syntax_tree(&failing, &mut ctx),
        Err(RibboncurlsError::MissingEndTag)
    ));
    assert_eq!(ctx.data_stack, vec![&root]);
    assert_eq!(ctx.section_path, vec!["outer".to_string()]);
    assert_eq!(ctx.indent, 0);
    assert_eq!(ctx.depth, MAX_PARTIAL_DEPTH);
}

#[test]
fn text_with_inner_line_breaks_is_indented_after_each() {
    let root = Data::Null;
    let partials = Data::Null;
    let mut ctx = context(&root, &partials);
    ctx.indent = 2;
    let tree = vec![SyntaxItem::Text("a\nb\n\nc".to_string())];
    assert_eq!(render_syntax_tree(&tree, &mut ctx).unwrap(), "  a\n  b\n  \n  c");
}

#[test]
fn no_depth_left_fails_at_the_first_partial_that_exists() {
    let root = Data::Null;
    let partials = mapping(vec![("p", text("x"))]);
    let mut ctx = context(&root, &partials);
    ctx.depth = 0;
    let missing = vec![SyntaxItem::Partial {
        name: "q".to_string(),
        indent: 0,
        standalone: false,
    }];
    assert_eq!(render_syntax_tree(&missing, &mut ctx).unwrap(), "");
    let present = vec![SyntaxItem::Partial {
        name: "p".to_string(),
        indent: 0,
        standalone: false,
    }];
    assert!(matches!(
        render_syntax_tree(&present, &mut ctx),
        Err(RibboncurlsError::PartialDepth)
    ));
}

#[test]
fn render_data_and_render_tree_take_values() {
    let data = mapping(vec![("name", text("World"))]);
    let partials = mapping(vec![("p", text("<{{name}}>"))]);
    assert_eq!(render_data("Hello, {{name}}! {{>p}}", &data, &partials).unwrap(), "Hello, World! <World>");
    let tree = vec![SyntaxItem::Variable { name: "name".to_string(), escaped: true }];
    assert_eq!(render_tree(&tree, &data, &partials, Newline::Lf).unwrap(), "World");
    assert!(matches!(
        render_data("{{#a}}", &data, &partials),
        Err(RibboncurlsError::MissingEndTag)
    ));
}

fn section_of(name: &str, children: Vec<SyntaxItem>) -> SyntaxItem {
    SyntaxItem::Section {
        name: name.to_string(),
        inverted: false,
        children,
        open_standalone: true,
        close_standalone: true,
    }
}

fn line(s: &str) -> SyntaxItem {
    SyntaxItem::Text(s.to_string())
}

#[test]
fn indented_forest_is_written_line_by_line() {
    let root = Data::Null;
    let partials = Data::Null;
    let mut ctx = context(&root, &partials);
    ctx.indent = 2;
    let tree = vec![line("line1"), line("\nline2"), line("\n")];
    assert_eq!(render_syntax_tree(&tree, &mut ctx).unwrap(), "  line1\n  line2\n");
    assert_eq!(ctx.indent, 2);
}

#[test]
fn indented_forest_indents_inside_sections() {
    let root = mapping(vec![
        ("s", Data::Bool(true)),
        ("l", Data::Sequence(vec![text("a"), text("b")])),
        ("x", text("1\n2")),
    ]);
    let partials = Data::Null;
    let mut ctx = context(&root, &partials);
    ctx.indent = 2;
    let tree = vec![section_of("s", vec![line("foo"), line("\n")]), line("")];
    assert_eq!(render_syntax_tree(&tree, &mut ctx).unwrap(), "  foo\n");
    let each = vec![section_of(
        "l",
        vec![
            line("- "),
            SyntaxItem::Variable { name: ".".to_string(), escaped: true },
            line("\n"),
        ],
    )];
    assert_eq!(render_syntax_tree(&each, &mut ctx).unwrap(), "  - a\n  - b\n");
    let value_first = vec![
        SyntaxItem::Variable { name: "x".to_string(), escaped: true },
        line("\ny"),
    ];
    assert_eq!(render_syntax_tree(&value_first, &mut ctx).unwrap(), "  1\n2\n  y");
    let with_comment = vec![SyntaxItem::Comment { standalone: false }, line("a")];
    assert_eq!(render_syntax_tree(&with_comment, &mut ctx).unwrap(), "  a");
    assert_eq!(render_syntax_tree(&Vec::new(), &mut ctx).unwrap(), "");
}
