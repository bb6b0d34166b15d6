use ribboncurls::render;

fn rendered(template: &str, data: &str, partials: &str) -> String {
    render(template, data, Some(partials)).unwrap()
}

#[test]
fn partials_basic_behavior() {
    assert_eq!(rendered("\"{{>text}}\"", "{}", "text: from partial"), "\"from partial\"");
}

#[test]
fn partials_failed_lookup() {
    assert_eq!(rendered("\"{{>text}}\"", "{}", "{}"), "\"\"");
}

#[test]
fn partials_context() {
    assert_eq!(
        rendered("\"{{>partial}}\"", "text: content", "partial: '*{{text}}*'"),
        "\"*content*\""
    );
}

#[test]
fn partials_recursion() {
    assert_eq!(
        rendered(
            "{{>node}}",
            "{content: X, nodes: [{content: Y, nodes: []}]}",
            "node: '{{content}}<{{#nodes}}{{>node}}{{/nodes}}>'"
        ),
        "X<Y<>>"
    );
}

#[test]
fn partials_nested() {
    assert_eq!(
        rendered(
            "{{>outer}}",
            "{a: hello, b: world}",
            "{outer: '*{{a}} {{>inner}}*', inner: '{{b}}!'}"
        ),
        "*hello world!*"
    );
}

#[test]
fn partials_surrounding_whitespace() {
    assert_eq!(rendered("| {{>partial}} |", "{}", "partial: \"\\t|\\t\""), "| \t|\t |");
}

#[test]
fn partials_inline_indentation() {
    assert_eq!(
        rendered("  {{data}}  {{> partial}}\n", "data: '|'", "partial: \">\\n>\""),
        "  |  >\n>\n"
    );
}

#[test]
fn partials_standalone_line_endings() {
    assert_eq!(rendered("|\r\n{{>partial}}\r\n|", "{}", "partial: '>'"), "|\r\n>|");
}

#[test]
fn partials_standalone_without_previous_line() {
    assert_eq!(rendered("  {{>partial}}\n>", "{}", "partial: \">\\n>\""), "  >\n  >>");
}

#[test]
fn partials_standalone_without_newline() {
    assert_eq!(rendered(">\n  {{>partial}}", "{}", "partial: \">\\n>\""), ">\n  >\n  >");
}

#[test]
fn partials_standalone_indentation() {
    assert_eq!(
        rendered(
            "\\\n {{>partial}}\n/\n",
            "content: \"<\\n->\"",
            "partial: \"|\\n{{{content}}}\\n|\\n\""
        ),
        "\\\n |\n <\n->\n |\n/\n"
    );
}

#[test]
fn partials_padding_whitespace() {
    assert_eq!(rendered("|{{> partial }}|", "boolean: true", "partial: '[]'"), "|[]|");
}
