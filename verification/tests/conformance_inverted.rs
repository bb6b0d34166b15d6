use ribboncurls::render;

fn rendered(template: &str, data: &str) -> String {
    render(template, data, None).unwrap()
}

#[test]
fn inverted_falsey() {
    assert_eq!(
        rendered("\"{{^boolean}}This should be rendered.{{/boolean}}\"", "boolean: false"),
        "\"This should be rendered.\""
    );
}

#[test]
fn inverted_truthy() {
    assert_eq!(
        rendered("\"{{^boolean}}This should not be rendered.{{/boolean}}\"", "boolean: true"),
        "\"\""
    );
}

#[test]
fn inverted_null_is_falsey() {
    assert_eq!(
        rendered("\"{{^null}}This should be rendered.{{/null}}\"", "\"null\": null"),
        "\"This should be rendered.\""
    );
}

#[test]
fn inverted_context() {
    assert_eq!(
        rendered("\"{{^context}}Hi {{name}}.{{/context}}\"", "context: {name: Joe}"),
        "\"\""
    );
}

#[test]
fn inverted_list() {
    assert_eq!(
        rendered("\"{{^list}}{{n}}{{/list}}\"", "list: [{n: 1}, {n: 2}, {n: 3}]"),
        "\"\""
    );
}

#[test]
fn inverted_empty_list() {
    assert_eq!(rendered("\"{{^list}}Yay lists!{{/list}}\"", "list: []"), "\"Yay lists!\"");
}

#[test]
fn inverted_doubled() {
    let template = "{{^bool}}\n* first\n{{/bool}}\n* {{two}}\n{{^bool}}\n* third\n{{/bool}}\n";
    assert_eq!(
        rendered(template, "{bool: false, two: second}"),
        "* first\n* second\n* third\n"
    );
}

#[test]
fn inverted_nested_falsey() {
    assert_eq!(
        rendered("| A {{^bool}}B {{^bool}}C{{/bool}} D{{/bool}} E |", "bool: false"),
        "| A B C D E |"
    );
}

#[test]
fn inverted_nested_truthy() {
    assert_eq!(
        rendered("| A {{^bool}}B {{^bool}}C{{/bool}} D{{/bool}} E |", "bool: true"),
        "| A  E |"
    );
}

#[test]
fn inverted_context_misses() {
    assert_eq!(
        rendered("[{{^missing}}Cannot find key 'missing'!{{/missing}}]", "{}"),
        "[Cannot find key 'missing'!]"
    );
}

#[test]
fn inverted_dotted_names_truthy() {
    assert_eq!(
        rendered("\"{{^a.b.c}}Not Here{{/a.b.c}}\" == \"\"", "a: {b: {c: true}}"),
        "\"\" == \"\""
    );
}

#[test]
fn inverted_dotted_names_falsey() {
    assert_eq!(
        rendered("\"{{^a.b.c}}Not Here{{/a.b.c}}\" == \"Not Here\"", "a: {b: {c: false}}"),
        "\"Not Here\" == \"Not Here\""
    );
}

#[test]
fn inverted_dotted_names_broken_chains() {
    assert_eq!(
        rendered("\"{{^a.b.c}}Not Here{{/a.b.c}}\" == \"Not Here\"", "a: {}"),
        "\"Not Here\" == \"Not Here\""
    );
}

#[test]
fn inverted_surrounding_whitespace() {
    assert_eq!(
        rendered(" | {{^boolean}}\t|\t{{/boolean}} | \n", "boolean: false"),
        " | \t|\t | \n"
    );
}

#[test]
fn inverted_internal_whitespace() {
    assert_eq!(
        rendered(
            " | {{^boolean}} {{! Important Whitespace }}\n {{/boolean}} | \n",
            "boolean: false"
        ),
        " |  \n  | \n"
    );
}

#[test]
fn inverted_indented_inline_sections() {
    assert_eq!(
        rendered(
            " {{^boolean}}NO{{/boolean}}\n {{^boolean}}WAY{{/boolean}}\n",
            "boolean: false"
        ),
        " NO\n WAY\n"
    );
}

#[test]
fn inverted_standalone_lines() {
    assert_eq!(
        rendered("| This Is\n{{^boolean}}\n|\n{{/boolean}}\n| A Line\n", "boolean: false"),
        "| This Is\n|\n| A Line\n"
    );
}

#[test]
fn inverted_standalone_indented_lines() {
    assert_eq!(
        rendered("| This Is\n  {{^boolean}}\n|\n  {{/boolean}}\n| A Line\n", "boolean: false"),
        "| This Is\n|\n| A Line\n"
    );
}

#[test]
fn inverted_standalone_line_endings() {
    assert_eq!(rendered("|\r\n{{^boolean}}\r\n{{/boolean}}\r\n|", "boolean: false"), "|\r\n|");
}

#[test]
fn inverted_standalone_without_previous_line() {
    assert_eq!(rendered("  {{^boolean}}\n^{{/boolean}}\n/", "boolean: false"), "^\n/");
}

#[test]
fn inverted_standalone_without_newline() {
    assert_eq!(rendered("^{{^boolean}}\n/\n  {{/boolean}}", "boolean: false"), "^\n/\n");
}

#[test]
fn inverted_padding() {
    assert_eq!(rendered("|{{^ boolean }}={{/ boolean }}|", "boolean: false"), "|=|");
}
