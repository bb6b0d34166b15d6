use ribboncurls::render;

fn rendered(template: &str, data: &str) -> String {
    render(template, data, None).unwrap()
}

#[test]
fn section_truthy() {
    assert_eq!(
        rendered("\"{{#boolean}}This should be rendered.{{/boolean}}\"", "boolean: true"),
        "\"This should be rendered.\""
    );
}

#[test]
fn section_falsey() {
    assert_eq!(
        rendered("\"{{#boolean}}This should not be rendered.{{/boolean}}\"", "boolean: false"),
        "\"\""
    );
}

#[test]
fn section_null_is_falsey() {
    assert_eq!(
        rendered("\"{{#null}}This should not be rendered.{{/null}}\"", "\"null\": null"),
        "\"\""
    );
}

#[test]
fn section_context() {
    assert_eq!(
        rendered("\"{{#context}}Hi {{name}}.{{/context}}\"", "context: {name: Joe}"),
        "\"Hi Joe.\""
    );
}

#[test]
fn section_parent_contexts() {
    assert_eq!(
        rendered(
            "\"{{#sec}}{{a}}, {{b}}, {{c.d}}{{/sec}}\"",
            "{a: foo, b: wrong, sec: {b: bar}, c: {d: baz}}"
        ),
        "\"foo, bar, baz\""
    );
}

#[test]
fn section_variable_test() {
    assert_eq!(rendered("\"{{#foo}}{{.}} is {{foo}}{{/foo}}\"", "foo: bar"), "\"bar is bar\"");
}

#[test]
fn section_list_contexts() {
    let data = "{tops: [{tname: {upper: A, lower: a}, middles: [{mname: '1', bottoms: [{bname: x}, {bname: y}]}]}]}";
    let template = "{{#tops}}{{#middles}}{{tname.lower}}{{mname}}.{{#bottoms}}{{tname.upper}}{{mname}}{{bname}}.{{/bottoms}}{{/middles}}{{/tops}}";
    assert_eq!(rendered(template, data), "a1.A1x.A1y.");
}

#[test]
fn section_deeply_nested_contexts() {
    let data = "{a: {one: 1}, b: {two: 2}, c: {three: 3, d: {four: 4, five: 5}}}";
    let template = "{{#a}}\n{{one}}\n{{#b}}\n{{one}}{{two}}{{one}}\n{{#c}}\n{{one}}{{two}}{{three}}{{two}}{{one}}\n{{#d}}\n{{one}}{{two}}{{three}}{{four}}{{three}}{{two}}{{one}}\n{{#five}}\n{{one}}{{two}}{{three}}{{four}}{{five}}{{four}}{{three}}{{two}}{{one}}\n{{one}}{{two}}{{three}}{{four}}{{.}}6{{.}}{{four}}{{three}}{{two}}{{one}}\n{{one}}{{two}}{{three}}{{four}}{{five}}{{four}}{{three}}{{two}}{{one}}\n{{/five}}\n{{one}}{{two}}{{three}}{{four}}{{three}}{{two}}{{one}}\n{{/d}}\n{{one}}{{two}}{{three}}{{two}}{{one}}\n{{/c}}\n{{one}}{{two}}{{one}}\n{{/b}}\n{{one}}\n{{/a}}\n";
    let expected = "1\n121\n12321\n1234321\n123454321\n12345654321\n123454321\n1234321\n12321\n121\n1\n";
    assert_eq!(rendered(template, data), expected);
}

#[test]
fn section_list() {
    assert_eq!(
        rendered("\"{{#list}}{{item}}{{/list}}\"", "list: [{item: 1}, {item: 2}, {item: 3}]"),
        "\"123\""
    );
}

#[test]
fn section_empty_list() {
    assert_eq!(rendered("\"{{#list}}Yay lists!{{/list}}\"", "list: []"), "\"\"");
}

#[test]
fn section_doubled() {
    let template = "{{#bool}}\n* first\n{{/bool}}\n* {{two}}\n{{#bool}}\n* third\n{{/bool}}\n";
    assert_eq!(
        rendered(template, "{bool: true, two: second}"),
        "* first\n* second\n* third\n"
    );
}

#[test]
fn section_nested_truthy() {
    assert_eq!(
        rendered("| A {{#bool}}B {{#bool}}C{{/bool}} D{{/bool}} E |", "bool: true"),
        "| A B C D E |"
    );
}

#[test]
fn section_nested_falsey() {
    assert_eq!(
        rendered("| A {{#bool}}B {{#bool}}C{{/bool}} D{{/bool}} E |", "bool: false"),
        "| A  E |"
    );
}

#[test]
fn section_context_misses() {
    assert_eq!(rendered("[{{#missing}}Found key 'missing'!{{/missing}}]", "{}"), "[]");
}

#[test]
fn section_implicit_iterator_string() {
    assert_eq!(
        rendered("\"{{#list}}({{.}}){{/list}}\"", "list: [a, b, c, d, e]"),
        "\"(a)(b)(c)(d)(e)\""
    );
}

#[test]
fn section_implicit_iterator_integer() {
    assert_eq!(
        rendered("\"{{#list}}({{.}}){{/list}}\"", "list: [1, 2, 3, 4, 5]"),
        "\"(1)(2)(3)(4)(5)\""
    );
}

#[test]
fn section_implicit_iterator_decimal() {
    assert_eq!(
        rendered("\"{{#list}}({{.}}){{/list}}\"", "list: [1.1, 2.2, 3.3, 4.4, 5.5]"),
        "\"(1.1)(2.2)(3.3)(4.4)(5.5)\""
    );
}

#[test]
fn section_implicit_iterator_array() {
    assert_eq!(
        rendered("\"{{#list}}({{#.}}{{.}}{{/.}}){{/list}}\"", "list: [[1, 2, 3], [a, b, c]]"),
        "\"(123)(abc)\""
    );
}

#[test]
fn section_implicit_iterator_html_escaping() {
    assert_eq!(
        rendered("\"{{#list}}({{.}}){{/list}}\"", "list: ['&', '\"', '<', '>']"),
        "\"(&amp;)(&quot;)(&lt;)(&gt;)\""
    );
}

#[test]
fn section_implicit_iterator_triple_mustache() {
    assert_eq!(
        rendered("\"{{#list}}({{{.}}}){{/list}}\"", "list: ['&', '\"', '<', '>']"),
        "\"(&)(\")(<)(>)\""
    );
}

#[test]
fn section_implicit_iterator_ampersand() {
    assert_eq!(
        rendered("\"{{#list}}({{&.}}){{/list}}\"", "list: ['&', '\"', '<', '>']"),
        "\"(&)(\")(<)(>)\""
    );
}

#[test]
fn section_implicit_iterator_root_level() {
    assert_eq!(
        rendered("\"{{#.}}({{value}}){{/.}}\"", "[{value: a}, {value: b}]"),
        "\"(a)(b)\""
    );
}

#[test]
fn section_dotted_names_truthy() {
    assert_eq!(
        rendered("\"{{#a.b.c}}Here{{/a.b.c}}\" == \"Here\"", "a: {b: {c: true}}"),
        "\"Here\" == \"Here\""
    );
}

#[test]
fn section_dotted_names_falsey() {
    assert_eq!(
        rendered("\"{{#a.b.c}}Here{{/a.b.c}}\" == \"\"", "a: {b: {c: false}}"),
        "\"\" == \"\""
    );
}

#[test]
fn section_dotted_names_broken_chains() {
    assert_eq!(rendered("\"{{#a.b.c}}Here{{/a.b.c}}\" == \"\"", "a: {}"), "\"\" == \"\"");
}

#[test]
fn section_surrounding_whitespace() {
    assert_eq!(
        rendered(" | {{#boolean}}\t|\t{{/boolean}} | \n", "boolean: true"),
        " | \t|\t | \n"
    );
}

#[test]
fn section_internal_whitespace() {
    assert_eq!(
        rendered(
            " | {{#boolean}} {{! Important Whitespace }}\n {{/boolean}} | \n",
            "boolean: true"
        ),
        " |  \n  | \n"
    );
}

#[test]
fn section_indented_inline_sections() {
    assert_eq!(
        rendered(
            " {{#boolean}}YES{{/boolean}}\n {{#boolean}}GOOD{{/boolean}}\n",
            "boolean: true"
        ),
        " YES\n GOOD\n"
    );
}

#[test]
fn section_standalone_lines() {
    assert_eq!(
        rendered("| This Is\n{{#boolean}}\n|\n{{/boolean}}\n| A Line\n", "boolean: true"),
        "| This Is\n|\n| A Line\n"
    );
}

#[test]
fn section_indented_standalone_lines() {
    assert_eq!(
        rendered("| This Is\n  {{#boolean}}\n|\n  {{/boolean}}\n| A Line\n", "boolean: true"),
        "| This Is\n|\n| A Line\n"
    );
}

#[test]
fn section_standalone_line_endings() {
    assert_eq!(rendered("|\r\n{{#boolean}}\r\n{{/boolean}}\r\n|", "boolean: true"), "|\r\n|");
}

#[test]
fn section_standalone_without_previous_line() {
    assert_eq!(rendered("  {{#boolean}}\n#{{/boolean}}\n/", "boolean: true"), "#\n/");
}

#[test]
fn section_standalone_without_newline() {
    assert_eq!(rendered("#{{#boolean}}\n/\n  {{/boolean}}", "boolean: true"), "#\n/\n");
}

#[test]
fn section_padding() {
    assert_eq!(rendered("|{{# boolean }}={{/ boolean }}|", "boolean: true"), "|=|");
}
