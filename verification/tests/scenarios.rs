use ribboncurls::render;

#[test]
fn scenario_hello_world() {
    assert_eq!(render("Hello, {{name}}!", "name: World", None).unwrap(), "Hello, World!");
}

#[test]
fn scenario_raw_and_escaped() {
    assert_eq!(
        render("<{{&h}}>\n<{{h}}>", "h: \"a<b\"", None).unwrap(),
        "<a<b>\n<a&lt;b>"
    );
}

#[test]
fn scenario_list_items() {
    assert_eq!(
        render("{{#items}}- {{.}}\n{{/items}}", "items: [a,b,c]", None).unwrap(),
        "- a\n- b\n- c\n"
    );
}

#[test]
fn scenario_standalone_comment() {
    assert_eq!(render("Hi\n  {{! comment }}\nX", "{}", None).unwrap(), "Hi\nX");
}

#[test]
fn scenario_indented_partial() {
    assert_eq!(
        render("  {{>p}}\n", "{}", Some("p: \"line1\\nline2\\n\"")).unwrap(),
        "  line1\n  line2\n"
    );
}

#[test]
fn standalone_partial_takes_the_line_break_of_its_line() {
    assert_eq!(
        render("  {{>p}}\n", "{}", Some("p: \"line1\\nline2\"")).unwrap(),
        "  line1\n  line2"
    );
}

#[test]
fn scenario_changed_delimiters() {
    assert_eq!(render("{{=<% %>=}}<%x%>", "x: 1", None).unwrap(), "1");
}

#[test]
fn dotted_name_found() {
    assert_eq!(render("{{a.b}}", "{a: {b: 1}}", None).unwrap(), "1");
}

#[test]
fn dotted_name_missing_is_empty() {
    assert_eq!(render("{{a.b}}", "{a: {}}", None).unwrap(), "");
}

#[test]
fn dotted_key_held_whole_takes_precedence() {
    assert_eq!(render("{{a.b}}", "{\"a.b\": whole, a: {b: nested}}", None).unwrap(), "whole");
}

fn truthiness(value: &str) -> String {
    let data = format!("s: {}", value);
    render("{{#s}}Y{{/s}}{{^s}}N{{/s}}", &data, None).unwrap()
}

#[test]
fn truthiness_of_scalars() {
    assert_eq!(truthiness("true"), "Y");
    assert_eq!(truthiness("false"), "N");
    assert_eq!(truthiness("null"), "N");
    assert_eq!(truthiness("\"\""), "N");
    assert_eq!(truthiness("text"), "Y");
    assert_eq!(truthiness("0"), "Y");
    assert_eq!(truthiness("3.5"), "Y");
}

#[test]
fn truthiness_of_containers() {
    assert_eq!(truthiness("[]"), "N");
    assert_eq!(truthiness("{}"), "N");
    assert_eq!(truthiness("{k: v}"), "Y");
    assert_eq!(truthiness("[1]"), "Y");
    assert_eq!(truthiness("[1, 2, 3]"), "YYY");
    assert_eq!(truthiness("[false, null]"), "YY");
}

#[test]
fn truthiness_of_missing_name() {
    assert_eq!(render("{{#s}}Y{{/s}}{{^s}}N{{/s}}", "{}", None).unwrap(), "N");
}

#[test]
fn partial_lines_are_indented() {
    assert_eq!(
        render("x\n    {{>p}}\ny", "{}", Some("p: \"a\\nb\\nc\\n\"")).unwrap(),
        "x\n    a\n    b\n    c\ny"
    );
}

#[test]
fn partial_trailing_newline_gets_no_indent() {
    assert_eq!(render(" {{>p}}\n", "{}", Some("p: \"a\\n\"")).unwrap(), " a\n");
}

#[test]
fn partial_value_is_not_indented() {
    assert_eq!(
        render("  {{>p}}\n", "v: \"1\\n2\"", Some("p: \"[{{{v}}}]\\n\"")).unwrap(),
        "  [1\n2]\n"
    );
}

#[test]
fn partial_indentation_with_crlf() {
    assert_eq!(
        render("\r\n  {{>p}}\r\n", "{}", Some("p: \"a\\r\\nb\"")).unwrap(),
        "\r\n  a\r\n  b"
    );
}

#[test]
fn delimiters_changed_in_partial_stay_there() {
    assert_eq!(
        render(
            "{{>p}}{{x}}<%x%>",
            "x: 1",
            Some("p: '{{=<% %>=}}<%x%>{{x}}'")
        )
        .unwrap(),
        "1{{x}}1<%x%>"
    );
}

#[test]
fn partial_starts_with_default_delimiters() {
    assert_eq!(
        render("{{=<% %>=}}<%>p%>", "x: 1", Some("p: '{{x}}<%x%>'")).unwrap(),
        "1<%x%>"
    );
}

#[test]
fn data_that_is_not_yaml_is_a_string() {
    assert_eq!(render("[{{.}}]", "a: b: c", None).unwrap(), "[a: b: c]");
}

#[test]
fn empty_data_renders_literal_template() {
    assert_eq!(render("plain", "", None).unwrap(), "plain");
}

#[test]
fn boolean_true_reads_as_true() {
    assert_eq!(render("{{a}}|{{b}}", "{a: true, b: false}", None).unwrap(), "true|");
}

#[test]
fn containers_read_as_nothing() {
    assert_eq!(render("[{{a}}][{{b}}]", "{a: [1, 2], b: {c: 1}}", None).unwrap(), "[][]");
}

#[test]
fn apostrophe_is_escaped() {
    assert_eq!(render("{{a}}", "a: \"it's\"", None).unwrap(), "it&#39;s");
}

#[test]
fn dot_inside_scalar_section_is_the_value() {
    assert_eq!(render("{{#n}}{{.}}{{/n}}", "n: 7", None).unwrap(), "7");
}

#[test]
fn dot_at_root_mapping_reads_as_nothing() {
    assert_eq!(render("[{{.}}]", "{a: 1}", None).unwrap(), "[]");
}

#[test]
fn unknown_partial_is_empty() {
    assert_eq!(render("[{{>nope}}]", "{}", Some("other: x")).unwrap(), "[]");
}

#[test]
fn partial_that_is_not_text_is_empty() {
    assert_eq!(render("[{{>p}}]", "{}", Some("p: [1, 2]")).unwrap(), "[]");
}

#[test]
fn mixed_line_endings_use_lf() {
    assert_eq!(render("a\r\n{{! c }}\nb\n", "{}", None).unwrap(), "a\r\nb\n");
}

fn same_with_and_without(with_line: &str, without_line: &str, data: &str) {
    let with = render(with_line, data, None).unwrap();
    let without = render(without_line, data, None).unwrap();
    assert_eq!(with, without);
}

#[test]
fn comment_line_leaves_no_trace() {
    same_with_and_without("Hi\n  {{! comment }}\nX", "Hi\nX", "{}");
    same_with_and_without("a\n{{! c }}\nb\n\t{{! d }}\n{{x}}\n", "a\nb\n{{x}}\n", "x: 1");
    same_with_and_without("a\r\n {{!\r\n c }}\r\nb\r\n", "a\r\nb\r\n", "{}");
    same_with_and_without("{{#s}}\n{{.}}\n  {{! c }}\n{{/s}}\n", "{{#s}}\n{{.}}\n{{/s}}\n", "s: [1, 2]");
}

#[test]
fn delimiter_line_leaves_no_trace() {
    same_with_and_without("a\n  {{=<% %>=}}\nb", "a\nb", "{}");
    assert_eq!(render("a\n  {{=<% %>=}}\n<%x%>", "x: 1", None).unwrap(), "a\n1");
}

#[test]
fn section_lines_leave_their_content() {
    same_with_and_without("a\n  {{#s}}\nb\n  {{/s}}\nc", "a\n{{#s}}b\n{{/s}}c", "s: true");
    assert_eq!(render("a\n  {{#s}}\nb\n  {{/s}}\nc", "s: true", None).unwrap(), "a\nb\nc");
    assert_eq!(render("a\n  {{#s}}\nb\n  {{/s}}\nc", "s: false", None).unwrap(), "a\nc");
    assert_eq!(render("a\n  {{^s}}\nb\n  {{/s}}\nc", "s: false", None).unwrap(), "a\nb\nc");
}

#[test]
fn long_templates_render() {
    let template = "plain line\n  {{! note }}\nvalue {{x}} here\n{{#s}}\n- {{.}}\n{{/s}}\n".repeat(2000);
    let expected = "plain line\nvalue 1 here\n- a\n- b\n".repeat(2000);
    assert_eq!(render(&template, "{x: 1, s: [a, b]}", None).unwrap(), expected);
    let plain = "no tags on this line at all\n".repeat(20000);
    assert_eq!(render(&plain, "{}", None).unwrap(), plain);
}

#[test]
fn comment_on_the_first_line_leaves_no_trace() {
    same_with_and_without("  {{! comment }}\nX", "X", "{}");
    same_with_and_without("{{! comment }}\n", "", "{}");
    same_with_and_without("\t{{! a }}\n  {{! b }}\n{{x}}", "  {{! b }}\n{{x}}", "x: 1");
    same_with_and_without("{{! a }}\n\nb", "\nb", "{}");
    same_with_and_without(" {{! a }}\n  {{#s}}\nb\n  {{/s}}\n", "  {{#s}}\nb\n  {{/s}}\n", "s: 1");
}

#[test]
fn partial_with_a_section_is_indented_on_every_line() {
    assert_eq!(
        render("  {{>p}}\n", "s: true", Some("p: \"{{#s}}\\nfoo\\n{{/s}}\\n\"")).unwrap(),
        "  foo\n"
    );
    assert_eq!(
        render("  {{>p}}\n", "s: [1, 2]", Some("p: \"{{#s}}\\n- {{.}}\\n{{/s}}\\n\"")).unwrap(),
        "  - 1\n  - 2\n"
    );
}

#[test]
fn partial_that_begins_with_a_variable_is_indented() {
    assert_eq!(
        render(" {{>p}}\n", "x: 1", Some("p: \"{{x}}\\ny\\n\"")).unwrap(),
        " 1\n y\n"
    );
}

#[test]
fn partial_keeps_blank_lines_indented_but_for_the_last_line_break() {
    assert_eq!(
        render("  {{>p}}\n", "{}", Some("p: \"a\\n\\nb\\n\"")).unwrap(),
        "  a\n  \n  b\n"
    );
}

#[test]
fn comment_on_the_last_line_leaves_no_trace() {
    same_with_and_without("a\n  {{! comment }}", "a\n", "{}");
    same_with_and_without("{{x}}\r\n\t{{! c }}", "{{x}}\r\n", "x: 1");
    same_with_and_without("  {{! alone }}", "", "{}");
    same_with_and_without("{{#s}}\n{{.}}\n{{/s}}\n {{! c }}", "{{#s}}\n{{.}}\n{{/s}}\n", "s: [1, 2]");
    assert_eq!(render("a\n  {{! comment }}", "{}", None).unwrap(), "a\n");
}

#[test]
fn delimiter_change_on_the_last_line_leaves_no_trace() {
    same_with_and_without("a\n  {{=<% %>=}}", "a\n", "{}");
    same_with_and_without("a\n{{=| |=}}\nb\nc }} d\n", "a\nb\nc }} d\n", "{}");
    assert_eq!(render("a\n  {{=<% %>=}}\nb }}x\n", "x: 1", None).unwrap(), "a\nb }}x\n");
}

#[test]
fn comment_with_a_brace_inside_leaves_no_trace() {
    same_with_and_without("a\n  {{! a } b }}\nX", "a\nX", "{}");
    same_with_and_without("{{! } }}\n{{x}}", "{{x}}", "x: 1");
    same_with_and_without("{{x}}\n {{! {{ } }}", "{{x}}\n", "x: 1");
    assert_eq!(render("\t{{! } { } }}", "{}", None).unwrap(), "");
}

#[test]
fn delimiter_change_on_the_first_line_leaves_no_trace() {
    same_with_and_without("  {{=<% %>=}}\nabc", "abc", "{}");
    same_with_and_without("{{=| |=}}\n\nb }}\n", "\nb }}\n", "{}");
    same_with_and_without("\t{{=<% %>=}}\n", "", "{}");
    assert_eq!(render("  {{=<% %>=}}\n<%x%>\n", "x: 1", None).unwrap(), "1\n");
}

#[test]
fn delimiter_change_alone_renders_to_nothing() {
    assert_eq!(render("  {{=<% %>=}}", "{}", None).unwrap(), "");
    assert_eq!(render("{{= | | =}}", "{}", None).unwrap(), "");
}

#[test]
fn indented_partial_is_its_expansion_line_by_line() {
    let partials = "p: \"a\\n{{#l}}\\n- x\\n\\n{{/l}}\\n{{! note }}\\nb\\n\"";
    let flat = render("{{>p}}\n", "l: [1, 2]", Some(partials)).unwrap();
    assert_eq!(flat, "a\n- x\n\n- x\n\nb\n");
    let indented = render("  {{>p}}\n", "l: [1, 2]", Some(partials)).unwrap();
    assert_eq!(indented, "  a\n  - x\n  \n  - x\n  \n  b\n");
    let skipped = render("\t\t{{>p}}\n", "l: []", Some(partials)).unwrap();
    assert_eq!(skipped, "  a\n  b\n");
    let valued = "p: \"{{#l}}\\n{{.}}: {{n}}\\n{{/l}}\\n\"";
    let flat = render("{{>p}}\n", "{l: [a, b], n: 1}", Some(valued)).unwrap();
    assert_eq!(flat, "a: 1\nb: 1\n");
    let indented = render(" {{>p}}\n", "{l: [a, b], n: 1}", Some(valued)).unwrap();
    assert_eq!(indented, " a: 1\n b: 1\n");
}
