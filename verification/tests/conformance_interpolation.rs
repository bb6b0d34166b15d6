use ribboncurls::render;

fn rendered(template: &str, data: &str) -> String {
    render(template, data, None).unwrap()
}

#[test]
fn interpolation_none() {
    assert_eq!(rendered("Hello from {Mustache}!\n", "{}"), "Hello from {Mustache}!\n");
}

#[test]
fn interpolation_basic() {
    assert_eq!(rendered("Hello, {{subject}}!\n", "subject: world"), "Hello, world!\n");
}

#[test]
fn interpolation_html_escaping() {
    assert_eq!(
        rendered(
            "These characters should be HTML escaped: {{forbidden}}\n",
            "forbidden: '& \" < >'"
        ),
        "These characters should be HTML escaped: &amp; &quot; &lt; &gt;\n"
    );
}

#[test]
fn interpolation_triple_mustache() {
    assert_eq!(
        rendered(
            "These characters should not be HTML escaped: {{{forbidden}}}\n",
            "forbidden: '& \" < >'"
        ),
        "These characters should not be HTML escaped: & \" < >\n"
    );
}

#[test]
fn interpolation_ampersand() {
    assert_eq!(
        rendered(
            "These characters should not be HTML escaped: {{&forbidden}}\n",
            "forbidden: '& \" < >'"
        ),
        "These characters should not be HTML escaped: & \" < >\n"
    );
}

#[test]
fn interpolation_basic_integer() {
    assert_eq!(rendered("\"{{mph}} miles an hour!\"", "mph: 85"), "\"85 miles an hour!\"");
}

#[test]
fn interpolation_triple_mustache_integer() {
    assert_eq!(rendered("\"{{{mph}}} miles an hour!\"", "mph: 85"), "\"85 miles an hour!\"");
}

#[test]
fn interpolation_ampersand_integer() {
    assert_eq!(rendered("\"{{&mph}} miles an hour!\"", "mph: 85"), "\"85 miles an hour!\"");
}

#[test]
fn interpolation_basic_decimal() {
    assert_eq!(rendered("\"{{power}} jiggawatts!\"", "power: 1.21"), "\"1.21 jiggawatts!\"");
}

#[test]
fn interpolation_negative_integer() {
    assert_eq!(rendered("{{n}}", "n: -7"), "-7");
}

#[test]
fn interpolation_basic_null() {
    assert_eq!(rendered("I ({{cant}}) be seen!", "cant: null"), "I () be seen!");
}

#[test]
fn interpolation_triple_mustache_null() {
    assert_eq!(rendered("I ({{{cant}}}) be seen!", "cant: null"), "I () be seen!");
}

#[test]
fn interpolation_basic_context_miss() {
    assert_eq!(rendered("I ({{cant}}) be seen!", "{}"), "I () be seen!");
}

#[test]
fn interpolation_ampersand_context_miss() {
    assert_eq!(rendered("I ({{&cant}}) be seen!", "{}"), "I () be seen!");
}

#[test]
fn interpolation_dotted_names_basic() {
    assert_eq!(
        rendered(
            "\"{{person.name}}\" == \"{{#person}}{{name}}{{/person}}\"",
            "person: {name: Joe}"
        ),
        "\"Joe\" == \"Joe\""
    );
}

#[test]
fn interpolation_dotted_names_triple_mustache() {
    assert_eq!(
        rendered(
            "\"{{{person.name}}}\" == \"{{#person}}{{{name}}}{{/person}}\"",
            "person: {name: Joe}"
        ),
        "\"Joe\" == \"Joe\""
    );
}

#[test]
fn interpolation_dotted_names_arbitrary_depth() {
    assert_eq!(
        rendered("\"{{a.b.c.d.e.name}}\" == \"Phil\"", "a: {b: {c: {d: {e: {name: Phil}}}}}"),
        "\"Phil\" == \"Phil\""
    );
}

#[test]
fn interpolation_dotted_names_broken_chains() {
    assert_eq!(rendered("\"{{a.b.c}}\" == \"\"", "a: {}"), "\"\" == \"\"");
}

#[test]
fn interpolation_dotted_names_broken_chain_resolution() {
    assert_eq!(
        rendered("\"{{a.b.c.name}}\" == \"\"", "{a: {b: {}}, c: {name: Jim}}"),
        "\"\" == \"\""
    );
}

#[test]
fn interpolation_dotted_names_initial_resolution() {
    let data = "{a: {b: {c: {d: {e: {name: Phil}}}}}, b: {c: {d: {e: {name: Wrong}}}}}";
    assert_eq!(
        rendered("\"{{#a}}{{b.c.d.e.name}}{{/a}}\" == \"Phil\"", data),
        "\"Phil\" == \"Phil\""
    );
}

#[test]
fn interpolation_dotted_names_context_precedence() {
    assert_eq!(rendered("{{#a}}{{b.c}}{{/a}}", "{a: {b: {}}, b: {c: ERROR}}"), "");
}

#[test]
fn interpolation_implicit_iterator_basic() {
    assert_eq!(rendered("Hello, {{.}}!\n", "world"), "Hello, world!\n");
}

#[test]
fn interpolation_implicit_iterator_html_escaping() {
    assert_eq!(
        rendered("These characters should be HTML escaped: {{.}}\n", "'& \" < >'"),
        "These characters should be HTML escaped: &amp; &quot; &lt; &gt;\n"
    );
}

#[test]
fn interpolation_implicit_iterator_triple_mustache() {
    assert_eq!(
        rendered("These characters should not be HTML escaped: {{{.}}}\n", "'& \" < >'"),
        "These characters should not be HTML escaped: & \" < >\n"
    );
}

#[test]
fn interpolation_implicit_iterator_integer() {
    assert_eq!(rendered("\"{{.}} miles an hour!\"", "85"), "\"85 miles an hour!\"");
}

#[test]
fn interpolation_surrounding_whitespace() {
    assert_eq!(rendered("| {{string}} |", "string: '---'"), "| --- |");
}

#[test]
fn interpolation_triple_mustache_surrounding_whitespace() {
    assert_eq!(rendered("| {{{string}}} |", "string: '---'"), "| --- |");
}

#[test]
fn interpolation_ampersand_surrounding_whitespace() {
    assert_eq!(rendered("| {{&string}} |", "string: '---'"), "| --- |");
}

#[test]
fn interpolation_standalone() {
    assert_eq!(rendered("  {{string}}\n", "string: '---'"), "  ---\n");
}

#[test]
fn interpolation_triple_mustache_standalone() {
    assert_eq!(rendered("  {{{string}}}\n", "string: '---'"), "  ---\n");
}

#[test]
fn interpolation_ampersand_standalone() {
    assert_eq!(rendered("  {{&string}}\n", "string: '---'"), "  ---\n");
}

#[test]
fn interpolation_with_padding() {
    assert_eq!(rendered("|{{ string }}|", "string: '---'"), "|---|");
}

#[test]
fn interpolation_triple_mustache_with_padding() {
    assert_eq!(rendered("|{{{ string }}}|", "string: '---'"), "|---|");
}

#[test]
fn interpolation_ampersand_with_padding() {
    assert_eq!(rendered("|{{& string }}|", "string: '---'"), "|---|");
}
