use ribboncurls::render;

fn rendered(template: &str, data: &str) -> String {
    render(template, data, None).unwrap()
}

#[test]
fn delimiters_pair_behavior() {
    assert_eq!(rendered("{{=<% %>=}}(<%text%>)", "text: Hey!"), "(Hey!)");
}

#[test]
fn delimiters_special_characters() {
    assert_eq!(rendered("({{=[ ]=}}[text])", "text: It worked!"), "(It worked!)");
}

#[test]
fn delimiters_sections() {
    let template = "[\n{{#section}}\n  {{data}}\n  |data|\n{{/section}}\n\n{{= | | =}}\n|#section|\n  {{data}}\n  |data|\n|/section|\n]\n";
    let expected = "[\n  I got interpolated.\n  |data|\n\n  {{data}}\n  I got interpolated.\n]\n";
    assert_eq!(rendered(template, "{section: true, data: I got interpolated.}"), expected);
}

#[test]
fn delimiters_inverted_sections() {
    let template = "[\n{{^section}}\n  {{data}}\n  |data|\n{{/section}}\n\n{{= | | =}}\n|^section|\n  {{data}}\n  |data|\n|/section|\n]\n";
    let expected = "[\n  I got interpolated.\n  |data|\n\n  {{data}}\n  I got interpolated.\n]\n";
    assert_eq!(rendered(template, "{section: false, data: I got interpolated.}"), expected);
}

#[test]
fn delimiters_partial_inheritence() {
    let output = render(
        "[ {{>include}} ]\n{{= | | =}}\n[ |>include| ]\n",
        "value: yes",
        Some("include: '.{{value}}.'"),
    )
    .unwrap();
    assert_eq!(output, "[ .yes. ]\n[ .yes. ]\n");
}

#[test]
fn delimiters_post_partial_behavior() {
    let output = render(
        "[ {{>include}} ]\n[ .{{value}}.  .|value|. ]\n",
        "value: yes",
        Some("include: '.{{value}}. {{= | | =}} .|value|.'"),
    )
    .unwrap();
    assert_eq!(output, "[ .yes.  .yes. ]\n[ .yes.  .|value|. ]\n");
}

#[test]
fn delimiters_surrounding_whitespace() {
    assert_eq!(rendered("| {{=@ @=}} |", "{}"), "|  |");
}

#[test]
fn delimiters_outlying_whitespace_inline() {
    assert_eq!(rendered(" | {{=@ @=}}\n", "{}"), " | \n");
}

#[test]
fn delimiters_standalone_tag() {
    assert_eq!(rendered("Begin.\n{{=@ @=}}\nEnd.\n", "{}"), "Begin.\nEnd.\n");
}

#[test]
fn delimiters_indented_standalone_tag() {
    assert_eq!(rendered("Begin.\n  {{=@ @=}}\nEnd.\n", "{}"), "Begin.\nEnd.\n");
}

#[test]
fn delimiters_standalone_line_endings() {
    assert_eq!(rendered("|\r\n{{= @ @ =}}\r\n|", "{}"), "|\r\n|");
}

#[test]
fn delimiters_standalone_without_previous_line() {
    assert_eq!(rendered("  {{=@ @=}}\n=", "{}"), "=");
}

#[test]
fn delimiters_standalone_without_newline() {
    assert_eq!(rendered("=\n  {{=@ @=}}", "{}"), "=\n");
}

#[test]
fn delimiters_pair_with_padding() {
    assert_eq!(rendered("|{{= @   @ =}}|", "{}"), "||");
}
