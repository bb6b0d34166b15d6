use ribboncurls::render;

fn rendered(template: &str, data: &str) -> String {
    render(template, data, None).unwrap()
}

#[test]
fn comment_inline() {
    assert_eq!(rendered("12345{{! Comment Block! }}67890", "{}"), "1234567890");
}

#[test]
fn comment_multiline() {
    assert_eq!(
        rendered("12345{{!\n  This is a\n  multi-line comment...\n}}67890\n", "{}"),
        "1234567890\n"
    );
}

#[test]
fn comment_standalone() {
    assert_eq!(rendered("Begin.\n{{! Comment Block! }}\nEnd.\n", "{}"), "Begin.\nEnd.\n");
}

#[test]
fn comment_indented_standalone() {
    assert_eq!(
        rendered("Begin.\n  {{! Indented Comment Block! }}\nEnd.\n", "{}"),
        "Begin.\nEnd.\n"
    );
}

#[test]
fn comment_standalone_line_endings() {
    assert_eq!(rendered("|\r\n{{! Standalone Comment }}\r\n|", "{}"), "|\r\n|");
}

#[test]
fn comment_standalone_without_previous_line() {
    assert_eq!(rendered("  {{! I'm Still Standalone }}\n!", "{}"), "!");
}

#[test]
fn comment_standalone_without_newline() {
    assert_eq!(rendered("!\n  {{! I'm Still Standalone }}", "{}"), "!\n");
}

#[test]
fn comment_multiline_standalone() {
    assert_eq!(
        rendered("Begin.\n{{!\nSomething's going on here...\n}}\nEnd.\n", "{}"),
        "Begin.\nEnd.\n"
    );
}

#[test]
fn comment_indented_multiline_standalone() {
    assert_eq!(
        rendered("Begin.\n  {{!\n    Something's going on here...\n  }}\nEnd.\n", "{}"),
        "Begin.\nEnd.\n"
    );
}

#[test]
fn comment_indented_inline() {
    assert_eq!(rendered("  12 {{! 34 }}\n", "{}"), "  12 \n");
}

#[test]
fn comment_surrounding_whitespace() {
    assert_eq!(rendered("12345 {{! Comment Block! }} 67890", "{}"), "12345  67890");
}

#[test]
fn comment_variable_name_collision() {
    let data = "{\"! comment\": 1, \"! comment \": 2, \"!comment\": 3, \"comment\": 4}";
    assert_eq!(
        rendered("comments never show: >{{! comment }}<", data),
        "comments never show: ><"
    );
}
