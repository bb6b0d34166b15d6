use ribboncurls::{render, RibboncurlsError};

#[test]
fn unclosed_tag_is_missing_end_tag() {
    assert!(matches!(render("a {{name", "{}", None), Err(RibboncurlsError::MissingEndTag)));
}

#[test]
fn unclosed_raw_tag_is_missing_end_tag() {
    assert!(matches!(render("{{{name}}", "{}", None), Err(RibboncurlsError::MissingEndTag)));
}

#[test]
fn unclosed_section_is_missing_end_tag() {
    assert!(matches!(render("{{#a}}x", "{}", None), Err(RibboncurlsError::MissingEndTag)));
}

#[test]
fn mismatched_section_is_missing_end_tag() {
    assert!(matches!(
        render("{{#a}}x{{/b}}", "{}", None),
        Err(RibboncurlsError::MissingEndTag)
    ));
}

#[test]
fn crossed_sections_are_missing_end_tag() {
    assert!(matches!(
        render("{{#a}}{{#b}}{{/a}}{{/b}}", "{}", None),
        Err(RibboncurlsError::MissingEndTag)
    ));
}

#[test]
fn close_without_open_is_missing_end_tag() {
    assert!(matches!(render("x{{/a}}", "{}", None), Err(RibboncurlsError::MissingEndTag)));
}

#[test]
fn one_delimiter_is_missing_delimiter() {
    assert!(matches!(
        render("{{=<%=}}", "{}", None),
        Err(RibboncurlsError::MissingDelimiter)
    ));
}

#[test]
fn three_delimiters_are_missing_delimiter() {
    assert!(matches!(
        render("{{=a b c=}}", "{}", None),
        Err(RibboncurlsError::MissingDelimiter)
    ));
}

#[test]
fn delimiter_tag_without_closing_sign_is_missing_delimiter() {
    assert!(matches!(
        render("{{=<% %>}}", "{}", None),
        Err(RibboncurlsError::MissingDelimiter)
    ));
}

#[test]
fn bare_equals_tag_is_missing_delimiter() {
    assert!(matches!(render("{{=}}", "{}", None), Err(RibboncurlsError::MissingDelimiter)));
    assert!(matches!(render("{{==}}", "{}", None), Err(RibboncurlsError::MissingDelimiter)));
}

#[test]
fn nameless_section_is_bad_tag() {
    assert!(matches!(render("{{#}}x{{/}}", "{}", None), Err(RibboncurlsError::BadTag)));
    assert!(matches!(render("{{^  }}", "{}", None), Err(RibboncurlsError::BadTag)));
}

#[test]
fn nameless_close_is_bad_tag() {
    assert!(matches!(render("{{#a}}{{/ }}", "{}", None), Err(RibboncurlsError::BadTag)));
}

#[test]
fn nameless_partial_is_bad_tag() {
    assert!(matches!(render("{{>}}", "{}", None), Err(RibboncurlsError::BadTag)));
}

#[test]
fn nameless_variable_is_empty() {
    assert_eq!(render("[{{}}][{{&}}][{{{}}}]", "{}", None).unwrap(), "[][][]");
}

#[test]
fn partials_that_are_not_yaml_are_a_parse_error() {
    assert!(matches!(
        render("x", "{}", Some("a: b: c")),
        Err(RibboncurlsError::YamlParseError(_))
    ));
}

#[test]
fn template_error_comes_before_partials_error() {
    assert!(matches!(
        render("{{#a}}", "{}", Some("a: b: c")),
        Err(RibboncurlsError::MissingEndTag)
    ));
}

#[test]
fn error_in_partial_is_reported_when_it_is_used() {
    assert!(matches!(
        render("{{>p}}", "{}", Some("p: '{{#a}}'")),
        Err(RibboncurlsError::MissingEndTag)
    ));
    assert_eq!(render("{{#no}}{{>p}}{{/no}}", "{}", Some("p: '{{#a}}'")).unwrap(), "");
}

#[test]
fn partial_that_includes_itself_is_too_deep() {
    assert!(matches!(
        render("{{>p}}", "{}", Some("p: 'x{{>p}}'")),
        Err(RibboncurlsError::PartialDepth)
    ));
}

#[test]
fn partials_may_include_themselves_while_the_data_ends() {
    let data = "{n: {n: {n: {n: {}}}}}";
    assert_eq!(
        render("{{>p}}", data, Some("p: '({{#n}}{{>p}}{{/n}})'")).unwrap(),
        "(((())))"
    );
}

#[test]
fn messages() {
    assert_eq!(RibboncurlsError::MissingDelimiter.message(), "missing delimiter");
    assert_eq!(RibboncurlsError::MissingEndTag.message(), "missing end tag");
    assert_eq!(RibboncurlsError::BadTag.message(), "bad tag");
    assert_eq!(RibboncurlsError::PartialDepth.message(), "partials nested too deeply");
    let error = render("x", "{}", Some("a: b: c")).unwrap_err();
    assert_eq!(error.message(), "bad input");
}
