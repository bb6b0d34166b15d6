use ribboncurls::text::{chars_of, count_matches, find, starts_with_at, string_of, trim_vec};
use ribboncurls::utils::{
    escape_html, get_newline_variant, get_next_item, get_prev_item, leading_indent,
    skip_whitespace, Newline,
};

#[test]
fn escape_html_replaces_the_five_characters() {
    assert_eq!(escape_html("&"), "&amp;");
    assert_eq!(escape_html("<"), "&lt;");
    assert_eq!(escape_html(">"), "&gt;");
    assert_eq!(escape_html("\""), "&quot;");
    assert_eq!(escape_html("'"), "&#39;");
    assert_eq!(escape_html(""), "");
    assert_eq!(escape_html("a/b=c é"), "a/b=c é");
    assert_eq!(
        escape_html("<a href=\"x\">&amp;'</a>"),
        "&lt;a href=&quot;x&quot;&gt;&amp;amp;&#39;&lt;/a&gt;"
    );
}

#[test]
fn neighbours() {
    let data = [10, 20, 30];
    assert_eq!(get_prev_item(&data, 0), None);
    assert_eq!(get_prev_item(&data, 1), Some(&10));
    assert_eq!(get_prev_item(&data, 3), Some(&30));
    assert_eq!(get_prev_item(&data, 4), None);
    assert_eq!(get_next_item(&data, 0), Some(&20));
    assert_eq!(get_next_item(&data, 1), Some(&30));
    assert_eq!(get_next_item(&data, 2), None);
    assert_eq!(get_next_item(&data, usize::MAX), None);
    let empty: [u8; 0] = [];
    assert_eq!(get_next_item(&empty, 0), None);
    assert_eq!(get_prev_item(&empty, 0), None);
}

#[test]
fn newline_as_text() {
    assert_eq!(Newline::Lf.as_str(), "\n");
    assert_eq!(Newline::Crlf.as_str(), "\r\n");
    assert_eq!(Newline::Lf.to_chars(), vec!['\n']);
    assert_eq!(Newline::Crlf.to_chars(), vec!['\r', '\n']);
}

#[test]
fn newline_variant_by_count() {
    assert_eq!(get_newline_variant(""), Newline::Crlf);
    assert_eq!(get_newline_variant("no line break"), Newline::Crlf);
    assert_eq!(get_newline_variant("a\r\nb\r\n"), Newline::Crlf);
    assert_eq!(get_newline_variant("a\nb"), Newline::Lf);
    assert_eq!(get_newline_variant("a\r\nb\nc\r\n"), Newline::Crlf);
    assert_eq!(get_newline_variant("a\r\nb\r\nc\nd"), Newline::Crlf);
    assert_eq!(get_newline_variant("a\r\nb\n"), Newline::Crlf);
    assert_eq!(get_newline_variant("a\nb\nc\r\n"), Newline::Lf);
    assert_eq!(get_newline_variant("\n\r\n"), Newline::Crlf);
    assert_eq!(get_newline_variant("\n\n\r\n"), Newline::Lf);
    assert_eq!(get_newline_variant("a\rb"), Newline::Crlf);
}

#[test]
fn leading_spaces() {
    assert_eq!(skip_whitespace("   a b "), "a b ");
    assert_eq!(skip_whitespace("a"), "a");
    assert_eq!(skip_whitespace("  "), "");
    assert_eq!(skip_whitespace(" \ta"), "\ta");
    assert_eq!(skip_whitespace(" é"), "é");
    assert_eq!(leading_indent("   a b "), "   ");
    assert_eq!(leading_indent("a  "), "");
    assert_eq!(leading_indent("  "), "  ");
    assert_eq!(leading_indent(" \ta"), " ");
}

#[test]
fn scanning() {
    let s = chars_of("héllo {{x}} {{y}}");
    let pat = chars_of("{{");
    assert_eq!(string_of(&s), "héllo {{x}} {{y}}");
    assert_eq!(find(&s, &pat, 0), Some(6));
    assert_eq!(find(&s, &pat, 6), Some(6));
    assert_eq!(find(&s, &pat, 7), Some(12));
    assert_eq!(find(&s, &pat, 13), None);
    assert_eq!(find(&s, &pat, 100), None);
    assert_eq!(find(&s, &Vec::new(), 0), None);
    assert!(starts_with_at(&s, &pat, 12));
    assert!(!starts_with_at(&s, &pat, 11));
    assert!(!starts_with_at(&s, &pat, 16));
    assert_eq!(count_matches(&s, &pat), 2);
    assert_eq!(count_matches(&chars_of("aaaa"), &chars_of("aa")), 2);
    assert_eq!(trim_vec(&chars_of(" \t a b \r\n")), chars_of("a b"));
    assert_eq!(trim_vec(&chars_of("   ")), Vec::<char>::new());
}
