//! Small helpers shared by the tokenizer, the tree builder and the renderer.
use crate::text::{
    bare_line_feeds, chars_of, count_bare_line_feeds, count_from, count_matches,
};
use vstd::prelude::*;

verus! {

/// What one character becomes in escaped output.
pub open spec fn escape_char(c: char) -> Seq<char> {
    if c == '&' {
        "&amp;"@
    } else if c == '<' {
        "&lt;"@
    } else if c == '>' {
        "&gt;"@
    } else if c == '"' {
        "&quot;"@
    } else if c == '\'' {
        "&#39;"@
    } else {
        seq![c]
    }
}

/// `s` with each of `& < > " '` replaced by its HTML entity.
pub open spec fn escaped(s: Seq<char>) -> Seq<char>
    decreases s.len(),
{
    if s.len() == 0 {
        Seq::empty()
    } else {
        escaped(s.drop_last()) + escape_char(s.last())
    }
}

/// Replaces each of `& < > " '` by its HTML entity and keeps every other
/// character.
pub fn escape_html(input: &str) -> (output: String)
    ensures
        output@ == escaped(input@),
{
    let chars = chars_of(input);
    let mut output = String::new();
    let mut i: usize = 0;
    while i < chars.len()
        invariant
            i <= chars.len(),
            chars@ == input@,
            output@ == escaped(chars@.take(i as int)),
        decreases chars.len() - i,
    {
        let c = chars[i];
        assert(chars@.take(i + 1).drop_last() == chars@.take(i as int));
        if c == '&' {
            output.append("&amp;");
        } else if c == '<' {
            output.append("&lt;");
        } else if c == '>' {
            output.append("&gt;");
        } else if c == '"' {
            output.append("&quot;");
        } else if c == '\'' {
            output.append("&#39;");
        } else {
            output.push(c);
            assert(output@ == escaped(chars@.take(i as int)) + seq![c]);
        }
        i += 1;
    }
    assert(chars@.take(chars.len() as int) == chars@);
    output
}

/// The item before `index`, if there is one.
pub fn get_prev_item<T>(data: &[T], index: usize) -> (r: Option<&T>)
    ensures
        match r {
            Some(item) => 0 < index <= data@.len() && *item == data@[index - 1],
            None => index == 0 || index > data@.len(),
        },
{
    if index > 0 && index <= data.len() {
        Some(&data[index - 1])
    } else {
        None
    }
}

/// The item after `index`, if there is one.
pub fn get_next_item<T>(data: &[T], index: usize) -> (r: Option<&T>)
    ensures
        match r {
            Some(item) => index + 1 < data@.len() && *item == data@[index + 1],
            None => index + 1 >= data@.len(),
        },
{
    if index < data.len() && index + 1 < data.len() {
        Some(&data[index + 1])
    } else {
        None
    }
}

/// The line terminator of a template.
#[derive(Clone, Copy, Debug, PartialEq, Eq, Structural)]
pub enum Newline {
    Crlf,
    Lf,
}

impl Newline {
    /// The characters of the line terminator.
    pub open spec fn chars(self) -> Seq<char> {
        match self {
            Newline::Lf => seq!['\n'],
            Newline::Crlf => seq!['\r', '\n'],
        }
    }

    /// The line terminator as text.
    pub fn as_str(self) -> (r: &'static str)
        ensures
            r@ == self.chars(),
    {
        proof {
            reveal_strlit("\n");
            reveal_strlit("\r\n");
        }
        match self {
            Newline::Lf => {
                assert("\n"@ =~= seq!['\n']);
                "\n"
            },
            Newline::Crlf => {
                assert("\r\n"@ =~= seq!['\r', '\n']);
                "\r\n"
            },
        }
    }

    /// The line terminator as characters.
    pub fn to_chars(self) -> (r: Vec<char>)
        ensures
            r@ == self.chars(),
    {
        match self {
            Newline::Lf => {
                let v = vec!['\n'];
                assert(v@ =~= seq!['\n']);
                v
            },
            Newline::Crlf => {
                let v = vec!['\r', '\n'];
                assert(v@ =~= seq!['\r', '\n']);
                v
            },
        }
    }
}

/// The line terminator that `text` is taken to use, by majority: CRLF where
/// it holds at least as many `"\r\n"` as line feeds without a carriage
/// return before them (so also where it holds neither), LF otherwise.
pub open spec fn newline_variant(text: Seq<char>) -> Newline {
    if count_from(text, Newline::Crlf.chars(), 0) >= bare_line_feeds(text, 0) {
        Newline::Crlf
    } else {
        Newline::Lf
    }
}

/// Detects the line terminator of `text`.
pub fn get_newline_variant(text: &str) -> (r: Newline)
    ensures
        r == newline_variant(text@),
{
    let chars = chars_of(text);
    let crlf = Newline::Crlf.to_chars();
    let count_crlf = count_matches(&chars, &crlf);
    let count_lf = count_bare_line_feeds(&chars);
    if count_crlf >= count_lf {
        Newline::Crlf
    } else {
        Newline::Lf
    }
}

/// The number of spaces that begin `s`.
pub open spec fn leading_spaces(s: Seq<char>) -> nat
    decreases s.len(),
{
    if s.len() > 0 && s[0] == ' ' {
        1 + leading_spaces(s.drop_first())
    } else {
        0
    }
}

fn count_leading_spaces(chars: &Vec<char>) -> (k: usize)
    ensures
        k == leading_spaces(chars@),
        k <= chars.len(),
{
    let mut k: usize = 0;
    assert(chars@.skip(0) == chars@);
    while k < chars.len() && chars[k] == ' '
        invariant
            k <= chars.len(),
            leading_spaces(chars@) == k + leading_spaces(chars@.skip(k as int)),
        decreases chars.len() - k,
    {
        assert(chars@.skip(k as int).drop_first() == chars@.skip(k + 1));
        k += 1;
    }
    k
}

/// `input` without the spaces that begin it.
pub fn skip_whitespace(input: &str) -> (r: &str)
    ensures
        r@ == input@.skip(leading_spaces(input@) as int),
{
    let chars = chars_of(input);
    let k = count_leading_spaces(&chars);
    input.substring_char(k, chars.len())
}

/// The spaces that begin `s`.
pub fn leading_indent(s: &str) -> (r: &str)
    ensures
        r@ == s@.take(leading_spaces(s@) as int),
{
    let chars = chars_of(s);
    let k = count_leading_spaces(&chars);
    s.substring_char(0, k)
}

} // verus!
