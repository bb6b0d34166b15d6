//! The tokenizer: template text to a flat sequence of tokens.
use crate::error::RibboncurlsError;
use crate::text::{
    chars_of, find, find_before, find_from, find_space, first_space, lemma_find_from, matches_at,
    skip_spaces, starts_with_at, string_of, string_of_range, sub_vec, trim_start, trim_vec,
    trimmed,
};
use crate::utils::Newline;
use vstd::prelude::*;

verus! {

/// One piece of a template.
#[derive(Clone, Debug, PartialEq, Eq)]
pub enum Token {
    /// Literal text. It holds no line break, or begins with one and holds no
    /// other.
    Text(String),
    /// A variable; `escaped` says whether its value is HTML-escaped.
    Variable { name: String, escaped: bool },
    /// The start of a section, or of an inverted section.
    OpenSection { name: String, inverted: bool },
    /// The end of the section of that name.
    CloseSection(String),
    /// The inclusion of the partial of that name.
    Partial(String),
    Comment,
    /// A change of delimiters, to `left` and `right`.
    DelimiterChange { left: String, right: String },
}

/// The mathematical model of a [`Token`].
pub enum TokenView {
    Text(Seq<char>),
    Variable { name: Seq<char>, escaped: bool },
    OpenSection { name: Seq<char>, inverted: bool },
    CloseSection(Seq<char>),
    Partial(Seq<char>),
    Comment,
    DelimiterChange { left: Seq<char>, right: Seq<char> },
}

impl View for Token {
    type V = TokenView;

    open spec fn view(&self) -> TokenView {
        match self {
            Token::Text(s) => TokenView::Text(s@),
            Token::Variable { name, escaped } => TokenView::Variable {
                name: name@,
                escaped: *escaped,
            },
            Token::OpenSection { name, inverted } => TokenView::OpenSection {
                name: name@,
                inverted: *inverted,
            },
            Token::CloseSection(name) => TokenView::CloseSection(name@),
            Token::Partial(name) => TokenView::Partial(name@),
            Token::Comment => TokenView::Comment,
            Token::DelimiterChange { left, right } => TokenView::DelimiterChange {
                left: left@,
                right: right@,
            },
        }
    }
}

/// The models of a sequence of tokens.
pub open spec fn token_views(tokens: Seq<Token>) -> Seq<TokenView> {
    tokens.map_values(|t: Token| t@)
}

/// The texts of a sequence of strings.
pub open spec fn name_views(names: Seq<String>) -> Seq<Seq<char>> {
    names.map_values(|s: String| s@)
}

/// The left delimiter a template starts with.
pub open spec fn default_left() -> Seq<char> {
    seq!['{', '{']
}

/// The right delimiter a template starts with.
pub open spec fn default_right() -> Seq<char> {
    seq!['}', '}']
}

/// What the tokenizer knows at a position of the template.
pub struct TokenCtx {
    pub left_delimiter: String,
    pub right_delimiter: String,
    /// The names of the sections that are open, innermost last.
    pub section_stack: Vec<String>,
    /// The line terminator at which text is split.
    pub newline: Newline,
}

/// The mathematical model of a [`TokenCtx`].
pub struct LexState {
    pub left: Seq<char>,
    pub right: Seq<char>,
    pub open: Seq<Seq<char>>,
    pub newline: Newline,
}

impl View for TokenCtx {
    type V = LexState;

    open spec fn view(&self) -> LexState {
        LexState {
            left: self.left_delimiter@,
            right: self.right_delimiter@,
            open: name_views(self.section_stack@),
            newline: self.newline,
        }
    }
}

/// The state at the start of a template or of a partial.
pub open spec fn initial_state(newline: Newline) -> LexState {
    LexState { left: default_left(), right: default_right(), open: Seq::empty(), newline }
}

impl TokenCtx {
    /// The state at the start of a template: the delimiters `{{` and `}}`, no
    /// section open.
    pub fn new(newline: Newline) -> (ctx: TokenCtx)
        ensures
            ctx@ == initial_state(newline),
    {
        proof {
            reveal_strlit("{{");
            reveal_strlit("}}");
        }
        let ctx = TokenCtx {
            left_delimiter: "{{".to_owned(),
            right_delimiter: "}}".to_owned(),
            section_stack: Vec::new(),
            newline,
        };
        assert(ctx@.left =~= default_left());
        assert(ctx@.right =~= default_right());
        assert(ctx@.open =~= Seq::empty());
        ctx
    }
}

/// The two delimiters that the interior of a `=` tag names: it ends with `=`,
/// and between its two `=` signs stand exactly two words.
pub open spec fn delimiter_pair(content: Seq<char>) -> Option<(Seq<char>, Seq<char>)> {
    if content.len() < 2 || content.last() != '=' {
        None
    } else {
        let words = trimmed(content.subrange(1, content.len() - 1));
        match first_space(words, 0) {
            None => None,
            Some(p) => {
                let second = trim_start(words.skip(p));
                if first_space(second, 0) is Some {
                    None
                } else {
                    Some((words.take(p), second))
                }
            },
        }
    }
}

/// The token that a tag with interior `content` stands for, and the state
/// after it.
pub open spec fn tag_token(content: Seq<char>, st: LexState) -> Result<
    (TokenView, LexState),
    RibboncurlsError,
> {
    let name = trimmed(content.skip(1));
    if content.len() == 0 {
        Ok((TokenView::Variable { name: Seq::empty(), escaped: true }, st))
    } else if content[0] == '!' {
        Ok((TokenView::Comment, st))
    } else if content[0] == '&' {
        Ok((TokenView::Variable { name, escaped: false }, st))
    } else if content[0] == '#' || content[0] == '^' {
        if name.len() == 0 {
            Err(RibboncurlsError::BadTag)
        } else {
            Ok(
                (
                    TokenView::OpenSection { name, inverted: content[0] == '^' },
                    LexState { open: st.open.push(name), ..st },
                ),
            )
        }
    } else if content[0] == '/' {
        if name.len() == 0 {
            Err(RibboncurlsError::BadTag)
        } else if st.open.len() > 0 && st.open.last() == name {
            Ok((TokenView::CloseSection(name), LexState { open: st.open.drop_last(), ..st }))
        } else {
            Err(RibboncurlsError::MissingEndTag)
        }
    } else if content[0] == '>' {
        if name.len() == 0 {
            Err(RibboncurlsError::BadTag)
        } else {
            Ok((TokenView::Partial(name), st))
        }
    } else if content[0] == '=' {
        match delimiter_pair(content) {
            Some((left, right)) => Ok(
                (TokenView::DelimiterChange { left, right }, LexState { left, right, ..st }),
            ),
            None => Err(RibboncurlsError::MissingDelimiter),
        }
    } else {
        Ok((TokenView::Variable { name: trimmed(content), escaped: true }, st))
    }
}

/// Where the text that starts at `i` ends: before the next left delimiter or
/// the next line break, whichever comes first, a line break at `i` itself
/// being part of the text.
pub open spec fn text_end(t: Seq<char>, i: int, st: LexState) -> int {
    let nl = st.newline.chars();
    let from = if matches_at(t, nl, i) {
        i + nl.len()
    } else {
        i
    };
    let tag = match find_from(t, st.left, from) {
        Some(k) => k,
        None => t.len() as int,
    };
    let line = match find_from(t, nl, from) {
        Some(k) => k,
        None => t.len() as int,
    };
    if tag <= line {
        tag
    } else {
        line
    }
}

/// A text is not empty, and ends within the template.
pub proof fn lemma_text_end(t: Seq<char>, i: int, st: LexState)
    requires
        0 <= i < t.len(),
        st.left.len() > 0,
        !matches_at(t, st.left, i),
    ensures
        i < text_end(t, i, st) <= t.len(),
{
    let nl = st.newline.chars();
    let from = if matches_at(t, nl, i) {
        i + nl.len()
    } else {
        i
    };
    lemma_find_from(t, st.left, from);
    lemma_find_from(t, nl, from);
}

/// A token put before the tokens of the rest of the template.
pub open spec fn emit(
    tok: TokenView,
    rest: Result<(Seq<TokenView>, LexState), RibboncurlsError>,
) -> Result<(Seq<TokenView>, LexState), RibboncurlsError> {
    match rest {
        Ok((toks, st)) => Ok((seq![tok] + toks, st)),
        Err(e) => Err(e),
    }
}

/// The tokens of `t` from index `i` on, read in state `st`, and the state at
/// the end of `t`.
pub open spec fn lex_from(t: Seq<char>, i: int, st: LexState) -> Result<
    (Seq<TokenView>, LexState),
    RibboncurlsError,
>
    decreases t.len() - i,
{
    if st.left.len() == 0 || st.right.len() == 0 {
        Err(RibboncurlsError::MissingDelimiter)
    } else if i < 0 || i >= t.len() {
        if st.open.len() == 0 {
            Ok((Seq::empty(), st))
        } else {
            Err(RibboncurlsError::MissingEndTag)
        }
    } else {
        let raw_left = st.left.push(st.left[0]);
        let raw_right = st.right.push(st.right[0]);
        if matches_at(t, raw_left, i) {
            match find_from(t, raw_right, i + raw_left.len()) {
                None => Err(RibboncurlsError::MissingEndTag),
                Some(e) => {
                    proof {
                        lemma_find_from(t, raw_right, i + raw_left.len());
                    }
                    emit(
                        TokenView::Variable {
                            name: trimmed(t.subrange(i + raw_left.len(), e)),
                            escaped: false,
                        },
                        lex_from(t, e + raw_right.len(), st),
                    )
                },
            }
        } else if matches_at(t, st.left, i) {
            match find_from(t, st.right, i + st.left.len()) {
                None => Err(RibboncurlsError::MissingEndTag),
                Some(e) => {
                    proof {
                        lemma_find_from(t, st.right, i + st.left.len());
                    }
                    match tag_token(t.subrange(i + st.left.len(), e), st) {
                        Err(err) => Err(err),
                        Ok((tok, next)) => emit(tok, lex_from(t, e + st.right.len(), next)),
                    }
                },
            }
        } else {
            proof {
                lemma_text_end(t, i, st);
            }
            emit(
                TokenView::Text(t.subrange(i, text_end(t, i, st))),
                lex_from(t, text_end(t, i, st), st),
            )
        }
    }
}

/// The tokens of the template `t` read from state `st`, with the state at its
/// end; or the first error in it.
pub open spec fn tokenize_spec(t: Seq<char>, st: LexState) -> Result<
    (Seq<TokenView>, LexState),
    RibboncurlsError,
> {
    lex_from(t, 0, st)
}

/// Tokens already read, put before the tokens of the rest of the template.
pub open spec fn prepend(
    acc: Seq<TokenView>,
    rest: Result<(Seq<TokenView>, LexState), RibboncurlsError>,
) -> Result<(Seq<TokenView>, LexState), RibboncurlsError> {
    match rest {
        Ok((toks, st)) => Ok((acc + toks, st)),
        Err(e) => Err(e),
    }
}

/// A token read next may be counted among the tokens already read.
pub proof fn lemma_prepend_emit(
    acc: Seq<TokenView>,
    tok: TokenView,
    rest: Result<(Seq<TokenView>, LexState), RibboncurlsError>,
)
    ensures
        prepend(acc, emit(tok, rest)) == prepend(acc.push(tok), rest),
{
    match rest {
        Ok((toks, st)) => {
            assert(acc + (seq![tok] + toks) =~= acc.push(tok) + toks);
        },
        Err(e) => {},
    }
}

fn parse_delimiters(content: &Vec<char>) -> (r: Option<(String, String)>)
    ensures
        match r {
            Some((left, right)) => delimiter_pair(content@) == Some((left@, right@)),
            None => delimiter_pair(content@) is None,
        },
{
    if content.len() < 2 || content[content.len() - 1] != '=' {
        return None;
    }
    let inner = sub_vec(content, 1, content.len() - 1);
    let words = trim_vec(&inner);
    match find_space(&words, 0) {
        None => None,
        Some(p) => {
            let k = skip_spaces(&words, p);
            let second = sub_vec(&words, k, words.len());
            assert(second@ == trim_start(words@.skip(p as int)));
            match find_space(&second, 0) {
                Some(_) => None,
                None => {
                    let left = string_of_range(&words, 0, p);
                    let right = string_of(&second);
                    assert(words@.take(p as int) == words@.subrange(0, p as int));
                    Some((left, right))
                },
            }
        },
    }
}

/// Reads the interior of one tag: the text between the delimiters.
///
/// The first character selects the kind: `!` a comment, `&` an unescaped
/// variable, `#` and `^` the start of a section, `/` its end, `>` a partial,
/// `=` a change of delimiters, anything else an escaped variable. A section
/// that opens is entered into `ctx`, one that closes must be the innermost
/// open one, and new delimiters take effect in `ctx` at once. On an error
/// `ctx` is left as it was.
pub fn parse_tag(content: &str, ctx: &mut TokenCtx) -> (r: Result<Token, RibboncurlsError>)
    ensures
        match r {
            Ok(token) => tag_token(content@, old(ctx)@) == Ok::<_, RibboncurlsError>(
                (token@, final(ctx)@),
            ),
            Err(e) => tag_token(content@, old(ctx)@) == Err::<(TokenView, LexState), _>(e)
                && *final(ctx) == *old(ctx),
        },
{
    let chars = chars_of(content);
    if chars.len() == 0 {
        let name = String::new();
        return Ok(Token::Variable { name, escaped: true });
    }
    let sigil = chars[0];
    let rest = sub_vec(&chars, 1, chars.len());
    assert(rest@ == chars@.skip(1));
    if sigil == '!' {
        Ok(Token::Comment)
    } else if sigil == '&' {
        let name = string_of(&trim_vec(&rest));
        Ok(Token::Variable { name, escaped: false })
    } else if sigil == '#' || sigil == '^' {
        let name = string_of(&trim_vec(&rest));
        if name.as_str().is_empty() {
            return Err(RibboncurlsError::BadTag);
        }
        let entry = name.clone();
        ctx.section_stack.push(entry);
        assert(final(ctx)@.open =~= old(ctx)@.open.push(name@)) by {
            assert(ctx@.open =~= old(ctx)@.open.push(name@));
        }
        Ok(Token::OpenSection { name, inverted: sigil == '^' })
    } else if sigil == '/' {
        let name = string_of(&trim_vec(&rest));
        if name.as_str().is_empty() {
            return Err(RibboncurlsError::BadTag);
        }
        let depth = ctx.section_stack.len();
        if depth > 0 && ctx.section_stack[depth - 1] == name {
            ctx.section_stack.pop();
            assert(ctx@.open =~= old(ctx)@.open.drop_last());
            Ok(Token::CloseSection(name))
        } else {
            Err(RibboncurlsError::MissingEndTag)
        }
    } else if sigil == '>' {
        let name = string_of(&trim_vec(&rest));
        if name.as_str().is_empty() {
            return Err(RibboncurlsError::BadTag);
        }
        Ok(Token::Partial(name))
    } else if sigil == '=' {
        match parse_delimiters(&chars) {
            Some((left, right)) => {
                ctx.left_delimiter = left.clone();
                ctx.right_delimiter = right.clone();
                Ok(Token::DelimiterChange { left, right })
            },
            None => Err(RibboncurlsError::MissingDelimiter),
        }
    } else {
        let name = string_of(&trim_vec(&chars));
        Ok(Token::Variable { name, escaped: true })
    }
}

fn clone_names(names: &Vec<String>) -> (out: Vec<String>)
    ensures
        name_views(out@) == name_views(names@),
{
    let mut out: Vec<String> = Vec::new();
    let mut i: usize = 0;
    while i < names.len()
        invariant
            i <= names.len(),
            out.len() == i,
            forall|j: int| 0 <= j < i ==> out@[j]@ == names@[j]@,
        decreases names.len() - i,
    {
        out.push(names[i].clone());
        i += 1;
    }
    assert(name_views(out@) =~= name_views(names@));
    out
}

/// Splits a template into tokens.
///
/// Reading starts in the state `ctx`: its delimiters, the sections that are
/// open, the line terminator. A tag runs from the left delimiter to the next
/// right delimiter; the left delimiter followed by its own first character
/// opens a raw variable, which the right delimiter followed by its own first
/// character closes. Text between tags is cut before every line terminator.
/// At the end no section may be open.
///
/// On success `ctx` holds the state at the end of the template; on an error it
/// is left as it was.
pub fn tokenize(template: &str, ctx: &mut TokenCtx) -> (r: Result<Vec<Token>, RibboncurlsError>)
    ensures
        match r {
            Ok(tokens) => tokenize_spec(template@, old(ctx)@) == Ok::<_, RibboncurlsError>(
                (token_views(tokens@), final(ctx)@),
            ),
            Err(e) => tokenize_spec(template@, old(ctx)@) == Err::<
                (Seq<TokenView>, LexState),
                _,
            >(e) && *final(ctx) == *old(ctx),
        },
{
    let t = chars_of(template);
    let nl = ctx.newline.to_chars();
    let mut work = TokenCtx {
        left_delimiter: ctx.left_delimiter.clone(),
        right_delimiter: ctx.right_delimiter.clone(),
        section_stack: clone_names(&ctx.section_stack),
        newline: ctx.newline,
    };
    let ghost start = ctx@;
    assert(work@ == start);
    let mut tokens: Vec<Token> = Vec::new();
    let mut i: usize = 0;
    assert(Seq::<TokenView>::empty() + Seq::<TokenView>::empty() =~= Seq::<TokenView>::empty());
    assert(token_views(tokens@) =~= Seq::<TokenView>::empty());
    assert(lex_from(t@, 0, start) == prepend(token_views(tokens@), lex_from(t@, 0, work@))) by {
        match lex_from(t@, 0, start) {
            Ok((toks, st)) => {
                assert(Seq::<TokenView>::empty() + toks =~= toks);
            },
            Err(e) => {},
        }
    }
    while i < t.len()
        invariant
            i <= t.len(),
            t@ == template@,
            nl@ == work.newline.chars(),
            start == old(ctx)@,
            *ctx == *old(ctx),
            lex_from(t@, 0, start) == prepend(
                token_views(tokens@),
                lex_from(t@, i as int, work@),
            ),
        decreases t.len() - i,
    {
        let left = chars_of(work.left_delimiter.as_str());
        let right = chars_of(work.right_delimiter.as_str());
        if left.len() == 0 || right.len() == 0 {
            return Err(RibboncurlsError::MissingDelimiter);
        }
        let mut raw_left = sub_vec(&left, 0, left.len());
        raw_left.push(left[0]);
        let mut raw_right = sub_vec(&right, 0, right.len());
        raw_right.push(right[0]);
        assert(raw_left@ =~= work@.left.push(work@.left[0]));
        assert(raw_right@ =~= work@.right.push(work@.right[0]));
        let ghost before = token_views(tokens@);
        let ghost state = work@;
        if starts_with_at(&t, &raw_left, i) {
            match find(&t, &raw_right, i + raw_left.len()) {
                None => {
                    return Err(RibboncurlsError::MissingEndTag);
                },
                Some(e) => {
                    proof {
                        lemma_find_from(t@, raw_right@, i + raw_left.len());
                    }
                    let inner = sub_vec(&t, i + raw_left.len(), e);
                    let name = string_of(&trim_vec(&inner));
                    let token = Token::Variable { name, escaped: false };
                    proof {
                        lemma_prepend_emit(
                            before,
                            token@,
                            lex_from(t@, e + raw_right.len(), state),
                        );
                        assert(token_views(tokens@.push(token)) =~= before.push(token@));
                    }
                    tokens.push(token);
                    i = e + raw_right.len();
                },
            }
        } else if starts_with_at(&t, &left, i) {
            match find(&t, &right, i + left.len()) {
                None => {
                    return Err(RibboncurlsError::MissingEndTag);
                },
                Some(e) => {
                    proof {
                        lemma_find_from(t@, right@, i + left.len());
                    }
                    let content = string_of_range(&t, i + left.len(), e);
                    match parse_tag(content.as_str(), &mut work) {
                        Err(err) => {
                            return Err(err);
                        },
                        Ok(token) => {
                            proof {
                                lemma_prepend_emit(
                                    before,
                                    token@,
                                    lex_from(t@, e + right.len(), work@),
                                );
                                assert(token_views(tokens@.push(token)) =~= before.push(token@));
                            }
                            tokens.push(token);
                            i = e + right.len();
                        },
                    }
                },
            }
        } else {
            proof {
                lemma_text_end(t@, i as int, state);
            }
            let from = if starts_with_at(&t, &nl, i) {
                i + nl.len()
            } else {
                i
            };
            let line = match find(&t, &nl, from) {
                Some(k) => k,
                None => t.len(),
            };
            proof {
                lemma_find_from(t@, nl@, from as int);
                lemma_find_from(t@, left@, from as int);
            }
            let end = find_before(&t, &left, from, line);
            assert(end == text_end(t@, i as int, state));
            let token = Token::Text(string_of_range(&t, i, end));
            proof {
                lemma_prepend_emit(before, token@, lex_from(t@, end as int, state));
                assert(token_views(tokens@.push(token)) =~= before.push(token@));
            }
            tokens.push(token);
            i = end;
        }
    }
    if work.left_delimiter.as_str().is_empty() || work.right_delimiter.as_str().is_empty() {
        return Err(RibboncurlsError::MissingDelimiter);
    }
    if work.section_stack.len() != 0 {
        return Err(RibboncurlsError::MissingEndTag);
    }
    assert(token_views(tokens@) + Seq::<TokenView>::empty() =~= token_views(tokens@));
    *ctx = work;
    Ok(tokens)
}

} // verus!
