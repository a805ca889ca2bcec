use vstd::prelude::*;

verus! {

/// A lexical token.
///
/// A decimal point number is kept as the text that was scanned (digits, a
/// point, digits); callers that want a binary floating-point value parse it.
#[derive(Debug, Clone, PartialEq)]
pub enum Token {
    Ident(String),
    Keyword(String),
    Int(i64),
    Float(String),
    Char(char),
    String(String),
    Symbol(char),
    LongSymbol(String),
}

/// The mathematical value of a token.
pub enum TokenView {
    Ident(Seq<char>),
    Keyword(Seq<char>),
    Int(i64),
    Float(Seq<char>),
    Char(char),
    Str(Seq<char>),
    Symbol(char),
    LongSymbol(Seq<char>),
}

impl View for Token {
    type V = TokenView;

    open spec fn view(&self) -> TokenView {
        match self {
            Token::Ident(s) => TokenView::Ident(s@),
            Token::Keyword(s) => TokenView::Keyword(s@),
            Token::Int(n) => TokenView::Int(*n),
            Token::Float(s) => TokenView::Float(s@),
            Token::Char(c) => TokenView::Char(*c),
            Token::String(s) => TokenView::Str(s@),
            Token::Symbol(c) => TokenView::Symbol(*c),
            Token::LongSymbol(s) => TokenView::LongSymbol(s@),
        }
    }
}

/// The text that `{:?}` gives for a character: the character in single
/// quotes, escaped as needed.
pub uninterp spec fn char_debug(c: char) -> Seq<char>;

/// The text that `{:?}` gives for a string: the string in double quotes,
/// escaped as needed.
pub uninterp spec fn str_debug(s: Seq<char>) -> Seq<char>;

/// Relies on `<char as Debug>::fmt`, which writes the quoted, escaped character.
#[verifier::external_body]
fn debug_char(c: char) -> (r: String)
    ensures
        r@ == char_debug(c),
{
    format!("{c:?}")
}

/// Relies on `<str as Debug>::fmt`, which writes the quoted, escaped string.
#[verifier::external_body]
fn debug_str(s: &str) -> (r: String)
    ensures
        r@ == str_debug(s@),
{
    format!("{s:?}")
}

/// The label of a token in messages: its kind, or the keyword or symbol itself.
pub open spec fn token_name(t: TokenView) -> Seq<char> {
    match t {
        TokenView::Ident(_) => "identifier"@,
        TokenView::Keyword(kw) => kw,
        TokenView::Int(_) => "integer"@,
        TokenView::Float(_) => "decimal point number"@,
        TokenView::Char(_) => "character"@,
        TokenView::Str(_) => "string"@,
        TokenView::Symbol(c) => char_debug(c),
        TokenView::LongSymbol(s) => str_debug(s),
    }
}

impl Token {
    /// A label for this token, for a parser's error messages.
    pub fn name(&self) -> (r: String)
        ensures
            r@ == token_name(self@),
    {
        match self {
            Token::Ident(_) => "identifier".to_string(),
            Token::Keyword(kw) => kw.clone(),
            Token::Int(_) => "integer".to_string(),
            Token::Float(_) => "decimal point number".to_string(),
            Token::Char(_) => "character".to_string(),
            Token::String(_) => "string".to_string(),
            Token::Symbol(sym) => debug_char(*sym),
            Token::LongSymbol(sym) => debug_str(sym.as_str()),
        }
    }
}

} // verus!
