use vstd::prelude::*;

pub mod error;
pub mod indent_lexer;
pub mod lexer;
pub mod scan;
pub mod tokens;

use crate::error::{Error, Located};
use crate::indent_lexer::{lex_lines, lines_result_view, split_lines, Line};
use crate::lexer::{flat_lex, result_view};
use crate::tokens::Token;

verus! {

broadcast use vstd::string::axiom_spec_iter;

/// Scans `input` as one stream, with no symbols and no keywords configured.
pub fn lex(input: String) -> (r: Result<Vec<Located<Token>>, Error>)
    ensures
        result_view(r) == flat_lex(input@, Seq::empty(), Seq::empty(), 0),
{
    let mut lexer = lexer::Lexer::new(input);
    lexer.lex()
}

/// Scans `input` line by line, with no symbols and no keywords configured.
pub fn lex_indent(input: String) -> (r: Result<Vec<Line>, Error>)
    requires
        input@.len() < usize::MAX,
    ensures
        lines_result_view(r) == lex_lines(split_lines(input@), Seq::empty(), Seq::empty(), 0, 0, 0),
{
    let mut lexer = indent_lexer::Lexer::new(input);
    lexer.lex()
}

/// Scanning is a function of the text and the configuration: any two results
/// that the flat lexer may give for the same text, symbols and keywords are
/// the same tokens at the same positions, or the same error.
pub proof fn lemma_lex_deterministic(
    s: Seq<char>,
    symbols: Seq<Seq<char>>,
    keywords: Seq<Seq<char>>,
    r1: Result<Vec<Located<Token>>, Error>,
    r2: Result<Vec<Located<Token>>, Error>,
)
    requires
        result_view(r1) == flat_lex(s, symbols, keywords, 0),
        result_view(r2) == flat_lex(s, symbols, keywords, 0),
    ensures
        result_view(r1) == result_view(r2),
{
}

/// The same for the indentation lexer: two results for the same lines,
/// symbols and keywords are the same lines, or the same error.
pub proof fn lemma_lex_indent_deterministic(
    lines: Seq<Seq<char>>,
    symbols: Seq<Seq<char>>,
    keywords: Seq<Seq<char>>,
    r1: Result<Vec<Line>, Error>,
    r2: Result<Vec<Line>, Error>,
)
    requires
        lines_result_view(r1) == lex_lines(lines, symbols, keywords, 0, 0, 0),
        lines_result_view(r2) == lex_lines(lines, symbols, keywords, 0, 0, 0),
    ensures
        lines_result_view(r1) == lines_result_view(r2),
{
}

/// Collects the characters of `text` into a vector.
pub(crate) fn chars_of(text: &str) -> (r: Vec<char>)
    ensures
        r@ == text@,
{
    let mut v: Vec<char> = Vec::new();
    for c in it: text.chars()
        invariant
            it.seq() == text@,
            v@ == text@.take(it.index() as int),
    {
        v.push(c);
    }
    assert(v@ =~= text@);
    v
}

/// Relies on `String: FromIterator<char>`: the string holds the characters in order.
#[verifier::external_body]
pub(crate) fn string_from(chars: &[char]) -> (r: String)
    ensures
        r@ == chars@,
{
    chars.iter().collect()
}

} // verus!
