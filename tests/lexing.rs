use lexcore::error::{ErrorType, Position};
use lexcore::indent_lexer;
use lexcore::lexer::Lexer;
use lexcore::tokens::Token;

#[test]
fn simple() {
    let mut lexer = Lexer::new("1 + 2".to_string());
    let tokens = lexer.lex().unwrap();
    assert_eq!(tokens.len(), 3);
    assert_eq!(tokens[0].value, Token::Int(1));
    assert_eq!(tokens[1].value, Token::Symbol('+'));
    assert_eq!(tokens[2].value, Token::Int(2));
}

#[test]
fn symbols() {
    let mut lexer = Lexer::new("1 + 2 ++ ".to_string()).symbols(&["+", "++"]);
    let tokens = lexer.lex().unwrap();
    assert_eq!(tokens.len(), 4);
    assert_eq!(tokens[0].value, Token::Int(1));
    assert_eq!(tokens[1].value, Token::Symbol('+'));
    assert_eq!(tokens[2].value, Token::Int(2));
    assert_eq!(tokens[3].value, Token::LongSymbol("++".to_string()));
}

#[test]
fn string() {
    let mut lexer = Lexer::new(" \"hello\"".to_string());
    let tokens = lexer.lex().unwrap();
    assert_eq!(tokens.len(), 1);
    assert_eq!(tokens[0].value, Token::String("hello".to_string()));
}

#[test]
fn string_indent() {
    let mut lexer = indent_lexer::Lexer::new(" \"hello\"".to_string());
    let lines = lexer.lex().unwrap();
    assert_eq!(lines[0].len(), 1);
    assert_eq!(lines[0].tokens[0].value, Token::String("hello".to_string()));
}

#[test]
fn strings() {
    let mut lexer = Lexer::new(" \"hello\"\"there\" ".to_string());
    let tokens = lexer.lex().unwrap();
    assert_eq!(tokens.len(), 2);
    assert_eq!(tokens[0].value, Token::String("hello".to_string()));
    assert_eq!(tokens[1].value, Token::String("there".to_string()));
}

#[test]
fn strings_indent() {
    let mut lexer = indent_lexer::Lexer::new(" \"hello\"\"there\" ".to_string());
    let lines = lexer.lex().unwrap();
    assert_eq!(lines[0].len(), 2);
    assert_eq!(lines[0].tokens[0].value, Token::String("hello".to_string()));
    assert_eq!(lines[0].tokens[1].value, Token::String("there".to_string()));
}

#[test]
fn chars() {
    let mut lexer = Lexer::new(" 'h''e' ".to_string());
    let tokens = lexer.lex().unwrap();
    assert_eq!(tokens.len(), 2);
    assert_eq!(tokens[0].value, Token::Char('h'));
    assert_eq!(tokens[1].value, Token::Char('e'));
}

#[test]
fn chars_indent() {
    let mut lexer = indent_lexer::Lexer::new(" 'h''e' ".to_string());
    let lines = lexer.lex().unwrap();
    assert_eq!(lines[0].len(), 2);
    assert_eq!(lines[0].tokens[0].value, Token::Char('h'));
    assert_eq!(lines[0].tokens[1].value, Token::Char('e'));
}

#[test]
fn keywords() {
    let mut lexer = Lexer::new("local a = 1".to_string())
        .symbols(&["="])
        .keywords(&["local"]);
    let tokens = lexer.lex().unwrap();
    assert_eq!(tokens.len(), 4);
    assert_eq!(tokens[0].value, Token::Keyword("local".to_string()));
    assert_eq!(tokens[1].value, Token::Ident("a".to_string()));
    assert_eq!(tokens[2].value, Token::Symbol('='));
    assert_eq!(tokens[3].value, Token::Int(1));
}

#[test]
fn simple_indent() {
    let mut lexer = indent_lexer::Lexer::new("    1 + 2".to_string());
    let lines = lexer.lex().unwrap();
    assert_eq!(lines[0].len(), 3);
    assert_eq!(lines[0].indent, 4);
    assert_eq!(lines[0].tokens[0].value, Token::Int(1));
    assert_eq!(lines[0].tokens[1].value, Token::Symbol('+'));
    assert_eq!(lines[0].tokens[2].value, Token::Int(2));
}

fn span(idx: (usize, usize), ln: (usize, usize), col: (usize, usize)) -> Position {
    Position::new(idx.0..idx.1, ln.0..ln.1, col.0..col.1)
}

#[test]
fn lex_entry_points() {
    let tokens = lexcore::lex("x1 ; 7".to_string()).unwrap();
    assert_eq!(tokens.len(), 3);
    assert_eq!(tokens[0].value, Token::Ident("x1".to_string()));
    assert_eq!(tokens[1].value, Token::Symbol(';'));
    assert_eq!(tokens[2].value, Token::Int(7));
    let lines = lexcore::lex_indent("a\n  b".to_string()).unwrap();
    assert_eq!(lines.len(), 2);
    assert_eq!(lines[1].indent, 2);
    assert_eq!(lines[1].ln, 1);
}

#[test]
fn rescanning_gives_the_same_tokens() {
    let text = "let x = 'a' + \"s\\n\" 3.5 foo";
    let a = lexcore::lex(text.to_string()).unwrap();
    let b = lexcore::lex(text.to_string()).unwrap();
    assert_eq!(a.len(), b.len());
    for k in 0..a.len() {
        assert_eq!(a[k].value, b[k].value);
        assert_eq!(a[k].pos, b[k].pos);
    }
}

#[test]
fn unclosed_string_spans_to_end() {
    let err = lexcore::lex("\"abc".to_string()).unwrap_err();
    assert_eq!(err.error_type, ErrorType::UnclosedString);
    assert_eq!(err.pos, span((0, 4), (0, 1), (0, 4)));
}

#[test]
fn unclosed_string_at_line_end_in_indent_mode() {
    let err = lexcore::lex_indent("\"ab\ncd\"".to_string()).unwrap_err();
    assert_eq!(err.error_type, ErrorType::UnclosedString);
    assert_eq!(err.pos, span((0, 3), (0, 1), (0, 3)));
}

#[test]
fn backslash_at_end_is_unclosed() {
    let err = lexcore::lex("\"ab\\".to_string()).unwrap_err();
    assert_eq!(err.error_type, ErrorType::UnclosedString);
}

#[test]
fn malformed_char_literal() {
    let err = lexcore::lex("'ab'".to_string()).unwrap_err();
    assert_eq!(err.error_type, ErrorType::BadChar('a'));
    assert_eq!(err.pos, span((0, 3), (0, 1), (0, 3)));
}

#[test]
fn bad_escapes() {
    let err = lexcore::lex("'\\q'".to_string()).unwrap_err();
    assert_eq!(err.error_type, ErrorType::BadChar('\\'));
    let err = lexcore::lex("\"a\\qb\"".to_string()).unwrap_err();
    assert_eq!(err.error_type, ErrorType::BadChar('\\'));
    assert_eq!(err.pos, span((0, 4), (0, 1), (0, 4)));
    let err = lexcore::lex("'".to_string()).unwrap_err();
    assert_eq!(err.error_type, ErrorType::BadChar('\''));
}

#[test]
fn escapes_are_decoded() {
    let tokens = lexcore::lex("'\\n' '\\'' \"a\\tb\\\"c\\\\\"".to_string()).unwrap();
    assert_eq!(tokens.len(), 3);
    assert_eq!(tokens[0].value, Token::Char('\n'));
    assert_eq!(tokens[1].value, Token::Char('\''));
    assert_eq!(tokens[2].value, Token::String("a\tb\"c\\".to_string()));
}

#[test]
fn numbers() {
    let tokens = lexcore::lex("3.25 7. 9223372036854775807".to_string()).unwrap();
    assert_eq!(tokens.len(), 3);
    assert_eq!(tokens[0].value, Token::Float("3.25".to_string()));
    assert_eq!(tokens[0].pos, span((0, 4), (0, 1), (0, 4)));
    assert_eq!(tokens[1].value, Token::Float("7.".to_string()));
    assert_eq!(tokens[2].value, Token::Int(i64::MAX));
    let err = lexcore::lex("x 9223372036854775808".to_string()).unwrap_err();
    assert_eq!(err.error_type, ErrorType::IntOverflow);
    assert_eq!(err.pos, span((2, 21), (0, 1), (2, 21)));
}

#[test]
fn invalid_symbol() {
    let mut lexer = Lexer::new("+ $".to_string()).symbols(&["+"]);
    let err = lexer.lex().unwrap_err();
    assert_eq!(err.error_type, ErrorType::InvalidSymbol("$".to_string()));
    assert_eq!(err.pos, span((2, 3), (0, 1), (2, 3)));
    let mut lexer = Lexer::new("=".to_string()).symbols(&["=="]);
    let err = lexer.lex().unwrap_err();
    assert_eq!(err.error_type, ErrorType::InvalidSymbol("=".to_string()));
}

#[test]
fn longest_match_gives_back_a_character() {
    let mut lexer = Lexer::new("+-++".to_string()).symbols(&["+", "++", "+=", "-"]);
    let tokens = lexer.lex().unwrap();
    assert_eq!(tokens.len(), 3);
    assert_eq!(tokens[0].value, Token::Symbol('+'));
    assert_eq!(tokens[1].value, Token::Symbol('-'));
    assert_eq!(tokens[2].value, Token::LongSymbol("++".to_string()));
    assert_eq!(tokens[2].pos, span((2, 4), (0, 1), (2, 4)));
}

#[test]
fn positions_follow_lines() {
    let tokens = lexcore::lex("a\n bc\n\nd".to_string()).unwrap();
    assert_eq!(tokens.len(), 3);
    assert_eq!(tokens[0].pos, span((0, 1), (0, 1), (0, 1)));
    assert_eq!(tokens[1].pos, span((3, 5), (1, 2), (1, 3)));
    assert_eq!(tokens[2].pos, span((7, 8), (3, 4), (0, 1)));
}

#[test]
fn spans_tile_the_input() {
    let text = "ab  12 'c'\t\"d\" + 3.5";
    let tokens = lexcore::lex(text.to_string()).unwrap();
    let chars: Vec<char> = text.chars().collect();
    let mut covered = vec![false; chars.len()];
    let mut last_end = 0;
    for t in &tokens {
        assert!(t.pos.idx.start >= last_end);
        assert!(t.pos.idx.start < t.pos.idx.end);
        for k in t.pos.idx.clone() {
            covered[k] = true;
        }
        last_end = t.pos.idx.end;
    }
    for k in 0..chars.len() {
        if !covered[k] {
            assert!(chars[k] == ' ' || chars[k] == '\t');
        }
    }
}

#[test]
fn indent_lines_and_positions() {
    let mut lexer = indent_lexer::Lexer::new("a\n\t b\n".to_string());
    let lines = lexer.lex().unwrap();
    assert_eq!(lines.len(), 3);
    assert_eq!(lines[0].indent, 0);
    assert_eq!(lines[1].indent, 2);
    assert_eq!(lines[1].ln, 1);
    assert_eq!(lines[1].tokens[0].value, Token::Ident("b".to_string()));
    assert_eq!(lines[1].tokens[0].pos, span((4, 5), (1, 2), (2, 3)));
    assert!(lines[2].is_empty());
    assert_eq!(lines[2].ln, 2);
}

#[test]
fn line_pop_and_remove() {
    let mut lines = lexcore::lex_indent("a b c".to_string()).unwrap();
    let last = lines[0].pop().unwrap();
    assert_eq!(last.value, Token::Ident("c".to_string()));
    let first = lines[0].remove(0);
    assert_eq!(first.value, Token::Ident("a".to_string()));
    assert_eq!(lines[0].len(), 1);
}

#[test]
fn token_names() {
    assert_eq!(Token::Ident("x".to_string()).name(), "identifier");
    assert_eq!(Token::Keyword("while".to_string()).name(), "while");
    assert_eq!(Token::Int(3).name(), "integer");
    assert_eq!(Token::Float("1.5".to_string()).name(), "decimal point number");
    assert_eq!(Token::Char('c').name(), "character");
    assert_eq!(Token::String("s".to_string()).name(), "string");
    assert_eq!(Token::Symbol('+').name(), "'+'");
    assert_eq!(Token::LongSymbol("++".to_string()).name(), "\"++\"");
}

#[test]
fn located_equality_ignores_position() {
    let tokens = lexcore::lex("a a".to_string()).unwrap();
    assert!(tokens[0] == tokens[1]);
    assert_ne!(tokens[0].pos, tokens[1].pos);
}

#[test]
fn cursor_methods() {
    let mut lexer = Lexer::new("a\nb".to_string());
    assert_eq!(lexer.get(), Some('a'));
    assert_eq!(lexer.next_char(), Some('a'));
    assert_eq!(lexer.next_char(), Some('\n'));
    assert_eq!(lexer.pos(), span((2, 3), (1, 2), (0, 1)));
    lexer.advance();
    assert_eq!(lexer.get(), None);
    assert!(!lexer.has_symbols());
    let mut lexer = indent_lexer::Lexer::new("ab\ncd".to_string());
    lexer.advance();
    assert_eq!(lexer.get(), Some('b'));
    lexer.advance_line();
    assert_eq!(lexer.pos(), span((2, 3), (1, 2), (0, 1)));
    assert_eq!(lexer.next_char(), Some('c'));
}

#[test]
fn cursor_moves_past_the_end() {
    let lexer = Lexer::new(String::new());
    assert_eq!(lexer.pos(), span((0, 1), (0, 1), (0, 1)));
    let mut lexer = Lexer::new("a".to_string());
    assert_eq!(lexer.next_char(), Some('a'));
    assert_eq!(lexer.pos(), span((1, 2), (0, 1), (1, 2)));
    assert_eq!(lexer.next_char(), None);
    assert_eq!(lexer.pos(), span((2, 3), (0, 1), (2, 3)));
    assert!(lexer.lex().unwrap().is_empty());
    let mut lexer = indent_lexer::Lexer::new("a".to_string());
    lexer.advance();
    lexer.advance();
    assert_eq!(lexer.get(), None);
    assert_eq!((lexer.idx, lexer.col), (2, 2));
    lexer.advance_line();
    lexer.advance_line();
    assert_eq!((lexer.idx, lexer.ln, lexer.col), (4, 2, 0));
    assert!(lexer.lex().unwrap().is_empty());
}

#[test]
fn indent_lexer_ends_past_the_last_line() {
    let mut lexer = indent_lexer::Lexer::new("ab
c".to_string());
    let lines = lexer.lex().unwrap();
    assert_eq!(lines.len(), 2);
    assert_eq!((lexer.idx, lexer.ln, lexer.col), (5, 2, 0));
    assert!(lexer.lex().unwrap().is_empty());
}

#[test]
fn error_messages() {
    let err = lexcore::lex("x\n  'ab'".to_string()).unwrap_err();
    assert_eq!(err.message(), "bad character 'a' at 4, (ln: 1, col: 2)");
    assert_eq!(err.description(), "bad character");
    let err = lexcore::lex("\"abc".to_string()).unwrap_err();
    assert_eq!(err.message(), "unclosed string at 0, (ln: 0, col: 0)");
    let mut lexer = Lexer::new("1234567890 $".to_string()).symbols(&["+"]);
    let err = lexer.lex().unwrap_err();
    assert_eq!(err.message(), "invalid symbol '$' at 11, (ln: 0, col: 11)");
    assert_eq!(err.description(), "invalid symbol");
}
