use water::lexer::{count_columns, tokenize, LexingError};
use water::token::{Span, Token, TokenKind};

fn kinds(source: &str) -> Vec<TokenKind> {
    tokenize(source).tokens.iter().map(|(t, _)| t.kind()).collect()
}

#[test]
fn tokenize_starts_with_marker() {
    let lexed = tokenize("x = 1");
    assert!(matches!(lexed.tokens[0].0, Token::LParen));
    assert_eq!(lexed.tokens[0].1, Span { start: 2, end: 3 });
}

#[test]
fn tokenize_assignment() {
    let lexed = tokenize("x = 42");
    assert!(lexed.errors.is_empty());
    assert!(matches!(&lexed.tokens[1].0, Token::Identifier(n) if n == b"x"));
    assert_eq!(lexed.tokens[1].1, Span { start: 0, end: 1 });
    assert!(matches!(lexed.tokens[2].0, Token::Eq));
    assert!(matches!(lexed.tokens[3].0, Token::Integer(42)));
    assert_eq!(lexed.tokens[3].1, Span { start: 4, end: 6 });
}

#[test]
fn tokenize_keywords_and_operators() {
    let k = kinds("while not a and b or c ** 2 != 3");
    assert_eq!(
        &k[1..],
        &[
            TokenKind::While,
            TokenKind::Not,
            TokenKind::Identifier,
            TokenKind::And,
            TokenKind::Identifier,
            TokenKind::Or,
            TokenKind::Identifier,
            TokenKind::StarStar,
            TokenKind::Integer,
            TokenKind::NotEq,
            TokenKind::Integer,
        ][..]
    );
}

#[test]
fn tokenize_compound_assignments() {
    let k = kinds("x += 1\nx -= 1\nx *= 1\nx /= 1\nx %= 1");
    assert!(k.contains(&TokenKind::PlusEq));
    assert!(k.contains(&TokenKind::MinusEq));
    assert!(k.contains(&TokenKind::StarEq));
    assert!(k.contains(&TokenKind::SlashEq));
    assert!(k.contains(&TokenKind::PercentEq));
}

#[test]
fn tokenize_string_literal() {
    let lexed = tokenize("\"hello\"");
    assert!(matches!(&lexed.tokens[1].0, Token::DoubleQuotedString(s) if s == b"hello"));
}

#[test]
fn tokenize_indentation_balances() {
    let k = kinds("if x\n    if y\n        z\nw\n");
    let indents = k.iter().filter(|k| **k == TokenKind::Indent).count();
    let dedents = k.iter().filter(|k| **k == TokenKind::Dedent).count();
    assert_eq!(indents, 2);
    assert_eq!(dedents, 2);
}

#[test]
fn tokenize_open_levels_closed_at_end() {
    let k = kinds("if x\n    y");
    let indents = k.iter().filter(|k| **k == TokenKind::Indent).count();
    let dedents = k.iter().filter(|k| **k == TokenKind::Dedent).count();
    assert_eq!(indents, 1);
    assert_eq!(dedents, 1);
}

#[test]
fn tokenize_newlines_inside_brackets_ignored() {
    let k = kinds("[1,\n 2]");
    assert!(!k[1..].contains(&TokenKind::Newline) || k.last() == Some(&TokenKind::Newline));
    assert!(!k.contains(&TokenKind::Indent));
}

#[test]
fn tokenize_number_too_large() {
    let lexed = tokenize("99999999999999999999");
    assert_eq!(lexed.errors.len(), 1);
    assert_eq!(lexed.errors[0].0, LexingError::NumberParseError);
}

#[test]
fn tokenize_unknown_character() {
    let lexed = tokenize("x = @");
    assert!(lexed.errors.iter().any(|(e, _)| *e == LexingError::Other));
}

#[test]
fn count_columns_spaces_and_tabs() {
    assert_eq!(count_columns(b"    x"), 4);
    assert_eq!(count_columns(b"\tx"), 8);
    assert_eq!(count_columns(b"  \tx"), 8);
    assert_eq!(count_columns(b"x"), 0);
}
