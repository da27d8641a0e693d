use exprvm::scanner::{Scanner, Token, TokenKind};

#[test]
fn it_scans_int() {
    let mut scanner = Scanner::new("1");

    assert_eq!(Some(Token::new(TokenKind::Number, 1, "1")), scanner.next());
    assert_eq!(Some(Token::new(TokenKind::Eof, 2, "")), scanner.next());
    assert_eq!(None, scanner.next());
}

#[test]
fn it_scans_double() {
    let mut scanner = Scanner::new("1.0");

    assert_eq!(
        Some(Token::new(TokenKind::Number, 1, "1.0")),
        scanner.next()
    );
    assert_eq!(Some(Token::new(TokenKind::Eof, 2, "")), scanner.next());
    assert_eq!(None, scanner.next());
}

#[test]
fn it_scans_negated_int() {
    let mut scanner = Scanner::new("-1");

    assert_eq!(Some(Token::new(TokenKind::Minus, 1, "-")), scanner.next());
    assert_eq!(Some(Token::new(TokenKind::Number, 1, "1")), scanner.next());
    assert_eq!(Some(Token::new(TokenKind::Eof, 2, "")), scanner.next());
    assert_eq!(None, scanner.next());
}

#[test]
fn it_scans_negated_double() {
    let mut scanner = Scanner::new("-1.0");

    assert_eq!(Some(Token::new(TokenKind::Minus, 1, "-")), scanner.next());
    assert_eq!(
        Some(Token::new(TokenKind::Number, 1, "1.0")),
        scanner.next()
    );
    assert_eq!(Some(Token::new(TokenKind::Eof, 2, "")), scanner.next());
    assert_eq!(None, scanner.next());
}

#[test]
fn it_scans_operators_and_parens() {
    let mut scanner = Scanner::new("(1 + 2) * 3 / 4");

    assert_eq!(Some(Token::new(TokenKind::LParen, 1, "(")), scanner.next());
    assert_eq!(Some(Token::new(TokenKind::Number, 1, "1")), scanner.next());
    assert_eq!(Some(Token::new(TokenKind::Plus, 1, "+")), scanner.next());
    assert_eq!(Some(Token::new(TokenKind::Number, 1, "2")), scanner.next());
    assert_eq!(Some(Token::new(TokenKind::RParen, 1, ")")), scanner.next());
    assert_eq!(Some(Token::new(TokenKind::Star, 1, "*")), scanner.next());
    assert_eq!(Some(Token::new(TokenKind::Number, 1, "3")), scanner.next());
    assert_eq!(Some(Token::new(TokenKind::Slash, 1, "/")), scanner.next());
    assert_eq!(Some(Token::new(TokenKind::Number, 1, "4")), scanner.next());
    assert_eq!(Some(Token::new(TokenKind::Eof, 2, "")), scanner.next());
    assert_eq!(None, scanner.next());
}

#[test]
fn it_tracks_lines_and_skips_whitespace() {
    let mut scanner = Scanner::new("1\n\t+ 2");

    assert_eq!(Some(Token::new(TokenKind::Number, 1, "1")), scanner.next());
    assert_eq!(Some(Token::new(TokenKind::Plus, 2, "+")), scanner.next());
    assert_eq!(Some(Token::new(TokenKind::Number, 2, "2")), scanner.next());
    assert_eq!(Some(Token::new(TokenKind::Eof, 3, "")), scanner.next());
    assert_eq!(None, scanner.next());
}

#[test]
fn it_terminates_on_unrecognized_character() {
    let mut scanner = Scanner::new("1 % 2");

    assert_eq!(Some(Token::new(TokenKind::Number, 1, "1")), scanner.next());
    assert_eq!(Some(Token::new(TokenKind::Eof, 2, "%")), scanner.next());
    assert_eq!(None, scanner.next());
}

#[test]
fn number_lexeme_extends_through_digits_and_dots() {
    let mut scanner = Scanner::new("1.2.3+4");

    assert_eq!(
        Some(Token::new(TokenKind::Number, 1, "1.2.3")),
        scanner.next()
    );
    assert_eq!(Some(Token::new(TokenKind::Plus, 1, "+")), scanner.next());
    assert_eq!(Some(Token::new(TokenKind::Number, 1, "4")), scanner.next());
    assert_eq!(Some(Token::new(TokenKind::Eof, 2, "")), scanner.next());
    assert_eq!(None, scanner.next());
}
