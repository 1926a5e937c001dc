use brainfuck_rs::scanner::Scanner;
use brainfuck_rs::token::{Token, TokenType};

fn scan(source: &str) -> Vec<Token> {
    Scanner::new(source.chars().collect()).scan_tokens()
}

#[test]
fn every_command_has_its_token() {
    let kinds: Vec<TokenType> = scan("><+-.,[]").iter().map(|t| *t.token_type()).collect();
    assert_eq!(
        kinds,
        vec![
            TokenType::RightAngle,
            TokenType::LeftAngle,
            TokenType::Plus,
            TokenType::Minus,
            TokenType::Dot,
            TokenType::Comma,
            TokenType::LeftBracket,
            TokenType::RightBracket,
        ]
    );
}

#[test]
fn other_characters_are_passed_over() {
    assert!(scan("").is_empty());
    assert!(scan("hello world\n# {}()\r\n\t").is_empty());
    assert_eq!(scan("a+b").len(), 1);
}

#[test]
fn tokens_hold_their_line_and_column() {
    let tokens = scan("+x-\n\n [é]\n.");
    assert_eq!(
        tokens,
        vec![
            Token::new(TokenType::Plus, 1, 0),
            Token::new(TokenType::Minus, 3, 0),
            Token::new(TokenType::LeftBracket, 2, 2),
            Token::new(TokenType::RightBracket, 4, 2),
            Token::new(TokenType::Dot, 1, 3),
        ]
    );
}

#[test]
fn a_scanner_that_has_scanned_has_nothing_left() {
    let mut scanner = Scanner::new("+-".chars().collect());
    assert_eq!(scanner.scan_tokens().len(), 2);
    assert!(scanner.scan_tokens().is_empty());
}

#[test]
fn a_token_holds_what_it_was_made_with() {
    let token = Token::new(TokenType::Comma, 7, 9);
    assert_eq!(*token.token_type(), TokenType::Comma);
    assert_eq!(token.column, 7);
    assert_eq!(token.line, 9);
}
