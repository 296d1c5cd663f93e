use monkey::lexer::Lexer;
use monkey::token::{Token, TokenKind};

fn all(input: &str) -> Vec<Token> {
    let mut lexer = Lexer::new(input);
    let mut tokens = Vec::new();
    while let Some(token) = lexer.next() {
        tokens.push(token);
    }
    tokens
}

#[test]
fn lexer_reads_text_literals_and_brackets() {
    assert_eq!(
        all("\"a b\" [1, x2][0]"),
        vec![
            Token::Str(String::from("a b")),
            Token::Lbracket(String::from("[")),
            Token::Int(String::from("1")),
            Token::Comma(String::from(",")),
            Token::Ident(String::from("x2")),
            Token::Rbracket(String::from("]")),
            Token::Lbracket(String::from("[")),
            Token::Int(String::from("0")),
            Token::Rbracket(String::from("]")),
        ]
    );
}

#[test]
fn lexer_ends_an_open_text_literal_with_the_text() {
    assert_eq!(all("\"ab"), vec![Token::Str(String::from("ab"))]);
    assert_eq!(all("\""), vec![Token::Str(String::new())]);
    assert_eq!(all("\"\"1"), vec![Token::Str(String::new()), Token::Int(String::from("1"))]);
}

#[test]
fn lexer_splits_numbers_from_words() {
    assert_eq!(
        all("12ab_c fnx fn"),
        vec![
            Token::Int(String::from("12")),
            Token::Ident(String::from("ab_c")),
            Token::Ident(String::from("fnx")),
            Token::Function(String::from("fn")),
        ]
    );
}

#[test]
fn lexer_reads_two_character_operators() {
    assert_eq!(
        all("= == ! != =!= !"),
        vec![
            Token::Assign(String::from("=")),
            Token::Eq(String::from("==")),
            Token::Bang(String::from("!")),
            Token::NotEq(String::from("!=")),
            Token::Assign(String::from("=")),
            Token::NotEq(String::from("!=")),
            Token::Bang(String::from("!")),
        ]
    );
}

#[test]
fn lexer_makes_a_name_of_an_unknown_character() {
    assert_eq!(
        all("a @ b"),
        vec![
            Token::Ident(String::from("a")),
            Token::Ident(String::new()),
            Token::Ident(String::from("b")),
        ]
    );
    assert_eq!(all("1\0"), vec![Token::Int(String::from("1")), Token::EOF(String::new())]);
}

#[test]
fn lexer_gives_nothing_for_white_space() {
    assert_eq!(all(""), Vec::new());
    assert_eq!(all(" \t\n\u{a0} "), Vec::new());
    let mut lexer = Lexer::new("  ");
    assert_eq!(lexer.remaining(), 2);
    assert_eq!(lexer.next(), None);
    assert_eq!(lexer.remaining(), 0);
    assert_eq!(lexer.next(), None);
}

#[test]
fn token_has_kind_and_text() {
    let token = Token::make(TokenKind::Ident, String::from("five"));
    assert_eq!(token, Token::Ident(String::from("five")));
    assert_eq!(token.kind(), TokenKind::Ident);
    assert_eq!(token.text(), "five");
    assert_eq!(Token::make(TokenKind::Lbrace, String::from("{")), Token::Lbrace(String::from("{")));
}
