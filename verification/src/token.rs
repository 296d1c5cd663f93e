use vstd::prelude::*;

verus! {

/// A token of the language with its text.
#[derive(PartialEq, Debug, Clone)]
pub enum Token {
    EOF(String),
    // Names and literals.
    Ident(String),
    Int(String),
    Str(String),
    // Operators.
    Assign(String),
    Plus(String),
    Minus(String),
    Asterisk(String),
    Slash(String),
    Bang(String),
    LT(String),
    GT(String),
    Eq(String),
    NotEq(String),
    // Delimiters.
    Comma(String),
    Semicolon(String),
    Lparen(String),
    Rparen(String),
    Lbrace(String),
    Rbrace(String),
    Lbracket(String),
    Rbracket(String),
    // Keywords.
    Function(String),
    Let(String),
    If(String),
    Else(String),
    True(String),
    False(String),
    Return(String),
}

/// The kind of a token, without its text.
#[derive(PartialEq, Eq, Debug, Clone, Copy, Structural)]
pub enum TokenKind {
    EOF,
    Ident,
    Int,
    Str,
    Assign,
    Plus,
    Minus,
    Asterisk,
    Slash,
    Bang,
    LT,
    GT,
    Eq,
    NotEq,
    Comma,
    Semicolon,
    Lparen,
    Rparen,
    Lbrace,
    Rbrace,
    Lbracket,
    Rbracket,
    Function,
    Let,
    If,
    Else,
    True,
    False,
    Return,
}

/// The mathematical value of a [`Token`]: its kind and its text.
pub struct Lexeme {
    pub kind: TokenKind,
    pub text: Seq<char>,
}

impl Token {
    /// The kind of this token.
    pub open spec fn spec_kind(&self) -> TokenKind {
        match self {
            Token::EOF(_) => TokenKind::EOF,
            Token::Ident(_) => TokenKind::Ident,
            Token::Int(_) => TokenKind::Int,
            Token::Str(_) => TokenKind::Str,
            Token::Assign(_) => TokenKind::Assign,
            Token::Plus(_) => TokenKind::Plus,
            Token::Minus(_) => TokenKind::Minus,
            Token::Asterisk(_) => TokenKind::Asterisk,
            Token::Slash(_) => TokenKind::Slash,
            Token::Bang(_) => TokenKind::Bang,
            Token::LT(_) => TokenKind::LT,
            Token::GT(_) => TokenKind::GT,
            Token::Eq(_) => TokenKind::Eq,
            Token::NotEq(_) => TokenKind::NotEq,
            Token::Comma(_) => TokenKind::Comma,
            Token::Semicolon(_) => TokenKind::Semicolon,
            Token::Lparen(_) => TokenKind::Lparen,
            Token::Rparen(_) => TokenKind::Rparen,
            Token::Lbrace(_) => TokenKind::Lbrace,
            Token::Rbrace(_) => TokenKind::Rbrace,
            Token::Lbracket(_) => TokenKind::Lbracket,
            Token::Rbracket(_) => TokenKind::Rbracket,
            Token::Function(_) => TokenKind::Function,
            Token::Let(_) => TokenKind::Let,
            Token::If(_) => TokenKind::If,
            Token::Else(_) => TokenKind::Else,
            Token::True(_) => TokenKind::True,
            Token::False(_) => TokenKind::False,
            Token::Return(_) => TokenKind::Return,
        }
    }

    /// The text of this token.
    pub open spec fn spec_text(&self) -> Seq<char> {
        match self {
            Token::EOF(s) => s@,
            Token::Ident(s) => s@,
            Token::Int(s) => s@,
            Token::Str(s) => s@,
            Token::Assign(s) => s@,
            Token::Plus(s) => s@,
            Token::Minus(s) => s@,
            Token::Asterisk(s) => s@,
            Token::Slash(s) => s@,
            Token::Bang(s) => s@,
            Token::LT(s) => s@,
            Token::GT(s) => s@,
            Token::Eq(s) => s@,
            Token::NotEq(s) => s@,
            Token::Comma(s) => s@,
            Token::Semicolon(s) => s@,
            Token::Lparen(s) => s@,
            Token::Rparen(s) => s@,
            Token::Lbrace(s) => s@,
            Token::Rbrace(s) => s@,
            Token::Lbracket(s) => s@,
            Token::Rbracket(s) => s@,
            Token::Function(s) => s@,
            Token::Let(s) => s@,
            Token::If(s) => s@,
            Token::Else(s) => s@,
            Token::True(s) => s@,
            Token::False(s) => s@,
            Token::Return(s) => s@,
        }
    }

    /// The kind of this token.
    #[verifier::when_used_as_spec(spec_kind)]
    pub fn kind(&self) -> (r: TokenKind)
        ensures
            r == self.spec_kind(),
    {
        match self {
            Token::EOF(_) => TokenKind::EOF,
            Token::Ident(_) => TokenKind::Ident,
            Token::Int(_) => TokenKind::Int,
            Token::Str(_) => TokenKind::Str,
            Token::Assign(_) => TokenKind::Assign,
            Token::Plus(_) => TokenKind::Plus,
            Token::Minus(_) => TokenKind::Minus,
            Token::Asterisk(_) => TokenKind::Asterisk,
            Token::Slash(_) => TokenKind::Slash,
            Token::Bang(_) => TokenKind::Bang,
            Token::LT(_) => TokenKind::LT,
            Token::GT(_) => TokenKind::GT,
            Token::Eq(_) => TokenKind::Eq,
            Token::NotEq(_) => TokenKind::NotEq,
            Token::Comma(_) => TokenKind::Comma,
            Token::Semicolon(_) => TokenKind::Semicolon,
            Token::Lparen(_) => TokenKind::Lparen,
            Token::Rparen(_) => TokenKind::Rparen,
            Token::Lbrace(_) => TokenKind::Lbrace,
            Token::Rbrace(_) => TokenKind::Rbrace,
            Token::Lbracket(_) => TokenKind::Lbracket,
            Token::Rbracket(_) => TokenKind::Rbracket,
            Token::Function(_) => TokenKind::Function,
            Token::Let(_) => TokenKind::Let,
            Token::If(_) => TokenKind::If,
            Token::Else(_) => TokenKind::Else,
            Token::True(_) => TokenKind::True,
            Token::False(_) => TokenKind::False,
            Token::Return(_) => TokenKind::Return,
        }
    }

    /// The text of this token.
    pub fn text(&self) -> (r: &String)
        ensures
            r@ == self.spec_text(),
    {
        match self {
            Token::EOF(s) => s,
            Token::Ident(s) => s,
            Token::Int(s) => s,
            Token::Str(s) => s,
            Token::Assign(s) => s,
            Token::Plus(s) => s,
            Token::Minus(s) => s,
            Token::Asterisk(s) => s,
            Token::Slash(s) => s,
            Token::Bang(s) => s,
            Token::LT(s) => s,
            Token::GT(s) => s,
            Token::Eq(s) => s,
            Token::NotEq(s) => s,
            Token::Comma(s) => s,
            Token::Semicolon(s) => s,
            Token::Lparen(s) => s,
            Token::Rparen(s) => s,
            Token::Lbrace(s) => s,
            Token::Rbrace(s) => s,
            Token::Lbracket(s) => s,
            Token::Rbracket(s) => s,
            Token::Function(s) => s,
            Token::Let(s) => s,
            Token::If(s) => s,
            Token::Else(s) => s,
            Token::True(s) => s,
            Token::False(s) => s,
            Token::Return(s) => s,
        }
    }

    /// The token of the kind `kind` with the text `text`.
    pub fn make(kind: TokenKind, text: String) -> (r: Token)
        ensures
            r@ == (Lexeme { kind, text: text@ }),
    {
        match kind {
            TokenKind::EOF => Token::EOF(text),
            TokenKind::Ident => Token::Ident(text),
            TokenKind::Int => Token::Int(text),
            TokenKind::Str => Token::Str(text),
            TokenKind::Assign => Token::Assign(text),
            TokenKind::Plus => Token::Plus(text),
            TokenKind::Minus => Token::Minus(text),
            TokenKind::Asterisk => Token::Asterisk(text),
            TokenKind::Slash => Token::Slash(text),
            TokenKind::Bang => Token::Bang(text),
            TokenKind::LT => Token::LT(text),
            TokenKind::GT => Token::GT(text),
            TokenKind::Eq => Token::Eq(text),
            TokenKind::NotEq => Token::NotEq(text),
            TokenKind::Comma => Token::Comma(text),
            TokenKind::Semicolon => Token::Semicolon(text),
            TokenKind::Lparen => Token::Lparen(text),
            TokenKind::Rparen => Token::Rparen(text),
            TokenKind::Lbrace => Token::Lbrace(text),
            TokenKind::Rbrace => Token::Rbrace(text),
            TokenKind::Lbracket => Token::Lbracket(text),
            TokenKind::Rbracket => Token::Rbracket(text),
            TokenKind::Function => Token::Function(text),
            TokenKind::Let => Token::Let(text),
            TokenKind::If => Token::If(text),
            TokenKind::Else => Token::Else(text),
            TokenKind::True => Token::True(text),
            TokenKind::False => Token::False(text),
            TokenKind::Return => Token::Return(text),
        }
    }
}

impl View for Token {
    type V = Lexeme;

    open spec fn view(&self) -> Lexeme {
        Lexeme { kind: self.spec_kind(), text: self.spec_text() }
    }
}

/// The values of a list of tokens, in order.
pub open spec fn tokens_view(ts: Seq<Token>) -> Seq<Lexeme> {
    Seq::new(ts.len(), |i: int| ts[i]@)
}

} // verus!
