use crate::text::{
    char_is_digit, char_is_space, char_is_word, is_digit, is_space, is_word_char, same_text,
};
use crate::token::{Lexeme, Token, TokenKind};
use vstd::prelude::*;

verus! {

/// Where the white space that begins at `pos` ends.
pub open spec fn skip_spaces(s: Seq<char>, pos: nat) -> nat
    decreases s.len() - pos,
{
    if pos < s.len() && is_space(s[pos as int]) {
        skip_spaces(s, pos + 1)
    } else {
        pos
    }
}

/// Where the digits that begin at `pos` end.
pub open spec fn digits_end(s: Seq<char>, pos: nat) -> nat
    decreases s.len() - pos,
{
    if pos < s.len() && is_digit(s[pos as int]) {
        digits_end(s, pos + 1)
    } else {
        pos
    }
}

/// Where the letters, digits and underscores that begin at `pos` end.
pub open spec fn word_end(s: Seq<char>, pos: nat) -> nat
    decreases s.len() - pos,
{
    if pos < s.len() && is_word_char(s[pos as int]) {
        word_end(s, pos + 1)
    } else {
        pos
    }
}

/// The place of the first double quote from `pos` on, or the end of the
/// text where there is none.
pub open spec fn quote_place(s: Seq<char>, pos: nat) -> nat
    decreases s.len() - pos,
{
    if pos < s.len() && s[pos as int] != '"' {
        quote_place(s, pos + 1)
    } else {
        pos
    }
}

/// The kind of a word: that of the keyword it spells, or a name.
pub open spec fn word_kind(word: Seq<char>) -> TokenKind {
    if word == seq!['f', 'n'] {
        TokenKind::Function
    } else if word == seq!['l', 'e', 't'] {
        TokenKind::Let
    } else if word == seq!['i', 'f'] {
        TokenKind::If
    } else if word == seq!['e', 'l', 's', 'e'] {
        TokenKind::Else
    } else if word == seq!['t', 'r', 'u', 'e'] {
        TokenKind::True
    } else if word == seq!['f', 'a', 'l', 's', 'e'] {
        TokenKind::False
    } else if word == seq!['r', 'e', 't', 'u', 'r', 'n'] {
        TokenKind::Return
    } else {
        TokenKind::Ident
    }
}

/// The kind of the token that the one character `c` makes, if it makes one.
pub open spec fn symbol_kind(c: char) -> Option<TokenKind> {
    if c == '+' {
        Some(TokenKind::Plus)
    } else if c == '-' {
        Some(TokenKind::Minus)
    } else if c == '*' {
        Some(TokenKind::Asterisk)
    } else if c == '/' {
        Some(TokenKind::Slash)
    } else if c == '<' {
        Some(TokenKind::LT)
    } else if c == '>' {
        Some(TokenKind::GT)
    } else if c == '(' {
        Some(TokenKind::Lparen)
    } else if c == ')' {
        Some(TokenKind::Rparen)
    } else if c == '{' {
        Some(TokenKind::Lbrace)
    } else if c == '}' {
        Some(TokenKind::Rbrace)
    } else if c == '[' {
        Some(TokenKind::Lbracket)
    } else if c == ']' {
        Some(TokenKind::Rbracket)
    } else if c == ',' {
        Some(TokenKind::Comma)
    } else if c == ';' {
        Some(TokenKind::Semicolon)
    } else {
        None
    }
}

/// The word or number that begins at `pos` with the character `s[pos]`, and
/// where it ends: a number is made of digits; a word of letters, digits and
/// underscores, and is a keyword or a name; any other character makes a
/// name without text.
pub open spec fn word_at(s: Seq<char>, pos: nat) -> (Lexeme, nat) {
    let c = s[pos as int];
    if is_digit(c) {
        let end = digits_end(s, pos);
        (Lexeme { kind: TokenKind::Int, text: s.subrange(pos as int, end as int) }, end)
    } else if is_word_char(c) {
        let end = word_end(s, pos);
        let word = s.subrange(pos as int, end as int);
        (Lexeme { kind: word_kind(word), text: word }, end)
    } else {
        (Lexeme { kind: TokenKind::Ident, text: Seq::empty() }, pos + 1)
    }
}

/// The token that begins at `pos`, where a character stands that is no
/// white space, and where it ends.
pub open spec fn token_at(s: Seq<char>, pos: nat) -> (Lexeme, nat) {
    let c = s[pos as int];
    let followed = pos + 1 < s.len() && s[pos as int + 1] == '=';
    if c == '=' {
        if followed {
            (Lexeme { kind: TokenKind::Eq, text: seq!['=', '='] }, pos + 2)
        } else {
            (Lexeme { kind: TokenKind::Assign, text: seq!['='] }, pos + 1)
        }
    } else if c == '!' {
        if followed {
            (Lexeme { kind: TokenKind::NotEq, text: seq!['!', '='] }, pos + 2)
        } else {
            (Lexeme { kind: TokenKind::Bang, text: seq!['!'] }, pos + 1)
        }
    } else if symbol_kind(c) is Some {
        (Lexeme { kind: symbol_kind(c)->0, text: seq![c] }, pos + 1)
    } else if c == '\0' {
        (Lexeme { kind: TokenKind::EOF, text: Seq::empty() }, pos + 1)
    } else if c == '"' {
        let end = quote_place(s, pos + 1);
        (
            Lexeme { kind: TokenKind::Str, text: s.subrange(pos as int + 1, end as int) },
            if end < s.len() {
                end + 1
            } else {
                end
            },
        )
    } else {
        word_at(s, pos)
    }
}

/// The next token from `pos` on, behind any white space, and where it
/// ends; nothing where only white space is left.
pub open spec fn next_token(s: Seq<char>, pos: nat) -> Option<(Lexeme, nat)> {
    let start = skip_spaces(s, pos);
    if start < s.len() {
        Some(token_at(s, start))
    } else {
        None
    }
}

/// All tokens from `pos` on.
pub open spec fn tokens_from(s: Seq<char>, pos: nat) -> Seq<Lexeme>
    decreases s.len() - pos,
{
    match next_token(s, pos) {
        Some((token, end)) => if pos < end <= s.len() {
            seq![token] + tokens_from(s, end)
        } else {
            seq![token]
        },
        None => Seq::empty(),
    }
}

/// A run of digits, a word and a text literal end within the text.
pub proof fn run_bounds(s: Seq<char>, pos: nat)
    requires
        pos <= s.len(),
    ensures
        pos <= digits_end(s, pos) <= s.len(),
        pos <= word_end(s, pos) <= s.len(),
        pos <= quote_place(s, pos) <= s.len(),
        pos < s.len() && is_digit(s[pos as int]) ==> pos < digits_end(s, pos),
        pos < s.len() && is_word_char(s[pos as int]) ==> pos < word_end(s, pos),
    decreases s.len() - pos,
{
    if pos < s.len() {
        run_bounds(s, pos + 1);
    }
}

/// Every token holds a character at least, and ends within the text: the
/// lexer comes to an end.
pub proof fn token_advances(s: Seq<char>, pos: nat)
    requires
        pos < s.len(),
    ensures
        pos < token_at(s, pos).1 <= s.len(),
{
    run_bounds(s, pos);
    run_bounds(s, pos + 1);
}

/// Cuts a text into tokens.
pub struct Lexer {
    input: Vec<char>,
    pos: usize,
}

impl Lexer {
    /// The characters of the text.
    pub closed spec fn chars(&self) -> Seq<char> {
        self.input@
    }

    /// How many characters have been read.
    pub closed spec fn position(&self) -> nat {
        self.pos as nat
    }

    #[verifier::type_invariant]
    closed spec fn inv(&self) -> bool {
        self.pos <= self.input.len()
    }

    /// A lexer at the start of `input`.
    pub fn new(input: &str) -> (r: Lexer)
        ensures
            r.chars() == input@,
            r.position() == 0,
    {
        let mut chars: Vec<char> = Vec::new();
        for c in it: input.chars()
            invariant
                chars@ == it.seq().take(it.index()),
        {
            chars.push(c);
        }
        Lexer { input: chars, pos: 0 }
    }

    /// How many characters are left to read.
    pub fn remaining(&self) -> (r: usize)
        ensures
            r == self.chars().len() - self.position(),
    {
        proof {
            use_type_invariant(self);
        }
        self.input.len() - self.pos
    }

    /// The character at the place of the lexer.
    fn ch(&self) -> (r: Option<char>)
        ensures
            r == (if self.position() < self.chars().len() {
                Some(self.chars()[self.position() as int])
            } else {
                None
            }),
    {
        if self.pos < self.input.len() {
            Some(self.input[self.pos])
        } else {
            None
        }
    }

    /// The character behind the one at the place of the lexer.
    fn next_ch(&self) -> (r: Option<char>)
        ensures
            r == (if self.position() + 1 < self.chars().len() {
                Some(self.chars()[self.position() as int + 1])
            } else {
                None
            }),
    {
        proof {
            use_type_invariant(self);
        }
        if self.pos < self.input.len() && self.pos + 1 < self.input.len() {
            Some(self.input[self.pos + 1])
        } else {
            None
        }
    }

    /// Moves on by one character.
    fn forward(&mut self)
        requires
            old(self).position() < old(self).chars().len(),
        ensures
            final(self).chars() == old(self).chars(),
            final(self).position() == old(self).position() + 1,
    {
        assert(self.pos < self.input.len());
        self.pos = self.pos + 1;
    }

    /// The text of the characters from `from` up to the place of the lexer.
    fn text_from(&self, from: usize) -> (r: String)
        requires
            from <= self.position(),
        ensures
            r@ == self.chars().subrange(from as int, self.position() as int),
    {
        proof {
            use_type_invariant(self);
        }
        let mut s = String::new();
        let mut i: usize = from;
        while i < self.pos
            invariant
                from <= i <= self.pos <= self.input.len(),
                s@ == self.input@.subrange(from as int, i as int),
            decreases self.pos - i,
        {
            s.push(self.input[i]);
            assert(self.input@.subrange(from as int, i + 1) =~= self.input@.subrange(
                from as int,
                i as int,
            ).push(self.input@[i as int]));
            i += 1;
        }
        s
    }

    /// Reads the word or number that begins with `ch`, the character at the
    /// place of the lexer.
    fn read_word(&mut self, ch: char) -> (r: Token)
        requires
            old(self).position() < old(self).chars().len(),
            ch == old(self).chars()[old(self).position() as int],
        ensures
            final(self).chars() == old(self).chars(),
            (r@, final(self).position()) == word_at(old(self).chars(), old(self).position()),
    {
        proof {
            use_type_invariant(&*self);
        }
        let start = self.pos;
        let ghost s = self.chars();
        if char_is_digit(ch) {
            loop
                invariant
                    start <= self.pos <= self.input.len(),
                    self.chars() == s,
                    digits_end(s, start as nat) == digits_end(s, self.position()),
                ensures
                    self.pos == digits_end(s, start as nat),
                decreases self.input.len() - self.pos,
            {
                match self.ch() {
                    Some(c) => {
                        if !char_is_digit(c) {
                            break ;
                        }
                    },
                    None => {
                        break ;
                    },
                }
                self.forward();
            }
            Token::Int(self.text_from(start))
        } else if char_is_word(ch) {
            loop
                invariant
                    start <= self.pos <= self.input.len(),
                    self.chars() == s,
                    word_end(s, start as nat) == word_end(s, self.position()),
                ensures
                    self.pos == word_end(s, start as nat),
                decreases self.input.len() - self.pos,
            {
                match self.ch() {
                    Some(c) => {
                        if !char_is_word(c) {
                            break ;
                        }
                    },
                    None => {
                        break ;
                    },
                }
                self.forward();
            }
            let word = self.text_from(start);
            proof {
                reveal_strlit("fn");
                reveal_strlit("let");
                reveal_strlit("if");
                reveal_strlit("else");
                reveal_strlit("true");
                reveal_strlit("false");
                reveal_strlit("return");
                assert("fn"@ =~= seq!['f', 'n']);
                assert("let"@ =~= seq!['l', 'e', 't']);
                assert("if"@ =~= seq!['i', 'f']);
                assert("else"@ =~= seq!['e', 'l', 's', 'e']);
                assert("true"@ =~= seq!['t', 'r', 'u', 'e']);
                assert("false"@ =~= seq!['f', 'a', 'l', 's', 'e']);
                assert("return"@ =~= seq!['r', 'e', 't', 'u', 'r', 'n']);
            }
            if same_text(word.as_str(), "fn") {
                Token::Function(word)
            } else if same_text(word.as_str(), "let") {
                Token::Let(word)
            } else if same_text(word.as_str(), "if") {
                Token::If(word)
            } else if same_text(word.as_str(), "else") {
                Token::Else(word)
            } else if same_text(word.as_str(), "true") {
                Token::True(word)
            } else if same_text(word.as_str(), "false") {
                Token::False(word)
            } else if same_text(word.as_str(), "return") {
                Token::Return(word)
            } else {
                Token::Ident(word)
            }
        } else {
            self.forward();
            Token::Ident(String::new())
        }
    }

    /// Reads the text literal whose opening quote stands at the place of
    /// the lexer: what stands between it and the next quote, or the end of
    /// the text where there is none.
    fn read_text(&mut self) -> (r: Token)
        requires
            old(self).position() < old(self).chars().len(),
        ensures
            final(self).chars() == old(self).chars(),
            r@ == (Lexeme {
                kind: TokenKind::Str,
                text: old(self).chars().subrange(
                    old(self).position() as int + 1,
                    quote_place(old(self).chars(), old(self).position() + 1) as int,
                ),
            }),
            final(self).position() == ({
                let end = quote_place(old(self).chars(), old(self).position() + 1);
                if end < old(self).chars().len() {
                    end + 1
                } else {
                    end
                }
            }),
    {
        proof {
            use_type_invariant(&*self);
        }
        let ghost s = self.chars();
        self.forward();
        let start = self.pos;
        loop
            invariant
                start <= self.pos <= self.input.len(),
                self.chars() == s,
                quote_place(s, start as nat) == quote_place(s, self.position()),
            ensures
                self.pos == quote_place(s, start as nat),
                start <= self.pos <= self.input.len(),
                self.chars() == s,
            decreases self.input.len() - self.pos,
        {
            match self.ch() {
                Some(c) => {
                    if c == '"' {
                        break ;
                    }
                },
                None => {
                    break ;
                },
            }
            self.forward();
        }
        let text = self.text_from(start);
        if self.pos < self.input.len() {
            self.forward();
        }
        Token::Str(text)
    }

    /// The next token, or nothing at the end of the text.
    pub fn next(&mut self) -> (r: Option<Token>)
        ensures
            final(self).chars() == old(self).chars(),
            match next_token(old(self).chars(), old(self).position()) {
                Some((token, end)) => r is Some && r->0@ == token && final(self).position() == end
                    && old(self).position() < end <= old(self).chars().len(),
                None => r is None && final(self).position() == old(self).chars().len(),
            },
    {
        proof {
            use_type_invariant(&*self);
        }
        let ghost s = self.chars();
        let ghost from = self.position();
        loop
            invariant
                self.pos <= self.input.len(),
                self.chars() == s,
                from <= self.position(),
                skip_spaces(s, from) == skip_spaces(s, self.position()),
            ensures
                self.pos == skip_spaces(s, from),
                self.pos <= self.input.len(),
                self.chars() == s,
                from <= self.position(),
            decreases self.input.len() - self.pos,
        {
            match self.ch() {
                Some(c) => {
                    if !char_is_space(c) {
                        break ;
                    }
                },
                None => {
                    break ;
                },
            }
            self.forward();
        }
        let ch = match self.ch() {
            Some(ch) => ch,
            None => {
                return None;
            },
        };
        proof {
            token_advances(s, self.position());
        }
        let followed = match self.next_ch() {
            Some('=') => true,
            _ => false,
        };
        let token = if ch == '=' {
            self.forward();
            if followed {
                self.forward();
                Token::Eq(String::from_str("=="))
            } else {
                Token::Assign(String::from_str("="))
            }
        } else if ch == '!' {
            self.forward();
            if followed {
                self.forward();
                Token::NotEq(String::from_str("!="))
            } else {
                Token::Bang(String::from_str("!"))
            }
        } else if ch == '+' {
            self.forward();
            Token::Plus(String::from_str("+"))
        } else if ch == '-' {
            self.forward();
            Token::Minus(String::from_str("-"))
        } else if ch == '*' {
            self.forward();
            Token::Asterisk(String::from_str("*"))
        } else if ch == '/' {
            self.forward();
            Token::Slash(String::from_str("/"))
        } else if ch == '<' {
            self.forward();
            Token::LT(String::from_str("<"))
        } else if ch == '>' {
            self.forward();
            Token::GT(String::from_str(">"))
        } else if ch == '(' {
            self.forward();
            Token::Lparen(String::from_str("("))
        } else if ch == ')' {
            self.forward();
            Token::Rparen(String::from_str(")"))
        } else if ch == '{' {
            self.forward();
            Token::Lbrace(String::from_str("{"))
        } else if ch == '}' {
            self.forward();
            Token::Rbrace(String::from_str("}"))
        } else if ch == '[' {
            self.forward();
            Token::Lbracket(String::from_str("["))
        } else if ch == ']' {
            self.forward();
            Token::Rbracket(String::from_str("]"))
        } else if ch == ',' {
            self.forward();
            Token::Comma(String::from_str(","))
        } else if ch == ';' {
            self.forward();
            Token::Semicolon(String::from_str(";"))
        } else if ch == '\0' {
            self.forward();
            Token::EOF(String::new())
        } else if ch == '"' {
            self.read_text()
        } else {
            self.read_word(ch)
        };
        proof {
            reveal_strlit("==");
            reveal_strlit("=");
            reveal_strlit("!=");
            reveal_strlit("!");
            reveal_strlit("+");
            reveal_strlit("-");
            reveal_strlit("*");
            reveal_strlit("/");
            reveal_strlit("<");
            reveal_strlit(">");
            reveal_strlit("(");
            reveal_strlit(")");
            reveal_strlit("{");
            reveal_strlit("}");
            reveal_strlit("[");
            reveal_strlit("]");
            reveal_strlit(",");
            reveal_strlit(";");
            assert(token@.text =~= token_at(s, skip_spaces(s, from)).0.text);
        }
        Some(token)
    }
}

} // verus!
