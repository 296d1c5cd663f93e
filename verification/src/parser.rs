use crate::ast::{expressions_view, statements_view, Expr, Expression, Statement, Stmt};
use crate::lexer::{tokens_from, Lexer};
use crate::token::{tokens_view, Lexeme, Token, TokenKind};
use vstd::prelude::*;

verus! {

/// Why a text is no program.
#[derive(PartialEq, Eq, Debug, Clone, Copy, Structural)]
pub enum ParseError {
    /// The tokens end where one more is needed.
    UnexpectedEnd,
    /// A token stands where another kind is needed, or where no expression
    /// can begin.
    UnexpectedToken,
}

/// How strongly no operator binds.
pub const LOWEST: u8 = 0;

/// How strongly `==` and `!=` bind.
pub const EQUALS: u8 = 1;

/// How strongly `<` and `>` bind.
pub const LESSGREATER: u8 = 2;

/// How strongly `+` and `-` bind.
pub const SUM: u8 = 3;

/// How strongly `*` and `/` bind.
pub const PRODUCT: u8 = 4;

/// How strongly a prefix operator binds.
pub const PREFIX: u8 = 5;

/// How strongly the round bracket of a call binds.
pub const CALL: u8 = 6;

/// How strongly the square bracket of an indexing binds.
pub const INDEX: u8 = 7;

/// The kind of the token at `pos`, if there is one.
pub open spec fn kind_at(ts: Seq<Lexeme>, pos: int) -> Option<TokenKind> {
    if 0 <= pos < ts.len() {
        Some(ts[pos].kind)
    } else {
        None
    }
}

/// How strongly a token binds the expression on its left to what follows;
/// zero for a token that is no infix operator, and for none.
pub open spec fn precedence_of(kind: Option<TokenKind>) -> u8 {
    match kind {
        Some(TokenKind::Eq) | Some(TokenKind::NotEq) => EQUALS,
        Some(TokenKind::LT) | Some(TokenKind::GT) => LESSGREATER,
        Some(TokenKind::Plus) | Some(TokenKind::Minus) => SUM,
        Some(TokenKind::Slash) | Some(TokenKind::Asterisk) => PRODUCT,
        Some(TokenKind::Lparen) => CALL,
        Some(TokenKind::Lbracket) => INDEX,
        _ => LOWEST,
    }
}

/// The place behind the token at `pos`, which must be of the kind `kind`.
pub open spec fn expect(ts: Seq<Lexeme>, pos: int, kind: TokenKind) -> Result<int, ParseError> {
    match kind_at(ts, pos) {
        Some(k) => if k == kind {
            Ok(pos + 1)
        } else {
            Err(ParseError::UnexpectedToken)
        },
        None => Err(ParseError::UnexpectedEnd),
    }
}

/// What was parsed from `pos` on, where that has used up a token at least
/// and no more than there are: no part of a program is made of nothing.
pub open spec fn onward<T>(ts: Seq<Lexeme>, pos: int, r: Result<(T, int), ParseError>) -> Result<
    (T, int),
    ParseError,
> {
    match r {
        Ok((_, end)) => if pos < end <= ts.len() {
            r
        } else {
            Err(ParseError::UnexpectedEnd)
        },
        Err(_) => r,
    }
}

/// The expression that begins at `pos` and is bound to what follows more
/// strongly than `precedence`, and where it ends.
pub open spec fn parse_expression(ts: Seq<Lexeme>, pos: int, precedence: u8) -> Result<
    (Expr, int),
    ParseError,
>
    decreases ts.len() - pos, 2nat,
{
    match onward(ts, pos, parse_prefix(ts, pos)) {
        Ok((left, end)) => parse_operators(ts, left, end, precedence),
        Err(e) => Err(e),
    }
}

/// The expression that `left` becomes with the infix operators, calls and
/// indexings from `pos` on that bind more strongly than `precedence`.
pub open spec fn parse_operators(ts: Seq<Lexeme>, left: Expr, pos: int, precedence: u8) -> Result<
    (Expr, int),
    ParseError,
>
    decreases ts.len() - pos, 1nat,
{
    if precedence < precedence_of(kind_at(ts, pos)) {
        match onward(ts, pos, parse_infix(ts, left, pos)) {
            Ok((e, end)) => parse_operators(ts, e, end, precedence),
            Err(e) => Err(e),
        }
    } else {
        Ok((left, pos))
    }
}

/// The expression that `left` becomes with the one operator, call or
/// indexing at `pos`.
pub open spec fn parse_infix(ts: Seq<Lexeme>, left: Expr, pos: int) -> Result<
    (Expr, int),
    ParseError,
>
    decreases ts.len() - pos, 0nat,
{
    match kind_at(ts, pos) {
        None => Err(ParseError::UnexpectedEnd),
        Some(TokenKind::Lparen) => match parse_list(ts, pos + 1, TokenKind::Rparen) {
            Ok((arguments, end)) => Ok((Expr::call(left, arguments), end)),
            Err(e) => Err(e),
        },
        Some(kind) => if precedence_of(Some(kind)) == LOWEST {
            Err(ParseError::UnexpectedToken)
        } else {
            match parse_expression(ts, pos + 1, precedence_of(Some(kind))) {
                Ok((right, end)) => {
                    let e = Expr::infix(ts[pos].text, left, right);
                    if kind == TokenKind::Lbracket {
                        match expect(ts, end, TokenKind::Rbracket) {
                            Ok(after) => Ok((e, after)),
                            Err(e) => Err(e),
                        }
                    } else {
                        Ok((e, end))
                    }
                },
                Err(e) => Err(e),
            }
        },
    }
}

/// The expressions that stand between `pos` and the token of the kind
/// `close`, with commas between them, and the place behind that token.
pub open spec fn parse_list(ts: Seq<Lexeme>, pos: int, close: TokenKind) -> Result<
    (Seq<Expr>, int),
    ParseError,
>
    decreases ts.len() - pos, 4nat,
{
    if kind_at(ts, pos) == Some(close) {
        Ok((Seq::empty(), pos + 1))
    } else {
        match parse_items(ts, pos, Seq::empty()) {
            Ok((items, end)) => match expect(ts, end, close) {
                Ok(after) => Ok((items, after)),
                Err(e) => Err(e),
            },
            Err(e) => Err(e),
        }
    }
}

/// The list `items` with the expressions from `pos` on, which have commas
/// between them, and the place behind the last of them.
pub open spec fn parse_items(ts: Seq<Lexeme>, pos: int, items: Seq<Expr>) -> Result<
    (Seq<Expr>, int),
    ParseError,
>
    decreases ts.len() - pos, 3nat,
{
    match onward(ts, pos, parse_expression(ts, pos, LOWEST)) {
        Ok((e, end)) => if kind_at(ts, end) == Some(TokenKind::Comma) {
            parse_items(ts, end + 1, items.push(e))
        } else {
            Ok((items.push(e), end))
        },
        Err(e) => Err(e),
    }
}

/// The expression that begins with the token at `pos`, up to its first
/// infix operator, and where it ends.
pub open spec fn parse_prefix(ts: Seq<Lexeme>, pos: int) -> Result<(Expr, int), ParseError>
    decreases ts.len() - pos, 1nat,
{
    match kind_at(ts, pos) {
        None => Err(ParseError::UnexpectedEnd),
        Some(kind) => {
            let text = ts[pos].text;
            match kind {
                TokenKind::Ident => Ok((Expr::Ident(text), pos + 1)),
                TokenKind::Int => Ok((Expr::Int(text), pos + 1)),
                TokenKind::Str => Ok((Expr::Str(text), pos + 1)),
                TokenKind::True | TokenKind::False => Ok((Expr::Bool(text), pos + 1)),
                TokenKind::Minus | TokenKind::Bang => match parse_expression(ts, pos + 1, PREFIX) {
                    Ok((e, end)) => Ok((Expr::prefix(text, e), end)),
                    Err(e) => Err(e),
                },
                TokenKind::Lparen => match parse_expression(ts, pos + 1, LOWEST) {
                    Ok((e, end)) => match expect(ts, end, TokenKind::Rparen) {
                        Ok(after) => Ok((e, after)),
                        Err(e) => Err(e),
                    },
                    Err(e) => Err(e),
                },
                TokenKind::Lbracket => match parse_list(ts, pos + 1, TokenKind::Rbracket) {
                    Ok((items, end)) => Ok((Expr::Array(items), end)),
                    Err(e) => Err(e),
                },
                TokenKind::If => parse_conditional(ts, pos + 1),
                TokenKind::Function => parse_function(ts, pos + 1),
                _ => Err(ParseError::UnexpectedToken),
            }
        },
    }
}

/// The conditional whose `if` stands before `pos`: a condition in round
/// brackets, a block, and an alternative.
pub open spec fn parse_conditional(ts: Seq<Lexeme>, pos: int) -> Result<(Expr, int), ParseError>
    decreases ts.len() - pos, 1nat,
{
    match expect(ts, pos, TokenKind::Lparen) {
        Ok(pos1) => match onward(ts, pos1, parse_expression(ts, pos1, LOWEST)) {
            Ok((condition, pos2)) => match expect(ts, pos2, TokenKind::Rparen) {
                Ok(pos3) => match onward(ts, pos3, parse_braces(ts, pos3)) {
                    Ok((consequence, pos4)) => match parse_alternative(ts, pos4) {
                        Ok((alternative, pos5)) => Ok(
                            (Expr::conditional(condition, consequence, alternative), pos5),
                        ),
                        Err(e) => Err(e),
                    },
                    Err(e) => Err(e),
                },
                Err(e) => Err(e),
            },
            Err(e) => Err(e),
        },
        Err(e) => Err(e),
    }
}

/// The alternative of a conditional, which begins at `pos`: the block
/// after `else`, or an empty block where no `else` stands.
pub open spec fn parse_alternative(ts: Seq<Lexeme>, pos: int) -> Result<(Stmt, int), ParseError>
    decreases ts.len() - pos, 0nat,
{
    if kind_at(ts, pos) == Some(TokenKind::Else) {
        parse_braces(ts, pos + 1)
    } else {
        Ok((Stmt::Block(Seq::empty()), pos))
    }
}

/// The function literal whose `fn` stands before `pos`: names in round
/// brackets with commas between them, and a block.
pub open spec fn parse_function(ts: Seq<Lexeme>, pos: int) -> Result<(Expr, int), ParseError>
    decreases ts.len() - pos, 0nat,
{
    match expect(ts, pos, TokenKind::Lparen) {
        Ok(pos1) => match parse_parameters(ts, pos1) {
            Ok((parameters, pos2)) => if pos1 <= pos2 <= ts.len() {
                match parse_braces(ts, pos2) {
                    Ok((body, pos3)) => Ok((Expr::function(parameters, body), pos3)),
                    Err(e) => Err(e),
                }
            } else {
                Err(ParseError::UnexpectedEnd)
            },
            Err(e) => Err(e),
        },
        Err(e) => Err(e),
    }
}

/// The names between `pos` and the closing round bracket, and the place
/// behind that bracket.
pub open spec fn parse_parameters(ts: Seq<Lexeme>, pos: int) -> Result<
    (Seq<Expr>, int),
    ParseError,
> {
    if kind_at(ts, pos) == Some(TokenKind::Rparen) {
        Ok((Seq::empty(), pos + 1))
    } else {
        match parse_names(ts, pos, Seq::empty()) {
            Ok((names, end)) => match expect(ts, end, TokenKind::Rparen) {
                Ok(after) => Ok((names, after)),
                Err(e) => Err(e),
            },
            Err(e) => Err(e),
        }
    }
}

/// The list `names` with the names from `pos` on, which have commas
/// between them, and the place behind the last of them.
pub open spec fn parse_names(ts: Seq<Lexeme>, pos: int, names: Seq<Expr>) -> Result<
    (Seq<Expr>, int),
    ParseError,
>
    decreases ts.len() - pos,
{
    match kind_at(ts, pos) {
        Some(TokenKind::Ident) => {
            let more = names.push(Expr::Ident(ts[pos].text));
            if kind_at(ts, pos + 1) == Some(TokenKind::Comma) {
                parse_names(ts, pos + 2, more)
            } else {
                Ok((more, pos + 1))
            }
        },
        Some(_) => Err(ParseError::UnexpectedToken),
        None => Err(ParseError::UnexpectedEnd),
    }
}

/// The block in curly brackets that begins at `pos`, and the place behind
/// it.
pub open spec fn parse_braces(ts: Seq<Lexeme>, pos: int) -> Result<(Stmt, int), ParseError>
    decreases ts.len() - pos, 5nat,
{
    match expect(ts, pos, TokenKind::Lbrace) {
        Ok(pos1) => match parse_block(ts, pos1, Seq::empty()) {
            Ok((block, pos2)) => match expect(ts, pos2, TokenKind::Rbrace) {
                Ok(pos3) => Ok((block, pos3)),
                Err(e) => Err(e),
            },
            Err(e) => Err(e),
        },
        Err(e) => Err(e),
    }
}

/// The block of the statements `items` and those from `pos` up to the
/// closing curly bracket, and the place of that bracket.
pub open spec fn parse_block(ts: Seq<Lexeme>, pos: int, items: Seq<Stmt>) -> Result<
    (Stmt, int),
    ParseError,
>
    decreases ts.len() - pos, 4nat,
{
    if kind_at(ts, pos) == Some(TokenKind::Rbrace) {
        Ok((Stmt::Block(items), pos))
    } else {
        match parse_statement(ts, pos) {
            Ok(Some((s, end))) => if pos < end <= ts.len() {
                parse_block(ts, end, items.push(s))
            } else {
                Err(ParseError::UnexpectedEnd)
            },
            Ok(None) => Err(ParseError::UnexpectedEnd),
            Err(e) => Err(e),
        }
    }
}

/// The statement that begins at `pos` and the place behind it, or nothing
/// at the end of the tokens: a `let` and a `return` end with a semicolon,
/// an expression may.
pub open spec fn parse_statement(ts: Seq<Lexeme>, pos: int) -> Result<
    Option<(Stmt, int)>,
    ParseError,
>
    decreases ts.len() - pos, 3nat,
{
    match kind_at(ts, pos) {
        None => Ok(None),
        Some(TokenKind::Let) => match expect(ts, pos + 1, TokenKind::Ident) {
            Ok(pos1) => match expect(ts, pos1, TokenKind::Assign) {
                Ok(pos2) => match parse_expression(ts, pos2, LOWEST) {
                    Ok((e, pos3)) => match expect(ts, pos3, TokenKind::Semicolon) {
                        Ok(pos4) => Ok(
                            Some((Stmt::binding(Expr::Ident(ts[pos + 1].text), e), pos4)),
                        ),
                        Err(e) => Err(e),
                    },
                    Err(e) => Err(e),
                },
                Err(e) => Err(e),
            },
            Err(e) => Err(e),
        },
        Some(TokenKind::Return) => match parse_expression(ts, pos + 1, LOWEST) {
            Ok((e, pos1)) => match expect(ts, pos1, TokenKind::Semicolon) {
                Ok(pos2) => Ok(Some((Stmt::Return(e), pos2))),
                Err(e) => Err(e),
            },
            Err(e) => Err(e),
        },
        Some(_) => match parse_expression(ts, pos, LOWEST) {
            Ok((e, pos1)) => Ok(
                Some(
                    (
                        Stmt::Expr(e),
                        if kind_at(ts, pos1) == Some(TokenKind::Semicolon) {
                            pos1 + 1
                        } else {
                            pos1
                        },
                    ),
                ),
            ),
            Err(e) => Err(e),
        },
    }
}

/// The statements `items` and all those from `pos` on.
pub open spec fn parse_program(ts: Seq<Lexeme>, pos: int, items: Seq<Stmt>) -> Result<
    Seq<Stmt>,
    ParseError,
>
    decreases ts.len() - pos,
{
    match parse_statement(ts, pos) {
        Ok(Some((s, end))) => if pos < end <= ts.len() {
            parse_program(ts, end, items.push(s))
        } else {
            Err(ParseError::UnexpectedEnd)
        },
        Ok(None) => Ok(items),
        Err(e) => Err(e),
    }
}


/// Builds the statements of a program from its tokens.
pub struct Parser {
    input: Vec<Token>,
    pos: usize,
}

impl Parser {
    /// The tokens of the program.
    pub closed spec fn tokens(&self) -> Seq<Lexeme> {
        tokens_view(self.input@)
    }

    /// How many tokens have been read.
    pub closed spec fn position(&self) -> int {
        self.pos as int
    }

    #[verifier::type_invariant]
    closed spec fn inv(&self) -> bool {
        self.pos <= self.input.len()
    }

    /// What a step of the parser with the result `r` has to achieve: where
    /// the grammar gives a value and the place behind it, the step succeeds
    /// with that value and the parser stands at that place, further on than
    /// `from`; where the grammar gives an error, the step fails with it.
    pub open spec fn achieves<T: View>(
        &self,
        from: int,
        r: Result<T, ParseError>,
        spec: Result<(T::V, int), ParseError>,
    ) -> bool {
        match spec {
            Ok((value, end)) => r is Ok && r->Ok_0@ == value && self.position() == end && from
                < end <= self.tokens().len(),
            Err(e) => r is Err && r->Err_0 == e,
        }
    }

    /// A parser at the first of the tokens that `lexer` has left to give.
    pub fn new(lexer: Lexer) -> (r: Parser)
        ensures
            r.tokens() == tokens_from(lexer.chars(), lexer.position()),
            r.position() == 0,
    {
        let mut lexer = lexer;
        let _ = lexer.remaining();
        let mut input: Vec<Token> = Vec::new();
        let ghost s = lexer.chars();
        let ghost from = lexer.position();
        loop
            invariant
                lexer.chars() == s,
                tokens_from(s, from) == tokens_view(input@) + tokens_from(s, lexer.position()),
                lexer.position() <= s.len(),
            ensures
                tokens_from(s, from) == tokens_view(input@),
            decreases s.len() - lexer.position(),
        {
            let ghost before = tokens_view(input@);
            match lexer.next() {
                Some(token) => {
                    input.push(token);
                    assert(tokens_view(input@) =~= before.push(token@));
                    assert(before + (seq![token@] + tokens_from(s, lexer.position()))
                        =~= before.push(token@) + tokens_from(s, lexer.position()));
                },
                None => {
                    assert(before + Seq::<Lexeme>::empty() =~= before);
                    break ;
                },
            }
        }
        Parser { input, pos: 0 }
    }

    /// The token at the place of the parser.
    fn token(&self) -> (r: Option<&Token>)
        ensures
            match r {
                Some(t) => 0 <= self.position() < self.tokens().len() && t@
                    == self.tokens()[self.position()],
                None => self.position() >= self.tokens().len(),
            },
            self.position() <= self.tokens().len(),
    {
        proof {
            use_type_invariant(self);
        }
        if self.pos < self.input.len() {
            Some(&self.input[self.pos])
        } else {
            None
        }
    }

    /// The kind of the token at the place of the parser.
    fn kind(&self) -> (r: Option<TokenKind>)
        ensures
            r == kind_at(self.tokens(), self.position()),
            0 <= self.position() <= self.tokens().len(),
    {
        match self.token() {
            Some(t) => Some(t.kind()),
            None => None,
        }
    }

    /// Moves on by one token.
    fn forward(&mut self)
        requires
            old(self).position() < old(self).tokens().len(),
        ensures
            final(self).tokens() == old(self).tokens(),
            final(self).position() == old(self).position() + 1,
    {
        assert(self.pos < self.input.len());
        self.pos = self.pos + 1;
    }

    /// Moves past the token at the place of the parser, which must be of
    /// the kind `expected`, and returns its text.
    fn assert_and_forward(&mut self, expected: TokenKind) -> (r: Result<String, ParseError>)
        ensures
            final(self).tokens() == old(self).tokens(),
            match expect(old(self).tokens(), old(self).position(), expected) {
                Ok(end) => r is Ok && final(self).position() == end && r->Ok_0@
                    == old(self).tokens()[old(self).position()].text && end
                    <= old(self).tokens().len(),
                Err(e) => r is Err && r->Err_0 == e,
            },
    {
        let text = match self.token() {
            Some(tk) => {
                if tk.kind() == expected {
                    tk.text().clone()
                } else {
                    return Err(ParseError::UnexpectedToken);
                }
            },
            None => {
                return Err(ParseError::UnexpectedEnd);
            },
        };
        self.forward();
        Ok(text)
    }

    /// How strongly a token binds the expression on its left to what follows.
    fn get_precedence(kind: Option<TokenKind>) -> (r: u8)
        ensures
            r == precedence_of(kind),
    {
        match kind {
            Some(TokenKind::Eq) => EQUALS,
            Some(TokenKind::NotEq) => EQUALS,
            Some(TokenKind::LT) => LESSGREATER,
            Some(TokenKind::GT) => LESSGREATER,
            Some(TokenKind::Plus) => SUM,
            Some(TokenKind::Minus) => SUM,
            Some(TokenKind::Slash) => PRODUCT,
            Some(TokenKind::Asterisk) => PRODUCT,
            Some(TokenKind::Lparen) => CALL,
            Some(TokenKind::Lbracket) => INDEX,
            _ => LOWEST,
        }
    }

    /// The next statement of the program, or nothing at its end.
    pub fn next(&mut self) -> (r: Result<Option<Statement>, ParseError>)
        ensures
            final(self).tokens() == old(self).tokens(),
            final(self).stated(
                old(self).position(),
                r,
                parse_statement(old(self).tokens(), old(self).position()),
            ),
    {
        self.parse_statement()
    }

    /// What parsing a statement with the result `r` has to achieve.
    pub open spec fn stated(
        &self,
        from: int,
        r: Result<Option<Statement>, ParseError>,
        spec: Result<Option<(Stmt, int)>, ParseError>,
    ) -> bool {
        match spec {
            Ok(Some((s, end))) => r is Ok && r->Ok_0 is Some && r->Ok_0->0@ == s
                && self.position() == end && from < end <= self.tokens().len(),
            Ok(None) => r is Ok && r->Ok_0 is None && self.position() == from,
            Err(e) => r is Err && r->Err_0 == e,
        }
    }

    /// Parses the statement at the place of the parser, if one is left.
    fn parse_statement(&mut self) -> (r: Result<Option<Statement>, ParseError>)
        ensures
            final(self).tokens() == old(self).tokens(),
            final(self).stated(
                old(self).position(),
                r,
                parse_statement(old(self).tokens(), old(self).position()),
            ),
        decreases old(self).tokens().len() - old(self).position(), 3nat,
    {
        match self.kind() {
            Some(TokenKind::Let) => match self.parse_let_statement() {
                Ok(s) => Ok(Some(s)),
                Err(e) => Err(e),
            },
            Some(TokenKind::Return) => match self.parse_return_statement() {
                Ok(s) => Ok(Some(s)),
                Err(e) => Err(e),
            },
            Some(_) => match self.parse_expr_statement() {
                Ok(s) => Ok(Some(s)),
                Err(e) => Err(e),
            },
            None => Ok(None),
        }
    }

    /// The statement that the grammar gives at `pos`, which is not the end
    /// of the tokens.
    pub open spec fn statement_at(ts: Seq<Lexeme>, pos: int) -> Result<(Stmt, int), ParseError> {
        match parse_statement(ts, pos) {
            Ok(Some(found)) => Ok(found),
            Ok(None) => Err(ParseError::UnexpectedEnd),
            Err(e) => Err(e),
        }
    }

    /// Parses a `let`: a name, `=`, an expression and a semicolon.
    fn parse_let_statement(&mut self) -> (r: Result<Statement, ParseError>)
        requires
            kind_at(old(self).tokens(), old(self).position()) == Some(TokenKind::Let),
        ensures
            final(self).tokens() == old(self).tokens(),
            final(self).achieves(
                old(self).position(),
                r,
                Self::statement_at(old(self).tokens(), old(self).position()),
            ),
        decreases old(self).tokens().len() - old(self).position(), 2nat,
    {
        self.forward();
        let name = match self.assert_and_forward(TokenKind::Ident) {
            Ok(name) => name,
            Err(e) => {
                return Err(e);
            },
        };
        match self.assert_and_forward(TokenKind::Assign) {
            Ok(_) => {},
            Err(e) => {
                return Err(e);
            },
        }
        let expr = match self.parse_expression(LOWEST) {
            Ok(expr) => expr,
            Err(e) => {
                return Err(e);
            },
        };
        match self.assert_and_forward(TokenKind::Semicolon) {
            Ok(_) => {},
            Err(e) => {
                return Err(e);
            },
        }
        Ok(Statement::Let { ident: Expression::Ident(name), expr })
    }

    /// Parses a `return`: an expression and a semicolon.
    fn parse_return_statement(&mut self) -> (r: Result<Statement, ParseError>)
        requires
            kind_at(old(self).tokens(), old(self).position()) == Some(TokenKind::Return),
        ensures
            final(self).tokens() == old(self).tokens(),
            final(self).achieves(
                old(self).position(),
                r,
                Self::statement_at(old(self).tokens(), old(self).position()),
            ),
        decreases old(self).tokens().len() - old(self).position(), 2nat,
    {
        self.forward();
        let expr = match self.parse_expression(LOWEST) {
            Ok(expr) => expr,
            Err(e) => {
                return Err(e);
            },
        };
        match self.assert_and_forward(TokenKind::Semicolon) {
            Ok(_) => {},
            Err(e) => {
                return Err(e);
            },
        }
        Ok(Statement::Return(expr))
    }

    /// Parses an expression statement; the semicolon behind it may be left out.
    fn parse_expr_statement(&mut self) -> (r: Result<Statement, ParseError>)
        requires
            kind_at(old(self).tokens(), old(self).position()) is Some,
            kind_at(old(self).tokens(), old(self).position()) != Some(TokenKind::Let),
            kind_at(old(self).tokens(), old(self).position()) != Some(TokenKind::Return),
        ensures
            final(self).tokens() == old(self).tokens(),
            final(self).achieves(
                old(self).position(),
                r,
                Self::statement_at(old(self).tokens(), old(self).position()),
            ),
        decreases old(self).tokens().len() - old(self).position(), 2nat,
    {
        let expr = match self.parse_expression(LOWEST) {
            Ok(expr) => expr,
            Err(e) => {
                return Err(e);
            },
        };
        match self.kind() {
            Some(TokenKind::Semicolon) => {
                self.forward();
            },
            _ => {},
        }
        Ok(Statement::Expr(expr))
    }

    /// Parses an expression together with the operators behind it that bind
    /// more strongly than `precedence`.
    fn parse_expression(&mut self, precedence: u8) -> (r: Result<Expression, ParseError>)
        ensures
            final(self).tokens() == old(self).tokens(),
            final(self).achieves(
                old(self).position(),
                r,
                parse_expression(old(self).tokens(), old(self).position(), precedence),
            ),
        decreases old(self).tokens().len() - old(self).position(), 1nat,
    {
        let ghost ts = self.tokens();
        let ghost from = self.position();
        let mut expr = match self.parse_prefix() {
            Ok(expr) => expr,
            Err(e) => {
                return Err(e);
            },
        };
        while precedence < Self::get_precedence(self.kind())
            invariant
                self.tokens() == ts,
                ts == old(self).tokens(),
                from == old(self).position(),
                from < self.position() <= ts.len(),
                parse_operators(ts, expr@, self.position(), precedence) == parse_expression(
                    ts,
                    from,
                    precedence,
                ),
            decreases ts.len() - self.position(),
        {
            expr = match self.parse_infix(expr) {
                Ok(expr) => expr,
                Err(e) => {
                    return Err(e);
                },
            };
        }
        Ok(expr)
    }

    /// Parses the expressions up to the token of the kind `close`, which
    /// have commas between them, and moves past that token.
    fn parse_list(&mut self, close: TokenKind) -> (r: Result<Vec<Box<Expression>>, ParseError>)
        ensures
            final(self).tokens() == old(self).tokens(),
            match parse_list(old(self).tokens(), old(self).position(), close) {
                Ok((items, end)) => r is Ok && expressions_view(r->Ok_0@) == items
                    && final(self).position() == end && old(self).position() < end
                    <= old(self).tokens().len(),
                Err(e) => r is Err && r->Err_0 == e,
            },
        decreases old(self).tokens().len() - old(self).position(), 2nat,
    {
        let ghost ts = self.tokens();
        let ghost from = self.position();
        let mut list: Vec<Box<Expression>> = Vec::new();
        let closed = match self.kind() {
            Some(kind) => kind == close,
            None => false,
        };
        if closed {
            self.forward();
            assert(expressions_view(list@) =~= Seq::<Expr>::empty());
            return Ok(list);
        }
        assert(expressions_view(list@) =~= Seq::<Expr>::empty());
        loop
            invariant_except_break
                parse_items(ts, self.position(), expressions_view(list@)) == parse_items(
                    ts,
                    from,
                    Seq::empty(),
                ),
            invariant
                self.tokens() == ts,
                ts == old(self).tokens(),
                from == old(self).position(),
                from <= self.position() <= ts.len(),
                kind_at(ts, from) != Some(close),
            ensures
                self.tokens() == ts,
                from < self.position() <= ts.len(),
                parse_items(ts, from, Seq::empty()) == Ok::<(Seq<Expr>, int), ParseError>(
                    (expressions_view(list@), self.position()),
                ),
            decreases ts.len() - self.position(),
        {
            let ghost before = expressions_view(list@);
            let item = match self.parse_expression(LOWEST) {
                Ok(item) => item,
                Err(e) => {
                    return Err(e);
                },
            };
            list.push(Box::new(item));
            assert(expressions_view(list@) =~= before.push(item@));
            match self.kind() {
                Some(TokenKind::Comma) => {
                    self.forward();
                },
                _ => {
                    break ;
                },
            }
        }
        match self.assert_and_forward(close) {
            Ok(_) => {},
            Err(e) => {
                return Err(e);
            },
        }
        Ok(list)
    }

    /// Parses a block in curly brackets.
    fn parse_braces(&mut self) -> (r: Result<Statement, ParseError>)
        ensures
            final(self).tokens() == old(self).tokens(),
            final(self).achieves(
                old(self).position(),
                r,
                parse_braces(old(self).tokens(), old(self).position()),
            ),
        decreases old(self).tokens().len() - old(self).position(), 5nat,
    {
        match self.assert_and_forward(TokenKind::Lbrace) {
            Ok(_) => {},
            Err(e) => {
                return Err(e);
            },
        }
        let block = match self.parse_block_statement() {
            Ok(block) => block,
            Err(e) => {
                return Err(e);
            },
        };
        match self.assert_and_forward(TokenKind::Rbrace) {
            Ok(_) => {},
            Err(e) => {
                return Err(e);
            },
        }
        Ok(block)
    }

    /// Parses what an expression begins with: a literal, a name, a prefix
    /// operator with its operand, an expression in round brackets, an array, a
    /// conditional or a function.
    fn parse_prefix(&mut self) -> (r: Result<Expression, ParseError>)
        ensures
            final(self).tokens() == old(self).tokens(),
            final(self).achieves(
                old(self).position(),
                r,
                parse_prefix(old(self).tokens(), old(self).position()),
            ),
        decreases old(self).tokens().len() - old(self).position(), 0nat,
    {
        let (kind, text) = match self.token() {
            Some(tk) => (tk.kind(), tk.text().clone()),
            None => {
                return Err(ParseError::UnexpectedEnd);
            },
        };
        self.forward();
        match kind {
            TokenKind::Ident => Ok(Expression::Ident(text)),
            TokenKind::Int => Ok(Expression::Int(text)),
            TokenKind::Str => Ok(Expression::Str(text)),
            TokenKind::True | TokenKind::False => Ok(Expression::Bool(text)),
            TokenKind::Minus | TokenKind::Bang => {
                let expr = match self.parse_expression(PREFIX) {
                    Ok(expr) => expr,
                    Err(e) => {
                        return Err(e);
                    },
                };
                Ok(Expression::Prefix { operator: text, expr: Box::new(expr) })
            },
            TokenKind::Lparen => {
                let expr = match self.parse_expression(LOWEST) {
                    Ok(expr) => expr,
                    Err(e) => {
                        return Err(e);
                    },
                };
                match self.assert_and_forward(TokenKind::Rparen) {
                    Ok(_) => {},
                    Err(e) => {
                        return Err(e);
                    },
                }
                Ok(expr)
            },
            TokenKind::Lbracket => {
                let list = match self.parse_list(TokenKind::Rbracket) {
                    Ok(list) => list,
                    Err(e) => {
                        return Err(e);
                    },
                };
                Ok(Expression::Array(list))
            },
            TokenKind::If => self.parse_conditional(),
            TokenKind::Function => self.parse_function(),
            _ => Err(ParseError::UnexpectedToken),
        }
    }

    /// Parses the conditional whose `if` stands before the place of the
    /// parser.
    fn parse_conditional(&mut self) -> (r: Result<Expression, ParseError>)
        ensures
            final(self).tokens() == old(self).tokens(),
            final(self).achieves(
                old(self).position(),
                r,
                parse_conditional(old(self).tokens(), old(self).position()),
            ),
        decreases old(self).tokens().len() - old(self).position(), 1nat,
    {
        match self.assert_and_forward(TokenKind::Lparen) {
            Ok(_) => {},
            Err(e) => {
                return Err(e);
            },
        }
        let condition = match self.parse_expression(LOWEST) {
            Ok(expr) => expr,
            Err(e) => {
                return Err(e);
            },
        };
        match self.assert_and_forward(TokenKind::Rparen) {
            Ok(_) => {},
            Err(e) => {
                return Err(e);
            },
        }
        let consequence = match self.parse_braces() {
            Ok(block) => block,
            Err(e) => {
                return Err(e);
            },
        };
        let alternative = match self.parse_alternative() {
            Ok(block) => block,
            Err(e) => {
                return Err(e);
            },
        };
        Ok(
            Expression::If {
                condition: Box::new(condition),
                consequence: Box::new(consequence),
                alternative: Box::new(alternative),
            },
        )
    }

    /// Parses the alternative of a conditional: the block after `else`, or
    /// nothing where no `else` stands.
    fn parse_alternative(&mut self) -> (r: Result<Statement, ParseError>)
        ensures
            final(self).tokens() == old(self).tokens(),
            match parse_alternative(old(self).tokens(), old(self).position()) {
                Ok((block, end)) => r is Ok && r->Ok_0@ == block && final(self).position() == end
                    && old(self).position() <= end <= old(self).tokens().len(),
                Err(e) => r is Err && r->Err_0 == e,
            },
        decreases old(self).tokens().len() - old(self).position(), 0nat,
    {
        match self.kind() {
            Some(TokenKind::Else) => {
                self.forward();
                self.parse_braces()
            },
            _ => {
                let empty: Vec<Box<Statement>> = Vec::new();
                assert(statements_view(empty@) =~= Seq::<Stmt>::empty());
                Ok(Statement::Block(empty))
            },
        }
    }

    /// Parses the function literal whose `fn` stands before the place of
    /// the parser.
    fn parse_function(&mut self) -> (r: Result<Expression, ParseError>)
        ensures
            final(self).tokens() == old(self).tokens(),
            final(self).achieves(
                old(self).position(),
                r,
                parse_function(old(self).tokens(), old(self).position()),
            ),
        decreases old(self).tokens().len() - old(self).position(), 0nat,
    {
        match self.assert_and_forward(TokenKind::Lparen) {
            Ok(_) => {},
            Err(e) => {
                return Err(e);
            },
        }
        let parameters = match self.parse_parameters() {
            Ok(parameters) => parameters,
            Err(e) => {
                return Err(e);
            },
        };
        let body = match self.parse_braces() {
            Ok(block) => block,
            Err(e) => {
                return Err(e);
            },
        };
        Ok(Expression::Function { parameters, body: Box::new(body) })
    }

    /// Parses the names up to the closing round bracket, which have commas
    /// between them, and moves past that bracket.
    fn parse_parameters(&mut self) -> (r: Result<Vec<Box<Expression>>, ParseError>)
        ensures
            final(self).tokens() == old(self).tokens(),
            match parse_parameters(old(self).tokens(), old(self).position()) {
                Ok((names, end)) => r is Ok && expressions_view(r->Ok_0@) == names
                    && final(self).position() == end && old(self).position() < end
                    <= old(self).tokens().len(),
                Err(e) => r is Err && r->Err_0 == e,
            },
    {
        let ghost ts = self.tokens();
        let ghost from = self.position();
        let mut parameters: Vec<Box<Expression>> = Vec::new();
        assert(expressions_view(parameters@) =~= Seq::<Expr>::empty());
        match self.kind() {
            Some(TokenKind::Rparen) => {
                self.forward();
                return Ok(parameters);
            },
            _ => {},
        }
        loop
            invariant_except_break
                parse_names(ts, self.position(), expressions_view(parameters@)) == parse_names(
                    ts,
                    from,
                    Seq::empty(),
                ),
            invariant
                self.tokens() == ts,
                ts == old(self).tokens(),
                from == old(self).position(),
                from <= self.position() <= ts.len(),
                kind_at(ts, from) != Some(TokenKind::Rparen),
            ensures
                self.tokens() == ts,
                from < self.position() <= ts.len(),
                parse_names(ts, from, Seq::empty()) == Ok::<(Seq<Expr>, int), ParseError>(
                    (expressions_view(parameters@), self.position()),
                ),
            decreases ts.len() - self.position(),
        {
            let ghost before = expressions_view(parameters@);
            let name = match self.token() {
                Some(tk) => {
                    if tk.kind() == TokenKind::Ident {
                        tk.text().clone()
                    } else {
                        return Err(ParseError::UnexpectedToken);
                    }
                },
                None => {
                    return Err(ParseError::UnexpectedEnd);
                },
            };
            parameters.push(Box::new(Expression::Ident(name)));
            assert(expressions_view(parameters@) =~= before.push(Expr::Ident(name@)));
            self.forward();
            match self.kind() {
                Some(TokenKind::Comma) => {
                    self.forward();
                },
                _ => {
                    break ;
                },
            }
        }
        match self.assert_and_forward(TokenKind::Rparen) {
            Ok(_) => {},
            Err(e) => {
                return Err(e);
            },
        }
        Ok(parameters)
    }

    /// Parses the statements up to the closing curly bracket.
    fn parse_block_statement(&mut self) -> (r: Result<Statement, ParseError>)
        ensures
            final(self).tokens() == old(self).tokens(),
            match parse_block(old(self).tokens(), old(self).position(), Seq::empty()) {
                Ok((block, end)) => r is Ok && r->Ok_0@ == block && final(self).position() == end
                    && old(self).position() <= end <= old(self).tokens().len(),
                Err(e) => r is Err && r->Err_0 == e,
            },
        decreases old(self).tokens().len() - old(self).position(), 4nat,
    {
        let ghost ts = self.tokens();
        let ghost from = self.position();
        let mut stmts: Vec<Box<Statement>> = Vec::new();
        assert(statements_view(stmts@) =~= Seq::<Stmt>::empty());
        proof {
            use_type_invariant(&*self);
        }
        loop
            invariant
                self.tokens() == ts,
                ts == old(self).tokens(),
                from == old(self).position(),
                from <= self.position() <= ts.len(),
                parse_block(ts, self.position(), statements_view(stmts@)) == parse_block(
                    ts,
                    from,
                    Seq::empty(),
                ),
            ensures
                self.tokens() == ts,
                from <= self.position() <= ts.len(),
                parse_block(ts, from, Seq::empty()) == Ok::<(Stmt, int), ParseError>(
                    (Stmt::Block(statements_view(stmts@)), self.position()),
                ),
            decreases ts.len() - self.position(),
        {
            match self.kind() {
                Some(TokenKind::Rbrace) => {
                    break ;
                },
                _ => {},
            }
            let ghost before = statements_view(stmts@);
            let stmt = match self.parse_statement() {
                Ok(Some(stmt)) => stmt,
                Ok(None) => {
                    return Err(ParseError::UnexpectedEnd);
                },
                Err(e) => {
                    return Err(e);
                },
            };
            stmts.push(Box::new(stmt));
            assert(statements_view(stmts@) =~= before.push(stmt@));
        }
        Ok(Statement::Block(stmts))
    }

    /// Parses the operator, call or indexing behind the expression `left`.
    fn parse_infix(&mut self, left: Expression) -> (r: Result<Expression, ParseError>)
        ensures
            final(self).tokens() == old(self).tokens(),
            final(self).achieves(
                old(self).position(),
                r,
                parse_infix(old(self).tokens(), left@, old(self).position()),
            ),
        decreases old(self).tokens().len() - old(self).position(), 0nat,
    {
        let (kind, text) = match self.token() {
            Some(tk) => (tk.kind(), tk.text().clone()),
            None => {
                return Err(ParseError::UnexpectedEnd);
            },
        };
        match kind {
            TokenKind::Lparen => {
                self.forward();
                let arguments = match self.parse_list(TokenKind::Rparen) {
                    Ok(arguments) => arguments,
                    Err(e) => {
                        return Err(e);
                    },
                };
                Ok(Expression::Call { function: Box::new(left), arguments })
            },
            _ => {
                let precedence = Self::get_precedence(Some(kind));
                if precedence == LOWEST {
                    return Err(ParseError::UnexpectedToken);
                }
                self.forward();
                let right = match self.parse_expression(precedence) {
                    Ok(right) => right,
                    Err(e) => {
                        return Err(e);
                    },
                };
                if kind == TokenKind::Lbracket {
                    match self.assert_and_forward(TokenKind::Rbracket) {
                        Ok(_) => {},
                        Err(e) => {
                            return Err(e);
                        },
                    }
                }
                Ok(Expression::Infix { operator: text, left: Box::new(left), right: Box::new(right) })
            },
        }
    }

    /// All statements that are left of the program.
    pub fn collect(&mut self) -> (r: Result<Vec<Statement>, ParseError>)
        ensures
            final(self).tokens() == old(self).tokens(),
            match parse_program(old(self).tokens(), old(self).position(), Seq::empty()) {
                Ok(program) => r is Ok && plain_statements_view(r->Ok_0@) == program
                    && final(self).position() == old(self).tokens().len(),
                Err(e) => r is Err && r->Err_0 == e,
            },
    {
        let ghost ts = self.tokens();
        let ghost from = self.position();
        let mut program: Vec<Statement> = Vec::new();
        assert(plain_statements_view(program@) =~= Seq::<Stmt>::empty());
        proof {
            use_type_invariant(&*self);
        }
        loop
            invariant
                self.tokens() == ts,
                ts == old(self).tokens(),
                from == old(self).position(),
                from <= self.position() <= ts.len(),
                parse_program(ts, self.position(), plain_statements_view(program@))
                    == parse_program(ts, from, Seq::empty()),
            ensures
                self.tokens() == ts,
                self.position() == ts.len(),
                parse_program(ts, from, Seq::empty()) == Ok::<Seq<Stmt>, ParseError>(
                    plain_statements_view(program@),
                ),
            decreases ts.len() - self.position(),
        {
            let ghost before = plain_statements_view(program@);
            match self.parse_statement() {
                Ok(Some(stmt)) => {
                    program.push(stmt);
                    assert(plain_statements_view(program@) =~= before.push(stmt@));
                },
                Ok(None) => {
                    break ;
                },
                Err(e) => {
                    return Err(e);
                },
            }
        }
        Ok(program)
    }
}

/// The values of a list of statements, in order.
pub open spec fn plain_statements_view(ss: Seq<Statement>) -> Seq<Stmt> {
    Seq::new(ss.len(), |i: int| ss[i]@)
}

} // verus!
