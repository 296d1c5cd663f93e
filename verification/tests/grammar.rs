use monkey::ast::{Expression, Statement};
use monkey::lexer::Lexer;
use monkey::parser::{ParseError, Parser};

fn parse(input: &str) -> Result<Vec<Statement>, ParseError> {
    Parser::new(Lexer::new(input)).collect()
}

fn number(text: &str) -> Box<Expression> {
    Box::new(Expression::Int(String::from(text)))
}

fn infix(operator: &str, left: Box<Expression>, right: Box<Expression>) -> Box<Expression> {
    Box::new(Expression::Infix { operator: String::from(operator), left, right })
}

#[test]
fn operators_bind_by_precedence_and_to_the_left() {
    assert_eq!(
        parse("1 - 2 - 3 * 4 == 5 < 6;"),
        Ok(vec![Statement::Expr(*infix(
            "==",
            infix("-", infix("-", number("1"), number("2")), infix("*", number("3"), number("4"))),
            infix("<", number("5"), number("6")),
        ))])
    );
}

#[test]
fn prefix_binds_more_strongly_than_infix() {
    assert_eq!(
        parse("-1 + 2"),
        Ok(vec![Statement::Expr(*infix(
            "+",
            Box::new(Expression::Prefix { operator: String::from("-"), expr: number("1") }),
            number("2"),
        ))])
    );
}

#[test]
fn calls_and_indexings_follow_each_other() {
    let f = Box::new(Expression::Ident(String::from("f")));
    let call = Box::new(Expression::Call { function: f, arguments: vec![number("1")] });
    let index = infix("[", call, number("0"));
    assert_eq!(
        parse("f(1)[0]();"),
        Ok(vec![Statement::Expr(Expression::Call { function: index, arguments: Vec::new() })])
    );
}

#[test]
fn empty_text_is_an_empty_program() {
    assert_eq!(parse(""), Ok(Vec::new()));
    assert_eq!(parse("  \n "), Ok(Vec::new()));
}

#[test]
fn parser_gives_statement_after_statement() {
    let mut parser = Parser::new(Lexer::new("let a = 1; return a;"));
    assert_eq!(
        parser.next(),
        Ok(Some(Statement::Let { ident: Expression::Ident(String::from("a")), expr: *number("1") }))
    );
    assert_eq!(parser.next(), Ok(Some(Statement::Return(Expression::Ident(String::from("a"))))));
    assert_eq!(parser.next(), Ok(None));
    assert_eq!(parser.next(), Ok(None));
}

#[test]
fn missing_token_is_an_unexpected_end() {
    assert_eq!(parse("let a = 1"), Err(ParseError::UnexpectedEnd));
    assert_eq!(parse("1 +"), Err(ParseError::UnexpectedEnd));
    assert_eq!(parse("(1"), Err(ParseError::UnexpectedEnd));
    assert_eq!(parse("if (x) { 1"), Err(ParseError::UnexpectedEnd));
    assert_eq!(parse("fn(a"), Err(ParseError::UnexpectedEnd));
    assert_eq!(parse("fn(a,"), Err(ParseError::UnexpectedEnd));
    assert_eq!(parse("[1, 2"), Err(ParseError::UnexpectedEnd));
}

#[test]
fn wrong_token_is_an_unexpected_token() {
    assert_eq!(parse("let 1 = 2;"), Err(ParseError::UnexpectedToken));
    assert_eq!(parse("let a 2;"), Err(ParseError::UnexpectedToken));
    assert_eq!(parse(")"), Err(ParseError::UnexpectedToken));
    assert_eq!(parse("if x { 1 }"), Err(ParseError::UnexpectedToken));
    assert_eq!(parse("fn(1) { }"), Err(ParseError::UnexpectedToken));
    assert_eq!(parse("[1, ]"), Err(ParseError::UnexpectedToken));
    assert_eq!(parse("a[1;"), Err(ParseError::UnexpectedToken));
    assert_eq!(parse("return 1 2"), Err(ParseError::UnexpectedToken));
}
