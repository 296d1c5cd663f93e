use monkey::ast::{Expression, Statement};
use monkey::code::SymbolTable;
use monkey::compiler::Compiler;
use monkey::evaluator::{EvalError, Evaluator};
use monkey::lexer::Lexer;
use monkey::object::{Environment, Object};
use monkey::parser::{ParseError, Parser};
use monkey::vm::VM;
use std::collections::HashMap;

fn last(input: &str) -> Result<Object, EvalError> {
    let parser = Parser::new(Lexer::new(input));
    let mut evaluator = Evaluator::new(parser, Environment::new());
    let mut value = Object::Null;
    while let Some((obj, _)) = evaluator.next()? {
        value = obj;
    }
    Ok(value)
}

fn program(statements: Vec<Statement>) -> Result<Object, EvalError> {
    let mut evaluator = Evaluator::from_program(statements, Environment::new());
    let mut value = Object::Null;
    while let Some((obj, _)) = evaluator.next()? {
        value = obj;
    }
    Ok(value)
}

fn number(text: &str) -> Expression {
    Expression::Int(String::from(text))
}

#[test]
fn environment_sets_and_gets() {
    let mut env = Environment::new();
    let a = String::from("a");
    let b = String::from("b");
    assert_eq!(env.lookup(&a), None);
    env.set(a.clone(), Object::Int(1));
    env.set(b.clone(), Object::Int(2));
    env.set(a.clone(), Object::Int(3));
    assert_eq!(env.get(&a), Some(Object::Int(3)));
    assert_eq!(env.get(&b), Some(Object::Int(2)));
    let mut inner = Environment::init(env.clone());
    assert_eq!(inner.get(&a), Some(Object::Int(3)));
    inner.set(a.clone(), Object::Bool(true));
    assert_eq!(inner.lookup(&a), Some(Object::Bool(true)));
    assert_eq!(inner.lookup(&b), Some(Object::Int(2)));
    assert_eq!(inner.lookup(&String::from("c")), None);
    assert_eq!(env.lookup(&a), Some(Object::Int(3)));
    assert_eq!(Environment::new(), Environment::new());
}

#[test]
fn statement_values_come_one_by_one() {
    let parser = Parser::new(Lexer::new("let a = 2; a * 3; return a; 5;"));
    let mut evaluator = Evaluator::new(parser, Environment::new());
    let (value, env) = evaluator.next().unwrap().unwrap();
    assert_eq!(value, Object::Null);
    assert_eq!(env.lookup(&String::from("a")), Some(Object::Int(2)));
    assert_eq!(evaluator.next().unwrap().unwrap().0, Object::Int(6));
    assert_eq!(evaluator.next().unwrap().unwrap().0, Object::Int(2));
    assert_eq!(evaluator.next(), Ok(None));
    assert_eq!(evaluator.next(), Ok(None));
}

#[test]
fn literals_of_text_and_arrays_have_values() {
    assert_eq!(last("\"a b\";"), Ok(Object::Str(String::from("a b"))));
    assert_eq!(
        last("[1, 1 + 1];"),
        Ok(Object::Array(vec![Box::new(Object::Int(1)), Box::new(Object::Int(2))]))
    );
}

#[test]
fn conditional_sets_variables_of_the_scope_around_it() {
    assert_eq!(last("if (true) { let a = 1; }; a;"), Ok(Object::Int(1)));
    assert_eq!(last("let a = 1; fn() { let a = 2; }(); a;"), Ok(Object::Int(1)));
}

#[test]
fn function_keeps_the_environment_of_its_making() {
    assert_eq!(last("let a = 1; let f = fn() { a }; let a = 2; f();"), Ok(Object::Int(1)));
    assert_eq!(last("let f = fn(x) { fn(y) { x + y } }; f(1)(2);"), Ok(Object::Int(3)));
}

#[test]
fn call_binds_as_many_arguments_as_there_are_parameters() {
    assert_eq!(last("fn(a) { a }(1, 2);"), Ok(Object::Int(1)));
    assert_eq!(last("fn(a, b) { a }(1);"), Ok(Object::Int(1)));
    assert_eq!(last("fn(a, b) { b }(1);"), Err(EvalError::UnknownIdentifier));
}

#[test]
fn return_ends_the_body_of_a_function() {
    assert_eq!(last("fn() { return 1; 2; }();"), Ok(Object::Int(1)));
    assert_eq!(last("fn() { if (true) { return 1; }; 2; }();"), Ok(Object::Int(1)));
    assert_eq!(last("fn() { }();"), Ok(Object::Null));
}

#[test]
fn arithmetic_rounds_and_fails_as_the_machine_does() {
    assert_eq!(last("-7 / 2;"), Ok(Object::Int(-3)));
    assert_eq!(last("7 / -2;"), Ok(Object::Int(-3)));
    assert_eq!(last("1 / 0;"), Err(EvalError::DivisionByZero));
    assert_eq!(last("2147483647 + 1;"), Err(EvalError::Overflow));
    assert_eq!(last("-2147483647 - 2;"), Err(EvalError::Overflow));
    assert_eq!(last("65536 * 65536;"), Err(EvalError::Overflow));
}

#[test]
fn evaluation_errors() {
    assert_eq!(last("a;"), Err(EvalError::UnknownIdentifier));
    assert_eq!(last("2147483648;"), Err(EvalError::InvalidInteger));
    assert_eq!(last("1 + true;"), Err(EvalError::TypeMismatch));
    assert_eq!(last("true + true;"), Err(EvalError::UnknownOperator));
    assert_eq!(last("true < true;"), Err(EvalError::UnknownOperator));
    assert_eq!(last("\"a\" + \"b\";"), Err(EvalError::TypeMismatch));
    assert_eq!(last("[1][0];"), Err(EvalError::TypeMismatch));
    assert_eq!(last("-true;"), Err(EvalError::TypeMismatch));
    assert_eq!(last("1();"), Err(EvalError::NotAFunction));
}

#[test]
fn evaluation_errors_of_trees_that_no_text_gives() {
    let let_of_number = Statement::Let { ident: number("1"), expr: number("2") };
    assert_eq!(program(vec![let_of_number]), Err(EvalError::InvalidStatement));
    assert_eq!(program(vec![Statement::Block(Vec::new())]), Err(EvalError::InvalidStatement));
    let conditional = Expression::If {
        condition: Box::new(Expression::Bool(String::from("true"))),
        consequence: Box::new(Statement::Expr(number("1"))),
        alternative: Box::new(Statement::Block(Vec::new())),
    };
    assert_eq!(program(vec![Statement::Expr(conditional)]), Err(EvalError::InvalidBlock));
    let prefix = Expression::Prefix { operator: String::from("+"), expr: Box::new(number("1")) };
    assert_eq!(program(vec![Statement::Expr(prefix)]), Err(EvalError::UnknownOperator));
    let function = Expression::Function {
        parameters: vec![Box::new(number("1"))],
        body: Box::new(Statement::Block(Vec::new())),
    };
    let call = Expression::Call { function: Box::new(function), arguments: vec![Box::new(number("2"))] };
    assert_eq!(program(vec![Statement::Expr(call)]), Err(EvalError::InvalidParameter));
    let boolean = Expression::Bool(String::from("maybe"));
    assert_eq!(program(vec![Statement::Expr(boolean)]), Ok(Object::Bool(false)));
}

#[test]
fn text_that_is_no_program_gives_no_evaluator() {
    let parser = Parser::new(Lexer::new("1 +"));
    assert!(matches!(
        Evaluator::try_new(parser, Environment::new()),
        Err(ParseError::UnexpectedEnd)
    ));
}

#[test]
fn evaluator_and_machine_agree_on_programs_without_names() {
    let programs = [
        "1 + 2 * 3;",
        "-5 - -7;",
        "(1 + 2) * (3 - 4) / 2;",
        "1 < 2 == true;",
        "!true != !false;",
        "!(if (false) { 1 });",
        "[1, 2 + 3, [4, true], \"x\"];",
        "if (1 < 2) { 10 } else { 20 };",
        "if (1 > 2) { 10 } else { 20 };",
        "if (1 > 2) { 10 };",
        "if (if (true) { false } else { true }) { 1; 2 } else { 3; 4; 5 };",
        "\"a\"; 7; if (true) { [1] };",
        "1; 2; 3;",
    ];
    for input in programs.iter() {
        let expected = last(input).unwrap();
        let parser = Parser::new(Lexer::new(input));
        let (code, _) = Compiler::new(parser, SymbolTable::new(None)).run();
        let (top, popped, globals) = VM::new(code, HashMap::new()).run();
        assert_eq!(top, Object::Null);
        assert_eq!(popped, Some(expected));
        assert!(globals.is_empty());
    }
}

#[test]
fn evaluator_and_machine_differ_on_what_only_one_of_them_takes() {
    // The evaluator makes `false` of `!` on a number, the machine stops.
    assert_eq!(last("!5;"), Ok(Object::Bool(false)));
    // The machine joins texts, the evaluator does not.
    assert_eq!(last("\"a\" + \"b\";"), Err(EvalError::TypeMismatch));
}
