use monkey::ast::{Expression, Statement};
use monkey::evaluator::Evaluator;
use monkey::lexer::Lexer;
use monkey::object::{Environment, Object};
use monkey::parser::Parser;

#[test]
fn evaluator() {
    let test_array = [
        ("5;", Object::Int(5), "5"),
        ("true;", Object::Bool(true), "true"),
        ("false;", Object::Bool(false), "false"),
        
        ("!true;", Object::Bool(false), "false"),
        ("!!5;", Object::Bool(true), "true"),

        ("-10;", Object::Int(-10), "-10"),

        ("2 + 1;", Object::Int(3), "3"),
        ("2 - 1;", Object::Int(1), "1"),
        ("2 * 1;", Object::Int(2), "2"),
        ("2 / 1;", Object::Int(2), "2"),
        ("1 + 2 * 3;", Object::Int(7), "7"),
        ("(1 + 2) * 3;", Object::Int(9), "9"),

        ("1 < 2;", Object::Bool(true), "true"),
        ("1 > 2;", Object::Bool(false), "false"),
        ("1 == 2;", Object::Bool(false), "false"),
        ("1 != 2;", Object::Bool(true), "true"),

        ("true == false;", Object::Bool(false), "false"),
        ("(1 < 2) != false;", Object::Bool(true), "true"),

        ("if (true) { 1 };", Object::Int(1), "1"),
        ("if (false) { 1 };", Object::Null, "Null"),
        ("if (1) { 1 };", Object::Int(1), "1"),
        ("if (0) { 1 };", Object::Int(1), "1"),
        ("if (1 < 2) { 1 } else { 2 };", Object::Int(1), "1"),
        ("if (1 > 2) { 1 } else { 2 };", Object::Int(2), "2"),

        ("return 10; 5;", Object::Int(10), "10"),

        ("let a = 5; a;", Object::Int(5), "5"),
        ("let a = 5; let b = a + 5; b;", Object::Int(10), "10"),

        ("fn() {};", Object::Function {
            parameters: Vec::new(),
            body: Box::new(Statement::Block(Vec::new())),
            env: Environment::new(),
        }, "function"),
        ("fn(x, y) { x };", Object::Function {
            parameters: vec!(
                Box::new(Expression::Ident(String::from("x"))),
                Box::new(Expression::Ident(String::from("y"))),
            ),
            body: Box::new(Statement::Block(vec!(
                Box::new(Statement::Expr(Expression::Ident(String::from("x")))),
            ))),
            env: Environment::new(),
        }, "function"),

        ("let add = fn(x, y) { x + y;}; add(1, add(2, 3));", Object::Int(6), "6"),
        ("fn(x, y) { x + y;}(1, 2);", Object::Int(3), "3"),
    ];
    for (input, expected, display) in test_array.iter() {
        let env = Environment::new();
        let lexer = Lexer::new(input);
        let parser = Parser::new(lexer);
        let mut evaluator = Evaluator::new(parser, env);
        let mut output = Vec::new();
        while let Some(item) = evaluator.next().unwrap() {
            output.push(item);
        }
        let obj = &output[output.len()-1].0;
        println!("Evaluator: {:?} - {:?}", input, obj);
        assert_eq!(expected, obj);
        assert_eq!(display, &obj.to_text());
    }
}
