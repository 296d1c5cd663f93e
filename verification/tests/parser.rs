use monkey::ast::{Expression, Statement};
use monkey::lexer::Lexer;
use monkey::parser::Parser;

#[test]
fn parser() {
    let input = "
        let x = 10;
        return 1;
        2;
        -3;
        !4;

        5 + 5;
        5 - 5;
        5 * 5;
        5 / 5;
        5 > 5;
        5 < 5;
        5 == 5;
        5 != 5;

        5 + 5 * 5;
        (5 + 5) * 5;

        true;
        !false;

        if (x) {x}
        if (x < y) {
            x
        } else {
            y
        }

        fn() {}
        fn(x, y) {
            x
        }

        add(1, 2 + 3)

        \"a b\";

        [];
        [1];
        [1, 2];
        arr[1];
    ";
    let output = [
        Statement::Let {
            ident: Expression::Ident(String::from("x")),
            expr: Expression::Int(String::from("10")),
        },
        Statement::Return(Expression::Int(String::from("1"))),
        Statement::Expr(Expression::Int(String::from("2"))),
        Statement::Expr(Expression::Prefix {
            operator: String::from("-"),
            expr: Box::new(Expression::Int(String::from("3"))),
        }),
        Statement::Expr(Expression::Prefix {
            operator: String::from("!"),
            expr: Box::new(Expression::Int(String::from("4"))),
        }),

        Statement::Expr(Expression::Infix {
            operator: String::from("+"),
            left: Box::new(Expression::Int(String::from("5"))),
            right: Box::new(Expression::Int(String::from("5"))),
        }),
        Statement::Expr(Expression::Infix {
            operator: String::from("-"),
            left: Box::new(Expression::Int(String::from("5"))),
            right: Box::new(Expression::Int(String::from("5"))),
        }),
        Statement::Expr(Expression::Infix {
            operator: String::from("*"),
            left: Box::new(Expression::Int(String::from("5"))),
            right: Box::new(Expression::Int(String::from("5"))),
        }),
        Statement::Expr(Expression::Infix {
            operator: String::from("/"),
            left: Box::new(Expression::Int(String::from("5"))),
            right: Box::new(Expression::Int(String::from("5"))),
        }),
        Statement::Expr(Expression::Infix {
            operator: String::from(">"),
            left: Box::new(Expression::Int(String::from("5"))),
            right: Box::new(Expression::Int(String::from("5"))),
        }),
        Statement::Expr(Expression::Infix {
            operator: String::from("<"),
            left: Box::new(Expression::Int(String::from("5"))),
            right: Box::new(Expression::Int(String::from("5"))),
        }),
        Statement::Expr(Expression::Infix {
            operator: String::from("=="),
            left: Box::new(Expression::Int(String::from("5"))),
            right: Box::new(Expression::Int(String::from("5"))),
        }),
        Statement::Expr(Expression::Infix {
            operator: String::from("!="),
            left: Box::new(Expression::Int(String::from("5"))),
            right: Box::new(Expression::Int(String::from("5"))),
        }),

        Statement::Expr(Expression::Infix {
            operator: String::from("+"),
            left: Box::new(Expression::Int(String::from("5"))),
            right: Box::new(Expression::Infix {
                operator: String::from("*"),
                left: Box::new(Expression::Int(String::from("5"))),
                right: Box::new(Expression::Int(String::from("5"))),
            }),
        }),
        Statement::Expr(Expression::Infix {
            operator: String::from("*"),
            left: Box::new(Expression::Infix {
                operator: String::from("+"),
                left: Box::new(Expression::Int(String::from("5"))),
                right: Box::new(Expression::Int(String::from("5"))),
            }),
            right: Box::new(Expression::Int(String::from("5"))),
        }),

        Statement::Expr(Expression::Bool(String::from("true"))),
        Statement::Expr(Expression::Prefix {
            operator: String::from("!"),
            expr: Box::new(Expression::Bool(String::from("false"))),
        }),

        Statement::Expr(Expression::If {
            condition: Box::new(Expression::Ident(String::from("x"))),
            consequence: Box::new(Statement::Block(vec!(
                Box::new(Statement::Expr(Expression::Ident(String::from("x")))),
            ))),
            alternative: Box::new(Statement::Block(Vec::new())),
        }),
        Statement::Expr(Expression::If {
            condition: Box::new(Expression::Infix {
                operator: String::from("<"),
                left: Box::new(Expression::Ident(String::from("x"))),
                right: Box::new(Expression::Ident(String::from("y"))),
            }),
            consequence: Box::new(Statement::Block(vec!(
                Box::new(Statement::Expr(Expression::Ident(String::from("x")))),
            ))),
            alternative: Box::new(Statement::Block(vec!(
                Box::new(Statement::Expr(Expression::Ident(String::from("y")))),
            ))),
        }),

        Statement::Expr(Expression::Function {
            parameters: Vec::new(),
            body: Box::new(Statement::Block(Vec::new())),
        }),
        Statement::Expr(Expression::Function {
            parameters: vec!(
                Box::new(Expression::Ident(String::from("x"))),
                Box::new(Expression::Ident(String::from("y"))),
            ),
            body: Box::new(Statement::Block(vec!(
                Box::new(Statement::Expr(Expression::Ident(String::from("x")))),
            ))),
        }),

        Statement::Expr(Expression::Call {
            function: Box::new(Expression::Ident(String::from("add"))),
            arguments: vec!(
                Box::new(Expression::Int(String::from("1"))),
                Box::new(Expression::Infix {
                    operator: String::from("+"),
                    left: Box::new(Expression::Int(String::from("2"))),
                    right: Box::new(Expression::Int(String::from("3"))),
                }),
            ),
        }),

        Statement::Expr(Expression::Str(String::from("a b"))),
        Statement::Expr(Expression::Array(Vec::new())),
        Statement::Expr(Expression::Array(vec!(
            Box::new(Expression::Int(String::from("1"))),
        ))),
        Statement::Expr(Expression::Array(vec!(
            Box::new(Expression::Int(String::from("1"))),
            Box::new(Expression::Int(String::from("2"))),
        ))),
        Statement::Expr(Expression::Infix {
            operator: String::from("["),
            left: Box::new(Expression::Ident(String::from("arr"))),
            right: Box::new(Expression::Int(String::from("1"))),
        }),
    ];
    let lexer = Lexer::new(input);
    let mut parser = Parser::new(lexer);
    for expected in output.iter() {
        let result = match parser.next().unwrap() {
            Some(result) => result,
            None => break,
        };
        println!("Parser: {:?} - {:?}", &result, expected);
        assert_eq!(&result, expected);
    }
}
