use monkey::ast::{Expression, Statement};
use monkey::code::{Code, SymbolTable};
use monkey::compiler::{CompileError, Compiler};
use monkey::lexer::Lexer;
use monkey::object::Object;
use monkey::parser::{ParseError, Parser};

fn compile(input: &str) -> Result<Vec<Code>, CompileError> {
    let parser = Parser::new(Lexer::new(input));
    let compiler = Compiler::try_new(parser, SymbolTable::new(None)).unwrap();
    compiler.try_run().map(|(code, _)| code)
}

#[test]
fn conditional_jumps_pass_over_the_branches() {
    // The condition has three instructions, the consequence two, the
    // alternative three.
    let code = compile("if (1 < 2) { 1 + 2 } else { [3, 4] };").unwrap();
    assert_eq!(
        code,
        vec![
            Code::Constant(Object::Int(1)),
            Code::Constant(Object::Int(2)),
            Code::LessThan,
            Code::JumpNotTruthy(4),
            Code::Constant(Object::Int(1)),
            Code::Constant(Object::Int(2)),
            Code::Add,
            Code::Jump(3),
            Code::Constant(Object::Int(3)),
            Code::Constant(Object::Int(4)),
            Code::Array(2),
            Code::Pop,
        ]
    );
    // Behind the condition stand the two jumps and what they pass over.
    let (offset_c, offset_a) = (4, 3);
    assert_eq!(offset_c + 1 + offset_a, code.len() - 1 - 3);
    assert_eq!(code[3 + offset_c], Code::Jump(offset_a));
}

#[test]
fn nested_conditionals_keep_their_offsets() {
    let code = compile("if (true) { if (false) { 1 } else { 2 } };").unwrap();
    assert_eq!(
        code,
        vec![
            Code::True,
            Code::JumpNotTruthy(6),
            Code::False,
            Code::JumpNotTruthy(2),
            Code::Constant(Object::Int(1)),
            Code::Jump(1),
            Code::Constant(Object::Int(2)),
            Code::Jump(1),
            Code::Null,
            Code::Pop,
        ]
    );
}

#[test]
fn names_resolve_to_their_scope() {
    let code = compile("let a = 1; let f = fn(b) { let c = a; b + c; };").unwrap();
    assert_eq!(
        code,
        vec![
            Code::Constant(Object::Int(1)),
            Code::SetGlobal(0),
            Code::Constant(Object::CompiledFunction {
                instructions: vec![
                    Code::GetGlobal(0),
                    Code::SetLocal(1),
                    Code::GetLocal(0),
                    Code::GetLocal(1),
                    Code::Add,
                    Code::ReturnValue,
                ],
                num_locals: 2,
                num_paras: 1,
            }),
            Code::SetGlobal(1),
        ]
    );
}

#[test]
fn function_body_keeps_what_is_no_expression_at_its_end() {
    let code = compile("fn() { let a = 1; };").unwrap();
    assert_eq!(
        code,
        vec![
            Code::Constant(Object::CompiledFunction {
                instructions: vec![Code::Constant(Object::Int(1)), Code::SetLocal(0)],
                num_locals: 1,
                num_paras: 0,
            }),
            Code::Pop,
        ]
    );
}

#[test]
fn symbol_table_comes_back_with_the_globals_only() {
    let parser = Parser::new(Lexer::new("let a = 1; fn(x) { let y = x; };"));
    let compiler = Compiler::new(parser, SymbolTable::new(None));
    let (_, table) = compiler.run();
    assert_eq!(table.num_definitions(), 1);
    assert!(table.is_global());
    assert_eq!(table.resolve("a").unwrap().index, 0);
    assert_eq!(table.resolve("x"), None);
    assert_eq!(table.resolve("y"), None);
    // The next line goes on from there.
    let parser = Parser::new(Lexer::new("let b = a;"));
    let (code, table) = Compiler::new(parser, table).run();
    assert_eq!(code, vec![Code::GetGlobal(0), Code::SetGlobal(1)]);
    assert_eq!(table.num_definitions(), 2);
}

#[test]
fn compile_errors() {
    assert_eq!(compile("a;"), Err(CompileError::UnresolvedIdentifier));
    assert_eq!(compile("let f = fn() { f; };"), Err(CompileError::UnresolvedIdentifier));
    assert_eq!(compile("2147483648;"), Err(CompileError::InvalidInteger));
    assert_eq!(compile("1 + a;"), Err(CompileError::UnresolvedIdentifier));
}

fn compile_program(program: Vec<Statement>) -> Result<Vec<Code>, CompileError> {
    Compiler::from_program(program, SymbolTable::new(None)).try_run().map(|(code, _)| code)
}

fn number(text: &str) -> Expression {
    Expression::Int(String::from(text))
}

#[test]
fn empty_program_compiles_to_nothing() {
    assert_eq!(compile_program(Vec::new()), Ok(Vec::new()));
    assert_eq!(compile(""), Ok(Vec::new()));
}

#[test]
fn compile_errors_of_trees_that_no_text_gives() {
    let let_of_number = Statement::Let { ident: number("1"), expr: number("2") };
    assert_eq!(compile_program(vec![let_of_number]), Err(CompileError::InvalidLet));
    let prefix = Expression::Prefix { operator: String::from("+"), expr: Box::new(number("1")) };
    assert_eq!(compile_program(vec![Statement::Expr(prefix)]), Err(CompileError::UnknownOperator));
    let infix = Expression::Infix {
        operator: String::from("%"),
        left: Box::new(number("1")),
        right: Box::new(number("2")),
    };
    assert_eq!(compile_program(vec![Statement::Expr(infix)]), Err(CompileError::UnknownOperator));
    let boolean = Expression::Bool(String::from("maybe"));
    assert_eq!(compile_program(vec![Statement::Expr(boolean)]), Err(CompileError::InvalidBoolean));
    let word = Expression::Int(String::from("ten"));
    assert_eq!(compile_program(vec![Statement::Expr(word)]), Err(CompileError::InvalidInteger));
    let function = Expression::Function {
        parameters: vec![Box::new(number("1"))],
        body: Box::new(Statement::Block(Vec::new())),
    };
    assert_eq!(
        compile_program(vec![Statement::Expr(function)]),
        Err(CompileError::InvalidParameter)
    );
}

#[test]
fn operand_fails_before_the_operator() {
    let infix = Expression::Infix {
        operator: String::from("%"),
        left: Box::new(Expression::Ident(String::from("a"))),
        right: Box::new(number("2")),
    };
    assert_eq!(
        compile_program(vec![Statement::Expr(infix)]),
        Err(CompileError::UnresolvedIdentifier)
    );
}

#[test]
fn branch_that_is_one_statement_loses_its_pop() {
    let conditional = Expression::If {
        condition: Box::new(Expression::Bool(String::from("true"))),
        consequence: Box::new(Statement::Expr(number("1"))),
        alternative: Box::new(Statement::Return(number("2"))),
    };
    assert_eq!(
        compile_program(vec![Statement::Expr(conditional)]),
        Ok(vec![
            Code::True,
            Code::JumpNotTruthy(2),
            Code::Constant(Object::Int(1)),
            Code::Jump(2),
            Code::Constant(Object::Int(2)),
            Code::ReturnValue,
            Code::Pop,
        ])
    );
}

#[test]
fn text_that_is_no_program_gives_no_compiler() {
    let parser = Parser::new(Lexer::new("let = 1;"));
    assert!(matches!(
        Compiler::try_new(parser, SymbolTable::new(None)),
        Err(ParseError::UnexpectedToken)
    ));
    let parser = Parser::new(Lexer::new("(1"));
    assert!(matches!(
        Compiler::try_new(parser, SymbolTable::new(None)),
        Err(ParseError::UnexpectedEnd)
    ));
}

fn jumps_lead_inside(code: &Vec<Code>) -> bool {
    for (pc, instruction) in code.iter().enumerate() {
        let inside = match instruction {
            Code::Jump(k) | Code::JumpNotTruthy(k) => pc + 1 + k <= code.len(),
            Code::Constant(Object::CompiledFunction { instructions, num_locals, num_paras }) => {
                num_paras <= num_locals && jumps_lead_inside(instructions)
            }
            _ => true,
        };
        if !inside {
            return false;
        }
    }
    true
}

#[test]
fn jumps_of_compiled_code_lead_inside() {
    let programs = [
        "if (true) { 1 };",
        "if (true) { let a = 1; } else { return 2; };",
        "if (true) { if (false) { 1; 2 } } else { if (true) { } else { 3 } };",
        "let f = fn(a, b) { if (a) { return b; }; let c = if (b) { a } else { b }; c };",
        "fn() { fn() { if (1) { 2 } } };",
        "[if (1) { 2 }, if (3) { 4 } else { 5 }][if (6) { 0 }];",
    ];
    for input in programs.iter() {
        let code = compile(input).unwrap();
        assert!(jumps_lead_inside(&code));
    }
}
