use monkey::code::{Code, SymbolTable};
use monkey::compiler::Compiler;
use monkey::lexer::Lexer;
use monkey::machine::Fault;
use monkey::object::Object;
use monkey::parser::Parser;
use monkey::vm::VM;
use std::collections::HashMap;

fn run_code(code: Vec<Code>) -> Result<(Object, Option<Object>, HashMap<usize, Object>), Fault> {
    let mut vm = VM::new(code, HashMap::new());
    while !vm.halted() {
        vm.step()?;
    }
    Ok(vm.finish())
}

fn run_text(input: &str) -> Result<(Object, Option<Object>, HashMap<usize, Object>), Fault> {
    let parser = Parser::new(Lexer::new(input));
    let (code, _) = Compiler::new(parser, SymbolTable::new(None)).run();
    run_code(code)
}

fn popped(input: &str) -> Result<Option<Object>, Fault> {
    run_text(input).map(|(_, popped, _)| popped)
}

fn number(n: i32) -> Code {
    Code::Constant(Object::Int(n))
}

#[test]
fn expression_statement_leaves_the_stack_as_it_was() {
    for input in ["1 + 2;", "if (1 < 2) { 10 } else { 20 };", "[1, 2, 3][1];", "fn(a, b) { a + b }(1, 2);"].iter() {
        let (top, popped, _) = run_text(input).unwrap();
        assert_eq!(top, Object::Null);
        assert!(popped.is_some());
    }
}

#[test]
fn expression_leaves_one_value() {
    // The instructions of the expression without the `Pop` of its statement.
    let parser = Parser::new(Lexer::new("if (false) { 1 } else { fn(a) { a * 2 }(21) };"));
    let (mut code, _) = Compiler::new(parser, SymbolTable::new(None)).run();
    assert_eq!(code.pop(), Some(Code::Pop));
    let mut vm = VM::new(code, HashMap::new());
    while !vm.halted() {
        vm.step().unwrap();
    }
    let (top, popped, _) = vm.finish();
    assert_eq!(top, Object::Int(42));
    assert_eq!(popped, None);
}

#[test]
fn division_rounds_toward_zero() {
    assert_eq!(popped("7 / 2;"), Ok(Some(Object::Int(3))));
    assert_eq!(popped("-7 / 2;"), Ok(Some(Object::Int(-3))));
    assert_eq!(popped("7 / -2;"), Ok(Some(Object::Int(-3))));
    assert_eq!(popped("-7 / -2;"), Ok(Some(Object::Int(3))));
    assert_eq!(popped("0 / 5;"), Ok(Some(Object::Int(0))));
}

#[test]
fn arithmetic_faults() {
    assert_eq!(popped("1 / 0;"), Err(Fault::DivisionByZero));
    assert_eq!(popped("2147483647 + 1;"), Err(Fault::Overflow));
    assert_eq!(popped("-2147483647 - 2;"), Err(Fault::Overflow));
    assert_eq!(popped("65536 * 65536;"), Err(Fault::Overflow));
    assert_eq!(run_code(vec![number(i32::MIN), Code::Minus]).map(|r| r.0), Err(Fault::Overflow));
    assert_eq!(run_code(vec![number(i32::MIN), number(-1), Code::Div]).map(|r| r.0), Err(Fault::Overflow));
    assert_eq!(run_code(vec![number(i32::MIN), number(1), Code::Div]).map(|r| r.0), Ok(Object::Int(i32::MIN)));
}

#[test]
fn type_faults() {
    assert_eq!(popped("1 + true;"), Err(Fault::TypeMismatch));
    assert_eq!(popped("\"a\" - \"b\";"), Err(Fault::TypeMismatch));
    assert_eq!(popped("\"a\" + 1;"), Err(Fault::TypeMismatch));
    assert_eq!(popped("true < false;"), Err(Fault::TypeMismatch));
    assert_eq!(popped("\"a\" == \"a\";"), Err(Fault::TypeMismatch));
    assert_eq!(popped("-true;"), Err(Fault::TypeMismatch));
    assert_eq!(popped("!5;"), Err(Fault::TypeMismatch));
    assert_eq!(popped("1[0];"), Err(Fault::TypeMismatch));
    assert_eq!(popped("[1][true];"), Err(Fault::TypeMismatch));
    assert_eq!(popped("1();"), Err(Fault::NotAFunction));
    assert_eq!(popped("fn(a) { a }();"), Err(Fault::ArityMismatch));
    assert_eq!(popped("fn() { 1 }(2);"), Err(Fault::ArityMismatch));
}

#[test]
fn bang_makes_true_of_null() {
    assert_eq!(popped("!(if (false) { 1 });"), Ok(Some(Object::Bool(true))));
    assert_eq!(popped("!false;"), Ok(Some(Object::Bool(true))));
}

#[test]
fn conditional_takes_all_but_false_and_null_for_true() {
    assert_eq!(popped("if (0) { 1 } else { 2 };"), Ok(Some(Object::Int(1))));
    assert_eq!(popped("if (\"\") { 1 } else { 2 };"), Ok(Some(Object::Int(1))));
    assert_eq!(popped("if (if (false) { 1 }) { 1 } else { 2 };"), Ok(Some(Object::Int(2))));
}

#[test]
fn index_out_of_range_gives_null() {
    assert_eq!(popped("[1, 2][2];"), Ok(Some(Object::Null)));
    assert_eq!(popped("[1, 2][-1];"), Ok(Some(Object::Null)));
    assert_eq!(popped("[][0];"), Ok(Some(Object::Null)));
    assert_eq!(popped("[5, 6][0];"), Ok(Some(Object::Int(5))));
}

#[test]
fn array_keeps_the_order_of_its_items() {
    assert_eq!(
        popped("[1, 2 + 3, \"x\"];"),
        Ok(Some(Object::Array(vec![
            Box::new(Object::Int(1)),
            Box::new(Object::Int(5)),
            Box::new(Object::Str(String::from("x"))),
        ])))
    );
    assert_eq!(popped("[];"), Ok(Some(Object::Array(Vec::new()))));
}

#[test]
fn stack_faults_of_written_code() {
    assert_eq!(run_code(vec![Code::Pop]).map(|r| r.0), Err(Fault::StackUnderflow));
    assert_eq!(run_code(vec![number(1), Code::Add]).map(|r| r.0), Err(Fault::StackUnderflow));
    assert_eq!(run_code(vec![Code::Equal]).map(|r| r.0), Err(Fault::StackUnderflow));
    assert_eq!(run_code(vec![Code::Bang]).map(|r| r.0), Err(Fault::StackUnderflow));
    assert_eq!(run_code(vec![Code::JumpNotTruthy(0)]).map(|r| r.0), Err(Fault::StackUnderflow));
    assert_eq!(run_code(vec![Code::SetGlobal(0)]).map(|r| r.0), Err(Fault::StackUnderflow));
    assert_eq!(run_code(vec![number(1), Code::Array(2)]).map(|r| r.0), Err(Fault::StackUnderflow));
    assert_eq!(run_code(vec![number(1), Code::Index]).map(|r| r.0), Err(Fault::StackUnderflow));
    assert_eq!(run_code(vec![number(1), Code::Call(1)]).map(|r| r.0), Err(Fault::StackUnderflow));
    assert_eq!(run_code(vec![Code::ReturnValue]).map(|r| r.0), Err(Fault::StackUnderflow));
    assert_eq!(run_code(vec![Code::SetLocal(0)]).map(|r| r.0), Err(Fault::StackUnderflow));
}

#[test]
fn frame_faults_of_written_code() {
    assert_eq!(run_code(vec![number(1), Code::ReturnValue]).map(|r| r.0), Err(Fault::NoFrame));
    assert_eq!(run_code(vec![Code::Return]).map(|r| r.0), Err(Fault::NoFrame));
    assert_eq!(run_code(vec![Code::GetGlobal(3)]).map(|r| r.0), Err(Fault::MissingGlobal));
    assert_eq!(run_code(vec![Code::GetLocal(0)]).map(|r| r.0), Err(Fault::MissingLocal));
    assert_eq!(run_code(vec![number(1), Code::SetLocal(0)]).map(|r| r.0), Err(Fault::MissingLocal));
    assert_eq!(
        run_code(vec![number(1), Code::GetLocal(usize::MAX)]).map(|r| r.0),
        Err(Fault::MissingLocal)
    );
    let malformed = Object::CompiledFunction {
        instructions: vec![Code::Return],
        num_locals: 0,
        num_paras: 1,
    };
    assert_eq!(
        run_code(vec![Code::Constant(malformed), number(1), Code::Call(1)]).map(|r| r.0),
        Err(Fault::MalformedFunction)
    );
    let endless = Object::CompiledFunction {
        instructions: vec![number(1)],
        num_locals: 0,
        num_paras: 0,
    };
    assert_eq!(
        run_code(vec![Code::Constant(endless), Code::Call(0)]).map(|r| r.0),
        Err(Fault::MissingReturn)
    );
}

#[test]
fn function_without_a_return_at_its_end_stops_the_machine() {
    assert_eq!(popped("fn() { let a = 1; }();"), Err(Fault::MissingReturn));
}

#[test]
fn locals_live_in_the_frame_of_the_call() {
    // Two parameters and one more local: the call makes room for the local.
    let function = Object::CompiledFunction {
        instructions: vec![
            Code::GetLocal(0),
            Code::GetLocal(1),
            Code::Add,
            Code::SetLocal(2),
            Code::GetLocal(2),
            Code::GetLocal(2),
            Code::Mul,
            Code::ReturnValue,
        ],
        num_locals: 3,
        num_paras: 2,
    };
    let code = vec![number(100), Code::Constant(function), number(2), number(3), Code::Call(2)];
    let mut vm = VM::new(code, HashMap::new());
    let mut steps = 0;
    while !vm.halted() {
        vm.step().unwrap();
        steps += 1;
    }
    assert_eq!(steps, 13);
    // The caller's stack is one value taller than it was under the function.
    let (top, _, _) = vm.finish();
    assert_eq!(top, Object::Int(25));
    assert_eq!(popped("let f = fn(a, b) { let c = a + b; c * c }; 100; f(2, 3);"), Ok(Some(Object::Int(25))));
}

#[test]
fn inner_call_returns_to_the_frame_of_its_caller() {
    let input = "
        let double = fn(x) { x * 2 };
        let f = fn(a) { let b = double(a); let c = a + b; c };
        f(5);
    ";
    assert_eq!(popped(input), Ok(Some(Object::Int(15))));
}

#[test]
fn jump_passes_instructions_over() {
    let code = vec![Code::Jump(2), number(1), number(2), number(3)];
    assert_eq!(run_code(code).map(|r| r.0), Ok(Object::Int(3)));
    let code = vec![Code::False, Code::JumpNotTruthy(1), Code::Pop, number(7)];
    assert_eq!(run_code(code).map(|r| r.0), Ok(Object::Int(7)));
    let code = vec![Code::Null, Code::JumpNotTruthy(5), number(1)];
    assert_eq!(run_code(code).map(|r| r.0), Ok(Object::Null));
    let code = vec![number(0), Code::JumpNotTruthy(1), number(1), number(2)];
    assert_eq!(run_code(code).map(|r| r.0), Ok(Object::Int(2)));
}

#[test]
fn globals_outlive_a_run() {
    let parser = Parser::new(Lexer::new("let a = 5; let b = a + 1;"));
    let (code, table) = Compiler::new(parser, SymbolTable::new(None)).run();
    let (top, popped, globals) = VM::new(code, HashMap::new()).run();
    assert_eq!(top, Object::Null);
    assert_eq!(popped, None);
    assert_eq!(globals.get(&0), Some(&Object::Int(5)));
    assert_eq!(globals.get(&1), Some(&Object::Int(6)));
    let parser = Parser::new(Lexer::new("a * b;"));
    let (code, _) = Compiler::new(parser, table).run();
    let (_, popped, globals) = VM::new(code, globals).run();
    assert_eq!(popped, Some(Object::Int(30)));
    assert_eq!(globals.len(), 2);
}

#[test]
fn empty_program_reports_null() {
    let (top, popped, globals) = VM::new(Vec::new(), HashMap::new()).run();
    assert_eq!(top, Object::Null);
    assert_eq!(popped, None);
    assert!(globals.is_empty());
}

#[test]
fn let_in_a_branch_of_a_function_counts_as_a_local() {
    let parser = Parser::new(Lexer::new("fn() { if (false) { let a = 1; }; 2 };"));
    let (code, _) = Compiler::new(parser, SymbolTable::new(None)).run();
    match &code[0] {
        Code::Constant(Object::CompiledFunction { num_locals, num_paras, .. }) => {
            assert_eq!((*num_locals, *num_paras), (1, 0));
        }
        other => panic!("no function: {:?}", other),
    }
    // Whether the `let` runs or not, the call returns the value behind it.
    assert_eq!(popped("fn() { if (true) { let a = 1; }; 2 }();"), Ok(Some(Object::Int(2))));
    assert_eq!(popped("fn() { if (false) { let a = 1; }; 2 }();"), Ok(Some(Object::Int(2))));
    // The branch leaves no value, so the `Pop` of the statement takes the
    // slot of the local instead.
    assert_eq!(popped("fn() { if (true) { let a = 1; }; a }();"), Err(Fault::MissingLocal));
}

#[test]
fn alternative_that_leaves_no_value_gets_no_padding() {
    let parser = Parser::new(Lexer::new("if (false) { 1 } else { let b = 2; };"));
    let (code, _) = Compiler::new(parser, SymbolTable::new(None)).run();
    assert_eq!(
        code,
        vec![
            Code::False,
            Code::JumpNotTruthy(2),
            Code::Constant(Object::Int(1)),
            Code::Jump(2),
            Code::Constant(Object::Int(2)),
            Code::SetGlobal(0),
            Code::Pop,
        ]
    );
    // The branch leaves nothing for the `Pop` of the statement.
    assert_eq!(run_code(code).map(|r| r.0), Err(Fault::StackUnderflow));
    assert_eq!(popped("if (true) { 1 } else { let b = 2; };"), Ok(Some(Object::Int(1))));
}
