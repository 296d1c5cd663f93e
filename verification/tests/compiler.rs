use monkey::code::{Code, SymbolTable};
use monkey::compiler::Compiler;
use monkey::lexer::Lexer;
use monkey::object::Object;
use monkey::parser::Parser;

#[test]
fn compiler() {
    let test_array = [
        ("1 + 2;", vec!(
            Code::Constant(Object::Int(1)),
            Code::Constant(Object::Int(2)),
            Code::Add,
            Code::Pop,
        )),
        ("1 - 2;", vec!(
            Code::Constant(Object::Int(1)),
            Code::Constant(Object::Int(2)),
            Code::Sub,
            Code::Pop,
        )),
        ("1 * 2;", vec!(
            Code::Constant(Object::Int(1)),
            Code::Constant(Object::Int(2)),
            Code::Mul,
            Code::Pop,
        )),
        ("1 / 2;", vec!(
            Code::Constant(Object::Int(1)),
            Code::Constant(Object::Int(2)),
            Code::Div,
            Code::Pop,
        )),
        ("1 == 2;", vec!(
            Code::Constant(Object::Int(1)),
            Code::Constant(Object::Int(2)),
            Code::Equal,
            Code::Pop,
        )),
        ("1 != 2;", vec!(
            Code::Constant(Object::Int(1)),
            Code::Constant(Object::Int(2)),
            Code::NotEqual,
            Code::Pop,
        )),
        ("1 > 2;", vec!(
            Code::Constant(Object::Int(1)),
            Code::Constant(Object::Int(2)),
            Code::GreaterThan,
            Code::Pop,
        )),
        ("1 < 2;", vec!(
            Code::Constant(Object::Int(1)),
            Code::Constant(Object::Int(2)),
            Code::LessThan,
            Code::Pop,
        )),
        ("-1;", vec!(
            Code::Constant(Object::Int(1)),
            Code::Minus,
            Code::Pop,
        )),
        ("!true;", vec!(
            Code::True,
            Code::Bang,
            Code::Pop,
        )),
        ("if (true) { 1 } else {2};", vec!(
            Code::True,
            Code::JumpNotTruthy(2),
            Code::Constant(Object::Int(1)),
            Code::Jump(1),
            Code::Constant(Object::Int(2)),
            Code::Pop,
        )),
        ("if (true) { 1 };", vec!(
            Code::True,
            Code::JumpNotTruthy(2),
            Code::Constant(Object::Int(1)),
            Code::Jump(1),
            Code::Null,
            Code::Pop,
        )),
        ("if (false) { 1 };", vec!(
            Code::False,
            Code::JumpNotTruthy(2),
            Code::Constant(Object::Int(1)),
            Code::Jump(1),
            Code::Null,
            Code::Pop,
        )),
        ("!(if (false) { 1 });", vec!(
            Code::False,
            Code::JumpNotTruthy(2),
            Code::Constant(Object::Int(1)),
            Code::Jump(1),
            Code::Null,
            Code::Bang,
            Code::Pop,
        )),
        ("
            let x = 5;
            if (x > 1) {
                let y = x + 1;
                y;
            }
        ", vec!(
            Code::Constant(Object::Int(5)),
            Code::SetGlobal(0),
            Code::GetGlobal(0),
            Code::Constant(Object::Int(1)),
            Code::GreaterThan,
            Code::JumpNotTruthy(6),
            Code::GetGlobal(0),
            Code::Constant(Object::Int(1)),
            Code::Add,
            Code::SetGlobal(1),
            Code::GetGlobal(1),
            Code::Jump(1),
            Code::Null,
            Code::Pop,
        )),
        ("\"a\" + \"b\";", vec!(
            Code::Constant(Object::Str(String::from("a"))),
            Code::Constant(Object::Str(String::from("b"))),
            Code::Add,
            Code::Pop,
        )),
        ("[1, 2][1];", vec!(
            Code::Constant(Object::Int(1)),
            Code::Constant(Object::Int(2)),
            Code::Array(2),
            Code::Constant(Object::Int(1)),
            Code::Index,
            Code::Pop,
        )),
        ("fn() { return 1; }();", vec!(
            Code::Constant(Object::CompiledFunction {
                instructions: vec!(
                    Code::Constant(Object::Int(1)),
                    Code::ReturnValue,
                ),
                num_locals: 0,
                num_paras: 0,
            }),
            Code::Call(0),
            Code::Pop,
        )),
        ("fn() { 1; }();", vec!(
            Code::Constant(Object::CompiledFunction {
                instructions: vec!(
                    Code::Constant(Object::Int(1)),
                    Code::ReturnValue,
                ),
                num_locals: 0,
                num_paras: 0,
            }),
            Code::Call(0),
            Code::Pop,
        )),
        ("fn() {}();", vec!(
            Code::Constant(Object::CompiledFunction {
                instructions: vec!(
                    Code::Return,
                ),
                num_locals: 0,
                num_paras: 0,
            }),
            Code::Call(0),
            Code::Pop,
        )),
        ("fn() { let a = 1; a; }();", vec!(
            Code::Constant(Object::CompiledFunction {
                instructions: vec!(
                    Code::Constant(Object::Int(1)),
                    Code::SetLocal(0),
                    Code::GetLocal(0),
                    Code::ReturnValue,
                ),
                num_locals: 1,
                num_paras: 0,
            }),
            Code::Call(0),
            Code::Pop,
        )),
        ("fn(a) { a; }(1);", vec!(
            Code::Constant(Object::CompiledFunction {
                instructions: vec!(
                    Code::GetLocal(0),
                    Code::ReturnValue,
                ),
                num_locals: 1,
                num_paras: 1,
            }),
            Code::Constant(Object::Int(1)),
            Code::Call(1),
            Code::Pop,
        )),
    ];
    for (input, expected) in test_array.iter() {
        let lexer = Lexer::new(input);
        let parser = Parser::new(lexer);
        let symbol_table = SymbolTable::new(None);
        let compiler = Compiler::new(parser, symbol_table);
        let (output, _symbol_table) = compiler.run();
        println!("Compiler: {:?} - {:?}", input, output);
        assert_eq!(expected, &output);
    }
}
