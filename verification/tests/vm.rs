use monkey::code::SymbolTable;
use monkey::compiler::Compiler;
use monkey::lexer::Lexer;
use monkey::object::Object;
use monkey::parser::Parser;
use monkey::vm::VM;
use std::collections::HashMap;

const NULL: Object = Object::Null;

#[test]
fn vm() {
    let test_array = [
        ("1 + 2;", NULL, Some(Object::Int(3))),
        ("1 - 2;", NULL, Some(Object::Int(-1))),
        ("1 * 2;", NULL, Some(Object::Int(2))),
        ("1 / 2;", NULL, Some(Object::Int(0))),
        ("1 == 2;", NULL, Some(Object::Bool(false))),
        ("1 != 2;", NULL, Some(Object::Bool(true))),
        ("1 > 2;", NULL, Some(Object::Bool(false))),
        ("1 < 2;", NULL, Some(Object::Bool(true))),
        ("true == true;", NULL, Some(Object::Bool(true))),
        ("true != true;", NULL, Some(Object::Bool(false))),
        ("-1;", NULL, Some(Object::Int(-1))),
        ("!true;", NULL, Some(Object::Bool(false))),
        ("!(if (false) { 1 });", NULL, Some(Object::Bool(true))),
        ("if (true) { 1 } else {2};", NULL, Some(Object::Int(1))),
        ("if (false) { 1 };", NULL, Some(NULL)),
        ("let a = 1; a + 1;", NULL, Some(Object::Int(2))),
        ("\"a\" + \"b\";", NULL, Some(Object::Str(String::from("ab")))),
        ("[1, 2];", NULL, Some(Object::Array(vec!(
            Box::new(Object::Int(1)),
            Box::new(Object::Int(2)),
        )))),
        ("[1, 2][1];", NULL, Some(Object::Int(2))),
        ("fn() { return 1; }();", NULL, Some(Object::Int(1))),
        ("fn() { 1; }();", NULL, Some(Object::Int(1))),
        ("fn() {}();", NULL, Some(NULL)),
        ("
            let a = 1; 
            let b = fn() { let a = 2; a; }();
            a + b;
        ", NULL, Some(Object::Int(3))),
        ("fn(a) { a; }(1);", NULL, Some(Object::Int(1))),
    ];
    for (input, result, popped) in test_array.iter() {
        let lexer = Lexer::new(input);
        let parser = Parser::new(lexer);
        let symbol_table = SymbolTable::new(None);
        let compiler = Compiler::new(parser, symbol_table);
        let (code, _symbol_table) = compiler.run();
        let globals = HashMap::new();
        let vm = VM::new(code, globals);
        let (r, p, _g) = vm.run();
        println!("VM: {:?} - {:?} - {:?}", input, r, p);
        assert_eq!(result, &r);
        assert_eq!(popped, &p);
    }
}
