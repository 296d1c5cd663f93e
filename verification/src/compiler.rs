use crate::ast::{expressions_view, statements_view, Expr, Expression, Statement, Stmt};
use crate::code::{codes_view, Code, Instr, Scope, Sym, SymbolTable, Table};
use crate::object::{Object, Value};
use crate::parser::{parse_program, plain_statements_view, ParseError, Parser};
use crate::text::{parse_i32, parse_int, same_text};
use vstd::prelude::*;

verus! {

/// Why a program was not compiled.
#[derive(PartialEq, Eq, Debug, Clone, Copy, Structural)]
pub enum CompileError {
    /// A name is used that no table in reach binds.
    UnresolvedIdentifier,
    /// The target of a `let` is not a name.
    InvalidLet,
    /// A prefix or infix operator that the machine has no instruction for.
    UnknownOperator,
    /// A parameter of a function literal is not a name.
    InvalidParameter,
    /// An integer literal that is no 32-bit integer in base ten.
    InvalidInteger,
    /// A boolean literal that is neither `true` nor `false`.
    InvalidBoolean,
    /// A table has no slot left for a definition.
    TooManyDefinitions,
}

/// What compiling a piece of a program gives: the instructions for it, and
/// the symbol table after it.
pub struct Emitted {
    pub code: Seq<Instr>,
    pub table: Table,
}

/// The instruction that reads the slot of `s`.
pub open spec fn get_instr(s: Sym) -> Instr {
    match s.scope {
        Scope::Global => Instr::GetGlobal(s.index),
        Scope::Local => Instr::GetLocal(s.index),
    }
}

/// The instruction that writes the slot of `s`.
pub open spec fn set_instr(s: Sym) -> Instr {
    match s.scope {
        Scope::Global => Instr::SetGlobal(s.index),
        Scope::Local => Instr::SetLocal(s.index),
    }
}

/// The instruction of a prefix operator.
pub open spec fn prefix_instr(op: Seq<char>) -> Option<Instr> {
    if op == seq!['-'] {
        Some(Instr::Minus)
    } else if op == seq!['!'] {
        Some(Instr::Bang)
    } else {
        None
    }
}

/// The instruction of an infix operator; `[` is indexing.
pub open spec fn infix_instr(op: Seq<char>) -> Option<Instr> {
    if op == seq!['+'] {
        Some(Instr::Add)
    } else if op == seq!['-'] {
        Some(Instr::Sub)
    } else if op == seq!['*'] {
        Some(Instr::Mul)
    } else if op == seq!['/'] {
        Some(Instr::Div)
    } else if op == seq!['=', '='] {
        Some(Instr::Equal)
    } else if op == seq!['!', '='] {
        Some(Instr::NotEqual)
    } else if op == seq!['>'] {
        Some(Instr::GreaterThan)
    } else if op == seq!['<'] {
        Some(Instr::LessThan)
    } else if op == seq!['['] {
        Some(Instr::Index)
    } else {
        None
    }
}

/// The instruction of a boolean literal.
pub open spec fn bool_instr(text: Seq<char>) -> Option<Instr> {
    if text == seq!['t', 'r', 'u', 'e'] {
        Some(Instr::True)
    } else if text == seq!['f', 'a', 'l', 's', 'e'] {
        Some(Instr::False)
    } else {
        None
    }
}

/// The instructions of a branch: those of its block, without the `Pop` of
/// a last expression statement, so that the branch leaves its value.
pub open spec fn branch_code(code: Seq<Instr>) -> Seq<Instr> {
    if code.len() > 0 && code.last() == Instr::Pop {
        code.drop_last()
    } else {
        code
    }
}

/// What stands behind the alternative of a conditional: a `Null` where the
/// alternative has no instructions, so that it leaves a value too.
pub open spec fn branch_padding(alternative: Seq<Instr>) -> Seq<Instr> {
    if alternative.len() == 0 {
        seq![Instr::Null]
    } else {
        Seq::empty()
    }
}

/// The instructions of a conditional, from those of its three parts: the
/// condition; a jump over the consequence and the jump that ends it, taken
/// where the condition is not truthy; the consequence; a jump over the
/// alternative and its padding; the alternative; the padding.
pub open spec fn conditional_code(
    condition: Seq<Instr>,
    consequence: Seq<Instr>,
    alternative: Seq<Instr>,
) -> Seq<Instr> {
    let c = branch_code(consequence);
    let a = branch_code(alternative);
    let pad = branch_padding(a);
    condition + seq![Instr::JumpNotTruthy((c.len() + 1) as usize)] + c + seq![
        Instr::Jump((a.len() + pad.len()) as usize),
    ] + a + pad
}

/// The two jumps of a conditional and what they pass over. The conditional
/// jump stands behind the condition and passes over the consequence and the
/// jump that ends it; that jump passes over the alternative and the padding,
/// to the end of the conditional. So the two operands and the two jumps add
/// up to all that is emitted behind the condition, one instruction more than
/// the two operands and the two branches with the padding; and no jump
/// leads beyond the instructions of the conditional.
pub proof fn conditional_offsets(
    condition: Seq<Instr>,
    consequence: Seq<Instr>,
    alternative: Seq<Instr>,
)
    requires
        conditional_code(condition, consequence, alternative).len() <= usize::MAX,
    ensures
        ({
            let code = conditional_code(condition, consequence, alternative);
            let c = branch_code(consequence);
            let a = branch_code(alternative);
            let pad = branch_padding(a);
            let offset_c = c.len() + 1;
            let offset_a = a.len() + pad.len();
            let pos1 = condition.len() as int;
            let pos2 = pos1 + offset_c;
            &&& code.len() == condition.len() + 2 + c.len() + a.len() + pad.len()
            &&& code[pos1] == Instr::JumpNotTruthy(offset_c as usize)
            &&& code[pos2] == Instr::Jump(offset_a as usize)
            &&& offset_a >= 1
            &&& offset_c + 1 + offset_a == code.len() - condition.len()
            &&& offset_c + 2 + offset_a == c.len() + a.len() + pad.len() + 3
            &&& pos1 + 1 + offset_c == pos2 + 1
            &&& pos2 + 1 + offset_a == code.len()
            &&& code.subrange(pos1 + 1, pos2) == c
            &&& code.subrange(pos2 + 1, code.len() as int) == a + pad
        }),
{
    let code = conditional_code(condition, consequence, alternative);
    let c = branch_code(consequence);
    let a = branch_code(alternative);
    let pad = branch_padding(a);
    let pos1 = condition.len() as int;
    let pos2 = pos1 + c.len() + 1;
    assert(code.subrange(pos1 + 1, pos2) =~= c);
    assert(code.subrange(pos2 + 1, code.len() as int) =~= a + pad);
}

/// The body of a compiled function, from the instructions of its block: a
/// last expression statement returns its value, an empty block returns
/// without one, and any other block stays as it is.
pub open spec fn function_body(code: Seq<Instr>) -> Seq<Instr> {
    if code.len() == 0 {
        seq![Instr::Return]
    } else if code.last() == Instr::Pop {
        code.drop_last().push(Instr::ReturnValue)
    } else {
        code
    }
}

/// The table of a function's scope after its parameters are defined in
/// order: each parameter must be a name, and gets the next slot.
pub open spec fn define_parameters(parameters: Seq<Expr>, t: Table) -> Result<Table, CompileError>
    decreases parameters.len(),
{
    if parameters.len() == 0 {
        Ok(t)
    } else {
        match define_parameters(parameters.drop_last(), t) {
            Ok(t1) => match parameters.last() {
                Expr::Ident(name) => if t1.num_definitions >= usize::MAX {
                    Err(CompileError::TooManyDefinitions)
                } else {
                    Ok(t1.define(name))
                },
                _ => Err(CompileError::InvalidParameter),
            },
            Err(e) => Err(e),
        }
    }
}

/// What compiling the expression `e` in the table `t` gives.
pub open spec fn emit_expression(e: Expr, t: Table) -> Result<Emitted, CompileError>
    decreases e,
{
    match e {
        Expr::Ident(name) => match t.resolve(name) {
            Some(s) => Ok(Emitted { code: seq![get_instr(s)], table: t }),
            None => Err(CompileError::UnresolvedIdentifier),
        },
        Expr::Int(text) => match parse_int(text) {
            Some(v) => Ok(Emitted { code: seq![Instr::Constant(Value::Int(v))], table: t }),
            None => Err(CompileError::InvalidInteger),
        },
        Expr::Str(text) => Ok(Emitted { code: seq![Instr::Constant(Value::Str(text))], table: t }),
        Expr::Bool(text) => match bool_instr(text) {
            Some(i) => Ok(Emitted { code: seq![i], table: t }),
            None => Err(CompileError::InvalidBoolean),
        },
        Expr::Array(elements) => match emit_expressions(elements, t) {
            Ok(items) => Ok(
                Emitted {
                    code: items.code.push(Instr::Array(elements.len() as usize)),
                    table: items.table,
                },
            ),
            Err(e) => Err(e),
        },
        Expr::Prefix { operator, expr } => match emit_expression(*expr, t) {
            Ok(operand) => match prefix_instr(operator) {
                Some(i) => Ok(Emitted { code: operand.code.push(i), table: operand.table }),
                None => Err(CompileError::UnknownOperator),
            },
            Err(e) => Err(e),
        },
        Expr::Infix { operator, left, right } => match emit_expression(*left, t) {
            Ok(l) => match emit_expression(*right, l.table) {
                Ok(r) => match infix_instr(operator) {
                    Some(i) => Ok(Emitted { code: (l.code + r.code).push(i), table: r.table }),
                    None => Err(CompileError::UnknownOperator),
                },
                Err(e) => Err(e),
            },
            Err(e) => Err(e),
        },
        Expr::If { condition, consequence, alternative } => match emit_expression(*condition, t) {
            Ok(c) => match emit_statement(*consequence, c.table) {
                Ok(k) => match emit_statement(*alternative, k.table) {
                    Ok(a) => Ok(
                        Emitted { code: conditional_code(c.code, k.code, a.code), table: a.table },
                    ),
                    Err(e) => Err(e),
                },
                Err(e) => Err(e),
            },
            Err(e) => Err(e),
        },
        Expr::Function { parameters, body } => match define_parameters(
            parameters,
            Table::empty(Some(Box::new(t))),
        ) {
            Ok(inner) => match emit_statement(*body, inner) {
                Ok(b) => Ok(
                    Emitted {
                        code: seq![
                            Instr::Constant(
                                Value::CompiledFunction {
                                    instructions: function_body(b.code),
                                    num_locals: b.table.num_definitions as usize,
                                    num_paras: parameters.len() as usize,
                                },
                            ),
                        ],
                        table: t,
                    },
                ),
                Err(e) => Err(e),
            },
            Err(e) => Err(e),
        },
        Expr::Call { function, arguments } => match emit_expression(*function, t) {
            Ok(f) => match emit_expressions(arguments, f.table) {
                Ok(args) => Ok(
                    Emitted {
                        code: (f.code + args.code).push(Instr::Call(arguments.len() as usize)),
                        table: args.table,
                    },
                ),
                Err(e) => Err(e),
            },
            Err(e) => Err(e),
        },
    }
}

/// What compiling the expressions `es` one after the other gives.
pub open spec fn emit_expressions(es: Seq<Expr>, t: Table) -> Result<Emitted, CompileError>
    decreases es,
{
    if es.len() == 0 {
        Ok(Emitted { code: Seq::empty(), table: t })
    } else {
        match emit_expressions(es.drop_last(), t) {
            Ok(front) => match emit_expression(es.last(), front.table) {
                Ok(last) => Ok(Emitted { code: front.code + last.code, table: last.table }),
                Err(e) => Err(e),
            },
            Err(e) => Err(e),
        }
    }
}

/// What compiling the statement `s` in the table `t` gives.
pub open spec fn emit_statement(s: Stmt, t: Table) -> Result<Emitted, CompileError>
    decreases s,
{
    match s {
        Stmt::Let { ident, expr } => match emit_expression(expr, t) {
            Ok(value) => match ident {
                Expr::Ident(name) => if value.table.num_definitions >= usize::MAX {
                    Err(CompileError::TooManyDefinitions)
                } else {
                    Ok(
                        Emitted {
                            code: value.code.push(set_instr(value.table.next_symbol(name))),
                            table: value.table.define(name),
                        },
                    )
                },
                _ => Err(CompileError::InvalidLet),
            },
            Err(e) => Err(e),
        },
        Stmt::Return(expr) => match emit_expression(expr, t) {
            Ok(value) => Ok(
                Emitted { code: value.code.push(Instr::ReturnValue), table: value.table },
            ),
            Err(e) => Err(e),
        },
        Stmt::Expr(expr) => match emit_expression(expr, t) {
            Ok(value) => Ok(Emitted { code: value.code.push(Instr::Pop), table: value.table }),
            Err(e) => Err(e),
        },
        Stmt::Block(statements) => emit_statements(statements, t),
    }
}

/// What compiling the statements `ss` one after the other gives.
pub open spec fn emit_statements(ss: Seq<Stmt>, t: Table) -> Result<Emitted, CompileError>
    decreases ss,
{
    if ss.len() == 0 {
        Ok(Emitted { code: Seq::empty(), table: t })
    } else {
        match emit_statements(ss.drop_last(), t) {
            Ok(front) => match emit_statement(ss.last(), front.table) {
                Ok(last) => Ok(Emitted { code: front.code + last.code, table: last.table }),
                Err(e) => Err(e),
            },
            Err(e) => Err(e),
        }
    }
}


/// If compiling the first `k` of a list of expressions fails, compiling the
/// whole list fails in the same way.
proof fn lemma_expressions_fail_early(es: Seq<Expr>, k: int, t: Table)
    requires
        0 <= k <= es.len(),
        emit_expressions(es.take(k), t) is Err,
    ensures
        emit_expressions(es, t) == emit_expressions(es.take(k), t),
    decreases es.len(),
{
    if k == es.len() {
        assert(es.take(k) =~= es);
    } else {
        assert(es.drop_last().take(k) =~= es.take(k));
        lemma_expressions_fail_early(es.drop_last(), k, t);
    }
}

/// If compiling the first `k` of a list of statements fails, compiling the
/// whole list fails in the same way.
proof fn lemma_statements_fail_early(ss: Seq<Stmt>, k: int, t: Table)
    requires
        0 <= k <= ss.len(),
        emit_statements(ss.take(k), t) is Err,
    ensures
        emit_statements(ss, t) == emit_statements(ss.take(k), t),
    decreases ss.len(),
{
    if k == ss.len() {
        assert(ss.take(k) =~= ss);
    } else {
        assert(ss.drop_last().take(k) =~= ss.take(k));
        lemma_statements_fail_early(ss.drop_last(), k, t);
    }
}

/// If defining the first `k` of a list of parameters fails, defining the
/// whole list fails in the same way.
proof fn lemma_parameters_fail_early(ps: Seq<Expr>, k: int, t: Table)
    requires
        0 <= k <= ps.len(),
        define_parameters(ps.take(k), t) is Err,
    ensures
        define_parameters(ps, t) == define_parameters(ps.take(k), t),
    decreases ps.len(),
{
    if k == ps.len() {
        assert(ps.take(k) =~= ps);
    } else {
        assert(ps.drop_last().take(k) =~= ps.take(k));
        lemma_parameters_fail_early(ps.drop_last(), k, t);
    }
}

/// Taking the `Pop` off the end of instructions that stand behind a head
/// which does not end in `Pop` takes it off the instructions themselves.
proof fn lemma_branch_behind(head: Seq<Instr>, code: Seq<Instr>)
    requires
        head.len() > 0,
        head.last() != Instr::Pop,
    ensures
        branch_code(head + code) == head + branch_code(code),
{
    if code.len() > 0 {
        assert((head + code).last() == code.last());
        if code.last() == Instr::Pop {
            assert((head + code).drop_last() =~= head + code.drop_last());
        }
    } else {
        assert(head + code =~= head);
    }
}

/// The instructions of a conditional as the compiler lays them out: the
/// two jumps are emitted with an operand to be filled in, `x` and `y`, and
/// get their operands once the branch behind them is there.
proof fn lemma_conditional_layout(
    start: Seq<Instr>,
    c: Seq<Instr>,
    k: Seq<Instr>,
    a: Seq<Instr>,
    x: Instr,
    y: Instr,
)
    ensures
        ({
            let pad = branch_padding(a);
            let jnt = Instr::JumpNotTruthy((k.len() + 1) as usize);
            let jump = Instr::Jump((a.len() + pad.len()) as usize);
            let first = ((start + c).push(x) + k).update((start.len() + c.len()) as int, jnt);
            let second = (first.push(y) + a + pad).update((start.len() + c.len() + 1 + k.len()) as int, jump);
            second == start + (c + seq![jnt] + k + seq![jump] + a + pad)
        }),
{
    let pad = branch_padding(a);
    let jnt = Instr::JumpNotTruthy((k.len() + 1) as usize);
    let jump = Instr::Jump((a.len() + pad.len()) as usize);
    let first = ((start + c).push(x) + k).update((start.len() + c.len()) as int, jnt);
    let second = (first.push(y) + a + pad).update((start.len() + c.len() + 1 + k.len()) as int, jump);
    assert(second =~= start + (c + seq![jnt] + k + seq![jump] + a + pad));
}

/// The instruction of a prefix operator.
fn prefix_code(op: &str) -> (r: Option<Code>)
    ensures
        match r {
            Some(c) => prefix_instr(op@) == Some(c@),
            None => prefix_instr(op@) is None,
        },
{
    proof {
        reveal_strlit("-");
        reveal_strlit("!");
        assert("-"@ =~= seq!['-']);
        assert("!"@ =~= seq!['!']);
    }
    if same_text(op, "-") {
        Some(Code::Minus)
    } else if same_text(op, "!") {
        Some(Code::Bang)
    } else {
        None
    }
}

/// The instruction of an infix operator.
fn infix_code(op: &str) -> (r: Option<Code>)
    ensures
        match r {
            Some(c) => infix_instr(op@) == Some(c@),
            None => infix_instr(op@) is None,
        },
{
    proof {
        reveal_strlit("+");
        reveal_strlit("-");
        reveal_strlit("*");
        reveal_strlit("/");
        reveal_strlit("==");
        reveal_strlit("!=");
        reveal_strlit(">");
        reveal_strlit("<");
        reveal_strlit("[");
        assert("+"@ =~= seq!['+']);
        assert("-"@ =~= seq!['-']);
        assert("*"@ =~= seq!['*']);
        assert("/"@ =~= seq!['/']);
        assert("=="@ =~= seq!['=', '=']);
        assert("!="@ =~= seq!['!', '=']);
        assert(">"@ =~= seq!['>']);
        assert("<"@ =~= seq!['<']);
        assert("["@ =~= seq!['[']);
    }
    if same_text(op, "+") {
        Some(Code::Add)
    } else if same_text(op, "-") {
        Some(Code::Sub)
    } else if same_text(op, "*") {
        Some(Code::Mul)
    } else if same_text(op, "/") {
        Some(Code::Div)
    } else if same_text(op, "==") {
        Some(Code::Equal)
    } else if same_text(op, "!=") {
        Some(Code::NotEqual)
    } else if same_text(op, ">") {
        Some(Code::GreaterThan)
    } else if same_text(op, "<") {
        Some(Code::LessThan)
    } else if same_text(op, "[") {
        Some(Code::Index)
    } else {
        None
    }
}

/// Compiles a program, one statement after the other, into the
/// instructions of the virtual machine.
pub struct Compiler {
    input: Vec<Statement>,
    scopes: Vec<Vec<Code>>,
    instructions: Vec<Code>,
    symbol_table: SymbolTable,
}

impl Compiler {
    /// The statements that are to be compiled.
    pub closed spec fn program(&self) -> Seq<Stmt> {
        plain_statements_view(self.input@)
    }

    /// A compiler for the statements of `program`, which starts from the
    /// names in `symbol_table`.
    pub fn from_program(program: Vec<Statement>, symbol_table: SymbolTable) -> (r: Compiler)
        ensures
            r.program() == plain_statements_view(program@),
            r.table() == symbol_table@,
            r.code() == Seq::<Instr>::empty(),
            r.saved() == Seq::<Seq<Instr>>::empty(),
    {
        let r = Compiler {
            input: program,
            scopes: Vec::new(),
            instructions: Vec::new(),
            symbol_table,
        };
        assert(r.code() =~= Seq::<Instr>::empty());
        assert(r.saved() =~= Seq::<Seq<Instr>>::empty());
        r
    }

    /// A compiler for the statements that `parser` has left to give, which
    /// starts from the names in `symbol_table`.
    pub fn try_new(parser: Parser, symbol_table: SymbolTable) -> (r: Result<Compiler, ParseError>)
        ensures
            match parse_program(parser.tokens(), parser.position(), Seq::empty()) {
                Ok(program) => r is Ok && r->Ok_0.program() == program && r->Ok_0.table()
                    == symbol_table@ && r->Ok_0.code() == Seq::<Instr>::empty()
                    && r->Ok_0.saved() == Seq::<Seq<Instr>>::empty(),
                Err(e) => r is Err && r->Err_0 == e,
            },
    {
        let mut parser = parser;
        let input = match parser.collect() {
            Ok(input) => input,
            Err(e) => {
                return Err(e);
            },
        };
        Ok(Self::from_program(input, symbol_table))
    }

    /// A compiler for the statements that `parser` has left to give, which
    /// must be a program, starting from the names in `symbol_table`.
    pub fn new(parser: Parser, symbol_table: SymbolTable) -> (r: Compiler)
        requires
            parse_program(parser.tokens(), parser.position(), Seq::empty()) is Ok,
        ensures
            r.program() == parse_program(parser.tokens(), parser.position(), Seq::empty())->Ok_0,
            r.table() == symbol_table@,
            r.code() == Seq::<Instr>::empty(),
            r.saved() == Seq::<Seq<Instr>>::empty(),
    {
        match Self::try_new(parser, symbol_table) {
            Ok(r) => r,
            Err(_) => vstd::pervasive::unreached(),
        }
    }

    /// Compiles the statements in order. Gives the instructions of the main
    /// program and the symbol table with what the program defines.
    pub fn try_run(self) -> (r: Result<(Vec<Code>, SymbolTable), CompileError>)
        ensures
            match emit_statements(self.program(), self.table()) {
                Ok(out) => r is Ok && codes_view(r->Ok_0.0@) == self.code() + out.code
                    && r->Ok_0.1@ == out.table,
                Err(e) => r is Err && r->Err_0 == e,
            },
    {
        let mut compiler = self;
        let mut input: Vec<Statement> = Vec::new();
        core::mem::swap(&mut compiler.input, &mut input);
        let ghost ss = self.program();
        let ghost t = self.table();
        let mut i: usize = 0;
        assert(ss.take(0) =~= Seq::<Stmt>::empty());
        assert(compiler.code() =~= self.code() + Seq::<Instr>::empty());
        while i < input.len()
            invariant
                i <= input.len(),
                ss == plain_statements_view(input@),
                ss == self.program(),
                t == self.table(),
                emit_statements(ss.take(i as int), t) is Ok,
                compiler.code() == self.code() + emit_statements(ss.take(i as int), t)->Ok_0.code,
                compiler.table() == emit_statements(ss.take(i as int), t)->Ok_0.table,
            decreases input.len() - i,
        {
            let ghost front = emit_statements(ss.take(i as int), t)->Ok_0;
            proof {
                assert(ss.take(i + 1).drop_last() =~= ss.take(i as int));
                assert(ss.take(i + 1).last() == input[i as int]@);
            }
            match compiler.compile_statement(&input[i]) {
                Ok(()) => {},
                Err(e) => {
                    proof {
                        lemma_statements_fail_early(ss, i + 1, t);
                    }
                    return Err(e);
                },
            }
            proof {
                let last = emit_statement(input[i as int]@, front.table)->Ok_0;
                assert(compiler.code() =~= self.code() + (front.code + last.code));
            }
            i += 1;
        }
        assert(ss.take(i as int) =~= ss);
        Ok((compiler.instructions, compiler.symbol_table))
    }

    /// Compiles the statements in order, which must be a program that
    /// compiles. Gives the instructions of the main program and the symbol
    /// table with what the program defines.
    pub fn run(self) -> (r: (Vec<Code>, SymbolTable))
        requires
            emit_statements(self.program(), self.table()) is Ok,
        ensures
            codes_view(r.0@) == self.code() + emit_statements(
                self.program(),
                self.table(),
            )->Ok_0.code,
            r.1@ == emit_statements(self.program(), self.table())->Ok_0.table,
    {
        match self.try_run() {
            Ok(r) => r,
            Err(_) => vstd::pervasive::unreached(),
        }
    }

    /// The instructions emitted so far for the function that is being
    /// compiled, or for the main program.
    pub closed spec fn code(&self) -> Seq<Instr> {
        codes_view(self.instructions@)
    }

    /// The instructions that were put aside for the functions around the
    /// one that is being compiled, outermost first.
    pub closed spec fn saved(&self) -> Seq<Seq<Instr>> {
        Seq::new(self.scopes.len() as nat, |i: int| codes_view(self.scopes[i]@))
    }

    /// The symbol table of the scope that is being compiled.
    pub closed spec fn table(&self) -> Table {
        self.symbol_table@
    }

    /// This compiler has come from `before` by emitting `out.code`, which
    /// left the table `out.table`: the instructions put aside are the same,
    /// and so is the table around the current one.
    pub open spec fn extends(&self, before: &Compiler, out: Emitted) -> bool {
        &&& self.code() == before.code() + out.code
        &&& self.table() == out.table
        &&& self.table().outer == before.table().outer
        &&& self.saved() == before.saved()
    }

    /// What a step of the compiler has to achieve: where the program
    /// compiles to `spec`, the step succeeds and the compiler has emitted
    /// just that; where it does not, the step fails with the same error.
    pub open spec fn achieves(
        &self,
        before: &Compiler,
        r: Result<(), CompileError>,
        spec: Result<Emitted, CompileError>,
    ) -> bool {
        match spec {
            Ok(out) => r is Ok && self.extends(before, out),
            Err(e) => r == Err::<(), CompileError>(e),
        }
    }

    /// Appends one instruction.
    fn emit(&mut self, code: Code)
        ensures
            final(self).code() == old(self).code().push(code@),
            final(self).table() == old(self).table(),
            final(self).saved() == old(self).saved(),
    {
        self.instructions.push(code);
        assert(self.code() =~= old(self).code().push(code@));
    }

    /// Removes the last instruction if it is a `Pop`.
    fn strip_pop(&mut self)
        ensures
            final(self).code() == branch_code(old(self).code()),
            final(self).table() == old(self).table(),
            final(self).saved() == old(self).saved(),
    {
        let n = self.instructions.len();
        if n > 0 {
            let is_pop = match &self.instructions[n - 1] {
                Code::Pop => true,
                _ => false,
            };
            assert(old(self).code().last() == self.instructions[n - 1]@);
            if is_pop {
                self.instructions.pop();
                assert(self.code() =~= old(self).code().drop_last());
            }
        }
    }

    /// Puts the instructions emitted so far aside and opens a scope inside
    /// the current one.
    fn enter_scope(&mut self)
        ensures
            final(self).code() == Seq::<Instr>::empty(),
            final(self).table() == Table::empty(Some(Box::new(old(self).table()))),
            final(self).saved() == old(self).saved().push(old(self).code()),
            old(self).table().wf(),
    {
        let mut outer = SymbolTable::new(None);
        core::mem::swap(&mut self.symbol_table, &mut outer);
        let _ = outer.num_definitions();
        self.symbol_table = SymbolTable::new(Some(Box::new(outer)));
        let mut saved: Vec<Code> = Vec::new();
        core::mem::swap(&mut self.instructions, &mut saved);
        self.scopes.push(saved);
        assert(self.code() =~= Seq::<Instr>::empty());
        assert(self.saved() =~= old(self).saved().push(old(self).code()));
    }

    /// Closes the current scope: returns its instructions and the number of
    /// its definitions, and takes up the instructions that were put aside
    /// last and the table around the scope.
    fn leave_scope(&mut self) -> (r: (Vec<Code>, usize))
        requires
            old(self).saved().len() > 0,
            old(self).table().outer is Some,
        ensures
            codes_view(r.0@) == old(self).code(),
            r.1 == old(self).table().num_definitions,
            final(self).code() == old(self).saved().last(),
            final(self).saved() == old(self).saved().drop_last(),
            final(self).table() == *old(self).table().outer->0,
    {
        let num_locals = self.symbol_table.num_definitions();
        let mut inner = SymbolTable::new(None);
        core::mem::swap(&mut self.symbol_table, &mut inner);
        match inner.get_outer() {
            Some(outer) => {
                self.symbol_table = *outer;
            },
            None => {},
        }
        let mut instructions = self.scopes.pop().unwrap();
        core::mem::swap(&mut self.instructions, &mut instructions);
        assert(self.saved() =~= old(self).saved().drop_last());
        (instructions, num_locals)
    }

    /// Compiles one statement.
    fn compile_statement(&mut self, stmt: &Statement) -> (r: Result<(), CompileError>)
        ensures
            final(self).achieves(old(self), r, emit_statement(stmt@, old(self).table())),
        decreases stmt@, 1nat,
    {
        match stmt {
            Statement::Let { ident, expr } => self.compile_let(ident, expr),
            Statement::Return(expr) => {
                match self.compile_expression(expr) {
                    Ok(()) => {},
                    Err(e) => {
                        return Err(e);
                    },
                }
                self.emit(Code::ReturnValue);
                assert(self.code() =~= old(self).code() + emit_statement(
                    stmt@,
                    old(self).table(),
                )->Ok_0.code);
                Ok(())
            },
            Statement::Expr(expr) => {
                match self.compile_expression(expr) {
                    Ok(()) => {},
                    Err(e) => {
                        return Err(e);
                    },
                }
                self.emit(Code::Pop);
                assert(self.code() =~= old(self).code() + emit_statement(
                    stmt@,
                    old(self).table(),
                )->Ok_0.code);
                Ok(())
            },
            Statement::Block(block) => self.compile_block(block),
        }
    }

    /// Compiles the statements of a block, in order.
    fn compile_block(&mut self, block: &Vec<Box<Statement>>) -> (r: Result<(), CompileError>)
        ensures
            final(self).achieves(
                old(self),
                r,
                emit_statements(statements_view(block@), old(self).table()),
            ),
        decreases statements_view(block@), 1nat,
    {
        let ghost ss = statements_view(block@);
        let ghost t = self.table();
        let mut i: usize = 0;
        assert(ss.take(0) =~= Seq::<Stmt>::empty());
        assert(self.code() =~= old(self).code() + Seq::<Instr>::empty());
        while i < block.len()
            invariant
                i <= block.len(),
                ss == statements_view(block@),
                t == old(self).table(),
                emit_statements(ss.take(i as int), t) is Ok,
                self.extends(old(self), emit_statements(ss.take(i as int), t)->Ok_0),
            decreases block.len() - i,
        {
            let ghost front = emit_statements(ss.take(i as int), t)->Ok_0;
            let ghost before = *self;
            proof {
                assert(ss.take(i + 1).drop_last() =~= ss.take(i as int));
                assert(ss.take(i + 1).last() == block[i as int]@);
            }
            match self.compile_statement(&block[i]) {
                Ok(()) => {},
                Err(e) => {
                    proof {
                        lemma_statements_fail_early(ss, i + 1, t);
                    }
                    return Err(e);
                },
            }
            proof {
                let last = emit_statement(block[i as int]@, front.table)->Ok_0;
                assert(self.code() =~= old(self).code() + (front.code + last.code));
            }
            i += 1;
        }
        assert(ss.take(i as int) =~= ss);
        Ok(())
    }

    /// Compiles a `let`: the expression, and then the instruction that writes
    /// the slot which the name gets.
    fn compile_let(&mut self, ident: &Expression, expr: &Expression) -> (r: Result<
        (),
        CompileError,
    >)
        ensures
            final(self).achieves(
                old(self),
                r,
                emit_statement(Stmt::binding(ident@, expr@), old(self).table()),
            ),
        decreases Stmt::binding(ident@, expr@), 0nat,
    {
        match self.compile_expression(expr) {
            Ok(()) => {},
            Err(e) => {
                return Err(e);
            },
        }
        let ghost value = emit_expression(expr@, old(self).table())->Ok_0;
        match ident {
            Expression::Ident(name) => {
                if self.symbol_table.num_definitions() == usize::MAX {
                    return Err(CompileError::TooManyDefinitions);
                }
                let symbol = self.symbol_table.define(name.as_str());
                match symbol.scope {
                    Scope::Global => self.emit(Code::SetGlobal(symbol.index)),
                    Scope::Local => self.emit(Code::SetLocal(symbol.index)),
                }
                assert(self.code() =~= old(self).code() + value.code.push(
                    set_instr(value.table.next_symbol(name@)),
                ));
                Ok(())
            },
            _ => Err(CompileError::InvalidLet),
        }
    }

    /// Compiles one expression.
    fn compile_expression(&mut self, expr: &Expression) -> (r: Result<(), CompileError>)
        ensures
            final(self).achieves(old(self), r, emit_expression(expr@, old(self).table())),
        decreases expr@, 1nat,
    {
        match expr {
            Expression::Ident(v) => self.compile_ident(v.as_str()),
            Expression::Int(v) => self.compile_int(v.as_str()),
            Expression::Str(v) => {
                self.emit(Code::Constant(Object::Str(v.clone())));
                assert(self.code() =~= old(self).code() + seq![
                    Instr::Constant(Value::Str(v@)),
                ]);
                Ok(())
            },
            Expression::Bool(v) => self.compile_bool(v.as_str()),
            Expression::Array(exprs) => self.compile_array(exprs),
            Expression::Prefix { operator, expr } => self.compile_prefix(operator.as_str(), expr),
            Expression::Infix { operator, left, right } => self.compile_infix(
                operator.as_str(),
                left,
                right,
            ),
            Expression::If { condition, consequence, alternative } => self.compile_if(
                condition,
                consequence,
                alternative,
            ),
            Expression::Function { parameters, body } => self.compile_function(parameters, body),
            Expression::Call { function, arguments } => self.compile_call(function, arguments),
        }
    }

    /// Compiles a name: the instruction that reads its slot.
    fn compile_ident(&mut self, v: &str) -> (r: Result<(), CompileError>)
        ensures
            final(self).achieves(old(self), r, emit_expression(Expr::Ident(v@), old(self).table())),
    {
        match self.symbol_table.resolve(v) {
            Some(symbol) => {
                match symbol.scope {
                    Scope::Global => self.emit(Code::GetGlobal(symbol.index)),
                    Scope::Local => self.emit(Code::GetLocal(symbol.index)),
                }
                assert(self.code() =~= old(self).code() + seq![get_instr(symbol@)]);
                Ok(())
            },
            None => Err(CompileError::UnresolvedIdentifier),
        }
    }

    /// Compiles an integer literal.
    fn compile_int(&mut self, v: &str) -> (r: Result<(), CompileError>)
        ensures
            final(self).achieves(old(self), r, emit_expression(Expr::Int(v@), old(self).table())),
    {
        match parse_i32(v) {
            Some(n) => {
                self.emit(Code::Constant(Object::Int(n)));
                assert(self.code() =~= old(self).code() + seq![Instr::Constant(Value::Int(n))]);
                Ok(())
            },
            None => Err(CompileError::InvalidInteger),
        }
    }

    /// Compiles a boolean literal.
    fn compile_bool(&mut self, v: &str) -> (r: Result<(), CompileError>)
        ensures
            final(self).achieves(old(self), r, emit_expression(Expr::Bool(v@), old(self).table())),
    {
        proof {
            reveal_strlit("true");
            reveal_strlit("false");
            assert("true"@ =~= seq!['t', 'r', 'u', 'e']);
            assert("false"@ =~= seq!['f', 'a', 'l', 's', 'e']);
        }
        if same_text(v, "true") {
            self.emit(Code::True);
            assert(self.code() =~= old(self).code() + seq![Instr::True]);
            Ok(())
        } else if same_text(v, "false") {
            self.emit(Code::False);
            assert(self.code() =~= old(self).code() + seq![Instr::False]);
            Ok(())
        } else {
            Err(CompileError::InvalidBoolean)
        }
    }

    /// Compiles the expressions of a list, in order.
    fn compile_expressions(&mut self, exprs: &Vec<Box<Expression>>) -> (r: Result<
        (),
        CompileError,
    >)
        ensures
            final(self).achieves(
                old(self),
                r,
                emit_expressions(expressions_view(exprs@), old(self).table()),
            ),
        decreases expressions_view(exprs@), 1nat,
    {
        let ghost es = expressions_view(exprs@);
        let ghost t = self.table();
        let mut i: usize = 0;
        assert(es.take(0) =~= Seq::<Expr>::empty());
        assert(self.code() =~= old(self).code() + Seq::<Instr>::empty());
        while i < exprs.len()
            invariant
                i <= exprs.len(),
                es == expressions_view(exprs@),
                t == old(self).table(),
                emit_expressions(es.take(i as int), t) is Ok,
                self.extends(old(self), emit_expressions(es.take(i as int), t)->Ok_0),
            decreases exprs.len() - i,
        {
            let ghost front = emit_expressions(es.take(i as int), t)->Ok_0;
            proof {
                assert(es.take(i + 1).drop_last() =~= es.take(i as int));
                assert(es.take(i + 1).last() == exprs[i as int]@);
            }
            match self.compile_expression(&exprs[i]) {
                Ok(()) => {},
                Err(e) => {
                    proof {
                        lemma_expressions_fail_early(es, i + 1, t);
                    }
                    return Err(e);
                },
            }
            proof {
                let last = emit_expression(exprs[i as int]@, front.table)->Ok_0;
                assert(self.code() =~= old(self).code() + (front.code + last.code));
            }
            i += 1;
        }
        assert(es.take(i as int) =~= es);
        Ok(())
    }

    /// Compiles an array literal: its items, and then the instruction that
    /// makes an array of them.
    fn compile_array(&mut self, exprs: &Vec<Box<Expression>>) -> (r: Result<(), CompileError>)
        ensures
            final(self).achieves(
                old(self),
                r,
                emit_expression(Expr::Array(expressions_view(exprs@)), old(self).table()),
            ),
        decreases Expr::Array(expressions_view(exprs@)), 0nat,
    {
        let size = exprs.len();
        match self.compile_expressions(exprs) {
            Ok(()) => {},
            Err(e) => {
                return Err(e);
            },
        }
        let ghost items = emit_expressions(expressions_view(exprs@), old(self).table())->Ok_0;
        self.emit(Code::Array(size));
        assert(self.code() =~= old(self).code() + items.code.push(Instr::Array(size)));
        Ok(())
    }

    /// Compiles a prefix operator: its operand, and then its instruction.
    fn compile_prefix(&mut self, operator: &str, expr: &Expression) -> (r: Result<
        (),
        CompileError,
    >)
        ensures
            final(self).achieves(
                old(self),
                r,
                emit_expression(Expr::prefix(operator@, expr@), old(self).table()),
            ),
        decreases Expr::prefix(operator@, expr@), 0nat,
    {
        match self.compile_expression(expr) {
            Ok(()) => {},
            Err(e) => {
                return Err(e);
            },
        }
        let ghost operand = emit_expression(expr@, old(self).table())->Ok_0;
        match prefix_code(operator) {
            Some(code) => {
                self.emit(code);
                assert(self.code() =~= old(self).code() + operand.code.push(code@));
                Ok(())
            },
            None => Err(CompileError::UnknownOperator),
        }
    }

    /// Compiles an infix operator: its operands from left to right, and then
    /// its instruction.
    fn compile_infix(&mut self, operator: &str, left: &Expression, right: &Expression) -> (r:
        Result<(), CompileError>)
        ensures
            final(self).achieves(
                old(self),
                r,
                emit_expression(Expr::infix(operator@, left@, right@), old(self).table()),
            ),
        decreases Expr::infix(operator@, left@, right@), 0nat,
    {
        match self.compile_expression(left) {
            Ok(()) => {},
            Err(e) => {
                return Err(e);
            },
        }
        let ghost l = emit_expression(left@, old(self).table())->Ok_0;
        match self.compile_expression(right) {
            Ok(()) => {},
            Err(e) => {
                return Err(e);
            },
        }
        let ghost r = emit_expression(right@, l.table)->Ok_0;
        match infix_code(operator) {
            Some(code) => {
                self.emit(code);
                assert(self.code() =~= old(self).code() + (l.code + r.code).push(code@));
                Ok(())
            },
            None => Err(CompileError::UnknownOperator),
        }
    }

    /// Puts `code` in the place of the instruction at `pos`.
    fn patch(&mut self, pos: usize, code: Code)
        requires
            pos < old(self).code().len(),
        ensures
            final(self).code() == old(self).code().update(pos as int, code@),
            final(self).table() == old(self).table(),
            final(self).saved() == old(self).saved(),
    {
        self.instructions.set(pos, code);
        assert(self.code() =~= old(self).code().update(pos as int, code@));
    }

    /// How many instructions have been emitted for the current function.
    fn position(&self) -> (r: usize)
        ensures
            r == self.code().len(),
    {
        self.instructions.len()
    }

    /// Compiles a conditional. The operand of each of its two jumps is filled
    /// in once the branch that the jump passes over has been compiled.
    fn compile_if(
        &mut self,
        condition: &Expression,
        consequence: &Statement,
        alternative: &Statement,
    ) -> (r: Result<(), CompileError>)
        ensures
            final(self).achieves(
                old(self),
                r,
                emit_expression(
                    Expr::conditional(condition@, consequence@, alternative@),
                    old(self).table(),
                ),
            ),
        decreases Expr::conditional(condition@, consequence@, alternative@), 0nat,
    {
        let ghost start = self.code();
        match self.compile_expression(condition) {
            Ok(()) => {},
            Err(e) => {
                return Err(e);
            },
        }
        let ghost c = emit_expression(condition@, old(self).table())->Ok_0;
        // The consequence, behind a jump whose operand is filled in below.
        let pos = self.position();
        self.emit(Code::JumpNotTruthy(0));
        let ghost head = self.code();
        match self.compile_statement(consequence) {
            Ok(()) => {},
            Err(e) => {
                return Err(e);
            },
        }
        let ghost k = emit_statement(consequence@, c.table)->Ok_0;
        self.strip_pop();
        let ghost k1 = branch_code(k.code);
        proof {
            lemma_branch_behind(head, k.code);
            assert(head == (start + c.code).push(Instr::JumpNotTruthy(0)));
            assert(self.code() == head + k1);
        }
        let offset = self.position() - pos;
        self.patch(pos, Code::JumpNotTruthy(offset));
        let ghost first = (head + k1).update(pos as int, Instr::JumpNotTruthy(offset));
        assert(self.code() == first);
        // The alternative, behind a jump of the same kind.
        let pos2 = self.position();
        self.emit(Code::Jump(0));
        let ghost head2 = self.code();
        match self.compile_statement(alternative) {
            Ok(()) => {},
            Err(e) => {
                return Err(e);
            },
        }
        let ghost a = emit_statement(alternative@, k.table)->Ok_0;
        self.strip_pop();
        let ghost a1 = branch_code(a.code);
        proof {
            lemma_branch_behind(head2, a.code);
            assert(head2 == first.push(Instr::Jump(0)));
            assert(self.code() == head2 + a1);
        }
        let mut offset2 = self.position() - 1 - pos2;
        if offset2 == 0 {
            offset2 = 1;
            self.emit(Code::Null);
            assert(self.code() =~= head2 + a1 + branch_padding(a1));
        } else {
            assert(self.code() =~= head2 + a1 + branch_padding(a1));
        }
        self.patch(pos2, Code::Jump(offset2));
        proof {
            lemma_conditional_layout(
                start,
                c.code,
                k1,
                a1,
                Instr::JumpNotTruthy(0),
                Instr::Jump(0),
            );
            assert(self.code() == start + conditional_code(c.code, k.code, a.code));
        }
        Ok(())
    }

    /// Compiles a function literal to a constant: the body is compiled in a
    /// scope of its own, in which the parameters get the first slots.
    fn compile_function(&mut self, parameters: &Vec<Box<Expression>>, body: &Statement) -> (r:
        Result<(), CompileError>)
        ensures
            final(self).achieves(
                old(self),
                r,
                emit_expression(
                    Expr::function(expressions_view(parameters@), body@),
                    old(self).table(),
                ),
            ),
        decreases Expr::function(expressions_view(parameters@), body@), 0nat,
    {
        let ghost ps = expressions_view(parameters@);
        let ghost t = Table::empty(Some(Box::new(old(self).table())));
        self.enter_scope();
        let num_paras = parameters.len();
        let mut i: usize = 0;
        assert(ps.take(0) =~= Seq::<Expr>::empty());
        while i < parameters.len()
            invariant
                i <= parameters.len(),
                ps == expressions_view(parameters@),
                t == Table::empty(Some(Box::new(old(self).table()))),
                define_parameters(ps.take(i as int), t) == Ok::<Table, CompileError>(self.table()),
                self.table().outer == t.outer,
                self.code() == Seq::<Instr>::empty(),
                self.saved() == old(self).saved().push(old(self).code()),
            decreases parameters.len() - i,
        {
            proof {
                assert(ps.take(i + 1).drop_last() =~= ps.take(i as int));
                assert(ps.take(i + 1).last() == parameters[i as int]@);
            }
            match &*parameters[i] {
                Expression::Ident(name) => {
                    if self.symbol_table.num_definitions() == usize::MAX {
                        proof {
                            lemma_parameters_fail_early(ps, i + 1, t);
                        }
                        return Err(CompileError::TooManyDefinitions);
                    }
                    self.symbol_table.define(name.as_str());
                },
                _ => {
                    proof {
                        lemma_parameters_fail_early(ps, i + 1, t);
                    }
                    return Err(CompileError::InvalidParameter);
                },
            }
            i += 1;
        }
        assert(ps.take(i as int) =~= ps);
        let ghost inner = self.table();
        match self.compile_statement(body) {
            Ok(()) => {},
            Err(e) => {
                return Err(e);
            },
        }
        let ghost b = emit_statement(body@, inner)->Ok_0;
        assert(self.code() =~= b.code);
        let (mut instructions, num_locals) = self.leave_scope();
        let n = instructions.len();
        if n == 0 {
            instructions.push(Code::Return);
        } else {
            let is_pop = match &instructions[n - 1] {
                Code::Pop => true,
                _ => false,
            };
            assert(b.code.last() == instructions[n - 1]@);
            if is_pop {
                instructions.pop();
                instructions.push(Code::ReturnValue);
            }
        }
        assert(codes_view(instructions@) =~= function_body(b.code));
        self.emit(
            Code::Constant(Object::CompiledFunction { instructions, num_locals, num_paras }),
        );
        assert(self.code() =~= old(self).code() + emit_expression(
            Expr::Function { parameters: ps, body: Box::new(body@) },
            old(self).table(),
        )->Ok_0.code);
        assert(self.saved() =~= old(self).saved());
        Ok(())
    }

    /// Compiles a call: the function, the arguments from left to right, and
    /// then the call.
    fn compile_call(&mut self, function: &Expression, arguments: &Vec<Box<Expression>>) -> (r:
        Result<(), CompileError>)
        ensures
            final(self).achieves(
                old(self),
                r,
                emit_expression(
                    Expr::call(function@, expressions_view(arguments@)),
                    old(self).table(),
                ),
            ),
        decreases Expr::call(function@, expressions_view(arguments@)), 0nat,
    {
        match self.compile_expression(function) {
            Ok(()) => {},
            Err(e) => {
                return Err(e);
            },
        }
        let ghost f = emit_expression(function@, old(self).table())->Ok_0;
        let num_args = arguments.len();
        match self.compile_expressions(arguments) {
            Ok(()) => {},
            Err(e) => {
                return Err(e);
            },
        }
        let ghost args = emit_expressions(expressions_view(arguments@), f.table)->Ok_0;
        self.emit(Code::Call(num_args));
        assert(self.code() =~= old(self).code() + (f.code + args.code).push(
            Instr::Call(num_args),
        ));
        Ok(())
    }
}

} // verus!
