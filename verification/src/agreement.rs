use crate::ast::{parts_are_smaller, statement_parts_are_smaller, Expr, Stmt};
use crate::code::{Instr, Table};
use crate::compiler::{
    bool_instr, branch_code, branch_padding, conditional_code, emit_expression, emit_expressions,
    emit_statement, emit_statements, infix_instr, prefix_instr,
};
use crate::evaluator::{
    eval_array, eval_block, eval_expression, eval_if, eval_infix, eval_items, eval_prefix,
    eval_statement, eval_statements, infix_value, prefix_value, Halt,
};
use crate::machine::{arithmetic, comparison, prefix, truthy, Fault, Machine};
use crate::object::{Env, Value};
use vstd::prelude::*;

verus! {

/// Whether an expression is made of literals, operators, arrays and
/// conditionals alone, without names, functions and calls; the branches of
/// its conditionals are blocks of expression statements, the alternative
/// may be an empty block.
pub open spec fn pure(e: Expr) -> bool
    decreases e,
{
    match e {
        Expr::Int(_) | Expr::Bool(_) | Expr::Str(_) => true,
        Expr::Array(items) => items.len() <= usize::MAX && forall|i: int|
            0 <= i < items.len() ==> pure(#[trigger] items[i]),
        Expr::Prefix { operator, expr } => pure(*expr),
        Expr::Infix { operator, left, right } => pure(*left) && pure(*right),
        Expr::If { condition, consequence, alternative } => pure(*condition) && pure_block(
            *consequence,
        ) && (pure_block(*alternative) || *alternative == Stmt::Block(Seq::empty())),
        _ => false,
    }
}

/// Whether a statement is an expression statement of such an expression.
pub open spec fn pure_statement(s: Stmt) -> bool
    decreases s,
{
    match s {
        Stmt::Expr(e) => pure(e),
        _ => false,
    }
}

/// Whether a branch is a block of one such statement or more.
pub open spec fn pure_block(s: Stmt) -> bool
    decreases s,
{
    match s {
        Stmt::Block(statements) => statements.len() > 0 && forall|i: int|
            0 <= i < statements.len() ==> pure_statement(#[trigger] statements[i]),
        _ => false,
    }
}

/// The machine `last` has come from `m` by running the first `n` of its
/// instructions, which have left the value `v` on top of what lay on the
/// stack and have opened or closed no call and set no global.
pub open spec fn pushed(m: Machine, n: nat, v: Value, last: Machine) -> bool {
    &&& last.code == m.code.skip(n as int)
    &&& last.jump == 0
    &&& last.stack == m.stack.push(v)
    &&& last.frames == m.frames
    &&& last.globals == m.globals
}

/// The machine `last` has come from `m` by running the first `n` of its
/// instructions, which have left the stack as it was and have opened or
/// closed no call and set no global.
pub open spec fn passed(m: Machine, n: nat, last: Machine) -> bool {
    &&& last.code == m.code.skip(n as int)
    &&& last.jump == 0
    &&& last.stack == m.stack
    &&& last.frames == m.frames
    &&& last.globals == m.globals
}

/// Whether the instructions of the machine begin with `code`, none of
/// which is passed over.
pub open spec fn ready(m: Machine, code: Seq<Instr>) -> bool {
    &&& m.jump == 0
    &&& code.len() <= m.code.len()
    &&& m.code.take(code.len() as int) == code
}

/// Running `a` instructions and then `b` more is running `a + b`.
pub proof fn after_add(m: Machine, a: nat, b: nat)
    ensures
        m.after(a + b) == (match m.after(a) {
            Ok(next) => next.after(b),
            Err(f) => Err(f),
        }),
    decreases a,
{
    if a == 0 {
    } else if m.halted() {
        assert(m.after(b) == Ok::<Machine, Fault>(m));
    } else {
        match m.step() {
            Ok(next) => {
                after_add(next, (a - 1) as nat, b);
            },
            Err(f) => {},
        }
    }
}

/// One step of a machine that passes nothing over runs its first
/// instruction.
pub proof fn after_one(m: Machine)
    requires
        m.code.len() > 0,
        m.jump == 0,
    ensures
        m.after(1) == (Machine { code: m.code.skip(1), ..m }).execute(m.code[0]),
{
    assert(m.code.drop_first() =~= m.code.skip(1));
    match m.step() {
        Ok(next) => {
            assert(next.after(0) == Ok::<Machine, Fault>(next));
        },
        Err(f) => {},
    }
}

/// A machine that has instructions to pass over passes them over, one in
/// each step.
pub proof fn after_jump(m: Machine)
    requires
        m.jump <= m.code.len(),
    ensures
        m.after(m.jump) == Ok::<Machine, Fault>(
            Machine { code: m.code.skip(m.jump as int), jump: 0, ..m },
        ),
    decreases m.jump,
{
    if m.jump == 0 {
        assert(m.code.skip(0) =~= m.code);
    } else {
        let next = Machine { code: m.code.drop_first(), jump: (m.jump - 1) as nat, ..m };
        assert(m.step() == Ok::<Machine, Fault>(next));
        after_jump(next);
        assert(m.code.drop_first().skip(m.jump - 1) =~= m.code.skip(m.jump as int));
    }
}


/// What the two ways of running an expression have to do with each other:
/// the evaluator has given the value `v`, and the machine `m`, whose
/// instructions begin with the `n` instructions of the expression, is
/// either stopped by a fault or comes to the end of them with `v` on top
/// of what lay on its stack.
pub open spec fn agree(m: Machine, n: nat, v: Value) -> bool {
    match m.after(n) {
        Ok(last) => pushed(m, n, v, last),
        Err(_) => true,
    }
}

/// The machine is stopped by a fault, or comes through its first `n`
/// instructions and leaves its stack as it was.
pub open spec fn pass(m: Machine, n: nat) -> bool {
    match m.after(n) {
        Ok(last) => passed(m, n, last),
        Err(_) => true,
    }
}

/// The machine is stopped by a fault, or comes through its first `n`
/// instructions and leaves `values` on top of what lay on its stack.
pub open spec fn stacked(m: Machine, n: nat, values: Seq<Value>) -> bool {
    match m.after(n) {
        Ok(last) => {
            &&& last.code == m.code.skip(n as int)
            &&& last.jump == 0
            &&& last.stack == m.stack + values
            &&& last.frames == m.frames
            &&& last.globals == m.globals
        },
        Err(_) => true,
    }
}

/// What an instruction with two operands makes of them.
pub open spec fn binary_result(i: Instr, a: Value, b: Value) -> Result<Value, Fault> {
    match i {
        Instr::Add | Instr::Sub | Instr::Mul | Instr::Div => arithmetic(i, a, b),
        _ => comparison(i, a, b),
    }
}

/// Whether an instruction works on two operands as an infix operator of
/// the language does.
pub open spec fn is_binary(i: Instr) -> bool {
    i is Add || i is Sub || i is Mul || i is Div || i is Equal || i is NotEqual || i
        is GreaterThan || i is LessThan
}

/// A part of the instructions that the machine begins with is what the
/// machine begins with once it has come to that part.
proof fn lemma_ready_at(m: Machine, n: nat, whole: Seq<Instr>, part: Seq<Instr>, at: Machine)
    requires
        whole.len() <= m.code.len(),
        m.code.take(whole.len() as int) == whole,
        n + part.len() <= whole.len(),
        whole.subrange(n as int, (n + part.len()) as int) == part,
        at.code == m.code.skip(n as int),
        at.jump == 0,
    ensures
        ready(at, part),
{
    assert(at.code.take(part.len() as int) =~= whole.subrange(n as int, (n + part.len()) as int));
}

/// A machine that begins with one instruction that puts a value on the
/// stack leaves that value.
proof fn lemma_literal(m: Machine, i: Instr, v: Value)
    requires
        ready(m, seq![i]),
        i == Instr::Constant(v) || (i == Instr::True && v == Value::Bool(true)) || (i
            == Instr::False && v == Value::Bool(false)) || (i == Instr::Null && v == Value::Null),
    ensures
        agree(m, 1, v),
{
    assert(m.code[0] == seq![i][0]);
    after_one(m);
}

/// The value of an operand, and then `Minus` or `Bang`.
proof fn lemma_unary(m: Machine, n: nat, v: Value, i: Instr)
    requires
        agree(m, n, v),
        n < m.code.len(),
        m.code[n as int] == i,
        i is Minus || i is Bang,
    ensures
        match m.after(n + 1) {
            Ok(last) => prefix(i, v) is Ok && pushed(m, n + 1, prefix(i, v)->Ok_0, last),
            Err(_) => true,
        },
{
    after_add(m, n, 1);
    match m.after(n) {
        Ok(next) => {
            after_one(next);
            assert(next.code.skip(1) =~= m.code.skip((n + 1) as int));
            match next.after(1) {
                Ok(last) => {
                    assert(last.stack =~= m.stack.push(prefix(i, v)->Ok_0));
                },
                Err(_) => {},
            }
        },
        Err(_) => {},
    }
}

/// The values of two operands, and then an instruction that works on both.
proof fn lemma_binary(m: Machine, n1: nat, n2: nat, a: Value, b: Value, i: Instr)
    requires
        agree(m, n1, a),
        m.after(n1) is Ok ==> agree(m.after(n1)->Ok_0, n2, b),
        n1 + n2 < m.code.len(),
        m.code[(n1 + n2) as int] == i,
        is_binary(i),
    ensures
        match m.after(n1 + n2 + 1) {
            Ok(last) => binary_result(i, a, b) is Ok && pushed(
                m,
                n1 + n2 + 1,
                binary_result(i, a, b)->Ok_0,
                last,
            ),
            Err(_) => true,
        },
{
    after_add(m, n1, n2 + 1);
    match m.after(n1) {
        Ok(first) => {
            after_add(first, n2, 1);
            match first.after(n2) {
                Ok(second) => {
                    assert(second.code =~= m.code.skip((n1 + n2) as int));
                    after_one(second);
                    assert(second.code.skip(1) =~= m.code.skip((n1 + n2 + 1) as int));
                    match second.after(1) {
                        Ok(last) => {
                            assert(last.stack =~= m.stack.push(binary_result(i, a, b)->Ok_0));
                        },
                        Err(_) => {},
                    }
                },
                Err(_) => {},
            }
        },
        Err(_) => {},
    }
}

/// Values on the stack, and then one more.
proof fn lemma_stacked_more(m: Machine, n1: nat, values: Seq<Value>, n2: nat, v: Value)
    requires
        n1 + n2 <= m.code.len(),
        stacked(m, n1, values),
        m.after(n1) is Ok ==> agree(m.after(n1)->Ok_0, n2, v),
    ensures
        stacked(m, n1 + n2, values.push(v)),
{
    after_add(m, n1, n2);
    match m.after(n1) {
        Ok(first) => {
            match first.after(n2) {
                Ok(last) => {
                    assert(m.code.skip(n1 as int).skip(n2 as int) =~= m.code.skip(
                        (n1 + n2) as int,
                    ));
                    assert(last.stack =~= m.stack + values.push(v));
                },
                Err(_) => {},
            }
        },
        Err(_) => {},
    }
}

/// The values of the items, and then the instruction that makes an array
/// of them.
proof fn lemma_array(m: Machine, n: nat, values: Seq<Value>)
    requires
        stacked(m, n, values),
        n < m.code.len(),
        values.len() <= usize::MAX,
        m.code[n as int] == Instr::Array(values.len() as usize),
    ensures
        agree(m, n + 1, Value::Array(values)),
{
    after_add(m, n, 1);
    match m.after(n) {
        Ok(next) => {
            after_one(next);
            assert(next.code.skip(1) =~= m.code.skip((n + 1) as int));
            match next.after(1) {
                Ok(last) => {
                    let size = values.len() as int;
                    assert(next.stack.take(next.stack.len() - size) =~= m.stack);
                    assert(next.stack.skip(next.stack.len() - size) =~= values);
                    assert(last.stack =~= m.stack.push(Value::Array(values)));
                },
                Err(_) => {},
            }
        },
        Err(_) => {},
    }
}

/// Statements that leave nothing, then a value, and then the `Pop` that
/// takes it: nothing is left.
proof fn lemma_popped(m: Machine, n1: nat, n2: nat, v: Value)
    requires
        pass(m, n1),
        m.after(n1) is Ok ==> agree(m.after(n1)->Ok_0, n2, v),
        n1 + n2 < m.code.len(),
        m.code[(n1 + n2) as int] == Instr::Pop,
    ensures
        pass(m, n1 + n2 + 1),
{
    after_add(m, n1, n2 + 1);
    match m.after(n1) {
        Ok(first) => {
            after_add(first, n2, 1);
            match first.after(n2) {
                Ok(second) => {
                    assert(second.code =~= m.code.skip((n1 + n2) as int));
                    after_one(second);
                    assert(second.code.skip(1) =~= m.code.skip((n1 + n2 + 1) as int));
                    match second.after(1) {
                        Ok(last) => {
                            assert(last.stack =~= m.stack);
                        },
                        Err(_) => {},
                    }
                },
                Err(_) => {},
            }
        },
        Err(_) => {},
    }
}

/// Statements that leave nothing, and then a value.
proof fn lemma_passed_then(m: Machine, n1: nat, n2: nat, v: Value)
    requires
        n1 + n2 <= m.code.len(),
        pass(m, n1),
        m.after(n1) is Ok ==> agree(m.after(n1)->Ok_0, n2, v),
    ensures
        agree(m, n1 + n2, v),
{
    after_add(m, n1, n2);
    match m.after(n1) {
        Ok(first) => {
            match first.after(n2) {
                Ok(last) => {
                    assert(m.code.skip(n1 as int).skip(n2 as int) =~= m.code.skip(
                        (n1 + n2) as int,
                    ));
                },
                Err(_) => {},
            }
        },
        Err(_) => {},
    }
}

/// The way of the machine through the consequence of a conditional: the
/// consequence leaves its value, and the jump behind it passes over what
/// is left of the conditional.
proof fn lemma_consequence_way(m: Machine, n: nat, rest: nat, v: Value)
    requires
        agree(m, n, v),
        rest <= usize::MAX,
        n + 1 + rest <= m.code.len(),
        m.code[n as int] == Instr::Jump(rest as usize),
    ensures
        agree(m, n + 1 + rest, v),
{
    after_add(m, n, 1 + rest);
    match m.after(n) {
        Ok(first) => {
            after_add(first, 1, rest);
            after_one(first);
            let second = first.after(1)->Ok_0;
            after_jump(second);
            assert(first.code.skip(1).skip(rest as int) =~= m.code.skip((n + 1 + rest) as int));
        },
        Err(_) => {},
    }
}

/// The way of the machine to the alternative of a conditional: it passes
/// over the consequence and the jump behind it, and the alternative leaves
/// its value.
proof fn lemma_alternative_way(m: Machine, over: nat, n: nat, v: Value)
    requires
        m.jump == over,
        over + n <= m.code.len(),
        agree(Machine { code: m.code.skip(over as int), jump: 0, ..m }, n, v),
    ensures
        agree(m, over + n, v),
{
    after_jump(m);
    after_add(m, over, n);
    assert(m.code.skip(over as int).skip(n as int) =~= m.code.skip((over + n) as int));
}

/// The value of the condition, and behind it one of the two ways through
/// what is left of the conditional, which leaves the value `v`.
proof fn lemma_conditional(m: Machine, n1: nat, cv: Value, offset: usize, n: nat, v: Value)
    requires
        agree(m, n1, cv),
        n1 + 1 + n <= m.code.len(),
        m.code[n1 as int] == Instr::JumpNotTruthy(offset),
        m.after(n1) is Ok ==> agree(
            Machine {
                code: m.code.skip((n1 + 1) as int),
                stack: m.stack,
                jump: if truthy(cv) {
                    0
                } else {
                    offset as nat
                },
                ..m.after(n1)->Ok_0
            },
            n,
            v,
        ),
    ensures
        agree(m, n1 + 1 + n, v),
{
    after_add(m, n1, 1 + n);
    match m.after(n1) {
        Ok(first) => {
            after_add(first, 1, n);
            after_one(first);
            assert(first.code.skip(1) =~= m.code.skip((n1 + 1) as int));
            assert(first.stack.drop_last() =~= m.stack);
            let second = first.after(1)->Ok_0;
            match second.after(n) {
                Ok(last) => {
                    assert(last.code =~= m.code.skip((n1 + 1 + n) as int));
                },
                Err(_) => {},
            }
        },
        Err(_) => {},
    }
}

/// The texts of the operators are different texts.
proof fn lemma_operator_texts()
    ensures
        seq!['-'] != seq!['!'],
        seq!['['] != seq!['+'],
        seq!['['] != seq!['-'],
        seq!['['] != seq!['*'],
        seq!['['] != seq!['/'],
        seq!['['] != seq!['<'],
        seq!['['] != seq!['>'],
        seq!['['] != seq!['=', '='],
        seq!['['] != seq!['!', '='],
        seq!['+'] != seq!['-'],
        seq!['+'] != seq!['*'],
        seq!['+'] != seq!['/'],
        seq!['+'] != seq!['<'],
        seq!['+'] != seq!['>'],
        seq!['+'] != seq!['=', '='],
        seq!['+'] != seq!['!', '='],
        seq!['-'] != seq!['*'],
        seq!['-'] != seq!['/'],
        seq!['-'] != seq!['<'],
        seq!['-'] != seq!['>'],
        seq!['-'] != seq!['=', '='],
        seq!['-'] != seq!['!', '='],
        seq!['*'] != seq!['/'],
        seq!['*'] != seq!['<'],
        seq!['*'] != seq!['>'],
        seq!['*'] != seq!['=', '='],
        seq!['*'] != seq!['!', '='],
        seq!['/'] != seq!['<'],
        seq!['/'] != seq!['>'],
        seq!['/'] != seq!['=', '='],
        seq!['/'] != seq!['!', '='],
        seq!['<'] != seq!['>'],
        seq!['<'] != seq!['=', '='],
        seq!['<'] != seq!['!', '='],
        seq!['>'] != seq!['=', '='],
        seq!['>'] != seq!['!', '='],
        seq!['=', '='] != seq!['!', '='],
{
    assert(seq!['-'][0] == '-' && seq!['!'][0] == '!' && seq!['['][0] == '[' && seq!['+'][0]
        == '+' && seq!['*'][0] == '*' && seq!['/'][0] == '/' && seq!['<'][0] == '<' && seq![
        '>',
    ][0] == '>' && seq!['=', '='][0] == '=' && seq!['!', '='][0] == '!');
    assert(seq!['-'].len() == 1 && seq!['!', '='].len() == 2);
}

/// Where both ways of running a prefix operator give a value, it is the
/// same, and no returned one.
proof fn lemma_prefix_values(op: Seq<char>, v: Value)
    requires
        prefix_instr(op) is Some,
        prefix_value(op, v) is Ok,
        prefix(prefix_instr(op)->0, v) is Ok,
    ensures
        prefix(prefix_instr(op)->0, v)->Ok_0 == prefix_value(op, v)->Ok_0,
        !(prefix_value(op, v)->Ok_0 is Return),
{
    lemma_operator_texts();
}

/// Where both ways of running an infix operator give a value, it is the
/// same, and no returned one. The operator is none that the evaluator does
/// not know.
proof fn lemma_infix_values(op: Seq<char>, a: Value, b: Value)
    requires
        infix_instr(op) is Some,
        infix_value(op, a, b) is Ok,
    ensures
        is_binary(infix_instr(op)->0),
        binary_result(infix_instr(op)->0, a, b) is Ok ==> binary_result(
            infix_instr(op)->0,
            a,
            b,
        )->Ok_0 == infix_value(op, a, b)->Ok_0,
        !(infix_value(op, a, b)->Ok_0 is Return),
{
    lemma_operator_texts();
}

/// Compiling a block of expression statements of pure expressions leaves
/// the symbol table as it is.
proof fn lemma_block_keeps_table(block: Stmt, t: Table)
    requires
        pure_block(block),
        emit_statement(block, t) is Ok,
    ensures
        emit_statement(block, t)->Ok_0.table == t,
    decreases block, 3nat,
{
    let ss = block->Block_0;
    statement_parts_are_smaller(block);
    assert(emit_statement(block, t) == emit_statements(ss, t));
    assert(ss.take(ss.len() as int) =~= ss);
    lemma_statements_keep_table(ss, ss.len(), t);
}

/// Compiling expression statements of pure expressions leaves the symbol
/// table as it is.
proof fn lemma_statements_keep_table(ss: Seq<Stmt>, n: nat, t: Table)
    requires
        n <= ss.len(),
        forall|i: int| 0 <= i < ss.len() ==> pure_statement(#[trigger] ss[i]),
        emit_statements(ss.take(n as int), t) is Ok,
    ensures
        emit_statements(ss.take(n as int), t)->Ok_0.table == t,
    decreases ss, n,
{
    if n > 0 {
        assert(ss.take(n as int).drop_last() =~= ss.take(n - 1));
        assert(ss.take(n as int).last() == ss[n - 1]);
        assert(emit_statements(ss.take(n - 1), t) is Ok);
        lemma_statements_keep_table(ss, (n - 1) as nat, t);
        assert(pure_statement(ss[n - 1]));
        let e = ss[n - 1]->Expr_0;
        assert(emit_statement(ss[n - 1], t) is Ok);
        assert(emit_expression(e, t) is Ok);
        lemma_expression_keeps_table(e, t);
    }
}

/// Compiling a pure expression leaves the symbol table as it is.
proof fn lemma_expression_keeps_table(e: Expr, t: Table)
    requires
        pure(e),
        emit_expression(e, t) is Ok,
    ensures
        emit_expression(e, t)->Ok_0.table == t,
    decreases e, 4nat,
{
    match e {
        Expr::Array(items) => {
            assert(items.take(items.len() as int) =~= items);
            lemma_expressions_keep_table(items, items.len(), t);
        },
        Expr::Prefix { operator, expr } => {
            lemma_expression_keeps_table(*expr, t);
        },
        Expr::Infix { operator, left, right } => {
            lemma_expression_keeps_table(*left, t);
            lemma_expression_keeps_table(*right, t);
        },
        Expr::If { condition, consequence, alternative } => {
            lemma_expression_keeps_table(*condition, t);
            lemma_block_keeps_table(*consequence, t);
            if pure_block(*alternative) {
                lemma_block_keeps_table(*alternative, t);
            } else {
                assert(emit_statement(*alternative, t) == emit_statements(
                    Seq::<Stmt>::empty(),
                    t,
                ));
            }
        },
        _ => {},
    }
}

/// Compiling a list of pure expressions leaves the symbol table as it is.
proof fn lemma_expressions_keep_table(es: Seq<Expr>, n: nat, t: Table)
    requires
        n <= es.len(),
        forall|i: int| 0 <= i < es.len() ==> pure(#[trigger] es[i]),
        emit_expressions(es.take(n as int), t) is Ok,
    ensures
        emit_expressions(es.take(n as int), t)->Ok_0.table == t,
    decreases es, n,
{
    if n > 0 {
        assert(es.take(n as int).drop_last() =~= es.take(n - 1));
        assert(es.take(n as int).last() == es[n - 1]);
        assert(emit_expressions(es.take(n - 1), t) is Ok);
        lemma_expressions_keep_table(es, (n - 1) as nat, t);
        assert(emit_expression(es[n - 1], t) is Ok);
        lemma_expression_keeps_table(es[n - 1], t);
    }
}


/// A part at the start of the instructions that the machine begins with
/// is what the machine begins with.
proof fn lemma_ready_first(m: Machine, whole: Seq<Instr>, part: Seq<Instr>)
    requires
        ready(m, whole),
        part.len() <= whole.len(),
        whole.take(part.len() as int) == part,
    ensures
        ready(m, part),
{
    assert(m.code.take(part.len() as int) =~= whole.take(part.len() as int));
}

/// The texts of the two boolean literals are different texts.
proof fn lemma_boolean_texts()
    ensures
        seq!['t', 'r', 'u', 'e'] != seq!['f', 'a', 'l', 's', 'e'],
{
    assert(seq!['t', 'r', 'u', 'e'].len() == 4);
    assert(seq!['f', 'a', 'l', 's', 'e'].len() == 5);
}

/// A literal, an array, an operator or a conditional that is made of such
/// alone gives the same value both ways: where the evaluator gives a
/// value, the machine that runs the compiled instructions leaves that
/// value on its stack, unless a fault stops it. The evaluator leaves its
/// environment as it was, and the compiler its symbol table.
pub proof fn expression_agrees(e: Expr, t: Table, env: Env, depth: nat, m: Machine)
    requires
        pure(e),
        emit_expression(e, t) is Ok,
        emit_expression(e, t)->Ok_0.code.len() <= usize::MAX,
        eval_expression(e, env, depth) is Ok,
        ready(m, emit_expression(e, t)->Ok_0.code),
    ensures
        emit_expression(e, t)->Ok_0.code.len() > 0,
        emit_expression(e, t)->Ok_0.table == t,
        eval_expression(e, env, depth)->Ok_0.1 == env,
        !(eval_expression(e, env, depth)->Ok_0.0 is Return),
        agree(
            m,
            emit_expression(e, t)->Ok_0.code.len(),
            eval_expression(e, env, depth)->Ok_0.0,
        ),
    decreases e, 2nat,
{
    reveal(eval_expression);
    reveal(eval_array);
    reveal(eval_prefix);
    reveal(eval_infix);
    reveal(eval_if);
    let code = emit_expression(e, t)->Ok_0.code;
    let v = eval_expression(e, env, depth)->Ok_0.0;
    match e {
        Expr::Array(items) => {
            array_agrees(items, t, env, depth, m);
        },
        Expr::Prefix { operator, expr } => {
            prefix_agrees(operator, *expr, t, env, depth, m);
        },
        Expr::Infix { operator, left, right } => {
            infix_agrees(operator, *left, *right, t, env, depth, m);
        },
        Expr::If { condition, consequence, alternative } => {
            conditional_agrees(*condition, *consequence, *alternative, t, env, depth, m);
        },
        Expr::Bool(text) => {
            lemma_boolean_texts();
            lemma_literal(m, bool_instr(text)->0, v);
        },
        _ => {
            lemma_literal(m, Instr::Constant(v), v);
        },
    }
}

/// A prefix operator on a pure operand gives the same value both ways.
proof fn prefix_agrees(op: Seq<char>, expr: Expr, t: Table, env: Env, depth: nat, m: Machine)
    requires
        pure(Expr::prefix(op, expr)),
        emit_expression(Expr::prefix(op, expr), t) is Ok,
        emit_expression(Expr::prefix(op, expr), t)->Ok_0.code.len() <= usize::MAX,
        eval_prefix(op, expr, env, depth) is Ok,
        ready(m, emit_expression(Expr::prefix(op, expr), t)->Ok_0.code),
    ensures
        emit_expression(Expr::prefix(op, expr), t)->Ok_0.code.len() > 0,
        emit_expression(Expr::prefix(op, expr), t)->Ok_0.table == t,
        eval_prefix(op, expr, env, depth)->Ok_0.1 == env,
        !(eval_prefix(op, expr, env, depth)->Ok_0.0 is Return),
        agree(
            m,
            emit_expression(Expr::prefix(op, expr), t)->Ok_0.code.len(),
            eval_prefix(op, expr, env, depth)->Ok_0.0,
        ),
    decreases Expr::prefix(op, expr), 1nat,
{
    reveal(eval_prefix);
    reveal(eval_expression);
    parts_are_smaller(Expr::prefix(op, expr));
    let code = emit_expression(Expr::prefix(op, expr), t)->Ok_0.code;
    let operand = emit_expression(expr, t)->Ok_0.code;
    let i = prefix_instr(op)->0;
    assert(code == operand.push(i));
    assert(code.take(operand.len() as int) =~= operand);
    lemma_ready_first(m, code, operand);
    expression_agrees(expr, t, env, depth, m);
    let v = eval_expression(expr, env, depth)->Ok_0.0;
    assert(m.code[operand.len() as int] == code[operand.len() as int]);
    lemma_unary(m, operand.len(), v, i);
    if m.after(operand.len() + 1) is Ok {
        lemma_prefix_values(op, v);
    } else {
        lemma_operator_texts();
    }
}

/// An infix operator between pure operands gives the same value both ways.
proof fn infix_agrees(
    op: Seq<char>,
    left: Expr,
    right: Expr,
    t: Table,
    env: Env,
    depth: nat,
    m: Machine,
)
    requires
        pure(Expr::infix(op, left, right)),
        emit_expression(Expr::infix(op, left, right), t) is Ok,
        emit_expression(Expr::infix(op, left, right), t)->Ok_0.code.len() <= usize::MAX,
        eval_infix(op, left, right, env, depth) is Ok,
        ready(m, emit_expression(Expr::infix(op, left, right), t)->Ok_0.code),
    ensures
        emit_expression(Expr::infix(op, left, right), t)->Ok_0.code.len() > 0,
        emit_expression(Expr::infix(op, left, right), t)->Ok_0.table == t,
        eval_infix(op, left, right, env, depth)->Ok_0.1 == env,
        !(eval_infix(op, left, right, env, depth)->Ok_0.0 is Return),
        agree(
            m,
            emit_expression(Expr::infix(op, left, right), t)->Ok_0.code.len(),
            eval_infix(op, left, right, env, depth)->Ok_0.0,
        ),
    decreases Expr::infix(op, left, right), 1nat,
{
    reveal(eval_infix);
    reveal(eval_expression);
    parts_are_smaller(Expr::infix(op, left, right));
    let code = emit_expression(Expr::infix(op, left, right), t)->Ok_0.code;
    let l = emit_expression(left, t)->Ok_0.code;
    assert(code.take(l.len() as int) =~= l);
    lemma_ready_first(m, code, l);
    expression_agrees(left, t, env, depth, m);
    let r = emit_expression(right, t)->Ok_0.code;
    let i = infix_instr(op)->0;
    assert(code == (l + r).push(i));
    let a = eval_expression(left, env, depth)->Ok_0.0;
    let b = eval_expression(right, env, depth)->Ok_0.0;
    if m.after(l.len()) is Ok {
        let first = m.after(l.len())->Ok_0;
        assert(code.subrange(l.len() as int, (l.len() + r.len()) as int) =~= r);
        lemma_ready_at(m, l.len(), code, r, first);
        expression_agrees(right, t, env, depth, first);
    } else {
        lemma_right_is_pure(right, t, env, depth);
    }
    lemma_infix_values(op, a, b);
    assert(m.code[(l.len() + r.len()) as int] == code[(l.len() + r.len()) as int]);
    lemma_binary(m, l.len(), r.len(), a, b, i);
}

/// What holds of a pure expression whatever the machine does: the code is
/// not empty, the table and the environment stay, and the value is no
/// returned one.
proof fn lemma_right_is_pure(e: Expr, t: Table, env: Env, depth: nat)
    requires
        pure(e),
        emit_expression(e, t) is Ok,
        emit_expression(e, t)->Ok_0.code.len() <= usize::MAX,
        eval_expression(e, env, depth) is Ok,
    ensures
        emit_expression(e, t)->Ok_0.code.len() > 0,
        emit_expression(e, t)->Ok_0.table == t,
        eval_expression(e, env, depth)->Ok_0.1 == env,
        !(eval_expression(e, env, depth)->Ok_0.0 is Return),
    decreases e, 3nat,
{
    let code = emit_expression(e, t)->Ok_0.code;
    let m = Machine {
        frames: Seq::empty(),
        code,
        stack: Seq::empty(),
        last_popped: None,
        jump: 0,
        globals: Map::empty(),
    };
    assert(code.take(code.len() as int) =~= code);
    expression_agrees(e, t, env, depth, m);
}

/// The items of an array give the same values both ways.
proof fn items_agree(items: Seq<Expr>, n: nat, t: Table, env: Env, depth: nat, m: Machine)
    requires
        n <= items.len(),
        forall|i: int| 0 <= i < items.len() ==> pure(#[trigger] items[i]),
        emit_expressions(items.take(n as int), t) is Ok,
        emit_expressions(items.take(n as int), t)->Ok_0.code.len() <= usize::MAX,
        eval_items(items, n, env, depth) is Ok,
        ready(m, emit_expressions(items.take(n as int), t)->Ok_0.code),
    ensures
        emit_expressions(items.take(n as int), t)->Ok_0.table == t,
        eval_items(items, n, env, depth)->Ok_0.1 == env,
        eval_items(items, n, env, depth)->Ok_0.0.len() == n,
        stacked(
            m,
            emit_expressions(items.take(n as int), t)->Ok_0.code.len(),
            eval_items(items, n, env, depth)->Ok_0.0,
        ),
    decreases items, n,
{
    reveal(eval_items);
    reveal(eval_expression);
    let code = emit_expressions(items.take(n as int), t)->Ok_0.code;
    if n == 0 {
        assert(m.code.skip(0) =~= m.code);
        assert(m.stack + Seq::<Value>::empty() =~= m.stack);
    } else {
        assert(items.take(n as int).drop_last() =~= items.take(n - 1));
        assert(items.take(n as int).last() == items[n - 1]);
        let front = emit_expressions(items.take(n - 1), t)->Ok_0.code;
        assert(code.take(front.len() as int) =~= front);
        lemma_ready_first(m, code, front);
        items_agree(items, (n - 1) as nat, t, env, depth, m);
        let item = emit_expression(items[n - 1], t)->Ok_0.code;
        assert(code == front + item);
        let values = eval_items(items, (n - 1) as nat, env, depth)->Ok_0.0;
        let v = eval_expression(items[n - 1], env, depth)->Ok_0.0;
        if m.after(front.len()) is Ok {
            let first = m.after(front.len())->Ok_0;
            assert(code.subrange(front.len() as int, (front.len() + item.len()) as int) =~= item);
            lemma_ready_at(m, front.len(), code, item, first);
            expression_agrees(items[n - 1], t, env, depth, first);
        } else {
            lemma_right_is_pure(items[n - 1], t, env, depth);
        }
        lemma_stacked_more(m, front.len(), values, item.len(), v);
    }
}

/// An array of pure items gives the same value both ways.
proof fn array_agrees(items: Seq<Expr>, t: Table, env: Env, depth: nat, m: Machine)
    requires
        pure(Expr::Array(items)),
        emit_expression(Expr::Array(items), t) is Ok,
        emit_expression(Expr::Array(items), t)->Ok_0.code.len() <= usize::MAX,
        eval_array(items, env, depth) is Ok,
        ready(m, emit_expression(Expr::Array(items), t)->Ok_0.code),
    ensures
        emit_expression(Expr::Array(items), t)->Ok_0.code.len() > 0,
        emit_expression(Expr::Array(items), t)->Ok_0.table == t,
        eval_array(items, env, depth)->Ok_0.1 == env,
        !(eval_array(items, env, depth)->Ok_0.0 is Return),
        agree(
            m,
            emit_expression(Expr::Array(items), t)->Ok_0.code.len(),
            eval_array(items, env, depth)->Ok_0.0,
        ),
    decreases Expr::Array(items), 1nat,
{
    reveal(eval_array);
    reveal(eval_items);
    parts_are_smaller(Expr::Array(items));
    let code = emit_expression(Expr::Array(items), t)->Ok_0.code;
    assert(items.take(items.len() as int) =~= items);
    let inner = emit_expressions(items, t)->Ok_0.code;
    assert(code == inner.push(Instr::Array(items.len() as usize)));
    assert(code.take(inner.len() as int) =~= inner);
    lemma_ready_first(m, code, inner);
    items_agree(items, items.len(), t, env, depth, m);
    assert(m.code[inner.len() as int] == code[inner.len() as int]);
    lemma_array(m, inner.len(), eval_items(items, items.len(), env, depth)->Ok_0.0);
}

/// The first statements of a block of expression statements leave the
/// stack of the machine as it was, and the environment of the evaluator
/// too.
proof fn statements_pass(ss: Seq<Stmt>, n: nat, t: Table, env: Env, depth: nat, m: Machine)
    requires
        n <= ss.len(),
        forall|i: int| 0 <= i < ss.len() ==> pure_statement(#[trigger] ss[i]),
        emit_statements(ss.take(n as int), t) is Ok,
        emit_statements(ss.take(n as int), t)->Ok_0.code.len() <= usize::MAX,
        eval_statements(ss, n, env, depth) is Ok,
        ready(m, emit_statements(ss.take(n as int), t)->Ok_0.code),
    ensures
        emit_statements(ss.take(n as int), t)->Ok_0.table == t,
        eval_statements(ss, n, env, depth)->Ok_0.1 == env,
        !(eval_statements(ss, n, env, depth)->Ok_0.0 is Return),
        n > 0 ==> eval_statements(ss, n, env, depth) == eval_expression(
            ss[n - 1]->Expr_0,
            env,
            depth,
        ),
        pass(m, emit_statements(ss.take(n as int), t)->Ok_0.code.len()),
    decreases ss, n,
{
    let code = emit_statements(ss.take(n as int), t)->Ok_0.code;
    if n == 0 {
        lemma_statement_unfold(ss, arbitrary(), env, depth);
        assert(m.code.skip(0) =~= m.code);
    } else {
        assert(ss.take(n as int).drop_last() =~= ss.take(n - 1));
        assert(ss.take(n as int).last() == ss[n - 1]);
        assert(pure_statement(ss[n - 1]));
        let e = ss[n - 1]->Expr_0;
        lemma_statements_unfold(ss, n, env, depth);
        lemma_statement_unfold(ss, e, env, depth);
        let front = emit_statements(ss.take(n - 1), t)->Ok_0.code;
        assert(code.take(front.len() as int) =~= front);
        lemma_ready_first(m, code, front);
        statements_pass(ss, (n - 1) as nat, t, env, depth, m);
        let value = emit_expression(e, t)->Ok_0.code;
        assert(emit_statement(ss[n - 1], t)->Ok_0.code == value.push(Instr::Pop));
        assert(code == front + value.push(Instr::Pop));
        let v = eval_expression(e, env, depth)->Ok_0.0;
        if m.after(front.len()) is Ok {
            let first = m.after(front.len())->Ok_0;
            assert(code.subrange(front.len() as int, (front.len() + value.len()) as int)
                =~= value);
            lemma_ready_at(m, front.len(), code, value, first);
            expression_agrees(e, t, env, depth, first);
        } else {
            lemma_right_is_pure(e, t, env, depth);
        }
        assert(m.code[(front.len() + value.len()) as int] == code[(front.len()
            + value.len()) as int]);
        lemma_popped(m, front.len(), value.len(), v);
    }
}

/// A branch that is a block of expression statements gives the same value
/// both ways: that of its last statement.
proof fn block_agrees(block: Stmt, t: Table, env: Env, depth: nat, m: Machine)
    requires
        pure_block(block),
        emit_statement(block, t) is Ok,
        emit_statement(block, t)->Ok_0.code.len() <= usize::MAX,
        eval_block(block, env, depth) is Ok,
        ready(m, branch_code(emit_statement(block, t)->Ok_0.code)),
    ensures
        branch_code(emit_statement(block, t)->Ok_0.code).len() > 0,
        emit_statement(block, t)->Ok_0.table == t,
        eval_block(block, env, depth)->Ok_0.1 == env,
        !(eval_block(block, env, depth)->Ok_0.0 is Return),
        agree(
            m,
            branch_code(emit_statement(block, t)->Ok_0.code).len(),
            eval_block(block, env, depth)->Ok_0.0,
        ),
    decreases block, 2nat,
{
    statement_parts_are_smaller(block);
    let ss = block->Block_0;
    let n = ss.len();
    lemma_statement_unfold(ss, ss[n - 1]->Expr_0, env, depth);
    lemma_statements_unfold(ss, n, env, depth);
    assert(emit_statement(block, t) == emit_statements(ss, t));
    assert(ss.take(n - 1) =~= ss.drop_last());
    assert(pure_statement(ss[n - 1]));
    let e = ss[n - 1]->Expr_0;
    let front = emit_statements(ss.drop_last(), t)->Ok_0.code;
    let code = branch_code(emit_statement(block, t)->Ok_0.code);
    lemma_statements_keep_table(ss, (n - 1) as nat, t);
    let value = emit_expression(e, t)->Ok_0.code;
    assert(emit_statement(ss.last(), t)->Ok_0.code == value.push(Instr::Pop));
    assert(code =~= front + value);
    assert(code.take(front.len() as int) =~= front);
    lemma_ready_first(m, code, front);
    statements_pass(ss, (n - 1) as nat, t, env, depth, m);
    let v = eval_expression(e, env, depth)->Ok_0.0;
    if m.after(front.len()) is Ok {
        let first = m.after(front.len())->Ok_0;
        assert(code.subrange(front.len() as int, (front.len() + value.len()) as int) =~= value);
        lemma_ready_at(m, front.len(), code, value, first);
        expression_agrees(e, t, env, depth, first);
    } else {
        lemma_right_is_pure(e, t, env, depth);
    }
    lemma_passed_then(m, front.len(), value.len(), v);
}

/// What the evaluator makes of the first statements of a block: it
/// evaluates all but the last of them, and then the last in the environment
/// that they have left, unless one of them has returned.
proof fn lemma_statements_unfold(ss: Seq<Stmt>, n: nat, env: Env, depth: nat)
    requires
        0 < n <= ss.len(),
        eval_statements(ss, n, env, depth) is Ok,
    ensures
        eval_statements(ss, (n - 1) as nat, env, depth) is Ok,
        !(eval_statements(ss, (n - 1) as nat, env, depth)->Ok_0.0 is Return)
            ==> eval_statements(ss, n, env, depth) == eval_statement(
            ss[n - 1],
            eval_statements(ss, (n - 1) as nat, env, depth)->Ok_0.1,
            depth,
        ),
{
    reveal(eval_statements);
    reveal(eval_statement);
}

/// What the evaluator makes of no statements, of an expression statement,
/// and of a block.
proof fn lemma_statement_unfold(ss: Seq<Stmt>, e: Expr, env: Env, depth: nat)
    ensures
        eval_statements(ss, 0, env, depth) == Ok::<(Value, Env), Halt>((Value::Null, env)),
        eval_statement(Stmt::Expr(e), env, depth) == eval_expression(e, env, depth),
        eval_block(Stmt::Block(ss), env, depth) == eval_statements(ss, ss.len(), env, depth),
{
    reveal(eval_statements);
    reveal(eval_statement);
    reveal(eval_expression);
    reveal(eval_block);
}

/// What the evaluator makes of a conditional: of the alternative where the
/// condition is `false` or `Null`, and of the consequence where not.
proof fn lemma_if_unfold(
    condition: Expr,
    consequence: Stmt,
    alternative: Stmt,
    env: Env,
    depth: nat,
)
    ensures
        eval_if(condition, consequence, alternative, env, depth) == (match eval_expression(
            condition,
            env,
            depth,
        ) {
            Ok((c, after)) => if truthy(c) {
                eval_block(consequence, after, depth)
            } else {
                eval_block(alternative, after, depth)
            },
            Err(h) => Err(h),
        }),
{
    reveal(eval_if);
    reveal(eval_expression);
    reveal(eval_block);
}

/// A pure conditional gives the same value both ways.
proof fn conditional_agrees(
    condition: Expr,
    consequence: Stmt,
    alternative: Stmt,
    t: Table,
    env: Env,
    depth: nat,
    m: Machine,
)
    requires
        pure(Expr::conditional(condition, consequence, alternative)),
        emit_expression(Expr::conditional(condition, consequence, alternative), t) is Ok,
        emit_expression(
            Expr::conditional(condition, consequence, alternative),
            t,
        )->Ok_0.code.len() <= usize::MAX,
        eval_if(condition, consequence, alternative, env, depth) is Ok,
        ready(m, emit_expression(Expr::conditional(condition, consequence, alternative), t)->Ok_0.code),
    ensures
        emit_expression(Expr::conditional(condition, consequence, alternative), t)->Ok_0.code.len()
            > 0,
        emit_expression(Expr::conditional(condition, consequence, alternative), t)->Ok_0.table == t,
        eval_if(condition, consequence, alternative, env, depth)->Ok_0.1 == env,
        !(eval_if(condition, consequence, alternative, env, depth)->Ok_0.0 is Return),
        agree(
            m,
            emit_expression(
                Expr::conditional(condition, consequence, alternative),
                t,
            )->Ok_0.code.len(),
            eval_if(condition, consequence, alternative, env, depth)->Ok_0.0,
        ),
    decreases Expr::conditional(condition, consequence, alternative), 1nat,
{
    let whole = Expr::conditional(condition, consequence, alternative);
    lemma_if_unfold(condition, consequence, alternative, env, depth);
    parts_are_smaller(whole);
    let code = emit_expression(whole, t)->Ok_0.code;
    lemma_conditional_code(condition, consequence, alternative, t);
    let cc = emit_expression(condition, t)->Ok_0.code;
    let k = emit_statement(consequence, t)->Ok_0.code;
    let a = emit_statement(alternative, t)->Ok_0.code;
    lemma_conditional_parts(cc, k, a);
    let k1 = branch_code(k);
    let a1 = branch_code(a);
    let pad = branch_padding(a1);
    let x = (k1.len() + 1) as usize;
    let n = (k1.len() + 1 + a1.len() + pad.len()) as nat;
    // The condition.
    lemma_ready_first(m, code, cc);
    expression_agrees(condition, t, env, depth, m);
    let cv = eval_expression(condition, env, depth)->Ok_0.0;
    let v = eval_if(condition, consequence, alternative, env, depth)->Ok_0.0;
    assert(m.code[cc.len() as int] == code[cc.len() as int]);
    // What stands behind the conditional jump.
    let first = if m.after(cc.len()) is Ok {
        m.after(cc.len())->Ok_0
    } else {
        m
    };
    let second = Machine {
        code: m.code.skip(cc.len() as int + 1),
        stack: m.stack,
        jump: if truthy(cv) {
            0
        } else {
            x as nat
        },
        ..first
    };
    assert(second.code.take(n as int) =~= code.skip(cc.len() as int + 1));
    behind_condition_agrees(whole, consequence, alternative, t, env, depth, cv, second);
    lemma_conditional(m, cc.len(), cv, x, n, v);
}

/// How the instructions of a conditional are laid out: the condition, the
/// conditional jump, and behind it the consequence, the jump to the end,
/// the alternative and the padding.
proof fn lemma_conditional_parts(cc: Seq<Instr>, k: Seq<Instr>, a: Seq<Instr>)
    requires
        conditional_code(cc, k, a).len() <= usize::MAX,
    ensures
        ({
            let code = conditional_code(cc, k, a);
            let k1 = branch_code(k);
            let a1 = branch_code(a);
            let pad = branch_padding(a1);
            let y = a1.len() + pad.len();
            &&& code.len() == cc.len() + 1 + k1.len() + 1 + y
            &&& k.len() <= usize::MAX
            &&& a.len() <= usize::MAX
            &&& code.take(cc.len() as int) == cc
            &&& code[cc.len() as int] == Instr::JumpNotTruthy((k1.len() + 1) as usize)
            &&& code.skip(cc.len() as int + 1) == k1.push(Instr::Jump(y as usize)) + (a1 + pad)
        }),
{
    let code = conditional_code(cc, k, a);
    let k1 = branch_code(k);
    let a1 = branch_code(a);
    let pad = branch_padding(a1);
    let y = a1.len() + pad.len();
    assert(code.take(cc.len() as int) =~= cc);
    assert(code.skip(cc.len() as int + 1) =~= k1.push(Instr::Jump(y as usize)) + (a1 + pad));
}

/// The instructions of a pure conditional are laid out from those of its
/// three parts, each compiled in the table of the conditional.
proof fn lemma_conditional_code(condition: Expr, consequence: Stmt, alternative: Stmt, t: Table)
    requires
        pure(Expr::conditional(condition, consequence, alternative)),
        emit_expression(Expr::conditional(condition, consequence, alternative), t) is Ok,
    ensures
        emit_expression(condition, t) is Ok,
        emit_statement(consequence, t) is Ok,
        emit_statement(alternative, t) is Ok,
        emit_expression(Expr::conditional(condition, consequence, alternative), t)->Ok_0.table == t,
        emit_expression(Expr::conditional(condition, consequence, alternative), t)->Ok_0.code
            == conditional_code(
            emit_expression(condition, t)->Ok_0.code,
            emit_statement(consequence, t)->Ok_0.code,
            emit_statement(alternative, t)->Ok_0.code,
        ),
{
    lemma_expression_keeps_table(condition, t);
    lemma_block_keeps_table(consequence, t);
    if pure_block(alternative) {
        lemma_block_keeps_table(alternative, t);
    } else {
        assert(emit_statement(alternative, t) == emit_statements(Seq::<Stmt>::empty(), t));
    }
}

/// Behind the conditional jump the machine takes the way through the
/// branch that the evaluator takes, and leaves the value of that branch.
proof fn behind_condition_agrees(
    whole: Expr,
    consequence: Stmt,
    alternative: Stmt,
    t: Table,
    env: Env,
    depth: nat,
    cv: Value,
    second: Machine,
)
    requires
        whole matches Expr::If { condition, consequence: k, alternative: a } && *k == consequence
            && *a == alternative,
        pure_block(consequence),
        pure_block(alternative) || alternative == Stmt::Block(Seq::empty()),
        emit_statement(consequence, t) is Ok,
        emit_statement(alternative, t) is Ok,
        ({
            let k1 = branch_code(emit_statement(consequence, t)->Ok_0.code);
            let a1 = branch_code(emit_statement(alternative, t)->Ok_0.code);
            let pad = branch_padding(a1);
            let y = a1.len() + pad.len();
            let n = k1.len() + 1 + y;
            &&& emit_statement(consequence, t)->Ok_0.code.len() <= usize::MAX
            &&& emit_statement(alternative, t)->Ok_0.code.len() <= usize::MAX
            &&& n <= usize::MAX
            &&& n <= second.code.len()
            &&& second.code.take(n as int) == k1.push(Instr::Jump(y as usize)) + (a1 + pad)
            &&& second.jump == (if truthy(cv) {
                0
            } else {
                k1.len() + 1
            })
        }),
        if truthy(cv) {
            eval_block(consequence, env, depth) is Ok
        } else {
            eval_block(alternative, env, depth) is Ok
        },
    ensures
        ({
            let k1 = branch_code(emit_statement(consequence, t)->Ok_0.code);
            let a1 = branch_code(emit_statement(alternative, t)->Ok_0.code);
            let pad = branch_padding(a1);
            let n = (k1.len() + 1 + a1.len() + pad.len()) as nat;
            let r = if truthy(cv) {
                eval_block(consequence, env, depth)->Ok_0
            } else {
                eval_block(alternative, env, depth)->Ok_0
            };
            &&& r.1 == env
            &&& !(r.0 is Return)
            &&& agree(second, n, r.0)
        }),
    decreases whole, 0nat,
{
    parts_are_smaller(whole);
    let k1 = branch_code(emit_statement(consequence, t)->Ok_0.code);
    let a1 = branch_code(emit_statement(alternative, t)->Ok_0.code);
    let pad = branch_padding(a1);
    let y = (a1.len() + pad.len()) as nat;
    let x = (k1.len() + 1) as nat;
    let behind = k1.push(Instr::Jump(y as usize)) + (a1 + pad);
    if truthy(cv) {
        assert(behind.take(k1.len() as int) =~= k1);
        lemma_ready_first(second, behind, k1);
        block_agrees(consequence, t, env, depth, second);
        assert(second.code[k1.len() as int] == behind[k1.len() as int]);
        lemma_consequence_way(second, k1.len(), y, eval_block(consequence, env, depth)->Ok_0.0);
    } else {
        let third = Machine { code: second.code.skip(x as int), jump: 0, ..second };
        assert(behind.subrange(x as int, (x + y) as int) =~= a1 + pad);
        lemma_ready_at(second, x, behind, a1 + pad, third);
        if pure_block(alternative) {
            lemma_branch_is_pure(alternative, t, env, depth);
            assert(a1 + pad =~= a1);
            block_agrees(alternative, t, env, depth, third);
        } else {
            lemma_statement_unfold(Seq::empty(), arbitrary(), env, depth);
            assert(emit_statement(alternative, t) == emit_statements(Seq::<Stmt>::empty(), t));
            assert(a1 =~= Seq::<Instr>::empty());
            assert(a1 + pad =~= seq![Instr::Null]);
            lemma_literal(third, Instr::Null, Value::Null);
        }
        lemma_alternative_way(
            second,
            x,
            y,
            eval_block(alternative, env, depth)->Ok_0.0,
        );
    }
}

/// What holds of a branch of a conditional whatever the machine does.
proof fn lemma_branch_is_pure(block: Stmt, t: Table, env: Env, depth: nat)
    requires
        pure_block(block),
        emit_statement(block, t) is Ok,
        emit_statement(block, t)->Ok_0.code.len() <= usize::MAX,
        eval_block(block, env, depth) is Ok,
    ensures
        branch_code(emit_statement(block, t)->Ok_0.code).len() > 0,
        eval_block(block, env, depth)->Ok_0.1 == env,
        !(eval_block(block, env, depth)->Ok_0.0 is Return),
    decreases block, 3nat,
{
    let code = branch_code(emit_statement(block, t)->Ok_0.code);
    let m = Machine {
        frames: Seq::empty(),
        code,
        stack: Seq::empty(),
        last_popped: None,
        jump: 0,
        globals: Map::empty(),
    };
    assert(code.take(code.len() as int) =~= code);
    block_agrees(block, t, env, depth, m);
}


/// What the evaluator makes of the first statements of a block, from what
/// it makes of all but the last of them.
proof fn lemma_statements_forward(ss: Seq<Stmt>, n: nat, env: Env, depth: nat)
    requires
        0 < n <= ss.len(),
    ensures
        eval_statements(ss, n, env, depth) == (match eval_statements(
            ss,
            (n - 1) as nat,
            env,
            depth,
        ) {
            Ok((v, after)) => if v is Return {
                Ok((v, after))
            } else {
                eval_statement(ss[n - 1], after, depth)
            },
            Err(h) => Err(h),
        }),
{
    reveal(eval_statements);
    reveal(eval_statement);
}

/// Expression statements of pure expressions that the evaluator evaluates
/// one by one, it evaluates as the statements of a block too.
proof fn lemma_statements_ok(ss: Seq<Stmt>, n: nat, t: Table, env: Env, depth: nat)
    requires
        n <= ss.len(),
        forall|i: int| 0 <= i < ss.len() ==> pure_statement(#[trigger] ss[i]),
        emit_statements(ss.take(n as int), t) is Ok,
        emit_statements(ss.take(n as int), t)->Ok_0.code.len() <= usize::MAX,
        forall|i: int| 0 <= i < n ==> (#[trigger] eval_statement(ss[i], env, depth)) is Ok,
    ensures
        eval_statements(ss, n, env, depth) is Ok,
    decreases n,
{
    if n == 0 {
        lemma_statement_unfold(ss, arbitrary(), env, depth);
    } else {
        assert(ss.take(n as int).drop_last() =~= ss.take(n - 1));
        assert(emit_statements(ss.take(n - 1), t) is Ok);
        lemma_statements_ok(ss, (n - 1) as nat, t, env, depth);
        let code = emit_statements(ss.take(n - 1), t)->Ok_0.code;
        let m = Machine {
            frames: Seq::empty(),
            code,
            stack: Seq::empty(),
            last_popped: None,
            jump: 0,
            globals: Map::empty(),
        };
        assert(code.take(code.len() as int) =~= code);
        statements_pass(ss, (n - 1) as nat, t, env, depth, m);
        lemma_statements_forward(ss, n, env, depth);
        assert(eval_statement(ss[n - 1], env, depth) is Ok);
    }
}

/// Statements that leave nothing, then a value, and then the `Pop` that
/// takes it: nothing is left on the stack, and the value is the one that
/// was taken last.
proof fn lemma_popped_value(m: Machine, n1: nat, n2: nat, v: Value)
    requires
        pass(m, n1),
        m.after(n1) is Ok ==> agree(m.after(n1)->Ok_0, n2, v),
        n1 + n2 < m.code.len(),
        m.code[(n1 + n2) as int] == Instr::Pop,
    ensures
        match m.after(n1 + n2 + 1) {
            Ok(last) => passed(m, n1 + n2 + 1, last) && last.last_popped == Some(v),
            Err(_) => true,
        },
{
    after_add(m, n1, n2 + 1);
    match m.after(n1) {
        Ok(first) => {
            after_add(first, n2, 1);
            match first.after(n2) {
                Ok(second) => {
                    assert(second.code =~= m.code.skip((n1 + n2) as int));
                    after_one(second);
                    assert(second.code.skip(1) =~= m.code.skip((n1 + n2 + 1) as int));
                    match second.after(1) {
                        Ok(last) => {
                            assert(last.stack =~= m.stack);
                        },
                        Err(_) => {},
                    }
                },
                Err(_) => {},
            }
        },
        Err(_) => {},
    }
}

/// The two ways of running a program agree. The program is made of
/// expression statements of literals, operators, arrays and conditionals,
/// without names, functions and calls. Where the evaluator gives a value
/// for each statement, it leaves its environment as it was, and the
/// machine that runs the compiled instructions from the start is either
/// stopped by a fault or comes to the end of the program: its stack is
/// empty, its globals are as they were, and the value that it has taken
/// from the stack last is the value that the evaluator gives for the last
/// statement.
pub proof fn program_agrees(
    program: Seq<Stmt>,
    t: Table,
    env: Env,
    depth: nat,
    globals: Map<usize, Value>,
)
    requires
        program.len() > 0,
        forall|i: int| 0 <= i < program.len() ==> pure_statement(#[trigger] program[i]),
        emit_statements(program, t) is Ok,
        emit_statements(program, t)->Ok_0.code.len() <= usize::MAX,
        forall|i: int|
            0 <= i < program.len() ==> (#[trigger] eval_statement(program[i], env, depth)) is Ok,
    ensures
        forall|i: int|
            0 <= i < program.len() ==> (#[trigger] eval_statement(program[i], env, depth))->Ok_0.1
                == env,
        !(eval_statement(program.last(), env, depth)->Ok_0.0 is Return),
        emit_statements(program, t)->Ok_0.table == t,
        ({
            let code = emit_statements(program, t)->Ok_0.code;
            let v = eval_statement(program.last(), env, depth)->Ok_0.0;
            match Machine::start(code, globals).after(code.len()) {
                Ok(last) => last.halted() && last.report() == (Value::Null, Some(v), globals),
                Err(_) => true,
            }
        }),
{
    let n = program.len();
    let code = emit_statements(program, t)->Ok_0.code;
    let m = Machine::start(code, globals);
    assert(code.take(code.len() as int) =~= code);
    assert forall|i: int| 0 <= i < program.len() implies (#[trigger] eval_statement(
        program[i],
        env,
        depth,
    ))->Ok_0.1 == env by {
        assert(pure_statement(program[i]));
        let e = program[i]->Expr_0;
        lemma_statement_unfold(program, e, env, depth);
        lemma_statement_compiles(program, i, t);
        lemma_right_is_pure(e, t, env, depth);
    }
    assert(pure_statement(program[n - 1]));
    let e = program[n - 1]->Expr_0;
    lemma_statement_unfold(program, e, env, depth);
    assert(program.take(n - 1) =~= program.drop_last());
    assert(program.take(n as int) =~= program);
    lemma_statements_keep_table(program, (n - 1) as nat, t);
    lemma_statements_keep_table(program, n, t);
    let front = emit_statements(program.drop_last(), t)->Ok_0.code;
    let value = emit_expression(e, t)->Ok_0.code;
    assert(emit_statement(program.last(), t)->Ok_0.code == value.push(Instr::Pop));
    assert(code == front + value.push(Instr::Pop));
    assert(code.take(front.len() as int) =~= front);
    lemma_ready_first(m, code, front);
    lemma_statements_ok(program, (n - 1) as nat, t, env, depth);
    statements_pass(program, (n - 1) as nat, t, env, depth, m);
    let v = eval_expression(e, env, depth)->Ok_0.0;
    if m.after(front.len()) is Ok {
        let first = m.after(front.len())->Ok_0;
        assert(code.subrange(front.len() as int, (front.len() + value.len()) as int) =~= value);
        lemma_ready_at(m, front.len(), code, value, first);
        expression_agrees(e, t, env, depth, first);
    } else {
        lemma_right_is_pure(e, t, env, depth);
    }
    assert(m.code[(front.len() + value.len()) as int] == code[(front.len() + value.len()) as int]);
    lemma_popped_value(m, front.len(), value.len(), v);
    match m.after(code.len()) {
        Ok(last) => {
            assert(last.code =~= Seq::<Instr>::empty());
        },
        Err(_) => {},
    }
}

/// A statement of a program that compiles, compiles by itself: the
/// statements before it leave the symbol table as it is.
proof fn lemma_statement_compiles(program: Seq<Stmt>, i: int, t: Table)
    requires
        0 <= i < program.len(),
        forall|j: int| 0 <= j < program.len() ==> pure_statement(#[trigger] program[j]),
        emit_statements(program, t) is Ok,
        emit_statements(program, t)->Ok_0.code.len() <= usize::MAX,
    ensures
        emit_expression(program[i]->Expr_0, t) is Ok,
        emit_expression(program[i]->Expr_0, t)->Ok_0.code.len() <= usize::MAX,
    decreases program.len(),
{
    let n = program.len();
    let front = program.drop_last();
    assert(program.take(n - 1) =~= front);
    assert(emit_statements(front, t) is Ok);
    lemma_statements_keep_table(program, (n - 1) as nat, t);
    assert(pure_statement(program[n - 1]));
    let e = program[n - 1]->Expr_0;
    assert(program.last() == Stmt::Expr(e));
    assert(emit_statement(Stmt::Expr(e), t) is Ok);
    assert(emit_statements(program, t)->Ok_0.code == emit_statements(front, t)->Ok_0.code
        + emit_statement(Stmt::Expr(e), t)->Ok_0.code);
    assert(emit_statement(Stmt::Expr(e), t)->Ok_0.code == emit_expression(e, t)->Ok_0.code.push(
        Instr::Pop,
    ));
    if i < n - 1 {
        assert forall|j: int| 0 <= j < front.len() implies pure_statement(#[trigger] front[j]) by {
            assert(front[j] == program[j]);
        }
        lemma_statement_compiles(front, i, t);
        assert(front[i] == program[i]);
    }
}

} // verus!
