use crate::ast::{parts_are_smaller, Expr, Stmt};
use crate::code::{Instr, Table};
use crate::compiler::{
    branch_code, branch_padding, conditional_code, emit_expression, emit_expressions,
    emit_statement, emit_statements, function_body,
};
use vstd::prelude::*;

verus! {

/// How many instructions an instruction asks the machine to pass over.
pub open spec fn jump_offset(i: Instr) -> int {
    match i {
        Instr::Jump(k) => k as int,
        Instr::JumpNotTruthy(k) => k as int,
        _ => 0,
    }
}

/// Whether every jump of `code` leads to an instruction of `code` or to
/// its end: the place of the jump, one, and its operand never add up to
/// more than the length of `code`.
pub open spec fn jumps_inside(code: Seq<Instr>) -> bool {
    forall|pc: int| 0 <= pc < code.len() ==> pc + 1 + jump_offset(#[trigger] code[pc]) <= code.len()
}

/// What holds of the instructions of an expression: there is one at
/// least, the last is no `Pop`, and every jump leads inside.
pub open spec fn expression_shaped(code: Seq<Instr>) -> bool {
    &&& code.len() >= 1
    &&& code.last() != Instr::Pop
    &&& jumps_inside(code)
}

/// What holds of the instructions of a statement: there is none or two at
/// least, and every jump leads inside; where the last is a `Pop`, the one
/// before it is none, and no jump leads over it.
pub open spec fn statement_shaped(code: Seq<Instr>) -> bool {
    &&& code.len() != 1
    &&& jumps_inside(code)
    &&& code.len() >= 2 && code.last() == Instr::Pop ==> code[code.len() - 2] != Instr::Pop
        && jumps_inside(code.drop_last())
}

/// An instruction that is no jump, behind instructions whose jumps lead
/// inside.
proof fn lemma_jumps_push(code: Seq<Instr>, i: Instr)
    requires
        jumps_inside(code),
        jump_offset(i) == 0,
    ensures
        jumps_inside(code.push(i)),
{
    let more = code.push(i);
    assert forall|pc: int| 0 <= pc < more.len() implies pc + 1 + jump_offset(#[trigger] more[pc])
        <= more.len() by {
        if pc < code.len() {
            assert(more[pc] == code[pc]);
        }
    }
}

/// Instructions whose jumps lead inside, one behind the other.
proof fn lemma_jumps_concat(a: Seq<Instr>, b: Seq<Instr>)
    requires
        jumps_inside(a),
        jumps_inside(b),
    ensures
        jumps_inside(a + b),
{
    let whole = a + b;
    assert forall|pc: int| 0 <= pc < whole.len() implies pc + 1 + jump_offset(
        #[trigger] whole[pc],
    ) <= whole.len() by {
        if pc < a.len() {
            assert(whole[pc] == a[pc]);
        } else {
            assert(whole[pc] == b[pc - a.len()]);
        }
    }
}

/// The instructions of statements, one behind the other, are shaped as
/// those of a statement.
proof fn lemma_statements_concat(a: Seq<Instr>, b: Seq<Instr>)
    requires
        statement_shaped(a),
        statement_shaped(b),
    ensures
        statement_shaped(a + b),
{
    let whole = a + b;
    lemma_jumps_concat(a, b);
    if b.len() == 0 {
        assert(whole =~= a);
    } else if whole.last() == Instr::Pop {
        assert(whole.last() == b.last());
        assert(whole[whole.len() - 2] == b[b.len() - 2]);
        lemma_jumps_concat(a, b.drop_last());
        assert(whole.drop_last() =~= a + b.drop_last());
    }
}

/// The instructions of an expression with one more instruction that is no
/// jump and no `Pop` are shaped as those of an expression.
proof fn lemma_expression_push(code: Seq<Instr>, i: Instr)
    requires
        jumps_inside(code),
        jump_offset(i) == 0,
        i != Instr::Pop,
    ensures
        expression_shaped(code.push(i)),
{
    lemma_jumps_push(code, i);
}

/// The instructions of an expression with the instruction that ends a
/// statement are shaped as those of a statement.
proof fn lemma_statement_push(code: Seq<Instr>, i: Instr)
    requires
        expression_shaped(code),
        jump_offset(i) == 0,
    ensures
        statement_shaped(code.push(i)),
{
    lemma_jumps_push(code, i);
    let more = code.push(i);
    assert(more.drop_last() =~= code);
    assert(more[more.len() - 2] == code.last());
}

/// A branch of a conditional is empty, or ends in an instruction that is
/// no `Pop`, and its jumps lead inside.
proof fn lemma_branch_shaped(code: Seq<Instr>)
    requires
        statement_shaped(code),
    ensures
        jumps_inside(branch_code(code)),
        branch_code(code).len() > 0 ==> branch_code(code).last() != Instr::Pop,
{
    if code.len() > 0 && code.last() == Instr::Pop {
        assert(branch_code(code).last() == code[code.len() - 2]);
    }
}

/// The instructions of a conditional are shaped as those of an
/// expression: both jumps lead inside.
proof fn lemma_conditional_shaped(cc: Seq<Instr>, k: Seq<Instr>, a: Seq<Instr>)
    requires
        expression_shaped(cc),
        statement_shaped(k),
        statement_shaped(a),
        conditional_code(cc, k, a).len() <= usize::MAX,
    ensures
        expression_shaped(conditional_code(cc, k, a)),
{
    let k1 = branch_code(k);
    let a1 = branch_code(a);
    let pad = branch_padding(a1);
    lemma_branch_shaped(k);
    lemma_branch_shaped(a);
    let x = (k1.len() + 1) as usize;
    let y = (a1.len() + pad.len()) as usize;
    let code = conditional_code(cc, k, a);
    let p = cc.len() as int;
    let q = p + 1 + k1.len();
    assert forall|pc: int| 0 <= pc < code.len() implies pc + 1 + jump_offset(#[trigger] code[pc])
        <= code.len() by {
        if pc < p {
            assert(code[pc] == cc[pc]);
        } else if pc == p {
            assert(code[pc] == Instr::JumpNotTruthy(x));
        } else if pc < q {
            assert(code[pc] == k1[pc - p - 1]);
        } else if pc == q {
            assert(code[pc] == Instr::Jump(y));
        } else if pc < q + 1 + a1.len() {
            assert(code[pc] == a1[pc - q - 1]);
        } else {
            assert(code[pc] == pad[pc - q - 1 - a1.len()]);
        }
    }
    if a1.len() == 0 {
        assert(code.last() == Instr::Null);
    } else {
        assert(code.last() == a1.last());
    }
}

/// In the instructions of an expression every jump leads to an
/// instruction of the expression or to their end; there is one
/// instruction at least, and the last is no `Pop`.
pub proof fn expression_jumps_inside(e: Expr, t: Table)
    requires
        emit_expression(e, t) is Ok,
        emit_expression(e, t)->Ok_0.code.len() <= usize::MAX,
    ensures
        expression_shaped(emit_expression(e, t)->Ok_0.code),
    decreases e, 1nat,
{
    let code = emit_expression(e, t)->Ok_0.code;
    match e {
        Expr::Array(items) => {
            let inner = emit_expressions(items, t)->Ok_0.code;
            expressions_jump_inside(items, t);
            lemma_expression_push(inner, code.last());
        },
        Expr::Prefix { operator, expr } => {
            let operand = emit_expression(*expr, t)->Ok_0.code;
            expression_jumps_inside(*expr, t);
            lemma_expression_push(operand, code.last());
        },
        Expr::Infix { operator, left, right } => {
            infix_jumps_inside(operator, *left, *right, t);
        },
        Expr::If { condition, consequence, alternative } => {
            conditional_jumps_inside(*condition, *consequence, *alternative, t);
        },
        Expr::Call { function, arguments } => {
            call_jumps_inside(*function, arguments, t);
        },
        _ => {
            assert(code =~= Seq::<Instr>::empty().push(code[0]));
            assert(jumps_inside(Seq::<Instr>::empty()));
            lemma_expression_push(Seq::empty(), code[0]);
        },
    }
}

/// The jumps of an infix operator lead inside.
proof fn infix_jumps_inside(operator: Seq<char>, left: Expr, right: Expr, t: Table)
    requires
        emit_expression(Expr::infix(operator, left, right), t) is Ok,
        emit_expression(Expr::infix(operator, left, right), t)->Ok_0.code.len() <= usize::MAX,
    ensures
        expression_shaped(emit_expression(Expr::infix(operator, left, right), t)->Ok_0.code),
    decreases Expr::infix(operator, left, right), 0nat,
{
    parts_are_smaller(Expr::infix(operator, left, right));
    let code = emit_expression(Expr::infix(operator, left, right), t)->Ok_0.code;
    let l = emit_expression(left, t)->Ok_0;
    let r = emit_expression(right, l.table)->Ok_0;
    expression_jumps_inside(left, t);
    expression_jumps_inside(right, l.table);
    lemma_jumps_concat(l.code, r.code);
    lemma_expression_push(l.code + r.code, code.last());
}

/// The jumps of a call lead inside.
proof fn call_jumps_inside(function: Expr, arguments: Seq<Expr>, t: Table)
    requires
        emit_expression(Expr::call(function, arguments), t) is Ok,
        emit_expression(Expr::call(function, arguments), t)->Ok_0.code.len() <= usize::MAX,
    ensures
        expression_shaped(emit_expression(Expr::call(function, arguments), t)->Ok_0.code),
    decreases Expr::call(function, arguments), 0nat,
{
    parts_are_smaller(Expr::call(function, arguments));
    let code = emit_expression(Expr::call(function, arguments), t)->Ok_0.code;
    let f = emit_expression(function, t)->Ok_0;
    let args = emit_expressions(arguments, f.table)->Ok_0;
    expression_jumps_inside(function, t);
    expressions_jump_inside(arguments, f.table);
    lemma_jumps_concat(f.code, args.code);
    lemma_expression_push(f.code + args.code, code.last());
}

/// The jumps of a conditional lead inside.
proof fn conditional_jumps_inside(condition: Expr, consequence: Stmt, alternative: Stmt, t: Table)
    requires
        emit_expression(Expr::conditional(condition, consequence, alternative), t) is Ok,
        emit_expression(
            Expr::conditional(condition, consequence, alternative),
            t,
        )->Ok_0.code.len() <= usize::MAX,
    ensures
        expression_shaped(
            emit_expression(Expr::conditional(condition, consequence, alternative), t)->Ok_0.code,
        ),
    decreases Expr::conditional(condition, consequence, alternative), 0nat,
{
    parts_are_smaller(Expr::conditional(condition, consequence, alternative));
    let c = emit_expression(condition, t)->Ok_0;
    let k = emit_statement(consequence, c.table)->Ok_0;
    let a = emit_statement(alternative, k.table)->Ok_0;
    let code = conditional_code(c.code, k.code, a.code);
    assert(code.len() == c.code.len() + 2 + branch_code(k.code).len() + branch_code(
        a.code,
    ).len() + branch_padding(branch_code(a.code)).len());
    expression_jumps_inside(condition, t);
    statement_jumps_inside(consequence, c.table);
    statement_jumps_inside(alternative, k.table);
    lemma_conditional_shaped(c.code, k.code, a.code);
}

/// In the instructions of a list of expressions every jump leads inside.
pub proof fn expressions_jump_inside(es: Seq<Expr>, t: Table)
    requires
        emit_expressions(es, t) is Ok,
        emit_expressions(es, t)->Ok_0.code.len() <= usize::MAX,
    ensures
        jumps_inside(emit_expressions(es, t)->Ok_0.code),
    decreases es, 0nat,
{
    if es.len() > 0 {
        let front = emit_expressions(es.drop_last(), t)->Ok_0;
        let last = emit_expression(es.last(), front.table)->Ok_0;
        expressions_jump_inside(es.drop_last(), t);
        expression_jumps_inside(es.last(), front.table);
        lemma_jumps_concat(front.code, last.code);
    }
}

/// In the instructions of a statement every jump leads to an instruction
/// of the statement or to their end, and none leads over the `Pop` at the
/// end of an expression statement.
pub proof fn statement_jumps_inside(s: Stmt, t: Table)
    requires
        emit_statement(s, t) is Ok,
        emit_statement(s, t)->Ok_0.code.len() <= usize::MAX,
    ensures
        statement_shaped(emit_statement(s, t)->Ok_0.code),
    decreases s, 1nat,
{
    let code = emit_statement(s, t)->Ok_0.code;
    match s {
        Stmt::Let { ident, expr } => {
            expression_jumps_inside(expr, t);
            lemma_statement_push(emit_expression(expr, t)->Ok_0.code, code.last());
        },
        Stmt::Return(e) => {
            expression_jumps_inside(e, t);
            lemma_statement_push(emit_expression(e, t)->Ok_0.code, Instr::ReturnValue);
        },
        Stmt::Expr(e) => {
            expression_jumps_inside(e, t);
            lemma_statement_push(emit_expression(e, t)->Ok_0.code, Instr::Pop);
        },
        Stmt::Block(ss) => {
            statements_jump_inside(ss, t);
        },
    }
}

/// In the instructions of a list of statements every jump leads inside.
pub proof fn statements_jump_inside(ss: Seq<Stmt>, t: Table)
    requires
        emit_statements(ss, t) is Ok,
        emit_statements(ss, t)->Ok_0.code.len() <= usize::MAX,
    ensures
        statement_shaped(emit_statements(ss, t)->Ok_0.code),
    decreases ss, 0nat,
{
    if ss.len() > 0 {
        let front = emit_statements(ss.drop_last(), t)->Ok_0;
        let last = emit_statement(ss.last(), front.table)->Ok_0;
        statements_jump_inside(ss.drop_last(), t);
        statement_jumps_inside(ss.last(), front.table);
        lemma_statements_concat(front.code, last.code);
    }
}

/// In the body of a compiled function every jump leads to an instruction
/// of the body or to its end.
pub proof fn body_jumps_inside(body: Stmt, t: Table)
    requires
        emit_statement(body, t) is Ok,
        emit_statement(body, t)->Ok_0.code.len() < usize::MAX,
    ensures
        jumps_inside(function_body(emit_statement(body, t)->Ok_0.code)),
{
    let code = emit_statement(body, t)->Ok_0.code;
    statement_jumps_inside(body, t);
    if code.len() == 0 {
        assert(jumps_inside(Seq::<Instr>::empty()));
        lemma_jumps_push(Seq::empty(), Instr::Return);
        assert(function_body(code) =~= Seq::<Instr>::empty().push(Instr::Return));
    } else if code.last() == Instr::Pop {
        lemma_jumps_push(code.drop_last(), Instr::ReturnValue);
    }
}

} // verus!
