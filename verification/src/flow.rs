use crate::ast::{parts_are_smaller, statement_parts_are_smaller, Expr, Stmt};
use crate::code::{Instr, Table};
use crate::machine::{Fault, Machine};
use crate::compiler::{
    branch_code, branch_padding, conditional_code, define_parameters, emit_expression,
    emit_expressions, emit_statement, emit_statements, function_body,
};
use crate::object::Value;
use crate::scopes::function_has_slots_for_parameters;
use vstd::prelude::*;

verus! {

/// How many values an instruction takes from the stack. A call takes the
/// function and its arguments.
pub open spec fn operands(i: Instr) -> int {
    match i {
        Instr::Constant(_) | Instr::True | Instr::False | Instr::Null => 0,
        Instr::GetGlobal(_) | Instr::GetLocal(_) | Instr::Jump(_) | Instr::Return => 0,
        Instr::Pop | Instr::Minus | Instr::Bang | Instr::JumpNotTruthy(_) => 1,
        Instr::SetGlobal(_) | Instr::SetLocal(_) | Instr::ReturnValue => 1,
        Instr::Add | Instr::Sub | Instr::Mul | Instr::Div => 2,
        Instr::Equal | Instr::NotEqual | Instr::GreaterThan | Instr::LessThan => 2,
        Instr::Index => 2,
        Instr::Array(n) => n as int,
        Instr::Call(n) => n + 1,
    }
}

/// How many values an instruction puts on the stack. A call puts there
/// what the function returns.
pub open spec fn results(i: Instr) -> int {
    match i {
        Instr::Pop | Instr::JumpNotTruthy(_) | Instr::Jump(_) => 0,
        Instr::SetGlobal(_) | Instr::SetLocal(_) | Instr::ReturnValue | Instr::Return => 0,
        _ => 1,
    }
}

/// By how much an instruction changes the height of the stack.
pub open spec fn stack_delta(i: Instr) -> int {
    results(i) - operands(i)
}

/// The height of the stack with which the machine comes to the end of
/// `code`, from the instruction at `pc` and the height `h`, where that is
/// the same whichever way the conditional jumps go. There is no such height
/// where an instruction finds too few values, a jump leads out of the code,
/// or a return is met.
#[verifier::opaque]
pub open spec fn arrives(code: Seq<Instr>, pc: int, h: int) -> Option<int>
    decreases code.len() - pc,
{
    if pc < 0 || pc > code.len() {
        None
    } else if pc == code.len() {
        Some(h)
    } else if h < operands(code[pc]) {
        None
    } else {
        match code[pc] {
            Instr::Jump(k) => if pc + 1 + k <= code.len() {
                arrives(code, pc + 1 + k, h)
            } else {
                None
            },
            Instr::JumpNotTruthy(k) => if pc + 1 + k <= code.len() && arrives(code, pc + 1, h - 1)
                == arrives(code, pc + 1 + k, h - 1) {
                arrives(code, pc + 1, h - 1)
            } else {
                None
            },
            Instr::ReturnValue | Instr::Return => None,
            i => arrives(code, pc + 1, h + stack_delta(i)),
        }
    }
}

/// Whether the machine, from the instruction at `pc` and the height `h`,
/// comes to a return whichever way the conditional jumps go, with a value
/// to return where the return takes one, and without an instruction that
/// finds too few values or a jump that leads out of the code.
#[verifier::opaque]
pub open spec fn comes_back(code: Seq<Instr>, pc: int, h: int) -> bool
    decreases code.len() - pc,
{
    if pc < 0 || pc >= code.len() {
        false
    } else if h < operands(code[pc]) {
        false
    } else {
        match code[pc] {
            Instr::Jump(k) => pc + 1 + k <= code.len() && comes_back(code, pc + 1 + k, h),
            Instr::JumpNotTruthy(k) => pc + 1 + k <= code.len() && comes_back(code, pc + 1, h - 1)
                && comes_back(code, pc + 1 + k, h - 1),
            Instr::ReturnValue | Instr::Return => true,
            i => comes_back(code, pc + 1, h + stack_delta(i)),
        }
    }
}

/// Code that leaves the stack higher by `delta`, from whatever height it
/// starts.
pub open spec fn leaves(code: Seq<Instr>, delta: int) -> bool {
    forall|h: int| h >= 0 ==> #[trigger] arrives(code, 0, h) == Some(h + delta)
}

/// At the end of the code the machine has arrived.
pub proof fn arrives_at_end(code: Seq<Instr>, h: int)
    ensures
        arrives(code, code.len() as int, h) == Some(h),
{
    reveal(arrives);
}

/// What `arrives` says of an instruction that is no jump and no return.
pub proof fn arrives_step(code: Seq<Instr>, pc: int, h: int)
    requires
        0 <= pc < code.len(),
        !(code[pc] is Jump),
        !(code[pc] is JumpNotTruthy),
        !(code[pc] is Return),
        !(code[pc] is ReturnValue),
    ensures
        arrives(code, pc, h) == (if h < operands(code[pc]) {
            None
        } else {
            arrives(code, pc + 1, h + stack_delta(code[pc]))
        }),
{
    reveal(arrives);
}

/// What `arrives` says of a jump.
pub proof fn arrives_jump(code: Seq<Instr>, pc: int, h: int)
    requires
        0 <= pc < code.len(),
        code[pc] is Jump,
    ensures
        arrives(code, pc, h) == (if h < 0 || pc + 1 + code[pc]->Jump_0 > code.len() {
            None
        } else {
            arrives(code, pc + 1 + code[pc]->Jump_0, h)
        }),
{
    reveal(arrives);
}

/// What `arrives` says of a conditional jump.
pub proof fn arrives_branch(code: Seq<Instr>, pc: int, h: int)
    requires
        0 <= pc < code.len(),
        code[pc] is JumpNotTruthy,
    ensures
        arrives(code, pc, h) == (if h < 1 || pc + 1 + code[pc]->JumpNotTruthy_0 > code.len() {
            None
        } else if arrives(code, pc + 1, h - 1) == arrives(
            code,
            pc + 1 + code[pc]->JumpNotTruthy_0,
            h - 1,
        ) {
            arrives(code, pc + 1, h - 1)
        } else {
            None
        }),
{
    reveal(arrives);
}

/// Instructions before the code that runs change nothing: jumps count
/// from where they stand.
pub proof fn arrives_behind(head: Seq<Instr>, code: Seq<Instr>, pc: int, h: int)
    requires
        0 <= pc,
    ensures
        arrives(head + code, head.len() + pc, h) == arrives(code, pc, h),
    decreases code.len() - pc,
{
    reveal(arrives);
    let whole = head + code;
    if pc < code.len() {
        assert(whole[head.len() + pc] == code[pc]);
        if h >= operands(code[pc]) {
            match code[pc] {
                Instr::Jump(k) => {
                    if pc + 1 + k <= code.len() {
                        arrives_behind(head, code, pc + 1 + k, h);
                    }
                },
                Instr::JumpNotTruthy(k) => {
                    arrives_behind(head, code, pc + 1, h - 1);
                    if pc + 1 + k <= code.len() {
                        arrives_behind(head, code, pc + 1 + k, h - 1);
                    }
                },
                Instr::ReturnValue | Instr::Return => {},
                i => {
                    arrives_behind(head, code, pc + 1, h + stack_delta(i));
                },
            }
        }
    }
}

/// Code that arrives at its end goes on with what follows it.
pub proof fn arrives_then(code: Seq<Instr>, rest: Seq<Instr>, pc: int, h: int)
    requires
        0 <= pc,
        arrives(code, pc, h) is Some,
    ensures
        arrives(code + rest, pc, h) == arrives(rest, 0, arrives(code, pc, h)->0),
    decreases code.len() - pc,
{
    reveal(arrives);
    let whole = code + rest;
    if pc == code.len() {
        arrives_behind(code, rest, 0, h);
    } else {
        assert(whole[pc] == code[pc]);
        match code[pc] {
            Instr::Jump(k) => {
                if pc + 1 + k <= code.len() {
                    arrives_then(code, rest, pc + 1 + k, h);
                }
            },
            Instr::JumpNotTruthy(k) => {
                arrives_then(code, rest, pc + 1, h - 1);
                if pc + 1 + k <= code.len() {
                    arrives_then(code, rest, pc + 1 + k, h - 1);
                }
            },
            Instr::ReturnValue | Instr::Return => {},
            i => {
                arrives_then(code, rest, pc + 1, h + stack_delta(i));
            },
        }
    }
}

/// Code that arrives at its end and is followed by code that returns,
/// returns.
pub proof fn arrives_then_comes_back(code: Seq<Instr>, rest: Seq<Instr>, pc: int, h: int)
    requires
        0 <= pc,
        arrives(code, pc, h) is Some,
    ensures
        comes_back(code + rest, pc, h) == comes_back(rest, 0, arrives(code, pc, h)->0),
    decreases code.len() - pc,
{
    reveal(arrives);
    reveal(comes_back);
    let whole = code + rest;
    if pc == code.len() {
        comes_back_behind(code, rest, 0, h);
    } else {
        assert(whole[pc] == code[pc]);
        match code[pc] {
            Instr::Jump(k) => {
                if pc + 1 + k <= code.len() {
                    arrives_then_comes_back(code, rest, pc + 1 + k, h);
                }
            },
            Instr::JumpNotTruthy(k) => {
                arrives_then_comes_back(code, rest, pc + 1, h - 1);
                if pc + 1 + k <= code.len() {
                    arrives_then_comes_back(code, rest, pc + 1 + k, h - 1);
                }
            },
            Instr::ReturnValue | Instr::Return => {},
            i => {
                arrives_then_comes_back(code, rest, pc + 1, h + stack_delta(i));
            },
        }
    }
}

/// Instructions before the code that runs change nothing of whether it
/// returns.
pub proof fn comes_back_behind(head: Seq<Instr>, code: Seq<Instr>, pc: int, h: int)
    requires
        0 <= pc,
    ensures
        comes_back(head + code, head.len() + pc, h) == comes_back(code, pc, h),
    decreases code.len() - pc,
{
    reveal(comes_back);
    let whole = head + code;
    if pc < code.len() {
        assert(whole[head.len() + pc] == code[pc]);
        if h >= operands(code[pc]) {
            match code[pc] {
                Instr::Jump(k) => {
                    if pc + 1 + k <= code.len() {
                        comes_back_behind(head, code, pc + 1 + k, h);
                    }
                },
                Instr::JumpNotTruthy(k) => {
                    comes_back_behind(head, code, pc + 1, h - 1);
                    if pc + 1 + k <= code.len() {
                        comes_back_behind(head, code, pc + 1 + k, h - 1);
                    }
                },
                Instr::ReturnValue | Instr::Return => {},
                i => {
                    comes_back_behind(head, code, pc + 1, h + stack_delta(i));
                },
            }
        }
    }
}

/// Code that leaves the stack higher by `a`, followed by code that leaves
/// it higher by `b`, leaves it higher by the sum.
pub proof fn leaves_in_sequence(first: Seq<Instr>, a: int, second: Seq<Instr>, b: int)
    requires
        leaves(first, a),
        leaves(second, b),
        a >= 0,
    ensures
        leaves(first + second, a + b),
{
    assert forall|h: int| h >= 0 implies #[trigger] arrives(first + second, 0, h) == Some(
        h + a + b,
    ) by {
        assert(arrives(first, 0, h) == Some(h + a));
        arrives_then(first, second, 0, h);
        assert(arrives(second, 0, h + a) == Some(h + a + b));
    }
}

/// Code followed by one instruction that is no jump and no return, and
/// finds its operands: the instruction adds its change of height.
pub proof fn leaves_with(code: Seq<Instr>, a: int, i: Instr)
    requires
        leaves(code, a),
        a >= operands(i),
        !(i is Jump),
        !(i is JumpNotTruthy),
        !(i is Return),
        !(i is ReturnValue),
    ensures
        leaves(code.push(i), a + stack_delta(i)),
{
    let one = seq![i];
    assert(code.push(i) =~= code + one);
    assert forall|h: int| h >= 0 implies #[trigger] arrives(code + one, 0, h) == Some(
        h + a + stack_delta(i),
    ) by {
        assert(arrives(code, 0, h) == Some(h + a));
        arrives_then(code, one, 0, h);
        arrives_step(one, 0, h + a);
        arrives_at_end(one, h + a + stack_delta(i));
    }
}

/// The empty code leaves the stack as it is.
pub proof fn leaves_nothing()
    ensures
        leaves(Seq::<Instr>::empty(), 0),
{
    assert forall|h: int| h >= 0 implies #[trigger] arrives(Seq::<Instr>::empty(), 0, h) == Some(
        h + 0,
    ) by {
        arrives_at_end(Seq::<Instr>::empty(), h);
    }
}

/// A conditional whose condition and whose two branches, the alternative
/// with its padding, each leave one value, leaves one value.
pub proof fn conditional_leaves_one(
    condition: Seq<Instr>,
    consequence: Seq<Instr>,
    alternative: Seq<Instr>,
)
    requires
        leaves(condition, 1),
        leaves(branch_code(consequence), 1),
        leaves(branch_code(alternative) + branch_padding(branch_code(alternative)), 1),
        conditional_code(condition, consequence, alternative).len() <= usize::MAX,
    ensures
        leaves(conditional_code(condition, consequence, alternative), 1),
{
    let c = branch_code(consequence);
    let a = branch_code(alternative);
    let pad = branch_padding(a);
    let jnt = Instr::JumpNotTruthy((c.len() + 1) as usize);
    let jump = Instr::Jump((a.len() + pad.len()) as usize);
    let tail = seq![jump] + (a + pad);
    let behind = seq![jnt] + (c + tail);
    let code = conditional_code(condition, consequence, alternative);
    assert(code =~= condition + behind);
    assert forall|h: int| h >= 0 implies #[trigger] arrives(code, 0, h) == Some(h + 1) by {
        assert(arrives(condition, 0, h) == Some(h + 1));
        arrives_then(condition, behind, 0, h);
        // Behind the condition: the conditional jump.
        arrives_branch(behind, 0, h + 1);
        // Not taken: the consequence, then the jump to the end.
        arrives_behind(seq![jnt], c + tail, 0, h);
        assert(arrives(c, 0, h) == Some(h + 1));
        arrives_then(c, tail, 0, h);
        arrives_jump(tail, 0, h + 1);
        arrives_at_end(tail, h + 1);
        // Taken: the alternative with its padding.
        assert(behind =~= (seq![jnt] + c + seq![jump]) + (a + pad));
        arrives_behind(seq![jnt] + c + seq![jump], a + pad, 0, h);
        assert(arrives(a + pad, 0, h) == Some(h + 1));
    }
}


/// Whether the conditionals of an expression give a value on both ways:
/// the consequence is a block that gives a value, and the alternative is
/// such a block or an empty one. The lists of the expression are no longer
/// than an instruction can say.
pub open spec fn valued(e: Expr) -> bool
    decreases e,
{
    match e {
        Expr::Array(items) => items.len() <= usize::MAX && forall|i: int|
            0 <= i < items.len() ==> valued(#[trigger] items[i]),
        Expr::Prefix { operator, expr } => valued(*expr),
        Expr::Infix { operator, left, right } => valued(*left) && valued(*right),
        Expr::If { condition, consequence, alternative } => valued(*condition) && valued_block(
            *consequence,
        ) && (valued_block(*alternative) || *alternative == Stmt::Block(Seq::empty())),
        Expr::Call { function, arguments } => valued(*function) && arguments.len() <= usize::MAX
            && forall|i: int| 0 <= i < arguments.len() ==> valued(#[trigger] arguments[i]),
        _ => true,
    }
}

/// Whether a statement leaves nothing on the stack: a `let` or an
/// expression statement, of an expression whose conditionals give values.
pub open spec fn plain(s: Stmt) -> bool
    decreases s,
{
    match s {
        Stmt::Let { ident, expr } => valued(expr),
        Stmt::Expr(e) => valued(e),
        _ => false,
    }
}

/// Whether a branch gives a value: a block of statements that leave
/// nothing, with an expression statement at its end.
pub open spec fn valued_block(s: Stmt) -> bool
    decreases s,
{
    match s {
        Stmt::Block(statements) => statements.len() > 0 && plain(statements.last())
            && statements.last() is Expr && forall|i: int|
            0 <= i < statements.len() - 1 ==> plain(#[trigger] statements[i]),
        _ => false,
    }
}

/// Whether the body of a function comes to a return on every way: an empty
/// block, or a block of statements that leave nothing with, at its end, an
/// expression statement or a `return` of an expression whose conditionals
/// give values.
pub open spec fn returning_block(s: Stmt) -> bool {
    match s {
        Stmt::Block(statements) => statements.len() == 0 || ((forall|i: int|
            0 <= i < statements.len() - 1 ==> plain(#[trigger] statements[i])) && (
        match statements.last() {
            Stmt::Expr(e) => valued(e),
            Stmt::Return(e) => valued(e),
            _ => false,
        })),
        _ => false,
    }
}

/// One instruction that takes nothing and puts one value leaves one value.
proof fn lemma_push_leaves_one(i: Instr)
    requires
        operands(i) == 0,
        results(i) == 1,
    ensures
        leaves(seq![i], 1),
{
    leaves_nothing();
    leaves_with(Seq::empty(), 0, i);
    assert(Seq::<Instr>::empty().push(i) =~= seq![i]);
}

/// The instructions of an expression whose conditionals give values leave
/// the stack one value higher than it was, whichever way the conditional
/// jumps go, and take nothing of what lay there.
pub proof fn expression_leaves_one(e: Expr, t: Table)
    requires
        valued(e),
        emit_expression(e, t) is Ok,
        emit_expression(e, t)->Ok_0.code.len() <= usize::MAX,
    ensures
        leaves(emit_expression(e, t)->Ok_0.code, 1),
    decreases e, 1nat,
{
    match e {
        Expr::Array(items) => {
            array_leaves_one(items, t);
        },
        Expr::Prefix { operator, expr } => {
            prefix_leaves_one(operator, *expr, t);
        },
        Expr::Infix { operator, left, right } => {
            infix_leaves_one(operator, *left, *right, t);
        },
        Expr::If { condition, consequence, alternative } => {
            conditional_leaves_one_value(*condition, *consequence, *alternative, t);
        },
        Expr::Call { function, arguments } => {
            call_leaves_one(*function, arguments, t);
        },
        _ => {
            let code = emit_expression(e, t)->Ok_0.code;
            assert(code =~= seq![code[0]]);
            lemma_push_leaves_one(code[0]);
        },
    }
}

/// An array literal leaves one value.
proof fn array_leaves_one(items: Seq<Expr>, t: Table)
    requires
        valued(Expr::Array(items)),
        emit_expression(Expr::Array(items), t) is Ok,
        emit_expression(Expr::Array(items), t)->Ok_0.code.len() <= usize::MAX,
    ensures
        leaves(emit_expression(Expr::Array(items), t)->Ok_0.code, 1),
    decreases Expr::Array(items), 0nat,
{
    parts_are_smaller(Expr::Array(items));
    let inner = emit_expressions(items, t)->Ok_0;
    expressions_leave_each(items, t);
    leaves_with(inner.code, items.len() as int, Instr::Array(items.len() as usize));
}

/// A prefix operator leaves one value.
proof fn prefix_leaves_one(operator: Seq<char>, expr: Expr, t: Table)
    requires
        valued(Expr::prefix(operator, expr)),
        emit_expression(Expr::prefix(operator, expr), t) is Ok,
        emit_expression(Expr::prefix(operator, expr), t)->Ok_0.code.len() <= usize::MAX,
    ensures
        leaves(emit_expression(Expr::prefix(operator, expr), t)->Ok_0.code, 1),
    decreases Expr::prefix(operator, expr), 0nat,
{
    parts_are_smaller(Expr::prefix(operator, expr));
    let operand = emit_expression(expr, t)->Ok_0;
    expression_leaves_one(expr, t);
    leaves_with(
        operand.code,
        1,
        emit_expression(Expr::prefix(operator, expr), t)->Ok_0.code.last(),
    );
}

/// An infix operator leaves one value.
proof fn infix_leaves_one(operator: Seq<char>, left: Expr, right: Expr, t: Table)
    requires
        valued(Expr::infix(operator, left, right)),
        emit_expression(Expr::infix(operator, left, right), t) is Ok,
        emit_expression(Expr::infix(operator, left, right), t)->Ok_0.code.len() <= usize::MAX,
    ensures
        leaves(emit_expression(Expr::infix(operator, left, right), t)->Ok_0.code, 1),
    decreases Expr::infix(operator, left, right), 0nat,
{
    parts_are_smaller(Expr::infix(operator, left, right));
    let l = emit_expression(left, t)->Ok_0;
    let r = emit_expression(right, l.table)->Ok_0;
    expression_leaves_one(left, t);
    expression_leaves_one(right, l.table);
    leaves_in_sequence(l.code, 1, r.code, 1);
    leaves_with(
        l.code + r.code,
        2,
        emit_expression(Expr::infix(operator, left, right), t)->Ok_0.code.last(),
    );
}

/// A conditional whose branches give values leaves one value.
proof fn conditional_leaves_one_value(
    condition: Expr,
    consequence: Stmt,
    alternative: Stmt,
    t: Table,
)
    requires
        valued(Expr::conditional(condition, consequence, alternative)),
        emit_expression(Expr::conditional(condition, consequence, alternative), t) is Ok,
        emit_expression(
            Expr::conditional(condition, consequence, alternative),
            t,
        )->Ok_0.code.len() <= usize::MAX,
    ensures
        leaves(
            emit_expression(Expr::conditional(condition, consequence, alternative), t)->Ok_0.code,
            1,
        ),
    decreases Expr::conditional(condition, consequence, alternative), 0nat,
{
    parts_are_smaller(Expr::conditional(condition, consequence, alternative));
    let c = emit_expression(condition, t)->Ok_0;
    let k = emit_statement(consequence, c.table)->Ok_0;
    let a = emit_statement(alternative, k.table)->Ok_0;
    let code = conditional_code(c.code, k.code, a.code);
    assert(code == emit_expression(
        Expr::conditional(condition, consequence, alternative),
        t,
    )->Ok_0.code);
    let a1 = branch_code(a.code);
    assert(code.len() == c.code.len() + 2 + branch_code(k.code).len() + a1.len() + branch_padding(
        a1,
    ).len());
    expression_leaves_one(condition, t);
    block_leaves_one(consequence, c.table);
    if valued_block(alternative) {
        block_leaves_one(alternative, k.table);
        if a1.len() == 0 {
            assert(arrives(a1, 0, 0) == Some(1int));
            arrives_at_end(a1, 0);
        }
        assert(a1 + branch_padding(a1) =~= a1);
    } else {
        reveal_with_fuel(emit_statements, 2);
        assert(a.code =~= Seq::<Instr>::empty());
        lemma_push_leaves_one(Instr::Null);
        assert(a1 + branch_padding(a1) =~= seq![Instr::Null]);
    }
    conditional_leaves_one(c.code, k.code, a.code);
}

/// A call leaves one value where the function returns one.
proof fn call_leaves_one(function: Expr, arguments: Seq<Expr>, t: Table)
    requires
        valued(Expr::call(function, arguments)),
        emit_expression(Expr::call(function, arguments), t) is Ok,
        emit_expression(Expr::call(function, arguments), t)->Ok_0.code.len() <= usize::MAX,
    ensures
        leaves(emit_expression(Expr::call(function, arguments), t)->Ok_0.code, 1),
    decreases Expr::call(function, arguments), 0nat,
{
    parts_are_smaller(Expr::call(function, arguments));
    let f = emit_expression(function, t)->Ok_0;
    let args = emit_expressions(arguments, f.table)->Ok_0;
    expression_leaves_one(function, t);
    expressions_leave_each(arguments, f.table);
    leaves_in_sequence(f.code, 1, args.code, arguments.len() as int);
    leaves_with(
        f.code + args.code,
        1 + arguments.len() as int,
        Instr::Call(arguments.len() as usize),
    );
}

/// The instructions of a list of such expressions leave one value for each.
pub proof fn expressions_leave_each(es: Seq<Expr>, t: Table)
    requires
        forall|i: int| 0 <= i < es.len() ==> valued(#[trigger] es[i]),
        emit_expressions(es, t) is Ok,
        emit_expressions(es, t)->Ok_0.code.len() <= usize::MAX,
    ensures
        leaves(emit_expressions(es, t)->Ok_0.code, es.len() as int),
    decreases es, 0nat,
{
    if es.len() == 0 {
        leaves_nothing();
    } else {
        let front = emit_expressions(es.drop_last(), t)->Ok_0;
        let last = emit_expression(es.last(), front.table)->Ok_0;
        assert forall|i: int| 0 <= i < es.drop_last().len() implies valued(
            #[trigger] es.drop_last()[i],
        ) by {
            assert(es.drop_last()[i] == es[i]);
        }
        expressions_leave_each(es.drop_last(), t);
        expression_leaves_one(es.last(), front.table);
        leaves_in_sequence(front.code, es.len() - 1, last.code, 1);
    }
}

/// The instructions of a `let` or of an expression statement, of an
/// expression whose conditionals give values, leave the stack as high as
/// it was.
pub proof fn statement_leaves_nothing(s: Stmt, t: Table)
    requires
        plain(s),
        emit_statement(s, t) is Ok,
        emit_statement(s, t)->Ok_0.code.len() <= usize::MAX,
    ensures
        leaves(emit_statement(s, t)->Ok_0.code, 0),
    decreases s, 2nat,
{
    match s {
        Stmt::Let { ident, expr } => {
            let value = emit_expression(expr, t)->Ok_0;
            expression_leaves_one(expr, t);
            leaves_with(value.code, 1, emit_statement(s, t)->Ok_0.code.last());
        },
        Stmt::Expr(e) => {
            let value = emit_expression(e, t)->Ok_0;
            expression_leaves_one(e, t);
            leaves_with(value.code, 1, Instr::Pop);
        },
        _ => {},
    }
}

/// The instructions of a list of such statements leave the stack as high
/// as it was.
pub proof fn statements_leave_nothing(ss: Seq<Stmt>, t: Table)
    requires
        forall|i: int| 0 <= i < ss.len() ==> plain(#[trigger] ss[i]),
        emit_statements(ss, t) is Ok,
        emit_statements(ss, t)->Ok_0.code.len() <= usize::MAX,
    ensures
        leaves(emit_statements(ss, t)->Ok_0.code, 0),
    decreases ss, 0nat,
{
    if ss.len() == 0 {
        leaves_nothing();
    } else {
        let front = emit_statements(ss.drop_last(), t)->Ok_0;
        let last = emit_statement(ss.last(), front.table)->Ok_0;
        assert forall|i: int| 0 <= i < ss.drop_last().len() implies plain(
            #[trigger] ss.drop_last()[i],
        ) by {
            assert(ss.drop_last()[i] == ss[i]);
        }
        statements_leave_nothing(ss.drop_last(), t);
        statement_leaves_nothing(ss.last(), front.table);
        leaves_in_sequence(front.code, 0, last.code, 0);
    }
}

/// The instructions of a block are those of its statements but the last,
/// followed by those of the last.
proof fn lemma_block_code(ss: Seq<Stmt>, t: Table)
    requires
        ss.len() > 0,
        emit_statement(Stmt::Block(ss), t) is Ok,
    ensures
        emit_statements(ss.drop_last(), t) is Ok,
        emit_statement(ss.last(), emit_statements(ss.drop_last(), t)->Ok_0.table) is Ok,
        emit_statement(Stmt::Block(ss), t)->Ok_0.code == emit_statements(
            ss.drop_last(),
            t,
        )->Ok_0.code + emit_statement(
            ss.last(),
            emit_statements(ss.drop_last(), t)->Ok_0.table,
        )->Ok_0.code,
{
    assert(emit_statement(Stmt::Block(ss), t) == emit_statements(ss, t));
}

/// The instructions of an expression statement and of a `return` are those
/// of the expression, followed by a `Pop` or by a `ReturnValue`.
proof fn lemma_last_code(s: Stmt, t: Table)
    requires
        emit_statement(s, t) is Ok,
    ensures
        match s {
            Stmt::Expr(e) => emit_expression(e, t) is Ok && emit_statement(s, t)->Ok_0.code
                == emit_expression(e, t)->Ok_0.code.push(Instr::Pop),
            Stmt::Return(e) => emit_expression(e, t) is Ok && emit_statement(s, t)->Ok_0.code
                == emit_expression(e, t)->Ok_0.code.push(Instr::ReturnValue),
            _ => true,
        },
{
}

/// The instructions of a branch that gives a value leave one value, once
/// the `Pop` of its last statement is taken off.
pub proof fn block_leaves_one(s: Stmt, t: Table)
    requires
        valued_block(s),
        emit_statement(s, t) is Ok,
        emit_statement(s, t)->Ok_0.code.len() <= usize::MAX,
    ensures
        leaves(branch_code(emit_statement(s, t)->Ok_0.code), 1),
    decreases s, 3nat,
{
    statement_parts_are_smaller(s);
    match s {
        Stmt::Block(ss) => {
            lemma_block_code(ss, t);
            let front = emit_statements(ss.drop_last(), t)->Ok_0;
            lemma_last_code(ss.last(), front.table);
            assert forall|i: int| 0 <= i < ss.drop_last().len() implies plain(
                #[trigger] ss.drop_last()[i],
            ) by {
                assert(ss.drop_last()[i] == ss[i]);
            }
            statements_leave_nothing(ss.drop_last(), t);
            match ss.last() {
                Stmt::Expr(e) => {
                    let value = emit_expression(e, front.table)->Ok_0;
                    expression_leaves_one(e, front.table);
                    leaves_in_sequence(front.code, 0, value.code, 1);
                    assert(branch_code(front.code + value.code.push(Instr::Pop)) =~= front.code
                        + value.code);
                },
                _ => {},
            }
        },
        _ => {},
    }
}

/// The body of a compiled function whose block is empty or ends, behind
/// statements that leave nothing, in an expression statement or a
/// `return`, comes to a return whichever way the conditional jumps go,
/// with a value to return where the return takes one.
pub proof fn body_comes_back(body: Stmt, t: Table, h: int)
    requires
        returning_block(body),
        emit_statement(body, t) is Ok,
        emit_statement(body, t)->Ok_0.code.len() <= usize::MAX,
        h >= 0,
    ensures
        comes_back(function_body(emit_statement(body, t)->Ok_0.code), 0, h),
{
    match body {
        Stmt::Block(ss) => {
            if ss.len() == 0 {
                assert(emit_statement(body, t) == emit_statements(ss, t));
                let back = seq![Instr::Return];
                assert(function_body(emit_statement(body, t)->Ok_0.code) =~= back);
                assert(comes_back(back, 0, h)) by {
                    reveal(comes_back);
                }
            } else {
                lemma_block_code(ss, t);
                let front = emit_statements(ss.drop_last(), t)->Ok_0;
                lemma_last_code(ss.last(), front.table);
                assert forall|i: int| 0 <= i < ss.drop_last().len() implies plain(
                    #[trigger] ss.drop_last()[i],
                ) by {
                    assert(ss.drop_last()[i] == ss[i]);
                }
                statements_leave_nothing(ss.drop_last(), t);
                let e = match ss.last() {
                    Stmt::Expr(e) => e,
                    Stmt::Return(e) => e,
                    _ => arbitrary(),
                };
                let value = emit_expression(e, front.table)->Ok_0;
                expression_leaves_one(e, front.table);
                leaves_in_sequence(front.code, 0, value.code, 1);
                let back = seq![Instr::ReturnValue];
                let run = front.code + value.code;
                assert(function_body(emit_statement(body, t)->Ok_0.code) =~= run + back);
                assert(arrives(run, 0, h) == Some(h + 1));
                arrives_then_comes_back(run, back, 0, h);
                assert(comes_back(back, 0, h + 1)) by {
                    reveal(comes_back);
                }
            }
        },
        _ => {},
    }
}


/// Whether a fault is one of the values that the program works on: of
/// their kinds and sizes, or of a variable that is not there. The other
/// faults are of the instructions themselves: too few values on the stack,
/// a call of what cannot be called, a return without a call.
pub open spec fn of_values(f: Fault) -> bool {
    f == Fault::TypeMismatch || f == Fault::DivisionByZero || f == Fault::Overflow || f
        == Fault::MissingGlobal || f == Fault::MissingLocal
}

/// Whether `code` holds no call.
pub open spec fn call_free(code: Seq<Instr>) -> bool {
    forall|i: int| 0 <= i < code.len() ==> !(#[trigger] code[i] is Call)
}

/// What the machine `after` may be where it has come from `before` by
/// instructions that are neither calls nor returns: no call is opened or
/// closed, and the stack is higher by `delta`.
pub open spec fn moved(before: Machine, after: Machine, delta: int) -> bool {
    &&& after.frames == before.frames
    &&& after.stack.len() == before.stack.len() + delta
}

/// An instruction that is no jump, no call and no return, and finds its
/// operands, changes the height of the stack by the difference between
/// what it puts there and what it takes, or stops the machine with a fault
/// of the values. It passes nothing over.
pub proof fn execute_moves(m: Machine, i: Instr)
    requires
        m.stack.len() >= operands(i),
        !(i is Jump),
        !(i is JumpNotTruthy),
        !(i is Call),
        !(i is Return),
        !(i is ReturnValue),
    ensures
        match m.execute(i) {
            Ok(next) => moved(m, next, stack_delta(i)) && next.jump == m.jump && next.code
                == m.code,
            Err(f) => of_values(f),
        },
{
}

/// What the computed height means for a run of the machine. The machine
/// stands before the instruction at `pc` of `code`, with `m.jump` of the
/// next instructions to pass over and `h` values of its own on the stack,
/// and `code` holds no call. Where the height at the end is computed, from
/// the instruction at which the machine takes up its work, to be `end`,
/// the machine comes to the end of `code` with every instruction taken in
/// one step, and has `end` values there where it had `h`; or it stops
/// before with a fault of the values. It never finds too few values.
pub proof fn arrives_is_sound(code: Seq<Instr>, pc: int, h: int, end: int, m: Machine)
    requires
        call_free(code),
        0 <= pc <= code.len(),
        pc + m.jump <= code.len(),
        m.code == code.skip(pc),
        0 <= h <= m.stack.len(),
        arrives(code, pc + m.jump, h) == Some(end),
    ensures
        match m.after((code.len() - pc) as nat) {
            Ok(last) => last.code.len() == 0 && last.jump == 0 && moved(m, last, end - h),
            Err(f) => of_values(f),
        },
    decreases code.len() - pc,
{
    let n = (code.len() - pc) as nat;
    if pc == code.len() {
        arrives_at_end(code, h);
    } else {
        let i = code[pc];
        assert(m.code[0] == i);
        assert(m.code.drop_first() =~= code.skip(pc + 1));
        let skipped = Machine { code: m.code.drop_first(), ..m };
        assert(!m.halted());
        assert(m.after(n) == match m.step() {
            Ok(next) => next.after((n - 1) as nat),
            Err(f) => Err(f),
        });
        if m.jump > 0 {
            let next = Machine { jump: (m.jump - 1) as nat, ..skipped };
            assert(m.step() == Ok::<Machine, Fault>(next));
            arrives_is_sound(code, pc + 1, h, end, next);
        } else {
            assert(m.step() == skipped.execute(i));
            match i {
                Instr::Jump(k) => {
                    arrives_jump(code, pc, h);
                    let next = skipped.execute(i)->Ok_0;
                    arrives_is_sound(code, pc + 1, h, end, next);
                },
                Instr::JumpNotTruthy(k) => {
                    arrives_branch(code, pc, h);
                    let next = skipped.execute(i)->Ok_0;
                    arrives_is_sound(code, pc + 1, h - 1, end, next);
                },
                Instr::Return | Instr::ReturnValue => {
                    assert(arrives(code, pc, h) is None) by {
                        reveal(arrives);
                    }
                },
                _ => {
                    arrives_step(code, pc, h);
                    execute_moves(skipped, i);
                    match skipped.execute(i) {
                        Ok(next) => {
                            arrives_is_sound(code, pc + 1, h + stack_delta(i), end, next);
                        },
                        Err(f) => {},
                    }
                },
            }
        }
    }
}

/// The instructions of an expression whose conditionals give values, and
/// which calls nothing, run on the machine. From the start the machine
/// takes every instruction in one step and comes to the end with one
/// value on its stack; or it stops before with a fault of the values. It
/// never finds too few values on the stack.
pub proof fn expression_runs_to_one_value(e: Expr, t: Table, globals: Map<usize, Value>)
    requires
        valued(e),
        emit_expression(e, t) is Ok,
        emit_expression(e, t)->Ok_0.code.len() <= usize::MAX,
        call_free(emit_expression(e, t)->Ok_0.code),
    ensures
        ({
            let code = emit_expression(e, t)->Ok_0.code;
            match Machine::start(code, globals).after(code.len()) {
                Ok(last) => last.halted() && last.stack.len() == 1,
                Err(f) => of_values(f),
            }
        }),
{
    let code = emit_expression(e, t)->Ok_0.code;
    let m = Machine::start(code, globals);
    expression_leaves_one(e, t);
    assert(arrives(code, 0, 0) == Some(1int));
    assert(code.skip(0) =~= code);
    arrives_is_sound(code, 0, 0, 1, m);
}

/// The instructions of a program of statements that leave nothing, which
/// calls nothing, run on the machine: it comes to the end with an empty
/// stack, or stops before with a fault of the values.
pub proof fn program_runs_to_its_end(
    program: Seq<Stmt>,
    t: Table,
    globals: Map<usize, Value>,
)
    requires
        forall|i: int| 0 <= i < program.len() ==> plain(#[trigger] program[i]),
        emit_statements(program, t) is Ok,
        emit_statements(program, t)->Ok_0.code.len() <= usize::MAX,
        call_free(emit_statements(program, t)->Ok_0.code),
    ensures
        ({
            let code = emit_statements(program, t)->Ok_0.code;
            match Machine::start(code, globals).after(code.len()) {
                Ok(last) => last.halted() && last.stack.len() == 0,
                Err(f) => of_values(f),
            }
        }),
{
    let code = emit_statements(program, t)->Ok_0.code;
    let m = Machine::start(code, globals);
    statements_leave_nothing(program, t);
    assert(arrives(code, 0, 0) == Some(0int));
    assert(code.skip(0) =~= code);
    arrives_is_sound(code, 0, 0, 0, m);
}


/// What `comes_back` says of an instruction that is no jump and no return.
pub proof fn comes_back_step(code: Seq<Instr>, pc: int, h: int)
    requires
        0 <= pc < code.len(),
        !(code[pc] is Jump),
        !(code[pc] is JumpNotTruthy),
        !(code[pc] is Return),
        !(code[pc] is ReturnValue),
    ensures
        comes_back(code, pc, h) == (h >= operands(code[pc]) && comes_back(
            code,
            pc + 1,
            h + stack_delta(code[pc]),
        )),
{
    reveal(comes_back);
}

/// What `comes_back` says of the jumps and of the returns, and of the end
/// of the code.
pub proof fn comes_back_jump(code: Seq<Instr>, pc: int, h: int)
    ensures
        (pc < 0 || pc >= code.len()) ==> !comes_back(code, pc, h),
        0 <= pc < code.len() ==> (match code[pc] {
            Instr::Jump(k) => comes_back(code, pc, h) == (h >= 0 && pc + 1 + k <= code.len()
                && comes_back(code, pc + 1 + k, h)),
            Instr::JumpNotTruthy(k) => comes_back(code, pc, h) == (h >= 1 && pc + 1 + k
                <= code.len() && comes_back(code, pc + 1, h - 1) && comes_back(
                code,
                pc + 1 + k,
                h - 1,
            )),
            Instr::ReturnValue => comes_back(code, pc, h) == (h >= 1),
            Instr::Return => comes_back(code, pc, h) == (h >= 0),
            _ => true,
        }),
{
    reveal(comes_back);
}

/// What it means for a run of the machine that the code comes back. The
/// machine is in a call, before the instruction at `pc` of the body
/// `code`, which holds no call; it has `m.jump` of the next instructions
/// to pass over, and `h` values of its own on the stack above the local
/// slots of the call. Where the body comes back from the instruction at
/// which the machine takes up its work, the machine returns within as
/// many steps as the body has instructions left: the call is over, the
/// caller goes on where it was, and on the stack lies what lay under the
/// local slots, and one value more. Or the machine stops before with a
/// fault of the values.
pub proof fn comes_back_is_sound(code: Seq<Instr>, pc: int, h: int, m: Machine) -> (steps: nat)
    requires
        call_free(code),
        0 <= pc <= code.len(),
        pc + m.jump <= code.len(),
        m.code == code.skip(pc),
        m.frames.len() > 0,
        0 <= h,
        m.base() + h <= m.stack.len(),
        comes_back(code, pc + m.jump, h),
    ensures
        1 <= steps <= code.len() - pc,
        match m.after(steps) {
            Ok(back) => {
                &&& back.frames == m.frames.drop_last()
                &&& back.code == m.frames.last().code
                &&& back.jump == 0
                &&& back.stack.len() == m.base() + 1
                &&& back.stack.take(m.base() as int) == m.stack.take(m.base() as int)
            },
            Err(f) => of_values(f),
        },
    decreases code.len() - pc,
{
    comes_back_jump(code, pc + m.jump, h);
    let i = code[pc];
    assert(m.code[0] == i);
    assert(m.code.drop_first() =~= code.skip(pc + 1));
    let skipped = Machine { code: m.code.drop_first(), ..m };
    assert(!m.halted());
    if m.jump > 0 {
        let next = Machine { jump: (m.jump - 1) as nat, ..skipped };
        assert(m.step() == Ok::<Machine, Fault>(next));
        let k = comes_back_is_sound(code, pc + 1, h, next);
        lemma_after_step(m, k + 1);
        k + 1
    } else {
        assert(m.step() == skipped.execute(i));
        match i {
            Instr::Jump(k) => {
                let next = skipped.execute(i)->Ok_0;
                let steps = comes_back_is_sound(code, pc + 1, h, next);
                lemma_after_step(m, steps + 1);
                steps + 1
            },
            Instr::JumpNotTruthy(k) => {
                let next = skipped.execute(i)->Ok_0;
                let steps = comes_back_is_sound(code, pc + 1, h - 1, next);
                lemma_after_step(m, steps + 1);
                steps + 1
            },
            Instr::Return | Instr::ReturnValue => {
                let back = skipped.execute(i)->Ok_0;
                lemma_after_step(m, 1);
                assert(back.after(0) == Ok::<Machine, Fault>(back));
                let base = m.base() as int;
                if i is ReturnValue {
                    assert(skipped.stack.drop_last().take(base) =~= m.stack.take(base));
                    if skipped.stack.drop_last().len() == base {
                        assert(skipped.stack.drop_last() =~= m.stack.take(base));
                    }
                } else {
                    if skipped.stack.len() == base {
                        assert(skipped.stack =~= m.stack.take(base));
                    }
                }
                assert(back.stack.take(base) =~= m.stack.take(base));
                1
            },
            _ => {
                comes_back_step(code, pc, h);
                execute_moves(skipped, i);
                match skipped.execute(i) {
                    Ok(next) => {
                        lemma_locals_stay(skipped, i);
                        let steps = comes_back_is_sound(code, pc + 1, h + stack_delta(i), next);
                        lemma_after_step(m, steps + 1);
                        steps + 1
                    },
                    Err(f) => {
                        lemma_after_step(m, 1);
                        1
                    },
                }
            },
        }
    }
}

/// The machine after one step and then `n - 1` more is the machine after
/// `n` steps, where it has not come to its end before.
proof fn lemma_after_step(m: Machine, n: nat)
    requires
        n >= 1,
        !m.halted(),
    ensures
        m.after(n) == (match m.step() {
            Ok(next) => next.after((n - 1) as nat),
            Err(f) => Err(f),
        }),
{
}

/// An instruction that is no jump, no call and no return leaves what lies
/// under the local slots of the call as it is, where the machine has
/// values of its own for all that the instruction takes.
proof fn lemma_locals_stay(m: Machine, i: Instr)
    requires
        m.base() + operands(i) <= m.stack.len(),
        !(i is Jump),
        !(i is JumpNotTruthy),
        !(i is Call),
        !(i is Return),
        !(i is ReturnValue),
        m.execute(i) is Ok,
    ensures
        m.execute(i)->Ok_0.stack.take(m.base() as int) == m.stack.take(m.base() as int),
{
    let next = m.execute(i)->Ok_0;
    assert(next.stack.take(m.base() as int) =~= m.stack.take(m.base() as int));
}


/// The instructions of the compiled function that a function literal with
/// the parameters `parameters` and the body `body` gives in the table `t`.
pub open spec fn compiled_body(parameters: Seq<Expr>, body: Stmt, t: Table) -> Seq<Instr> {
    function_body(
        emit_statement(
            body,
            define_parameters(parameters, Table::empty(Some(Box::new(t))))->Ok_0,
        )->Ok_0.code,
    )
}

/// A call of a compiled function that calls nothing itself. The function
/// comes of a literal whose body is empty or ends, behind statements that
/// leave nothing, in an expression statement or a `return`; it lies on the
/// stack under as many arguments as it has parameters. Then the call goes
/// into the function, and within as many steps as the function has
/// instructions the machine is back in the caller, which goes on where it
/// was: its stack holds what lay under the function, and one value more.
/// Or the machine stops before with a fault of the values.
pub proof fn call_returns_one_value(parameters: Seq<Expr>, body: Stmt, t: Table, m: Machine) -> (steps:
    nat)
    requires
        returning_block(body),
        parameters.len() < m.stack.len() <= usize::MAX,
        emit_expression(Expr::function(parameters, body), t) is Ok,
        m.stack[m.stack.len() - parameters.len() - 1] == emit_expression(
            Expr::function(parameters, body),
            t,
        )->Ok_0.code[0]->Constant_0,
        call_free(compiled_body(parameters, body, t)),
        compiled_body(parameters, body, t).len() <= usize::MAX,
        m.jump == 0,
    ensures
        m.execute(Instr::Call(parameters.len() as usize)) is Ok,
        1 <= steps <= compiled_body(parameters, body, t).len(),
        ({
            let under = m.stack.len() - parameters.len() - 1;
            match m.execute(Instr::Call(parameters.len() as usize))->Ok_0.after(steps) {
                Ok(back) => {
                    &&& back.frames == m.frames
                    &&& back.code == m.code
                    &&& back.jump == 0
                    &&& back.stack.len() == under + 1
                    &&& back.stack.take(under) == m.stack.take(under)
                },
                Err(f) => of_values(f),
            }
        }),
{
    let under = m.stack.len() - parameters.len() - 1;
    let scope = Table::empty(Some(Box::new(t)));
    let inner = define_parameters(parameters, scope)->Ok_0;
    let code = compiled_body(parameters, body, t);
    function_has_slots_for_parameters(parameters, body, t);
    body_comes_back(body, inner, 0);
    let entered = m.execute(Instr::Call(parameters.len() as usize))->Ok_0;
    assert(entered.code == code);
    assert(code.skip(0) =~= code);
    assert(entered.frames.drop_last() =~= m.frames);
    assert(entered.stack.take(under) =~= m.stack.take(under));
    comes_back_is_sound(code, 0, 0, entered)
}

} // verus!
