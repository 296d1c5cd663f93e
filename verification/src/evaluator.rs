use crate::ast::{
    expressions_view, parts_are_smaller, statement_parts_are_smaller, statements_view, Expr, Expression, Statement, Stmt,
};
use crate::machine::quotient;
use crate::object::{boxed_objects_view, Env, Environment, Object, Value};
use crate::parser::{parse_program, plain_statements_view, ParseError, Parser};
use crate::text::{parse_i32, parse_int, same_text};
use vstd::prelude::*;

verus! {

/// Why a program was not evaluated.
#[derive(PartialEq, Eq, Debug, Clone, Copy, Structural)]
pub enum EvalError {
    /// A name is used that no scope has.
    UnknownIdentifier,
    /// A `let` whose target is not a name, or a block where a plain
    /// statement is needed.
    InvalidStatement,
    /// A branch or a function body that is no block.
    InvalidBlock,
    /// An integer literal that is no 32-bit integer in base ten.
    InvalidInteger,
    /// An operator that the operands do not have.
    UnknownOperator,
    /// An operand is of a kind that the operator does not take.
    TypeMismatch,
    /// A division by zero.
    DivisionByZero,
    /// The result of an operation on integers is no 32-bit integer.
    Overflow,
    /// The value that is called is no function.
    NotAFunction,
    /// A parameter of a function is not a name.
    InvalidParameter,
}

/// Why an evaluation gave no value: it failed, or it needs calls nested
/// more deeply than it was allowed.
pub enum Halt {
    Fault(EvalError),
    TooDeep,
}

/// What an evaluation gives: a value and the environment that it leaves.
pub type Evaluated = Result<(Value, Env), Halt>;

/// The integer `n` as a value, where it is a 32-bit integer.
pub open spec fn int_result(n: int) -> Result<Value, EvalError> {
    if i32::MIN <= n <= i32::MAX {
        Ok(Value::Int(n as i32))
    } else {
        Err(EvalError::Overflow)
    }
}

/// What `!` makes of a value: `true` of `false` and of `Null`, and `false`
/// of anything else.
pub open spec fn bang(v: Value) -> Value {
    match v {
        Value::Bool(b) => Value::Bool(!b),
        Value::Null => Value::Bool(true),
        _ => Value::Bool(false),
    }
}

/// What a prefix operator makes of its operand.
pub open spec fn prefix_value(op: Seq<char>, v: Value) -> Result<Value, EvalError> {
    if op == seq!['!'] {
        Ok(bang(v))
    } else if op == seq!['-'] {
        match v {
            Value::Int(n) => int_result(-n),
            _ => Err(EvalError::TypeMismatch),
        }
    } else {
        Err(EvalError::UnknownOperator)
    }
}

/// What an infix operator makes of two integers.
pub open spec fn int_infix(op: Seq<char>, l: i32, r: i32) -> Result<Value, EvalError> {
    if op == seq!['+'] {
        int_result(l + r)
    } else if op == seq!['-'] {
        int_result(l - r)
    } else if op == seq!['*'] {
        int_result(l * r)
    } else if op == seq!['/'] {
        if r == 0 {
            Err(EvalError::DivisionByZero)
        } else {
            int_result(quotient(l as int, r as int))
        }
    } else if op == seq!['<'] {
        Ok(Value::Bool(l < r))
    } else if op == seq!['>'] {
        Ok(Value::Bool(l > r))
    } else if op == seq!['=', '='] {
        Ok(Value::Bool(l == r))
    } else if op == seq!['!', '='] {
        Ok(Value::Bool(l != r))
    } else {
        Err(EvalError::UnknownOperator)
    }
}

/// What an infix operator makes of two booleans.
pub open spec fn bool_infix(op: Seq<char>, l: bool, r: bool) -> Result<Value, EvalError> {
    if op == seq!['=', '='] {
        Ok(Value::Bool(l == r))
    } else if op == seq!['!', '='] {
        Ok(Value::Bool(l != r))
    } else {
        Err(EvalError::UnknownOperator)
    }
}

/// What an infix operator makes of two operands: two integers or two
/// booleans.
pub open spec fn infix_value(op: Seq<char>, l: Value, r: Value) -> Result<Value, EvalError> {
    match (l, r) {
        (Value::Int(a), Value::Int(b)) => int_infix(op, a, b),
        (Value::Bool(a), Value::Bool(b)) => bool_infix(op, a, b),
        _ => Err(EvalError::TypeMismatch),
    }
}

/// What evaluating has given, with a value made of it.
pub open spec fn finish(r: Result<Value, EvalError>, env: Env) -> Evaluated {
    match r {
        Ok(v) => Ok((v, env)),
        Err(e) => Err(Halt::Fault(e)),
    }
}

/// The value that a call gives: what the body returned, or the value of
/// its last statement.
pub open spec fn returned_value(v: Value) -> Value {
    match v {
        Value::Return(inner) => *inner,
        _ => v,
    }
}

/// What evaluating the expression `e` in `env` gives, with calls nested no
/// more deeply than `depth`.
#[verifier::opaque]
pub open spec fn eval_expression(e: Expr, env: Env, depth: nat) -> Evaluated
    decreases depth, e, 1nat,
{
    match e {
        Expr::Ident(name) => match env.lookup(name) {
            Some(v) => Ok((v, env)),
            None => Err(Halt::Fault(EvalError::UnknownIdentifier)),
        },
        Expr::Int(text) => match parse_int(text) {
            Some(n) => Ok((Value::Int(n), env)),
            None => Err(Halt::Fault(EvalError::InvalidInteger)),
        },
        Expr::Str(text) => Ok((Value::Str(text), env)),
        Expr::Bool(text) => Ok((Value::Bool(text == seq!['t', 'r', 'u', 'e']), env)),
        Expr::Array(items) => eval_array(items, env, depth),
        Expr::Prefix { operator, expr } => eval_prefix(operator, *expr, env, depth),
        Expr::Infix { operator, left, right } => eval_infix(operator, *left, *right, env, depth),
        Expr::If { condition, consequence, alternative } => eval_if(
            *condition,
            *consequence,
            *alternative,
            env,
            depth,
        ),
        Expr::Function { parameters, body } => Ok(
            (Value::Function { parameters, body, env }, env),
        ),
        Expr::Call { function, arguments } => eval_call(*function, arguments, env, depth),
    }
}

/// What evaluating an array literal gives: the array of the values of its
/// items.
#[verifier::opaque]
pub open spec fn eval_array(items: Seq<Expr>, env: Env, depth: nat) -> Evaluated
    decreases depth, Expr::Array(items), 0nat,
{
    proof {
        let whole = Expr::Array(items);
        assert(whole->Array_0 == items);
        assert(decreases_to!(whole => items));
    }
    match eval_items(items, items.len(), env, depth) {
        Ok((values, after)) => Ok((Value::Array(values), after)),
        Err(h) => Err(h),
    }
}

/// What evaluating a prefix operator on an operand gives.
#[verifier::opaque]
pub open spec fn eval_prefix(op: Seq<char>, expr: Expr, env: Env, depth: nat) -> Evaluated
    decreases depth, (Expr::Prefix { operator: op, expr: Box::new(expr) }), 0nat,
{
    proof {
        let whole = Expr::Prefix { operator: op, expr: Box::new(expr) };
        assert(whole->Prefix_expr == Box::new(expr));
        assert(decreases_to!(whole => expr));
    }
    match eval_expression(expr, env, depth) {
        Ok((v, after)) => finish(prefix_value(op, v), after),
        Err(h) => Err(h),
    }
}

/// What evaluating an infix operator between two operands gives: the left
/// operand is evaluated first.
#[verifier::opaque]
pub open spec fn eval_infix(op: Seq<char>, left: Expr, right: Expr, env: Env, depth: nat) -> Evaluated
    decreases
        depth,
        (Expr::Infix { operator: op, left: Box::new(left), right: Box::new(right) }),
        0nat,
{
    proof {
        let whole = Expr::Infix { operator: op, left: Box::new(left), right: Box::new(right) };
        assert(whole->left == Box::new(left));
        assert(whole->right == Box::new(right));
        assert(decreases_to!(whole => left));
        assert(decreases_to!(whole => right));
    }
    match eval_expression(left, env, depth) {
        Ok((l, env1)) => match eval_expression(right, env1, depth) {
            Ok((r, env2)) => finish(infix_value(op, l, r), env2),
            Err(h) => Err(h),
        },
        Err(h) => Err(h),
    }
}

/// What evaluating a conditional gives: the value of the alternative where
/// the condition is `Null` or `false`, and that of the consequence where
/// it is anything else.
#[verifier::opaque]
pub open spec fn eval_if(
    condition: Expr,
    consequence: Stmt,
    alternative: Stmt,
    env: Env,
    depth: nat,
) -> Evaluated
    decreases
        depth,
        (Expr::If {
            condition: Box::new(condition),
            consequence: Box::new(consequence),
            alternative: Box::new(alternative),
        }),
        0nat,
{
    proof {
        let whole = Expr::If {
            condition: Box::new(condition),
            consequence: Box::new(consequence),
            alternative: Box::new(alternative),
        };
        assert(whole->condition == Box::new(condition));
        assert(whole->consequence == Box::new(consequence));
        assert(whole->alternative == Box::new(alternative));
        assert(decreases_to!(whole => condition));
        assert(decreases_to!(whole => consequence));
        assert(decreases_to!(whole => alternative));
    }
    match eval_expression(condition, env, depth) {
        Ok((c, after)) => if c == Value::Null || c == Value::Bool(false) {
            eval_block(alternative, after, depth)
        } else {
            eval_block(consequence, after, depth)
        },
        Err(h) => Err(h),
    }
}

/// How many arguments of a call are bound to parameters: as many as there
/// are of both.
pub open spec fn bound_count(parameters: Seq<Expr>, arguments: Seq<Expr>) -> nat {
    if parameters.len() <= arguments.len() {
        parameters.len()
    } else {
        arguments.len()
    }
}

/// What evaluating a call gives: the function is evaluated, then the
/// arguments in order, each bound to its parameter in a scope inside the
/// environment that the function has captured; the body is evaluated in
/// that scope, one call deeper.
#[verifier::opaque]
pub open spec fn eval_call(function: Expr, arguments: Seq<Expr>, env: Env, depth: nat) -> Evaluated
    decreases depth, (Expr::Call { function: Box::new(function), arguments }), 0nat,
{
    proof {
        let whole = Expr::Call { function: Box::new(function), arguments };
        assert(whole->function == Box::new(function));
        assert(whole->arguments == arguments);
        assert(decreases_to!(whole => function));
        assert(decreases_to!(whole => arguments));
    }
    match eval_expression(function, env, depth) {
        Ok((f, env1)) => match f {
            Value::Function { parameters, body, env: captured } => match bind_arguments(
                parameters,
                arguments,
                bound_count(parameters, arguments),
                Env::inside(captured),
                env1,
                depth,
            ) {
                Ok((scope, env2)) => if depth == 0 {
                    Err(Halt::TooDeep)
                } else {
                    match eval_block(*body, scope, (depth - 1) as nat) {
                        Ok((v, _)) => Ok((returned_value(v), env2)),
                        Err(h) => Err(h),
                    }
                },
                Err(h) => Err(h),
            },
            _ => Err(Halt::Fault(EvalError::NotAFunction)),
        },
        Err(h) => Err(h),
    }
}

/// The values of the first `n` of `items`, evaluated in order, and the
/// environment after them.
#[verifier::opaque]
pub open spec fn eval_items(items: Seq<Expr>, n: nat, env: Env, depth: nat) -> Result<
    (Seq<Value>, Env),
    Halt,
>
    decreases depth, items, n,
{
    if n == 0 || n > items.len() {
        Ok((Seq::empty(), env))
    } else {
        match eval_items(items, (n - 1) as nat, env, depth) {
            Ok((values, env1)) => match eval_expression(items[n - 1], env1, depth) {
                Ok((v, env2)) => Ok((values.push(v), env2)),
                Err(h) => Err(h),
            },
            Err(h) => Err(h),
        }
    }
}

/// The scope `scope` of a call with the first `n` parameters set to the
/// values of the first `n` arguments, which are evaluated in `env` in
/// order; and the environment after them.
#[verifier::opaque]
pub open spec fn bind_arguments(
    parameters: Seq<Expr>,
    arguments: Seq<Expr>,
    n: nat,
    scope: Env,
    env: Env,
    depth: nat,
) -> Result<(Env, Env), Halt>
    decreases depth, arguments, n,
{
    if n == 0 || n > arguments.len() || n > parameters.len() {
        Ok((scope, env))
    } else {
        match bind_arguments(parameters, arguments, (n - 1) as nat, scope, env, depth) {
            Ok((scope1, env1)) => match parameters[n - 1] {
                Expr::Ident(name) => match eval_expression(arguments[n - 1], env1, depth) {
                    Ok((v, env2)) => Ok((scope1.set(name, v), env2)),
                    Err(h) => Err(h),
                },
                _ => Err(Halt::Fault(EvalError::InvalidParameter)),
            },
            Err(h) => Err(h),
        }
    }
}

/// What evaluating a block gives: the value of its last statement, or of
/// the first that returns; `Null` for an empty block.
#[verifier::opaque]
pub open spec fn eval_block(block: Stmt, env: Env, depth: nat) -> Evaluated
    decreases depth, block, 1nat,
{
    match block {
        Stmt::Block(statements) => eval_statements(statements, statements.len(), env, depth),
        _ => Err(Halt::Fault(EvalError::InvalidBlock)),
    }
}

/// What evaluating the first `n` statements of a block gives.
#[verifier::opaque]
pub open spec fn eval_statements(statements: Seq<Stmt>, n: nat, env: Env, depth: nat) -> Evaluated
    decreases depth, statements, n,
{
    if n == 0 || n > statements.len() {
        Ok((Value::Null, env))
    } else {
        match eval_statements(statements, (n - 1) as nat, env, depth) {
            Ok((v, env1)) => if v is Return {
                Ok((v, env1))
            } else {
                eval_statement(statements[n - 1], env1, depth)
            },
            Err(h) => Err(h),
        }
    }
}

/// What evaluating a statement gives: an expression its value, a `return`
/// the value marked as returned, and a `let` sets a variable and gives
/// `Null`.
#[verifier::opaque]
pub open spec fn eval_statement(s: Stmt, env: Env, depth: nat) -> Evaluated
    decreases depth, s, 0nat,
{
    match s {
        Stmt::Expr(e) => eval_expression(e, env, depth),
        Stmt::Return(e) => match eval_expression(e, env, depth) {
            Ok((v, after)) => Ok((Value::Return(Box::new(v)), after)),
            Err(h) => Err(h),
        },
        Stmt::Let { ident, expr } => match ident {
            Expr::Ident(name) => match eval_expression(expr, env, depth) {
                Ok((v, after)) => Ok((Value::Null, after.set(name, v))),
                Err(h) => Err(h),
            },
            _ => Err(Halt::Fault(EvalError::InvalidStatement)),
        },
        Stmt::Block(_) => Err(Halt::Fault(EvalError::InvalidStatement)),
    }
}


/// Whether an evaluation ran out of the depth that it was allowed.
pub open spec fn too_deep<T>(r: Result<T, Halt>) -> bool {
    match r {
        Err(Halt::TooDeep) => true,
        _ => false,
    }
}

/// Whether the statements of a block up to the `k`-th have settled what
/// the block gives: they have failed, or one of them has returned.
pub open spec fn settled(r: Evaluated) -> bool {
    match r {
        Ok((v, _)) => v is Return,
        Err(_) => true,
    }
}

/// Once the first statements of a block have failed or returned, the
/// statements behind them change nothing.
proof fn lemma_statements_settle(statements: Seq<Stmt>, k: nat, n: nat, env: Env, depth: nat)
    requires
        k <= n <= statements.len(),
        settled(eval_statements(statements, k, env, depth)),
    ensures
        eval_statements(statements, n, env, depth) == eval_statements(statements, k, env, depth),
    decreases n,
{
    reveal(eval_statements);
    if k < n {
        lemma_statements_settle(statements, k, (n - 1) as nat, env, depth);
    }
}

/// Where the first statements of a block have neither failed nor returned,
/// the next statement gives what the block gives up to it.
proof fn lemma_statements_step(statements: Seq<Stmt>, k: nat, env: Env, depth: nat)
    requires
        k < statements.len(),
        !settled(eval_statements(statements, k, env, depth)),
    ensures
        eval_statements(statements, k + 1, env, depth) == eval_statement(
            statements[k as int],
            eval_statements(statements, k, env, depth)->Ok_0.1,
            depth,
        ),
        eval_statements(statements, 0, env, depth) == Ok::<(Value, Env), Halt>((Value::Null, env)),
{
    reveal(eval_statements);
    reveal(eval_statement);
}

/// The next item of a list adds its value to those before it.
proof fn lemma_items_step(items: Seq<Expr>, k: nat, env: Env, depth: nat)
    requires
        k < items.len(),
        eval_items(items, k, env, depth) is Ok,
    ensures
        eval_items(items, k + 1, env, depth) == (match eval_expression(
            items[k as int],
            eval_items(items, k, env, depth)->Ok_0.1,
            depth,
        ) {
            Ok((v, after)) => Ok((eval_items(items, k, env, depth)->Ok_0.0.push(v), after)),
            Err(h) => Err(h),
        }),
        eval_items(items, 0, env, depth) == Ok::<(Seq<Value>, Env), Halt>((Seq::empty(), env)),
{
    reveal(eval_items);
    reveal(eval_expression);
}

/// The next argument of a call is bound to its parameter, which must be a
/// name.
proof fn lemma_arguments_step(
    parameters: Seq<Expr>,
    arguments: Seq<Expr>,
    k: nat,
    scope: Env,
    env: Env,
    depth: nat,
)
    requires
        k < arguments.len(),
        k < parameters.len(),
        bind_arguments(parameters, arguments, k, scope, env, depth) is Ok,
    ensures
        bind_arguments(parameters, arguments, k + 1, scope, env, depth) == (match parameters[k as int] {
            Expr::Ident(name) => match eval_expression(
                arguments[k as int],
                bind_arguments(parameters, arguments, k, scope, env, depth)->Ok_0.1,
                depth,
            ) {
                Ok((v, after)) => Ok(
                    (
                        bind_arguments(parameters, arguments, k, scope, env, depth)->Ok_0.0.set(
                            name,
                            v,
                        ),
                        after,
                    ),
                ),
                Err(h) => Err(h),
            },
            _ => Err(Halt::Fault(EvalError::InvalidParameter)),
        }),
        bind_arguments(parameters, arguments, 0, scope, env, depth) == Ok::<(Env, Env), Halt>(
            (scope, env),
        ),
{
    reveal(bind_arguments);
    reveal(eval_expression);
}

/// Once the first items of a list have failed, the list has failed.
proof fn lemma_items_fail_early(items: Seq<Expr>, k: nat, n: nat, env: Env, depth: nat)
    requires
        k <= n <= items.len(),
        eval_items(items, k, env, depth) is Err,
    ensures
        eval_items(items, n, env, depth) is Err,
        eval_items(items, n, env, depth)->Err_0 == eval_items(items, k, env, depth)->Err_0,
    decreases n,
{
    reveal(eval_items);
    if k < n {
        lemma_items_fail_early(items, k, (n - 1) as nat, env, depth);
    }
}

/// Once the first arguments of a call have failed, all have.
proof fn lemma_arguments_fail_early(
    parameters: Seq<Expr>,
    arguments: Seq<Expr>,
    k: nat,
    n: nat,
    scope: Env,
    env: Env,
    depth: nat,
)
    requires
        k <= n <= arguments.len(),
        n <= parameters.len(),
        bind_arguments(parameters, arguments, k, scope, env, depth) is Err,
    ensures
        bind_arguments(parameters, arguments, n, scope, env, depth) is Err,
        bind_arguments(parameters, arguments, n, scope, env, depth)->Err_0 == bind_arguments(
            parameters,
            arguments,
            k,
            scope,
            env,
            depth,
        )->Err_0,
    decreases n,
{
    reveal(bind_arguments);
    if k < n {
        lemma_arguments_fail_early(parameters, arguments, k, (n - 1) as nat, scope, env, depth);
    }
}

/// What an evaluation with the result `r`, which leaves the environment
/// `env`, has to achieve: the value and the environment that `spec` gives,
/// or the error that it gives.
pub open spec fn yields(r: Result<Object, EvalError>, env: Env, spec: Evaluated) -> bool {
    match spec {
        Ok((v, e)) => r is Ok && r->Ok_0@ == v && env == e,
        Err(Halt::Fault(x)) => r is Err && r->Err_0 == x,
        Err(Halt::TooDeep) => false,
    }
}

/// What a prefix operator makes of its operand.
fn apply_prefix(op: &str, operand: Object) -> (r: Result<Object, EvalError>)
    ensures
        match prefix_value(op@, operand@) {
            Ok(v) => r is Ok && r->Ok_0@ == v,
            Err(e) => r is Err && r->Err_0 == e,
        },
{
    proof {
        reveal_strlit("!");
        reveal_strlit("-");
        assert("!"@ =~= seq!['!']);
        assert("-"@ =~= seq!['-']);
    }
    if same_text(op, "!") {
        match operand {
            Object::Bool(b) => Ok(Object::Bool(!b)),
            Object::Null => Ok(Object::Bool(true)),
            _ => Ok(Object::Bool(false)),
        }
    } else if same_text(op, "-") {
        match operand {
            Object::Int(v) => if v == i32::MIN {
                Err(EvalError::Overflow)
            } else {
                Ok(Object::Int(-v))
            },
            _ => Err(EvalError::TypeMismatch),
        }
    } else {
        Err(EvalError::UnknownOperator)
    }
}

/// The quotient of two 32-bit integers, rounded toward zero.
fn divide(l: i32, r: i32) -> (q: Option<i32>)
    requires
        r != 0,
    ensures
        match int_result(quotient(l as int, r as int)) {
            Ok(v) => q is Some && Value::Int(q->0) == v,
            Err(_) => q is None,
        },
{
    let a: i64 = l as i64;
    let b: i64 = r as i64;
    let ua: u64 = if a < 0 {
        (-a) as u64
    } else {
        a as u64
    };
    let ub: u64 = if b < 0 {
        (-b) as u64
    } else {
        b as u64
    };
    let uq: u64 = ua / ub;
    assert(uq <= ua) by (nonlinear_arith)
        requires
            uq == ua / ub,
            ub >= 1,
    ;
    let q: i64 = if (a < 0) != (b < 0) {
        -(uq as i64)
    } else {
        uq as i64
    };
    if q > 2147483647 {
        None
    } else {
        Some(q as i32)
    }
}

/// What an infix operator makes of two integers.
fn apply_int_infix(op: &str, l: i32, r: i32) -> (v: Result<Object, EvalError>)
    ensures
        match int_infix(op@, l, r) {
            Ok(x) => v is Ok && v->Ok_0@ == x,
            Err(e) => v is Err && v->Err_0 == e,
        },
{
    proof {
        reveal_strlit("+");
        reveal_strlit("-");
        reveal_strlit("*");
        reveal_strlit("/");
        reveal_strlit("<");
        reveal_strlit(">");
        reveal_strlit("==");
        reveal_strlit("!=");
        assert("+"@ =~= seq!['+']);
        assert("-"@ =~= seq!['-']);
        assert("*"@ =~= seq!['*']);
        assert("/"@ =~= seq!['/']);
        assert("<"@ =~= seq!['<']);
        assert(">"@ =~= seq!['>']);
        assert("=="@ =~= seq!['=', '=']);
        assert("!="@ =~= seq!['!', '=']);
    }
    let number: Option<i32> = if same_text(op, "+") {
        l.checked_add(r)
    } else if same_text(op, "-") {
        l.checked_sub(r)
    } else if same_text(op, "*") {
        l.checked_mul(r)
    } else if same_text(op, "/") {
        if r == 0 {
            return Err(EvalError::DivisionByZero);
        }
        divide(l, r)
    } else if same_text(op, "<") {
        return Ok(Object::Bool(l < r));
    } else if same_text(op, ">") {
        return Ok(Object::Bool(l > r));
    } else if same_text(op, "==") {
        return Ok(Object::Bool(l == r));
    } else if same_text(op, "!=") {
        return Ok(Object::Bool(l != r));
    } else {
        return Err(EvalError::UnknownOperator);
    };
    match number {
        Some(n) => Ok(Object::Int(n)),
        None => Err(EvalError::Overflow),
    }
}

/// What an infix operator makes of two operands.
fn apply_infix(op: &str, left: Object, right: Object) -> (v: Result<Object, EvalError>)
    ensures
        match infix_value(op@, left@, right@) {
            Ok(x) => v is Ok && v->Ok_0@ == x,
            Err(e) => v is Err && v->Err_0 == e,
        },
{
    proof {
        reveal_strlit("==");
        reveal_strlit("!=");
        assert("=="@ =~= seq!['=', '=']);
        assert("!="@ =~= seq!['!', '=']);
    }
    match (left, right) {
        (Object::Int(l), Object::Int(r)) => apply_int_infix(op, l, r),
        (Object::Bool(l), Object::Bool(r)) => {
            if same_text(op, "==") {
                Ok(Object::Bool(l == r))
            } else if same_text(op, "!=") {
                Ok(Object::Bool(l != r))
            } else {
                Err(EvalError::UnknownOperator)
            }
        },
        _ => Err(EvalError::TypeMismatch),
    }
}

/// Whether evaluating the statement `s` in `env` comes to an end, with a
/// value or with an error.
pub open spec fn finishes(s: Stmt, env: Env) -> bool {
    exists|depth: nat| !too_deep(#[trigger] eval_statement(s, env, depth))
}

/// What evaluating the statement `s` in `env` gives, where it comes to an
/// end.
pub open spec fn outcome(s: Stmt, env: Env) -> Evaluated {
    eval_statement(s, env, choose|depth: nat| !too_deep(#[trigger] eval_statement(s, env, depth)))
}

/// An expression that is evaluated within some depth of calls gives the
/// same within any greater depth.
pub proof fn expression_deeper(e: Expr, env: Env, depth: nat, deeper: nat)
    requires
        !too_deep(eval_expression(e, env, depth)),
        depth <= deeper,
    ensures
        eval_expression(e, env, deeper) == eval_expression(e, env, depth),
    decreases depth, e, 1nat,
{
    reveal(eval_expression);
    reveal(eval_array);
    reveal(eval_prefix);
    reveal(eval_infix);
    reveal(eval_if);
    reveal(eval_call);
    match e {
        Expr::Array(items) => {
            array_deeper(items, env, depth, deeper);
        },
        Expr::Prefix { operator, expr } => {
            prefix_deeper(operator, *expr, env, depth, deeper);
        },
        Expr::Infix { operator, left, right } => {
            infix_deeper(operator, *left, *right, env, depth, deeper);
        },
        Expr::If { condition, consequence, alternative } => {
            if_deeper(*condition, *consequence, *alternative, env, depth, deeper);
        },
        Expr::Call { function, arguments } => {
            call_deeper(*function, arguments, env, depth, deeper);
        },
        _ => {},
    }
}

/// An array literal gives the same within any greater depth.
proof fn array_deeper(items: Seq<Expr>, env: Env, depth: nat, deeper: nat)
    requires
        !too_deep(eval_array(items, env, depth)),
        depth <= deeper,
    ensures
        eval_array(items, env, deeper) == eval_array(items, env, depth),
    decreases depth, Expr::Array(items), 0nat,
{
    reveal(eval_array);
    reveal(eval_items);
    parts_are_smaller(Expr::Array(items));
    items_deeper(items, items.len(), env, depth, deeper);
}

/// A prefix operator gives the same within any greater depth.
proof fn prefix_deeper(op: Seq<char>, expr: Expr, env: Env, depth: nat, deeper: nat)
    requires
        !too_deep(eval_prefix(op, expr, env, depth)),
        depth <= deeper,
    ensures
        eval_prefix(op, expr, env, deeper) == eval_prefix(op, expr, env, depth),
    decreases depth, Expr::prefix(op, expr), 0nat,
{
    reveal(eval_prefix);
    reveal(eval_expression);
    parts_are_smaller(Expr::prefix(op, expr));
    expression_deeper(expr, env, depth, deeper);
}

/// An infix operator gives the same within any greater depth.
proof fn infix_deeper(op: Seq<char>, left: Expr, right: Expr, env: Env, depth: nat, deeper: nat)
    requires
        !too_deep(eval_infix(op, left, right, env, depth)),
        depth <= deeper,
    ensures
        eval_infix(op, left, right, env, deeper) == eval_infix(op, left, right, env, depth),
    decreases depth, Expr::infix(op, left, right), 0nat,
{
    reveal(eval_infix);
    reveal(eval_expression);
    parts_are_smaller(Expr::infix(op, left, right));
    expression_deeper(left, env, depth, deeper);
    match eval_expression(left, env, depth) {
        Ok((l, env1)) => {
            expression_deeper(right, env1, depth, deeper);
        },
        Err(_) => {},
    }
}

/// A conditional gives the same within any greater depth.
proof fn if_deeper(
    condition: Expr,
    consequence: Stmt,
    alternative: Stmt,
    env: Env,
    depth: nat,
    deeper: nat,
)
    requires
        !too_deep(eval_if(condition, consequence, alternative, env, depth)),
        depth <= deeper,
    ensures
        eval_if(condition, consequence, alternative, env, deeper) == eval_if(
            condition,
            consequence,
            alternative,
            env,
            depth,
        ),
    decreases depth, Expr::conditional(condition, consequence, alternative), 0nat,
{
    reveal(eval_if);
    reveal(eval_expression);
    reveal(eval_block);
    parts_are_smaller(Expr::conditional(condition, consequence, alternative));
    expression_deeper(condition, env, depth, deeper);
    match eval_expression(condition, env, depth) {
        Ok((c, after)) => {
            if c == Value::Null || c == Value::Bool(false) {
                block_deeper(alternative, after, depth, deeper);
            } else {
                block_deeper(consequence, after, depth, deeper);
            }
        },
        Err(_) => {},
    }
}

/// A call gives the same within any greater depth.
proof fn call_deeper(function: Expr, arguments: Seq<Expr>, env: Env, depth: nat, deeper: nat)
    requires
        !too_deep(eval_call(function, arguments, env, depth)),
        depth <= deeper,
    ensures
        eval_call(function, arguments, env, deeper) == eval_call(function, arguments, env, depth),
    decreases depth, Expr::call(function, arguments), 0nat,
{
    reveal(eval_call);
    reveal(eval_expression);
    reveal(bind_arguments);
    reveal(eval_block);
    parts_are_smaller(Expr::call(function, arguments));
    expression_deeper(function, env, depth, deeper);
    match eval_expression(function, env, depth) {
        Ok((f, env1)) => {
            match f {
                Value::Function { parameters, body, env: captured } => {
                    let n = bound_count(parameters, arguments);
                    arguments_deeper(
                        parameters,
                        arguments,
                        n,
                        Env::inside(captured),
                        env1,
                        depth,
                        deeper,
                    );
                    match bind_arguments(
                        parameters,
                        arguments,
                        n,
                        Env::inside(captured),
                        env1,
                        depth,
                    ) {
                        Ok((scope, env2)) => {
                            block_deeper(
                                *body,
                                scope,
                                (depth - 1) as nat,
                                (deeper - 1) as nat,
                            );
                        },
                        Err(_) => {},
                    }
                },
                _ => {},
            }
        },
        Err(_) => {},
    }
}

/// The items of a list give the same within any greater depth.
proof fn items_deeper(items: Seq<Expr>, n: nat, env: Env, depth: nat, deeper: nat)
    requires
        !too_deep(eval_items(items, n, env, depth)),
        depth <= deeper,
    ensures
        eval_items(items, n, env, deeper) == eval_items(items, n, env, depth),
    decreases depth, items, n,
{
    reveal(eval_items);
    reveal(eval_expression);
    if !(n == 0 || n > items.len()) {
        items_deeper(items, (n - 1) as nat, env, depth, deeper);
        match eval_items(items, (n - 1) as nat, env, depth) {
            Ok((values, env1)) => {
                expression_deeper(items[n - 1], env1, depth, deeper);
            },
            Err(_) => {},
        }
    }
}

/// The arguments of a call are bound alike within any greater depth.
proof fn arguments_deeper(
    parameters: Seq<Expr>,
    arguments: Seq<Expr>,
    n: nat,
    scope: Env,
    env: Env,
    depth: nat,
    deeper: nat,
)
    requires
        !too_deep(bind_arguments(parameters, arguments, n, scope, env, depth)),
        depth <= deeper,
    ensures
        bind_arguments(parameters, arguments, n, scope, env, deeper) == bind_arguments(
            parameters,
            arguments,
            n,
            scope,
            env,
            depth,
        ),
    decreases depth, arguments, n,
{
    reveal(bind_arguments);
    reveal(eval_expression);
    if !(n == 0 || n > arguments.len() || n > parameters.len()) {
        arguments_deeper(parameters, arguments, (n - 1) as nat, scope, env, depth, deeper);
        match bind_arguments(parameters, arguments, (n - 1) as nat, scope, env, depth) {
            Ok((scope1, env1)) => {
                if parameters[n - 1] is Ident {
                    expression_deeper(arguments[n - 1], env1, depth, deeper);
                }
            },
            Err(_) => {},
        }
    }
}

/// A block gives the same within any greater depth.
proof fn block_deeper(block: Stmt, env: Env, depth: nat, deeper: nat)
    requires
        !too_deep(eval_block(block, env, depth)),
        depth <= deeper,
    ensures
        eval_block(block, env, deeper) == eval_block(block, env, depth),
    decreases depth, block, 1nat,
{
    reveal(eval_block);
    reveal(eval_statements);
    match block {
        Stmt::Block(statements) => {
            statements_deeper(statements, statements.len(), env, depth, deeper);
        },
        _ => {},
    }
}

/// The first statements of a block give the same within any greater depth.
proof fn statements_deeper(statements: Seq<Stmt>, n: nat, env: Env, depth: nat, deeper: nat)
    requires
        !too_deep(eval_statements(statements, n, env, depth)),
        depth <= deeper,
    ensures
        eval_statements(statements, n, env, deeper) == eval_statements(statements, n, env, depth),
    decreases depth, statements, n,
{
    reveal(eval_statements);
    reveal(eval_statement);
    if !(n == 0 || n > statements.len()) {
        statements_deeper(statements, (n - 1) as nat, env, depth, deeper);
        match eval_statements(statements, (n - 1) as nat, env, depth) {
            Ok((v, env1)) => {
                if !(v is Return) {
                    statement_deeper(statements[n - 1], env1, depth, deeper);
                }
            },
            Err(_) => {},
        }
    }
}

/// A statement that is evaluated within some depth of calls gives the same
/// within any greater depth: what an evaluation gives does not depend on
/// the depth that it is allowed, once that is enough.
pub proof fn statement_deeper(s: Stmt, env: Env, depth: nat, deeper: nat)
    requires
        !too_deep(eval_statement(s, env, depth)),
        depth <= deeper,
    ensures
        eval_statement(s, env, deeper) == eval_statement(s, env, depth),
    decreases depth, s, 0nat,
{
    reveal(eval_statement);
    reveal(eval_expression);
    match s {
        Stmt::Expr(e) => {
            expression_deeper(e, env, depth, deeper);
        },
        Stmt::Return(e) => {
            expression_deeper(e, env, depth, deeper);
        },
        Stmt::Let { ident, expr } => {
            if ident is Ident {
                expression_deeper(expr, env, depth, deeper);
            }
        },
        Stmt::Block(_) => {},
    }
}

/// What a statement gives is what it gives within any depth of calls that
/// is enough for it.
pub proof fn outcome_is_unique(s: Stmt, env: Env, depth: nat)
    requires
        !too_deep(eval_statement(s, env, depth)),
    ensures
        finishes(s, env),
        outcome(s, env) == eval_statement(s, env, depth),
{
    let chosen = choose|d: nat| !too_deep(#[trigger] eval_statement(s, env, d));
    if chosen <= depth {
        statement_deeper(s, env, chosen, depth);
    } else {
        statement_deeper(s, env, depth, chosen);
    }
}

/// The values of a value and an environment.
pub open spec fn pair_view(pair: (Object, Environment)) -> (Value, Env) {
    (pair.0@, pair.1@)
}

/// Evaluates a program statement by statement, walking its tree.
pub struct Evaluator {
    input: Vec<Statement>,
    pos: usize,
    returned: bool,
    env: Environment,
}

impl Evaluator {
    /// The statements of the program.
    pub closed spec fn program(&self) -> Seq<Stmt> {
        plain_statements_view(self.input@)
    }

    /// How many statements have been evaluated.
    pub closed spec fn position(&self) -> nat {
        self.pos as nat
    }

    /// Whether a statement has returned, which ends the program.
    pub closed spec fn returned(&self) -> bool {
        self.returned
    }

    /// The environment that the statements so far have left.
    pub closed spec fn env(&self) -> Env {
        self.env@
    }

    #[verifier::type_invariant]
    closed spec fn inv(&self) -> bool {
        self.pos <= self.input.len()
    }

    /// Whether a statement is left to evaluate.
    pub open spec fn pending(&self) -> bool {
        !self.returned() && self.position() < self.program().len()
    }

    /// An evaluator for the statements of `program`, which starts in the
    /// environment `env`.
    pub fn from_program(program: Vec<Statement>, env: Environment) -> (r: Evaluator)
        ensures
            r.program() == plain_statements_view(program@),
            r.position() == 0,
            !r.returned(),
            r.env() == env@,
    {
        Evaluator { input: program, pos: 0, returned: false, env }
    }

    /// An evaluator for the statements that `parser` has left to give,
    /// which starts in the environment `env`.
    pub fn try_new(parser: Parser, env: Environment) -> (r: Result<Evaluator, ParseError>)
        ensures
            match parse_program(parser.tokens(), parser.position(), Seq::empty()) {
                Ok(program) => r is Ok && r->Ok_0.program() == program && r->Ok_0.position() == 0
                    && !r->Ok_0.returned() && r->Ok_0.env() == env@,
                Err(e) => r is Err && r->Err_0 == e,
            },
    {
        let mut parser = parser;
        let input = match parser.collect() {
            Ok(input) => input,
            Err(e) => {
                return Err(e);
            },
        };
        Ok(Self::from_program(input, env))
    }

    /// An evaluator for the statements that `parser` has left to give,
    /// which must be a program, starting in the environment `env`.
    pub fn new(parser: Parser, env: Environment) -> (r: Evaluator)
        requires
            parse_program(parser.tokens(), parser.position(), Seq::empty()) is Ok,
        ensures
            r.program() == parse_program(parser.tokens(), parser.position(), Seq::empty())->Ok_0,
            r.position() == 0,
            !r.returned(),
            r.env() == env@,
    {
        match Self::try_new(parser, env) {
            Ok(r) => r,
            Err(_) => vstd::pervasive::unreached(),
        }
    }

    /// The statement that is to be evaluated next, if one is left.
    fn stmt(&self) -> (r: Option<&Statement>)
        ensures
            match r {
                Some(s) => self.pending() && s@ == self.program()[self.position() as int],
                None => !self.pending(),
            },
    {
        proof {
            use_type_invariant(self);
        }
        if self.returned {
            return None;
        }
        if self.pos < self.input.len() {
            Some(&self.input[self.pos])
        } else {
            None
        }
    }

    /// Moves on by one statement.
    fn forward(&mut self)
        requires
            old(self).position() < old(self).program().len(),
        ensures
            final(self).program() == old(self).program(),
            final(self).returned() == old(self).returned(),
            final(self).env() == old(self).env(),
            final(self).position() == old(self).position() + 1,
    {
        assert(self.pos < self.input.len());
        self.pos = self.pos + 1;
    }

    /// Evaluates the next statement, which must come to an end. Gives its
    /// value with the environment that it leaves, or nothing where no
    /// statement is left or one has returned.
    pub fn next(&mut self) -> (r: Result<Option<(Object, Environment)>, EvalError>)
        requires
            old(self).pending() ==> finishes(
                old(self).program()[old(self).position() as int],
                old(self).env(),
            ),
        ensures
            final(self).program() == old(self).program(),
            !old(self).pending() ==> r is Ok && r->Ok_0 is None && final(self).position()
                == old(self).position() && final(self).returned() == old(self).returned()
                && final(self).env() == old(self).env(),
            old(self).pending() ==> (match outcome(
                old(self).program()[old(self).position() as int],
                old(self).env(),
            ) {
                Ok((v, e)) => r is Ok && r->Ok_0 is Some && pair_view(r->Ok_0->Some_0) == (
                    returned_value(v),
                    e,
                ) && final(self).env() == e && final(self).position() == old(self).position()
                    + 1 && final(self).returned() == (v is Return),
                Err(Halt::Fault(x)) => r is Err && r->Err_0 == x,
                Err(Halt::TooDeep) => false,
            }),
    {
        let stmt = match self.stmt() {
            Some(stmt) => stmt.duplicate(),
            None => {
                return Ok(None);
            },
        };
        let ghost depth = choose|depth: nat|
            !too_deep(#[trigger] eval_statement(stmt@, self.env(), depth));
        self.forward();
        // The statement is evaluated on the environment itself, which is
        // taken out of the evaluator for that.
        let mut env = Environment::new();
        core::mem::swap(&mut self.env, &mut env);
        let result = match Self::eval_statement(&stmt, &mut env, Ghost(depth)) {
            Ok(v) => v,
            Err(e) => {
                self.env = env;
                return Err(e);
            },
        };
        let copy = env.duplicate();
        self.env = env;
        match result {
            Object::Return(obj) => {
                self.returned = true;
                Ok(Some((*obj, copy)))
            },
            other => Ok(Some((other, copy))),
        }
    }

    /// Evaluates one statement in `env`.
    fn eval_statement(stmt: &Statement, env: &mut Environment, Ghost(depth): Ghost<nat>) -> (r:
        Result<Object, EvalError>)
        requires
            !too_deep(eval_statement(stmt@, old(env)@, depth)),
        ensures
            yields(r, final(env)@, eval_statement(stmt@, old(env)@, depth)),
        decreases depth, stmt@, 0nat,
    {
        reveal(eval_statement);
        reveal(eval_expression);
        match stmt {
            Statement::Expr(expr) => Self::eval_expression(expr, env, Ghost(depth)),
            Statement::Return(expr) => {
                match Self::eval_expression(expr, env, Ghost(depth)) {
                    Ok(v) => Ok(Object::Return(Box::new(v))),
                    Err(e) => Err(e),
                }
            },
            Statement::Let { ident, expr } => {
                match ident {
                    Expression::Ident(name) => {
                        let value = match Self::eval_expression(expr, env, Ghost(depth)) {
                            Ok(v) => v,
                            Err(e) => {
                                return Err(e);
                            },
                        };
                        env.set(name.clone(), value);
                        Ok(Object::Null)
                    },
                    _ => Err(EvalError::InvalidStatement),
                }
            },
            Statement::Block(_) => Err(EvalError::InvalidStatement),
        }
    }

    /// Evaluates the statements of a block in order, up to the first that
    /// returns.
    fn eval_block(block: &Statement, env: &mut Environment, Ghost(depth): Ghost<nat>) -> (r:
        Result<Object, EvalError>)
        requires
            !too_deep(eval_block(block@, old(env)@, depth)),
        ensures
            yields(r, final(env)@, eval_block(block@, old(env)@, depth)),
        decreases depth, block@, 1nat,
    {
        reveal(eval_block);
        reveal(eval_statements);
        let statements = match block {
            Statement::Block(v) => v,
            _ => {
                return Err(EvalError::InvalidBlock);
            },
        };
        let ghost ss = statements_view(statements@);
        let ghost start = env@;
        let mut result = Object::Null;
        let mut i: usize = 0;
        while i < statements.len()
            invariant
                i <= statements.len(),
                ss == statements_view(statements@),
                block@ == Stmt::Block(ss),
                start == old(env)@,
                !too_deep(eval_statements(ss, ss.len(), start, depth)),
                eval_block(block@, start, depth) == eval_statements(
                    ss,
                    ss.len(),
                    start,
                    depth,
                ),
                eval_statements(ss, i as nat, start, depth) == Ok::<(Value, Env), Halt>(
                    (result@, env@),
                ),
                !(result@ is Return),
            decreases statements.len() - i,
        {
            assert(ss[i as int] == statements[i as int]@);
            proof {
                statement_parts_are_smaller(block@);
                lemma_statements_step(ss, i as nat, start, depth);
                if settled(eval_statements(ss, (i + 1) as nat, start, depth)) {
                    lemma_statements_settle(ss, (i + 1) as nat, ss.len(), start, depth);
                }
            }
            result = match Self::eval_statement(&statements[i], env, Ghost(depth)) {
                Ok(v) => v,
                Err(e) => {
                    return Err(e);
                },
            };
            i += 1;
            let done = match &result {
                Object::Return(_) => true,
                _ => false,
            };
            if done {
                return Ok(result);
            }
        }
        Ok(result)
    }

    /// Evaluates one expression in `env`.
    fn eval_expression(expr: &Expression, env: &mut Environment, Ghost(depth): Ghost<nat>) -> (r:
        Result<Object, EvalError>)
        requires
            !too_deep(eval_expression(expr@, old(env)@, depth)),
        ensures
            yields(r, final(env)@, eval_expression(expr@, old(env)@, depth)),
        decreases depth, expr@, 1nat,
    {
        reveal(eval_expression);
        reveal(eval_array);
        reveal(eval_prefix);
        reveal(eval_infix);
        reveal(eval_if);
        reveal(eval_call);
        match expr {
            Expression::Int(v) => match parse_i32(v.as_str()) {
                Some(n) => Ok(Object::Int(n)),
                None => Err(EvalError::InvalidInteger),
            },
            Expression::Str(v) => Ok(Object::Str(v.clone())),
            Expression::Bool(v) => {
                proof {
                    reveal_strlit("true");
                    assert("true"@ =~= seq!['t', 'r', 'u', 'e']);
                }
                Ok(Object::Bool(same_text(v.as_str(), "true")))
            },
            Expression::Array(items) => Self::eval_array(items, env, Ghost(depth)),
            Expression::Prefix { operator, expr } => Self::eval_prefix(
                operator.as_str(),
                expr,
                env,
                Ghost(depth),
            ),
            Expression::Infix { operator, left, right } => Self::eval_infix(
                operator.as_str(),
                left,
                right,
                env,
                Ghost(depth),
            ),
            Expression::If { condition, consequence, alternative } => Self::eval_if(
                condition,
                consequence,
                alternative,
                env,
                Ghost(depth),
            ),
            Expression::Ident(ident) => match env.lookup(ident) {
                Some(obj) => Ok(obj),
                None => Err(EvalError::UnknownIdentifier),
            },
            Expression::Function { parameters, body } => Ok(
                Object::Function {
                    parameters: crate::ast::duplicate_expressions(parameters),
                    body: Box::new(body.duplicate()),
                    env: env.duplicate(),
                },
            ),
            Expression::Call { function, arguments } => Self::eval_call(
                function,
                arguments,
                env,
                Ghost(depth),
            ),
        }
    }

    /// Evaluates the items of an array literal, in order.
    fn eval_array(items: &Vec<Box<Expression>>, env: &mut Environment, Ghost(depth): Ghost<nat>) -> (r:
        Result<Object, EvalError>)
        requires
            !too_deep(eval_array(expressions_view(items@), old(env)@, depth)),
        ensures
            yields(r, final(env)@, eval_array(expressions_view(items@), old(env)@, depth)),
        decreases depth, Expr::Array(expressions_view(items@)), 0nat,
    {
        reveal(eval_array);
        reveal(eval_items);
        let ghost es = expressions_view(items@);
        let ghost start = env@;
        let mut values: Vec<Box<Object>> = Vec::new();
        let mut i: usize = 0;
        assert(boxed_objects_view(values@) =~= Seq::<Value>::empty());
        while i < items.len()
            invariant
                i <= items.len(),
                es == expressions_view(items@),
                start == old(env)@,
                !too_deep(eval_items(es, es.len(), start, depth)),
                match eval_items(es, es.len(), start, depth) {
                    Ok(_) => true,
                    Err(h) => eval_array(es, start, depth) == Err::<(Value, Env), Halt>(h),
                },
                eval_items(es, i as nat, start, depth) == Ok::<(Seq<Value>, Env), Halt>(
                    (boxed_objects_view(values@), env@),
                ),
            decreases items.len() - i,
        {
            assert(es[i as int] == items[i as int]@);
            proof {
                parts_are_smaller(Expr::Array(es));
                lemma_items_step(es, i as nat, start, depth);
                if eval_items(es, (i + 1) as nat, start, depth) is Err {
                    lemma_items_fail_early(es, (i + 1) as nat, es.len(), start, depth);
                }
            }
            let ghost before = boxed_objects_view(values@);
            let value = match Self::eval_expression(&items[i], env, Ghost(depth)) {
                Ok(v) => v,
                Err(e) => {
                    return Err(e);
                },
            };
            values.push(Box::new(value));
            assert(boxed_objects_view(values@) =~= before.push(value@));
            i += 1;
        }
        Ok(Object::Array(values))
    }

    /// Evaluates a prefix operator on its operand.
    fn eval_prefix(op: &str, expr: &Expression, env: &mut Environment, Ghost(depth): Ghost<nat>) -> (r:
        Result<Object, EvalError>)
        requires
            !too_deep(eval_prefix(op@, expr@, old(env)@, depth)),
        ensures
            yields(r, final(env)@, eval_prefix(op@, expr@, old(env)@, depth)),
        decreases depth, Expr::prefix(op@, expr@), 0nat,
    {
        reveal(eval_prefix);
        reveal(eval_expression);
        proof {
            parts_are_smaller(Expr::prefix(op@, expr@));
        }
        let obj = match Self::eval_expression(expr, env, Ghost(depth)) {
            Ok(v) => v,
            Err(e) => {
                return Err(e);
            },
        };
        apply_prefix(op, obj)
    }

    /// Evaluates an infix operator between its operands, the left one first.
    fn eval_infix(
        op: &str,
        left: &Expression,
        right: &Expression,
        env: &mut Environment,
        Ghost(depth): Ghost<nat>,
    ) -> (r: Result<Object, EvalError>)
        requires
            !too_deep(eval_infix(op@, left@, right@, old(env)@, depth)),
        ensures
            yields(r, final(env)@, eval_infix(op@, left@, right@, old(env)@, depth)),
        decreases depth, Expr::infix(op@, left@, right@), 0nat,
    {
        reveal(eval_infix);
        reveal(eval_expression);
        proof {
            parts_are_smaller(Expr::infix(op@, left@, right@));
        }
        let l = match Self::eval_expression(left, env, Ghost(depth)) {
            Ok(v) => v,
            Err(e) => {
                return Err(e);
            },
        };
        let r = match Self::eval_expression(right, env, Ghost(depth)) {
            Ok(v) => v,
            Err(e) => {
                return Err(e);
            },
        };
        apply_infix(op, l, r)
    }

    /// Evaluates a conditional: the condition, and then one of the branches.
    fn eval_if(
        condition: &Expression,
        consequence: &Statement,
        alternative: &Statement,
        env: &mut Environment,
        Ghost(depth): Ghost<nat>,
    ) -> (r: Result<Object, EvalError>)
        requires
            !too_deep(eval_if(condition@, consequence@, alternative@, old(env)@, depth)),
        ensures
            yields(
                r,
                final(env)@,
                eval_if(condition@, consequence@, alternative@, old(env)@, depth),
            ),
        decreases depth, Expr::conditional(condition@, consequence@, alternative@), 0nat,
    {
        reveal(eval_if);
        reveal(eval_expression);
        reveal(eval_block);
        proof {
            parts_are_smaller(Expr::conditional(condition@, consequence@, alternative@));
        }
        let c = match Self::eval_expression(condition, env, Ghost(depth)) {
            Ok(v) => v,
            Err(e) => {
                return Err(e);
            },
        };
        let falsy = match c {
            Object::Null => true,
            Object::Bool(false) => true,
            _ => false,
        };
        if falsy {
            Self::eval_block(alternative, env, Ghost(depth))
        } else {
            Self::eval_block(consequence, env, Ghost(depth))
        }
    }

    /// Evaluates a call: the function, the arguments, and then the body in a
    /// scope of its own.
    fn eval_call(
        function: &Expression,
        arguments: &Vec<Box<Expression>>,
        env: &mut Environment,
        Ghost(depth): Ghost<nat>,
    ) -> (r: Result<Object, EvalError>)
        requires
            !too_deep(eval_call(function@, expressions_view(arguments@), old(env)@, depth)),
        ensures
            yields(
                r,
                final(env)@,
                eval_call(function@, expressions_view(arguments@), old(env)@, depth),
            ),
        decreases depth, Expr::call(function@, expressions_view(arguments@)), 0nat,
    {
        reveal(eval_call);
        reveal(eval_expression);
        reveal(eval_block);
        reveal(bind_arguments);
        proof {
            parts_are_smaller(Expr::call(function@, expressions_view(arguments@)));
        }
        let f = match Self::eval_expression(function, env, Ghost(depth)) {
            Ok(v) => v,
            Err(e) => {
                return Err(e);
            },
        };
        let (parameters, body, captured) = match f {
            Object::Function { parameters, body, env } => (parameters, body, env),
            _ => {
                return Err(EvalError::NotAFunction);
            },
        };
        let ghost ps = expressions_view(parameters@);
        let ghost args = expressions_view(arguments@);
        let ghost scope = Env::inside(captured@);
        let ghost env1 = env@;
        let ghost whole = eval_call(function@, args, old(env)@, depth);
        let mut extended = Environment::init(captured);
        let n = if parameters.len() <= arguments.len() {
            parameters.len()
        } else {
            arguments.len()
        };
        let mut i: usize = 0;
        while i < n
            invariant
                i <= n,
                n <= parameters.len(),
                n <= arguments.len(),
                ps == expressions_view(parameters@),
                args == expressions_view(arguments@),
                whole == eval_call(function@, args, old(env)@, depth),
                !too_deep(whole),
                match bind_arguments(ps, args, n as nat, scope, env1, depth) {
                    Ok(_) => true,
                    Err(h) => whole == Err::<(Value, Env), Halt>(h),
                },
                !too_deep(bind_arguments(ps, args, n as nat, scope, env1, depth)),
                bind_arguments(ps, args, i as nat, scope, env1, depth) == Ok::<(Env, Env), Halt>(
                    (extended@, env@),
                ),
            decreases n - i,
        {
            assert(args[i as int] == arguments[i as int]@);
            assert(ps[i as int] == parameters[i as int]@);
            proof {
                parts_are_smaller(Expr::call(function@, args));
                lemma_arguments_step(ps, args, i as nat, scope, env1, depth);
                if bind_arguments(ps, args, (i + 1) as nat, scope, env1, depth) is Err {
                    lemma_arguments_fail_early(
                        ps,
                        args,
                        (i + 1) as nat,
                        n as nat,
                        scope,
                        env1,
                        depth,
                    );
                }
            }
            match &*parameters[i] {
                Expression::Ident(name) => {
                    let value = match Self::eval_expression(&arguments[i], env, Ghost(depth)) {
                        Ok(v) => v,
                        Err(e) => {
                            return Err(e);
                        },
                    };
                    extended.set(name.clone(), value);
                },
                _ => {
                    return Err(EvalError::InvalidParameter);
                },
            }
            i += 1;
        }
        let result = match Self::eval_block(&body, &mut extended, Ghost((depth - 1) as nat)) {
            Ok(v) => v,
            Err(e) => {
                return Err(e);
            },
        };
        match result {
            Object::Return(obj) => Ok(*obj),
            other => Ok(other),
        }
    }
}

} // verus!
