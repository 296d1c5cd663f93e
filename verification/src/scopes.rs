use crate::ast::{Expr, Stmt};
use crate::code::{Instr, Table};
use crate::compiler::{
    define_parameters, emit_expression, emit_expressions, emit_statement, emit_statements,
};
use crate::object::Value;
use vstd::prelude::*;

verus! {

/// What compiling does to a symbol table, from `before` to `after`: the
/// table around it stays, the number of definitions does not fall, and a
/// number that an instruction can say stays one.
pub open spec fn grown(before: Table, after: Table) -> bool {
    &&& after.outer == before.outer
    &&& after.num_definitions >= before.num_definitions
    &&& before.num_definitions <= usize::MAX ==> after.num_definitions <= usize::MAX
}

/// Defining parameters gives each the next slot of the scope.
pub proof fn parameters_take_slots(parameters: Seq<Expr>, t: Table)
    requires
        define_parameters(parameters, t) is Ok,
    ensures
        grown(t, define_parameters(parameters, t)->Ok_0),
        define_parameters(parameters, t)->Ok_0.num_definitions == t.num_definitions
            + parameters.len(),
    decreases parameters.len(),
{
    if parameters.len() > 0 {
        parameters_take_slots(parameters.drop_last(), t);
    }
}

/// Compiling an expression leaves the table around the current one as it
/// is, and takes no definition back.
pub proof fn expression_grows_table(e: Expr, t: Table)
    requires
        emit_expression(e, t) is Ok,
    ensures
        grown(t, emit_expression(e, t)->Ok_0.table),
    decreases e,
{
    match e {
        Expr::Array(items) => {
            expressions_grow_table(items, t);
        },
        Expr::Prefix { operator, expr } => {
            expression_grows_table(*expr, t);
        },
        Expr::Infix { operator, left, right } => {
            expression_grows_table(*left, t);
            expression_grows_table(*right, emit_expression(*left, t)->Ok_0.table);
        },
        Expr::If { condition, consequence, alternative } => {
            expression_grows_table(*condition, t);
            let c = emit_expression(*condition, t)->Ok_0;
            statement_grows_table(*consequence, c.table);
            let k = emit_statement(*consequence, c.table)->Ok_0;
            statement_grows_table(*alternative, k.table);
        },
        Expr::Call { function, arguments } => {
            expression_grows_table(*function, t);
            expressions_grow_table(arguments, emit_expression(*function, t)->Ok_0.table);
        },
        _ => {},
    }
}

/// Compiling a list of expressions leaves the table around the current one
/// as it is, and takes no definition back.
pub proof fn expressions_grow_table(es: Seq<Expr>, t: Table)
    requires
        emit_expressions(es, t) is Ok,
    ensures
        grown(t, emit_expressions(es, t)->Ok_0.table),
    decreases es,
{
    if es.len() > 0 {
        expressions_grow_table(es.drop_last(), t);
        expression_grows_table(es.last(), emit_expressions(es.drop_last(), t)->Ok_0.table);
    }
}

/// Compiling a statement leaves the table around the current one as it is,
/// and takes no definition back: what a function defines stays in the
/// function.
pub proof fn statement_grows_table(s: Stmt, t: Table)
    requires
        emit_statement(s, t) is Ok,
    ensures
        grown(t, emit_statement(s, t)->Ok_0.table),
    decreases s,
{
    match s {
        Stmt::Let { ident, expr } => {
            expression_grows_table(expr, t);
        },
        Stmt::Return(e) => {
            expression_grows_table(e, t);
        },
        Stmt::Expr(e) => {
            expression_grows_table(e, t);
        },
        Stmt::Block(ss) => {
            statements_grow_table(ss, t);
        },
    }
}

/// Compiling a list of statements leaves the table around the current one
/// as it is, and takes no definition back.
pub proof fn statements_grow_table(ss: Seq<Stmt>, t: Table)
    requires
        emit_statements(ss, t) is Ok,
    ensures
        grown(t, emit_statements(ss, t)->Ok_0.table),
    decreases ss,
{
    if ss.len() > 0 {
        statements_grow_table(ss.drop_last(), t);
        statement_grows_table(ss.last(), emit_statements(ss.drop_last(), t)->Ok_0.table);
    }
}

/// A function literal compiles to one constant, a compiled function that
/// has as many parameters as the literal and a local slot for each of
/// them at least.
pub proof fn function_has_slots_for_parameters(parameters: Seq<Expr>, body: Stmt, t: Table)
    requires
        emit_expression(Expr::function(parameters, body), t) is Ok,
        parameters.len() <= usize::MAX,
    ensures
        ({
            let out = emit_expression(Expr::function(parameters, body), t)->Ok_0;
            &&& out.table == t
            &&& out.code.len() == 1
            &&& out.code[0] matches Instr::Constant(
                Value::CompiledFunction { instructions, num_locals, num_paras },
            )
            &&& num_paras == parameters.len()
            &&& num_paras <= num_locals
        }),
{
    let scope = Table::empty(Some(Box::new(t)));
    parameters_take_slots(parameters, scope);
    let inner = define_parameters(parameters, scope)->Ok_0;
    statement_grows_table(body, inner);
}

} // verus!
