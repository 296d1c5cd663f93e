use vstd::prelude::*;

verus! {

/// An expression of the language, as the parser builds it.
#[derive(PartialEq, Eq, Debug)]
pub enum Expression {
    Ident(String),
    Int(String),
    Str(String),
    Bool(String),
    Array(Vec<Box<Expression>>),
    Prefix { operator: String, expr: Box<Expression> },
    Infix { operator: String, left: Box<Expression>, right: Box<Expression> },
    If { condition: Box<Expression>, consequence: Box<Statement>, alternative: Box<Statement> },
    Function { parameters: Vec<Box<Expression>>, body: Box<Statement> },
    Call { function: Box<Expression>, arguments: Vec<Box<Expression>> },
}

/// A statement of the language.
#[derive(PartialEq, Eq, Debug)]
pub enum Statement {
    Let { ident: Expression, expr: Expression },
    Return(Expression),
    Expr(Expression),
    Block(Vec<Box<Statement>>),
}

/// The mathematical value of an [`Expression`]: text is a sequence of
/// characters and a list is a sequence.
pub enum Expr {
    Ident(Seq<char>),
    Int(Seq<char>),
    Str(Seq<char>),
    Bool(Seq<char>),
    Array(Seq<Expr>),
    Prefix { operator: Seq<char>, expr: Box<Expr> },
    Infix { operator: Seq<char>, left: Box<Expr>, right: Box<Expr> },
    If { condition: Box<Expr>, consequence: Box<Stmt>, alternative: Box<Stmt> },
    Function { parameters: Seq<Expr>, body: Box<Stmt> },
    Call { function: Box<Expr>, arguments: Seq<Expr> },
}

/// The mathematical value of a [`Statement`].
pub enum Stmt {
    Let { ident: Expr, expr: Expr },
    Return(Expr),
    Expr(Expr),
    Block(Seq<Stmt>),
}

impl Expr {
    /// A prefix operator applied to an operand.
    pub open spec fn prefix(operator: Seq<char>, expr: Expr) -> Expr {
        Expr::Prefix { operator, expr: Box::new(expr) }
    }

    /// An infix operator between two operands.
    pub open spec fn infix(operator: Seq<char>, left: Expr, right: Expr) -> Expr {
        Expr::Infix { operator, left: Box::new(left), right: Box::new(right) }
    }

    /// A conditional with its two branches.
    pub open spec fn conditional(condition: Expr, consequence: Stmt, alternative: Stmt) -> Expr {
        Expr::If {
            condition: Box::new(condition),
            consequence: Box::new(consequence),
            alternative: Box::new(alternative),
        }
    }

    /// A function literal.
    pub open spec fn function(parameters: Seq<Expr>, body: Stmt) -> Expr {
        Expr::Function { parameters, body: Box::new(body) }
    }

    /// A call of a function on arguments.
    pub open spec fn call(function: Expr, arguments: Seq<Expr>) -> Expr {
        Expr::Call { function: Box::new(function), arguments }
    }
}

/// The parts of an expression are smaller than the expression, which is what
/// lets a function on expressions call itself on the parts.
pub proof fn parts_are_smaller(e: Expr)
    ensures
        match e {
            Expr::Array(items) => decreases_to!(e => items),
            Expr::Prefix { operator, expr } => decreases_to!(e => *expr),
            Expr::Infix { operator, left, right } => decreases_to!(e => *left) && decreases_to!(e => *right),
            Expr::If { condition, consequence, alternative } => decreases_to!(e => *condition)
                && decreases_to!(e => *consequence) && decreases_to!(e => *alternative),
            Expr::Function { parameters, body } => decreases_to!(e => parameters)
                && decreases_to!(e => *body),
            Expr::Call { function, arguments } => decreases_to!(e => *function)
                && decreases_to!(e => arguments),
            _ => true,
        },
{
}

/// The parts of a statement are smaller than the statement.
pub proof fn statement_parts_are_smaller(s: Stmt)
    ensures
        match s {
            Stmt::Let { ident, expr } => decreases_to!(s => ident) && decreases_to!(s => expr),
            Stmt::Return(e) => decreases_to!(s => e),
            Stmt::Expr(e) => decreases_to!(s => e),
            Stmt::Block(statements) => decreases_to!(s => statements),
        },
{
}

impl Stmt {
    /// A `let` of `ident` to the value of `expr`.
    pub open spec fn binding(ident: Expr, expr: Expr) -> Stmt {
        Stmt::Let { ident, expr }
    }
}

impl Expression {
    /// The value of this expression.
    pub open spec fn model(&self) -> Expr
        decreases self,
    {
        match self {
            Expression::Ident(s) => Expr::Ident(s@),
            Expression::Int(s) => Expr::Int(s@),
            Expression::Str(s) => Expr::Str(s@),
            Expression::Bool(s) => Expr::Bool(s@),
            Expression::Array(es) => Expr::Array(expressions_view(es@)),
            Expression::Prefix { operator, expr } => Expr::Prefix {
                operator: operator@,
                expr: Box::new(expr.model()),
            },
            Expression::Infix { operator, left, right } => Expr::Infix {
                operator: operator@,
                left: Box::new(left.model()),
                right: Box::new(right.model()),
            },
            Expression::If { condition, consequence, alternative } => Expr::If {
                condition: Box::new(condition.model()),
                consequence: Box::new(consequence.model()),
                alternative: Box::new(alternative.model()),
            },
            Expression::Function { parameters, body } => Expr::Function {
                parameters: expressions_view(parameters@),
                body: Box::new(body.model()),
            },
            Expression::Call { function, arguments } => Expr::Call {
                function: Box::new(function.model()),
                arguments: expressions_view(arguments@),
            },
        }
    }

    /// A deep copy of this expression.
    pub fn duplicate(&self) -> (r: Expression)
        ensures
            r@ == self@,
        decreases self,
    {
        match self {
            Expression::Ident(s) => Expression::Ident(s.clone()),
            Expression::Int(s) => Expression::Int(s.clone()),
            Expression::Str(s) => Expression::Str(s.clone()),
            Expression::Bool(s) => Expression::Bool(s.clone()),
            Expression::Array(es) => Expression::Array(duplicate_expressions(es)),
            Expression::Prefix { operator, expr } => Expression::Prefix {
                operator: operator.clone(),
                expr: Box::new(expr.duplicate()),
            },
            Expression::Infix { operator, left, right } => Expression::Infix {
                operator: operator.clone(),
                left: Box::new(left.duplicate()),
                right: Box::new(right.duplicate()),
            },
            Expression::If { condition, consequence, alternative } => Expression::If {
                condition: Box::new(condition.duplicate()),
                consequence: Box::new(consequence.duplicate()),
                alternative: Box::new(alternative.duplicate()),
            },
            Expression::Function { parameters, body } => Expression::Function {
                parameters: duplicate_expressions(parameters),
                body: Box::new(body.duplicate()),
            },
            Expression::Call { function, arguments } => Expression::Call {
                function: Box::new(function.duplicate()),
                arguments: duplicate_expressions(arguments),
            },
        }
    }
}

/// The values of a list of expressions, in order.
pub open spec fn expressions_view(es: Seq<Box<Expression>>) -> Seq<Expr>
    decreases es,
{
    Seq::new(es.len(), |i: int| if 0 <= i < es.len() { es[i].model() } else { arbitrary() })
}

/// The values of a list of statements, in order.
pub open spec fn statements_view(ss: Seq<Box<Statement>>) -> Seq<Stmt>
    decreases ss,
{
    Seq::new(ss.len(), |i: int| if 0 <= i < ss.len() { ss[i].model() } else { arbitrary() })
}

/// A deep copy of a list of expressions.
pub fn duplicate_expressions(es: &Vec<Box<Expression>>) -> (r: Vec<Box<Expression>>)
    ensures
        expressions_view(r@) == expressions_view(es@),
    decreases es,
{
    let mut out: Vec<Box<Expression>> = Vec::new();
    let mut i: usize = 0;
    while i < es.len()
        invariant
            i <= es.len(),
            out.len() == i,
            forall|j: int| 0 <= j < i ==> out[j]@ == es[j]@,
        decreases es.len() - i,
    {
        out.push(Box::new(es[i].duplicate()));
        i += 1;
    }
    assert(expressions_view(out@) =~= expressions_view(es@));
    out
}

/// A deep copy of a list of statements.
pub fn duplicate_statements(ss: &Vec<Box<Statement>>) -> (r: Vec<Box<Statement>>)
    ensures
        statements_view(r@) == statements_view(ss@),
    decreases ss,
{
    let mut out: Vec<Box<Statement>> = Vec::new();
    let mut i: usize = 0;
    while i < ss.len()
        invariant
            i <= ss.len(),
            out.len() == i,
            forall|j: int| 0 <= j < i ==> out[j]@ == ss[j]@,
        decreases ss.len() - i,
    {
        out.push(Box::new(ss[i].duplicate()));
        i += 1;
    }
    assert(statements_view(out@) =~= statements_view(ss@));
    out
}

impl Statement {
    /// The value of this statement.
    pub open spec fn model(&self) -> Stmt
        decreases self,
    {
        match self {
            Statement::Let { ident, expr } => Stmt::Let { ident: ident.model(), expr: expr.model() },
            Statement::Return(e) => Stmt::Return(e.model()),
            Statement::Expr(e) => Stmt::Expr(e.model()),
            Statement::Block(ss) => Stmt::Block(statements_view(ss@)),
        }
    }

    /// A deep copy of this statement.
    pub fn duplicate(&self) -> (r: Statement)
        ensures
            r@ == self@,
        decreases self,
    {
        match self {
            Statement::Let { ident, expr } => Statement::Let {
                ident: ident.duplicate(),
                expr: expr.duplicate(),
            },
            Statement::Return(e) => Statement::Return(e.duplicate()),
            Statement::Expr(e) => Statement::Expr(e.duplicate()),
            Statement::Block(ss) => Statement::Block(duplicate_statements(ss)),
        }
    }
}

impl View for Expression {
    type V = Expr;

    open spec fn view(&self) -> Expr {
        self.model()
    }
}

impl View for Statement {
    type V = Stmt;

    open spec fn view(&self) -> Stmt {
        self.model()
    }
}

impl Clone for Expression {
    fn clone(&self) -> (r: Expression)
        ensures
            r@ == self@,
    {
        self.duplicate()
    }
}

impl Clone for Statement {
    fn clone(&self) -> (r: Statement)
        ensures
            r@ == self@,
    {
        self.duplicate()
    }
}

} // verus!
