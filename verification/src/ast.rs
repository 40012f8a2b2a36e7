use std::rc::Rc;

use vstd::prelude::*;

verus! {

/// Unary operators.
#[derive(Debug, Clone, Copy, PartialEq, Eq, Structural)]
pub enum UnaryOp {
    Neg,
    Not,
}

/// Binary (strict, both operands evaluated) operators.
#[derive(Debug, Clone, Copy, PartialEq, Eq, Structural)]
pub enum BinaryOp {
    Add,
    Sub,
    Mul,
    Div,
    Mod,
    Eq,
    Ne,
    Lt,
    Le,
    Gt,
    Ge,
}

/// Short-circuiting logical operators.
#[derive(Debug, Clone, Copy, PartialEq, Eq, Structural)]
pub enum LogicalOp {
    And,
    Or,
}

/// The source-level symbol of a binary operator.
pub open spec fn binary_symbol(op: BinaryOp) -> &'static str {
    match op {
        BinaryOp::Add => "+",
        BinaryOp::Sub => "-",
        BinaryOp::Mul => "*",
        BinaryOp::Div => "/",
        BinaryOp::Mod => "%",
        BinaryOp::Eq => "==",
        BinaryOp::Ne => "!=",
        BinaryOp::Lt => "<",
        BinaryOp::Le => "<=",
        BinaryOp::Gt => ">",
        BinaryOp::Ge => ">=",
    }
}

impl BinaryOp {
    /// Source-level symbol, used in error messages.
    pub fn symbol(self) -> (s: &'static str)
        ensures
            s == binary_symbol(self),
    {
        match self {
            BinaryOp::Add => "+",
            BinaryOp::Sub => "-",
            BinaryOp::Mul => "*",
            BinaryOp::Div => "/",
            BinaryOp::Mod => "%",
            BinaryOp::Eq => "==",
            BinaryOp::Ne => "!=",
            BinaryOp::Lt => "<",
            BinaryOp::Le => "<=",
            BinaryOp::Gt => ">",
            BinaryOp::Ge => ">=",
        }
    }
}

/// The source-level symbol of a logical operator.
pub open spec fn logical_symbol(op: LogicalOp) -> &'static str {
    match op {
        LogicalOp::And => "&&",
        LogicalOp::Or => "||",
    }
}

impl LogicalOp {
    /// Source-level symbol, used in error messages.
    pub fn symbol(self) -> (s: &'static str)
        ensures
            s == logical_symbol(self),
    {
        match self {
            LogicalOp::And => "&&",
            LogicalOp::Or => "||",
        }
    }
}

/// A literal as written in the source. A number keeps its decimal spelling;
/// the host turns it into an IEEE-754 double when it is evaluated.
#[derive(Debug, Clone)]
pub enum Literal {
    Number(String),
    Str(String),
    Bool(bool),
}

/// An expression: evaluates to a value.
#[derive(Debug)]
pub enum Expr {
    Literal(Literal),
    Variable(String),
    /// `x => body` or `(a, b) => body`: an anonymous function.
    Lambda(Rc<Function>),
    /// `callee(a, b)` — the callee is any expression evaluating to a function.
    Call { callee: Box<Expr>, args: Vec<Expr> },
    /// `[a, b, c]` — array literal.
    Array(Vec<Expr>),
    /// `{k: v, ...}` — map literal, entries in source order.
    Dict(Vec<(Expr, Expr)>),
    /// `target[index]` — read access; chains left-to-right (`m[i][j]`).
    Index { target: Box<Expr>, index: Box<Expr> },
    Unary { op: UnaryOp, operand: Box<Expr> },
    Logical { op: LogicalOp, left: Box<Expr>, right: Box<Expr> },
    Binary { op: BinaryOp, left: Box<Expr>, right: Box<Expr> },
}

/// A statement: executed for its effect. `line` is the 1-based source line
/// of the statement's first token.
#[derive(Debug)]
pub enum Stmt {
    /// `var x = expr` — declare in the current scope.
    Let { name: String, value: Expr, line: usize },
    /// `x = expr` — update an existing binding, innermost scope first.
    Assign { name: String, value: Expr, line: usize },
    /// `x[i] = expr` — write one element of an array or map variable.
    IndexAssign { name: String, index: Expr, value: Expr, line: usize },
    /// `{ ... }` — runs in its own scope.
    Block(Vec<Stmt>),
    /// Branches are always blocks (or another `If` for `else if`).
    If { condition: Expr, then_branch: Box<Stmt>, else_branch: Option<Box<Stmt>>, line: usize },
    /// `while (cond) { ... }` — the body is always a block.
    While { condition: Expr, body: Box<Stmt>, line: usize },
    /// `function name(params) { ... }` — binds a function value to `name`.
    Function(Rc<Function>),
    /// `return expr` — unwinds to the nearest enclosing call.
    Return { value: Expr, line: usize },
    Expr { expr: Expr, line: usize },
}

/// A user-defined function: named (a `function` statement) or a lambda.
#[derive(Debug)]
pub struct Function {
    pub name: Option<String>,
    pub params: Vec<String>,
    pub body: Stmt,
}

} // verus!
