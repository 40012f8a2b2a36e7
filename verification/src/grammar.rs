//! The grammar of the language, as a specification: what syntax tree a
//! token sequence denotes, or where it goes wrong. The parser is proved to
//! compute exactly this.
//!
//!   program    := statement*                      (';' optional between statements)
//!   statement  := "var" IDENT "=" expr
//!               | "function" IDENT "(" params ")" block
//!               | "return" expr
//!               | "if" "(" expr ")" block ("else" (block | if))?
//!               | "while" "(" expr ")" block
//!               | block                           ('{' without a top-level ':')
//!               | expr ("=" expr)?                (target: a name or name[index])
//!   expr       := lambda | or
//!   lambda     := (IDENT | "(" params ")") "=>" (block | expr)
//!   or         := and ("||" and)*
//!   and        := equality ("&&" equality)*
//!   equality   := comparison (("==" | "!=") comparison)*
//!   comparison := term (("<" | "<=" | ">" | ">=") term)*
//!   term       := factor (("+" | "-") factor)*
//!   factor     := unary (("*" | "/" | "%") unary)*
//!   unary      := ("-" | "!") unary | postfix
//!   postfix    := primary ("(" args ")" | "[" expr "]")*
//!   primary    := NUMBER | STRING | "true" | "false" | IDENT | "(" expr ")"
//!               | "[" args "]" | "{" (expr ":" expr ("," expr ":" expr)*)? "}"

use vstd::prelude::*;

use crate::ast::{BinaryOp, Expr, Function, Literal, LogicalOp, Stmt, UnaryOp};
use crate::error::LangError;
use crate::lexer::{SpecToken, TokenKind, described};

verus! {

/// An expression as the grammar sees it.
pub enum SExpr {
    Num(Seq<char>),
    Str(Seq<char>),
    Bool(bool),
    Var(Seq<char>),
    Lambda(Seq<Seq<char>>, Box<SStmt>),
    Call(Box<SExpr>, Seq<SExpr>),
    Array(Seq<SExpr>),
    Dict(Seq<(SExpr, SExpr)>),
    Index(Box<SExpr>, Box<SExpr>),
    Unary(UnaryOp, Box<SExpr>),
    Logical(LogicalOp, Box<SExpr>, Box<SExpr>),
    Binary(BinaryOp, Box<SExpr>, Box<SExpr>),
}

/// A statement as the grammar sees it (with its source line).
pub enum SStmt {
    Let(Seq<char>, SExpr, usize),
    Assign(Seq<char>, SExpr, usize),
    IndexAssign(Seq<char>, SExpr, SExpr, usize),
    Block(Seq<SStmt>),
    If(SExpr, Box<SStmt>, Option<Box<SStmt>>, usize),
    While(SExpr, Box<SStmt>, usize),
    Function(Option<Seq<char>>, Seq<Seq<char>>, Box<SStmt>),
    Return(SExpr, usize),
    Expr(SExpr, usize),
}

/// Names as character sequences.
pub open spec fn names_view(s: Seq<String>) -> Seq<Seq<char>> {
    s.map_values(|n: String| n@)
}

/// The grammar's view of an expression.
pub open spec fn expr_view(e: Expr) -> SExpr
    decreases e,
{
    match e {
        Expr::Literal(Literal::Number(s)) => SExpr::Num(s@),
        Expr::Literal(Literal::Str(s)) => SExpr::Str(s@),
        Expr::Literal(Literal::Bool(b)) => SExpr::Bool(b),
        Expr::Variable(n) => SExpr::Var(n@),
        Expr::Lambda(f) => SExpr::Lambda(names_view(f.params@), Box::new(stmt_view(f.body))),
        Expr::Call { callee, args } => SExpr::Call(
            Box::new(expr_view(*callee)),
            exprs_view(args@),
        ),
        Expr::Array(items) => SExpr::Array(exprs_view(items@)),
        Expr::Dict(entries) => SExpr::Dict(entries_view(entries@)),
        Expr::Index { target, index } => SExpr::Index(
            Box::new(expr_view(*target)),
            Box::new(expr_view(*index)),
        ),
        Expr::Unary { op, operand } => SExpr::Unary(op, Box::new(expr_view(*operand))),
        Expr::Logical { op, left, right } => SExpr::Logical(
            op,
            Box::new(expr_view(*left)),
            Box::new(expr_view(*right)),
        ),
        Expr::Binary { op, left, right } => SExpr::Binary(
            op,
            Box::new(expr_view(*left)),
            Box::new(expr_view(*right)),
        ),
    }
}

/// The grammar's view of a sequence of expressions.
pub open spec fn exprs_view(s: Seq<Expr>) -> Seq<SExpr>
    decreases s,
{
    if s.len() == 0 {
        Seq::empty()
    } else {
        seq![expr_view(s[0])] + exprs_view(s.subrange(1, s.len() as int))
    }
}

/// The grammar's view of map-literal entries.
pub open spec fn entries_view(s: Seq<(Expr, Expr)>) -> Seq<(SExpr, SExpr)>
    decreases s,
{
    if s.len() == 0 {
        Seq::empty()
    } else {
        seq![(expr_view(s[0].0), expr_view(s[0].1))] + entries_view(s.subrange(1, s.len() as int))
    }
}

/// The grammar's view of a statement.
pub open spec fn stmt_view(s: Stmt) -> SStmt
    decreases s,
{
    match s {
        Stmt::Let { name, value, line } => SStmt::Let(name@, expr_view(value), line),
        Stmt::Assign { name, value, line } => SStmt::Assign(name@, expr_view(value), line),
        Stmt::IndexAssign { name, index, value, line } => SStmt::IndexAssign(
            name@,
            expr_view(index),
            expr_view(value),
            line,
        ),
        Stmt::Block(stmts) => SStmt::Block(stmts_view(stmts@)),
        Stmt::If { condition, then_branch, else_branch, line } => SStmt::If(
            expr_view(condition),
            Box::new(stmt_view(*then_branch)),
            match else_branch {
                Some(b) => Some(Box::new(stmt_view(*b))),
                None => None,
            },
            line,
        ),
        Stmt::While { condition, body, line } => SStmt::While(
            expr_view(condition),
            Box::new(stmt_view(*body)),
            line,
        ),
        Stmt::Function(f) => SStmt::Function(
            match f.name {
                Some(n) => Some(n@),
                None => None,
            },
            names_view(f.params@),
            Box::new(stmt_view(f.body)),
        ),
        Stmt::Return { value, line } => SStmt::Return(expr_view(value), line),
        Stmt::Expr { expr, line } => SStmt::Expr(expr_view(expr), line),
    }
}

/// The grammar's view of a sequence of statements.
pub open spec fn stmts_view(s: Seq<Stmt>) -> Seq<SStmt>
    decreases s,
{
    if s.len() == 0 {
        Seq::empty()
    } else {
        seq![stmt_view(s[0])] + stmts_view(s.subrange(1, s.len() as int))
    }
}

/// The grammar's view of a statement sequence is taken element by element.
pub proof fn lemma_stmts_view_index(s: Seq<Stmt>)
    ensures
        stmts_view(s).len() == s.len(),
        forall|i: int| 0 <= i < s.len() ==> #[trigger] stmts_view(s)[i] == stmt_view(s[i]),
    decreases s.len(),
{
    if s.len() > 0 {
        let rest = s.subrange(1, s.len() as int);
        lemma_stmts_view_index(rest);
        assert forall|i: int| 0 <= i < s.len() implies #[trigger] stmts_view(s)[i] == stmt_view(
            s[i],
        ) by {
            if i > 0 {
                assert(rest[i - 1] == s[i]);
            }
        }
    }
}

/// Where a token sequence goes wrong: something was expected at a position
/// (past the end: the input ended), or an assignment has an invalid target.
/// `Stuck` marks a parse that would not advance; it never happens.
pub enum PErr {
    Expected(&'static str, int),
    Target,
    Stuck,
}

/// The error the parser reports for a grammar failure.
pub open spec fn reports_syntax(e: LangError, f: PErr, t: Seq<SpecToken>) -> bool {
    match f {
        PErr::Expected(what, at) => if 0 <= at < t.len() {
            e matches LangError::UnexpectedToken { expected, found } && expected == what && found@
                == described(t[at])
        } else {
            e == (LangError::UnexpectedEnd { expected: what })
        },
        PErr::Target => e == LangError::InvalidAssignTarget,
        PErr::Stuck => false,
    }
}

/// The kind of the token at `p`, if any.
pub open spec fn kind_at(t: Seq<SpecToken>, p: int) -> Option<TokenKind> {
    if 0 <= p < t.len() {
        Some(t[p].0)
    } else {
        None
    }
}

/// The token at `p` has kind `k`.
pub open spec fn is_at(t: Seq<SpecToken>, p: int, k: TokenKind) -> bool {
    0 <= p < t.len() && t[p].0 == k
}

/// The source line of the token at `p` (the last line past the end).
pub open spec fn line_at(lines: Seq<usize>, p: int) -> usize {
    if 0 <= p < lines.len() {
        lines[p]
    } else if lines.len() > 0 {
        lines.last()
    } else {
        1
    }
}

/// Past an optional ';'.
pub open spec fn skip_semi(t: Seq<SpecToken>, p: int) -> int {
    if is_at(t, p, TokenKind::Semicolon) {
        p + 1
    } else {
        p
    }
}

/// `q` is a position past `p`, within the input.
pub open spec fn fits(p: int, q: int, n: int) -> bool {
    p < q <= n
}

pub open spec fn g_expect(t: Seq<SpecToken>, p: int, k: TokenKind, what: &'static str) -> Result<
    int,
    PErr,
> {
    if is_at(t, p, k) {
        Ok(p + 1)
    } else {
        Err(PErr::Expected(what, p))
    }
}

pub open spec fn g_ident(t: Seq<SpecToken>, p: int, what: &'static str) -> Result<
    (Seq<char>, int),
    PErr,
> {
    if is_at(t, p, TokenKind::Ident) {
        Ok((t[p].1, p + 1))
    } else {
        Err(PErr::Expected(what, p))
    }
}

/// At a `{` at `p`: scanning from `k` at nesting `depth`, is a ':' found at
/// the top level before the brace closes?
pub open spec fn map_scan(t: Seq<SpecToken>, k: int, depth: int) -> bool
    decreases t.len() - k,
{
    if k < 0 || k >= t.len() {
        false
    } else {
        match t[k].0 {
            TokenKind::LParen | TokenKind::LBracket | TokenKind::LBrace => map_scan(t, k + 1, depth + 1),
            TokenKind::RParen | TokenKind::RBracket | TokenKind::RBrace => if depth == 0 {
                false
            } else {
                map_scan(t, k + 1, depth - 1)
            },
            TokenKind::Colon => if depth == 0 {
                true
            } else {
                map_scan(t, k + 1, depth)
            },
            _ => map_scan(t, k + 1, depth),
        }
    }
}

/// How a token changes the bracket nesting: an opening bracket of any kind
/// goes one level in, a closing one one level out.
pub open spec fn nesting_step(k: TokenKind) -> int {
    match k {
        TokenKind::LParen | TokenKind::LBracket | TokenKind::LBrace => 1,
        TokenKind::RParen | TokenKind::RBracket | TokenKind::RBrace => -1,
        _ => 0,
    }
}

/// The nesting level just before position `j`, starting at `d` at `k`.
pub open spec fn level_at(t: Seq<SpecToken>, k: int, d: int, j: int) -> int
    decreases j - k,
{
    if j <= k {
        d
    } else {
        level_at(t, k, d, j - 1) + nesting_step(t[j - 1].0)
    }
}

/// Starting one token later shifts the nesting by that token's step.
proof fn lemma_level_shift(t: Seq<SpecToken>, k: int, d: int, j: int)
    requires
        0 <= k < j <= t.len(),
    ensures
        level_at(t, k, d, j) == level_at(t, k + 1, d + nesting_step(t[k].0), j),
    decreases j - k,
{
    if j > k + 1 {
        lemma_level_shift(t, k, d, j - 1);
    } else {
        assert(level_at(t, k, d, k) == d);
        assert(level_at(t, k + 1, d + nesting_step(t[k].0), k + 1) == d + nesting_step(t[k].0));
    }
}

/// A ':' found by the brace scan stands at the brace's own level: scanning
/// from `k` at nesting `d` succeeds only if some later ':' lies at level
/// zero, with the nesting never below zero before it (the brace not yet
/// closed).
pub proof fn law_map_colon_is_at_top_level(t: Seq<SpecToken>, k: int, d: int)
    requires
        0 <= k,
        d >= 0,
        map_scan(t, k, d),
    ensures
        exists|j: int|
            #![trigger t[j]]
            k <= j < t.len() && t[j].0 == TokenKind::Colon && level_at(t, k, d, j) == 0 && forall|
                m: int,
            | k <= m < j ==> #[trigger] level_at(t, k, d, m) >= 0,
    decreases t.len() - k,
{
    if t[k].0 == TokenKind::Colon && d == 0 {
        assert(level_at(t, k, d, k) == 0);
        assert(t[k].0 == TokenKind::Colon);
    } else {
        let d2 = d + nesting_step(t[k].0);
        law_map_colon_is_at_top_level(t, k + 1, d2);
        let j = choose|j: int|
            #![trigger t[j]]
            k + 1 <= j < t.len() && t[j].0 == TokenKind::Colon && level_at(t, k + 1, d2, j) == 0
                && forall|m: int| k + 1 <= m < j ==> #[trigger] level_at(t, k + 1, d2, m) >= 0;
        lemma_level_shift(t, k, d, j);
        assert forall|m: int| k <= m < j implies level_at(t, k, d, m) >= 0 by {
            if m > k {
                lemma_level_shift(t, k, d, m);
            }
        }
        assert(t[j].0 == TokenKind::Colon);
    }
}

/// And conversely: a ':' at level zero, reached before the brace closes,
/// makes the scan succeed.
pub proof fn law_top_level_colon_makes_a_map(t: Seq<SpecToken>, k: int, d: int, j: int)
    requires
        0 <= k <= j < t.len(),
        d >= 0,
        t[j].0 == TokenKind::Colon,
        level_at(t, k, d, j) == 0,
        forall|m: int|
            k <= m < j ==> level_at(t, k, d, m) >= 0 && !(nesting_step(#[trigger] t[m].0) == -1
                && level_at(t, k, d, m) == 0),
    ensures
        map_scan(t, k, d),
    decreases j - k,
{
    if k < j {
        let d2 = d + nesting_step(t[k].0);
        assert(level_at(t, k, d, k) == d);
        assert(!(nesting_step(t[k].0) == -1 && d == 0));
        lemma_level_shift(t, k, d, j);
        assert forall|m: int| k + 1 <= m < j implies level_at(t, k + 1, d2, m) >= 0 && !(
        nesting_step(#[trigger] t[m].0) == -1 && level_at(t, k + 1, d2, m) == 0) by {
            lemma_level_shift(t, k, d, m);
        }
        assert(level_at(t, k, d, k + 1) == d2);
        assert(d2 >= 0) by {
            if k + 1 < j {
                lemma_level_shift(t, k, d, k + 1);
            }
        }
        if !(t[k].0 == TokenKind::Colon && d == 0) {
            law_top_level_colon_makes_a_map(t, k + 1, d2, j);
        }
    } else {
        assert(level_at(t, k, d, k) == d);
    }
}

/// From `k`: `IDENT ("," IDENT)* ")" "=>"`?
pub open spec fn paren_scan(t: Seq<SpecToken>, k: int) -> bool
    decreases t.len() + 1 - k,
{
    if k < 0 || k >= t.len() {
        false
    } else if t[k].0 != TokenKind::Ident {
        false
    } else {
        match kind_at(t, k + 1) {
            Some(TokenKind::Comma) => paren_scan(t, k + 2),
            Some(TokenKind::RParen) => is_at(t, k + 2, TokenKind::Arrow),
            _ => false,
        }
    }
}

/// Does a parenthesized parameter list followed by `=>` start at `p`?
pub open spec fn at_paren_lambda(t: Seq<SpecToken>, p: int) -> bool {
    &&& is_at(t, p, TokenKind::LParen)
    &&& if is_at(t, p + 1, TokenKind::RParen) {
        is_at(t, p + 2, TokenKind::Arrow)
    } else {
        paren_scan(t, p + 1)
    }
}

/// Parameter names from `q` (at least one), then the rest of the list.
pub open spec fn g_param_list(t: Seq<SpecToken>, q: int) -> Result<(Seq<Seq<char>>, int), PErr>
    decreases t.len() - q,
{
    match g_ident(t, q, "a parameter name") {
        Err(e) => Err(e),
        Ok((n, q1)) => if is_at(t, q1, TokenKind::Comma) {
            if q1 + 1 <= q {
                Err(PErr::Stuck)
            } else {
                match g_param_list(t, q1 + 1) {
                    Ok((rest, q2)) => Ok((seq![n] + rest, q2)),
                    Err(e) => Err(e),
                }
            }
        } else {
            Ok((seq![n], q1))
        },
    }
}

/// After `(`: parameter names up to and including `)`.
pub open spec fn g_params(t: Seq<SpecToken>, p: int) -> Result<(Seq<Seq<char>>, int), PErr> {
    let names = if is_at(t, p, TokenKind::RParen) {
        Ok((Seq::<Seq<char>>::empty(), p))
    } else {
        g_param_list(t, p)
    };
    match names {
        Err(e) => Err(e),
        Ok((ps, q)) => match g_expect(t, q, TokenKind::RParen, "')'") {
            Ok(q2) => Ok((ps, q2)),
            Err(e) => Err(e),
        },
    }
}

/// The operator of an `||` level.
pub open spec fn or_op(k: Option<TokenKind>) -> Option<LogicalOp> {
    match k {
        Some(TokenKind::OrOr) => Some(LogicalOp::Or),
        _ => None,
    }
}

/// The operator of an `&&` level.
pub open spec fn and_op(k: Option<TokenKind>) -> Option<LogicalOp> {
    match k {
        Some(TokenKind::AndAnd) => Some(LogicalOp::And),
        _ => None,
    }
}

/// The binary operator a token stands for at a precedence level
/// (0: equality, 1: comparison, 2: term, 3: factor).
pub open spec fn level_op(level: int, k: Option<TokenKind>) -> Option<BinaryOp> {
    if level == 0 {
        match k {
            Some(TokenKind::EqualEqual) => Some(BinaryOp::Eq),
            Some(TokenKind::BangEqual) => Some(BinaryOp::Ne),
            _ => None,
        }
    } else if level == 1 {
        match k {
            Some(TokenKind::Less) => Some(BinaryOp::Lt),
            Some(TokenKind::LessEqual) => Some(BinaryOp::Le),
            Some(TokenKind::Greater) => Some(BinaryOp::Gt),
            Some(TokenKind::GreaterEqual) => Some(BinaryOp::Ge),
            _ => None,
        }
    } else if level == 2 {
        match k {
            Some(TokenKind::Plus) => Some(BinaryOp::Add),
            Some(TokenKind::Minus) => Some(BinaryOp::Sub),
            _ => None,
        }
    } else if level == 3 {
        match k {
            Some(TokenKind::Star) => Some(BinaryOp::Mul),
            Some(TokenKind::Slash) => Some(BinaryOp::Div),
            Some(TokenKind::Percent) => Some(BinaryOp::Mod),
            _ => None,
        }
    } else {
        None
    }
}

/// A statement at `p`.
pub open spec fn g_statement(t: Seq<SpecToken>, l: Seq<usize>, p: int) -> Result<(SStmt, int), PErr>
    decreases t.len() - p, 60int,
{
    match kind_at(t, p) {
        Some(TokenKind::Var) => g_let(t, l, p),
        Some(TokenKind::Function) => g_function(t, l, p),
        Some(TokenKind::Return) => g_return(t, l, p),
        Some(TokenKind::If) => g_if(t, l, p),
        Some(TokenKind::While) => g_while(t, l, p),
        Some(TokenKind::LBrace) => if map_scan(t, p + 1, 0) {
            g_expr_stmt(t, l, p)
        } else {
            g_block(t, l, p)
        },
        _ => g_expr_stmt(t, l, p),
    }
}

/// `var NAME = expr`, the `var` at `p`.
pub open spec fn g_let(t: Seq<SpecToken>, l: Seq<usize>, p: int) -> Result<(SStmt, int), PErr>
    decreases t.len() - p, 59int,
{
    if p < 0 || p >= t.len() {
        Err(PErr::Stuck)
    } else {
        match g_ident(t, p + 1, "a variable name") {
            Err(e) => Err(e),
            Ok((name, q)) => match g_expect(t, q, TokenKind::Equals, "'='") {
                Err(e) => Err(e),
                Ok(q2) => match g_expr(t, l, q2) {
                    Err(e) => Err(e),
                    Ok((v, q3)) => Ok((SStmt::Let(name, v, line_at(l, p)), q3)),
                },
            },
        }
    }
}

/// An expression statement, or an assignment when a '=' follows.
pub open spec fn g_expr_stmt(t: Seq<SpecToken>, l: Seq<usize>, p: int) -> Result<(SStmt, int), PErr>
    decreases t.len() - p, 59int,
{
    let line = line_at(l, p);
    match g_expr(t, l, p) {
        Err(e) => Err(e),
        Ok((target, q)) => if !is_at(t, q, TokenKind::Equals) {
            Ok((SStmt::Expr(target, line), q))
        } else if !fits(p, q, t.len() as int) {
            Err(PErr::Stuck)
        } else {
            match g_expr(t, l, q + 1) {
                Err(e) => Err(e),
                Ok((value, q2)) => match target {
                    SExpr::Var(name) => Ok((SStmt::Assign(name, value, line), q2)),
                    SExpr::Index(tg, ix) => match *tg {
                        SExpr::Var(name) => Ok((SStmt::IndexAssign(name, *ix, value, line), q2)),
                        _ => Err(PErr::Target),
                    },
                    _ => Err(PErr::Target),
                },
            }
        },
    }
}

/// `{ statement* }`, the `{` at `p`.
pub open spec fn g_block(t: Seq<SpecToken>, l: Seq<usize>, p: int) -> Result<(SStmt, int), PErr>
    decreases t.len() - p, 5int,
{
    if p < 0 || p >= t.len() {
        Err(PErr::Stuck)
    } else {
        match g_block_rest(t, l, p + 1) {
            Ok((ss, q)) => Ok((SStmt::Block(ss), q)),
            Err(e) => Err(e),
        }
    }
}

/// The statements of a block from `q`, up to and including its `}`.
pub open spec fn g_block_rest(t: Seq<SpecToken>, l: Seq<usize>, q: int) -> Result<
    (Seq<SStmt>, int),
    PErr,
>
    decreases t.len() - q + 1, 0int,
{
    if q < 0 {
        Err(PErr::Stuck)
    } else {
        match kind_at(t, q) {
            None => Err(PErr::Expected("'}'", q)),
            Some(TokenKind::RBrace) => Ok((Seq::empty(), q + 1)),
            _ => match g_statement(t, l, q) {
                Err(e) => Err(e),
                Ok((s, q2)) => if !fits(q, q2, t.len() as int) {
                    Err(PErr::Stuck)
                } else {
                    match g_block_rest(t, l, skip_semi(t, q2)) {
                        Ok((rest, q3)) => Ok((seq![s] + rest, q3)),
                        Err(e) => Err(e),
                    }
                },
            },
        }
    }
}

/// A block that must start at `p`.
pub open spec fn g_braced_block(t: Seq<SpecToken>, l: Seq<usize>, p: int) -> Result<
    (SStmt, int),
    PErr,
>
    decreases t.len() - p, 59int,
{
    if is_at(t, p, TokenKind::LBrace) {
        g_block(t, l, p)
    } else {
        Err(PErr::Expected("'{'", p))
    }
}

/// `if (cond) block (else (block | if))?`, the `if` at `p`.
pub open spec fn g_if(t: Seq<SpecToken>, l: Seq<usize>, p: int) -> Result<(SStmt, int), PErr>
    decreases t.len() - p, 59int,
{
    if p < 0 || p >= t.len() {
        Err(PErr::Stuck)
    } else {
        let line = line_at(l, p);
        match g_expect(t, p + 1, TokenKind::LParen, "'('") {
            Err(e) => Err(e),
            Ok(q1) => match g_expr(t, l, q1) {
                Err(e) => Err(e),
                Ok((c, q2)) => match g_expect(t, q2, TokenKind::RParen, "')'") {
                    Err(e) => Err(e),
                    Ok(q3) => if !fits(p, q3, t.len() as int) {
                        Err(PErr::Stuck)
                    } else {
                        match g_braced_block(t, l, q3) {
                            Err(e) => Err(e),
                            Ok((tb, q4)) => if !fits(p, q4, t.len() as int) {
                                Err(PErr::Stuck)
                            } else if is_at(t, q4, TokenKind::Else) {
                                let els = match kind_at(t, q4 + 1) {
                                    Some(TokenKind::LBrace) => g_block(t, l, q4 + 1),
                                    Some(TokenKind::If) => g_if(t, l, q4 + 1),
                                    _ => Err(PErr::Expected("'{' or 'if'", q4 + 1)),
                                };
                                match els {
                                    Ok((eb, q5)) => Ok(
                                        (SStmt::If(c, Box::new(tb), Some(Box::new(eb)), line), q5),
                                    ),
                                    Err(e) => Err(e),
                                }
                            } else {
                                Ok((SStmt::If(c, Box::new(tb), None, line), q4))
                            },
                        }
                    },
                },
            },
        }
    }
}

/// `while (cond) block`, the `while` at `p`.
pub open spec fn g_while(t: Seq<SpecToken>, l: Seq<usize>, p: int) -> Result<(SStmt, int), PErr>
    decreases t.len() - p, 59int,
{
    if p < 0 || p >= t.len() {
        Err(PErr::Stuck)
    } else {
        let line = line_at(l, p);
        match g_expect(t, p + 1, TokenKind::LParen, "'('") {
            Err(e) => Err(e),
            Ok(q1) => match g_expr(t, l, q1) {
                Err(e) => Err(e),
                Ok((c, q2)) => match g_expect(t, q2, TokenKind::RParen, "')'") {
                    Err(e) => Err(e),
                    Ok(q3) => if !fits(p, q3, t.len() as int) {
                        Err(PErr::Stuck)
                    } else {
                        match g_braced_block(t, l, q3) {
                            Err(e) => Err(e),
                            Ok((body, q4)) => Ok((SStmt::While(c, Box::new(body), line), q4)),
                        }
                    },
                },
            },
        }
    }
}

/// `function NAME (params) block`, the `function` at `p`.
pub open spec fn g_function(t: Seq<SpecToken>, l: Seq<usize>, p: int) -> Result<
    (SStmt, int),
    PErr,
>
    decreases t.len() - p, 59int,
{
    if p < 0 || p >= t.len() {
        Err(PErr::Stuck)
    } else {
        match g_ident(t, p + 1, "a function name") {
            Err(e) => Err(e),
            Ok((name, q1)) => match g_expect(t, q1, TokenKind::LParen, "'('") {
                Err(e) => Err(e),
                Ok(q2) => match g_params(t, q2) {
                    Err(e) => Err(e),
                    Ok((ps, q3)) => if !fits(p, q3, t.len() as int) {
                        Err(PErr::Stuck)
                    } else {
                        match g_braced_block(t, l, q3) {
                            Err(e) => Err(e),
                            Ok((body, q4)) => Ok(
                                (SStmt::Function(Some(name), ps, Box::new(body)), q4),
                            ),
                        }
                    },
                },
            },
        }
    }
}

/// `return expr`, the `return` at `p`.
pub open spec fn g_return(t: Seq<SpecToken>, l: Seq<usize>, p: int) -> Result<(SStmt, int), PErr>
    decreases t.len() - p, 59int,
{
    if p < 0 || p >= t.len() {
        Err(PErr::Stuck)
    } else {
        match g_expr(t, l, p + 1) {
            Err(e) => Err(e),
            Ok((v, q)) => Ok((SStmt::Return(v, line_at(l, p)), q)),
        }
    }
}

/// An expression at `p`: a lambda, or an `||` level.
pub open spec fn g_expr(t: Seq<SpecToken>, l: Seq<usize>, p: int) -> Result<(SExpr, int), PErr>
    decreases t.len() - p, 50int,
{
    if p < 0 {
        Err(PErr::Stuck)
    } else if is_at(t, p, TokenKind::Ident) && is_at(t, p + 1, TokenKind::Arrow) {
        g_lambda_body(t, l, p + 2, seq![t[p].1])
    } else if at_paren_lambda(t, p) {
        match g_params(t, p + 1) {
            Err(e) => Err(e),
            Ok((ps, q)) => if !is_at(t, q, TokenKind::Arrow) {
                Err(PErr::Expected("'=>'", q))
            } else if q < p {
                Err(PErr::Stuck)
            } else {
                g_lambda_body(t, l, q + 1, ps)
            },
        }
    } else {
        g_or(t, l, p)
    }
}

/// After `=>` at `q`: a block body, or an expression whose value is returned.
pub open spec fn g_lambda_body(t: Seq<SpecToken>, l: Seq<usize>, q: int, ps: Seq<Seq<char>>) -> Result<
    (SExpr, int),
    PErr,
>
    decreases t.len() - q, 51int,
{
    if is_at(t, q, TokenKind::LBrace) {
        match g_block(t, l, q) {
            Ok((b, q2)) => Ok((SExpr::Lambda(ps, Box::new(b)), q2)),
            Err(e) => Err(e),
        }
    } else {
        match g_expr(t, l, q) {
            Ok((v, q2)) => Ok(
                (SExpr::Lambda(ps, Box::new(SStmt::Return(v, line_at(l, q)))), q2),
            ),
            Err(e) => Err(e),
        }
    }
}

/// `and ("||" and)*` at `p`.
pub open spec fn g_or(t: Seq<SpecToken>, l: Seq<usize>, p: int) -> Result<(SExpr, int), PErr>
    decreases t.len() - p, 48int,
{
    match g_and(t, l, p) {
        Err(e) => Err(e),
        Ok((left, q)) => if !fits(p, q, t.len() as int) {
            Err(PErr::Stuck)
        } else {
            g_or_rest(t, l, q, left)
        },
    }
}

/// The `("||" and)*` tail from `q`, folding left onto `acc`.
pub open spec fn g_or_rest(t: Seq<SpecToken>, l: Seq<usize>, q: int, acc: SExpr) -> Result<
    (SExpr, int),
    PErr,
>
    decreases t.len() - q + 1, 0int,
{
    match or_op(kind_at(t, q)) {
        None => Ok((acc, q)),
        Some(op) => if q < 0 {
            Err(PErr::Stuck)
        } else {
            match g_and(t, l, q + 1) {
                Err(e) => Err(e),
                Ok((right, q2)) => if !fits(q, q2, t.len() as int) {
                    Err(PErr::Stuck)
                } else {
                    g_or_rest(t, l, q2, SExpr::Logical(op, Box::new(acc), Box::new(right)))
                },
            }
        },
    }
}

/// `equality ("&&" equality)*` at `p`.
pub open spec fn g_and(t: Seq<SpecToken>, l: Seq<usize>, p: int) -> Result<(SExpr, int), PErr>
    decreases t.len() - p, 47int,
{
    match g_binary(t, l, p, 0) {
        Err(e) => Err(e),
        Ok((left, q)) => if !fits(p, q, t.len() as int) {
            Err(PErr::Stuck)
        } else {
            g_and_rest(t, l, q, left)
        },
    }
}

/// The `("&&" equality)*` tail from `q`, folding left onto `acc`.
pub open spec fn g_and_rest(t: Seq<SpecToken>, l: Seq<usize>, q: int, acc: SExpr) -> Result<
    (SExpr, int),
    PErr,
>
    decreases t.len() - q + 1, 0int,
{
    match and_op(kind_at(t, q)) {
        None => Ok((acc, q)),
        Some(op) => if q < 0 {
            Err(PErr::Stuck)
        } else {
            match g_binary(t, l, q + 1, 0) {
                Err(e) => Err(e),
                Ok((right, q2)) => if !fits(q, q2, t.len() as int) {
                    Err(PErr::Stuck)
                } else {
                    g_and_rest(t, l, q2, SExpr::Logical(op, Box::new(acc), Box::new(right)))
                },
            }
        },
    }
}

/// A binary precedence level at `p` (0: equality, 1: comparison, 2: term,
/// 3: factor): operands of the next level (after factor: unary
/// expressions), folded left.
pub open spec fn g_binary(t: Seq<SpecToken>, l: Seq<usize>, p: int, level: int) -> Result<
    (SExpr, int),
    PErr,
>
    decreases t.len() - p, 46 - 2 * level,
{
    if level < 0 || level > 3 {
        Err(PErr::Stuck)
    } else {
        let first = if level == 3 {
            g_unary(t, l, p)
        } else {
            g_binary(t, l, p, level + 1)
        };
        match first {
            Err(e) => Err(e),
            Ok((left, q)) => if !fits(p, q, t.len() as int) {
                Err(PErr::Stuck)
            } else {
                g_binary_rest(t, l, q, level, left)
            },
        }
    }
}

/// The operator tail of a binary level from `q`, folding left onto `acc`.
pub open spec fn g_binary_rest(
    t: Seq<SpecToken>,
    l: Seq<usize>,
    q: int,
    level: int,
    acc: SExpr,
) -> Result<(SExpr, int), PErr>
    decreases t.len() - q + 1, 0int,
{
    match level_op(level, kind_at(t, q)) {
        None => Ok((acc, q)),
        Some(op) => if q < 0 || level < 0 || level > 3 {
            Err(PErr::Stuck)
        } else {
            let next = if level == 3 {
                g_unary(t, l, q + 1)
            } else {
                g_binary(t, l, q + 1, level + 1)
            };
            match next {
                Err(e) => Err(e),
                Ok((right, q2)) => if !fits(q, q2, t.len() as int) {
                    Err(PErr::Stuck)
                } else {
                    g_binary_rest(t, l, q2, level, SExpr::Binary(op, Box::new(acc), Box::new(right)))
                },
            }
        },
    }
}

/// `("-" | "!") unary | postfix` at `p`.
pub open spec fn g_unary(t: Seq<SpecToken>, l: Seq<usize>, p: int) -> Result<(SExpr, int), PErr>
    decreases t.len() - p, 30int,
{
    let op = match kind_at(t, p) {
        Some(TokenKind::Minus) => Some(UnaryOp::Neg),
        Some(TokenKind::Bang) => Some(UnaryOp::Not),
        _ => None,
    };
    match op {
        None => g_postfix(t, l, p),
        Some(o) => if p < 0 {
            Err(PErr::Stuck)
        } else {
            match g_unary(t, l, p + 1) {
                Ok((operand, q)) => Ok((SExpr::Unary(o, Box::new(operand)), q)),
                Err(e) => Err(e),
            }
        },
    }
}

/// `primary ("(" args ")" | "[" expr "]")*` at `p`.
pub open spec fn g_postfix(t: Seq<SpecToken>, l: Seq<usize>, p: int) -> Result<(SExpr, int), PErr>
    decreases t.len() - p, 29int,
{
    match g_primary(t, l, p) {
        Err(e) => Err(e),
        Ok((e, q)) => if !fits(p, q, t.len() as int) {
            Err(PErr::Stuck)
        } else {
            g_postfix_rest(t, l, q, e)
        },
    }
}

/// The call and index tail from `q`, applied left to right onto `acc`.
pub open spec fn g_postfix_rest(t: Seq<SpecToken>, l: Seq<usize>, q: int, acc: SExpr) -> Result<
    (SExpr, int),
    PErr,
>
    decreases t.len() - q + 1, 0int,
{
    if q < 0 {
        Err(PErr::Stuck)
    } else {
        match kind_at(t, q) {
            Some(TokenKind::LParen) => match g_list(t, l, q + 1, TokenKind::RParen, "')'") {
                Err(e) => Err(e),
                Ok((args, q2)) => if !fits(q, q2, t.len() as int) {
                    Err(PErr::Stuck)
                } else {
                    g_postfix_rest(t, l, q2, SExpr::Call(Box::new(acc), args))
                },
            },
            Some(TokenKind::LBracket) => match g_expr(t, l, q + 1) {
                Err(e) => Err(e),
                Ok((ix, q2)) => match g_expect(t, q2, TokenKind::RBracket, "']'") {
                    Err(e) => Err(e),
                    Ok(q3) => if !fits(q, q3, t.len() as int) {
                        Err(PErr::Stuck)
                    } else {
                        g_postfix_rest(t, l, q3, SExpr::Index(Box::new(acc), Box::new(ix)))
                    },
                },
            },
            _ => Ok((acc, q)),
        }
    }
}

/// After an opening bracket at `q - 1`: comma-separated expressions up to
/// and including the closing token `close`.
pub open spec fn g_list(
    t: Seq<SpecToken>,
    l: Seq<usize>,
    q: int,
    close: TokenKind,
    what: &'static str,
) -> Result<(Seq<SExpr>, int), PErr>
    decreases t.len() - q + 1, 1int,
{
    if q < 0 || q > t.len() {
        Err(PErr::Stuck)
    } else if is_at(t, q, close) {
        Ok((Seq::empty(), q + 1))
    } else {
        g_items(t, l, q, close, what)
    }
}

/// At least one expression from `q`, then `,` and more, or the closing token.
pub open spec fn g_items(
    t: Seq<SpecToken>,
    l: Seq<usize>,
    q: int,
    close: TokenKind,
    what: &'static str,
) -> Result<(Seq<SExpr>, int), PErr>
    decreases t.len() - q + 1, 0int,
{
    if q < 0 || q > t.len() {
        Err(PErr::Stuck)
    } else {
        match g_expr(t, l, q) {
            Err(e) => Err(e),
            Ok((e, q2)) => if is_at(t, q2, TokenKind::Comma) {
                if !fits(q, q2, t.len() as int) {
                    Err(PErr::Stuck)
                } else {
                    match g_items(t, l, q2 + 1, close, what) {
                        Ok((rest, q3)) => Ok((seq![e] + rest, q3)),
                        Err(err) => Err(err),
                    }
                }
            } else {
                match g_expect(t, q2, close, what) {
                    Ok(q3) => Ok((seq![e], q3)),
                    Err(err) => Err(err),
                }
            },
        }
    }
}

/// After `{` at `q - 1`: `key: value` entries up to and including `}`.
pub open spec fn g_dict(t: Seq<SpecToken>, l: Seq<usize>, q: int) -> Result<
    (Seq<(SExpr, SExpr)>, int),
    PErr,
>
    decreases t.len() - q + 1, 1int,
{
    if q < 0 || q > t.len() {
        Err(PErr::Stuck)
    } else if is_at(t, q, TokenKind::RBrace) {
        Ok((Seq::empty(), q + 1))
    } else {
        g_entries(t, l, q)
    }
}

/// At least one `key: value` entry from `q`, then `,` and more, or `}`.
pub open spec fn g_entries(t: Seq<SpecToken>, l: Seq<usize>, q: int) -> Result<
    (Seq<(SExpr, SExpr)>, int),
    PErr,
>
    decreases t.len() - q + 1, 0int,
{
    if q < 0 || q > t.len() {
        Err(PErr::Stuck)
    } else {
        match g_expr(t, l, q) {
            Err(e) => Err(e),
            Ok((k, q1)) => match g_expect(t, q1, TokenKind::Colon, "':'") {
                Err(e) => Err(e),
                Ok(q2) => if !fits(q, q2, t.len() as int) {
                    Err(PErr::Stuck)
                } else {
                    match g_expr(t, l, q2) {
                        Err(e) => Err(e),
                        Ok((v, q3)) => if is_at(t, q3, TokenKind::Comma) {
                            if !fits(q, q3, t.len() as int) {
                                Err(PErr::Stuck)
                            } else {
                                match g_entries(t, l, q3 + 1) {
                                    Ok((rest, q4)) => Ok((seq![(k, v)] + rest, q4)),
                                    Err(err) => Err(err),
                                }
                            }
                        } else {
                            match g_expect(t, q3, TokenKind::RBrace, "'}'") {
                                Ok(q4) => Ok((seq![(k, v)], q4)),
                                Err(err) => Err(err),
                            }
                        },
                    }
                },
            },
        }
    }
}

/// A literal, a name, a parenthesized expression, an array or a map at `p`.
pub open spec fn g_primary(t: Seq<SpecToken>, l: Seq<usize>, p: int) -> Result<(SExpr, int), PErr>
    decreases t.len() - p, 28int,
{
    if p < 0 || p >= t.len() {
        Err(PErr::Expected("a literal, a variable or '('", p))
    } else {
        match t[p].0 {
            TokenKind::Number => Ok((SExpr::Num(t[p].1), p + 1)),
            TokenKind::Str => Ok((SExpr::Str(t[p].1), p + 1)),
            TokenKind::True => Ok((SExpr::Bool(true), p + 1)),
            TokenKind::False => Ok((SExpr::Bool(false), p + 1)),
            TokenKind::Ident => Ok((SExpr::Var(t[p].1), p + 1)),
            TokenKind::LParen => match g_expr(t, l, p + 1) {
                Err(e) => Err(e),
                Ok((inner, q)) => match g_expect(t, q, TokenKind::RParen, "')'") {
                    Ok(q2) => Ok((inner, q2)),
                    Err(e) => Err(e),
                },
            },
            TokenKind::LBracket => match g_list(t, l, p + 1, TokenKind::RBracket, "']'") {
                Ok((items, q)) => Ok((SExpr::Array(items), q)),
                Err(e) => Err(e),
            },
            TokenKind::LBrace => match g_dict(t, l, p + 1) {
                Ok((entries, q)) => Ok((SExpr::Dict(entries), q)),
                Err(e) => Err(e),
            },
            _ => Err(PErr::Expected("a literal, a variable or '('", p)),
        }
    }
}

/// A whole program from `p`: statements, each optionally followed by ';'.
pub open spec fn g_program(t: Seq<SpecToken>, l: Seq<usize>, p: int) -> Result<Seq<SStmt>, PErr>
    decreases t.len() - p,
{
    if p < 0 {
        Err(PErr::Stuck)
    } else if p >= t.len() {
        Ok(Seq::empty())
    } else {
        match g_statement(t, l, p) {
            Err(e) => Err(e),
            Ok((s, q)) => if !fits(p, q, t.len() as int) {
                Err(PErr::Stuck)
            } else {
                match g_program(t, l, skip_semi(t, q)) {
                    Ok(rest) => Ok(seq![s] + rest),
                    Err(e) => Err(e),
                }
            },
        }
    }
}

} // verus!
