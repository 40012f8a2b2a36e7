//! Tokens to syntax tree, by recursive descent. Operator precedence is
//! encoded by call order; the grammar is written out in `grammar`, and every
//! parsing method is proved to compute exactly what the grammar says of the
//! tokens from where it starts: the same tree and the same end position, or
//! the same error.

use std::rc::Rc;

use vstd::prelude::*;

use crate::ast::{BinaryOp, Expr, Function, Literal, LogicalOp, Stmt, UnaryOp};
use crate::error::LangError;
use crate::grammar::{
    PErr,
    SExpr,
    SStmt,
    at_paren_lambda,
    entries_view,
    expr_view,
    exprs_view,
    g_and,
    g_and_rest,
    g_binary,
    g_binary_rest,
    g_block,
    g_block_rest,
    g_braced_block,
    g_dict,
    g_entries,
    g_expect,
    g_expr,
    g_expr_stmt,
    g_function,
    g_ident,
    g_if,
    g_items,
    g_lambda_body,
    g_let,
    g_list,
    g_or,
    g_or_rest,
    g_param_list,
    g_params,
    g_postfix,
    g_postfix_rest,
    g_primary,
    g_program,
    g_return,
    g_statement,
    g_unary,
    g_while,
    is_at,
    kind_at,
    line_at,
    map_scan,
    names_view,
    paren_scan,
    reports_syntax,
    skip_semi,
    stmt_view,
    stmts_view,
};
use crate::lexer::{SpecToken, Token, TokenKind, described};

verus! {

/// An error of the syntax: what the parser reports.
pub open spec fn syntax_error(e: LangError) -> bool {
    e is UnexpectedToken || e is UnexpectedEnd || e is InvalidAssignTarget
}

/// A parse result agrees with the grammar's verdict `g`: the same tree (seen
/// through `view`) ending at the same position, or the error the grammar
/// names.
pub open spec fn agrees<T, S>(
    r: Result<T, LangError>,
    g: Result<(S, int), PErr>,
    view: spec_fn(T) -> S,
    end: usize,
    t: Seq<SpecToken>,
) -> bool {
    match g {
        Ok((v, q)) => r is Ok && view(r->Ok_0) == v && end == q,
        Err(f) => r is Err && reports_syntax(r->Err_0, f, t),
    }
}

proof fn lemma_exprs_push(s: Seq<Expr>, x: Expr)
    ensures
        exprs_view(s.push(x)) == exprs_view(s) + seq![expr_view(x)],
    decreases s.len(),
{
    let n = s.push(x);
    if s.len() == 0 {
        assert(n.subrange(1, 1) =~= Seq::<Expr>::empty());
        assert(exprs_view(n.subrange(1, 1)) == Seq::<SExpr>::empty());
        assert(exprs_view(s) == Seq::<SExpr>::empty());
        assert(exprs_view(n) =~= exprs_view(s) + seq![expr_view(x)]);
    } else {
        let tail = s.subrange(1, s.len() as int);
        assert(n.subrange(1, n.len() as int) =~= tail.push(x));
        lemma_exprs_push(tail, x);
        assert(exprs_view(n) == seq![expr_view(s[0])] + exprs_view(tail.push(x)));
        assert(exprs_view(s) == seq![expr_view(s[0])] + exprs_view(tail));
        assert(exprs_view(n) =~= exprs_view(s) + seq![expr_view(x)]);
    }
}

proof fn lemma_entries_push(s: Seq<(Expr, Expr)>, x: (Expr, Expr))
    ensures
        entries_view(s.push(x)) == entries_view(s) + seq![(expr_view(x.0), expr_view(x.1))],
    decreases s.len(),
{
    let n = s.push(x);
    if s.len() == 0 {
        assert(n.subrange(1, 1) =~= Seq::<(Expr, Expr)>::empty());
        assert(entries_view(n.subrange(1, 1)) == Seq::<(SExpr, SExpr)>::empty());
        assert(entries_view(s) == Seq::<(SExpr, SExpr)>::empty());
        assert(entries_view(n) =~= entries_view(s) + seq![(expr_view(x.0), expr_view(x.1))]);
    } else {
        let tail = s.subrange(1, s.len() as int);
        assert(n.subrange(1, n.len() as int) =~= tail.push(x));
        lemma_entries_push(tail, x);
        assert(entries_view(n) == seq![(expr_view(s[0].0), expr_view(s[0].1))] + entries_view(
            tail.push(x),
        ));
        assert(entries_view(s) == seq![(expr_view(s[0].0), expr_view(s[0].1))] + entries_view(
            tail,
        ));
        assert(entries_view(n) =~= entries_view(s) + seq![(expr_view(x.0), expr_view(x.1))]);
    }
}

proof fn lemma_stmts_push(s: Seq<Stmt>, x: Stmt)
    ensures
        stmts_view(s.push(x)) == stmts_view(s) + seq![stmt_view(x)],
    decreases s.len(),
{
    let n = s.push(x);
    if s.len() == 0 {
        assert(n.subrange(1, 1) =~= Seq::<Stmt>::empty());
        assert(stmts_view(n.subrange(1, 1)) == Seq::<SStmt>::empty());
        assert(stmts_view(s) == Seq::<SStmt>::empty());
        assert(stmts_view(n) =~= stmts_view(s) + seq![stmt_view(x)]);
    } else {
        let tail = s.subrange(1, s.len() as int);
        assert(n.subrange(1, n.len() as int) =~= tail.push(x));
        lemma_stmts_push(tail, x);
        assert(stmts_view(n) == seq![stmt_view(s[0])] + stmts_view(tail.push(x)));
        assert(stmts_view(s) == seq![stmt_view(s[0])] + stmts_view(tail));
        assert(stmts_view(n) =~= stmts_view(s) + seq![stmt_view(x)]);
    }
}

/// A parse of a tail, with `pre` put in front of what it found.
pub open spec fn prefixed<T>(pre: Seq<T>, r: Result<(Seq<T>, int), PErr>) -> Result<
    (Seq<T>, int),
    PErr,
> {
    match r {
        Ok((rest, q)) => Ok((pre + rest, q)),
        Err(f) => Err(f),
    }
}

proof fn lemma_prefixed<T>(a: Seq<T>, b: Seq<T>, r: Result<(Seq<T>, int), PErr>)
    ensures
        prefixed(a, prefixed(b, r)) == prefixed(a + b, r),
        prefixed(Seq::<T>::empty(), r) == r,
{
    match r {
        Ok((rest, q)) => {
            assert(a + (b + rest) =~= (a + b) + rest);
            assert(Seq::<T>::empty() + rest =~= rest);
        },
        Err(_) => {},
    }
}

/// One step of a comma-separated list of expressions.
proof fn lemma_items_step(
    t: Seq<SpecToken>,
    l: Seq<usize>,
    q: int,
    close: TokenKind,
    what: &'static str,
)
    requires
        0 <= q <= t.len(),
    ensures
        match g_expr(t, l, q) {
            Err(f) => g_items(t, l, q, close, what) == Err::<(Seq<SExpr>, int), PErr>(f),
            Ok((e, q2)) => if is_at(t, q2, TokenKind::Comma) {
                q < q2 ==> g_items(t, l, q, close, what) == prefixed(
                    seq![e],
                    g_items(t, l, q2 + 1, close, what),
                )
            } else {
                g_items(t, l, q, close, what) == match g_expect(t, q2, close, what) {
                    Ok(q3) => Ok((seq![e], q3)),
                    Err(f) => Err::<(Seq<SExpr>, int), PErr>(f),
                }
            },
        },
{
}

/// One step of the entries of a map literal.
proof fn lemma_entries_step(t: Seq<SpecToken>, l: Seq<usize>, q: int)
    requires
        0 <= q <= t.len(),
    ensures
        match g_expr(t, l, q) {
            Err(f) => g_entries(t, l, q) == Err::<(Seq<(SExpr, SExpr)>, int), PErr>(f),
            Ok((k, q1)) => match g_expect(t, q1, TokenKind::Colon, "':'") {
                Err(f) => g_entries(t, l, q) == Err::<(Seq<(SExpr, SExpr)>, int), PErr>(f),
                Ok(q2) => q < q2 ==> match g_expr(t, l, q2) {
                    Err(f) => g_entries(t, l, q) == Err::<(Seq<(SExpr, SExpr)>, int), PErr>(f),
                    Ok((v, q3)) => if is_at(t, q3, TokenKind::Comma) {
                        q < q3 ==> g_entries(t, l, q) == prefixed(
                            seq![(k, v)],
                            g_entries(t, l, q3 + 1),
                        )
                    } else {
                        g_entries(t, l, q) == match g_expect(t, q3, TokenKind::RBrace, "'}'") {
                            Ok(q4) => Ok((seq![(k, v)], q4)),
                            Err(f) => Err::<(Seq<(SExpr, SExpr)>, int), PErr>(f),
                        }
                    },
                },
            },
        },
{
}

pub struct Parser {
    tokens: Vec<Token>,
    lines: Vec<usize>,
    pos: usize,
}

/// Build an "expected X, found Y" error (or "reached end of input").
fn expected(what: &'static str, found: Option<&Token>) -> (e: LangError)
    ensures
        match found {
            Some(t) => e matches LangError::UnexpectedToken { expected, found: f } && expected == what
                && f@ == described(t.view_token()),
            None => e == (LangError::UnexpectedEnd { expected: what }),
        },
{
    match found {
        Some(tok) => LangError::UnexpectedToken { expected: what, found: tok.describe() },
        None => LangError::UnexpectedEnd { expected: what },
    }
}

impl Parser {
    /// The parser's invariant: one line number per token, position in range.
    pub closed spec fn wf(&self) -> bool {
        &&& self.tokens@.len() == self.lines@.len()
        &&& self.tokens@.len() < usize::MAX
        &&& self.pos <= self.tokens@.len()
    }

    /// The tokens being parsed, as the grammar sees them.
    pub closed spec fn toks(&self) -> Seq<SpecToken> {
        self.tokens@.map_values(|t: Token| t.view_token())
    }

    /// The source line of each token.
    pub closed spec fn line_seq(&self) -> Seq<usize> {
        self.lines@
    }

    /// The position of the next token.
    pub closed spec fn at(&self) -> int {
        self.pos as int
    }

    /// Everything has been consumed.
    pub closed spec fn at_end(&self) -> bool {
        self.pos == self.tokens@.len()
    }

    pub closed spec fn remaining(&self) -> nat {
        (self.tokens@.len() - self.pos) as nat
    }

    /// Same token stream, position not moved backwards.
    pub closed spec fn advanced_from(&self, old: &Parser) -> bool {
        &&& self.wf()
        &&& self.tokens == old.tokens
        &&& self.lines == old.lines
        &&& old.pos <= self.pos
    }

    proof fn lemma_toks(&self)
        ensures
            self.toks().len() == self.tokens@.len(),
            forall|i: int|
                0 <= i < self.tokens@.len() ==> #[trigger] self.toks()[i] == (
                    self.tokens@[i].kind,
                    self.tokens@[i].text@,
                ),
    {
    }

    pub fn new(tokens: Vec<Token>, lines: Vec<usize>) -> (p: Self)
        requires
            tokens@.len() == lines@.len(),
            tokens@.len() < usize::MAX,
        ensures
            p.wf(),
            p.toks() == tokens@.map_values(|t: Token| t.view_token()),
            p.line_seq() == lines@,
            p.at() == 0,
    {
        Parser { tokens, lines, pos: 0 }
    }

    fn peek(&self) -> (r: Option<TokenKind>)
        requires
            self.wf(),
        ensures
            r == kind_at(self.toks(), self.pos as int),
    {
        proof {
            self.lemma_toks();
        }
        if self.pos < self.tokens.len() {
            Some(self.tokens[self.pos].kind)
        } else {
            None
        }
    }

    fn kind_at(&self, k: usize) -> (r: Option<TokenKind>)
        ensures
            r == kind_at(self.toks(), k as int),
    {
        proof {
            self.lemma_toks();
        }
        if k < self.tokens.len() {
            Some(self.tokens[k].kind)
        } else {
            None
        }
    }

    fn peek_is(&self, kind: TokenKind) -> (r: bool)
        requires
            self.wf(),
        ensures
            r == is_at(self.toks(), self.pos as int, kind),
    {
        proof {
            self.lemma_toks();
        }
        self.pos < self.tokens.len() && self.tokens[self.pos].kind == kind
    }

    /// Line of the current token (the last line when past the end).
    fn line(&self) -> (n: usize)
        requires
            self.wf(),
        ensures
            n == line_at(self.lines@, self.pos as int),
    {
        if self.pos < self.lines.len() {
            self.lines[self.pos]
        } else if self.lines.len() > 0 {
            self.lines[self.lines.len() - 1]
        } else {
            1
        }
    }

    /// Consume one token, if any is left.
    fn bump(&mut self)
        requires
            old(self).wf(),
        ensures
            final(self).advanced_from(old(self)),
            old(self).pos < old(self).tokens@.len() ==> final(self).pos == old(self).pos + 1,
    {
        if self.pos < self.tokens.len() {
            self.pos = self.pos + 1;
        }
    }

    /// The error for the current token (consumed), given what was expected.
    fn fail_here(&mut self, what: &'static str) -> (e: LangError)
        requires
            old(self).wf(),
        ensures
            final(self).advanced_from(old(self)),
            reports_syntax(e, PErr::Expected(what, old(self).pos as int), old(self).toks()),
            syntax_error(e),
    {
        proof {
            self.lemma_toks();
        }
        if self.pos < self.tokens.len() {
            let e = expected(what, Some(&self.tokens[self.pos]));
            self.pos = self.pos + 1;
            e
        } else {
            expected(what, None)
        }
    }

    /// Consume the next token if it has kind `want`, error otherwise.
    fn expect(&mut self, want: TokenKind, what: &'static str) -> (r: Result<(), LangError>)
        requires
            old(self).wf(),
        ensures
            r matches Err(e) ==> syntax_error(e),
            final(self).advanced_from(old(self)),
            r is Ok ==> final(self).pos == old(self).pos + 1,
            match g_expect(old(self).toks(), old(self).pos as int, want, what) {
                Ok(q) => r is Ok && final(self).pos == q,
                Err(f) => r is Err && reports_syntax(r->Err_0, f, old(self).toks()),
            },
    {
        if self.peek_is(want) {
            self.pos = self.pos + 1;
            Ok(())
        } else {
            Err(self.fail_here(what))
        }
    }

    /// Consume an identifier and return its name.
    fn ident(&mut self, what: &'static str) -> (r: Result<String, LangError>)
        requires
            old(self).wf(),
        ensures
            r matches Err(e) ==> syntax_error(e),
            final(self).advanced_from(old(self)),
            r is Ok ==> final(self).pos == old(self).pos + 1,
            agrees(
                r,
                g_ident(old(self).toks(), old(self).pos as int, what),
                |s: String| s@,
                final(self).pos,
                old(self).toks(),
            ),
    {
        proof {
            self.lemma_toks();
        }
        if self.peek_is(TokenKind::Ident) {
            let name = self.tokens[self.pos].text.clone();
            self.pos = self.pos + 1;
            Ok(name)
        } else {
            Err(self.fail_here(what))
        }
    }

    fn skip_semicolon(&mut self)
        requires
            old(self).wf(),
        ensures
            final(self).advanced_from(old(self)),
            final(self).pos == skip_semi(old(self).toks(), old(self).pos as int),
    {
        if self.peek_is(TokenKind::Semicolon) {
            self.pos = self.pos + 1;
        }
    }

    /// A whole program: statements up to the end of the tokens.
    pub fn parse_program(&mut self) -> (r: Result<Vec<Stmt>, LangError>)
        requires
            old(self).wf(),
        ensures
            r matches Err(e) ==> syntax_error(e),
            final(self).advanced_from(old(self)),
            r is Ok ==> final(self).at_end(),
            match g_program(old(self).toks(), old(self).line_seq(), old(self).at()) {
                Ok(ss) => r is Ok && stmts_view(r->Ok_0@) == ss,
                Err(f) => r is Err && reports_syntax(r->Err_0, f, old(self).toks()),
            },
    {
        let mut stmts: Vec<Stmt> = Vec::new();
        let ghost t = self.toks();
        let ghost l = self.line_seq();
        let ghost start = self.pos as int;
        assert(stmts_view(stmts@) =~= Seq::<SStmt>::empty());
        while self.pos < self.tokens.len()
            invariant
                self.advanced_from(old(self)),
                t == self.toks(),
                l == self.line_seq(),
                t == old(self).toks(),
                l == old(self).line_seq(),
                start == old(self).at(),
                g_program(t, l, start) == match g_program(t, l, self.pos as int) {
                    Ok(rest) => Ok(stmts_view(stmts@) + rest),
                    Err(f) => Err::<Seq<SStmt>, PErr>(f),
                },
            decreases self.remaining(),
        {
            let ghost here = self.pos as int;
            let ghost gs = g_statement(t, l, here);
            let s = match self.statement() {
                Ok(s) => s,
                Err(e) => {
                    proof {
                        assert(gs is Err);
                        assert(g_program(t, l, here) == Err::<Seq<SStmt>, PErr>(gs->Err_0));
                    }
                    return Err(e);
                },
            };
            let ghost before = stmts_view(stmts@);
            proof {
                lemma_stmts_push(stmts@, s);
            }
            stmts.push(s);
            assert(stmts_view(stmts@) == before + seq![stmt_view(s)]);
            self.skip_semicolon();
            proof {
                match g_program(t, l, self.pos as int) {
                    Ok(rest) => {
                        assert(before + (seq![stmt_view(s)] + rest) =~= (before + seq![
                            stmt_view(s),
                        ]) + rest);
                    },
                    Err(_) => {},
                }
            }
        }
        proof {
            assert(stmts_view(stmts@) + Seq::<SStmt>::empty() =~= stmts_view(stmts@));
        }
        Ok(stmts)
    }

    fn statement(&mut self) -> (r: Result<Stmt, LangError>)
        requires
            old(self).wf(),
        ensures
            r matches Err(e) ==> syntax_error(e),
            final(self).advanced_from(old(self)),
            r is Ok ==> final(self).pos > old(self).pos,
            agrees(
                r,
                g_statement(old(self).toks(), old(self).line_seq(), old(self).pos as int),
                |s: Stmt| stmt_view(s),
                final(self).pos,
                old(self).toks(),
            ),
        decreases old(self).remaining(), 30nat,
    {
        match self.peek() {
            Some(TokenKind::Var) => self.let_statement(),
            Some(TokenKind::Function) => self.function_statement(),
            Some(TokenKind::Return) => self.return_statement(),
            Some(TokenKind::If) => self.if_statement(),
            Some(TokenKind::While) => self.while_statement(),
            Some(TokenKind::LBrace) => {
                if self.brace_is_map() {
                    self.expr_statement()
                } else {
                    self.block()
                }
            },
            _ => self.expr_statement(),
        }
    }

    /// At a `{`: does a ':' occur at its top nesting level before it closes?
    fn brace_is_map(&self) -> (b: bool)
        requires
            self.wf(),
            self.pos < self.tokens@.len(),
        ensures
            b == map_scan(self.toks(), self.pos + 1, 0),
    {
        proof {
            self.lemma_toks();
        }
        let mut k = self.pos + 1;
        let mut depth: usize = 0;
        while k < self.tokens.len()
            invariant
                self.wf(),
                self.pos < k <= self.tokens@.len(),
                depth <= k,
                map_scan(self.toks(), self.pos + 1, 0) == map_scan(
                    self.toks(),
                    k as int,
                    depth as int,
                ),
            decreases self.tokens@.len() - k,
        {
            proof {
                self.lemma_toks();
            }
            match self.tokens[k].kind {
                TokenKind::LParen | TokenKind::LBracket | TokenKind::LBrace => {
                    depth = depth + 1;
                },
                TokenKind::RParen | TokenKind::RBracket | TokenKind::RBrace => {
                    if depth == 0 {
                        return false;
                    }
                    depth = depth - 1;
                },
                TokenKind::Colon => {
                    if depth == 0 {
                        return true;
                    }
                },
                _ => {},
            }
            k = k + 1;
        }
        false
    }

    fn let_statement(&mut self) -> (r: Result<Stmt, LangError>)
        requires
            old(self).wf(),
            old(self).pos < old(self).tokens@.len(),
        ensures
            r matches Err(e) ==> syntax_error(e),
            final(self).advanced_from(old(self)),
            r is Ok ==> final(self).pos > old(self).pos,
            agrees(
                r,
                g_let(old(self).toks(), old(self).line_seq(), old(self).pos as int),
                |s: Stmt| stmt_view(s),
                final(self).pos,
                old(self).toks(),
            ),
        decreases old(self).remaining(), 29nat,
    {
        let line = self.line();
        self.bump();  // 'var'
        let name = self.ident("a variable name")?;
        self.expect(TokenKind::Equals, "'='")?;
        let value = self.expr()?;
        Ok(Stmt::Let { name, value, line })
    }

    /// An expression statement, or an assignment when a '=' follows.
    fn expr_statement(&mut self) -> (r: Result<Stmt, LangError>)
        requires
            old(self).wf(),
        ensures
            r matches Err(e) ==> syntax_error(e),
            final(self).advanced_from(old(self)),
            r is Ok ==> final(self).pos > old(self).pos,
            agrees(
                r,
                g_expr_stmt(old(self).toks(), old(self).line_seq(), old(self).pos as int),
                |s: Stmt| stmt_view(s),
                final(self).pos,
                old(self).toks(),
            ),
        decreases old(self).remaining(), 29nat,
    {
        let line = self.line();
        let target = self.expr()?;
        if !self.peek_is(TokenKind::Equals) {
            return Ok(Stmt::Expr { expr: target, line });
        }
        self.bump();  // '='
        let value = self.expr()?;
        match target {
            Expr::Variable(name) => Ok(Stmt::Assign { name, value, line }),
            Expr::Index { target: inner, index } => {
                let ghost iv = expr_view(*inner);
                match *inner {
                    Expr::Variable(name) => {
                        assert(iv == SExpr::Var(name@));
                        Ok(Stmt::IndexAssign { name, index: *index, value, line })
                    },
                    other => {
                        assert(!(iv is Var));
                        Err(LangError::InvalidAssignTarget)
                    },
                }
            },
            _ => Err(LangError::InvalidAssignTarget),
        }
    }

    fn block(&mut self) -> (r: Result<Stmt, LangError>)
        requires
            old(self).wf(),
            old(self).pos < old(self).tokens@.len(),
        ensures
            r matches Err(e) ==> syntax_error(e),
            final(self).advanced_from(old(self)),
            r is Ok ==> final(self).pos > old(self).pos,
            agrees(
                r,
                g_block(old(self).toks(), old(self).line_seq(), old(self).pos as int),
                |s: Stmt| stmt_view(s),
                final(self).pos,
                old(self).toks(),
            ),
        decreases old(self).remaining(), 5nat,
    {
        let ghost t = self.toks();
        let ghost l = self.line_seq();
        self.bump();  // '{'
        let ghost start = self.pos as int;
        let mut stmts: Vec<Stmt> = Vec::new();
        assert(stmts_view(stmts@) =~= Seq::<SStmt>::empty());
        loop
            invariant
                self.advanced_from(old(self)),
                self.pos > old(self).pos,
                t == self.toks(),
                l == self.line_seq(),
                start == old(self).pos + 1,
                g_block_rest(t, l, start) == match g_block_rest(t, l, self.pos as int) {
                    Ok((rest, q)) => Ok((stmts_view(stmts@) + rest, q)),
                    Err(f) => Err::<(Seq<SStmt>, int), PErr>(f),
                },
            decreases self.remaining(),
        {
            match self.peek() {
                None => {
                    return Err(expected("'}'", None));
                },
                Some(TokenKind::RBrace) => {
                    self.bump();
                    proof {
                        assert(stmts_view(stmts@) + Seq::<SStmt>::empty() =~= stmts_view(stmts@));
                    }
                    return Ok(Stmt::Block(stmts));
                },
                _ => {
                    let s = self.statement()?;
                    let ghost before = stmts_view(stmts@);
                    proof {
                        lemma_stmts_push(stmts@, s);
                    }
                    stmts.push(s);
                    assert(stmts_view(stmts@) == before + seq![stmt_view(s)]);
                    self.skip_semicolon();
                    proof {
                        match g_block_rest(t, l, self.pos as int) {
                            Ok((rest, q)) => {
                                assert(before + (seq![stmt_view(s)] + rest) =~= (before + seq![
                                    stmt_view(s),
                                ]) + rest);
                            },
                            Err(_) => {},
                        }
                    }
                },
            }
        }
    }

    /// A block that must start here (the body of `if`, `while`, `function`).
    fn braced_block(&mut self) -> (r: Result<Stmt, LangError>)
        requires
            old(self).wf(),
        ensures
            r matches Err(e) ==> syntax_error(e),
            final(self).advanced_from(old(self)),
            r is Ok ==> final(self).pos > old(self).pos,
            agrees(
                r,
                g_braced_block(old(self).toks(), old(self).line_seq(), old(self).pos as int),
                |s: Stmt| stmt_view(s),
                final(self).pos,
                old(self).toks(),
            ),
        decreases old(self).remaining(), 29nat,
    {
        if self.peek_is(TokenKind::LBrace) {
            self.block()
        } else {
            Err(self.fail_here("'{'"))
        }
    }

    // Braces are mandatory around branches, which rules out the classic
    // "dangling else" ambiguity. `else if` chains by recursing into `if`.
    fn if_statement(&mut self) -> (r: Result<Stmt, LangError>)
        requires
            old(self).wf(),
            old(self).pos < old(self).tokens@.len(),
        ensures
            r matches Err(e) ==> syntax_error(e),
            final(self).advanced_from(old(self)),
            r is Ok ==> final(self).pos > old(self).pos,
            agrees(
                r,
                g_if(old(self).toks(), old(self).line_seq(), old(self).pos as int),
                |s: Stmt| stmt_view(s),
                final(self).pos,
                old(self).toks(),
            ),
        decreases old(self).remaining(), 29nat,
    {
        let line = self.line();
        self.bump();  // 'if'
        self.expect(TokenKind::LParen, "'('")?;
        let condition = self.expr()?;
        self.expect(TokenKind::RParen, "')'")?;
        let then_branch = Box::new(self.braced_block()?);
        let else_branch = if self.peek_is(TokenKind::Else) {
            self.bump();  // 'else'
            match self.peek() {
                Some(TokenKind::LBrace) => Some(Box::new(self.block()?)),
                Some(TokenKind::If) => Some(Box::new(self.if_statement()?)),
                _ => {
                    return Err(self.fail_here("'{' or 'if'"));
                },
            }
        } else {
            None
        };
        Ok(Stmt::If { condition, then_branch, else_branch, line })
    }

    fn while_statement(&mut self) -> (r: Result<Stmt, LangError>)
        requires
            old(self).wf(),
            old(self).pos < old(self).tokens@.len(),
        ensures
            r matches Err(e) ==> syntax_error(e),
            final(self).advanced_from(old(self)),
            r is Ok ==> final(self).pos > old(self).pos,
            agrees(
                r,
                g_while(old(self).toks(), old(self).line_seq(), old(self).pos as int),
                |s: Stmt| stmt_view(s),
                final(self).pos,
                old(self).toks(),
            ),
        decreases old(self).remaining(), 29nat,
    {
        let line = self.line();
        self.bump();  // 'while'
        self.expect(TokenKind::LParen, "'('")?;
        let condition = self.expr()?;
        self.expect(TokenKind::RParen, "')'")?;
        let body = Box::new(self.braced_block()?);
        Ok(Stmt::While { condition, body, line })
    }

    /// `(` already consumed: parameter names up to and including `)`.
    fn params(&mut self) -> (r: Result<Vec<String>, LangError>)
        requires
            old(self).wf(),
        ensures
            r matches Err(e) ==> syntax_error(e),
            final(self).advanced_from(old(self)),
            agrees(
                r,
                g_params(old(self).toks(), old(self).pos as int),
                |v: Vec<String>| names_view(v@),
                final(self).pos,
                old(self).toks(),
            ),
    {
        let ghost t = self.toks();
        let mut params: Vec<String> = Vec::new();
        if self.peek_is(TokenKind::RParen) {
            self.bump();
            assert(names_view(params@) =~= Seq::<Seq<char>>::empty());
            return Ok(params);
        }
        let ghost start = self.pos as int;
        assert(names_view(params@) =~= Seq::<Seq<char>>::empty());
        loop
            invariant
                self.advanced_from(old(self)),
                t == self.toks(),
                start == old(self).pos,
                !is_at(t, start, TokenKind::RParen),
                g_param_list(t, start) == match g_param_list(t, self.pos as int) {
                    Ok((rest, q)) => Ok((names_view(params@) + rest, q)),
                    Err(f) => Err::<(Seq<Seq<char>>, int), PErr>(f),
                },
            decreases self.remaining(),
        {
            let p = self.ident("a parameter name")?;
            let ghost before = names_view(params@);
            params.push(p);
            assert(names_view(params@) =~= before + seq![p@]);
            if self.peek_is(TokenKind::Comma) {
                self.bump();
                proof {
                    match g_param_list(t, self.pos as int) {
                        Ok((rest, q)) => {
                            assert(names_view(params@) + rest =~= before + (seq![p@] + rest));
                        },
                        Err(_) => {},
                    }
                }
            } else {
                self.expect(TokenKind::RParen, "')'")?;
                return Ok(params);
            }
        }
    }

    fn function_statement(&mut self) -> (r: Result<Stmt, LangError>)
        requires
            old(self).wf(),
            old(self).pos < old(self).tokens@.len(),
        ensures
            r matches Err(e) ==> syntax_error(e),
            final(self).advanced_from(old(self)),
            r is Ok ==> final(self).pos > old(self).pos,
            agrees(
                r,
                g_function(old(self).toks(), old(self).line_seq(), old(self).pos as int),
                |s: Stmt| stmt_view(s),
                final(self).pos,
                old(self).toks(),
            ),
        decreases old(self).remaining(), 29nat,
    {
        self.bump();  // 'function'
        let name = self.ident("a function name")?;
        self.expect(TokenKind::LParen, "'('")?;
        let params = self.params()?;
        let body = self.braced_block()?;
        Ok(Stmt::Function(Rc::new(Function { name: Some(name), params, body })))
    }

    fn return_statement(&mut self) -> (r: Result<Stmt, LangError>)
        requires
            old(self).wf(),
            old(self).pos < old(self).tokens@.len(),
        ensures
            r matches Err(e) ==> syntax_error(e),
            final(self).advanced_from(old(self)),
            r is Ok ==> final(self).pos > old(self).pos,
            agrees(
                r,
                g_return(old(self).toks(), old(self).line_seq(), old(self).pos as int),
                |s: Stmt| stmt_view(s),
                final(self).pos,
                old(self).toks(),
            ),
        decreases old(self).remaining(), 29nat,
    {
        let line = self.line();
        self.bump();  // 'return'
        // No null in the language: `return` always carries a value.
        let value = self.expr()?;
        Ok(Stmt::Return { value, line })
    }

    /// Does a parenthesized parameter list followed by `=>` start here?
    fn at_paren_lambda(&self) -> (b: bool)
        requires
            self.wf(),
        ensures
            b == at_paren_lambda(self.toks(), self.pos as int),
    {
        proof {
            self.lemma_toks();
        }
        if !self.peek_is(TokenKind::LParen) {
            return false;
        }
        let mut k = self.pos + 1;
        if self.kind_at(k) == Some(TokenKind::RParen) {
            return k + 1 < self.tokens.len() && self.tokens[k + 1].kind == TokenKind::Arrow;
        }
        while k < self.tokens.len()
            invariant
                self.wf(),
                self.pos < k <= self.tokens@.len() + 1,
                paren_scan(self.toks(), self.pos + 1) == paren_scan(self.toks(), k as int),
                !is_at(self.toks(), self.pos + 1, TokenKind::RParen),
                is_at(self.toks(), self.pos as int, TokenKind::LParen),
            decreases self.tokens@.len() + 1 - k,
        {
            proof {
                self.lemma_toks();
            }
            if self.tokens[k].kind != TokenKind::Ident {
                return false;
            }
            match self.kind_at(k + 1) {
                Some(TokenKind::Comma) => {
                    k = k + 2;
                },
                Some(TokenKind::RParen) => {
                    return k + 2 < self.tokens.len() && self.tokens[k + 2].kind == TokenKind::Arrow;
                },
                _ => {
                    return false;
                },
            }
        }
        false
    }

    fn expr(&mut self) -> (r: Result<Expr, LangError>)
        requires
            old(self).wf(),
        ensures
            r matches Err(e) ==> syntax_error(e),
            final(self).advanced_from(old(self)),
            r is Ok ==> final(self).pos > old(self).pos,
            agrees(
                r,
                g_expr(old(self).toks(), old(self).line_seq(), old(self).pos as int),
                |e: Expr| expr_view(e),
                final(self).pos,
                old(self).toks(),
            ),
        decreases old(self).remaining(), 20nat,
    {
        proof {
            self.lemma_toks();
        }
        if self.peek_is(TokenKind::Ident) && self.kind_at(self.pos + 1) == Some(TokenKind::Arrow) {
            let name = self.tokens[self.pos].text.clone();
            self.pos = self.pos + 2;
            let mut params: Vec<String> = Vec::new();
            params.push(name);
            assert(names_view(params@) =~= seq![old(self).toks()[old(self).pos as int].1]);
            return self.lambda_body(params);
        }
        if self.at_paren_lambda() {
            self.bump();  // '('
            let params = self.params()?;
            if !self.peek_is(TokenKind::Arrow) {
                return Err(self.fail_here("'=>'"));
            }
            self.bump();  // '=>'
            return self.lambda_body(params);
        }
        self.or_level()
    }

    /// After `=>`: a block body, or an expression whose value is returned.
    fn lambda_body(&mut self, params: Vec<String>) -> (r: Result<Expr, LangError>)
        requires
            old(self).wf(),
            old(self).pos > 0,
        ensures
            r matches Err(e) ==> syntax_error(e),
            final(self).advanced_from(old(self)),
            r is Ok ==> final(self).pos > old(self).pos - 1,
            agrees(
                r,
                g_lambda_body(
                    old(self).toks(),
                    old(self).line_seq(),
                    old(self).pos as int,
                    names_view(params@),
                ),
                |e: Expr| expr_view(e),
                final(self).pos,
                old(self).toks(),
            ),
        decreases old(self).remaining(), 21nat,
    {
        let body = if self.peek_is(TokenKind::LBrace) {
            self.block()?
        } else {
            let line = self.line();
            let value = self.expr()?;
            let ghost vv = expr_view(value);
            let ret = Stmt::Return { value, line };
            assert(stmt_view(ret) == SStmt::Return(vv, line));
            ret
        };
        Ok(Expr::Lambda(Rc::new(Function { name: None, params, body })))
    }

    fn or_level(&mut self) -> (r: Result<Expr, LangError>)
        requires
            old(self).wf(),
        ensures
            r matches Err(e) ==> syntax_error(e),
            final(self).advanced_from(old(self)),
            r is Ok ==> final(self).pos > old(self).pos,
            agrees(
                r,
                g_or(old(self).toks(), old(self).line_seq(), old(self).pos as int),
                |e: Expr| expr_view(e),
                final(self).pos,
                old(self).toks(),
            ),
        decreases old(self).remaining(), 18nat,
    {
        let ghost t = self.toks();
        let ghost l = self.line_seq();
        let mut left = self.and_level()?;
        loop
            invariant
                self.advanced_from(old(self)),
                self.pos > old(self).pos,
                t == self.toks(),
                l == self.line_seq(),
                t == old(self).toks(),
                l == old(self).line_seq(),
                g_or(t, l, old(self).pos as int) == g_or_rest(
                    t,
                    l,
                    self.pos as int,
                    expr_view(left),
                ),
            decreases self.remaining(),
        {
            let op: LogicalOp = match self.peek() {
                Some(TokenKind::OrOr) => LogicalOp::Or,
                _ => {
                    return Ok(left);
                },
            };
            self.bump();
            let right = self.and_level()?;
            left = Expr::Logical { op, left: Box::new(left), right: Box::new(right) };
        }
    }

    fn and_level(&mut self) -> (r: Result<Expr, LangError>)
        requires
            old(self).wf(),
        ensures
            r matches Err(e) ==> syntax_error(e),
            final(self).advanced_from(old(self)),
            r is Ok ==> final(self).pos > old(self).pos,
            agrees(
                r,
                g_and(old(self).toks(), old(self).line_seq(), old(self).pos as int),
                |e: Expr| expr_view(e),
                final(self).pos,
                old(self).toks(),
            ),
        decreases old(self).remaining(), 17nat,
    {
        let ghost t = self.toks();
        let ghost l = self.line_seq();
        let mut left = self.equality()?;
        loop
            invariant
                self.advanced_from(old(self)),
                self.pos > old(self).pos,
                t == self.toks(),
                l == self.line_seq(),
                t == old(self).toks(),
                l == old(self).line_seq(),
                g_and(t, l, old(self).pos as int) == g_and_rest(
                    t,
                    l,
                    self.pos as int,
                    expr_view(left),
                ),
            decreases self.remaining(),
        {
            let op: LogicalOp = match self.peek() {
                Some(TokenKind::AndAnd) => LogicalOp::And,
                _ => {
                    return Ok(left);
                },
            };
            self.bump();
            let right = self.equality()?;
            left = Expr::Logical { op, left: Box::new(left), right: Box::new(right) };
        }
    }

    fn equality(&mut self) -> (r: Result<Expr, LangError>)
        requires
            old(self).wf(),
        ensures
            r matches Err(e) ==> syntax_error(e),
            final(self).advanced_from(old(self)),
            r is Ok ==> final(self).pos > old(self).pos,
            agrees(
                r,
                g_binary(old(self).toks(), old(self).line_seq(), old(self).pos as int, 0),
                |e: Expr| expr_view(e),
                final(self).pos,
                old(self).toks(),
            ),
        decreases old(self).remaining(), 16nat,
    {
        let ghost t = self.toks();
        let ghost l = self.line_seq();
        let mut left = self.comparison()?;
        loop
            invariant
                self.advanced_from(old(self)),
                self.pos > old(self).pos,
                t == self.toks(),
                l == self.line_seq(),
                t == old(self).toks(),
                l == old(self).line_seq(),
                g_binary(t, l, old(self).pos as int, 0) == g_binary_rest(
                    t,
                    l,
                    self.pos as int,
                    0,
                    expr_view(left),
                ),
            decreases self.remaining(),
        {
            let op: BinaryOp = match self.peek() {
                Some(TokenKind::EqualEqual) => BinaryOp::Eq,
                Some(TokenKind::BangEqual) => BinaryOp::Ne,
                _ => {
                    return Ok(left);
                },
            };
            self.bump();
            let right = self.comparison()?;
            left = Expr::Binary { op, left: Box::new(left), right: Box::new(right) };
        }
    }

    fn comparison(&mut self) -> (r: Result<Expr, LangError>)
        requires
            old(self).wf(),
        ensures
            r matches Err(e) ==> syntax_error(e),
            final(self).advanced_from(old(self)),
            r is Ok ==> final(self).pos > old(self).pos,
            agrees(
                r,
                g_binary(old(self).toks(), old(self).line_seq(), old(self).pos as int, 1),
                |e: Expr| expr_view(e),
                final(self).pos,
                old(self).toks(),
            ),
        decreases old(self).remaining(), 15nat,
    {
        let ghost t = self.toks();
        let ghost l = self.line_seq();
        let mut left = self.term()?;
        loop
            invariant
                self.advanced_from(old(self)),
                self.pos > old(self).pos,
                t == self.toks(),
                l == self.line_seq(),
                t == old(self).toks(),
                l == old(self).line_seq(),
                g_binary(t, l, old(self).pos as int, 1) == g_binary_rest(
                    t,
                    l,
                    self.pos as int,
                    1,
                    expr_view(left),
                ),
            decreases self.remaining(),
        {
            let op: BinaryOp = match self.peek() {
                Some(TokenKind::Less) => BinaryOp::Lt,
                Some(TokenKind::LessEqual) => BinaryOp::Le,
                Some(TokenKind::Greater) => BinaryOp::Gt,
                Some(TokenKind::GreaterEqual) => BinaryOp::Ge,
                _ => {
                    return Ok(left);
                },
            };
            self.bump();
            let right = self.term()?;
            left = Expr::Binary { op, left: Box::new(left), right: Box::new(right) };
        }
    }

    fn term(&mut self) -> (r: Result<Expr, LangError>)
        requires
            old(self).wf(),
        ensures
            r matches Err(e) ==> syntax_error(e),
            final(self).advanced_from(old(self)),
            r is Ok ==> final(self).pos > old(self).pos,
            agrees(
                r,
                g_binary(old(self).toks(), old(self).line_seq(), old(self).pos as int, 2),
                |e: Expr| expr_view(e),
                final(self).pos,
                old(self).toks(),
            ),
        decreases old(self).remaining(), 14nat,
    {
        let ghost t = self.toks();
        let ghost l = self.line_seq();
        let mut left = self.factor()?;
        loop
            invariant
                self.advanced_from(old(self)),
                self.pos > old(self).pos,
                t == self.toks(),
                l == self.line_seq(),
                t == old(self).toks(),
                l == old(self).line_seq(),
                g_binary(t, l, old(self).pos as int, 2) == g_binary_rest(
                    t,
                    l,
                    self.pos as int,
                    2,
                    expr_view(left),
                ),
            decreases self.remaining(),
        {
            let op: BinaryOp = match self.peek() {
                Some(TokenKind::Plus) => BinaryOp::Add,
                Some(TokenKind::Minus) => BinaryOp::Sub,
                _ => {
                    return Ok(left);
                },
            };
            self.bump();
            let right = self.factor()?;
            left = Expr::Binary { op, left: Box::new(left), right: Box::new(right) };
        }
    }

    fn factor(&mut self) -> (r: Result<Expr, LangError>)
        requires
            old(self).wf(),
        ensures
            r matches Err(e) ==> syntax_error(e),
            final(self).advanced_from(old(self)),
            r is Ok ==> final(self).pos > old(self).pos,
            agrees(
                r,
                g_binary(old(self).toks(), old(self).line_seq(), old(self).pos as int, 3),
                |e: Expr| expr_view(e),
                final(self).pos,
                old(self).toks(),
            ),
        decreases old(self).remaining(), 13nat,
    {
        let ghost t = self.toks();
        let ghost l = self.line_seq();
        let mut left = self.unary()?;
        loop
            invariant
                self.advanced_from(old(self)),
                self.pos > old(self).pos,
                t == self.toks(),
                l == self.line_seq(),
                t == old(self).toks(),
                l == old(self).line_seq(),
                g_binary(t, l, old(self).pos as int, 3) == g_binary_rest(
                    t,
                    l,
                    self.pos as int,
                    3,
                    expr_view(left),
                ),
            decreases self.remaining(),
        {
            let op: BinaryOp = match self.peek() {
                Some(TokenKind::Star) => BinaryOp::Mul,
                Some(TokenKind::Slash) => BinaryOp::Div,
                Some(TokenKind::Percent) => BinaryOp::Mod,
                _ => {
                    return Ok(left);
                },
            };
            self.bump();
            let right = self.unary()?;
            left = Expr::Binary { op, left: Box::new(left), right: Box::new(right) };
        }
    }

    fn unary(&mut self) -> (r: Result<Expr, LangError>)
        requires
            old(self).wf(),
        ensures
            r matches Err(e) ==> syntax_error(e),
            final(self).advanced_from(old(self)),
            r is Ok ==> final(self).pos > old(self).pos,
            agrees(
                r,
                g_unary(old(self).toks(), old(self).line_seq(), old(self).pos as int),
                |e: Expr| expr_view(e),
                final(self).pos,
                old(self).toks(),
            ),
        decreases old(self).remaining(), 12nat,
    {
        let op = match self.peek() {
            Some(TokenKind::Minus) => UnaryOp::Neg,
            Some(TokenKind::Bang) => UnaryOp::Not,
            _ => {
                return self.postfix();
            },
        };
        self.bump();
        let operand = self.unary()?;
        Ok(Expr::Unary { op, operand: Box::new(operand) })
    }

    /// Calls and index reads chain left to right: `fs[1](5)`, `m[i][j]`.
    fn postfix(&mut self) -> (r: Result<Expr, LangError>)
        requires
            old(self).wf(),
        ensures
            r matches Err(e) ==> syntax_error(e),
            final(self).advanced_from(old(self)),
            r is Ok ==> final(self).pos > old(self).pos,
            agrees(
                r,
                g_postfix(old(self).toks(), old(self).line_seq(), old(self).pos as int),
                |e: Expr| expr_view(e),
                final(self).pos,
                old(self).toks(),
            ),
        decreases old(self).remaining(), 11nat,
    {
        let ghost t = self.toks();
        let ghost l = self.line_seq();
        let mut e = self.primary()?;
        loop
            invariant
                self.advanced_from(old(self)),
                self.pos > old(self).pos,
                t == self.toks(),
                l == self.line_seq(),
                t == old(self).toks(),
                l == old(self).line_seq(),
                g_postfix(t, l, old(self).pos as int) == g_postfix_rest(
                    t,
                    l,
                    self.pos as int,
                    expr_view(e),
                ),
            decreases self.remaining(),
        {
            match self.peek() {
                Some(TokenKind::LParen) => {
                    self.bump();
                    let args = self.list(TokenKind::RParen, "')'")?;
                    e = Expr::Call { callee: Box::new(e), args };
                },
                Some(TokenKind::LBracket) => {
                    self.bump();
                    let index = self.expr()?;
                    self.expect(TokenKind::RBracket, "']'")?;
                    e = Expr::Index { target: Box::new(e), index: Box::new(index) };
                },
                _ => {
                    return Ok(e);
                },
            }
        }
    }

    /// The opening bracket already consumed: comma-separated expressions up
    /// to and including the closing token `close`.
    fn list(&mut self, close: TokenKind, what: &'static str) -> (r: Result<Vec<Expr>, LangError>)
        requires
            old(self).wf(),
            old(self).pos > 0,
        ensures
            r matches Err(e) ==> syntax_error(e),
            final(self).advanced_from(old(self)),
            agrees(
                r,
                g_list(old(self).toks(), old(self).line_seq(), old(self).pos as int, close, what),
                |v: Vec<Expr>| exprs_view(v@),
                final(self).pos,
                old(self).toks(),
            ),
        decreases old(self).remaining(), 25nat,
    {
        let ghost t = self.toks();
        let ghost l = self.line_seq();
        let mut items: Vec<Expr> = Vec::new();
        assert(exprs_view(items@) =~= Seq::<SExpr>::empty());
        if self.peek_is(close) {
            self.bump();
            return Ok(items);
        }
        let ghost start = self.pos as int;
        proof {
            lemma_prefixed(Seq::<SExpr>::empty(), Seq::<SExpr>::empty(), g_items(t, l, start, close, what));
        }
        loop
            invariant
                self.advanced_from(old(self)),
                t == self.toks(),
                l == self.line_seq(),
                start == old(self).pos,
                !is_at(t, start, close),
                g_items(t, l, start, close, what) == prefixed(
                    exprs_view(items@),
                    g_items(t, l, self.pos as int, close, what),
                ),
            decreases self.remaining(),
        {
            let ghost here = self.pos as int;
            let ghost before = exprs_view(items@);
            proof {
                lemma_items_step(t, l, here, close, what);
            }
            let item = self.expr()?;
            let ghost iv = expr_view(item);
            proof {
                lemma_exprs_push(items@, item);
            }
            items.push(item);
            assert(exprs_view(items@) == before + seq![iv]);
            if self.peek_is(TokenKind::Comma) {
                self.bump();
                proof {
                    lemma_prefixed(before, seq![iv], g_items(t, l, self.pos as int, close, what));
                }
            } else {
                self.expect(close, what)?;
                return Ok(items);
            }
        }
    }

    /// The `{` already consumed: `key: value` entries up to `}`.
    fn dict_entries(&mut self) -> (r: Result<Vec<(Expr, Expr)>, LangError>)
        requires
            old(self).wf(),
            old(self).pos > 0,
        ensures
            r matches Err(e) ==> syntax_error(e),
            final(self).advanced_from(old(self)),
            agrees(
                r,
                g_dict(old(self).toks(), old(self).line_seq(), old(self).pos as int),
                |v: Vec<(Expr, Expr)>| entries_view(v@),
                final(self).pos,
                old(self).toks(),
            ),
        decreases old(self).remaining(), 25nat,
    {
        let ghost t = self.toks();
        let ghost l = self.line_seq();
        let mut entries: Vec<(Expr, Expr)> = Vec::new();
        assert(entries_view(entries@) =~= Seq::<(SExpr, SExpr)>::empty());
        if self.peek_is(TokenKind::RBrace) {
            self.bump();
            return Ok(entries);
        }
        let ghost start = self.pos as int;
        proof {
            lemma_prefixed(
                Seq::<(SExpr, SExpr)>::empty(),
                Seq::<(SExpr, SExpr)>::empty(),
                g_entries(t, l, start),
            );
        }
        loop
            invariant
                self.advanced_from(old(self)),
                t == self.toks(),
                l == self.line_seq(),
                start == old(self).pos,
                !is_at(t, start, TokenKind::RBrace),
                g_entries(t, l, start) == prefixed(
                    entries_view(entries@),
                    g_entries(t, l, self.pos as int),
                ),
            decreases self.remaining(),
        {
            let ghost here = self.pos as int;
            let ghost before = entries_view(entries@);
            proof {
                lemma_entries_step(t, l, here);
            }
            let key = self.expr()?;
            self.expect(TokenKind::Colon, "':'")?;
            let value = self.expr()?;
            let ghost pair = (expr_view(key), expr_view(value));
            proof {
                lemma_entries_push(entries@, (key, value));
            }
            entries.push((key, value));
            assert(entries_view(entries@) == before + seq![pair]);
            if self.peek_is(TokenKind::Comma) {
                self.bump();
                proof {
                    lemma_prefixed(before, seq![pair], g_entries(t, l, self.pos as int));
                }
            } else {
                self.expect(TokenKind::RBrace, "'}'")?;
                return Ok(entries);
            }
        }
    }

    fn primary(&mut self) -> (r: Result<Expr, LangError>)
        requires
            old(self).wf(),
        ensures
            r matches Err(e) ==> syntax_error(e),
            final(self).advanced_from(old(self)),
            r is Ok ==> final(self).pos > old(self).pos,
            agrees(
                r,
                g_primary(old(self).toks(), old(self).line_seq(), old(self).pos as int),
                |e: Expr| expr_view(e),
                final(self).pos,
                old(self).toks(),
            ),
        decreases old(self).remaining(), 10nat,
    {
        proof {
            self.lemma_toks();
        }
        if self.pos >= self.tokens.len() {
            return Err(expected("a literal, a variable or '('", None));
        }
        let at = self.pos;
        self.pos = self.pos + 1;
        match self.tokens[at].kind {
            TokenKind::Number => Ok(Expr::Literal(Literal::Number(self.tokens[at].text.clone()))),
            TokenKind::Str => Ok(Expr::Literal(Literal::Str(self.tokens[at].text.clone()))),
            TokenKind::True => Ok(Expr::Literal(Literal::Bool(true))),
            TokenKind::False => Ok(Expr::Literal(Literal::Bool(false))),
            TokenKind::Ident => Ok(Expr::Variable(self.tokens[at].text.clone())),
            TokenKind::LParen => {
                let inner = self.expr()?;
                self.expect(TokenKind::RParen, "')'")?;
                Ok(inner)
            },
            TokenKind::LBracket => {
                let items = self.list(TokenKind::RBracket, "']'")?;
                Ok(Expr::Array(items))
            },
            TokenKind::LBrace => {
                let entries = self.dict_entries()?;
                Ok(Expr::Dict(entries))
            },
            _ => Err(expected("a literal, a variable or '('", Some(&self.tokens[at]))),
        }
    }
}

} // verus!
