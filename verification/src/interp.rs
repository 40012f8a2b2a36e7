//! The engine: a tree-walking evaluator that owns the program's memory, the
//! fuel meter and the trace recorder. Functions are ordinary values living
//! in the environment.
//!
//! Every expression and statement visited costs fuel, so execution is finite
//! by construction — `while (true) {}` included. The count doubles as a
//! logical clock: "after N ops" is a reproducible instant.

use std::rc::Rc;

use vstd::prelude::*;

use crate::ast::{
    BinaryOp, Expr, Function, Literal, LogicalOp, Stmt, UnaryOp, binary_symbol, logical_symbol,
};
use crate::env::{
    Environment, ScopeView, bind, bind_all, bind_entry, lookup, merge, rebind, scope_of, scope_view, slot_of,
};
use crate::error::LangError;
use crate::host::{Host, Order, appended};
use crate::grammar::{SStmt, g_program, lemma_stmts_view_index, reports_syntax, stmt_view, stmts_view};
use crate::lexer::{LexFailure, SpecToken, is_digit, line_of, reports, spec_lex, tokenize};
use crate::map::{
    Entries, Key, KeyView, PlayMap, cloned_entries, map_get, map_insert, map_without, valid_key,
};
use crate::number::{SIGN_BIT, is_nan, is_nan_bits, is_zero, is_zero_bits, num_order, number_order, whole_number, whole_of};
use crate::parser::Parser;
use crate::text::{chars_of, concat, push_str};
use crate::trace::{EventKind, TraceEvent, detach_event, ops_ordered, same_event};
use vstd::string::StringSliceAdditionalSpecFns;
use vstd::utf8::encode_utf8;
use crate::value::{
    Builtin,
    Closure,
    builtin_name,
    printed,
    Value,
    compare_strings,
    key_of,
    lex_order,
    render,
    type_label_of,
    value_eq,
    values_equal,
};

verus! {

/// Default operation budget for one `run`.
pub const DEFAULT_FUEL_LIMIT: u64 = 1_000_000;

/// Cap on recorded trace events. Fuel bounds compute, but a fuel-exhausting
/// run can still produce ~100k events; recording stops here so the trace
/// stays serializable and renderable. Execution continues past the cap.
pub const TRACE_LIMIT: usize = 10_000;

/// Entering a function costs more than a plain node: a call sets up a scope,
/// binds arguments, tears everything down.
pub const FUEL_CALL_COST: u64 = 10;

/// I/O is expensive: charged on top of the call cost.
pub const FUEL_PRINT_COST: u64 = 100;

/// Maximum call depth. Fuel bounds *time*; this bounds *space* — recursion
/// grows the host's stack, which would overflow long before 1M ops run out.
pub const MAX_CALL_DEPTH: usize = 256;

/// `a + b`, capped at `u64::MAX`.
pub open spec fn capped_sum(a: u64, b: u64) -> u64 {
    if a + b > u64::MAX {
        u64::MAX
    } else {
        (a + b) as u64
    }
}

/// Deterministic operation budget.
pub struct Fuel {
    pub used: u64,
    pub limit: u64,
}

impl Fuel {
    /// Charge `cost` operations; fails once more than `limit` have been used.
    pub fn tick(&mut self, cost: u64) -> (r: Result<(), LangError>)
        ensures
            final(self).limit == old(self).limit,
            final(self).used == capped_sum(old(self).used, cost),
            r is Ok <==> old(self).used + cost <= old(self).limit,
            r is Err ==> r == Err::<(), LangError>(LangError::OutOfFuel { limit: old(self).limit }),
    {
        match self.used.checked_add(cost) {
            Some(total) => {
                self.used = total;
                if total > self.limit {
                    return Err(LangError::OutOfFuel { limit: self.limit });
                }
                Ok(())
            },
            None => {
                self.used = u64::MAX;
                Err(LangError::OutOfFuel { limit: self.limit })
            },
        }
    }
}

/// The error for a call with the wrong number of arguments.
pub fn wrong_arity(function: &str, expected: usize, got: usize) -> (e: LangError)
    ensures
        e matches LangError::WrongArity { function: f, expected: x, got: g } && f@ == function@
            && x == expected && g == got,
{
    LangError::WrongArity { function: function.to_owned(), expected, got }
}

/// `e` reports a call of `function` with `got` arguments where it takes
/// `expected`.
pub open spec fn arity_error(e: LangError, function: Seq<char>, expected: nat, got: nat) -> bool {
    e matches LangError::WrongArity { function: f, expected: x, got: g } && f@ == function && x
        == expected && g == got
}

/// The name a function goes by in messages and traces.
pub open spec fn function_label(f: Function) -> Seq<char> {
    match f.name {
        Some(n) => n@,
        None => "<lambda>"@,
    }
}

/// The name a function goes by in messages and traces.
pub fn function_name(function: &Function) -> (s: String)
    ensures
        s@ == function_label(*function),
{
    match &function.name {
        Some(n) => n.clone(),
        None => "<lambda>".to_owned(),
    }
}

/// What `check_map_key` answers for a value.
pub open spec fn map_key_check(v: Value) -> Result<KeyView, LangError> {
    match v {
        Value::Number(n) => if is_nan_bits(n) {
            Err(LangError::InvalidMapKey { got: "NaN" })
        } else {
            Ok(KeyView::Num(n))
        },
        Value::Bool(b) => Ok(KeyView::Bool(b)),
        Value::Str(s) => Ok(KeyView::Str(s@)),
        _ => Err(LangError::InvalidMapKey { got: type_label_of(v) }),
    }
}

/// Map keys must be primitives (number, bool, string) and not NaN, so that
/// equality and hashing are total and deterministic. Gives the key.
pub fn check_map_key(key: &Value) -> (r: Result<Key, LangError>)
    ensures
        match map_key_check(*key) {
            Ok(kv) => r matches Ok(k) && k@ == kv,
            Err(e) => r == Err::<Key, LangError>(e),
        },
        r matches Ok(k) ==> valid_key(k@),
{
    match key {
        Value::Number(n) => {
            if is_nan(*n) {
                Err(LangError::InvalidMapKey { got: "NaN" })
            } else {
                Ok(Key::Num(*n))
            }
        },
        Value::Bool(b) => Ok(Key::Bool(*b)),
        Value::Str(s) => Ok(Key::Str(s.clone())),
        other => Err(LangError::InvalidMapKey { got: other.type_label() }),
    }
}

/// Bounds check of an index that is a whole number: `whole` is its value.
pub fn index_in(whole: u64, len: usize) -> (r: Result<usize, LangError>)
    ensures
        whole < len ==> r == Ok::<usize, LangError>(whole as usize),
        whole >= len ==> r == Err::<usize, LangError>(
            LangError::IndexOutOfBounds { index: whole as usize, len },
        ),
{
    if whole >= len as u64 {
        return Err(LangError::IndexOutOfBounds { index: whole as usize, len });
    }
    Ok(whole as usize)
}

/// Putting a binding's value back after taking it out restores the scopes.
proof fn lemma_put_back(mid: Seq<ScopeView>, d: int, p: int, hole: Value, x: Value)
    requires
        0 <= d < mid.len(),
        0 <= p < mid[d].len(),
        mid[d][p].1 == x,
    ensures
        ({
            let env1 = mid.update(d, mid[d].update(p, (mid[d][p].0, hole)));
            env1.update(d, env1[d].update(p, (env1[d][p].0, x)))
        }) == mid,
{
    let env1 = mid.update(d, mid[d].update(p, (mid[d][p].0, hole)));
    assert(env1[d].update(p, (env1[d][p].0, x)) =~= mid[d]);
    assert(env1.update(d, env1[d].update(p, (env1[d][p].0, x))) =~= mid);
}

/// Whether `e` names a token that starts with a digit or a '.': a number
/// token, the one kind of token that does.
pub open spec fn names_number(e: LangError) -> bool {
    e matches LangError::UnexpectedToken { found, .. } && found@.len() > 0 && (is_digit(found@[0])
        || found@[0] == '.')
}

/// `e` is the syntax error `e0` as a run reports it: the same error, but
/// that a number token that `e0` names is shown as the host prints it.
pub open spec fn respelled<H: Host>(e0: LangError, e: LangError) -> bool {
    if names_number(e0) {
        e0 matches LangError::UnexpectedToken { expected, found } && (e matches LangError::UnexpectedToken {
            expected: x,
            found: y,
        } && x == expected && y@ == H::decimal(H::denoted(found))@)
    } else {
        e == e0
    }
}

/// The position that the index `i` names among `len` elements: a number
/// that is a whole number, not negative, below `len`.
pub open spec fn index_position(i: Value, len: int) -> Option<int> {
    match i {
        Value::Number(n) => match whole_of(n) {
            Some(k) => if k < len {
                Some(k as int)
            } else {
                None
            },
            None => None,
        },
        _ => None,
    }
}

/// The error for an index `i` that names no position among `len` elements:
/// out of bounds for a whole number, else an invalid index (for a number,
/// the text is the host's spelling of it).
pub open spec fn index_refused<H: Host>(i: Value, len: int, e: LangError) -> bool {
    match i {
        Value::Number(n) => match whole_of(n) {
            Some(k) => e == LangError::IndexOutOfBounds { index: k as usize, len: len as usize },
            None => e matches LangError::InvalidIndex(s) && s@ == H::decimal(n)@,
        },
        _ => e matches LangError::InvalidIndex(s) && s@ == type_label_of(i)@,
    }
}

/// Validate an evaluated index against an array length: it must be a
/// non-negative whole number, strictly below `len`.
pub fn as_index<H: Host>(host: &H, value: &Value, len: usize) -> (r: Result<usize, LangError>)
    ensures
        match index_position(*value, len as int) {
            Some(k) => r == Ok::<usize, LangError>(k as usize),
            None => r matches Err(e) && index_refused::<H>(*value, len as int, e),
        },
{
    match value {
        Value::Number(n) => match whole_number(*n) {
            Some(w) => index_in(w, len),
            None => Err(LangError::InvalidIndex(host.format(*n))),
        },
        other => Err(LangError::InvalidIndex(other.type_label().to_owned())),
    }
}

/// Whether an ordering comparison holds for two operands ordered `ord`.
pub open spec fn order_holds(op: BinaryOp, ord: Order) -> bool {
    match op {
        BinaryOp::Lt => ord == Order::Less,
        BinaryOp::Le => ord != Order::Greater,
        BinaryOp::Gt => ord == Order::Greater,
        _ => ord != Order::Less,
    }
}

/// Whether an ordering comparison holds for two operands ordered `ord`.
pub fn holds(op: BinaryOp, ord: Order) -> (b: bool)
    ensures
        b == order_holds(op, ord),
{
    match op {
        BinaryOp::Lt => ord == Order::Less,
        BinaryOp::Le => ord != Order::Greater,
        BinaryOp::Gt => ord == Order::Greater,
        _ => ord != Order::Less,
    }
}

/// The error for operands of the wrong types.
fn invalid_binary(op: &'static str, l: &Value, r: &Value) -> (e: LangError)
    ensures
        e == (LangError::InvalidBinaryOp { op, lhs: type_label_of(*l), rhs: type_label_of(*r) }),
{
    LangError::InvalidBinaryOp { op, lhs: l.type_label(), rhs: r.type_label() }
}

/// Ordering comparisons: numbers order numerically (a NaN orders with
/// nothing), strings lexicographically; anything else is a type error.
pub fn ordered(op: BinaryOp, l: &Value, r: &Value) -> (res: Result<
    Value,
    LangError,
>)
    ensures
        match (*l, *r) {
            (Value::Str(x), Value::Str(y)) => res == Ok::<Value, LangError>(
                Value::Bool(order_holds(op, lex_order(x@, y@))),
            ),
            (Value::Number(x), Value::Number(y)) => match num_order(x, y) {
                Some(o) => res == Ok::<Value, LangError>(Value::Bool(order_holds(op, o))),
                None => res is Err,
            },
            _ => res == Err::<Value, LangError>(
                LangError::InvalidBinaryOp {
                    op: binary_symbol(op),
                    lhs: type_label_of(*l),
                    rhs: type_label_of(*r),
                },
            ),
        },
        res is Err ==> res == Err::<Value, LangError>(
            LangError::InvalidBinaryOp {
                op: binary_symbol(op),
                lhs: type_label_of(*l),
                rhs: type_label_of(*r),
            },
        ),
{
    let ord = match (l, r) {
        (Value::Number(x), Value::Number(y)) => number_order(*x, *y),
        (Value::Str(x), Value::Str(y)) => Some(compare_strings(x, y)),
        _ => None,
    };
    match ord {
        Some(o) => Ok(Value::Bool(holds(op, o))),
        None => Err(invalid_binary(op.symbol(), l, r)),
    }
}

/// `-v` and `!v`.
pub open spec fn unary_result(op: UnaryOp, v: Value) -> Result<Value, LangError> {
    match (op, v) {
        (UnaryOp::Neg, Value::Number(n)) => Ok(Value::Number(n ^ SIGN_BIT)),
        (UnaryOp::Neg, _) => Err(LangError::InvalidUnaryOp { op: "-", operand: type_label_of(v) }),
        (UnaryOp::Not, Value::Bool(b)) => Ok(Value::Bool(!b)),
        (UnaryOp::Not, _) => Err(LangError::InvalidUnaryOp { op: "!", operand: type_label_of(v) }),
    }
}

/// Negation flips the sign bit of a number (IEEE `-x`); `!` negates a bool.
pub fn unary(op: UnaryOp, v: Value) -> (r: Result<Value, LangError>)
    ensures
        r == unary_result(op, v),
{
    match op {
        UnaryOp::Neg => match v {
            Value::Number(n) => Ok(Value::Number(n ^ SIGN_BIT)),
            other => Err(LangError::InvalidUnaryOp { op: "-", operand: other.type_label() }),
        },
        UnaryOp::Not => match v {
            Value::Bool(b) => Ok(Value::Bool(!b)),
            other => Err(LangError::InvalidUnaryOp { op: "!", operand: other.type_label() }),
        },
    }
}

/// What a binary operator gives on two evaluated operands (`res`).
pub open spec fn binary_outcome<H: Host>(
    op: BinaryOp,
    l: Value,
    r: Value,
    res: Result<Value, LangError>,
) -> bool {
    &&& (op == BinaryOp::Eq ==> res == Ok::<Value, LangError>(Value::Bool(value_eq(l, r))))
    &&& (op == BinaryOp::Ne ==> res == Ok::<Value, LangError>(Value::Bool(!value_eq(l, r))))
    &&& (op == BinaryOp::Add ==> match (l, r) {
            (Value::Number(x), Value::Number(y)) => res == Ok::<Value, LangError>(
                Value::Number(H::sum(x, y)),
            ),
            (Value::Str(x), Value::Str(y)) => res matches Ok(Value::Str(z)) && z@ == x@ + y@,
            _ => res == Err::<Value, LangError>(invalid_binary_spec(op, l, r)),
        })
    &&& (op == BinaryOp::Sub ==> match (l, r) {
            (Value::Number(x), Value::Number(y)) => res == Ok::<Value, LangError>(
                Value::Number(H::difference(x, y)),
            ),
            _ => res == Err::<Value, LangError>(invalid_binary_spec(op, l, r)),
        })
    &&& (op == BinaryOp::Mul ==> match (l, r) {
            (Value::Number(x), Value::Number(y)) => res == Ok::<Value, LangError>(
                Value::Number(H::product(x, y)),
            ),
            _ => res == Err::<Value, LangError>(invalid_binary_spec(op, l, r)),
        })
    &&& (op == BinaryOp::Div || op == BinaryOp::Mod ==> match (l, r) {
            (Value::Number(x), Value::Number(y)) => if is_zero_bits(y) {
                res == Err::<Value, LangError>(LangError::DivisionByZero)
            } else if op == BinaryOp::Div {
                res == Ok::<Value, LangError>(Value::Number(H::quotient(x, y)))
            } else {
                res == Ok::<Value, LangError>(Value::Number(H::remainder(x, y)))
            },
            _ => res == Err::<Value, LangError>(invalid_binary_spec(op, l, r)),
        })
    &&& (op == BinaryOp::Lt || op == BinaryOp::Le || op == BinaryOp::Gt || op == BinaryOp::Ge
            ==> match (l, r) {
            (Value::Str(x), Value::Str(y)) => res == Ok::<Value, LangError>(
                Value::Bool(order_holds(op, lex_order(x@, y@))),
            ),
            (Value::Number(x), Value::Number(y)) => match num_order(x, y) {
                Some(o) => res == Ok::<Value, LangError>(Value::Bool(order_holds(op, o))),
                None => res == Err::<Value, LangError>(invalid_binary_spec(op, l, r)),
            },
            _ => res == Err::<Value, LangError>(invalid_binary_spec(op, l, r)),
        })
}

/// Strict binary operators on evaluated operands. `+` adds two numbers or
/// concatenates two strings; the other arithmetic operators take numbers;
/// dividing by zero (either sign) is an error; `==` and `!=` are total.
pub fn binary<H: Host>(host: &H, op: BinaryOp, l: &Value, r: &Value) -> (res: Result<
    Value,
    LangError,
>)
    ensures
        binary_outcome::<H>(op, *l, *r, res),
{
    match op {
        BinaryOp::Eq => Ok(Value::Bool(values_equal(l, r))),
        BinaryOp::Ne => Ok(Value::Bool(!values_equal(l, r))),
        BinaryOp::Add => match (l, r) {
            (Value::Number(x), Value::Number(y)) => Ok(Value::Number(host.add(*x, *y))),
            (Value::Str(x), Value::Str(y)) => Ok(Value::Str(concat(x.as_str(), y.as_str()))),
            _ => Err(invalid_binary("+", l, r)),
        },
        BinaryOp::Sub => match (l, r) {
            (Value::Number(x), Value::Number(y)) => Ok(Value::Number(host.sub(*x, *y))),
            _ => Err(invalid_binary("-", l, r)),
        },
        BinaryOp::Mul => match (l, r) {
            (Value::Number(x), Value::Number(y)) => Ok(Value::Number(host.mul(*x, *y))),
            _ => Err(invalid_binary("*", l, r)),
        },
        BinaryOp::Div => match (l, r) {
            (Value::Number(x), Value::Number(y)) => {
                if is_zero(*y) {
                    Err(LangError::DivisionByZero)
                } else {
                    Ok(Value::Number(host.div(*x, *y)))
                }
            },
            _ => Err(invalid_binary("/", l, r)),
        },
        BinaryOp::Mod => match (l, r) {
            (Value::Number(x), Value::Number(y)) => {
                if is_zero(*y) {
                    Err(LangError::DivisionByZero)
                } else {
                    Ok(Value::Number(host.rem(*x, *y)))
                }
            },
            _ => Err(invalid_binary("%", l, r)),
        },
        _ => ordered(op, l, r),
    }
}

/// The type error of a binary operator.
pub open spec fn invalid_binary_spec(op: BinaryOp, l: Value, r: Value) -> LangError {
    LangError::InvalidBinaryOp { op: binary_symbol(op), lhs: type_label_of(l), rhs: type_label_of(r) }
}

/// A copy of the items of an array.
pub fn copy_items(items: &Vec<Value>) -> (r: Vec<Value>)
    ensures
        r@ == items@,
{
    let mut r: Vec<Value> = Vec::new();
    let mut i: usize = 0;
    while i < items.len()
        invariant
            i <= items@.len(),
            r@ == items@.take(i as int),
        decreases items@.len() - i,
    {
        r.push(items[i].clone());
        assert(items@.take(i as int + 1) =~= items@.take(i as int).push(items@[i as int]));
        i = i + 1;
    }
    assert(items@.take(i as int) =~= items@);
    r
}

/// A copy of a list of bindings.
pub fn copy_bindings(b: &Vec<(String, Value)>) -> (r: Vec<(String, Value)>)
    ensures
        scope_view(r) == scope_view(*b),
{
    let mut r: Vec<(String, Value)> = Vec::new();
    let mut i: usize = 0;
    while i < b.len()
        invariant
            i <= b@.len(),
            scope_view(r) == scope_view(*b).take(i as int),
        decreases b@.len() - i,
    {
        let name = b[i].0.clone();
        let value = b[i].1.clone();
        assert(name@ == b@[i as int].0@ && value == b@[i as int].1);
        let ghost prev = r@;
        r.push((name, value));
        assert(scope_view(r) =~= scope_view(*b).take(i as int + 1)) by {
            assert(r@ == prev.push((name, value)));
            assert(scope_view(*b).take(i as int + 1) =~= scope_view(*b).take(i as int).push(
                (name@, value),
            ));
        }
        i = i + 1;
    }
    assert(scope_view(*b).take(i as int) =~= scope_view(*b));
    r
}

/// How a statement finished: fell through normally (carrying the value of an
/// expression statement, for the REPL), or hit `return` and is unwinding
/// towards the nearest enclosing call.
pub enum Flow {
    Value(Option<Value>),
    Return(Value),
}

/// The tokens of a lexed source, as the grammar sees them.
pub open spec fn lexed(toks: Seq<(SpecToken, int)>) -> Seq<SpecToken> {
    toks.map_values(|x: (SpecToken, int)| x.0)
}

/// The source line of each lexed token.
pub open spec fn lexed_lines(src: Seq<char>, toks: Seq<(SpecToken, int)>) -> Seq<usize> {
    toks.map_values(|x: (SpecToken, int)| line_of(src, x.1) as usize)
}

/// An index write turned the binding `before` into `after` by storing `w`:
/// one element of an array replaced, or one map entry inserted or updated.
pub open spec fn written(before: Option<Value>, after: Value, w: Value) -> bool {
    match before {
        Some(Value::Array(xs)) => after matches Value::Array(ys) && exists|i: int|
            0 <= i < xs@.len() && ys@ == #[trigger] xs@.update(i, w),
        Some(Value::Dict(m)) => after matches Value::Dict(n) && exists|k: KeyView|
            valid_key(k) && n@ == #[trigger] map_insert(m@, k, w),
        _ => false,
    }
}

/// The values of two entry sequences that are clones of each other are
/// equal: a value's clone is the value.
proof fn lemma_cloned_values(a: Entries<Value>, b: Entries<Value>)
    requires
        cloned_entries(a, b),
    ensures
        a == b,
{
    assert forall|i: int| 0 <= i < a.len() implies #[trigger] b[i] == a[i] by {
        assert(cloned(a[i].1, b[i].1));
    }
    assert(a =~= b);
}

/// The recorded trace is bounded, stamped in op-clock order, no stamp is
/// later than `used`, and no depth exceeds the call-depth limit.
pub open spec fn trace_ok(t: Option<Vec<TraceEvent>>, used: u64) -> bool {
    match t {
        None => true,
        Some(v) => {
            &&& v@.len() <= TRACE_LIMIT
            &&& ops_ordered(v@)
            &&& forall|i: int|
                0 <= i < v@.len() ==> (#[trigger] v@[i]).op <= used && v@[i].depth
                    <= MAX_CALL_DEPTH
        },
    }
}

/// `b` is `a` with events appended (tracing neither switched on nor off).
pub open spec fn trace_extends(a: Option<Vec<TraceEvent>>, b: Option<Vec<TraceEvent>>) -> bool {
    match (a, b) {
        (None, None) => true,
        (Some(x), Some(y)) => x@.len() <= y@.len() && forall|i: int|
            0 <= i < x@.len() ==> #[trigger] y@[i] == x@[i],
        _ => false,
    }
}

/// A run's error, if it ran out of fuel, names the interpreter's budget.
pub open spec fn names_budget<T>(r: Result<T, LangError>, limit: u64) -> bool {
    r matches Err(LangError::OutOfFuel { limit: l }) ==> l == limit
}

/// The engine: owns the program's memory, the fuel meter and the trace.
pub struct Interpreter<H: Host> {
    env: Environment,
    fuel: Fuel,
    depth: usize,
    /// Source line of the statement currently executing; stamped onto trace
    /// events so a visualizer can highlight the matching line.
    current_line: usize,
    /// `Some` when tracing is enabled. Recording never ticks fuel.
    trace: Option<Vec<TraceEvent>>,
    /// Set when recording stopped at `TRACE_LIMIT`.
    trace_truncated: bool,
    /// The identity the next function value gets.
    next_id: u64,
    /// Number arithmetic, formatting and the output of `print`.
    host: H,
}

impl<H: Host> Interpreter<H> {
    /// The interpreter's invariant: the global scope exists, the call depth
    /// is within its limit, and the trace is well stamped.
    pub closed spec fn wf(&self) -> bool {
        &&& self.env@.len() >= 1
        &&& self.depth <= MAX_CALL_DEPTH
        &&& trace_ok(self.trace, self.fuel.used)
    }

    /// Operations consumed so far in the current (or last) run.
    pub closed spec fn ops(&self) -> u64 {
        self.fuel.used
    }

    /// The operation budget of a run.
    pub closed spec fn budget(&self) -> u64 {
        self.fuel.limit
    }

    /// The current call depth.
    pub closed spec fn call_depth(&self) -> usize {
        self.depth
    }

    /// The number of scopes (the global one included).
    pub closed spec fn scope_count(&self) -> nat {
        self.env@.len()
    }

    /// The events recorded so far, when tracing is enabled.
    pub closed spec fn events(&self) -> Option<Seq<TraceEvent>> {
        match self.trace {
            Some(t) => Some(t@),
            None => None,
        }
    }

    /// Whether recording stopped at the trace limit.
    pub closed spec fn truncated(&self) -> bool {
        self.trace_truncated
    }

    /// The trace is a timeline: at most `TRACE_LIMIT` events, stamped in
    /// op-clock order, none later than the operations used so far, none
    /// deeper than the call-depth limit.
    pub proof fn law_trace_is_a_timeline(&self)
        requires
            self.wf(),
        ensures
            self.events() matches Some(t) ==> {
                &&& t.len() <= TRACE_LIMIT
                &&& ops_ordered(t)
                &&& forall|i: int|
                    0 <= i < t.len() ==> (#[trigger] t[i]).op <= self.ops() && t[i].depth
                        <= MAX_CALL_DEPTH
            },
    {
    }

    /// What every evaluation step keeps from the state `before` it.
    closed spec fn keeps(&self, before: &Self) -> bool {
        &&& self.fuel.limit == before.fuel.limit
        &&& before.fuel.used <= self.fuel.used
        &&& self.depth == before.depth
        &&& self.env@.len() == before.env@.len()
        &&& trace_extends(before.trace, self.trace)
        &&& (before.trace_truncated ==> self.trace_truncated)
        &&& self.wf()
    }

    /// The budget is spent: more operations were charged than it allows
    /// (or the meter is at its ceiling).
    pub closed spec fn exhausted(&self) -> bool {
        self.fuel.used > self.fuel.limit || self.fuel.used == u64::MAX
    }

    /// What `exhausted` says of the meter.
    pub proof fn lemma_exhausted(&self)
        ensures
            self.exhausted() <==> (self.ops() > self.budget() || self.ops() == u64::MAX),
    {
    }

    /// A step from `before` ending with `r`: the state is kept, success
    /// leaves the fuel within budget, and a fuel error names the budget and
    /// comes only with the budget spent.
    closed spec fn step<T>(&self, before: &Self, r: Result<T, LangError>) -> bool {
        &&& self.keeps(before)
        &&& (r is Ok ==> self.fuel.used <= self.fuel.limit)
        &&& names_budget(r, before.fuel.limit)
        &&& (r matches Err(LangError::OutOfFuel { .. }) ==> self.exhausted())
    }

    /// A container too large to grow any further ends the run as if the
    /// budget were spent.
    fn exhaust(&mut self) -> (e: LangError)
        requires
            old(self).wf(),
        ensures
            e == (LangError::OutOfFuel { limit: old(self).fuel.limit }),
            final(self).exhausted(),
            final(self).keeps(old(self)),
            final(self).env == old(self).env,
            final(self).next_id == old(self).next_id,
            final(self).trace == old(self).trace,
            final(self).trace_truncated == old(self).trace_truncated,
            final(self).depth == old(self).depth,
            final(self).host == old(self).host,
            final(self).current_line == old(self).current_line,
    {
        self.fuel.used = u64::MAX;
        LangError::OutOfFuel { limit: self.fuel.limit }
    }

    /// A step that was not cut short by the budget charged at least one
    /// operation: every node is metered, charged before it does anything.
    closed spec fn charged<T>(&self, before: &Self, r: Result<T, LangError>) -> bool {
        !(r matches Err(LangError::OutOfFuel { .. })) ==> self.fuel.used > before.fuel.used
    }

    /// The host the interpreter works with.
    pub closed spec fn host_state(&self) -> H {
        self.host
    }

    /// Evaluating an expression never touches a local variable: only the
    /// global scope can change (through a call).
    closed spec fn locals_kept(&self, before: &Self) -> bool {
        self.env@.skip(1) == before.env@.skip(1)
    }

    /// A fresh interpreter with an empty global scope and the given budget.
    pub fn new(fuel_limit: u64, host: H) -> (i: Self)
        ensures
            i.wf(),
            i.budget() == fuel_limit,
            i.ops() == 0,
            i.call_depth() == 0,
            i.scope_count() == 1,
            i.events() is None,
            !i.truncated(),
    {
        Interpreter {
            env: Environment::new(),
            fuel: Fuel { used: 0, limit: fuel_limit },
            depth: 0,
            current_line: 1,
            trace: None,
            trace_truncated: false,
            next_id: 0,
            host,
        }
    }

    /// Operations consumed by the last `run`.
    pub fn fuel_used(&self) -> (n: u64)
        ensures
            n == self.ops(),
    {
        self.fuel.used
    }

    /// Turn on execution tracing. The next `run` records the meaningful
    /// steps, each stamped with the op-clock value and the call depth.
    pub fn enable_tracing(&mut self)
        requires
            old(self).wf(),
        ensures
            final(self).wf(),
            final(self).events() == Some(Seq::<TraceEvent>::empty()),
            final(self).ops() == old(self).ops(),
            final(self).budget() == old(self).budget(),
            final(self).call_depth() == old(self).call_depth(),
            final(self).scope_count() == old(self).scope_count(),
            final(self).truncated() == old(self).truncated(),
    {
        let t: Vec<TraceEvent> = Vec::new();
        self.trace = Some(t);
        assert(self.events() == Some(Seq::<TraceEvent>::empty()));
    }

    /// The trace recorded by the last `run`, if tracing is enabled.
    pub fn trace(&self) -> (r: Option<&[TraceEvent]>)
        ensures
            match self.events() {
                Some(t) => r matches Some(s) && s@ == t,
                None => r is None,
            },
    {
        match &self.trace {
            Some(t) => Some(t.as_slice()),
            None => None,
        }
    }

    /// Whether the last run hit `TRACE_LIMIT` and stopped recording events.
    pub fn trace_truncated(&self) -> (b: bool)
        ensures
            b == self.truncated(),
    {
        self.trace_truncated
    }

    /// The host, e.g. to read what the program printed.
    pub fn host(&self) -> (h: &H)
        ensures
            *h == self.host_state(),
    {
        &self.host
    }

    fn tracing(&self) -> (b: bool)
        ensures
            b == self.trace is Some,
    {
        self.trace.is_some()
    }

    /// Append an event, stamped with the current op-clock, depth and line.
    /// Recording never ticks fuel — a trace observes, it does not perturb:
    /// the event's values are copied, so that the trace shares no array or
    /// map with the program, and no later write to one is charged a copy.
    fn push_event(&mut self, kind: EventKind)
        requires
            old(self).wf(),
        ensures
            final(self).keeps(old(self)),
            final(self).fuel == old(self).fuel,
            final(self).env == old(self).env,
            final(self).current_line == old(self).current_line,
            final(self).next_id == old(self).next_id,
            final(self).host == old(self).host,
            Self::traced_from(*old(self), *final(self)),
            Self::recorded(*old(self), *final(self), kind),
            Self::pushed(*old(self), *final(self), kind),
    {
        let mut t: Option<Vec<TraceEvent>> = None;
        std::mem::swap(&mut t, &mut self.trace);
        match t {
            Some(mut events) => {
                if events.len() >= TRACE_LIMIT {
                    self.trace_truncated = true;
                } else {
                    let ghost before = events@;
                    let own = detach_event(kind);
                    events.push(
                        TraceEvent {
                            op: self.fuel.used,
                            depth: self.depth,
                            line: self.current_line,
                            kind: own,
                        },
                    );
                    assert(forall|i: int| 0 <= i < before.len() ==> events@[i] == before[i]);
                    assert(events@.drop_last() =~= before);
                }
                self.trace = Some(events);
            },
            None => {},
        }
    }

    /// A name as an expression: the innermost binding, else an unshadowed
    /// builtin (`var p = print`).
    fn lookup_name(&self, name: &String) -> (r: Result<Value, LangError>)
        ensures
            match lookup(self.env@, name@) {
                Some(v) => r == Ok::<Value, LangError>(v),
                None => match r {
                    Ok(v) => v matches Value::Builtin(b) && crate::value::builtin_name(b) == name@,
                    Err(e) => e matches LangError::UndefinedVariable(s) && s@ == name@,
                },
            },
    {
        match self.env.get(name) {
            Ok(v) => Ok(v),
            Err(_) => match Builtin::from_name(name.as_str()) {
                Some(b) => Ok(Value::Builtin(b)),
                None => Err(LangError::UndefinedVariable(name.clone())),
            },
        }
    }

    /// Build a function value: snapshot the visible locals BY VALUE. Globals
    /// are not captured, they stay live. Costs one op per captured binding.
    fn make_closure(&mut self, function: &Rc<Function>) -> (r: Result<Value, LangError>)
        requires
            old(self).wf(),
        ensures
            final(self).step(old(self), r),
            final(self).env == old(self).env,
            final(self).fuel.used == capped_sum(
                old(self).fuel.used,
                merge(old(self).env@.skip(1)).len() as u64,
            ),
            r matches Ok(v) ==> v matches Value::Function(c) && c.function == *function
                && scope_view(c.captures) == merge(old(self).env@.skip(1)) && c.id
                == old(self).next_id,
            Self::closure_made(*old(self), *function, *final(self), r),
    {
        let captures = self.env.locals();
        match self.fuel.tick(captures.len() as u64) {
            Ok(()) => {},
            Err(e) => {
                return Err(e);
            },
        }
        let id = self.next_id;
        self.next_id = self.next_id.wrapping_add(1);
        Ok(Value::Function(Rc::new(Closure { id, function: Rc::clone(function), captures })))
    }

    /// `s` with its meter at `used`.
    pub closed spec fn fueled(s: Self, used: u64) -> Self {
        Interpreter { fuel: Fuel { used, limit: s.fuel.limit }, ..s }
    }

    /// `s` after `cost` operations were charged.
    pub closed spec fn ticked(s: Self, cost: u64) -> Self {
        Self::fueled(s, capped_sum(s.fuel.used, cost))
    }

    /// Charging `cost` operations in `s` overruns the budget.
    pub closed spec fn overruns(s: Self, cost: u64) -> bool {
        s.fuel.used + cost > s.fuel.limit
    }

    /// The error of a run out of fuel in `s`.
    pub closed spec fn out_of_fuel(s: Self) -> LangError {
        LangError::OutOfFuel { limit: s.fuel.limit }
    }

    /// What charging, overrunning and running out of fuel mean for the
    /// meter of `s`.
    pub proof fn lemma_meter(s: Self, cost: u64, used: u64)
        ensures
            Self::fueled(s, used).ops() == used,
            Self::fueled(s, used).budget() == s.budget(),
            Self::fueled(s, used).scope_count() == s.scope_count(),
            Self::fueled(s, used).call_depth() == s.call_depth(),
            Self::fueled(s, used).events() == s.events(),
            Self::fueled(s, used).host_state() == s.host_state(),
            Self::ticked(s, cost) == Self::fueled(s, capped_sum(s.ops(), cost)),
            Self::overruns(s, cost) <==> s.ops() + cost > s.budget(),
            Self::out_of_fuel(s) == (LangError::OutOfFuel { limit: s.budget() }),
    {
    }

    /// A function value made in `s` (a `function` statement or a lambda):
    /// one op per captured local; the value captures the locals by value and
    /// takes the next identity.
    pub closed spec fn closure_made(
        s: Self,
        function: Rc<Function>,
        t: Self,
        r: Result<Value, LangError>,
    ) -> bool {
        let cost = merge(s.env@.skip(1)).len() as u64;
        &&& t.env == s.env
        &&& t.fuel == Self::ticked(s, cost).fuel
        &&& t.depth == s.depth
        &&& t.current_line == s.current_line
        &&& t.trace == s.trace
        &&& t.trace_truncated == s.trace_truncated
        &&& t.host == s.host
        &&& if Self::overruns(s, cost) {
            r == Err::<Value, LangError>(Self::out_of_fuel(s))
        } else {
            r matches Ok(Value::Function(c)) && c.function == function && scope_view(c.captures)
                == merge(s.env@.skip(1)) && c.id == s.next_id
        }
    }

    /// How a binary operator ends in state `m` once its operands gave `a`
    /// and `b`: a concatenation is charged one op per byte of its result.
    pub closed spec fn binary_after(
        op: BinaryOp,
        a: Value,
        b: Value,
        m: Self,
        t: Self,
        r: Result<Value, LangError>,
    ) -> bool {
        match (a, b) {
            (Value::Str(x), Value::Str(y)) => if op == BinaryOp::Add {
                let cost = (encode_utf8(x@ + y@).len() as usize) as u64;
                &&& t == Self::ticked(m, cost)
                &&& if Self::overruns(m, cost) {
                    r == Err::<Value, LangError>(Self::out_of_fuel(m))
                } else {
                    r matches Ok(Value::Str(z)) && z@ == x@ + y@
                }
            } else {
                t == m && binary_outcome::<H>(op, a, b, r)
            },
            _ => t == m && binary_outcome::<H>(op, a, b, r),
        }
    }

    /// What evaluating `e` in state `s` may end in: state `t` and result
    /// `r`. The node's operation is charged first; then it does its work.
    pub closed spec fn eval_rel(s: Self, e: Expr, t: Self, r: Result<Value, LangError>) -> bool
        decreases Self::remaining(s), e,
        via Self::eval_rel_decreases
    {
        if Self::overruns(s, 1) {
            t == Self::ticked(s, 1) && r == Err::<Value, LangError>(Self::out_of_fuel(s))
        } else {
            Self::node_rel(Self::ticked(s, 1), e, t, r)
        }
    }

    /// What the node `e` does once its operation is charged, in terms of
    /// what its operands evaluate to (left to right). A call and a map
    /// literal are described by what every step keeps.
    pub closed spec fn node_rel(s: Self, e: Expr, t: Self, r: Result<Value, LangError>) -> bool
        decreases Self::remaining(s), e,
        via Self::node_rel_decreases
    {
        match e {
            Expr::Literal(Literal::Bool(b)) => t == s && r == Ok::<Value, LangError>(Value::Bool(b)),
            Expr::Literal(Literal::Str(x)) => t == s && (r matches Ok(Value::Str(y)) && y@ == x@),
            Expr::Literal(Literal::Number(sp)) => t == s && r == Ok::<Value, LangError>(
                Value::Number(H::denoted(sp)),
            ),
            Expr::Variable(name) => t == s && match lookup(s.env@, name@) {
                Some(v) => r == Ok::<Value, LangError>(v),
                None => match r {
                    Ok(v) => v matches Value::Builtin(b) && builtin_name(b) == name@,
                    Err(x) => x matches LangError::UndefinedVariable(n) && n@ == name@,
                },
            },
            Expr::Lambda(f) => Self::closure_made(s, f, t, r),
            Expr::Call { callee, args } => exists|m: Self, lc: Result<Value, LangError>|
                #![trigger Self::mid(m, lc)]
                Self::mid(m, lc) && Self::eval_rel(s, *callee, m, lc) && Self::remaining(m)
                    <= Self::remaining(s) && match lc {
                    Err(x) => r == Err::<Value, LangError>(x) && t == m,
                    Ok(Value::Function(c)) => if Self::overruns(m, FUEL_CALL_COST) {
                        r == Err::<Value, LangError>(Self::out_of_fuel(m)) && t == Self::ticked(
                            m,
                            FUEL_CALL_COST,
                        )
                    } else if args@.len() == c.function.params@.len() {
                        Self::call_rel(Self::ticked(m, FUEL_CALL_COST), c, args@, t, r)
                    } else {
                        r matches Err(x) && arity_error(
                            x,
                            function_label(*c.function),
                            c.function.params@.len(),
                            args@.len(),
                        ) && t == Self::ticked(m, FUEL_CALL_COST)
                    },
                    Ok(Value::Builtin(b)) => if Self::overruns(m, FUEL_CALL_COST) {
                        r == Err::<Value, LangError>(Self::out_of_fuel(m)) && t == Self::ticked(
                            m,
                            FUEL_CALL_COST,
                        )
                    } else if args@.len() == Self::builtin_arity(b) {
                        Self::builtin_rel(b, args@, Self::ticked(m, FUEL_CALL_COST), t, r)
                    } else {
                        Self::builtin_misarity(b, args@.len(), Self::ticked(m, FUEL_CALL_COST), t, r)
                    },
                    Ok(other) => r == Err::<Value, LangError>(
                        LangError::InvalidUnaryOp { op: "()", operand: type_label_of(other) },
                    ) && t == m,
                },
            Expr::Dict(entries) => if Self::overruns(s, entries@.len() as u64) {
                t == Self::ticked(s, entries@.len() as u64) && r == Err::<Value, LangError>(
                    Self::out_of_fuel(s),
                )
            } else {
                exists|lr: Result<Entries<Value>, LangError>|
                    #![trigger Self::mid(t, lr)]
                    Self::mid(t, lr) && Self::dict_rel(
                        Self::ticked(s, entries@.len() as u64),
                        entries@,
                        t,
                        lr,
                    ) && match lr {
                        Ok(es) => r matches Ok(Value::Dict(mp)) && mp@ == es,
                        Err(x) => r == Err::<Value, LangError>(x),
                    }
            },
            Expr::Array(items) => if Self::overruns(s, items@.len() as u64) {
                t == Self::ticked(s, items@.len() as u64) && r == Err::<Value, LangError>(
                    Self::out_of_fuel(s),
                )
            } else {
                exists|lr: Result<Seq<Value>, LangError>|
                    #![trigger Self::mid(t, lr)]
                    Self::mid(t, lr) && Self::list_rel(Self::ticked(s, items@.len() as u64), items@, t, lr)
                        && match lr {
                        Ok(vs) => r matches Ok(Value::Array(xs)) && xs@ == vs,
                        Err(x) => r == Err::<Value, LangError>(x),
                    }
            },
            Expr::Unary { op, operand } => exists|lr: Result<Value, LangError>|
                #![trigger Self::mid(t, lr)]
                Self::mid(t, lr) && Self::eval_rel(s, *operand, t, lr) && match lr {
                    Ok(v) => r == unary_result(op, v),
                    Err(x) => r == Err::<Value, LangError>(x),
                },
            Expr::Index { target, index } => exists|m: Self, lr: Result<Value, LangError>|
                #![trigger Self::mid(m, lr)]
                Self::mid(m, lr) && Self::eval_rel(s, *target, m, lr) && match lr {
                    Err(x) => t == m && r == Err::<Value, LangError>(x),
                    Ok(c) => Self::remaining(m) <= Self::remaining(s) && exists|rr: Result<Value, LangError>|
                        #![trigger Self::mid(t, rr)]
                        Self::mid(t, rr) && Self::eval_rel(m, *index, t, rr) && match rr {
                            Err(x) => r == Err::<Value, LangError>(x),
                            Ok(i) => Self::index_outcome(c, i, r),
                        },
                },
            Expr::Logical { op, left, right } => exists|m: Self, lr: Result<Value, LangError>|
                #![trigger Self::mid(m, lr)]
                Self::mid(m, lr) && Self::eval_rel(s, *left, m, lr) && match lr {
                    Err(x) => t == m && r == Err::<Value, LangError>(x),
                    Ok(a) => if a == Value::Bool(op == LogicalOp::And) {
                        Self::remaining(m) <= Self::remaining(s) && exists|rr: Result<Value, LangError>|
                            #![trigger Self::mid(t, rr)]
                            Self::mid(t, rr) && Self::eval_rel(m, *right, t, rr) && match rr {
                                Err(x) => r == Err::<Value, LangError>(x),
                                Ok(b) => Self::logical_outcome(op, a, Some(b), r),
                            }
                    } else {
                        t == m && Self::logical_outcome(op, a, None, r)
                    },
                },
            Expr::Binary { op, left, right } => exists|m: Self, lr: Result<Value, LangError>|
                #![trigger Self::mid(m, lr)]
                Self::mid(m, lr) && Self::eval_rel(s, *left, m, lr) && match lr {
                    Err(x) => t == m && r == Err::<Value, LangError>(x),
                    Ok(a) => Self::remaining(m) <= Self::remaining(s) && exists|
                        m2: Self,
                        rr: Result<Value, LangError>,
                    |
                        #![trigger Self::mid(m2, rr)]
                        Self::mid(m2, rr) && Self::eval_rel(m, *right, m2, rr) && match rr {
                            Err(x) => t == m2 && r == Err::<Value, LangError>(x),
                            Ok(b) => Self::binary_after(op, a, b, m2, t, r),
                        },
                },
        }
    }

    /// Evaluating the entries of a map literal in order, each key before its
    /// value, stopping at the first failure: each entry is inserted (an
    /// equal key keeps its position and takes the new value).
    pub closed spec fn dict_rel(
        s: Self,
        entries: Seq<(Expr, Expr)>,
        t: Self,
        r: Result<Entries<Value>, LangError>,
    ) -> bool
        decreases Self::remaining(s), entries,
        via Self::dict_rel_decreases
    {
        if entries.len() == 0 {
            t == s && r == Ok::<Entries<Value>, LangError>(Seq::empty())
        } else {
            exists|
                m: Self,
                lr: Result<Entries<Value>, LangError>,
                m2: Self,
                lk: Result<Value, LangError>,
                m3: Self,
                lv: Result<Value, LangError>,
            |
                #![trigger Self::mid(m, (lr, (m2, (lk, (m3, lv)))))]
                Self::mid(m, (lr, (m2, (lk, (m3, lv))))) && Self::dict_rel(
                    s,
                    entries.drop_last(),
                    m,
                    lr,
                ) && match lr {
                    Err(x) => t == m && r == Err::<Entries<Value>, LangError>(x),
                    Ok(es) => Self::remaining(m) <= Self::remaining(s) && Self::eval_rel(
                        m,
                        entries.last().0,
                        m2,
                        lk,
                    ) && match lk {
                        Err(x) => t == m2 && r == Err::<Entries<Value>, LangError>(x),
                        Ok(kval) => Self::remaining(m2) <= Self::remaining(s) && Self::eval_rel(
                            m2,
                            entries.last().1,
                            m3,
                            lv,
                        ) && match lv {
                            Err(x) => t == m3 && r == Err::<Entries<Value>, LangError>(x),
                            Ok(v) => match map_key_check(kval) {
                                Err(x) => t == m3 && r == Err::<Entries<Value>, LangError>(x),
                                Ok(kv) => if es.len() >= usize::MAX / 16 - 1 {
                                    r == Err::<Entries<Value>, LangError>(
                                        LangError::OutOfFuel { limit: s.fuel.limit },
                                    )
                                } else {
                                    t == m3 && r == Ok::<Entries<Value>, LangError>(
                                        map_insert(es, kv, v),
                                    )
                                },
                            },
                        },
                    },
                }
        }
    }

    #[via_fn]
    proof fn dict_rel_decreases(
        s: Self,
        entries: Seq<(Expr, Expr)>,
        t: Self,
        r: Result<Entries<Value>, LangError>,
    ) {
        if entries.len() > 0 {
            assert(entries.drop_last() == entries.subrange(0, entries.len() - 1));
            let last = entries[entries.len() - 1];
            assert(entries.last() == last);
            assert(decreases_to!(entries => last));
            assert(decreases_to!(last => last.0));
            assert(decreases_to!(last => last.1));
        }
    }

    /// A map literal whose evaluation failed on a (non-empty) prefix of its
    /// entries fails on all of them.
    proof fn lemma_dict_err_from(s: Self, entries: Seq<(Expr, Expr)>, k: int, t: Self, x: LangError)
        requires
            0 < k <= entries.len(),
            Self::dict_rel(s, entries.take(k), t, Err::<Entries<Value>, LangError>(x)),
        ensures
            Self::dict_rel(s, entries, t, Err::<Entries<Value>, LangError>(x)),
        decreases entries.len() - k,
    {
        if k == entries.len() {
            assert(entries.take(k) =~= entries);
        } else {
            let longer = entries.take(k + 1);
            let e = Err::<Entries<Value>, LangError>(x);
            assert(longer.drop_last() =~= entries.take(k));
            assert(Self::mid(t, (e, (t, (Err::<Value, LangError>(x), (t, Err::<Value, LangError>(x)))))));
            assert(Self::dict_rel(s, longer, t, e));
            Self::lemma_dict_err_from(s, entries, k + 1, t, x);
        }
    }

    /// Evaluating a list of expressions left to right, stopping at the
    /// first failure.
    pub closed spec fn list_rel(s: Self, items: Seq<Expr>, t: Self, r: Result<
        Seq<Value>,
        LangError,
    >) -> bool
        decreases Self::remaining(s), items,
        via Self::list_rel_decreases
    {
        if items.len() == 0 {
            t == s && r == Ok::<Seq<Value>, LangError>(Seq::empty())
        } else {
            exists|m: Self, lr: Result<Seq<Value>, LangError>|
                #![trigger Self::mid(m, lr)]
                Self::mid(m, lr) && Self::list_rel(s, items.drop_last(), m, lr) && match lr {
                    Err(x) => t == m && r == Err::<Seq<Value>, LangError>(x),
                    Ok(vs) => Self::remaining(m) <= Self::remaining(s) && exists|
                        rr: Result<Value, LangError>,
                    |
                        #![trigger Self::mid(t, rr)]
                        Self::mid(t, rr) && Self::eval_rel(m, items.last(), t, rr) && match rr {
                            Err(x) => r == Err::<Seq<Value>, LangError>(x),
                            Ok(v) => r == Ok::<Seq<Value>, LangError>(vs.push(v)),
                        },
                }
        }
    }

    /// A marker for the intermediate states and results of an evaluation;
    /// it holds of everything.
    pub closed spec fn mid<T>(m: Self, x: T) -> bool {
        true
    }

    /// One more item evaluated extends a list evaluation.
    proof fn lemma_list_step(
        s: Self,
        items: Seq<Expr>,
        m: Self,
        vs: Seq<Value>,
        t: Self,
        rr: Result<Value, LangError>,
    )
        requires
            items.len() > 0,
            Self::list_rel(s, items.drop_last(), m, Ok::<Seq<Value>, LangError>(vs)),
            Self::remaining(m) <= Self::remaining(s),
            Self::eval_rel(m, items.last(), t, rr),
        ensures
            Self::list_rel(
                s,
                items,
                t,
                match rr {
                    Ok(v) => Ok::<Seq<Value>, LangError>(vs.push(v)),
                    Err(x) => Err::<Seq<Value>, LangError>(x),
                },
            ),
    {
        assert(Self::mid(m, Ok::<Seq<Value>, LangError>(vs)));
        assert(Self::mid(t, rr));
    }

    /// A list evaluation that failed on a (non-empty) prefix fails on the
    /// whole list.
    proof fn lemma_list_err_from(s: Self, items: Seq<Expr>, k: int, t: Self, x: LangError)
        requires
            0 < k <= items.len(),
            Self::list_rel(s, items.take(k), t, Err::<Seq<Value>, LangError>(x)),
        ensures
            Self::list_rel(s, items, t, Err::<Seq<Value>, LangError>(x)),
        decreases items.len() - k,
    {
        if k == items.len() {
            assert(items.take(k) =~= items);
        } else {
            let longer = items.take(k + 1);
            assert(longer.drop_last() =~= items.take(k));
            assert(Self::mid(t, Err::<Seq<Value>, LangError>(x)));
            assert(Self::list_rel(s, longer, t, Err::<Seq<Value>, LangError>(x)));
            Self::lemma_list_err_from(s, items, k + 1, t, x);
        }
    }

    /// One more statement run extends a block run that completed so far.
    proof fn lemma_block_step(
        s: Self,
        stmts: Seq<Stmt>,
        m: Self,
        t: Self,
        rl: Result<Flow, LangError>,
    )
        requires
            stmts.len() > 0,
            Self::block_rel(s, stmts.drop_last(), m, Ok::<Flow, LangError>(Flow::Value(None))),
            Self::remaining(m) <= Self::remaining(s),
            Self::exec_rel(m, stmts.last(), t, rl),
        ensures
            Self::block_rel(
                s,
                stmts,
                t,
                match rl {
                    Ok(Flow::Value(_)) => Ok::<Flow, LangError>(Flow::Value(None)),
                    other => other,
                },
            ),
    {
        assert(Self::mid(m, Ok::<Flow, LangError>(Flow::Value(None))));
        assert(Self::mid(t, rl));
    }

    /// A block run stopped (by `return` or an error) on a prefix is stopped
    /// on the whole block.
    proof fn lemma_block_stop(s: Self, stmts: Seq<Stmt>, k: int, t: Self, rb: Result<Flow, LangError>)
        requires
            0 < k <= stmts.len(),
            Self::block_rel(s, stmts.take(k), t, rb),
            !(rb matches Ok(Flow::Value(_))),
        ensures
            Self::block_rel(s, stmts, t, rb),
        decreases stmts.len() - k,
    {
        if k == stmts.len() {
            assert(stmts.take(k) =~= stmts);
        } else {
            let longer = stmts.take(k + 1);
            assert(longer.drop_last() =~= stmts.take(k));
            assert(Self::mid(t, rb));
            assert(Self::block_rel(s, longer, t, rb));
            Self::lemma_block_stop(s, stmts, k + 1, t, rb);
        }
    }

    #[via_fn]
    proof fn eval_rel_decreases(s: Self, e: Expr, t: Self, r: Result<Value, LangError>) {
        if !Self::overruns(s, 1) {
            assert(Self::remaining(Self::ticked(s, 1)) < Self::remaining(s));
        }
    }

    #[via_fn]
    proof fn node_rel_decreases(s: Self, e: Expr, t: Self, r: Result<Value, LangError>) {
        match e {
            Expr::Array(items) => {
                assert(decreases_to!(e => items));
                assert(decreases_to!(items => items@));
                assert(Self::remaining(Self::ticked(s, items@.len() as u64)) <= Self::remaining(s));
            },
            Expr::Dict(entries) => {
                assert(decreases_to!(e => entries));
                assert(decreases_to!(entries => entries@));
                assert(Self::remaining(Self::ticked(s, entries@.len() as u64)) <= Self::remaining(
                    s,
                ));
            },
            Expr::Call { callee, args } => {
                assert forall|m: Self|
                    Self::remaining(m) <= Self::remaining(s) && !Self::overruns(m, FUEL_CALL_COST)
                        implies Self::remaining(Self::ticked(m, FUEL_CALL_COST)) + 2
                    < Self::remaining(s) by {}
            },
            _ => {},
        }
    }

    #[via_fn]
    proof fn call_rel_decreases(
        s: Self,
        closure: Rc<Closure>,
        args: Seq<Expr>,
        t: Self,
        r: Result<Value, LangError>,
    ) {
    }

    #[via_fn]
    proof fn call_body_rel_decreases(
        m1: Self,
        closure: Rc<Closure>,
        vs: Seq<Value>,
        t: Self,
        r: Result<Value, LangError>,
    ) {
    }

    #[via_fn]
    proof fn args2_rel_decreases(s: Self, a: Expr, b: Expr, t: Self, r: Result<
        (Value, Value),
        LangError,
    >) {
    }

    #[via_fn]
    proof fn builtin_rel_decreases(
        b: Builtin,
        args: Seq<Expr>,
        s: Self,
        t: Self,
        r: Result<Value, LangError>,
    ) {
        if b == Builtin::Print && !Self::overruns(s, FUEL_PRINT_COST) {
            assert(Self::remaining(Self::ticked(s, FUEL_PRINT_COST)) <= Self::remaining(s));
        }
    }

    #[via_fn]
    proof fn index_write_rel_decreases(
        s: Self,
        name: String,
        index: Expr,
        value: Expr,
        t: Self,
        r: Result<Flow, LangError>,
    ) {
    }

    #[via_fn]
    proof fn list_rel_decreases(s: Self, items: Seq<Expr>, t: Self, r: Result<Seq<Value>, LangError>) {
        if items.len() > 0 {
            assert(items.drop_last() == items.subrange(0, items.len() - 1));
            assert(items.last() == items[items.len() - 1]);
        }
    }

    /// `s` once a statement on source line `line` has been charged its
    /// operation and has become the current line.
    pub closed spec fn started(s: Self, line: usize) -> Self {
        Self::at_line(Self::ticked(s, 1), line)
    }

    /// `s` with `line` as the current source line.
    pub closed spec fn at_line(s: Self, line: usize) -> Self {
        Interpreter { current_line: line, ..s }
    }

    /// `after` is the container `before` with the slot that `idx` names set
    /// to `w`: the element of an array at the position that `idx` names,
    /// or the entry of a map under the key `idx`.
    pub open spec fn written_at(before: Option<Value>, after: Value, idx: Value, w: Value) -> bool {
        match before {
            Some(Value::Array(xs)) => index_position(idx, xs@.len() as int) matches Some(k) && (
            after matches Value::Array(ys) && ys@ == xs@.update(k, w)),
            Some(Value::Dict(m)) => after matches Value::Dict(n) && (map_key_check(idx) matches Ok(
                k,
            ) && n@ == map_insert(m@, k, w)),
            _ => false,
        }
    }

    /// How many slots the container `c` holds.
    pub open spec fn slot_count(c: Value) -> nat {
        match c {
            Value::Array(xs) => xs@.len(),
            Value::Dict(m) => m@.len(),
            _ => 0,
        }
    }

    /// What a successful `name[i] = w` leaves, from state `m` in which the
    /// binding of `name` holds the container `c`: the binding holds `c` with
    /// that one slot set to `w`; one op is charged, or one per slot where the
    /// container was shared and had to be copied; the write is recorded
    /// with the index as printed.
    pub closed spec fn index_stored(m: Self, name: String, c: Value, i: Value, w: Value, t: Self) -> bool {
        &&& exists|nv: Value|
            #![trigger Self::written_at(Some(c), nv, i, w)]
            t.env@ == rebind(m.env@, name@, nv) && Self::written_at(Some(c), nv, i, w)
        &&& (t.fuel == Self::ticked(m, 1).fuel || t.fuel == Self::ticked(
            m,
            Self::slot_count(c) as u64,
        ).fuel)
        &&& t.depth == m.depth
        &&& t.next_id == m.next_id
        &&& t.host == m.host
        &&& t.current_line == m.current_line
        &&& if m.trace is None {
            t.trace is None && t.trace_truncated == m.trace_truncated
        } else {
            exists|k: EventKind|
                #![trigger Self::pushed(Self::fueled(m, t.fuel.used), t, k)]
                Self::pushed(Self::fueled(m, t.fuel.used), t, k) && (k matches EventKind::Assign {
                    target,
                    value,
                } && value == w && target@ == name@ + "["@ + printed::<H>(i) + "]"@)
        }
    }

    /// What `name[index] = value` does from state `s` (its line current):
    /// the index, then the value are evaluated; then the binding of `name`
    /// gets the container with that one slot set to the value.
    pub closed spec fn index_write_rel(
        s: Self,
        name: String,
        index: Expr,
        value: Expr,
        t: Self,
        r: Result<Flow, LangError>,
    ) -> bool
        decreases Self::remaining(s) + 1, index,
        via Self::index_write_rel_decreases
    {
        exists|m1: Self, li: Result<Value, LangError>|
            #![trigger Self::mid(m1, li)]
            Self::mid(m1, li) && Self::eval_rel(s, index, m1, li) && match li {
                Err(x) => r == Err::<Flow, LangError>(x) && t == m1,
                Ok(i) => Self::remaining(m1) <= Self::remaining(s) && exists|
                    m2: Self,
                    lw: Result<Value, LangError>,
                |
                    #![trigger Self::mid(m2, lw)]
                    Self::mid(m2, lw) && Self::eval_rel(m1, value, m2, lw) && match lw {
                        Err(x) => r == Err::<Flow, LangError>(x) && t == m2,
                        Ok(w) => match lookup(m2.env@, name@) {
                            None => (r matches Err(LangError::UndefinedVariable(n)) && n@ == name@)
                                && t.env == m2.env && Self::write_refused(m2, t),
                            Some(c) => (r is Ok ==> Self::index_stored(m2, name, c, i, w, t))
                                && (c is Dict ==> (map_key_check(i) matches Err(e) ==> r == Err::<
                                Flow,
                                LangError,
                            >(e))) && (c matches Value::Array(xs) ==> (index_position(i, xs@.len() as int) is None
                                ==> (r matches Err(e) && index_refused::<H>(i, xs@.len() as int, e)))) && (!(c is Array) && !(c is Dict) ==> r == Err::<
                                Flow,
                                LangError,
                            >(LangError::InvalidUnaryOp { op: "[]=", operand: type_label_of(c) }))
                                && (r is Err ==> Self::write_refused(m2, t)) && ((c matches Value::Array(
                                xs,
                            ) && index_position(i, xs@.len() as int) is Some && !Self::overruns(m2, 1)
                                && !Self::overruns(m2, xs@.len() as u64)) ==> r is Ok) && ((c matches Value::Dict(
                                mp,
                            ) && map_key_check(i) is Ok && mp@.len() + 2 < usize::MAX / 16
                                && !Self::overruns(m2, 1) && !Self::overruns(m2, mp@.len() as u64))
                                ==> r is Ok),
                        },
                    },
            }
    }

    /// A refused index write from `m` leaves the bindings and the trace as
    /// they were (only fuel may have been spent).
    pub closed spec fn write_refused(m: Self, t: Self) -> bool {
        &&& t.env@ == m.env@
        &&& t.trace == m.trace
        &&& t.trace_truncated == m.trace_truncated
        &&& t.depth == m.depth
        &&& t.next_id == m.next_id
        &&& t.host == m.host
        &&& t.current_line == m.current_line
    }

    /// What a condition gives once its expression gave `lr`.
    pub open spec fn condition_of(lr: Result<Value, LangError>) -> Result<bool, LangError> {
        match lr {
            Ok(Value::Bool(b)) => Ok(b),
            Ok(other) => Err(LangError::InvalidCondition { got: type_label_of(other) }),
            Err(x) => Err(x),
        }
    }

    /// How `var`, `=`, `return` and an expression statement end, from state
    /// `m` in which their expression gave `lr`: the value is bound, assigned,
    /// returned or kept as the statement's value.
    pub closed spec fn simple_stmt_rel(
        stmt: Stmt,
        m: Self,
        lr: Result<Value, LangError>,
        t: Self,
        r: Result<Flow, LangError>,
    ) -> bool {
        match lr {
            Err(x) => r == Err::<Flow, LangError>(x) && t == m,
            Ok(v) => match stmt {
                Stmt::Let { name, .. } => {
                    &&& r == Ok::<Flow, LangError>(Flow::Value(None))
                    &&& t.env@ == m.env@.update(m.env@.len() - 1, bind(m.env@.last(), name@, v))
                    &&& t.fuel == m.fuel
                    &&& Self::agrees(m, t)
                    &&& Self::pushed(m, t, EventKind::Assign { target: name, value: v })
                },
                Stmt::Assign { name, .. } => {
                    &&& t.fuel == m.fuel
                    &&& Self::agrees(m, t)
                    &&& Self::pushed(m, t, EventKind::Assign { target: name, value: v })
                    &&& if scope_of(m.env@, name@) >= 0 {
                        r == Ok::<Flow, LangError>(Flow::Value(None)) && t.env@ == rebind(
                            m.env@,
                            name@,
                            v,
                        )
                    } else {
                        (r matches Err(LangError::UndefinedVariable(n)) && n@ == name@) && t.env@
                            == m.env@
                    }
                },
                Stmt::Expr { .. } => r == Ok::<Flow, LangError>(Flow::Value(Some(v))) && t.env
                    == m.env && t.fuel == m.fuel && Self::recorded(m, t, EventKind::Expr { value: v }),
                Stmt::Return { .. } => r == Ok::<Flow, LangError>(Flow::Return(v)) && t == m,
                _ => true,
            },
        }
    }

    /// The expression and line of `var`, `=`, `return` and an expression
    /// statement.
    pub open spec fn simple_parts(stmt: Stmt) -> Option<(Expr, usize)> {
        match stmt {
            Stmt::Let { value, line, .. } => Some((value, line)),
            Stmt::Assign { value, line, .. } => Some((value, line)),
            Stmt::Expr { expr, line } => Some((expr, line)),
            Stmt::Return { value, line } => Some((value, line)),
            _ => None,
        }
    }

    /// `a` and `b` agree on everything but the scopes and the trace.
    pub closed spec fn agrees(a: Self, b: Self) -> bool {
        &&& a.fuel == b.fuel
        &&& a.depth == b.depth
        &&& a.current_line == b.current_line
        &&& a.next_id == b.next_id
        &&& a.host == b.host
    }

    /// `b` is `a` with only its trace (possibly) grown.
    pub closed spec fn traced_from(a: Self, b: Self) -> bool {
        Self::agrees(a, b) && b.env == a.env
    }

    /// `b`'s trace is `a`'s with the event `kind` recorded, stamped with
    /// `a`'s op count, depth and line: appended while the trace is below its
    /// limit, else the trace is marked truncated; nothing when tracing is off.
    pub closed spec fn pushed(a: Self, b: Self, kind: EventKind) -> bool {
        match a.trace {
            Some(t) => if t@.len() < TRACE_LIMIT {
                &&& b.events() is Some
                &&& Self::appended_event(t@, b.events()->Some_0, a, kind)
                &&& b.trace_truncated == a.trace_truncated
            } else {
                &&& b.events() == a.events()
                &&& b.trace_truncated
            },
            None => b.trace is None && b.trace_truncated == a.trace_truncated,
        }
    }

    /// `after` is `before` with one more event: what `kind` records (its
    /// values in storage of their own), stamped with `a`'s op count, depth
    /// and line.
    pub closed spec fn appended_event(
        before: Seq<TraceEvent>,
        after: Seq<TraceEvent>,
        a: Self,
        kind: EventKind,
    ) -> bool {
        &&& after.len() == before.len() + 1
        &&& after.drop_last() == before
        &&& after.last().op == a.fuel.used
        &&& after.last().depth == a.depth
        &&& after.last().line == a.current_line
        &&& same_event(after.last().kind, kind)
    }

    /// `b` is `a` with the event `kind` recorded, and nothing else changed.
    pub closed spec fn recorded(a: Self, b: Self, kind: EventKind) -> bool {
        Self::agrees(a, b) && b.env == a.env && Self::pushed(a, b, kind)
    }

    /// Recording an event consumes no fuel and changes nothing but the
    /// trace; the event kept holds what `kind` records.
    pub proof fn law_recording_consumes_no_fuel(a: Self, b: Self, kind: EventKind)
        requires
            Self::recorded(a, b, kind),
        ensures
            b.ops() == a.ops(),
            b.budget() == a.budget(),
            b.call_depth() == a.call_depth(),
            b.scope_count() == a.scope_count(),
            b.host_state() == a.host_state(),
            a.events() matches Some(t) ==> (t.len() < TRACE_LIMIT ==> (b.events() matches Some(u)
                && u.len() == t.len() + 1 && u.drop_last() == t && same_event(u.last().kind, kind))),
    {
    }

    /// `b` is `a` with the entry into the function `name` on the arguments
    /// `vs` recorded.
    pub closed spec fn called(a: Self, b: Self, name: Seq<char>, vs: Seq<Value>) -> bool {
        &&& Self::agrees(a, b)
        &&& b.env == a.env
        &&& if a.trace is None {
            b.trace is None && b.trace_truncated == a.trace_truncated
        } else {
            exists|k: EventKind|
                #![trigger Self::pushed(a, b, k)]
                Self::pushed(a, b, k) && (k matches EventKind::Call { name: n, args }
                    && n@ == name && args@ == vs)
        }
    }

    /// `b`'s trace is `a`'s with the return of the function `name` with the
    /// value `v` recorded.
    pub closed spec fn returned(a: Self, b: Self, name: Seq<char>, v: Value) -> bool {
        if a.trace is None {
            b.trace is None && b.trace_truncated == a.trace_truncated
        } else {
            exists|k: EventKind|
                #![trigger Self::pushed(a, b, k)]
                Self::pushed(a, b, k) && (k matches EventKind::Return { name: n, value }
                    && n@ == name && value == v)
        }
    }

    /// `b` is `a` with only its scopes changed.
    pub closed spec fn rescoped(a: Self, b: Self) -> bool {
        Self::agrees(a, b) && b.trace == a.trace && b.trace_truncated == a.trace_truncated
    }

    /// The scopes a call's body starts in: the globals, the closure's
    /// captured locals (with its own name bound to it, so that it can
    /// recurse), and a scope of the parameters bound to the arguments.
    pub open spec fn call_scopes(env: Seq<ScopeView>, closure: Rc<Closure>, vs: Seq<Value>) -> Seq<
        ScopeView,
    > {
        let caps = match closure.function.name {
            Some(n) => bind(scope_view(closure.captures), n@, Value::Function(closure)),
            None => scope_view(closure.captures),
        };
        seq![
            env[0],
            caps,
            bind_all(
                ScopeView::empty(),
                Seq::new(vs.len(), |i: int| (closure.function.params@[i]@, vs[i])),
            ),
        ]
    }

    /// Inside a call's body, a parameter's name reads the argument passed
    /// for it (for a name given to several parameters, the last of them),
    /// whatever the captured locals, the function's own name or the globals
    /// bind under that name: the parameters are the innermost scope.
    pub proof fn law_parameters_shadow_captures(
        env: Seq<ScopeView>,
        closure: Rc<Closure>,
        vs: Seq<Value>,
        i: int,
    )
        requires
            vs.len() == closure.function.params@.len(),
            0 <= i < vs.len(),
            forall|j: int|
                i < j < vs.len() ==> (#[trigger] closure.function.params@[j])@
                    != closure.function.params@[i]@,
        ensures
            lookup(Self::call_scopes(env, closure, vs), closure.function.params@[i]@) == Some(vs[i]),
    {
        let ps = Seq::new(vs.len(), |k: int| (closure.function.params@[k]@, vs[k]));
        assert forall|j: int| i < j < ps.len() implies (#[trigger] ps[j]).0 != ps[i].0 by {
            assert(closure.function.params@[j]@ != closure.function.params@[i]@);
        }
        crate::env::lemma_bind_all_reads(ScopeView::empty(), ps, i);
        let scopes = Self::call_scopes(env, closure, vs);
        assert(scopes.last() == bind_all(ScopeView::empty(), ps));
        assert(scope_of(scopes, closure.function.params@[i]@) == 2);
    }

    /// Inside a call's body, a name that no parameter takes reads what the
    /// function captured under it, and the function's own name (when it has
    /// one and no parameter takes it) reads the function itself.
    pub proof fn law_captures_are_seen_unless_shadowed(
        env: Seq<ScopeView>,
        closure: Rc<Closure>,
        vs: Seq<Value>,
        n: Seq<char>,
    )
        requires
            vs.len() == closure.function.params@.len(),
            forall|j: int| 0 <= j < vs.len() ==> (#[trigger] closure.function.params@[j])@ != n,
        ensures
            closure.function.name matches Some(f) && f@ == n ==> lookup(
                Self::call_scopes(env, closure, vs),
                n,
            ) == Some(Value::Function(closure)),
            !(closure.function.name matches Some(f) && f@ == n) && slot_of(
                scope_view(closure.captures),
                n,
            ) >= 0 ==> lookup(Self::call_scopes(env, closure, vs), n) == Some(
                scope_view(closure.captures)[slot_of(scope_view(closure.captures), n)].1,
            ),
    {
        let ps = Seq::new(vs.len(), |k: int| (closure.function.params@[k]@, vs[k]));
        crate::env::lemma_bind_all_misses(ScopeView::empty(), ps, n);
        assert forall|sc: ScopeView, f: Seq<char>, v: Value|
            #![trigger bind(sc, f, v)]
            (f != n ==> slot_of(bind(sc, f, v), n) == slot_of(sc, n) && (slot_of(sc, n) >= 0
                ==> bind(sc, f, v)[slot_of(sc, n)] == sc[slot_of(sc, n)])) && (f == n ==> slot_of(
                bind(sc, f, v),
                n,
            ) >= 0 && bind(sc, f, v)[slot_of(bind(sc, f, v), n)].1 == v) by {
            crate::env::lemma_bind_reads(sc, f, v, n);
        }
        let scopes = Self::call_scopes(env, closure, vs);
        assert(slot_of(scopes.last(), n) < 0);
        assert(scopes.drop_last().last() == scopes[1]);
        if slot_of(scopes[1], n) >= 0 {
            assert(scope_of(scopes.drop_last(), n) == 1);
            assert(scope_of(scopes, n) == 1);
        }
    }

    /// What calling `closure` on the argument expressions `args` does from
    /// `s`, once the call cost is charged and the argument count matches:
    /// the arguments are evaluated in the caller's scopes; past the depth
    /// limit the call fails; otherwise the body runs one level deeper in
    /// `call_scopes`, the caller's locals come back afterwards, and the
    /// call gives the value the body returned.
    closed spec fn call_rel(
        s: Self,
        closure: Rc<Closure>,
        args: Seq<Expr>,
        t: Self,
        r: Result<Value, LangError>,
    ) -> bool
        decreases Self::remaining(s) + 2, args,
        via Self::call_rel_decreases
    {
        exists|m: Self, la: Result<Seq<Value>, LangError>, m1: Self|
            #![trigger Self::mid(m, (la, m1))]
            Self::mid(m, (la, m1)) && Self::list_rel(s, args, m, la) && match la {
                Err(x) => r == Err::<Value, LangError>(x) && t == m,
                Ok(vs) => Self::called(m, m1, function_label(*closure.function), vs)
                    && Self::remaining(m1) <= Self::remaining(s)
                    && Self::call_body_rel(m1, closure, vs, t, r),
            }
    }

    /// The rest of a call once its arguments gave `vs` and the call was
    /// recorded, in state `m1`.
    closed spec fn call_body_rel(
        m1: Self,
        closure: Rc<Closure>,
        vs: Seq<Value>,
        t: Self,
        r: Result<Value, LangError>,
    ) -> bool
        decreases Self::remaining(m1) + 1, vs,
        via Self::call_body_rel_decreases
    {
        if m1.depth >= MAX_CALL_DEPTH {
            r == Err::<Value, LangError>(LangError::CallDepthExceeded { limit: MAX_CALL_DEPTH })
                && t == m1
        } else {
            exists|b: Self, m3: Self, fl: Result<Flow, LangError>|
                #![trigger Self::mid(b, (m3, fl))]
                {
                    &&& Self::mid(b, (m3, fl))
                    &&& b.depth == m1.depth + 1
                    &&& b.env@ == Self::call_scopes(m1.env@, closure, vs)
                    &&& b.fuel == m1.fuel
                    &&& b.next_id == m1.next_id
                    &&& b.host == m1.host
                    &&& b.current_line == m1.current_line
                    &&& b.trace == m1.trace
                    &&& b.trace_truncated == m1.trace_truncated
                    &&& Self::exec_rel(b, closure.function.body, m3, fl)
                    &&& t.env@ == m3.env@.take(1) + m1.env@.skip(1)
                    &&& t.depth == m1.depth
                    &&& t.fuel == m3.fuel
                    &&& t.next_id == m3.next_id
                    &&& t.host == m3.host
                    &&& match fl {
                        Ok(Flow::Return(v)) => {
                            &&& r == Ok::<Value, LangError>(v)
                            &&& t.current_line == m1.current_line
                            &&& Self::returned(
                                Interpreter { depth: m1.depth, ..m3 },
                                t,
                                function_label(*closure.function),
                                v,
                            )
                        },
                        _ => {
                            &&& t.current_line == m3.current_line
                            &&& t.trace == m3.trace
                            &&& t.trace_truncated == m3.trace_truncated
                            &&& match fl {
                                Ok(Flow::Value(_)) => r matches Err(
                                    LangError::NoReturnValue { function },
                                ) && function@ == function_label(*closure.function),
                                Err(x) => r == Err::<Value, LangError>(x),
                                _ => false,
                            }
                        },
                    }
                }
        }
    }

    /// `st` is the state a run starts from, after `s`: the scopes persist,
    /// the meter, the call depth and the line restart, and a trace (if one
    /// is kept) starts empty.
    pub closed spec fn fresh_run(s: Self, st: Self) -> bool {
        &&& st.env == s.env
        &&& st.fuel.used == 0
        &&& st.fuel.limit == s.fuel.limit
        &&& st.depth == 0
        &&& st.current_line == 1
        &&& !st.trace_truncated
        &&& st.next_id == s.next_id
        &&& st.host == s.host
        &&& match s.trace {
            Some(_) => st.events() == Some(Seq::<TraceEvent>::empty()),
            None => st.trace is None,
        }
    }

    /// What a run starts from: the bindings, budget and host of `s`, the
    /// meter at zero, no call under way, and (when tracing) an empty trace,
    /// so that the trace afterwards holds that run's events alone.
    pub proof fn lemma_fresh_run(s: Self, st: Self)
        requires
            Self::fresh_run(s, st),
        ensures
            st.ops() == 0,
            st.budget() == s.budget(),
            st.call_depth() == 0,
            st.scope_count() == s.scope_count(),
            st.host_state() == s.host_state(),
            !st.truncated(),
            s.events() is Some ==> st.events() == Some(Seq::<TraceEvent>::empty()),
            s.events() is None ==> st.events() is None,
    {
    }

    /// What running the top-level statements `stmts` from `s` may end in:
    /// they run in order; the value of the last one, when it is an
    /// expression statement, is the result; a `return` outside any function
    /// is an error.
    pub closed spec fn program_rel(
        s: Self,
        stmts: Seq<Stmt>,
        t: Self,
        r: Result<Option<Value>, LangError>,
    ) -> bool
        decreases stmts,
        via Self::program_rel_decreases
    {
        if stmts.len() == 0 {
            t == s && r == Ok::<Option<Value>, LangError>(None)
        } else {
            exists|m: Self, rp: Result<Option<Value>, LangError>, rl: Result<Flow, LangError>|
                #![trigger Self::mid(m, (rp, rl))]
                Self::mid(m, (rp, rl)) && Self::program_rel(s, stmts.drop_last(), m, rp) && match rp {
                    Err(x) => t == m && r == Err::<Option<Value>, LangError>(x),
                    Ok(_) => Self::exec_rel(m, stmts.last(), t, rl) && r == match rl {
                        Ok(Flow::Value(v)) => Ok::<Option<Value>, LangError>(v),
                        Ok(Flow::Return(_)) => Err::<Option<Value>, LangError>(
                            LangError::ReturnOutsideFunction,
                        ),
                        Err(x) => Err::<Option<Value>, LangError>(x),
                    },
                }
        }
    }

    #[via_fn]
    proof fn program_rel_decreases(
        s: Self,
        stmts: Seq<Stmt>,
        t: Self,
        r: Result<Option<Value>, LangError>,
    ) {
        if stmts.len() > 0 {
            assert(stmts.drop_last() == stmts.subrange(0, stmts.len() - 1));
        }
    }

    /// A run that failed on a prefix of the program fails on the program.
    proof fn lemma_program_stop(s: Self, stmts: Seq<Stmt>, k: int, t: Self, x: LangError)
        requires
            0 < k <= stmts.len(),
            Self::program_rel(s, stmts.take(k), t, Err::<Option<Value>, LangError>(x)),
        ensures
            Self::program_rel(s, stmts, t, Err::<Option<Value>, LangError>(x)),
        decreases stmts.len() - k,
    {
        if k == stmts.len() {
            assert(stmts.take(k) =~= stmts);
        } else {
            let longer = stmts.take(k + 1);
            assert(longer.drop_last() =~= stmts.take(k));
            let e = Err::<Option<Value>, LangError>(x);
            assert(Self::mid(t, (e, Err::<Flow, LangError>(x))));
            assert(Self::program_rel(s, longer, t, e));
            Self::lemma_program_stop(s, stmts, k + 1, t, x);
        }
    }

    /// The operations left in the budget of `s`.
    pub closed spec fn remaining(s: Self) -> nat {
        if s.fuel.used <= s.fuel.limit {
            (s.fuel.limit - s.fuel.used) as nat
        } else {
            0
        }
    }

    /// What executing `stmt` in state `s` may end in: state `t` and outcome
    /// `r`. The statement's operation is charged first. A call inside an
    /// expression is described by what every step keeps (see `eval_rel`).
    pub closed spec fn exec_rel(s: Self, stmt: Stmt, t: Self, r: Result<Flow, LangError>) -> bool
        decreases Self::remaining(s), stmt,
        via Self::exec_rel_decreases
    {
        if Self::overruns(s, 1) {
            t == Self::ticked(s, 1) && r == Err::<Flow, LangError>(Self::out_of_fuel(s))
        } else {
            let s1 = Self::ticked(s, 1);
            match stmt {
                Stmt::Let { value, line, .. } => exists|m: Self, lr: Result<Value, LangError>|
                    #![trigger Self::mid(m, lr)]
                    Self::mid(m, lr) && Self::eval_rel(Self::at_line(s1, line), value, m, lr)
                        && Self::simple_stmt_rel(stmt, m, lr, t, r),
                Stmt::Assign { value, line, .. } => exists|m: Self, lr: Result<Value, LangError>|
                    #![trigger Self::mid(m, lr)]
                    Self::mid(m, lr) && Self::eval_rel(Self::at_line(s1, line), value, m, lr)
                        && Self::simple_stmt_rel(stmt, m, lr, t, r),
                Stmt::Expr { expr, line } => exists|m: Self, lr: Result<Value, LangError>|
                    #![trigger Self::mid(m, lr)]
                    Self::mid(m, lr) && Self::eval_rel(Self::at_line(s1, line), expr, m, lr)
                        && Self::simple_stmt_rel(stmt, m, lr, t, r),
                Stmt::Return { value, line } => exists|m: Self, lr: Result<Value, LangError>|
                    #![trigger Self::mid(m, lr)]
                    Self::mid(m, lr) && Self::eval_rel(Self::at_line(s1, line), value, m, lr)
                        && Self::simple_stmt_rel(stmt, m, lr, t, r),
                Stmt::IndexAssign { name, index, value, line } => Self::index_write_rel(
                    Self::at_line(s1, line),
                    name,
                    index,
                    value,
                    t,
                    r,
                ),
                Stmt::Function(f) => exists|m: Self, lr: Result<Value, LangError>|
                    #![trigger Self::mid(m, lr)]
                    Self::mid(m, lr) && Self::closure_made(s1, f, m, lr) && match lr {
                        Err(x) => r == Err::<Flow, LangError>(x) && t == m,
                        Ok(v) => {
                            &&& r == Ok::<Flow, LangError>(Flow::Value(None))
                            &&& Self::rescoped(m, t)
                            &&& t.env@ == match f.name {
                                Some(n) => m.env@.update(
                                    m.env@.len() - 1,
                                    bind(m.env@.last(), n@, v),
                                ),
                                None => m.env@,
                            }
                        },
                    },
                Stmt::Block(stmts) => exists|p: Self, m: Self, rb: Result<Flow, LangError>|
                    #![trigger Self::mid(p, (m, rb))]
                    {
                        &&& Self::mid(p, (m, rb))
                        &&& Self::rescoped(s1, p)
                        &&& p.env@ == s1.env@.push(ScopeView::empty())
                        &&& Self::remaining(p) < Self::remaining(s)
                        &&& Self::block_rel(p, stmts@, m, rb)
                        &&& Self::rescoped(m, t)
                        &&& t.env@ == m.env@.drop_last()
                        &&& r == rb
                    },
                Stmt::If { condition, then_branch, else_branch, line } => exists|
                    m: Self,
                    lr: Result<Value, LangError>,
                |
                    #![trigger Self::mid(m, lr)]
                    Self::mid(m, lr) && Self::eval_rel(Self::at_line(s1, line), condition, m, lr)
                        && match Self::condition_of(lr) {
                        Err(x) => r == Err::<Flow, LangError>(x) && t == m,
                        Ok(b) => exists|m2: Self|
                            #![trigger Self::mid(m2, b)]
                            Self::mid(m2, b) && Self::recorded(
                                m,
                                m2,
                                EventKind::Branch { construct: "if", value: b },
                            ) && Self::remaining(m2) < Self::remaining(s)
                                && if b {
                                Self::exec_rel(m2, *then_branch, t, r)
                            } else {
                                match else_branch {
                                    Some(e) => Self::exec_rel(m2, *e, t, r),
                                    None => r == Ok::<Flow, LangError>(Flow::Value(None)) && t
                                        == m2,
                                }
                            },
                    },
                Stmt::While { condition, body, line } => Self::while_rel(
                    s1,
                    condition,
                    *body,
                    line,
                    t,
                    r,
                ),
            }
        }
    }

    /// The statements of a block (or a program), run in order from `s`:
    /// all complete (`Value(None)`), one returns, or one fails.
    pub closed spec fn block_rel(s: Self, stmts: Seq<Stmt>, t: Self, r: Result<Flow, LangError>) -> bool
        decreases Self::remaining(s), stmts,
        via Self::block_rel_decreases
    {
        if stmts.len() == 0 {
            t == s && r == Ok::<Flow, LangError>(Flow::Value(None))
        } else {
            exists|m: Self, rb: Result<Flow, LangError>|
                #![trigger Self::mid(m, rb)]
                Self::mid(m, rb) && Self::block_rel(s, stmts.drop_last(), m, rb) && match rb {
                    Ok(Flow::Value(_)) => exists|rl: Result<Flow, LangError>|
                        #![trigger Self::mid(t, rl)]
                        Self::mid(t, rl) && Self::remaining(m) <= Self::remaining(s)
                            && Self::exec_rel(m, stmts.last(), t, rl) && r == match rl {
                            Ok(Flow::Value(_)) => Ok::<Flow, LangError>(Flow::Value(None)),
                            other => other,
                        },
                    other => t == m && r == other,
                }
        }
    }

    /// The iterations of `while (condition) body` from `s`: the condition
    /// is evaluated (and charged) each time; a false one ends the loop.
    pub closed spec fn while_rel(
        s: Self,
        condition: Expr,
        body: Stmt,
        line: usize,
        t: Self,
        r: Result<Flow, LangError>,
    ) -> bool
        decreases Self::remaining(s) + 1, body,
        via Self::while_rel_decreases
    {
        exists|m: Self, lr: Result<Value, LangError>|
            #![trigger Self::mid(m, lr)]
            Self::mid(m, lr) && Self::eval_rel(Self::at_line(s, line), condition, m, lr)
                && match Self::condition_of(lr) {
                Err(x) => r == Err::<Flow, LangError>(x) && t == m,
                Ok(false) => Self::recorded(m, t, EventKind::Branch { construct: "while", value: false })
                    && r == Ok::<Flow, LangError>(Flow::Value(None)),
                Ok(true) => exists|m2: Self, m3: Self, rb: Result<Flow, LangError>|
                    #![trigger Self::mid(m2, (m3, rb))]
                    Self::mid(m2, (m3, rb)) && Self::recorded(
                        m,
                        m2,
                        EventKind::Branch { construct: "while", value: true },
                    ) && Self::remaining(m2)
                        < Self::remaining(s) && Self::exec_rel(m2, body, m3, rb) && match rb {
                        Ok(Flow::Value(_)) => Self::remaining(m3) < Self::remaining(s)
                            && Self::while_rel(m3, condition, body, line, t, r),
                        other => t == m3 && r == other,
                    },
            }
    }

    /// `while (true) { }` does not hang: every iteration is charged, so the
    /// loop runs until the budget is spent and then fails with `OutOfFuel`
    /// naming the budget.
    pub proof fn law_endless_loop_runs_out_of_fuel(
        s: Self,
        body: Stmt,
        line: usize,
        t: Self,
        r: Result<Flow, LangError>,
    )
        requires
            body matches Stmt::Block(b) && b@.len() == 0,
            Self::while_rel(s, Expr::Literal(Literal::Bool(true)), body, line, t, r),
        ensures
            r == Err::<Flow, LangError>(LangError::OutOfFuel { limit: s.budget() }),
            t.budget() == s.budget(),
            t.exhausted(),
        decreases Self::remaining(s),
    {
        let cond = Expr::Literal(Literal::Bool(true));
        let m = choose|m: Self, lr: Result<Value, LangError>|
            Self::mid(m, lr) && Self::eval_rel(Self::at_line(s, line), cond, m, lr) && match Self::condition_of(lr) {
                Err(x) => r == Err::<Flow, LangError>(x) && t == m,
                Ok(false) => Self::recorded(m, t, EventKind::Branch { construct: "while", value: false })
                    && r == Ok::<Flow, LangError>(Flow::Value(None)),
                Ok(true) => exists|m2: Self, m3: Self, rb: Result<Flow, LangError>|
                    #![trigger Self::mid(m2, (m3, rb))]
                    Self::mid(m2, (m3, rb)) && Self::recorded(
                        m,
                        m2,
                        EventKind::Branch { construct: "while", value: true },
                    ) && Self::remaining(m2)
                        < Self::remaining(s) && Self::exec_rel(m2, body, m3, rb) && match rb {
                        Ok(Flow::Value(_)) => Self::remaining(m3) < Self::remaining(s)
                            && Self::while_rel(m3, cond, body, line, t, r),
                        other => t == m3 && r == other,
                    },
            };
        let (m0, lr) = m;
        let st = Self::at_line(s, line);
        if Self::overruns(st, 1) {
            assert(m0 == Self::ticked(st, 1));
        } else {
            assert(lr == Ok::<Value, LangError>(Value::Bool(true)));
            let (m2, m3, rb) = choose|m2: Self, m3: Self, rb: Result<Flow, LangError>|
                Self::mid(m2, (m3, rb)) && Self::recorded(
                    m0,
                    m2,
                    EventKind::Branch { construct: "while", value: true },
                ) && Self::remaining(m2)
                    < Self::remaining(s) && Self::exec_rel(m2, body, m3, rb) && match rb {
                    Ok(Flow::Value(_)) => Self::remaining(m3) < Self::remaining(s)
                        && Self::while_rel(m3, cond, body, line, t, r),
                    other => t == m3 && r == other,
                };
            if Self::overruns(m2, 1) {
                assert(m3 == Self::ticked(m2, 1));
            } else {
                let b = body->Block_0;
                assert(Self::exec_rel(m2, body, m3, rb));
                assert(exists|p: Self, mm: Self, rbb: Result<Flow, LangError>|
                    #![trigger Self::mid(p, (mm, rbb))]
                    {
                        &&& Self::mid(p, (mm, rbb))
                        &&& Self::rescoped(Self::ticked(m2, 1), p)
                        &&& p.env@ == Self::ticked(m2, 1).env@.push(ScopeView::empty())
                        &&& Self::remaining(p) < Self::remaining(m2)
                        &&& Self::block_rel(p, b@, mm, rbb)
                        &&& Self::rescoped(mm, m3)
                        &&& m3.env@ == mm.env@.drop_last()
                        &&& rb == rbb
                    });
                let (p, mm, rbb) = choose|p: Self, mm: Self, rbb: Result<Flow, LangError>|
                    {
                        &&& Self::mid(p, (mm, rbb))
                        &&& Self::rescoped(Self::ticked(m2, 1), p)
                        &&& p.env@ == Self::ticked(m2, 1).env@.push(ScopeView::empty())
                        &&& Self::remaining(p) < Self::remaining(m2)
                        &&& Self::block_rel(p, b@, mm, rbb)
                        &&& Self::rescoped(mm, m3)
                        &&& m3.env@ == mm.env@.drop_last()
                        &&& rb == rbb
                    };
                assert(b@.len() == 0);
                assert(b@ =~= Seq::<Stmt>::empty());
                assert(Self::block_rel(p, Seq::<Stmt>::empty(), mm, rbb));
                assert(rbb == Ok::<Flow, LangError>(Flow::Value(None)));
                assert(Self::remaining(m3) < Self::remaining(s));
                Self::law_endless_loop_runs_out_of_fuel(m3, body, line, t, r);
            }
        }
    }

    #[via_fn]
    proof fn exec_rel_decreases(s: Self, stmt: Stmt, t: Self, r: Result<Flow, LangError>) {
        if !Self::overruns(s, 1) {
            assert(Self::remaining(Self::ticked(s, 1)) < Self::remaining(s));
            match stmt {
                Stmt::Block(stmts) => {
                    assert(decreases_to!(stmt => stmts));
                    assert(decreases_to!(stmts => stmts@));
                },
                _ => {},
            }
        }
    }

    #[via_fn]
    proof fn block_rel_decreases(s: Self, stmts: Seq<Stmt>, t: Self, r: Result<Flow, LangError>) {
        if stmts.len() > 0 {
            assert(stmts.drop_last() == stmts.subrange(0, stmts.len() - 1));
            assert(stmts.last() == stmts[stmts.len() - 1]);
        }
    }

    #[via_fn]
    proof fn while_rel_decreases(
        s: Self,
        condition: Expr,
        body: Stmt,
        line: usize,
        t: Self,
        r: Result<Flow, LangError>,
    ) {
    }

    /// Evaluate an expression. Every node visited costs one operation,
    /// charged first, so no expression escapes metering.
    fn eval(&mut self, expr: &Expr) -> (r: Result<Value, LangError>)
        requires
            old(self).wf(),
            old(self).fuel.used <= old(self).fuel.limit,
        ensures
            final(self).step(old(self), r),
            final(self).locals_kept(old(self)),
            final(self).charged(old(self), r),
            r is Ok ==> final(self).fuel.used > old(self).fuel.used,
            *expr is Literal ==> (r is Ok || r matches Err(LangError::OutOfFuel { .. })),
            *expr matches Expr::Variable(name) ==> (lookup(old(self).env@, name@) is Some ==> (r is Ok
                || r matches Err(LangError::OutOfFuel { .. }))),
            (*expr is Literal || *expr is Variable) ==> final(self).env == old(self).env && (r is Ok
                ==> final(self).fuel.used == old(self).fuel.used + 1),
            *expr matches Expr::Literal(Literal::Bool(b)) ==> (r is Ok ==> r == Ok::<
                Value,
                LangError,
            >(Value::Bool(b))),
            *expr matches Expr::Literal(Literal::Str(t)) ==> (r is Ok ==> (r->Ok_0 matches Value::Str(
                u,
            ) && u@ == t@)),
            *expr matches Expr::Literal(Literal::Number(_)) ==> (r is Ok ==> r->Ok_0 is Number),
            *expr matches Expr::Variable(name) ==> (r is Ok ==> match lookup(
                old(self).env@,
                name@,
            ) {
                Some(v) => r->Ok_0 == v,
                None => r->Ok_0 matches Value::Builtin(b) && crate::value::builtin_name(b)
                    == name@,
            }),
            *expr matches Expr::Lambda(f) ==> (r is Ok ==> (r->Ok_0 matches Value::Function(c)
                && c.function == f && scope_view(c.captures) == merge(old(self).env@.skip(1)))),
            *expr matches Expr::Array(items) ==> (r is Ok ==> (r->Ok_0 matches Value::Array(xs)
                && xs@.len() == items@.len())),
            *expr matches Expr::Dict(_) ==> (r is Ok ==> r->Ok_0 is Dict),
            *expr matches Expr::Logical { .. } ==> (r is Ok ==> r->Ok_0 is Bool),
            *expr matches Expr::Binary { op, .. } ==> (r is Ok && (op == BinaryOp::Eq || op
                == BinaryOp::Ne || op == BinaryOp::Lt || op == BinaryOp::Le || op == BinaryOp::Gt
                || op == BinaryOp::Ge) ==> r->Ok_0 is Bool),
            *expr matches Expr::Unary { op, .. } ==> (r is Ok ==> match op {
                UnaryOp::Neg => r->Ok_0 is Number,
                UnaryOp::Not => r->Ok_0 is Bool,
            }),
            Self::eval_rel(*old(self), *expr, *final(self), r),
        decreases old(self).fuel.limit - old(self).fuel.used, 0nat,
    {
        let ghost s0 = *self;
        match self.fuel.tick(1) {
            Ok(()) => {},
            Err(e) => {
                assert(*self == Self::ticked(s0, 1));
                return Err(e);
            },
        }
        let ghost s1 = *self;
        assert(s1 == Self::ticked(s0, 1));
        let r = match expr {
            Expr::Literal(lit) => Ok(
                match lit {
                    Literal::Number(spelling) => Value::Number(self.host.number(spelling)),
                    Literal::Str(text) => Value::Str(text.clone()),
                    Literal::Bool(b) => Value::Bool(*b),
                },
            ),
            Expr::Variable(name) => self.lookup_name(name),
            Expr::Lambda(function) => self.make_closure(function),
            Expr::Call { callee, args } => self.eval_call(callee, args),
            Expr::Array(items) => self.eval_array(items),
            Expr::Dict(entries) => self.eval_dict(entries),
            Expr::Index { target, index } => self.eval_index(target, index),
            Expr::Unary { op, operand } => {
                let lr = self.eval(operand);
                assert(Self::mid(*self, lr));
                match lr {
                    Ok(v) => unary(*op, v),
                    Err(e) => Err(e),
                }
            },
            Expr::Logical { op, left, right } => self.eval_logical(*op, left, right),
            Expr::Binary { op, left, right } => self.eval_binary(*op, left, right),
        };
        assert(Self::node_rel(s1, *expr, *self, r));
        r
    }

    /// `callee(args)`: the callee is any expression evaluating to a function.
    fn eval_call(&mut self, callee: &Expr, args: &Vec<Expr>) -> (r: Result<Value, LangError>)
        requires
            old(self).wf(),
            old(self).fuel.used <= old(self).fuel.limit,
        ensures
            final(self).step(old(self), r),
            final(self).locals_kept(old(self)),
            final(self).charged(old(self), r),
            r is Ok ==> final(self).fuel.used >= old(self).fuel.used + 1 + FUEL_CALL_COST,
            *callee is Literal ==> (r matches Err(e) && (e is OutOfFuel || (e matches
                LangError::InvalidUnaryOp { op, .. } && op == "()"))),
            *callee matches Expr::Variable(n) ==> (lookup(old(self).env@, n@) matches Some(v)
                ==> (!(v is Function) && !(v is Builtin) ==> r == Err::<Value, LangError>(
                LangError::InvalidUnaryOp { op: "()", operand: type_label_of(v) },
            ) || r matches Err(LangError::OutOfFuel { .. }))),
            exists|m: Self, lc: Result<Value, LangError>|
                #![trigger Self::mid(m, lc)]
                Self::mid(m, lc) && Self::eval_rel(*old(self), *callee, m, lc) && Self::remaining(m)
                    <= Self::remaining(*old(self)) && match lc {
                    Err(e) => r == Err::<Value, LangError>(e) && *final(self) == m,
                    Ok(Value::Function(c)) => if Self::overruns(m, FUEL_CALL_COST) {
                        r == Err::<Value, LangError>(Self::out_of_fuel(m)) && *final(self) == Self::ticked(
                            m,
                            FUEL_CALL_COST,
                        )
                    } else if args@.len() == c.function.params@.len() {
                        Self::call_rel(Self::ticked(m, FUEL_CALL_COST), c, args@, *final(self), r)
                    } else {
                        r matches Err(e) && arity_error(
                            e,
                            function_label(*c.function),
                            c.function.params@.len(),
                            args@.len(),
                        ) && *final(self) == Self::ticked(m, FUEL_CALL_COST)
                    },
                    Ok(Value::Builtin(b)) => if Self::overruns(m, FUEL_CALL_COST) {
                        r == Err::<Value, LangError>(Self::out_of_fuel(m)) && *final(self) == Self::ticked(
                            m,
                            FUEL_CALL_COST,
                        )
                    } else if args@.len() == Self::builtin_arity(b) {
                        Self::builtin_rel(b, args@, Self::ticked(m, FUEL_CALL_COST), *final(self), r)
                    } else {
                        Self::builtin_misarity(b, args@.len(), Self::ticked(m, FUEL_CALL_COST), *final(self), r)
                    },
                    Ok(other) => r == Err::<Value, LangError>(
                        LangError::InvalidUnaryOp { op: "()", operand: type_label_of(other) },
                    ) && *final(self) == m,
                },
        decreases old(self).fuel.limit - old(self).fuel.used, 2nat,
    {
        let lc = self.eval(callee);
        let ghost m = *self;
        assert(Self::mid(m, lc));
        assert(Self::remaining(m) <= Self::remaining(*old(self)));
        let f = match lc {
            Ok(v) => v,
            Err(e) => {
                return Err(e);
            },
        };
        match f {
            Value::Function(closure) => self.call_closure(&closure, args),
            Value::Builtin(b) => {
                match self.fuel.tick(FUEL_CALL_COST) {
                    Ok(()) => {},
                    Err(e) => {
                        return Err(e);
                    },
                }
                assert(*self == Self::ticked(m, FUEL_CALL_COST));
                self.call_builtin(b, args)
            },
            other => Err(LangError::InvalidUnaryOp { op: "()", operand: other.type_label() }),
        }
    }

    /// Call a user function: arguments are evaluated in the caller's
    /// environment; the body sees the globals, the captures (plus the
    /// function's own name, so it can recurse) and its parameters — never the
    /// caller's locals, which are set aside and restored afterwards.
    fn call_closure(&mut self, closure: &Rc<Closure>, args: &Vec<Expr>) -> (r: Result<
        Value,
        LangError,
    >)
        requires
            old(self).wf(),
            old(self).fuel.used <= old(self).fuel.limit,
        ensures
            final(self).step(old(self), r),
            final(self).locals_kept(old(self)),
            final(self).charged(old(self), r),
            r is Ok ==> final(self).fuel.used >= old(self).fuel.used + FUEL_CALL_COST
                + args@.len() + 1,
            args@.len() != closure.function.params@.len() ==> (r matches Err(e) && (
            e is OutOfFuel || arity_error(
                e,
                function_label(*closure.function),
                closure.function.params@.len(),
                args@.len(),
            ))),
            old(self).depth >= MAX_CALL_DEPTH ==> r is Err,
            !Self::overruns(*old(self), FUEL_CALL_COST) && args@.len()
                != closure.function.params@.len() ==> (r matches Err(e) && arity_error(
                e,
                function_label(*closure.function),
                closure.function.params@.len(),
                args@.len(),
            )) && *final(self) == Self::ticked(*old(self), FUEL_CALL_COST),
            Self::overruns(*old(self), FUEL_CALL_COST) ==> r == Err::<Value, LangError>(
                Self::out_of_fuel(*old(self)),
            ) && *final(self) == Self::ticked(*old(self), FUEL_CALL_COST),
            !Self::overruns(*old(self), FUEL_CALL_COST) && args@.len()
                == closure.function.params@.len() ==> Self::call_rel(
                Self::ticked(*old(self), FUEL_CALL_COST),
                *closure,
                args@,
                *final(self),
                r,
            ),
        decreases old(self).fuel.limit - old(self).fuel.used, 1nat,
    {
        let ghost s0 = *self;
        match self.fuel.tick(FUEL_CALL_COST) {
            Ok(()) => {},
            Err(e) => {
                return Err(e);
            },
        }
        let ghost s1 = *self;
        assert(s1 == Self::ticked(s0, FUEL_CALL_COST));
        assert(args@.take(0) =~= Seq::<Expr>::empty());
        let function: &Function = &closure.function;
        if args.len() != function.params.len() {
            let name = function_name(function);
            return Err(wrong_arity(name.as_str(), function.params.len(), args.len()));
        }
        let mut values: Vec<Value> = Vec::new();
        let mut i: usize = 0;
        while i < args.len()
            invariant
                self.step(old(self), Ok::<(), LangError>(())),
                self.locals_kept(old(self)),
                self.fuel.used >= old(self).fuel.used + FUEL_CALL_COST + i,
                args@.len() == closure.function.params@.len(),
                i <= args@.len(),
                values@.len() == i,
                s0 == *old(self),
                s1 == Self::ticked(s0, FUEL_CALL_COST),
                !Self::overruns(s0, FUEL_CALL_COST),
                Self::list_rel(s1, args@.take(i as int), *self, Ok::<Seq<Value>, LangError>(values@)),
            decreases args@.len() - i,
        {
            let ghost m = *self;
            let ghost vs = values@;
            let rr = self.eval(&args[i]);
            proof {
                let next = args@.take(i as int + 1);
                assert(next.drop_last() =~= args@.take(i as int));
                assert(next.last() == args@[i as int]);
                Self::lemma_list_step(s1, next, m, vs, *self, rr);
            }
            match rr {
                Ok(v) => {
                    values.push(v);
                },
                Err(e) => {
                    proof {
                        Self::lemma_list_err_from(s1, args@, i as int + 1, *self, e);
                        assert(Self::mid(*self, (Err::<Seq<Value>, LangError>(e), *self)));
                    }
                    return Err(e);
                },
            }
            i = i + 1;
        }
        assert(args@.take(i as int) =~= args@);
        let ghost m = *self;
        let ghost vs = values@;
        if self.tracing() {
            let name = function_name(function);
            let copied = copy_items(&values);
            let kind = EventKind::Call { name, args: copied };
            let ghost k = kind;
            self.push_event(kind);
            assert(Self::pushed(m, *self, k));
        }
        let ghost m1 = *self;
        assert(Self::called(m, m1, function_label(*closure.function), vs));
        let caller_line = self.current_line;
        if self.depth >= MAX_CALL_DEPTH {
            let e = LangError::CallDepthExceeded { limit: MAX_CALL_DEPTH };
            assert(Self::call_body_rel(m1, *closure, vs, *self, Err::<Value, LangError>(e)));
            assert(Self::mid(m, (Ok::<Seq<Value>, LangError>(vs), m1)));
            assert(Self::call_rel(s1, *closure, args@, *self, Err::<Value, LangError>(e)));
            return Err(e);
        }
        self.depth = self.depth + 1;
        let caller_locals = self.env.split_off(1);
        let mut captures = copy_bindings(&closure.captures);
        match &function.name {
            Some(n) => {
                bind_entry(&mut captures, n.clone(), Value::Function(Rc::clone(closure)));
            },
            None => {},
        }
        let ghost caps = scope_view(captures);
        self.env.push_bindings(captures);
        self.env.push_scope();
        let ghost before_params = self.env@;
        assert(before_params =~= seq![m1.env@[0], caps, ScopeView::empty()]);
        self.env.declare_all(&function.params, &values);
        let ghost mid = self.env@;
        let ghost b = *self;
        proof {
            let p1 = Seq::new(function.params@.len(), |i: int| (function.params@[i]@, values@[i]));
            let p2 = Seq::new(vs.len(), |i: int| (closure.function.params@[i]@, vs[i]));
            assert(p1 =~= p2);
            assert(b.env@.last() == bind_all(ScopeView::empty(), p2));
            assert(b.env@.drop_last() =~= seq![m1.env@[0], caps]);
            assert(b.env@ =~= b.env@.drop_last().push(b.env@.last()));
        }
        assert(b.env@ =~= Self::call_scopes(m1.env@, *closure, vs));
        let outcome = self.exec(&function.body);
        let ghost after = self.env@;
        let ghost m3 = *self;
        assert(Self::mid(b, (m3, outcome)));
        assert(Self::mid(m, (Ok::<Seq<Value>, LangError>(vs), m1)));
        self.env.restore(1, caller_locals);
        proof {
            assert(self.env@ =~= after.take(1) + old(self).env@.skip(1));
            assert(self.env@.skip(1) =~= old(self).env@.skip(1));
        }
        self.depth = self.depth - 1;
        let value = match outcome {
            Ok(Flow::Return(v)) => v,
            Ok(Flow::Value(_)) => {
                return Err(LangError::NoReturnValue { function: function_name(function) });
            },
            Err(e) => {
                return Err(e);
            },
        };
        let ghost m4 = *self;
        assert(m4.trace == m3.trace && m4.trace_truncated == m3.trace_truncated);
        assert(m4.fuel == m3.fuel && m4.depth == m1.depth && m4.current_line == m3.current_line);
        let ghost mut recorded_kind: Option<EventKind> = None;
        if self.tracing() {
            let name = function_name(function);
            let kind = EventKind::Return { name, value: value.clone() };
            proof {
                recorded_kind = Some(kind);
            }
            self.push_event(kind);
        }
        let ghost m5 = *self;
        self.current_line = caller_line;
        proof {
            match recorded_kind {
                Some(k) => {
                    assert(Self::pushed(m4, m5, k));
                    assert(Self::pushed(Interpreter { depth: m1.depth, ..m3 }, *self, k));
                    assert(k matches EventKind::Return { name: n, value: w } && n@
                        == function_label(*closure.function) && w == value);
                },
                None => {},
            }
        }
        assert(Self::returned(
            Interpreter { depth: m1.depth, ..m3 },
            *self,
            function_label(*closure.function),
            value,
        ));
        Ok(value)
    }

    /// Evaluate the single argument of a builtin.
    fn one_arg(&mut self, b: Builtin, args: &Vec<Expr>) -> (r: Result<Value, LangError>)
        requires
            old(self).wf(),
            old(self).fuel.used <= old(self).fuel.limit,
        ensures
            final(self).step(old(self), r),
            final(self).locals_kept(old(self)),
            args@.len() != 1 ==> *final(self) == *old(self) && (r matches Err(e) && arity_error(
                e,
                builtin_name(b),
                1,
                args@.len(),
            )),
            args@.len() == 1 ==> final(self).charged(old(self), r),
            args@.len() == 1 ==> Self::eval_rel(*old(self), args@[0], *final(self), r),
        decreases old(self).fuel.limit - old(self).fuel.used, 1nat,
    {
        if args.len() != 1 {
            return Err(wrong_arity(b.name(), 1, args.len()));
        }
        self.eval(&args[0])
    }

    /// Evaluate the two arguments of a builtin, left to right.
    fn two_args(&mut self, b: Builtin, args: &Vec<Expr>) -> (r: Result<(Value, Value), LangError>)
        requires
            old(self).wf(),
            old(self).fuel.used <= old(self).fuel.limit,
        ensures
            final(self).step(old(self), r),
            final(self).locals_kept(old(self)),
            args@.len() != 2 ==> *final(self) == *old(self) && (r matches Err(e) && arity_error(
                e,
                builtin_name(b),
                2,
                args@.len(),
            )),
            args@.len() == 2 ==> final(self).charged(old(self), r),
            args@.len() == 2 && r is Ok ==> final(self).fuel.used >= old(self).fuel.used + 2,
            args@.len() == 2 ==> Self::args2_rel(*old(self), args@[0], args@[1], *final(self), r),
        decreases old(self).fuel.limit - old(self).fuel.used, 1nat,
    {
        if args.len() != 2 {
            return Err(wrong_arity(b.name(), 2, args.len()));
        }
        let lx = self.eval(&args[0]);
        let ghost m = *self;
        let x = match lx {
            Ok(v) => v,
            Err(e) => {
                assert(Self::mid(m, (lx, lx)));
                assert(Self::args2_rel(*old(self), args@[0], args@[1], *self, Err::<(Value, Value), LangError>(e)));
                return Err(e);
            },
        };
        let ly = self.eval(&args[1]);
        assert(Self::mid(m, (lx, ly)));
        assert(Self::args2_rel(*old(self), args@[0], args@[1], *self, match ly {
            Ok(yv) => Ok::<(Value, Value), LangError>((x, yv)),
            Err(e) => Err::<(Value, Value), LangError>(e),
        }));
        let y = match ly {
            Ok(v) => v,
            Err(e) => {
                return Err(e);
            },
        };
        Ok((x, y))
    }

    /// What a builtin of one argument does once the argument gave `v`, in
    /// state `m`.
    pub closed spec fn builtin_after1(b: Builtin, v: Value, m: Self, t: Self, r: Result<
        Value,
        LangError,
    >) -> bool {
        match b {
            Builtin::Print => {
                &&& r == Ok::<Value, LangError>(v)
                &&& t.env == m.env && t.fuel == m.fuel && t.depth == m.depth
                &&& t.next_id == m.next_id && t.trace == m.trace
                &&& t.trace_truncated == m.trace_truncated && t.current_line == m.current_line
                &&& appended(m.host.output()@, t.host.output()@, printed::<H>(v))
            },
            Builtin::Str => t == m && match v {
                Value::Str(_) => r == Ok::<Value, LangError>(v),
                _ => r matches Ok(Value::Str(z)) && z@ == printed::<H>(v),
            },
            Builtin::Len => t == m && match v {
                Value::Str(x) => r == Ok::<Value, LangError>(
                    Value::Number(H::counted(x@.len() as u64)),
                ),
                Value::Array(xs) => r == Ok::<Value, LangError>(
                    Value::Number(H::counted(xs@.len() as u64)),
                ),
                Value::Dict(mp) => r == Ok::<Value, LangError>(
                    Value::Number(H::counted(mp@.len() as u64)),
                ),
                _ => r == Err::<Value, LangError>(
                    LangError::InvalidUnaryOp { op: "len", operand: type_label_of(v) },
                ),
            },
            Builtin::Keys => match v {
                Value::Dict(mp) => {
                    &&& t == Self::ticked(m, mp@.len() as u64)
                    &&& if Self::overruns(m, mp@.len() as u64) {
                        r == Err::<Value, LangError>(Self::out_of_fuel(m))
                    } else {
                        r matches Ok(Value::Array(ks)) && ks@.len() == mp@.len() && forall|i: int|
                            0 <= i < ks@.len() ==> key_of(#[trigger] ks@[i]) == Some(mp@[i].0)
                    }
                },
                _ => t == m && r == Err::<Value, LangError>(
                    LangError::InvalidUnaryOp { op: "keys", operand: type_label_of(v) },
                ),
            },
            _ => true,
        }
    }

    /// Evaluating two arguments, left to right, from `s`.
    pub closed spec fn args2_rel(s: Self, a: Expr, b: Expr, t: Self, r: Result<
        (Value, Value),
        LangError,
    >) -> bool
        decreases Self::remaining(s) + 1, a,
        via Self::args2_rel_decreases
    {
        exists|m: Self, lx: Result<Value, LangError>, ly: Result<Value, LangError>|
            #![trigger Self::mid(m, (lx, ly))]
            Self::mid(m, (lx, ly)) && Self::eval_rel(s, a, m, lx) && match lx {
                Err(e) => r == Err::<(Value, Value), LangError>(e) && t == m,
                Ok(x) => Self::remaining(m) <= Self::remaining(s) && Self::eval_rel(m, b, t, ly) && match ly {
                    Err(e) => r == Err::<(Value, Value), LangError>(e),
                    Ok(y) => r == Ok::<(Value, Value), LangError>((x, y)),
                },
            }
    }

    /// What a builtin does from `s`, its arguments counting right: the
    /// arguments are evaluated (for `print`, after its cost is charged),
    /// then the builtin does its work on their values.
    pub closed spec fn builtin_rel(b: Builtin, args: Seq<Expr>, s: Self, t: Self, r: Result<
        Value,
        LangError,
    >) -> bool
        decreases Self::remaining(s) + 2, args,
        via Self::builtin_rel_decreases
    {
        if Self::builtin_arity(b) == 1 {
            let pre = if b == Builtin::Print {
                Self::ticked(s, FUEL_PRINT_COST)
            } else {
                s
            };
            if b == Builtin::Print && Self::overruns(s, FUEL_PRINT_COST) {
                t == pre && r == Err::<Value, LangError>(Self::out_of_fuel(s))
            } else {
                exists|m: Self, lv: Result<Value, LangError>|
                    #![trigger Self::mid(m, lv)]
                    Self::mid(m, lv) && Self::eval_rel(pre, args[0], m, lv) && match lv {
                        Err(e) => r == Err::<Value, LangError>(e) && t == m,
                        Ok(v) => Self::builtin_after1(b, v, m, t, r),
                    }
            }
        } else if Self::builtin_arity(b) == 2 {
            exists|m: Self, la: Result<(Value, Value), LangError>|
                #![trigger Self::mid(m, la)]
                Self::mid(m, la) && Self::args2_rel(s, args[0], args[1], m, la) && match la {
                    Err(e) => r == Err::<Value, LangError>(e) && t == m,
                    Ok((x, y)) => Self::builtin_after2(b, x, y, m, t, r),
                }
        } else {
            t == s && r == Ok::<Value, LangError>(
                Value::Number(
                    H::counted(
                        if b == Builtin::GetOperations {
                            s.fuel.used
                        } else {
                            s.fuel.limit
                        },
                    ),
                ),
            )
        }
    }

    /// A builtin called with `n` arguments, not as many as it takes, from
    /// `s`: the arity error, and no argument evaluated; `print` charges its
    /// own cost first, and may run out of fuel doing so.
    pub closed spec fn builtin_misarity(b: Builtin, n: nat, s: Self, t: Self, r: Result<
        Value,
        LangError,
    >) -> bool {
        if b == Builtin::Print {
            &&& t == Self::ticked(s, FUEL_PRINT_COST)
            &&& if Self::overruns(s, FUEL_PRINT_COST) {
                r == Err::<Value, LangError>(Self::out_of_fuel(s))
            } else {
                r matches Err(e) && arity_error(e, builtin_name(b), 1, n)
            }
        } else {
            t == s && (r matches Err(e) && arity_error(e, builtin_name(b), Self::builtin_arity(b), n))
        }
    }

    /// One op per item of the copy `push` makes, plus one.
    pub open spec fn push_cost(len: nat) -> u64 {
        if len as u64 == u64::MAX {
            u64::MAX
        } else {
            (len as u64 + 1) as u64
        }
    }

    /// What a builtin of two arguments does once they gave `x` and `y`, in
    /// state `m`.
    pub closed spec fn builtin_after2(b: Builtin, x: Value, y: Value, m: Self, t: Self, r: Result<
        Value,
        LangError,
    >) -> bool {
        match b {
            Builtin::Push => match x {
                Value::Array(xs) => {
                    &&& t == Self::ticked(m, Self::push_cost(xs@.len()))
                    &&& if Self::overruns(m, Self::push_cost(xs@.len())) {
                        r == Err::<Value, LangError>(Self::out_of_fuel(m))
                    } else {
                        r matches Ok(Value::Array(ys)) && ys@ == xs@.push(y)
                    }
                },
                _ => t == m && r == Err::<Value, LangError>(
                    LangError::InvalidUnaryOp { op: "push", operand: type_label_of(x) },
                ),
            },
            Builtin::Has => t == m && match map_key_check(y) {
                Err(e) => r == Err::<Value, LangError>(e),
                Ok(k) => match x {
                    Value::Dict(mp) => r == Ok::<Value, LangError>(
                        Value::Bool(map_get(mp@, k) is Some),
                    ),
                    _ => r == Err::<Value, LangError>(
                        LangError::InvalidUnaryOp { op: "has", operand: type_label_of(x) },
                    ),
                },
            },
            Builtin::Remove => match map_key_check(y) {
                Err(e) => t == m && r == Err::<Value, LangError>(e),
                Ok(k) => match x {
                    Value::Dict(mp) => if Self::overruns(m, mp@.len() as u64) {
                        t == Self::ticked(m, mp@.len() as u64) && r == Err::<Value, LangError>(
                            Self::out_of_fuel(m),
                        )
                    } else if mp@.len() >= usize::MAX / 16 {
                        r == Err::<Value, LangError>(Self::out_of_fuel(m))
                    } else {
                        t == Self::ticked(m, mp@.len() as u64) && (r matches Ok(Value::Dict(n))
                            && n@ == map_without(mp@, k))
                    },
                    _ => t == m && r == Err::<Value, LangError>(
                        LangError::InvalidUnaryOp { op: "remove", operand: type_label_of(x) },
                    ),
                },
            },
            Builtin::Array => match x {
                Value::Number(n) => match whole_of(n) {
                    None => t == m && (r matches Err(LangError::InvalidIndex(s)) && s@ == H::decimal(
                        n,
                    )@),
                    Some(k) => t == Self::ticked(m, k) && if Self::overruns(m, k) {
                        r == Err::<Value, LangError>(Self::out_of_fuel(m))
                    } else {
                        r matches Ok(Value::Array(xs)) && xs@.len() == k as usize && forall|i: int|
                            0 <= i < xs@.len() ==> #[trigger] xs@[i] == y
                    },
                },
                _ => t == m && (r matches Err(LangError::InvalidIndex(l)) && l@ == type_label_of(
                    x,
                )@),
            },
            _ => true,
        }
    }

    /// How many arguments a builtin takes.
    pub open spec fn builtin_arity(b: Builtin) -> nat {
        match b {
            Builtin::GetOperations | Builtin::GetOperationsLimit => 0,
            Builtin::Print | Builtin::Str | Builtin::Len | Builtin::Keys => 1,
            _ => 2,
        }
    }

    /// The kind of value a builtin gives back (`print` passes its argument
    /// through, whatever it is).
    pub open spec fn builtin_gives(b: Builtin, v: Value) -> bool {
        match b {
            Builtin::Print => true,
            Builtin::GetOperations | Builtin::GetOperationsLimit | Builtin::Len => v is Number,
            Builtin::Str => v is Str,
            Builtin::Array | Builtin::Push => v is Array,
            Builtin::Has => v is Bool,
            Builtin::Keys => v matches Value::Array(ks) && forall|i: int|
                0 <= i < ks@.len() ==> (#[trigger] key_of(ks@[i])) is Some,
            Builtin::Remove => v is Dict,
        }
    }

    /// Native functions provided by the host. In the closed-world design
    /// these are the only doors out of the sandbox, so each one is an
    /// explicit, hand-carved case — deny by default.
    fn call_builtin(&mut self, b: Builtin, args: &Vec<Expr>) -> (r: Result<Value, LangError>)
        requires
            old(self).wf(),
            old(self).fuel.used <= old(self).fuel.limit,
        ensures
            final(self).step(old(self), r),
            final(self).locals_kept(old(self)),
            args@.len() != Self::builtin_arity(b) ==> Self::builtin_misarity(
                b,
                args@.len(),
                *old(self),
                *final(self),
                r,
            ),
            r matches Ok(v) ==> Self::builtin_gives(b, v),
            (b == Builtin::GetOperations || b == Builtin::GetOperationsLimit) && args@.len() == 0
                ==> (r matches Ok(Value::Number(_)) && *final(self) == *old(self)),
            b == Builtin::Print && r is Ok ==> final(self).fuel.used >= old(self).fuel.used
                + FUEL_PRINT_COST + 1,
            b == Builtin::Push ==> (r matches Ok(Value::Array(ys)) ==> final(self).fuel.used
                >= old(self).fuel.used + 2 + ys@.len()),
            b != Builtin::GetOperations && b != Builtin::GetOperationsLimit && args@.len()
                == Self::builtin_arity(b) ==> final(self).charged(old(self), r),
            args@.len() == Self::builtin_arity(b) ==> Self::builtin_rel(
                b,
                args@,
                *old(self),
                *final(self),
                r,
            ),
        decreases old(self).fuel.limit - old(self).fuel.used, 2nat,
    {
        let ghost s0 = *self;
        match b {
            Builtin::Print => {
                match self.fuel.tick(FUEL_PRINT_COST) {
                    Ok(()) => {},
                    Err(e) => {
                        assert(*self == Self::ticked(s0, FUEL_PRINT_COST));
                        return Err(e);
                    },
                }
                assert(*self == Self::ticked(s0, FUEL_PRINT_COST));
                let lv = self.one_arg(b, args);
                let ghost m = *self;
                assert(Self::mid(m, lv));
                let value = match lv {
                    Ok(v) => v,
                    Err(e) => {
                        return Err(e);
                    },
                };
                let text = render(&self.host, &value);
                self.host.print(text.as_str());
                // No null: print passes its value through.
                Ok(value)
            },
            Builtin::GetOperations => {
                if args.len() != 0 {
                    return Err(wrong_arity(b.name(), 0, args.len()));
                }
                Ok(Value::Number(self.host.from_count(self.fuel.used)))
            },
            Builtin::GetOperationsLimit => {
                if args.len() != 0 {
                    return Err(wrong_arity(b.name(), 0, args.len()));
                }
                Ok(Value::Number(self.host.from_count(self.fuel.limit)))
            },
            Builtin::Str => {
                // Explicit conversion: "n = " + str(n).
                let lv = self.one_arg(b, args);
                assert(Self::mid(*self, lv));
                match lv {
                    Ok(Value::Str(text)) => Ok(Value::Str(text)),
                    Ok(other) => Ok(Value::Str(render(&self.host, &other))),
                    Err(e) => Err(e),
                }
            },
            Builtin::Len => {
                let lv = self.one_arg(b, args);
                assert(Self::mid(*self, lv));
                match lv {
                    // Unicode scalar count, not bytes: len("héllo") == 5.
                    Ok(Value::Str(text)) => {
                        let n = crate::text::chars_of(text.as_str()).len();
                        Ok(Value::Number(self.host.from_count(n as u64)))
                    },
                    Ok(Value::Array(items)) => Ok(
                        Value::Number(self.host.from_count(items.len() as u64)),
                    ),
                    Ok(Value::Dict(map)) => Ok(Value::Number(self.host.from_count(map.len() as u64))),
                    Ok(other) => Err(LangError::InvalidUnaryOp { op: "len", operand: other.type_label() }),
                    Err(e) => Err(e),
                }
            },
            Builtin::Array => {
                let la = self.two_args(b, args);
                let ghost m = *self;
                assert(Self::mid(m, la));
                let (count, fill) = match la {
                    Ok(p) => p,
                    Err(e) => {
                        return Err(e);
                    },
                };
                let n = match count {
                    Value::Number(n) => n,
                    other => {
                        return Err(LangError::InvalidIndex(other.type_label().to_owned()));
                    },
                };
                let whole = match whole_number(n) {
                    Some(w) => w,
                    None => {
                        return Err(LangError::InvalidIndex(self.host.format(n)));
                    },
                };
                // Pay for the allocation before making it.
                match self.fuel.tick(whole) {
                    Ok(()) => {},
                    Err(e) => {
                        assert(*self == Self::ticked(m, whole));
                        return Err(e);
                    },
                }
                assert(*self == Self::ticked(m, whole));
                let items: Vec<Value> = vec![fill; whole as usize];
                assert(items@.len() == whole as usize);
                proof {
                    assert forall|i: int| 0 <= i < items@.len() implies #[trigger] items@[i] == fill by {
                        assert(cloned(fill, items@[i]));
                    }
                }
                Ok(Value::Array(Rc::new(items)))
            },
            Builtin::Push => {
                let la = self.two_args(b, args);
                let ghost m = *self;
                assert(Self::mid(m, la));
                let (array, item) = match la {
                    Ok(p) => p,
                    Err(e) => {
                        return Err(e);
                    },
                };
                let items = match array {
                    Value::Array(items) => items,
                    other => {
                        return Err(
                            LangError::InvalidUnaryOp { op: "push", operand: other.type_label() },
                        );
                    },
                };
                // Value semantics: push returns a new array, one op per item.
                let cost = (items.len() as u64).saturating_add(1);
                assert(cost == Self::push_cost(items@.len()));
                match self.fuel.tick(cost) {
                    Ok(()) => {},
                    Err(e) => {
                        assert(*self == Self::ticked(m, cost));
                        return Err(e);
                    },
                }
                assert(*self == Self::ticked(m, cost));
                let mut copy = copy_items(&items);
                copy.push(item);
                Ok(Value::Array(Rc::new(copy)))
            },
            Builtin::Has => {
                let la = self.two_args(b, args);
                let ghost m = *self;
                assert(Self::mid(m, la));
                let (map, key) = match la {
                    Ok(p) => p,
                    Err(e) => {
                        return Err(e);
                    },
                };
                let k = match check_map_key(&key) {
                    Ok(k) => k,
                    Err(e) => {
                        return Err(e);
                    },
                };
                match map {
                    Value::Dict(m) => Ok(Value::Bool(m.get(&k).is_some())),
                    other => Err(LangError::InvalidUnaryOp { op: "has", operand: other.type_label() }),
                }
            },
            Builtin::Keys => {
                let lv = self.one_arg(b, args);
                let ghost m0 = *self;
                assert(Self::mid(m0, lv));
                let map = match lv {
                    Ok(v) => v,
                    Err(e) => {
                        return Err(e);
                    },
                };
                match map {
                    Value::Dict(m) => {
                        // Building the key array costs one op per key.
                        match self.fuel.tick(m.len() as u64) {
                            Ok(()) => {},
                            Err(e) => {
                                assert(*self == Self::ticked(m0, m@.len() as u64));
                                return Err(e);
                            },
                        }
                        assert(*self == Self::ticked(m0, m@.len() as u64));
                        let mut keys: Vec<Value> = Vec::new();
                        let n = m.len();
                        let mut i: usize = 0;
                        while i < n
                            invariant
                                n == m@.len(),
                                i <= n,
                                keys@.len() == i,
                                forall|j: int|
                                    0 <= j < i ==> key_of(#[trigger] keys@[j]) == Some(m@[j].0),
                            decreases n - i,
                        {
                            let (k, _) = m.entry(i);
                            keys.push(Value::from_key(k));
                            i = i + 1;
                        }
                        Ok(Value::Array(Rc::new(keys)))
                    },
                    other => Err(
                        LangError::InvalidUnaryOp { op: "keys", operand: other.type_label() },
                    ),
                }
            },
            Builtin::Remove => {
                let la = self.two_args(b, args);
                let ghost m0 = *self;
                assert(Self::mid(m0, la));
                let (map, key) = match la {
                    Ok(p) => p,
                    Err(e) => {
                        return Err(e);
                    },
                };
                let k = match check_map_key(&key) {
                    Ok(k) => k,
                    Err(e) => {
                        return Err(e);
                    },
                };
                match map {
                    Value::Dict(m) => {
                        // Value semantics: remove returns a new map, one op
                        // per entry.
                        match self.fuel.tick(m.len() as u64) {
                            Ok(()) => {},
                            Err(e) => {
                                assert(*self == Self::ticked(m0, m@.len() as u64));
                                return Err(e);
                            },
                        }
                        assert(*self == Self::ticked(m0, m@.len() as u64));
                        if m.len() >= usize::MAX / 16 {
                            return Err(self.exhaust());
                        }
                        let out = m.without(&k);
                        proof {
                            lemma_cloned_values(map_without(m@, k@), out@);
                        }
                        Ok(Value::Dict(Rc::new(out)))
                    },
                    other => Err(
                        LangError::InvalidUnaryOp { op: "remove", operand: other.type_label() },
                    ),
                }
            },
        }
    }

    /// `[a, b, c]`: one op per element on top of evaluating them.
    fn eval_array(&mut self, items: &Vec<Expr>) -> (r: Result<Value, LangError>)
        requires
            old(self).wf(),
            old(self).fuel.used <= old(self).fuel.limit,
        ensures
            final(self).step(old(self), r),
            final(self).locals_kept(old(self)),
            r matches Ok(v) ==> v matches Value::Array(xs) && xs@.len() == items@.len(),
            items@.len() == 0 ==> r is Ok && *final(self) == *old(self),
            items@.len() > 0 ==> final(self).charged(old(self), r),
            r is Ok ==> final(self).fuel.used >= old(self).fuel.used + 2 * items@.len(),
            Self::node_rel(*old(self), Expr::Array(*items), *final(self), r),
        decreases old(self).fuel.limit - old(self).fuel.used, 1nat,
    {
        let ghost s0 = *self;
        match self.fuel.tick(items.len() as u64) {
            Ok(()) => {},
            Err(e) => {
                assert(*self == Self::ticked(s0, items@.len() as u64));
                assert(Self::node_rel(s0, Expr::Array(*items), *self, Err::<Value, LangError>(e)));
                return Err(e);
            },
        }
        let ghost s1 = *self;
        assert(s1 == Self::ticked(s0, items@.len() as u64));
        assert(items@.take(0) =~= Seq::<Expr>::empty());
        let mut values: Vec<Value> = Vec::new();
        let mut i: usize = 0;
        while i < items.len()
            invariant
                self.step(old(self), Ok::<(), LangError>(())),
                self.locals_kept(old(self)),
                i <= items@.len(),
                values@.len() == i,
                self.fuel.used >= old(self).fuel.used + items@.len() + i,
                items@.len() == 0 ==> *self == *old(self),
                s0 == *old(self),
                s1 == Self::ticked(s0, items@.len() as u64),
                !Self::overruns(s0, items@.len() as u64),
                Self::list_rel(s1, items@.take(i as int), *self, Ok::<Seq<Value>, LangError>(values@)),
            decreases items@.len() - i,
        {
            let ghost m = *self;
            let ghost vs = values@;
            let rr = self.eval(&items[i]);
            proof {
                let next = items@.take(i as int + 1);
                assert(next.drop_last() =~= items@.take(i as int));
                assert(next.last() == items@[i as int]);
            }
            proof {
                let next = items@.take(i as int + 1);
                assert(next.drop_last() =~= items@.take(i as int));
                Self::lemma_list_step(s1, next, m, vs, *self, rr);
            }
            match rr {
                Ok(v) => {
                    values.push(v);
                    assert(values@ == vs.push(v));
                    assert(Self::list_rel(
                        s1,
                        items@.take(i as int + 1),
                        *self,
                        Ok::<Seq<Value>, LangError>(values@),
                    ));
                },
                Err(e) => {
                    assert(Self::list_rel(
                        s1,
                        items@.take(i as int + 1),
                        *self,
                        Err::<Seq<Value>, LangError>(e),
                    ));
                    proof {
                        Self::lemma_list_err_from(s1, items@, i as int + 1, *self, e);
                        assert(Self::mid(*self, Err::<Seq<Value>, LangError>(e)));
                    }
                    assert(Self::node_rel(s0, Expr::Array(*items), *self, Err::<Value, LangError>(e)));
                    return Err(e);
                },
            }
            i = i + 1;
        }
        assert(items@.take(i as int) =~= items@);
        assert(Self::mid(*self, Ok::<Seq<Value>, LangError>(values@)));
        let arr = Value::Array(Rc::new(values));
        assert(Self::node_rel(s0, Expr::Array(*items), *self, Ok::<Value, LangError>(arr)));
        Ok(arr)
    }

    /// `{k: v, ...}`: one op per entry; keys must be primitives (not NaN).
    fn eval_dict(&mut self, entries: &Vec<(Expr, Expr)>) -> (r: Result<Value, LangError>)
        requires
            old(self).wf(),
            old(self).fuel.used <= old(self).fuel.limit,
        ensures
            final(self).step(old(self), r),
            final(self).locals_kept(old(self)),
            r matches Ok(v) ==> v is Dict,
            entries@.len() == 0 ==> (r matches Ok(Value::Dict(m)) && m@.len() == 0),
            entries@.len() > 0 ==> final(self).charged(old(self), r),
            r is Ok ==> final(self).fuel.used >= old(self).fuel.used + 3 * entries@.len(),
            Self::node_rel(*old(self), Expr::Dict(*entries), *final(self), r),
        decreases old(self).fuel.limit - old(self).fuel.used, 1nat,
    {
        let ghost s0 = *self;
        match self.fuel.tick(entries.len() as u64) {
            Ok(()) => {},
            Err(e) => {
                assert(*self == Self::ticked(s0, entries@.len() as u64));
                return Err(e);
            },
        }
        let ghost s1 = *self;
        assert(s1 == Self::ticked(s0, entries@.len() as u64));
        assert(entries@.take(0) =~= Seq::<(Expr, Expr)>::empty());
        let mut map: PlayMap<Value> = PlayMap::new();
        let mut i: usize = 0;
        while i < entries.len()
            invariant
                self.step(old(self), Ok::<(), LangError>(())),
                self.locals_kept(old(self)),
                i <= entries@.len(),
                self.fuel.used >= old(self).fuel.used + entries@.len() + 2 * i,
                i == 0 ==> map@.len() == 0,
                s0 == *old(self),
                s1 == Self::ticked(s0, entries@.len() as u64),
                !Self::overruns(s0, entries@.len() as u64),
                Self::dict_rel(s1, entries@.take(i as int), *self, Ok::<Entries<Value>, LangError>(map@)),
            decreases entries@.len() - i,
        {
            let ghost m = *self;
            let ghost es = map@;
            let ghost next = entries@.take(i as int + 1);
            proof {
                assert(next.drop_last() =~= entries@.take(i as int));
                assert(next.last() == entries@[i as int]);
            }
            let lk = self.eval(&entries[i].0);
            let ghost m2 = *self;
            let key = match lk {
                Ok(v) => v,
                Err(e) => {
                    proof {
                        let lr = Ok::<Entries<Value>, LangError>(es);
                        assert(Self::mid(m, (lr, (m2, (lk, (m2, lk))))));
                        assert(Self::dict_rel(s1, next, *self, Err::<Entries<Value>, LangError>(e)));
                        Self::lemma_dict_err_from(s1, entries@, i as int + 1, *self, e);
                        assert(Self::mid(*self, Err::<Entries<Value>, LangError>(e)));
                    }
                    return Err(e);
                },
            };
            let lv = self.eval(&entries[i].1);
            let ghost m3 = *self;
            proof {
                let lr = Ok::<Entries<Value>, LangError>(es);
                assert(Self::mid(m, (lr, (m2, (lk, (m3, lv))))));
            }
            let value = match lv {
                Ok(v) => v,
                Err(e) => {
                    proof {
                        assert(Self::dict_rel(s1, next, *self, Err::<Entries<Value>, LangError>(e)));
                        Self::lemma_dict_err_from(s1, entries@, i as int + 1, *self, e);
                        assert(Self::mid(*self, Err::<Entries<Value>, LangError>(e)));
                    }
                    return Err(e);
                },
            };
            let k = match check_map_key(&key) {
                Ok(k) => k,
                Err(e) => {
                    proof {
                        assert(Self::dict_rel(s1, next, *self, Err::<Entries<Value>, LangError>(e)));
                        Self::lemma_dict_err_from(s1, entries@, i as int + 1, *self, e);
                        assert(Self::mid(*self, Err::<Entries<Value>, LangError>(e)));
                    }
                    return Err(e);
                },
            };
            if map.len() >= usize::MAX / 16 - 1 {
                let e = self.exhaust();
                proof {
                    assert(Self::dict_rel(s1, next, *self, Err::<Entries<Value>, LangError>(e)));
                    Self::lemma_dict_err_from(s1, entries@, i as int + 1, *self, e);
                    assert(Self::mid(*self, Err::<Entries<Value>, LangError>(e)));
                }
                return Err(e);
            }
            map.insert(k, value);
            assert(Self::dict_rel(s1, next, *self, Ok::<Entries<Value>, LangError>(map@)));
            i = i + 1;
        }
        assert(entries@.take(i as int) =~= entries@);
        assert(Self::mid(*self, Ok::<Entries<Value>, LangError>(map@)));
        Ok(Value::Dict(Rc::new(map)))
    }

    /// How indexing ends once the target gave `c` and the index gave `i`:
    /// an element of the array, or the value stored under the key.
    pub open spec fn index_outcome(c: Value, i: Value, res: Result<Value, LangError>) -> bool {
        match c {
            Value::Array(xs) => match index_position(i, xs@.len() as int) {
                Some(k) => res == Ok::<Value, LangError>(xs@[k]),
                None => res matches Err(e) && index_refused::<H>(i, xs@.len() as int, e),
            },
            Value::Dict(m) => match map_key_check(i) {
                Err(e) => res == Err::<Value, LangError>(e),
                Ok(kv) => match map_get(m@, kv) {
                    Some(v) => res == Ok::<Value, LangError>(v),
                    None => res matches Err(LangError::MissingKey(x)) && x@ == printed::<H>(i),
                },
            },
            _ => res == Err::<Value, LangError>(
                LangError::InvalidUnaryOp { op: "[]", operand: type_label_of(c) },
            ),
        }
    }

    /// `target[index]`: an array element or a map entry.
    fn eval_index(&mut self, target: &Expr, index: &Expr) -> (r: Result<Value, LangError>)
        requires
            old(self).wf(),
            old(self).fuel.used <= old(self).fuel.limit,
        ensures
            final(self).step(old(self), r),
            final(self).locals_kept(old(self)),
            final(self).charged(old(self), r),
            r is Ok ==> final(self).fuel.used >= old(self).fuel.used + 2,
            Self::node_rel(
                *old(self),
                Expr::Index { target: Box::new(*target), index: Box::new(*index) },
                *final(self),
                r,
            ),
        decreases old(self).fuel.limit - old(self).fuel.used, 1nat,
    {
        let ghost s0 = *self;
        let ghost node = Expr::Index { target: Box::new(*target), index: Box::new(*index) };
        let lr = self.eval(target);
        let ghost m = *self;
        assert(Self::mid(m, lr));
        let t = match lr {
            Ok(v) => v,
            Err(e) => {
                assert(Self::node_rel(s0, node, *self, Err::<Value, LangError>(e)));
                return Err(e);
            },
        };
        let rr = self.eval(index);
        assert(Self::mid(*self, rr));
        let i = match rr {
            Ok(v) => v,
            Err(e) => {
                assert(Self::node_rel(s0, node, *self, Err::<Value, LangError>(e)));
                return Err(e);
            },
        };
        let out = match &t {
            Value::Array(items) => match as_index(&self.host, &i, items.len()) {
                Ok(k) => {
                    let v = items[k].clone();
                    assert(items@[k as int] == v);
                    Ok(v)
                },
                Err(e) => Err(e),
            },
            Value::Dict(m) => {
                match check_map_key(&i) {
                    Ok(key) => match m.get(&key) {
                        Some(v) => Ok(v.clone()),
                        None => Err(LangError::MissingKey(render(&self.host, &i))),
                    },
                    Err(e) => Err(e),
                }
            },
            other => Err(LangError::InvalidUnaryOp { op: "[]", operand: other.type_label() }),
        };
        assert(Self::index_outcome(t, i, out));
        assert(Self::node_rel(s0, node, *self, out));
        out
    }

    /// How `&&` / `||` ends once its left operand gave `a` and, unless the
    /// left side decided, its right operand gave `b`.
    pub open spec fn logical_outcome(
        op: LogicalOp,
        a: Value,
        b: Option<Value>,
        res: Result<Value, LangError>,
    ) -> bool {
        match a {
            Value::Bool(x) => if x == (op == LogicalOp::Or) {
                b is None && res == Ok::<Value, LangError>(Value::Bool(x))
            } else {
                match b {
                    Some(Value::Bool(y)) => res == Ok::<Value, LangError>(Value::Bool(y)),
                    Some(other) => res == Err::<Value, LangError>(
                        LangError::InvalidUnaryOp {
                            op: logical_symbol(op),
                            operand: type_label_of(other),
                        },
                    ),
                    None => false,
                }
            },
            _ => b is None && res == Err::<Value, LangError>(
                LangError::InvalidUnaryOp { op: logical_symbol(op), operand: type_label_of(a) },
            ),
        }
    }

    /// `&&` and `||`: strict bools, short-circuit — when the left side
    /// decides, the right side is never evaluated, and never charged.
    fn eval_logical(&mut self, op: LogicalOp, left: &Expr, right: &Expr) -> (r: Result<
        Value,
        LangError,
    >)
        requires
            old(self).wf(),
            old(self).fuel.used <= old(self).fuel.limit,
        ensures
            final(self).step(old(self), r),
            final(self).locals_kept(old(self)),
            r matches Ok(v) ==> v is Bool,
            final(self).charged(old(self), r),
            r is Ok ==> exists|a: Value, b: Option<Value>| #[trigger] Self::logical_outcome(
                op,
                a,
                b,
                r,
            ),
            Self::node_rel(
                *old(self),
                Expr::Logical { op, left: Box::new(*left), right: Box::new(*right) },
                *final(self),
                r,
            ),
            *left matches Expr::Literal(Literal::Bool(x)) ==> (x == (op == LogicalOp::Or) && r is Ok
                ==> r == Ok::<Value, LangError>(Value::Bool(x)) && final(self).fuel.used == old(
                self,
            ).fuel.used + 1),
        decreases old(self).fuel.limit - old(self).fuel.used, 1nat,
    {
        let ghost s0 = *self;
        let ghost node = Expr::Logical { op, left: Box::new(*left), right: Box::new(*right) };
        let lr = self.eval(left);
        let ghost m = *self;
        assert(Self::mid(m, lr));
        let l = match lr {
            Ok(v) => v,
            Err(e) => {
                assert(Self::node_rel(s0, node, *self, Err::<Value, LangError>(e)));
                return Err(e);
            },
        };
        let lb = match l {
            Value::Bool(b) => b,
            other => {
                let e = LangError::InvalidUnaryOp { op: op.symbol(), operand: other.type_label() };
                assert(Self::logical_outcome(op, l, None, Err::<Value, LangError>(e)));
                assert(Self::node_rel(s0, node, *self, Err::<Value, LangError>(e)));
                return Err(e);
            },
        };
        match op {
            LogicalOp::And => {
                if !lb {
                    assert(Self::logical_outcome(
                        op,
                        l,
                        None,
                        Ok::<Value, LangError>(Value::Bool(false)),
                    ));
                    assert(Self::node_rel(s0, node, *self, Ok::<Value, LangError>(Value::Bool(false))));
                    return Ok(Value::Bool(false));
                }
            },
            LogicalOp::Or => {
                if lb {
                    assert(Self::logical_outcome(
                        op,
                        l,
                        None,
                        Ok::<Value, LangError>(Value::Bool(true)),
                    ));
                    assert(Self::node_rel(s0, node, *self, Ok::<Value, LangError>(Value::Bool(true))));
                    return Ok(Value::Bool(true));
                }
            },
        }
        assert(l == Value::Bool(op == LogicalOp::And));
        let rr = self.eval(right);
        assert(Self::mid(*self, rr));
        let out = match rr {
            Ok(Value::Bool(rb)) => Ok(Value::Bool(rb)),
            Ok(other) => Err(LangError::InvalidUnaryOp { op: op.symbol(), operand: other.type_label() }),
            Err(e) => Err(e),
        };
        assert(rr is Ok ==> Self::logical_outcome(op, l, Some(rr->Ok_0), out));
        assert(Self::node_rel(s0, node, *self, out));
        out
    }

    /// Strict binary operators: both sides evaluated, left first. A string
    /// concatenation is charged one op per byte of the result, so fuel
    /// bounds memory too.
    fn eval_binary(&mut self, op: BinaryOp, left: &Expr, right: &Expr) -> (r: Result<
        Value,
        LangError,
    >)
        requires
            old(self).wf(),
            old(self).fuel.used <= old(self).fuel.limit,
        ensures
            final(self).step(old(self), r),
            final(self).locals_kept(old(self)),
            r is Ok && (op == BinaryOp::Eq || op == BinaryOp::Ne || op == BinaryOp::Lt || op
                == BinaryOp::Le || op == BinaryOp::Gt || op == BinaryOp::Ge) ==> r->Ok_0 is Bool,
            final(self).charged(old(self), r),
            r is Ok ==> final(self).fuel.used >= old(self).fuel.used + 2,
            Self::node_rel(
                *old(self),
                Expr::Binary { op, left: Box::new(*left), right: Box::new(*right) },
                *final(self),
                r,
            ),
        decreases old(self).fuel.limit - old(self).fuel.used, 1nat,
    {
        let ghost s0 = *self;
        let ghost node = Expr::Binary { op, left: Box::new(*left), right: Box::new(*right) };
        let lr = self.eval(left);
        let ghost m = *self;
        assert(Self::mid(m, lr));
        let l = match lr {
            Ok(v) => v,
            Err(e) => {
                assert(Self::eval_rel(s0, *left, m, lr));
                assert(Self::node_rel(s0, node, *self, Err::<Value, LangError>(e)));
                return Err(e);
            },
        };
        let rr = self.eval(right);
        let ghost m2 = *self;
        assert(Self::mid(m2, rr));
        assert(Self::eval_rel(s0, *left, m, lr));
        let rv = match rr {
            Ok(v) => v,
            Err(e) => {
                assert(Self::eval_rel(m, *right, m2, rr));
                assert(Self::node_rel(s0, node, *self, Err::<Value, LangError>(e)));
                return Err(e);
            },
        };
        assert(Self::eval_rel(m, *right, m2, rr));
        let outcome = binary(&self.host, op, &l, &rv);
        let result = match outcome {
            Ok(v) => v,
            Err(e) => {
                assert(Self::binary_after(op, l, rv, m2, *self, outcome));
                assert(Self::node_rel(s0, node, *self, Err::<Value, LangError>(e)));
                return Err(e);
            },
        };
        assert(binary_outcome::<H>(op, l, rv, Ok::<Value, LangError>(result)));
        if op == BinaryOp::Add {
            match &result {
                Value::Str(text) => {
                    let st = text.as_str();
                    let n = st.len();
                    let cost = n as u64;
                    proof {
                        assert(l is Str && rv is Str);
                        assert(text@ == l->Str_0@ + rv->Str_0@);
                        assert(st@ == text@);
                        assert(n == st.spec_bytes().len() as usize);
                        assert(st.spec_bytes() == encode_utf8(st@));
                        assert(cost == (encode_utf8(l->Str_0@ + rv->Str_0@).len() as usize) as u64);
                    }
                    match self.fuel.tick(cost) {
                        Ok(()) => {},
                        Err(e) => {
                            assert(*self == Self::ticked(m2, cost));
                            assert(Self::binary_after(op, l, rv, m2, *self, Err::<Value, LangError>(e)));
                            assert(Self::node_rel(s0, node, *self, Err::<Value, LangError>(e)));
                            return Err(e);
                        },
                    }
                    assert(*self == Self::ticked(m2, cost));
                },
                _ => {},
            }
        }
        assert(Self::binary_after(op, l, rv, m2, *self, Ok::<Value, LangError>(result)));
        assert(Self::node_rel(s0, node, *self, Ok::<Value, LangError>(result)));
        Ok(result)
    }

    /// Conditions are strict: anything but a bool is a type error.
    fn eval_condition(&mut self, condition: &Expr) -> (r: Result<bool, LangError>)
        requires
            old(self).wf(),
            old(self).fuel.used <= old(self).fuel.limit,
        ensures
            final(self).step(old(self), r),
            final(self).locals_kept(old(self)),
            r is Ok ==> final(self).fuel.used > old(self).fuel.used,
            final(self).charged(old(self), r),
            *condition matches Expr::Literal(Literal::Bool(b)) ==> final(self).env == old(self).env
                && (r == Ok::<bool, LangError>(b) && final(self).fuel.used == old(self).fuel.used + 1
                || r matches Err(LangError::OutOfFuel { .. })),
            exists|lr: Result<Value, LangError>|
                #![trigger Self::mid(*final(self), lr)]
                Self::mid(*final(self), lr) && Self::eval_rel(
                    *old(self),
                    *condition,
                    *final(self),
                    lr,
                ) && r == Self::condition_of(lr),
        decreases old(self).fuel.limit - old(self).fuel.used, 1nat,
    {
        let lr = self.eval(condition);
        assert(Self::mid(*self, lr));
        match lr {
            Ok(Value::Bool(flag)) => Ok(flag),
            Ok(other) => Err(LangError::InvalidCondition { got: other.type_label() }),
            Err(e) => Err(e),
        }
    }

    /// Execute a statement; each costs one operation, charged first. A
    /// `var`, `=` or index write changes only the binding it names (besides
    /// what evaluating its operands did to global variables).
    fn exec(&mut self, stmt: &Stmt) -> (r: Result<Flow, LangError>)
        requires
            old(self).wf(),
            old(self).fuel.used <= old(self).fuel.limit,
        ensures
            final(self).step(old(self), r),
            final(self).charged(old(self), r),
            r is Ok ==> final(self).fuel.used > old(self).fuel.used,
            Self::overruns(*old(self), 1) ==> r == Err::<Flow, LangError>(Self::out_of_fuel(*old(self))),
            Self::simple_parts(*stmt) matches Some((e, line)) ==> (!Self::overruns(*old(self), 1)
                ==> exists|m: Self, lr: Result<Value, LangError>|
                #![trigger Self::mid(m, lr)]
                Self::mid(m, lr) && Self::eval_rel(Self::started(*old(self), line), e, m, lr)
                    && Self::simple_stmt_rel(*stmt, m, lr, *final(self), r)),
            *stmt matches Stmt::IndexAssign { name, index, value, line } ==> (!Self::overruns(
                *old(self),
                1,
            ) ==> Self::index_write_rel(Self::started(*old(self), line), name, index, value, *final(self), r)),
            *stmt matches Stmt::If { condition, else_branch, line, .. } ==> (!Self::overruns(
                *old(self),
                1,
            ) ==> exists|m: Self, lr: Result<Value, LangError>|
                #![trigger Self::mid(m, lr)]
                Self::mid(m, lr) && Self::eval_rel(Self::started(*old(self), line), condition, m, lr)
                    && match Self::condition_of(lr) {
                    Err(x) => r == Err::<Flow, LangError>(x) && *final(self) == m,
                    Ok(b) => !b && else_branch is None ==> r == Ok::<Flow, LangError>(
                        Flow::Value(None),
                    ) && final(self).env == m.env && final(self).fuel == m.fuel,
                }),
            Self::exec_rel(*old(self), *stmt, *final(self), r),
            r matches Ok(f) ==> match *stmt {
                Stmt::Expr { .. } => f matches Flow::Value(Some(_)),
                Stmt::Return { .. } => f is Return,
                Stmt::If { .. } => true,
                Stmt::Block(_) | Stmt::While { .. } => f is Return || f == Flow::Value(None),
                _ => f == Flow::Value(None),
            },
            stmt matches Stmt::Let { name, .. } ==> (r is Ok ==> exists|mid: Seq<ScopeView>, v: Value|
                #![trigger bind(mid.last(), name@, v)]
                {
                    &&& mid.len() == old(self).env@.len()
                    &&& mid.skip(1) == old(self).env@.skip(1)
                    &&& final(self).env@ == mid.update(
                        mid.len() - 1,
                        bind(mid.last(), name@, v),
                    )
                }),
            stmt matches Stmt::Assign { name, .. } ==> (r is Ok ==> exists|
                mid: Seq<ScopeView>,
                v: Value,
            |
                #![trigger rebind(mid, name@, v)]
                {
                    &&& mid.len() == old(self).env@.len()
                    &&& mid.skip(1) == old(self).env@.skip(1)
                    &&& scope_of(mid, name@) >= 0
                    &&& final(self).env@ == rebind(mid, name@, v)
                }),
            stmt matches Stmt::IndexAssign { name, .. } ==> (r is Ok ==> exists|
                mid: Seq<ScopeView>,
                v: Value,
                w: Value,
            |
                #![trigger rebind(mid, name@, v), written(lookup(mid, name@), v, w)]
                {
                    &&& mid.len() == old(self).env@.len()
                    &&& mid.skip(1) == old(self).env@.skip(1)
                    &&& scope_of(mid, name@) >= 0
                    &&& final(self).env@ == rebind(mid, name@, v)
                    &&& written(lookup(mid, name@), v, w)
                }),
        decreases old(self).fuel.limit - old(self).fuel.used, 0nat,
    {
        let ghost s0 = *self;
        match self.fuel.tick(1) {
            Ok(()) => {},
            Err(e) => {
                assert(*self == Self::ticked(s0, 1));
                return Err(e);
            },
        }
        match stmt {
            Stmt::Let { name, value, line } => {
                self.current_line = *line;
                assert(*self == Self::started(s0, *line));
                let lr = self.eval(value);
                assert(Self::mid(*self, lr));
                let v = match lr {
                    Ok(v) => v,
                    Err(e) => {
                        return Err(e);
                    },
                };
                let ghost mid = self.env@;
                let ghost gv = v;
                if self.tracing() {
                    self.push_event(EventKind::Assign { target: name.clone(), value: v.clone() });
                }
                self.env.declare(name.clone(), v);
                assert(self.env@ == mid.update(mid.len() - 1, bind(mid.last(), name@, gv)));
                Ok(Flow::Value(None))
            },
            Stmt::Assign { name, value, line } => {
                self.current_line = *line;
                assert(*self == Self::started(s0, *line));
                let lr = self.eval(value);
                assert(Self::mid(*self, lr));
                let v = match lr {
                    Ok(v) => v,
                    Err(e) => {
                        return Err(e);
                    },
                };
                let ghost mid = self.env@;
                let ghost gv = v;
                if self.tracing() {
                    self.push_event(EventKind::Assign { target: name.clone(), value: v.clone() });
                }
                proof {
                    crate::env::lemma_scope_of(self.env@, name@);
                }
                match self.env.assign(name, v) {
                    Ok(()) => {
                        assert(self.env@ == rebind(mid, name@, gv));
                        Ok(Flow::Value(None))
                    },
                    Err(e) => Err(e),
                }
            },
            Stmt::IndexAssign { name, index, value, line } => {
                assert(*self == Self::ticked(s0, 1));
                self.exec_index_assign(name, index, value, *line)
            },
            Stmt::Function(function) => {
                // A function statement binds its name to a function value;
                // redefining is allowed (REPL-friendly).
                assert(*self == Self::ticked(s0, 1));
                let lr = self.make_closure(function);
                let ghost m = *self;
                assert(Self::mid(m, lr));
                let v = match lr {
                    Ok(v) => v,
                    Err(e) => {
                        return Err(e);
                    },
                };
                match &function.name {
                    Some(n) => {
                        self.env.declare(n.clone(), v);
                    },
                    None => {},
                }
                assert(Self::rescoped(m, *self));
                assert(Self::exec_rel(s0, *stmt, *self, Ok::<Flow, LangError>(Flow::Value(None))));
                Ok(Flow::Value(None))
            },
            Stmt::Return { value, line } => {
                self.current_line = *line;
                assert(*self == Self::started(s0, *line));
                let lr = self.eval(value);
                assert(Self::mid(*self, lr));
                match lr {
                    Ok(v) => Ok(Flow::Return(v)),
                    Err(e) => Err(e),
                }
            },
            Stmt::Block(stmts) => {
                assert(*self == Self::ticked(s0, 1));
                let out = self.exec_block(stmts);
                assert(Self::exec_rel(s0, *stmt, *self, out));
                out
            },
            Stmt::If { condition, then_branch, else_branch, line } => {
                self.current_line = *line;
                assert(*self == Self::started(s0, *line));
                let flag = match self.eval_condition(condition) {
                    Ok(f) => f,
                    Err(e) => {
                        return Err(e);
                    },
                };
                let ghost m = *self;
                if self.tracing() {
                    self.push_event(EventKind::Branch { construct: "if", value: flag });
                }
                let ghost m2 = *self;
                assert(Self::recorded(m, m2, EventKind::Branch { construct: "if", value: flag }));
                assert(Self::mid(m2, flag));
                assert(Self::remaining(m2) < Self::remaining(s0));
                let out = if flag {
                    self.exec(then_branch)
                } else {
                    match else_branch {
                        Some(other) => self.exec(other),
                        None => Ok(Flow::Value(None)),
                    }
                };
                assert(Self::exec_rel(s0, *stmt, *self, out));
                out
            },
            Stmt::While { condition, body, line } => {
                assert(*self == Self::ticked(s0, 1));
                let out = self.exec_while(condition, body, *line);
                assert(Self::exec_rel(s0, *stmt, *self, out));
                out
            },
            Stmt::Expr { expr, line } => {
                self.current_line = *line;
                assert(*self == Self::started(s0, *line));
                let lr = self.eval(expr);
                assert(Self::mid(*self, lr));
                let v = match lr {
                    Ok(v) => v,
                    Err(e) => {
                        return Err(e);
                    },
                };
                if self.tracing() {
                    self.push_event(EventKind::Expr { value: v.clone() });
                }
                Ok(Flow::Value(Some(v)))
            },
        }
    }

    /// `{ ... }`: runs in its own scope, popped even on failure so a REPL
    /// session is not left inside a half-executed block. A `return` stops
    /// the block and keeps unwinding.
    fn exec_block(&mut self, stmts: &Vec<Stmt>) -> (r: Result<Flow, LangError>)
        requires
            old(self).wf(),
            old(self).fuel.used <= old(self).fuel.limit,
        ensures
            final(self).step(old(self), r),
            r matches Ok(f) ==> f is Return || f == Flow::Value(None),
            stmts@.len() == 0 ==> r == Ok::<Flow, LangError>(Flow::Value(None)) && final(self).fuel
                == old(self).fuel && final(self).env@ == old(self).env@ && final(self).events()
                == old(self).events(),
            stmts@.len() > 0 ==> final(self).charged(old(self), r),
            r matches Ok(Flow::Value(_)) ==> final(self).fuel.used >= old(self).fuel.used
                + stmts@.len(),
            exists|p: Self, m: Self, rb: Result<Flow, LangError>|
                #![trigger Self::mid(p, (m, rb))]
                {
                    &&& Self::mid(p, (m, rb))
                    &&& Self::rescoped(*old(self), p)
                    &&& p.env@ == old(self).env@.push(ScopeView::empty())
                    &&& Self::block_rel(p, stmts@, m, rb)
                    &&& Self::rescoped(m, *final(self))
                    &&& final(self).env@ == m.env@.drop_last()
                    &&& r == rb
                },
        decreases old(self).fuel.limit - old(self).fuel.used, 1nat,
    {
        self.env.push_scope();
        let ghost p = *self;
        assert(stmts@.take(0) =~= Seq::<Stmt>::empty());
        let mut i: usize = 0;
        while i < stmts.len()
            invariant
                old(self).env@.len() >= 1,
                self.fuel.limit == old(self).fuel.limit,
                old(self).fuel.used <= self.fuel.used <= self.fuel.limit,
                self.depth == old(self).depth,
                self.env@.len() == old(self).env@.len() + 1,
                trace_extends(old(self).trace, self.trace),
                old(self).trace_truncated ==> self.trace_truncated,
                self.wf(),
                i <= stmts@.len(),
                self.fuel.used >= old(self).fuel.used + i,
                i == 0 ==> self.fuel == old(self).fuel && self.trace == old(self).trace
                    && self.env@ == old(self).env@.push(ScopeView::empty()),
                Self::rescoped(*old(self), p),
                p.env@ == old(self).env@.push(ScopeView::empty()),
                Self::block_rel(
                    p,
                    stmts@.take(i as int),
                    *self,
                    Ok::<Flow, LangError>(Flow::Value(None)),
                ),
            decreases stmts@.len() - i,
        {
            let ghost m = *self;
            let rl = self.exec(&stmts[i]);
            proof {
                let next = stmts@.take(i as int + 1);
                assert(next.drop_last() =~= stmts@.take(i as int));
                assert(next.last() == stmts@[i as int]);
                Self::lemma_block_step(p, next, m, *self, rl);
            }
            match rl {
                Ok(Flow::Return(v)) => {
                    let ghost mm = *self;
                    proof {
                        Self::lemma_block_stop(p, stmts@, i as int + 1, mm, rl);
                        assert(Self::mid(p, (mm, rl)));
                    }
                    self.env.pop_scope();
                    return Ok(Flow::Return(v));
                },
                Ok(Flow::Value(_)) => {},
                Err(e) => {
                    let ghost mm = *self;
                    proof {
                        Self::lemma_block_stop(p, stmts@, i as int + 1, mm, rl);
                        assert(Self::mid(p, (mm, rl)));
                    }
                    self.env.pop_scope();
                    return Err(e);
                },
            }
            i = i + 1;
        }
        assert(stmts@.take(i as int) =~= stmts@);
        let ghost mm = *self;
        self.env.pop_scope();
        assert(Self::block_rel(p, stmts@, mm, Ok::<Flow, LangError>(Flow::Value(None))));
        assert(Self::mid(p, (mm, Ok::<Flow, LangError>(Flow::Value(None)))));
        Ok(Flow::Value(None))
    }

    /// `while (cond) { ... }`: the condition is re-evaluated (and
    /// re-charged) on every iteration, so even an empty loop burns fuel —
    /// that is the whole safety argument.
    fn exec_while(&mut self, condition: &Expr, body: &Stmt, line: usize) -> (r: Result<
        Flow,
        LangError,
    >)
        requires
            old(self).wf(),
            old(self).fuel.used <= old(self).fuel.limit,
        ensures
            final(self).step(old(self), r),
            r matches Ok(f) ==> f is Return || f == Flow::Value(None),
            final(self).charged(old(self), r),
            *condition matches Expr::Literal(Literal::Bool(false)) && !(r matches Err(
                LangError::OutOfFuel { .. },
            )) ==> r == Ok::<Flow, LangError>(Flow::Value(None)) && final(self).fuel.used == old(
                self,
            ).fuel.used + 1 && final(self).env == old(self).env,
            *condition matches Expr::Literal(Literal::Bool(true)) ==> !(r matches Ok(
                Flow::Value(_),
            )),
            Self::while_rel(*old(self), *condition, *body, line, *final(self), r),
        decreases old(self).fuel.limit - old(self).fuel.used, 2nat,
    {
        loop
            invariant
                self.step(old(self), Ok::<(), LangError>(())),
                *condition matches Expr::Literal(Literal::Bool(false)) ==> self.fuel.used == old(
                    self,
                ).fuel.used && self.env == old(self).env,
                forall|t: Self, r2: Result<Flow, LangError>|
                    #[trigger] Self::while_rel(*self, *condition, *body, line, t, r2)
                        ==> Self::while_rel(*old(self), *condition, *body, line, t, r2),
            decreases self.fuel.limit - self.fuel.used,
        {
            let ghost cur = *self;
            self.current_line = line;
            assert(*self == Self::at_line(cur, line));
            let flag = match self.eval_condition(condition) {
                Ok(f) => f,
                Err(e) => {
                    assert(Self::while_rel(cur, *condition, *body, line, *self, Err::<Flow, LangError>(e)));
                    return Err(e);
                },
            };
            let ghost m = *self;
            if self.tracing() {
                self.push_event(EventKind::Branch { construct: "while", value: flag });
            }
            let ghost m2 = *self;
            assert(Self::recorded(m, m2, EventKind::Branch { construct: "while", value: flag }));
            if !flag {
                assert(Self::while_rel(
                    cur,
                    *condition,
                    *body,
                    line,
                    *self,
                    Ok::<Flow, LangError>(Flow::Value(None)),
                ));
                return Ok(Flow::Value(None));
            }
            assert(Self::remaining(m2) < Self::remaining(cur));
            let rb = self.exec(body);
            let ghost m3 = *self;
            assert(Self::mid(m2, (m3, rb)));
            match rb {
                Ok(Flow::Return(v)) => {
                    assert(Self::while_rel(cur, *condition, *body, line, *self, rb));
                    return Ok(Flow::Return(v));
                },
                Ok(Flow::Value(_)) => {
                    assert(Self::remaining(m3) < Self::remaining(cur));
                    assert forall|t: Self, r2: Result<Flow, LangError>|
                        #[trigger] Self::while_rel(m3, *condition, *body, line, t, r2)
                            implies Self::while_rel(*old(self), *condition, *body, line, t, r2) by {
                        assert(Self::mid(m2, (m3, rb)));
                        assert(Self::while_rel(cur, *condition, *body, line, t, r2));
                    }
                },
                Err(e) => {
                    assert(Self::while_rel(cur, *condition, *body, line, *self, rb));
                    return Err(e);
                },
            }
        }
    }

    /// `name[index] = value`: write one element of an array or map variable.
    /// Copy-on-write: writing to a shared value pays for the copy it
    /// triggers (one op per element); an unshared one is a plain store.
    /// Only the binding of `name` changes (besides what evaluating the index
    /// and the value did to global variables): no other variable aliases it.
    fn exec_index_assign(&mut self, name: &String, index: &Expr, value: &Expr, line: usize) -> (r:
        Result<Flow, LangError>)
        requires
            old(self).wf(),
            old(self).fuel.used <= old(self).fuel.limit,
        ensures
            final(self).step(old(self), r),
            final(self).charged(old(self), r),
            r matches Ok(f) ==> f == Flow::Value(None),
            Self::index_write_rel(Self::at_line(*old(self), line), *name, *index, *value, *final(self), r),
            r is Ok ==> exists|mid: Seq<ScopeView>, v: Value, w: Value|
                #![trigger rebind(mid, name@, v), written(lookup(mid, name@), v, w)]
                {
                    &&& mid.len() == old(self).env@.len()
                    &&& mid.skip(1) == old(self).env@.skip(1)
                    &&& scope_of(mid, name@) >= 0
                    &&& final(self).env@ == rebind(mid, name@, v)
                    &&& written(lookup(mid, name@), v, w)
                },
        decreases old(self).fuel.limit - old(self).fuel.used, 1nat,
    {
        let ghost s0 = *self;
        self.current_line = line;
        assert(*self == Self::at_line(s0, line));
        let li = self.eval(index);
        let ghost m1 = *self;
        assert(Self::mid(m1, li));
        let idx = match li {
            Ok(v) => v,
            Err(e) => {
                return Err(e);
            },
        };
        let lw = self.eval(value);
        let ghost m2 = *self;
        assert(Self::mid(m2, lw));
        let val = match lw {
            Ok(v) => v,
            Err(e) => {
                return Err(e);
            },
        };
        // Capture the trace data before `val` is stored.
        let ghost mut shown_text: Seq<char> = Seq::empty();
        let traced: Option<(String, Value)> = if self.tracing() {
            let mut target = concat(name.as_str(), "[");
            let shown = render(&self.host, &idx);
            proof {
                shown_text = shown@;
            }
            push_str(&mut target, shown.as_str());
            push_str(&mut target, "]");
            Some((target, val.clone()))
        } else {
            None
        };
        assert(traced is Some <==> self.trace is Some);
        assert(traced matches Some(p) ==> p.0@ == name@ + "["@ + shown_text + "]"@ && p.1 == val
            && shown_text == printed::<H>(idx));
        let ghost mid = self.env@;
        let (d, p) = match self.env.find(name) {
            Some(dp) => dp,
            None => {
                return Err(LangError::UndefinedVariable(name.clone()));
            },
        };
        proof {
            crate::env::lemma_scope_of(self.env@, name@);
            crate::env::lemma_slot_of(self.env@[d as int], name@);
        }
        let slot = self.env.replace(d, p, Value::Bool(false));
        let ghost env1 = self.env@;
        let ghost before = slot;
        let ghost w = val;
        assert(lookup(mid, name@) == Some(before));
        let new_value = match slot {
            Value::Array(items) => {
                let ghost xs = items@;
                let i = match as_index(&self.host, &idx, items.len()) {
                    Ok(i) => i,
                    Err(e) => {
                        self.env.replace(d, p, Value::Array(items));
                        proof {
                            lemma_put_back(mid, d as int, p as int, Value::Bool(false), before);
                        }
                        return Err(e);
                    },
                };
                match Rc::try_unwrap(items) {
                    Ok(mut owned) => {
                        match self.fuel.tick(1) {
                            Ok(()) => {},
                            Err(e) => {
                                self.env.replace(d, p, Value::Array(Rc::new(owned)));
                                proof {
                                    lemma_put_back(mid, d as int, p as int, Value::Bool(false), before);
                                }
                                return Err(e);
                            },
                        }
                        owned.set(i, val);
                        assert(owned@ == xs.update(i as int, w));
                        assert(self.fuel == Self::ticked(m2, 1).fuel || self.fuel == Self::ticked(
                            m2,
                            Self::slot_count(before) as u64,
                        ).fuel);
                        Value::Array(Rc::new(owned))
                    },
                    Err(shared) => {
                        match self.fuel.tick(shared.len() as u64) {
                            Ok(()) => {},
                            Err(e) => {
                                self.env.replace(d, p, Value::Array(shared));
                                proof {
                                    lemma_put_back(mid, d as int, p as int, Value::Bool(false), before);
                                }
                                return Err(e);
                            },
                        }
                        let mut owned = copy_items(&shared);
                        owned.set(i, val);
                        assert(owned@ == xs.update(i as int, w));
                        assert(self.fuel == Self::ticked(m2, 1).fuel || self.fuel == Self::ticked(
                            m2,
                            Self::slot_count(before) as u64,
                        ).fuel);
                        Value::Array(Rc::new(owned))
                    },
                }
            },
            Value::Dict(map) => {
                let ghost m = map@;
                let key = match check_map_key(&idx) {
                    Ok(k) => k,
                    Err(e) => {
                        self.env.replace(d, p, Value::Dict(map));
                        proof {
                            lemma_put_back(mid, d as int, p as int, Value::Bool(false), before);
                        }
                        return Err(e);
                    },
                };
                match Rc::try_unwrap(map) {
                    Ok(mut owned) => {
                        match self.fuel.tick(1) {
                            Ok(()) => {},
                            Err(e) => {
                                self.env.replace(d, p, Value::Dict(Rc::new(owned)));
                                proof {
                                    lemma_put_back(mid, d as int, p as int, Value::Bool(false), before);
                                }
                                return Err(e);
                            },
                        }
                        if owned.len() >= usize::MAX / 16 - 1 {
                            self.env.replace(d, p, Value::Dict(Rc::new(owned)));
                            proof {
                                lemma_put_back(mid, d as int, p as int, Value::Bool(false), before);
                            }
                            return Err(self.exhaust());
                        }
                        let ghost k = key@;
                        owned.insert(key, val);
                        assert(owned@ == map_insert(m, k, w));
                        assert(self.fuel == Self::ticked(m2, 1).fuel || self.fuel == Self::ticked(
                            m2,
                            Self::slot_count(before) as u64,
                        ).fuel);
                        Value::Dict(Rc::new(owned))
                    },
                    Err(shared) => {
                        match self.fuel.tick(shared.len() as u64) {
                            Ok(()) => {},
                            Err(e) => {
                                self.env.replace(d, p, Value::Dict(shared));
                                proof {
                                    lemma_put_back(mid, d as int, p as int, Value::Bool(false), before);
                                }
                                return Err(e);
                            },
                        }
                        if shared.len() >= usize::MAX / 16 - 1 {
                            self.env.replace(d, p, Value::Dict(shared));
                            proof {
                                lemma_put_back(mid, d as int, p as int, Value::Bool(false), before);
                            }
                            return Err(self.exhaust());
                        }
                        let mut owned = shared.duplicate();
                        proof {
                            lemma_cloned_values(shared@, owned@);
                        }
                        let ghost k = key@;
                        owned.insert(key, val);
                        assert(owned@ == map_insert(m, k, w));
                        assert(self.fuel == Self::ticked(m2, 1).fuel || self.fuel == Self::ticked(
                            m2,
                            Self::slot_count(before) as u64,
                        ).fuel);
                        Value::Dict(Rc::new(owned))
                    },
                }
            },
            other => {
                let label = other.type_label();
                self.env.replace(d, p, other);
                proof {
                    lemma_put_back(mid, d as int, p as int, Value::Bool(false), before);
                }
                return Err(LangError::InvalidUnaryOp { op: "[]=", operand: label });
            },
        };
        let ghost nv = new_value;
        assert(written(Some(before), nv, w));
        assert(Self::written_at(Some(before), nv, idx, w));
        self.env.replace(d, p, new_value);
        proof {
            assert(env1[d as int][p as int].0 == name@);
            assert(env1[d as int].update(p as int, (name@, nv)) =~= mid[d as int].update(
                p as int,
                (name@, nv),
            ));
            assert(self.env@ =~= rebind(mid, name@, nv));
        }
        match traced {
            Some((target, v)) => {
                let ghost kind = EventKind::Assign { target, value: v };
                self.push_event(EventKind::Assign { target, value: v });
                assert(Self::pushed(Self::fueled(m2, self.fuel.used), *self, kind));
            },
            None => {},
        }
        assert(self.env@ == rebind(mid, name@, nv));
        assert(Self::index_stored(m2, *name, before, idx, w, *self));
        assert(written(lookup(mid, name@), nv, w));
        Ok(Flow::Value(None))
    }

    /// A syntax error as a run reports it: where `e` names a number token
    /// (the one kind of token that starts with a digit or a '.'), the token is shown
    /// as the host prints the number it denotes.
    fn respell_number(&self, e: LangError) -> (r: LangError)
        ensures
            respelled::<H>(e, r),
    {
        match e {
            LangError::UnexpectedToken { expected, found } => {
                let cs = chars_of(found.as_str());
                if cs.len() > 0 && (('0' <= cs[0] && cs[0] <= '9') || cs[0] == '.') {
                    let n = self.host.number(&found);
                    LangError::UnexpectedToken { expected, found: self.host.format(n) }
                } else {
                    LangError::UnexpectedToken { expected, found }
                }
            },
            other => other,
        }
    }

    /// Parse and execute a whole program; return the value of the last
    /// statement when it is an expression statement. The environment
    /// persists across calls (that is what makes a REPL stateful); the fuel
    /// budget resets on every call.
    pub fn run(&mut self, src: &str) -> (r: Result<Option<Value>, LangError>)
        requires
            old(self).wf(),
            src@.len() < usize::MAX,
        ensures
            final(self).wf(),
            final(self).budget() == old(self).budget(),
            final(self).scope_count() == old(self).scope_count(),
            final(self).call_depth() == 0 || final(self).call_depth() == old(self).call_depth(),
            r is Ok ==> final(self).ops() <= final(self).budget() && final(self).call_depth() == 0,
            names_budget(r, old(self).budget()),
            r matches Err(LangError::OutOfFuel { .. }) ==> final(self).exhausted(),
            old(self).events() is Some <==> final(self).events() is Some,
            match spec_lex(src@, 0) {
                Err(f) => r is Err && reports(r->Err_0, f) && *final(self) == *old(self),
                Ok(toks) => match g_program(lexed(toks), lexed_lines(src@, toks), 0) {
                    Err(f) => r is Err && (exists|e0: LangError|
                        #![trigger reports_syntax(e0, f, lexed(toks))]
                        reports_syntax(e0, f, lexed(toks)) && respelled::<H>(e0, r->Err_0))
                        && *final(self) == *old(self),
                    Ok(ss) => {
                        &&& exists|st: Self, stmts: Seq<Stmt>|
                            #![trigger Self::mid(st, stmts)]
                            Self::mid(st, stmts) && stmts_view(stmts) == ss && Self::fresh_run(
                                *old(self),
                                st,
                            ) && Self::program_rel(st, stmts, *final(self), r)
                        &&& (ss.len() == 0 ==> r == Ok::<Option<Value>, LangError>(None)
                            && final(self).ops() == 0)
                        &&& (r matches Ok(Some(_)) ==> ss.len() > 0 && (ss.last() is Expr
                            || ss.last() is If))
                        &&& (r is Ok && ss.len() > 0 && ss.last() is Expr ==> r matches Ok(
                            Some(_),
                        ))
                        &&& (r is Ok ==> forall|i: int|
                            0 <= i < ss.len() ==> !(#[trigger] ss[i] is Return))
                    },
                },
            },
    {
        let (tokens, lines) = match tokenize(src) {
            Ok(t) => t,
            Err(e) => {
                return Err(e);
            },
        };
        let ghost toks = spec_lex(src@, 0)->Ok_0;
        let ghost tv = tokens@;
        let ghost lv = lines@;
        let mut parser = Parser::new(tokens, lines);
        proof {
            assert forall|i: int| 0 <= i < lv.len() implies lv[i] == lexed_lines(src@, toks)[i] by {
                assert(tv[i].view_token() == toks[i].0);
            }
            assert(parser.toks() =~= lexed(toks));
            assert(parser.line_seq() =~= lexed_lines(src@, toks));
        }
        let program = match parser.parse_program() {
            Ok(p) => p,
            Err(e) => {
                return Err(self.respell_number(e));
            },
        };
        let ghost ss = g_program(lexed(toks), lexed_lines(src@, toks), 0)->Ok_0;
        proof {
            lemma_stmts_view_index(program@);
        }
        if self.tracing() {
            let fresh: Vec<TraceEvent> = Vec::new();
            self.trace = Some(fresh);
        }
        self.fuel.used = 0;
        self.depth = 0;
        self.current_line = 1;
        self.trace_truncated = false;
        let ghost st = *self;
        assert(Self::fresh_run(*old(self), st));
        assert(program@.take(0) =~= Seq::<Stmt>::empty());
        let mut last: Option<Value> = None;
        let mut i: usize = 0;
        while i < program.len()
            invariant
                self.wf(),
                self.fuel.limit == old(self).fuel.limit,
                self.fuel.used <= self.fuel.limit,
                self.depth == 0,
                self.env@.len() == old(self).env@.len(),
                old(self).trace is Some <==> self.trace is Some,
                i <= program@.len(),
                spec_lex(src@, 0) matches Ok(toks) && g_program(
                    lexed(toks),
                    lexed_lines(src@, toks),
                    0,
                ) is Ok,
                toks == spec_lex(src@, 0)->Ok_0,
                ss == g_program(lexed(toks), lexed_lines(src@, toks), 0)->Ok_0,
                ss.len() == program@.len(),
                i == 0 ==> self.fuel.used == 0 && last is None,
                last is Some ==> i > 0 && (program@[i - 1] is Expr || program@[i - 1] is If),
                i > 0 && program@[i - 1] is Expr ==> last is Some,
                forall|j: int| 0 <= j < i ==> !(#[trigger] program@[j] is Return),
                Self::fresh_run(*old(self), st),
                stmts_view(program@) == ss,
                Self::program_rel(st, program@.take(i as int), *self, Ok::<Option<Value>, LangError>(last)),
            decreases program@.len() - i,
        {
            let ghost m = *self;
            let ghost prev = last;
            let rl = self.exec(&program[i]);
            let ghost next = program@.take(i as int + 1);
            proof {
                assert(next.drop_last() =~= program@.take(i as int));
                assert(next.last() == program@[i as int]);
                assert(Self::mid(m, (Ok::<Option<Value>, LangError>(prev), rl)));
            }
            match rl {
                Ok(Flow::Value(v)) => {
                    last = v;
                    assert(!(program@[i as int] is Return));
                    assert(Self::program_rel(st, next, *self, Ok::<Option<Value>, LangError>(last)));
                },
                Ok(Flow::Return(_)) => {
                    let e = LangError::ReturnOutsideFunction;
                    proof {
                        assert(Self::program_rel(st, next, *self, Err::<Option<Value>, LangError>(e)));
                        Self::lemma_program_stop(st, program@, i as int + 1, *self, e);
                        assert(Self::mid(st, program@));
                    }
                    return Err(e);
                },
                Err(e) => {
                    proof {
                        assert(Self::program_rel(st, next, *self, Err::<Option<Value>, LangError>(e)));
                        Self::lemma_program_stop(st, program@, i as int + 1, *self, e);
                        assert(Self::mid(st, program@));
                    }
                    return Err(e);
                },
            }
            i = i + 1;
        }
        assert(program@.take(i as int) =~= program@);
        assert(Self::mid(st, program@));
        proof {
            assert forall|j: int| 0 <= j < ss.len() implies !(#[trigger] ss[j] is Return) by {
                assert(ss[j] == stmt_view(program@[j]));
            }
            if ss.len() > 0 {
                assert(ss.last() == stmt_view(program@[program@.len() - 1]));
            }
        }
        Ok(last)
    }

}

} // verus!
