//! The language's behaviour, end to end: programs in, values, errors,
//! operation counts and traces out.

use playscript::{DEFAULT_FUEL_LIMIT, EventKind, Host, Interpreter, LangError, TraceEvent, Value};

/// A host with Rust's `f64` arithmetic, as the command-line program has.
struct F64Host {
    lines: Vec<String>,
}

fn f(bits: u64) -> f64 {
    f64::from_bits(bits)
}

impl F64Host {
    pub fn new() -> F64Host {
        F64Host { lines: Vec::new() }
    }
}

impl Host for F64Host {
    fn denoted(spelling: String) -> u64 {
        spelling.parse::<f64>().map(f64::to_bits).unwrap_or(f64::NAN.to_bits())
    }

    fn sum(a: u64, b: u64) -> u64 {
        (f(a) + f(b)).to_bits()
    }

    fn difference(a: u64, b: u64) -> u64 {
        (f(a) - f(b)).to_bits()
    }

    fn product(a: u64, b: u64) -> u64 {
        (f(a) * f(b)).to_bits()
    }

    fn quotient(a: u64, b: u64) -> u64 {
        (f(a) / f(b)).to_bits()
    }

    fn remainder(a: u64, b: u64) -> u64 {
        // The result takes the sign of the dividend, like JS: -7 % 3 == -1.
        (f(a) % f(b)).to_bits()
    }

    fn counted(n: u64) -> u64 {
        (n as f64).to_bits()
    }

    fn decimal(a: u64) -> String {
        f(a).to_string()
    }

    fn output(&self) -> Vec<String> {
        self.lines.clone()
    }

    fn number(&self, spelling: &String) -> u64 {
        Self::denoted(spelling.clone())
    }

    fn add(&self, a: u64, b: u64) -> u64 {
        Self::sum(a, b)
    }

    fn sub(&self, a: u64, b: u64) -> u64 {
        Self::difference(a, b)
    }

    fn mul(&self, a: u64, b: u64) -> u64 {
        Self::product(a, b)
    }

    fn div(&self, a: u64, b: u64) -> u64 {
        Self::quotient(a, b)
    }

    fn rem(&self, a: u64, b: u64) -> u64 {
        Self::remainder(a, b)
    }

    fn from_count(&self, n: u64) -> u64 {
        Self::counted(n)
    }

    fn format(&self, a: u64) -> String {
        Self::decimal(a)
    }

    fn print(&mut self, text: &str) {
        println!("{text}");
        self.lines.push(text.to_string());
    }
}

fn new_interp(limit: u64) -> Interpreter<F64Host> {
    Interpreter::new(limit, F64Host::new())
}

/// Run a program with the default budget; return the raw outcome.
fn run(src: &str) -> Result<Option<Value>, LangError> {
    new_interp(DEFAULT_FUEL_LIMIT).run(src)
}

/// Run a program expected to succeed with a value; panic otherwise.
fn eval(src: &str) -> Value {
    match run(src) {
        Ok(Some(value)) => value,
        Ok(None) => panic!("program produced no value: {src:?}"),
        Err(e) => panic!("program errored: {src:?} -> {}", e.message()),
    }
}

/// Run a program expected to fail; return the error.
fn eval_err(src: &str) -> LangError {
    match run(src) {
        Err(e) => e,
        Ok(value) => panic!("expected an error from {src:?}, got {value:?}"),
    }
}

/// Operations consumed while running `src` (which must succeed).
fn ops(src: &str) -> u64 {
    let mut interp = new_interp(DEFAULT_FUEL_LIMIT);
    interp.run(src).expect("program should succeed");
    interp.fuel_used()
}

/// The trace of a traced run of `src` (which must succeed).
fn trace_of(src: &str) -> Vec<TraceEvent> {
    let mut interp = new_interp(DEFAULT_FUEL_LIMIT);
    interp.enable_tracing();
    interp.run(src).expect("program should succeed");
    interp.trace().expect("tracing is on").to_vec()
}

fn num(n: f64) -> Value {
    Value::Number(n.to_bits())
}

fn boolean(b: bool) -> Value {
    Value::Bool(b)
}

fn string(s: &str) -> Value {
    Value::Str(s.to_string())
}

// ---- expressions

#[test]
fn arithmetic_and_precedence() {
    assert_eq!(eval("1 + 2 * 3"), num(7.0));
    assert_eq!(eval("(1 + 2) * 3"), num(9.0));
    assert_eq!(eval("10 - 2 - 3"), num(5.0));
    assert_eq!(eval("2 * (3 + 4) - 1"), num(13.0));
}

#[test]
fn unary_minus_and_not() {
    assert_eq!(eval("-5 + 10"), num(5.0));
    assert_eq!(eval("- -5"), num(5.0));
    assert_eq!(eval("!true"), boolean(false));
    assert_eq!(eval("!(3 > 4)"), boolean(true));
}

#[test]
fn division_and_by_zero() {
    assert_eq!(eval("7 / 2"), num(3.5));
    assert!(matches!(eval_err("10 / 0"), LangError::DivisionByZero));
}

#[test]
fn comparisons_yield_bools() {
    assert_eq!(eval("1 < 2"), boolean(true));
    assert_eq!(eval("2 <= 2"), boolean(true));
    assert_eq!(eval("3 > 4"), boolean(false));
    assert_eq!(eval("5 >= 5"), boolean(true));
}

#[test]
fn equality_is_strict() {
    // No coercion: a number is never equal to a bool.
    assert_eq!(eval("1 == true"), boolean(false));
    assert_eq!(eval("1 == 1"), boolean(true));
    assert_eq!(eval("true == true"), boolean(true));
    assert_eq!(eval("1 != 2"), boolean(true));
    assert_eq!(eval("false != true"), boolean(true));
}

#[test]
fn modulo() {
    assert_eq!(eval("10 % 3"), num(1.0));
    assert_eq!(eval("7.5 % 2"), num(1.5));
    assert_eq!(eval("-7 % 3"), num(-1.0)); // sign of the dividend, like JS
    assert_eq!(eval("10 % 3 * 2"), num(2.0)); // same precedence as *
    assert!(matches!(eval_err("5 % 0"), LangError::DivisionByZero));
    assert!(matches!(eval_err(r#""a" % 2"#), LangError::InvalidBinaryOp { op: "%", .. }));
}

#[test]
fn logical_operators() {
    assert_eq!(eval("true && false"), boolean(false));
    assert_eq!(eval("true && true"), boolean(true));
    assert_eq!(eval("false || true"), boolean(true));
    assert_eq!(eval("false || false"), boolean(false));
    // Comparisons bind tighter than &&, && tighter than ||.
    assert_eq!(eval("1 < 2 && 2 < 3"), boolean(true));
    assert_eq!(eval("true || false && false"), boolean(true));
}

#[test]
fn logical_operators_short_circuit() {
    // The right side must never run: 1 / 0 would be an error.
    assert_eq!(eval("false && 1 / 0 == 0"), boolean(false));
    assert_eq!(eval("true || 1 / 0 == 0"), boolean(true));
}

#[test]
fn logical_operators_are_strict() {
    assert!(matches!(eval_err("1 && true"), LangError::InvalidUnaryOp { op: "&&", .. }));
    assert!(matches!(eval_err("true && 1"), LangError::InvalidUnaryOp { op: "&&", .. }));
    assert!(matches!(eval_err("0 || true"), LangError::InvalidUnaryOp { op: "||", .. }));
}

#[test]
fn line_comments() {
    assert_eq!(eval("1 + 1 // plus a comment"), num(2.0));
    assert_eq!(eval("// leading comment\n40 + 2"), num(42.0));
    assert_eq!(eval("var x = 1 // set x\nx + 1"), num(2.0));
    // // inside a string literal is not a comment.
    assert_eq!(eval(r#""a // b""#), string("a // b"));
    // A comment-only program runs and produces no value.
    assert!(matches!(run("// nothing"), Ok(None)));
}

#[test]
fn type_errors_on_bad_operands() {
    assert!(matches!(eval_err("true + 1"), LangError::InvalidBinaryOp { op: "+", .. }));
    assert!(matches!(eval_err("-true"), LangError::InvalidUnaryOp { op: "-", .. }));
    assert!(matches!(eval_err("!1"), LangError::InvalidUnaryOp { op: "!", .. }));
    assert!(matches!(eval_err("true < false"), LangError::InvalidBinaryOp { op: "<", .. }));
    assert!(matches!(eval_err("1 < true"), LangError::InvalidBinaryOp { op: "<", .. }));
}

// ---- control flow

#[test]
fn variables_and_reassignment() {
    assert_eq!(eval("var x = 5; x * 2"), num(10.0));
    assert_eq!(eval("var x = 1; x = x + 4; x"), num(5.0));
}

#[test]
fn assigning_undeclared_is_an_error() {
    assert!(matches!(eval_err("y = 3"), LangError::UndefinedVariable(_)));
}

#[test]
fn reading_undefined_is_an_error() {
    assert!(matches!(eval_err("z + 1"), LangError::UndefinedVariable(_)));
}

#[test]
fn block_scope_shadowing_dies_with_the_block() {
    // The inner `var x` shadows, then vanishes when the block ends.
    assert_eq!(eval("var x = 1; { var x = 2 }; x"), num(1.0));
}

#[test]
fn assignment_reaches_outer_scope() {
    // `=` walks outward and finds the existing binding.
    assert_eq!(eval("var x = 1; { x = 2 }; x"), num(2.0));
}

#[test]
fn if_else_if_else_chain() {
    let prog = |n: i32| {
        format!("var n = {n}; if (n > 0) {{ n = 1 }} else if (n == 0) {{ n = 42 }} else {{ n = 3 }}; n")
    };

    assert_eq!(eval(&prog(5)), num(1.0));
    assert_eq!(eval(&prog(0)), num(42.0));
    assert_eq!(eval(&prog(-5)), num(3.0));
}

#[test]
fn condition_must_be_bool() {
    assert!(matches!(eval_err("if (1) { 2 }"), LangError::InvalidCondition { got: "number" }));
    assert!(matches!(eval_err("while (1) { }"), LangError::InvalidCondition { got: "number" }));
}

#[test]
fn while_loop_sums() {
    assert_eq!(
        eval("var s = 0; var i = 1; while (i <= 100) { s = s + i; i = i + 1 }; s"),
        num(5050.0),
    );
}

// ---- functions

#[test]
fn call_and_arguments() {
    assert_eq!(eval("function add(a, b) { return a + b } add(2, 3)"), num(5.0));
}

#[test]
fn recursion() {
    let fib = "function fib(n) { if (n < 2) { return n } return fib(n - 1) + fib(n - 2) }";
    assert_eq!(eval(&format!("{fib} fib(15)")), num(610.0));
}

#[test]
fn functions_can_mutate_globals() {
    assert_eq!(
        eval("var c = 0; function bump() { c = c + 1; return c } bump(); bump(); c"),
        num(2.0),
    );
}

#[test]
fn return_escapes_nested_loop_and_if() {
    let prog = "function first(limit) { var i = 0; while (true) { if (i * i >= limit) { return i } i = i + 1 } } first(1000)";
    assert_eq!(eval(prog), num(32.0));
}

#[test]
fn scoping_is_lexical_not_dynamic() {
    // f() must NOT see the caller's local z. Dynamic scoping would return 5.
    assert!(matches!(
        eval_err("function f() { return z } { var z = 5; f() }"),
        LangError::UndefinedVariable(_),
    ));
}

#[test]
fn arity_is_checked() {
    assert!(matches!(
        eval_err("function g(a) { return a } g(1, 2)"),
        LangError::WrongArity { expected: 1, got: 2, .. },
    ));
}

#[test]
fn calling_unknown_function() {
    // Functions are variables now, so an unknown callee is an unknown name.
    assert!(matches!(eval_err("boom(1)"), LangError::UndefinedVariable(_)));
}

#[test]
fn function_must_return_a_value() {
    assert!(matches!(
        eval_err("function h() { var x = 1 } h()"),
        LangError::NoReturnValue { .. },
    ));
}

#[test]
fn return_outside_function_is_rejected() {
    assert!(matches!(eval_err("return 5"), LangError::ReturnOutsideFunction));
}

// ---- first class

#[test]
fn functions_are_values() {
    assert_eq!(
        eval("function double(x) { return x * 2 } function apply(f, x) { return f(x) } apply(double, 3)"),
        num(6.0),
    );
}

#[test]
fn lambdas() {
    assert_eq!(eval("var inc = x => x + 1; inc(41)"), num(42.0));
    assert_eq!(eval("var add = (a, b) => a + b; add(1, 2)"), num(3.0));
    assert_eq!(eval("var f = () => 7; f()"), num(7.0));
    // Block body with explicit return.
    assert_eq!(eval("var sign = n => { if (n < 0) { return -1 } return 1 }; sign(-5)"), num(-1.0));
    // Immediately invoked.
    assert_eq!(eval("(x => x * 2)(21)"), num(42.0));
}

#[test]
fn globals_stay_live_locals_are_captured_by_value() {
    // Top-level variables are globals: closures see them LIVE (this is also
    // what makes recursion and global counters work).
    assert_eq!(eval("var y = 10; var f = x => x + y; y = 999; f(1)"), num(1000.0));

    // Locals are captured BY VALUE at creation: the closure snapshots y,
    // later writes are invisible to it. No aliasing, ever.
    let prog = r#"
        function make() {
            var y = 10;
            var f = x => x + y;
            y = 999;
            return f
        }

        make()(1)
    "#;
    assert_eq!(eval(prog), num(11.0));
}

#[test]
fn calls_chain_as_postfix() {
    assert_eq!(eval("var fs = [x => x + 1, x => x * 10]; fs[1](5)"), num(50.0));
    assert_eq!(eval("var make = n => (x => x + n); make(100)(1)"), num(101.0));
}

#[test]
fn map_written_in_playscript() {
    let prog = r#"
        function map(arr, f) {
            var out = array(len(arr), 0);
            var i = 0;

            while (i < len(arr)) {
                out[i] = f(arr[i]);
                i = i + 1
            }

            return out
        }

        map([1, 2, 3], x => x * 2)
    "#;
    assert_eq!(eval(prog), eval("[2, 4, 6]"));
}

#[test]
fn maybe_monad() {
    // The user's goal: monads. Maybe as arrays — [] is None, [x] is Just x.
    // The inner lambda capturing `a` is exactly what closures are for.
    let maybe = r#"
        function unit(x) { return [x] }
        function bind(m, f) { if (len(m) == 0) { return [] } return f(m[0]) }
        function safediv(a, b) { if (b == 0) { return [] } return [a / b] }
    "#;

    // Happy path: 20 / 2 / 5 = 2.
    assert_eq!(
        eval(&format!("{maybe} bind(bind(unit(20), x => safediv(x, 2)), y => safediv(y, 5))")),
        eval("[2]"),
    );
    // Division by zero mid-chain: the whole chain collapses to None.
    assert_eq!(
        eval(&format!("{maybe} bind(bind(unit(20), x => safediv(x, 0)), y => safediv(y, 5))")),
        eval("[]"),
    );
    // Nested binds where the inner lambda captures `a`.
    assert_eq!(
        eval(&format!("{maybe} bind(unit(6), a => bind(unit(7), b => unit(a * b)))")),
        eval("[42]"),
    );
}

#[test]
fn named_functions_still_recurse() {
    // Local named functions can call themselves (self-binding at call time).
    let prog = r#"
        function outer(n) {
            function fact(k) { if (k <= 1) { return 1 } return fact(k - 1) * k }
            return fact(n)
        }

        outer(5)
    "#;
    assert_eq!(eval(prog), num(120.0));
}

#[test]
fn builtins_are_values_too() {
    assert_eq!(eval("var l = len; l([1, 2])"), num(2.0));
    assert_eq!(eval("str(print)"), string("<builtin print>"));
}

#[test]
fn function_equality_is_identity() {
    assert_eq!(eval("var f = x => x; var g = f; f == g"), boolean(true));
    assert_eq!(eval("(x => x) == (x => x)"), boolean(false));
    assert_eq!(eval("var f = x => x; f == 1"), boolean(false));
}

#[test]
fn display_of_functions() {
    assert_eq!(eval("function f() { return 1 } str(f)"), string("<function f>"));
    assert_eq!(eval("str(x => x)"), string("<lambda>"));
}

#[test]
fn calling_a_non_function_is_an_error() {
    assert!(matches!(eval_err("5(1)"), LangError::InvalidUnaryOp { op: "()", .. }));
    assert!(matches!(eval_err(r#""f"(1)"#), LangError::InvalidUnaryOp { op: "()", .. }));
}

#[test]
fn lambda_arity_is_checked() {
    assert!(matches!(
        eval_err("(x => x)(1, 2)"),
        LangError::WrongArity { expected: 1, got: 2, .. },
    ));
}

// ---- arrays

#[test]
fn literals_and_indexing() {
    assert_eq!(eval("[1, 2, 3][0]"), num(1.0));
    assert_eq!(eval("var a = [1, 2, 3]; a[1] + a[2]"), num(5.0));
    assert_eq!(eval("[[1, 2], [3, 4]][1][0]"), num(3.0));
    assert_eq!(eval(r#"["a", "b"][1]"#), string("b"));
}

#[test]
fn index_writes() {
    assert_eq!(eval("var a = [1, 2, 3]; a[1] = 9; a[1]"), num(9.0));
    assert_eq!(eval("var a = [0]; a[0] = a[0] + 1; a[0] = a[0] + 1; a[0]"), num(2.0));
}

#[test]
fn value_semantics_assignment_copies() {
    // THE design decision: `var b = a` copies (copy-on-write), so writing
    // through b never touches a. No observable aliasing, ever.
    assert_eq!(eval("var a = [1, 2, 3]; var b = a; b[0] = 99; a[0]"), num(1.0));
    assert_eq!(eval("var a = [1, 2, 3]; var b = a; b[0] = 99; b[0]"), num(99.0));
}

#[test]
fn value_semantics_function_arguments_do_not_alias() {
    let prog = "var a = [1]; function f(x) { x[0] = 99; return x[0] } f(a); a[0]";
    assert_eq!(eval(prog), num(1.0));
}

#[test]
fn equality_is_structural() {
    assert_eq!(eval("[1, 2] == [1, 2]"), boolean(true));
    assert_eq!(eval("[1, 2] == [1, 3]"), boolean(false));
    assert_eq!(eval("[[1], [2]] == [[1], [2]]"), boolean(true));
    assert_eq!(eval("[1] == 1"), boolean(false));
}

#[test]
fn arrays_are_not_ordered() {
    assert!(matches!(eval_err("[1] < [2]"), LangError::InvalidBinaryOp { op: "<", .. }));
}

#[test]
fn display_via_str() {
    assert_eq!(eval("str([1, [2, 3], true])"), string("[1, [2, 3], true]"));
}

#[test]
fn builtins_len_array_push() {
    assert_eq!(eval("len([1, 2, 3])"), num(3.0));
    assert_eq!(eval("len(array(5, 0))"), num(5.0));
    assert_eq!(eval("var a = array(2, 7); a[0] + a[1]"), num(14.0));
    assert_eq!(eval("var a = [1]; a = push(a, 2); a[1]"), num(2.0));
    assert_eq!(eval("len(push([], 1))"), num(1.0));
}

#[test]
fn index_errors() {
    assert!(matches!(eval_err("[1, 2][5]"), LangError::IndexOutOfBounds { index: 5, len: 2 }));
    assert!(matches!(eval_err("var a = [1]; a[-1]"), LangError::InvalidIndex(_)));
    assert!(matches!(eval_err("[1][0.5]"), LangError::InvalidIndex(_)));
    assert!(matches!(eval_err("[1][true]"), LangError::InvalidIndex(_)));
    assert!(matches!(eval_err("5[0]"), LangError::InvalidUnaryOp { op: "[]", .. }));
    assert!(matches!(eval_err("var x = 1; x[0] = 2"), LangError::InvalidUnaryOp { op: "[]=", .. }));
}

#[test]
fn invalid_assignment_targets() {
    assert!(matches!(eval_err("1 = 2"), LangError::InvalidAssignTarget));
    assert!(matches!(eval_err("[1][0] = 2"), LangError::InvalidAssignTarget));
}

#[test]
fn nested_write_via_read_modify_write() {
    // Single-level index assignment only (for now): nested writes go
    // through an explicit read-modify-write, in pure value-semantics style.
    let prog = "var m = [[0, 0], [0, 0]]; var row = m[1]; row[0] = 5; m[1] = row; m[1][0]";
    assert_eq!(eval(prog), num(5.0));
}

#[test]
fn iterative_fib_with_array() {
    let prog = r#"
        var f = array(79, 0);
        f[1] = 1;
        var i = 2;

        while (i < 79) {
            f[i] = f[i - 1] + f[i - 2];
            i = i + 1
        }

        f[78]
    "#;
    assert_eq!(eval(prog), num(8944394323791464.0));
}

#[test]
fn bubble_sort() {
    let prog = r#"
        var a = [5, 3, 8, 1, 9, 2];
        var n = len(a);
        var i = 0;

        while (i < n) {
            var j = 0;

            while (j < n - 1) {

                if (a[j] > a[j + 1]) {
                    var t = a[j];
                    a[j] = a[j + 1];
                    a[j + 1] = t
                }

                j = j + 1
            }

            i = i + 1
        }

        a
    "#;
    assert_eq!(eval(prog), eval("[1, 2, 3, 5, 8, 9]"));
}

// ---- strings

#[test]
fn literals_and_concatenation() {
    assert_eq!(eval(r#""foo" + "bar""#), string("foobar"));
    assert_eq!(eval(r#"var name = "leek"; "hello " + name"#), string("hello leek"));
}

#[test]
fn escapes() {
    assert_eq!(eval(r#""a\nb""#), string("a\nb"));
    assert_eq!(eval(r#""quote: \" backslash: \\""#), string("quote: \" backslash: \\"));
    assert!(matches!(eval_err(r#""bad \q""#), LangError::InvalidEscape('q')));
    assert!(matches!(eval_err(r#""no end"#), LangError::UnterminatedString));
}

#[test]
fn equality_is_structural_and_strict() {
    assert_eq!(eval(r#""a" == "a""#), boolean(true));
    assert_eq!(eval(r#""a" == "b""#), boolean(false));
    // Still no coercion: a string is never equal to a number.
    assert_eq!(eval(r#""1" == 1"#), boolean(false));
}

#[test]
fn ordering_is_lexicographic() {
    assert_eq!(eval(r#""abc" < "abd""#), boolean(true));
    assert_eq!(eval(r#""b" >= "a""#), boolean(true));
    assert!(matches!(eval_err(r#""a" < 1"#), LangError::InvalidBinaryOp { op: "<", .. }));
}

#[test]
fn no_implicit_conversion_in_concat() {
    assert!(matches!(eval_err(r#""n = " + 1"#), LangError::InvalidBinaryOp { op: "+", .. }));
    // The explicit path works.
    assert_eq!(eval(r#""n = " + str(1)"#), string("n = 1"));
    assert_eq!(eval(r#"str(true) + "!""#), string("true!"));
    assert_eq!(eval(r#"str("already")"#), string("already"));
}

#[test]
fn len_counts_unicode_chars() {
    assert_eq!(eval(r#"len("héllo")"#), num(5.0));
    assert_eq!(eval(r#"len("")"#), num(0.0));
    assert_eq!(eval(r#"len("a\nb")"#), num(3.0));
    assert!(matches!(eval_err("len(1)"), LangError::InvalidUnaryOp { op: "len", .. }));
}

#[test]
fn strings_flow_through_functions() {
    assert_eq!(
        eval(r#"function greet(name) { return "hello " + name } greet("world")"#),
        string("hello world"),
    );
}

#[test]
fn strings_are_not_conditions() {
    assert!(matches!(
        eval_err(r#"if ("truthy?") { 1 }"#),
        LangError::InvalidCondition { got: "string" },
    ));
}

#[test]
fn concat_is_charged_by_length_so_fuel_bounds_memory() {
    // A doubling loop must die of fuel exhaustion, not OOM the host:
    // each concatenation costs one op per byte of its result.
    let mut interp = new_interp(100_000);
    let bomb = r#"var s = "xxxxxxxxxxxxxxxx"; while (true) { s = s + s }"#;
    assert!(matches!(interp.run(bomb), Err(LangError::OutOfFuel { .. })));
}

// ---- maps

#[test]
fn literals_get_and_update() {
    assert_eq!(eval(r#"var m = {"a": 1, "b": 2}; m["a"] + m["b"]"#), num(3.0));
    assert_eq!(eval(r#"var m = {"x": 1}; m["x"] = 9; m["x"]"#), num(9.0));
    assert_eq!(eval(r#"len({"a": 1, "b": 2, "c": 3})"#), num(3.0));
    assert_eq!(eval("len({})"), num(0.0));
}

#[test]
fn keys_preserve_insertion_order() {
    // Not hash order: z, a, m stays z, a, m.
    assert_eq!(eval(r#"str(keys({"z": 1, "a": 2, "m": 3}))"#), string("[z, a, m]"));
    // Updating a key keeps its first position.
    assert_eq!(eval(r#"var m = {"a": 1, "b": 2}; m["a"] = 9; str(keys(m))"#), string("[a, b]"));
}

#[test]
fn value_semantics_copy_on_write() {
    assert_eq!(eval(r#"var a = {"x": 1}; var b = a; b["x"] = 9; a["x"]"#), num(1.0));
    // A function argument never aliases the caller's map.
    let prog = r#"var m = {"x": 1}; function f(g) { g["x"] = 9; return g["x"] } f(m); m["x"]"#;
    assert_eq!(eval(prog), num(1.0));
}

#[test]
fn equality_is_order_insensitive_but_strict() {
    assert_eq!(eval(r#"{"a": 1, "b": 2} == {"b": 2, "a": 1}"#), boolean(true));
    assert_eq!(eval(r#"{"a": 1} == {"a": 2}"#), boolean(false));
    assert_eq!(eval(r#"{"a": 1} == {"a": 1, "b": 2}"#), boolean(false));
    assert_eq!(eval(r#"{"a": 1} == [1]"#), boolean(false));
}

#[test]
fn mixed_primitive_keys() {
    assert_eq!(eval(r#"var m = {1: "one", true: "yes", "k": 3}; m[1]"#), string("one"));
    assert_eq!(eval(r#"{1: "one", true: "yes"}[true]"#), string("yes"));
}

#[test]
fn has_and_remove() {
    assert_eq!(eval(r#"has({"a": 1}, "a")"#), boolean(true));
    assert_eq!(eval(r#"has({"a": 1}, "z")"#), boolean(false));
    assert_eq!(eval(r#"len(remove({"a": 1, "b": 2}, "a"))"#), num(1.0));
    assert_eq!(eval(r#"has(remove({"a": 1}, "a"), "a")"#), boolean(false));
    // remove returns a new map; the one passed in is untouched.
    assert_eq!(eval(r#"var m = {"a": 1}; remove(m, "a"); len(m)"#), num(1.0));
}

#[test]
fn missing_key_is_an_error() {
    assert!(matches!(eval_err(r#"{"a": 1}["z"]"#), LangError::MissingKey(_)));
}

#[test]
fn non_primitive_keys_are_rejected() {
    assert!(matches!(eval_err(r#"var m = {}; m[[1]] = 2"#), LangError::InvalidMapKey { .. }));
    assert!(matches!(eval_err(r#"{[1]: 2}"#), LangError::InvalidMapKey { .. }));
}

#[test]
fn brace_is_map_or_block_by_content() {
    // A top-level ':' makes it a map expression; otherwise a block.
    assert_eq!(eval(r#"{"a": 1}["a"]"#), num(1.0));
    assert_eq!(eval("var x = 1; { var y = 2 }; x"), num(1.0));
    // The block after `if` is always a block, never a map.
    assert!(matches!(eval_err("if (true) { var z = 3 }; z"), LangError::UndefinedVariable(_)));
}

#[test]
fn word_count() {
    let prog = r#"
        var counts = {};
        var words = ["a", "b", "a", "a", "b"];
        var i = 0;

        while (i < len(words)) {
            var w = words[i];

            if (has(counts, w)) {
                counts[w] = counts[w] + 1
            } else {
                counts[w] = 1
            }

            i = i + 1
        }

        counts["a"]
    "#;
    assert_eq!(eval(prog), num(3.0));
}

// ---- fuel

#[test]
fn ops_are_a_stable_cost_tripwire() {
    // These exact counts are part of the language's observable behavior.
    // If the cost table changes, this test is meant to notice — the ops
    // counter is the logical clock a future replay reader seeks on.
    assert_eq!(ops("1 + 2 * 3"), 6);
    assert_eq!(ops("var s = 0; var i = 1; while (i <= 100) { s = s + i; i = i + 1 }; s"), 1210);
}

#[test]
fn execution_is_deterministic() {
    let prog = "var n = 0; while (getOperations() < 1000) { n = n + 1 }; n";

    let first = {
        let mut interp = new_interp(DEFAULT_FUEL_LIMIT);
        let value = interp.run(prog).unwrap();
        (value, interp.fuel_used())
    };

    let second = {
        let mut interp = new_interp(DEFAULT_FUEL_LIMIT);
        let value = interp.run(prog).unwrap();
        (value, interp.fuel_used())
    };

    assert_eq!(first, second);
    // 52 is pinned on purpose: a change here means the cost table (the
    // logical clock) moved, which any replay format must version.
    assert_eq!(first.0, Some(num(52.0)));
}

#[test]
fn infinite_loop_runs_out_of_fuel() {
    let mut interp = new_interp(50_000);
    let err = interp.run("while (true) { }").unwrap_err();
    assert!(matches!(err, LangError::OutOfFuel { limit: 50_000 }));
}

#[test]
fn recursion_is_bounded_by_fuel_too() {
    // A tiny budget stops even finite-but-heavy recursion before it finishes.
    let mut interp = new_interp(500);
    let fib = "function fib(n) { if (n < 2) { return n } return fib(n - 1) + fib(n - 2) } fib(30)";
    assert!(matches!(interp.run(fib), Err(LangError::OutOfFuel { .. })));
}

#[test]
fn print_returns_its_argument_and_costs_extra() {
    // print passes its value through (the Rust dbg! idiom)...
    assert_eq!(eval("print(5) * 2"), num(10.0));
    // ...and I/O is deliberately expensive.
    assert!(ops("print(0)") >= ops("0") + 100);
}

#[test]
fn get_operations_limit_reflects_the_budget() {
    assert_eq!(eval("getOperationsLimit()"), num(DEFAULT_FUEL_LIMIT as f64));
}

// ---- trace

#[test]
fn tracing_is_a_pure_observer() {
    // THE invariant: a traced run and a plain run agree on result AND on the
    // op-clock. Recording must never consume fuel, or the trace's timeline
    // would not match a normal run — and replay would drift.
    let prog = "function fib(n) { if (n < 2) { return n } return fib(n - 1) + fib(n - 2) } fib(8)";

    let mut plain = new_interp(DEFAULT_FUEL_LIMIT);
    let plain_result = plain.run(prog).unwrap();
    let plain_fuel = plain.fuel_used();

    let mut traced = new_interp(DEFAULT_FUEL_LIMIT);
    traced.enable_tracing();
    let traced_result = traced.run(prog).unwrap();
    let traced_fuel = traced.fuel_used();

    assert_eq!(plain_result, traced_result);
    assert_eq!(plain_fuel, traced_fuel);
    assert!(!traced.trace().unwrap().is_empty());
}

#[test]
fn the_op_clock_is_monotonic() {
    // Events are recorded in execution order and fuel only ever increases,
    // so the op stamps must be non-decreasing — the trace is a timeline.
    let trace = trace_of("var s = 0; var i = 0; while (i < 5) { s = s + i; i = i + 1 }");
    let ops: Vec<u64> = trace.iter().map(|e| e.op).collect();

    assert!(!ops.is_empty());
    assert!(ops.windows(2).all(|w| w[0] <= w[1]), "not monotonic: {ops:?}");
}

#[test]
fn assignments_capture_target_and_value() {
    let trace = trace_of("var x = 5; x = x + 1");

    let assigns: Vec<(String, Value)> = trace
        .iter()
        .filter_map(|e| match &e.kind {
            EventKind::Assign { target, value } => Some((target.clone(), value.clone())),
            _ => None,
        })
        .collect();

    assert_eq!(assigns, vec![("x".to_string(), num(5.0)), ("x".to_string(), num(6.0))]);
}

#[test]
fn index_assignments_render_the_slot() {
    let trace = trace_of("var a = [0, 0]; a[1] = 9");

    let last = trace
        .iter()
        .rev()
        .find_map(|e| match &e.kind {
            EventKind::Assign { target, value } => Some((target.clone(), value.clone())),
            _ => None,
        })
        .unwrap();

    assert_eq!(last, ("a[1]".to_string(), num(9.0)));
}

#[test]
fn calls_and_returns_nest_by_depth() {
    // f(2) -> f(1) -> f(0): three calls, deepening; three returns, matching.
    let trace = trace_of("function f(n) { if (n <= 0) { return 0 } return f(n - 1) } f(2)");

    let call_depths: Vec<usize> = trace
        .iter()
        .filter_map(|e| match e.kind {
            EventKind::Call { .. } => Some(e.depth),
            _ => None,
        })
        .collect();

    assert_eq!(call_depths, vec![0, 1, 2]);

    let returns = trace.iter().filter(|e| matches!(e.kind, EventKind::Return { .. })).count();
    assert_eq!(returns, 3);
}

#[test]
fn call_events_carry_the_arguments() {
    let trace = trace_of("function add(a, b) { return a + b } add(3, 4)");

    let call = trace
        .iter()
        .find_map(|e| match &e.kind {
            EventKind::Call { name, args } => Some((name.clone(), args.clone())),
            _ => None,
        })
        .unwrap();

    assert_eq!(call, ("add".to_string(), vec![num(3.0), num(4.0)]));
}

#[test]
fn branch_decisions_are_recorded() {
    // while runs the body twice, then the condition fails: true, true, false.
    let trace = trace_of("var i = 0; while (i < 2) { i = i + 1 }");

    let branches: Vec<bool> = trace
        .iter()
        .filter_map(|e| match e.kind {
            EventKind::Branch { value, .. } => Some(value),
            _ => None,
        })
        .collect();

    assert_eq!(branches, vec![true, true, false]);
}

// ---- the library's own promises, on concrete programs

#[test]
fn the_environment_persists_across_runs() {
    let mut interp = new_interp(DEFAULT_FUEL_LIMIT);
    assert!(matches!(interp.run("var x = 41"), Ok(None)));
    assert_eq!(interp.run("x + 1").unwrap(), Some(num(42.0)));
    // A failed run leaves the global scope usable and the blocks popped.
    assert!(interp.run("{ var y = 1; nope }").is_err());
    assert!(matches!(interp.run("y"), Err(LangError::UndefinedVariable(_))));
    assert_eq!(interp.run("x").unwrap(), Some(num(41.0)));
}

#[test]
fn the_budget_resets_on_every_run() {
    let mut interp = new_interp(100);
    assert!(interp.run("var i = 0; while (i < 1000) { i = i + 1 }").is_err());
    assert!(interp.fuel_used() > 100);
    assert_eq!(interp.run("1 + 2 * 3").unwrap(), Some(num(7.0)));
    assert_eq!(interp.fuel_used(), 6);
}

#[test]
fn a_syntax_error_stops_before_running() {
    let mut interp = new_interp(DEFAULT_FUEL_LIMIT);
    interp.run("1 + 1").unwrap();
    let used = interp.fuel_used();
    assert!(matches!(interp.run("1 +"), Err(LangError::UnexpectedEnd { .. })));
    // Nothing ran: the op count is the previous run's.
    assert_eq!(interp.fuel_used(), used);
    assert!(matches!(interp.run("1 $ 2"), Err(LangError::UnexpectedChar('$'))));
}

#[test]
fn the_trace_stops_recording_at_its_limit() {
    let mut interp = new_interp(DEFAULT_FUEL_LIMIT);
    interp.enable_tracing();
    interp.run("var i = 0; while (i < 20000) { i = i + 1 }").unwrap();
    let trace = interp.trace().unwrap();
    assert_eq!(trace.len(), 10_000);
    assert!(interp.trace_truncated());
    assert!(trace.windows(2).all(|w| w[0].op <= w[1].op));
    assert!(trace.iter().all(|e| e.op <= interp.fuel_used()));
}

#[test]
fn tracing_starts_afresh_on_each_run() {
    let mut interp = new_interp(DEFAULT_FUEL_LIMIT);
    interp.enable_tracing();
    interp.run("var a = 1").unwrap();
    interp.run("var b = 2").unwrap();
    let trace = interp.trace().unwrap();
    assert_eq!(trace.len(), 1);
    assert!(matches!(&trace[0].kind, EventKind::Assign { target, .. } if target == "b"));
    assert!(!interp.trace_truncated());
}

#[test]
fn expression_statements_are_traced_and_described() {
    let trace = trace_of("if (1 < 2) { 3 }");
    let host = F64Host::new();
    let described: Vec<String> = trace.iter().map(|e| e.kind.describe(&host)).collect();
    assert_eq!(described, vec!["if → true".to_string(), "3".to_string()]);
    let calls = trace_of("function f(a, b) { return a } f(1, [2])");
    let described: Vec<String> = calls.iter().map(|e| e.kind.describe(&host)).collect();
    assert_eq!(described, vec!["call f(1, [2])".to_string(), "return f → 1".to_string(), "1".to_string()]);
}

#[test]
fn index_writes_touch_only_the_written_variable() {
    assert_eq!(eval("var a = [1, 2]; var b = a; a[0] = 5; str([a, b])"), string("[[5, 2], [1, 2]]"));
    assert_eq!(eval(r#"var m = {"k": 1}; var n = m; n["j"] = 2; str([m, n])"#), string(r#"[{k: 1}, {k: 1, j: 2}]"#));
}

#[test]
fn copy_on_write_charges_for_the_copy() {
    // A shared array pays one op per element when written; an unshared one
    // pays a single op.
    let unshared = ops("var a = array(50, 0); a[0] = 1");
    let shared = ops("var a = array(50, 0); var b = a; a[0] = 1");
    // `var b = a` itself costs two ops (the statement and the name).
    assert_eq!(shared - unshared, (50 - 1) + 2);
}

#[test]
fn builtin_errors() {
    assert!(matches!(eval_err("len(1, 2)"), LangError::WrongArity { expected: 1, got: 2, .. }));
    assert!(matches!(eval_err("array(-1, 0)"), LangError::InvalidIndex(_)));
    assert!(matches!(eval_err("array(true, 0)"), LangError::InvalidIndex(s) if s == "bool"));
    assert!(matches!(eval_err("push(1, 2)"), LangError::InvalidUnaryOp { op: "push", .. }));
    assert!(matches!(eval_err(r#"has([1], "a")"#), LangError::InvalidUnaryOp { op: "has", .. }));
    assert!(matches!(eval_err("keys(1)"), LangError::InvalidUnaryOp { op: "keys", .. }));
    assert!(matches!(eval_err(r#"remove(1, "a")"#), LangError::InvalidUnaryOp { op: "remove", .. }));
    assert!(matches!(eval_err("getOperations(1)"), LangError::WrongArity { expected: 0, .. }));
    assert!(matches!(eval_err("{1: 2}[[1]]"), LangError::InvalidMapKey { got: "array" }));
    assert!(matches!(eval_err("{1: 2}[2]"), LangError::MissingKey(k) if k == "2"));
}

#[test]
fn numbers_print_like_doubles() {
    assert_eq!(eval("str(0.1 + 0.2)"), string("0.30000000000000004"));
    assert_eq!(eval("str(-0)"), string("-0"));
    assert_eq!(eval("-0 == 0"), boolean(true));
    assert_eq!(eval("str({2: [true]})"), string("{2: [true]}"));
}

#[test]
fn a_run_yields_the_value_of_a_final_expression_statement() {
    let mut interp = new_interp(DEFAULT_FUEL_LIMIT);
    interp.run("1 + 1").unwrap();
    // An empty program runs nothing and costs nothing.
    assert!(matches!(interp.run(""), Ok(None)));
    assert_eq!(interp.fuel_used(), 0);
    // A final declaration yields nothing, a final expression its value.
    assert!(matches!(interp.run("7; var z = 1"), Ok(None)));
    assert_eq!(interp.run("var w = 2; w * 3").unwrap(), Some(num(6.0)));
    // A `return` outside any function is an error wherever it stands.
    assert!(matches!(interp.run("1; return 2; 3"), Err(LangError::ReturnOutsideFunction)));
}

#[test]
fn containers_without_numbers_print_exactly() {
    assert_eq!(
        eval(r#"str(["a", [true, "b"], {"k": false, true: "v"}, len])"#),
        string("[a, [true, b], {k: false, true: v}, <builtin len>]")
    );
    assert_eq!(eval(r#"str({})"#), string("{}"));
    assert_eq!(eval(r#"str([])"#), string("[]"));
    let host = F64Host::new();
    let mut interp = new_interp(DEFAULT_FUEL_LIMIT);
    interp.enable_tracing();
    interp.run(r#"function f(a, b) { return [b, a] } var r = f("x", true)"#).unwrap();
    let described: Vec<String> = interp.trace().unwrap().iter().map(|e| e.kind.describe(&host)).collect();
    assert_eq!(
        described,
        vec![
            "call f(x, true)".to_string(),
            "return f → [true, x]".to_string(),
            "r = [true, x]".to_string(),
        ]
    );
}

#[test]
fn a_deciding_left_operand_leaves_the_right_one_unevaluated_and_uncharged() {
    assert_eq!(eval("false && nope"), boolean(false));
    assert_eq!(ops("false && nope"), 3);
    assert_eq!(eval("true || nope"), boolean(true));
    assert!(matches!(eval_err("true && nope"), LangError::UndefinedVariable(_)));
    // A loop whose condition is false from the start costs its statement and
    // one evaluation of the condition.
    assert_eq!(ops("while (false) { nope }"), 2);
}

#[test]
fn calling_a_non_function_is_a_type_error() {
    assert!(matches!(eval_err("5(1)"), LangError::InvalidUnaryOp { op: "()", operand: "number" }));
    assert!(matches!(
        eval_err("var s = \"x\"; s()"),
        LangError::InvalidUnaryOp { op: "()", operand: "string" }
    ));
    assert!(matches!(
        eval_err("len(1, 2)"),
        LangError::WrongArity { expected: 1, got: 2, .. }
    ));
    assert!(matches!(
        eval_err("getOperations(1)"),
        LangError::WrongArity { expected: 0, got: 1, .. }
    ));
}

#[test]
fn a_number_token_in_a_syntax_error_is_shown_as_its_value() {
    match run("var 007 = 1") {
        Err(LangError::UnexpectedToken { expected, found }) => {
            assert_eq!(expected, "a variable name");
            assert_eq!(found, "7");
        }
        other => panic!("unexpected: {other:?}"),
    }
    match run("var 1.50 = 1") {
        Err(LangError::UnexpectedToken { found, .. }) => assert_eq!(found, "1.5"),
        other => panic!("unexpected: {other:?}"),
    }
    match run("var .5 = 1") {
        Err(LangError::UnexpectedToken { found, .. }) => assert_eq!(found, "0.5"),
        other => panic!("unexpected: {other:?}"),
    }
    match run("var x y") {
        Err(LangError::UnexpectedToken { found, .. }) => assert_eq!(found, "y"),
        other => panic!("unexpected: {other:?}"),
    }
}

#[test]
fn index_writes_check_their_index() {
    assert!(matches!(eval_err("var a = [1]; a[\"x\"] = 2"), LangError::InvalidIndex(_)));
    assert!(matches!(eval_err("var a = [1]; a[5] = 2"), LangError::IndexOutOfBounds { index: 5, len: 1 }));
    assert!(matches!(eval_err("var m = {}; m[[1]] = 2"), LangError::InvalidMapKey { got: "array" }));
    assert!(matches!(eval_err("var s = 1; s[0] = 2"), LangError::InvalidUnaryOp { op: "[]=", operand: "number" }));
    assert_eq!(eval("var a = [1, 2]; a[1] = true; a[1]"), boolean(true));
    assert_eq!(eval("var a = [1, 2]; a[1] = true; a[0]"), num(1.0));
}

#[test]
fn print_emits_the_printed_form_of_its_argument() {
    let mut interp = new_interp(DEFAULT_FUEL_LIMIT);
    let src = "print(1 + 2); print([1, \"a\", true]); print({\"k\": 2.5, 3: false}); print(\"x\")";
    assert_eq!(interp.run(src).ok(), Some(Some(string("x"))));
    assert_eq!(
        interp.host().output(),
        vec!["3".to_string(), "[1, a, true]".to_string(), "{k: 2.5, 3: false}".to_string(), "x".to_string()]
    );
}

#[test]
fn len_counts_characters_and_str_prints_numbers() {
    assert_eq!(eval("len(\"héllo\")"), num(5.0));
    assert_eq!(eval("str(0.5) + str([1.5, -2])"), string("0.5[1.5, -2]"));
    assert_eq!(eval("getOperationsLimit()"), num(1_000_000.0));
    assert!(matches!(eval_err("var m = {\"a\": 1}; m[\"b\"]"), LangError::MissingKey(k) if k == "b"));
    assert!(matches!(eval_err("[1, 2][0.5]"), LangError::InvalidIndex(t) if t == "0.5"));
    assert!(matches!(eval_err("array(1.5, 0)"), LangError::InvalidIndex(t) if t == "1.5"));
    assert!(matches!(eval_err("array(-1, 0)"), LangError::InvalidIndex(t) if t == "-1"));
}

#[test]
fn a_traced_run_is_charged_like_a_plain_one_when_containers_are_written() {
    let programs = [
        "var a = [1, 2, 3]; a[0] = 9; a",
        "var m = {\"k\": 1, \"j\": 2}; m[\"j\"] = 3; m",
        "var a = [[1, 2, 3]]; var b = a[0]; a = 0; b[0] = 9; b",
        "function f(x) { x[0] = 1; return x } var r = f([5, 6, 7]); r[1] = 0; r",
        "var a = [1, 2, 3]; a; a[2] = 4; print(a); a[1] = 5; a",
    ];
    for src in programs {
        let mut plain = new_interp(DEFAULT_FUEL_LIMIT);
        let plain_result = plain.run(src).unwrap();
        let mut traced = new_interp(DEFAULT_FUEL_LIMIT);
        traced.enable_tracing();
        let traced_result = traced.run(src).unwrap();
        assert_eq!(plain_result, traced_result, "{src}");
        assert_eq!(plain.fuel_used(), traced.fuel_used(), "{src}");
    }
}

#[test]
fn the_trace_keeps_the_value_as_it_was_when_recorded() {
    let mut interp = new_interp(DEFAULT_FUEL_LIMIT);
    interp.enable_tracing();
    interp.run("var a = [1, 2]; a[0] = 7").unwrap();
    let trace = interp.trace().unwrap();
    match &trace[0].kind {
        EventKind::Assign { target, value } => {
            assert_eq!(target, "a");
            assert_eq!(*value, Value::Array(std::rc::Rc::new(vec![num(1.0), num(2.0)])));
        }
        other => panic!("unexpected: {other:?}"),
    }
}

#[test]
fn two_fresh_runs_of_a_program_that_writes_shared_containers_agree() {
    let programs = [
        "var a = [1, 2, 3]; var b = a; b[0] = 9; a[1] = 8; [a, b, getOperations()]",
        "function f(x) { x[0] = 1; return x } var a = [5, 6]; var r = f(a); [a, r, getOperations()]",
        "var m = {\"k\": 1}; var g = () => { m[\"k\"] = 2; return m }; [g(), m, getOperations()]",
        "var a = [1]; var i = 0; while (i < 50) { a = push(a, i); a[0] = i; i = i + 1 }; [len(a), getOperations()]",
    ];
    for src in programs {
        let mut first = new_interp(DEFAULT_FUEL_LIMIT);
        let mut second = new_interp(DEFAULT_FUEL_LIMIT);
        let r1 = first.run(src).unwrap();
        let r2 = second.run(src).unwrap();
        assert_eq!(r1, r2, "{src}");
        assert_eq!(first.fuel_used(), second.fuel_used(), "{src}");
    }
}
