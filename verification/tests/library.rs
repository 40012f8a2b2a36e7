//! The library's pieces on concrete values: lexer, parser, map, numbers,
//! scopes, values, error messages and the fuel meter.

use playscript::ast::{BinaryOp, Expr, Literal, Stmt};
use playscript::env::Environment;
use playscript::error::LangError;
use playscript::interp::{
    Fuel, check_map_key, holds, index_in, unary, wrong_arity, DEFAULT_FUEL_LIMIT, MAX_CALL_DEPTH,
    TRACE_LIMIT,
};
use playscript::lexer::{tokenize, TokenKind};
use playscript::map::{fnv, hash_key, keys_equal, Key, PlayMap, FNV_BASIS};
use playscript::number::{is_nan, is_zero, number_order, numbers_equal, whole_number, SIGN_BIT};
use playscript::parser::Parser;
use playscript::text::{decimal_text, same};
use playscript::value::{values_equal, Builtin, Value};
use playscript::host::Order;
use playscript::ast::UnaryOp;

fn bits(x: f64) -> u64 {
    x.to_bits()
}

fn parse(src: &str) -> Result<Vec<Stmt>, LangError> {
    let (tokens, lines) = tokenize(src)?;
    Parser::new(tokens, lines).parse_program()
}

// ---- lexer

#[test]
fn tokens_and_their_lines() {
    let (tokens, lines) = tokenize("var x = 1.5;\nx // done").unwrap();
    let kinds: Vec<TokenKind> = tokens.iter().map(|t| t.kind).collect();
    assert_eq!(
        kinds,
        vec![
            TokenKind::Var,
            TokenKind::Ident,
            TokenKind::Equals,
            TokenKind::Number,
            TokenKind::Semicolon,
            TokenKind::Ident,
        ]
    );
    assert_eq!(tokens[1].text, "x");
    assert_eq!(tokens[3].text, "1.5");
    assert_eq!(lines, vec![1, 1, 1, 1, 1, 2]);
}

#[test]
fn two_character_operators_win() {
    let (tokens, _) = tokenize("a => b == c != d <= e >= f && g || h").unwrap();
    let ops: Vec<TokenKind> = tokens.iter().map(|t| t.kind).filter(|k| *k != TokenKind::Ident).collect();
    assert_eq!(
        ops,
        vec![
            TokenKind::Arrow,
            TokenKind::EqualEqual,
            TokenKind::BangEqual,
            TokenKind::LessEqual,
            TokenKind::GreaterEqual,
            TokenKind::AndAnd,
            TokenKind::OrOr,
        ]
    );
}

#[test]
fn string_escapes_are_decoded() {
    let (tokens, _) = tokenize(r#""a\tb\"c""#).unwrap();
    assert_eq!(tokens[0].kind, TokenKind::Str);
    assert_eq!(tokens[0].text, "a\tb\"c");
}

#[test]
fn lexer_errors() {
    assert!(matches!(tokenize("1 @ 2"), Err(LangError::UnexpectedChar('@'))));
    assert!(matches!(tokenize("\"open"), Err(LangError::UnterminatedString)));
    assert!(matches!(tokenize(r#""\q""#), Err(LangError::InvalidEscape('q'))));
}

// ---- parser

#[test]
fn precedence_shapes_the_tree() {
    let program = parse("1 + 2 * 3").unwrap();
    assert_eq!(program.len(), 1);
    match &program[0] {
        Stmt::Expr { expr: Expr::Binary { op: BinaryOp::Add, left, right }, line: 1 } => {
            assert!(matches!(**left, Expr::Literal(Literal::Number(ref s)) if s == "1"));
            assert!(matches!(**right, Expr::Binary { op: BinaryOp::Mul, .. }));
        }
        other => panic!("unexpected tree: {other:?}"),
    }
}

#[test]
fn semicolons_are_optional_between_statements() {
    assert_eq!(parse("var a = 1; var b = 2 a").unwrap().len(), 3);
}

#[test]
fn syntax_errors_name_what_was_expected() {
    match parse("var = 1") {
        Err(LangError::UnexpectedToken { expected, found }) => {
            assert_eq!(expected, "a variable name");
            assert_eq!(found, "=");
        }
        other => panic!("unexpected: {other:?}"),
    }
    assert!(matches!(parse("(1"), Err(LangError::UnexpectedEnd { expected: "')'" })));
    assert!(matches!(parse("{ var x = 1"), Err(LangError::UnexpectedEnd { expected: "'}'" })));
    assert!(matches!(parse("f(1) = 2"), Err(LangError::InvalidAssignTarget)));
    match parse(r#"var x = "s" "t" ="#) {
        Err(LangError::UnexpectedEnd { expected }) => {
            assert_eq!(expected, "a literal, a variable or '('")
        }
        other => panic!("unexpected: {other:?}"),
    }
}

#[test]
fn a_string_token_is_quoted_in_errors() {
    match parse(r#"var "x" = 1"#) {
        Err(LangError::UnexpectedToken { found, .. }) => assert_eq!(found, "\"x\""),
        other => panic!("unexpected: {other:?}"),
    }
}

#[test]
fn index_assignment_targets_a_name() {
    match &parse("a[0] = 1").unwrap()[0] {
        Stmt::IndexAssign { name, .. } => assert_eq!(name, "a"),
        other => panic!("unexpected: {other:?}"),
    }
}

// ---- map

#[test]
fn map_keeps_insertion_order_and_updates_in_place() {
    let mut m: PlayMap<u32> = PlayMap::new();
    m.insert(Key::Str("z".to_string()), 1);
    m.insert(Key::Str("a".to_string()), 2);
    m.insert(Key::Num(bits(3.0)), 3);
    m.insert(Key::Str("z".to_string()), 9);
    assert_eq!(m.len(), 3);
    let keys: Vec<String> = m
        .iter()
        .iter()
        .map(|(k, _)| match k {
            Key::Str(s) => s.clone(),
            Key::Num(n) => f64::from_bits(*n).to_string(),
            Key::Bool(b) => b.to_string(),
        })
        .collect();
    assert_eq!(keys, vec!["z", "a", "3"]);
    assert_eq!(m.get(&Key::Str("z".to_string())), Some(&9));
    assert_eq!(m.get(&Key::Bool(true)), None);
}

#[test]
fn zero_and_negative_zero_are_one_key() {
    let mut m: PlayMap<u32> = PlayMap::new();
    m.insert(Key::Num(bits(0.0)), 1);
    m.insert(Key::Num(bits(-0.0)), 2);
    assert_eq!(m.len(), 1);
    assert_eq!(m.get(&Key::Num(bits(0.0))), Some(&2));
    assert_eq!(hash_key(&Key::Num(bits(0.0))), hash_key(&Key::Num(bits(-0.0))));
}

#[test]
fn map_grows_past_its_first_table() {
    let mut m: PlayMap<u64> = PlayMap::new();
    for i in 0..1000u64 {
        m.insert(Key::Num(bits(i as f64)), i * 2);
    }
    assert_eq!(m.len(), 1000);
    for i in 0..1000u64 {
        assert_eq!(m.get(&Key::Num(bits(i as f64))), Some(&(i * 2)));
    }
}

#[test]
fn without_removes_one_key_and_keeps_the_order() {
    let mut m: PlayMap<u32> = PlayMap::new();
    for (i, k) in ["a", "b", "c", "d"].iter().enumerate() {
        m.insert(Key::Str(k.to_string()), i as u32);
    }
    let w = m.without(&Key::Str("b".to_string()));
    assert_eq!(w.len(), 3);
    assert_eq!(m.len(), 4);
    let order: Vec<u32> = w.iter().iter().map(|(_, v)| **v).collect();
    assert_eq!(order, vec![0, 2, 3]);
    assert_eq!(w.get(&Key::Str("b".to_string())), None);
    let copy = m.duplicate();
    assert_eq!(copy.len(), 4);
    assert_eq!(copy.get(&Key::Str("d".to_string())), Some(&3));
}

#[test]
fn fnv_matches_the_reference_values() {
    // FNV-1a of the empty input is the basis; of "a" it is 0xaf63dc4c8601ec8c.
    assert_eq!(fnv(FNV_BASIS, b""), FNV_BASIS);
    assert_eq!(fnv(FNV_BASIS, b"a"), 0xaf63_dc4c_8601_ec8c);
    assert_eq!(fnv(FNV_BASIS, b"foobar"), 0x8594_4171_f739_67e8);
}

#[test]
fn key_equality_follows_the_language() {
    assert!(keys_equal(&Key::Num(bits(0.0)), &Key::Num(bits(-0.0))));
    assert!(!keys_equal(&Key::Num(bits(1.0)), &Key::Bool(true)));
    assert!(keys_equal(&Key::Str("k".into()), &Key::Str("k".into())));
}

// ---- numbers

#[test]
fn number_bits() {
    assert!(is_nan(bits(f64::NAN)));
    assert!(!is_nan(bits(f64::INFINITY)));
    assert!(is_zero(bits(-0.0)));
    assert!(!is_zero(bits(1e-300)));
    assert!(numbers_equal(bits(0.0), bits(-0.0)));
    assert!(!numbers_equal(bits(f64::NAN), bits(f64::NAN)));
    assert!(numbers_equal(bits(2.5), bits(2.5)));
    assert_eq!(bits(1.5) ^ SIGN_BIT, bits(-1.5));
}

// ---- values

#[test]
fn value_equality() {
    let a = Value::Array(vec![Value::Number(bits(1.0)), Value::Str("x".into())].into());
    let b = Value::Array(vec![Value::Number(bits(1.0)), Value::Str("x".into())].into());
    let c = Value::Array(vec![Value::Number(bits(1.0))].into());
    assert!(values_equal(&a, &b));
    assert!(!values_equal(&a, &c));
    assert!(!values_equal(&Value::Number(bits(1.0)), &Value::Bool(true)));
    assert!(!values_equal(&Value::Number(bits(f64::NAN)), &Value::Number(bits(f64::NAN))));
    let mut m: PlayMap<Value> = PlayMap::new();
    m.insert(Key::Str("a".into()), Value::Bool(true));
    m.insert(Key::Str("b".into()), Value::Bool(false));
    let mut n: PlayMap<Value> = PlayMap::new();
    n.insert(Key::Str("b".into()), Value::Bool(false));
    n.insert(Key::Str("a".into()), Value::Bool(true));
    assert!(values_equal(&Value::Dict(m.into()), &Value::Dict(n.into())));
}

#[test]
fn builtins_by_name() {
    assert_eq!(Builtin::from_name("print"), Some(Builtin::Print));
    assert_eq!(Builtin::from_name("getOperationsLimit"), Some(Builtin::GetOperationsLimit));
    assert_eq!(Builtin::from_name("prin"), None);
    assert_eq!(Builtin::Remove.name(), "remove");
}

#[test]
fn map_entries_reads_a_map_in_order() {
    let mut m: PlayMap<Value> = PlayMap::new();
    m.insert(Key::Num(bits(2.0)), Value::Bool(true));
    m.insert(Key::Str("k".into()), Value::Bool(false));
    let entries = Value::Dict(m.into()).map_entries().unwrap();
    assert_eq!(entries.len(), 2);
    assert_eq!(entries[0].0, Value::Number(bits(2.0)));
    assert_eq!(entries[1].0, Value::Str("k".into()));
    assert_eq!(entries[1].1, Value::Bool(false));
    assert!(Value::Bool(true).map_entries().is_none());
}

#[test]
fn type_labels() {
    assert_eq!(Value::Number(0).type_label(), "number");
    assert_eq!(Value::Str(String::new()).type_label(), "string");
    assert_eq!(Value::Builtin(Builtin::Len).type_label(), "function");
}

// ---- scopes

#[test]
fn scopes_read_write_and_shadow() {
    let mut env = Environment::new();
    env.declare("x".to_string(), Value::Number(bits(1.0)));
    assert_eq!(env.get(&"x".to_string()).unwrap(), Value::Number(bits(1.0)));
    env.push_scope();
    env.declare("x".to_string(), Value::Number(bits(2.0)));
    assert_eq!(env.get(&"x".to_string()).unwrap(), Value::Number(bits(2.0)));
    env.pop_scope();
    assert_eq!(env.get(&"x".to_string()).unwrap(), Value::Number(bits(1.0)));
    env.push_scope();
    env.assign(&"x".to_string(), Value::Number(bits(3.0))).unwrap();
    env.pop_scope();
    assert_eq!(env.get(&"x".to_string()).unwrap(), Value::Number(bits(3.0)));
    assert!(matches!(env.get(&"y".to_string()), Err(LangError::UndefinedVariable(n)) if n == "y"));
    assert!(matches!(
        env.assign(&"y".to_string(), Value::Bool(true)),
        Err(LangError::UndefinedVariable(_))
    ));
    assert_eq!(env.depth(), 1);
}

#[test]
fn locals_flatten_innermost_last() {
    let mut env = Environment::new();
    env.declare("g".to_string(), Value::Bool(true));
    env.push_scope();
    env.declare("a".to_string(), Value::Number(bits(1.0)));
    env.push_scope();
    env.declare("a".to_string(), Value::Number(bits(2.0)));
    env.declare("b".to_string(), Value::Number(bits(3.0)));
    let locals = env.locals();
    assert_eq!(locals.len(), 2);
    assert_eq!(locals[0].0, "a");
    assert_eq!(locals[0].1, Value::Number(bits(2.0)));
    assert_eq!(locals[1].0, "b");
}

// ---- text

#[test]
fn text_helpers() {
    assert_eq!(decimal_text(0), "0");
    assert_eq!(decimal_text(1_000_000), "1000000");
    assert_eq!(decimal_text(u64::MAX), u64::MAX.to_string());
    assert!(same("héllo", "héllo"));
    assert!(!same("a", "ab"));
    assert_eq!(playscript::text::concat("ab", "cd"), "abcd");
}

// ---- errors

#[test]
fn error_messages() {
    assert_eq!(LangError::OutOfFuel { limit: 50_000 }.message(), "operation limit exceeded (50000 ops)");
    assert_eq!(LangError::UnexpectedChar('@').message(), "unexpected character: '@'");
    assert_eq!(LangError::InvalidEscape('q').message(), "invalid escape sequence: \\q");
    assert_eq!(
        LangError::WrongArity { function: "f".into(), expected: 1, got: 2 }.message(),
        "function 'f' takes 1 argument(s), got 2"
    );
    assert_eq!(
        LangError::UnexpectedToken { expected: "'='", found: "1".into() }.message(),
        "expected '=', found '1'"
    );
    assert_eq!(
        LangError::IndexOutOfBounds { index: 5, len: 2 }.message(),
        "index 5 out of bounds (length 2)"
    );
    assert_eq!(LangError::CallDepthExceeded { limit: 256 }.message(), "call depth limit exceeded (256)");
    assert_eq!(
        LangError::InvalidBinaryOp { op: "+", lhs: "bool", rhs: "number" }.message(),
        "invalid operands to '+': bool and number"
    );
}

// ---- fuel and evaluation helpers

#[test]
fn fuel_ticks_up_to_the_limit() {
    let mut fuel = Fuel { used: 0, limit: 10 };
    assert!(fuel.tick(10).is_ok());
    assert_eq!(fuel.used, 10);
    assert!(matches!(fuel.tick(1), Err(LangError::OutOfFuel { limit: 10 })));
    assert_eq!(fuel.used, 11);
    let mut huge = Fuel { used: 5, limit: u64::MAX };
    assert!(matches!(huge.tick(u64::MAX), Err(LangError::OutOfFuel { .. })));
    assert_eq!(huge.used, u64::MAX);
    let mut free = Fuel { used: 3, limit: 3 };
    assert!(free.tick(0).is_ok());
}

#[test]
fn evaluation_helpers() {
    assert!(matches!(
        wrong_arity("g", 1, 2),
        LangError::WrongArity { ref function, expected: 1, got: 2 } if function == "g"
    ));
    assert!(matches!(index_in(1, 2), Ok(1)));
    assert!(matches!(index_in(2, 2), Err(LangError::IndexOutOfBounds { index: 2, len: 2 })));
    assert!(holds(BinaryOp::Le, Order::Equal));
    assert!(!holds(BinaryOp::Lt, Order::Equal));
    assert!(holds(BinaryOp::Ge, Order::Greater));
    assert!(matches!(check_map_key(&Value::Number(bits(f64::NAN))), Err(LangError::InvalidMapKey { got: "NaN" })));
    assert!(matches!(check_map_key(&Value::Bool(true)), Ok(Key::Bool(true))));
    assert!(matches!(
        check_map_key(&Value::Array(Vec::new().into())),
        Err(LangError::InvalidMapKey { got: "array" })
    ));
    assert_eq!(unary(UnaryOp::Neg, Value::Number(bits(2.0))).unwrap(), Value::Number(bits(-2.0)));
    assert_eq!(unary(UnaryOp::Not, Value::Bool(false)).unwrap(), Value::Bool(true));
    assert!(matches!(unary(UnaryOp::Not, Value::Number(0)), Err(LangError::InvalidUnaryOp { op: "!", operand: "number" })));
    assert_eq!(DEFAULT_FUEL_LIMIT, 1_000_000);
    assert_eq!(MAX_CALL_DEPTH, 256);
    assert_eq!(TRACE_LIMIT, 10_000);
}

#[test]
fn looking_up_a_nan_key_finds_nothing() {
    let mut m: PlayMap<Value> = PlayMap::new();
    m.insert(Key::Num(bits(1.0)), Value::Bool(true));
    assert!(m.get(&Key::Num(bits(f64::NAN))).is_none());
    assert!(m.get(&Key::Num(bits(1.0))).is_some());
}

#[test]
fn whole_numbers_are_read_from_the_bits() {
    assert_eq!(whole_number(bits(0.0)), Some(0));
    assert_eq!(whole_number(bits(-0.0)), Some(0));
    assert_eq!(whole_number(bits(1.0)), Some(1));
    assert_eq!(whole_number(bits(3.0)), Some(3));
    assert_eq!(whole_number(bits(1e15)), Some(1_000_000_000_000_000));
    assert_eq!(whole_number(bits(9007199254740993.0)), Some(9007199254740992));
    assert_eq!(whole_number(bits(1e300)), Some(u64::MAX));
    assert_eq!(whole_number(bits(18446744073709551616.0)), Some(u64::MAX));
    assert_eq!(whole_number(bits(1.5)), None);
    assert_eq!(whole_number(bits(0.5)), None);
    assert_eq!(whole_number(bits(-1.0)), None);
    assert_eq!(whole_number(bits(f64::INFINITY)), None);
    assert_eq!(whole_number(bits(f64::NAN)), None);
    assert_eq!(whole_number(bits(f64::MIN_POSITIVE / 2.0)), None);
}

#[test]
fn numbers_order_by_value() {
    assert_eq!(number_order(bits(1.0), bits(2.0)), Some(Order::Less));
    assert_eq!(number_order(bits(2.0), bits(1.0)), Some(Order::Greater));
    assert_eq!(number_order(bits(-2.0), bits(-1.0)), Some(Order::Less));
    assert_eq!(number_order(bits(-1.0), bits(0.5)), Some(Order::Less));
    assert_eq!(number_order(bits(0.0), bits(-0.0)), Some(Order::Equal));
    assert_eq!(number_order(bits(-0.0), bits(1.0)), Some(Order::Less));
    assert_eq!(number_order(bits(f64::NEG_INFINITY), bits(-1e308)), Some(Order::Less));
    assert_eq!(number_order(bits(f64::NAN), bits(1.0)), None);
    assert_eq!(number_order(bits(1.0), bits(f64::NAN)), None);
}
