use vstd::prelude::*;

use crate::text::{char_debug, debug_char, decimal, decimal_text, push_str, string_from_chars};

verus! {

/// Every way a program can fail, from lexing to evaluation.
#[derive(Debug)]
pub enum LangError {
    UnexpectedChar(char),
    InvalidNumber(String),
    UnterminatedString,
    InvalidEscape(char),
    UnexpectedToken { expected: &'static str, found: String },
    UnexpectedEnd { expected: &'static str },
    InvalidAssignTarget,
    UndefinedVariable(String),
    DivisionByZero,
    InvalidBinaryOp { op: &'static str, lhs: &'static str, rhs: &'static str },
    InvalidUnaryOp { op: &'static str, operand: &'static str },
    InvalidCondition { got: &'static str },
    InvalidIndex(String),
    IndexOutOfBounds { index: usize, len: usize },
    MissingKey(String),
    InvalidMapKey { got: &'static str },
    OutOfFuel { limit: u64 },
    UndefinedFunction(String),
    WrongArity { function: String, expected: usize, got: usize },
    NoReturnValue { function: String },
    ReturnOutsideFunction,
    CallDepthExceeded { limit: usize },
}

/// The message an error reads as.
pub open spec fn message_of(e: LangError) -> Seq<char> {
    match e {
        LangError::UnexpectedChar(c) => "unexpected character: "@ + debug_char(c),
        LangError::InvalidNumber(s) => "invalid number: "@ + s@,
        LangError::UnterminatedString => "unterminated string literal"@,
        LangError::InvalidEscape(c) => "invalid escape sequence: \\"@ + seq![c],
        LangError::UnexpectedToken { expected, found } => "expected "@ + expected@ + ", found '"@
            + found@ + "'"@,
        LangError::UnexpectedEnd { expected } => "expected "@ + expected@
            + ", but reached end of input"@,
        LangError::InvalidAssignTarget => "invalid assignment target"@,
        LangError::UndefinedVariable(name) => "undefined variable: "@ + name@,
        LangError::DivisionByZero => "division by zero"@,
        LangError::InvalidBinaryOp { op, lhs, rhs } => "invalid operands to '"@ + op@ + "': "@
            + lhs@ + " and "@ + rhs@,
        LangError::InvalidUnaryOp { op, operand } => "invalid operand to '"@ + op@ + "': "@
            + operand@,
        LangError::InvalidCondition { got } => "condition must be a bool, got "@ + got@,
        LangError::InvalidIndex(s) => "invalid index: "@ + s@,
        LangError::IndexOutOfBounds { index, len } => "index "@ + decimal(index as nat)
            + " out of bounds (length "@ + decimal(len as nat) + ")"@,
        LangError::MissingKey(k) => "missing key: "@ + k@,
        LangError::InvalidMapKey { got } => "invalid map key: "@ + got@,
        LangError::OutOfFuel { limit } => "operation limit exceeded ("@ + decimal(limit as nat)
            + " ops)"@,
        LangError::UndefinedFunction(name) => "undefined function: "@ + name@,
        LangError::WrongArity { function, expected, got } => "function '"@ + function@
            + "' takes "@ + decimal(expected as nat) + " argument(s), got "@ + decimal(
            got as nat,
        ),
        LangError::NoReturnValue { function } => "function '"@ + function@
            + "' ended without returning a value"@,
        LangError::ReturnOutsideFunction => "'return' outside of a function"@,
        LangError::CallDepthExceeded { limit } => "call depth limit exceeded ("@ + decimal(
            limit as nat,
        ) + ")"@,
    }
}

impl LangError {
    /// The message this error reads as.
    pub fn message(&self) -> (s: String)
        ensures
            s@ == message_of(*self),
    {
        match self {
            LangError::UnexpectedChar(c) => {
                let mut s = "unexpected character: ".to_owned();
                push_str(&mut s, char_debug(*c).as_str());
                s
            },
            LangError::InvalidNumber(t) => {
                let mut s = "invalid number: ".to_owned();
                push_str(&mut s, t.as_str());
                s
            },
            LangError::UnterminatedString => "unterminated string literal".to_owned(),
            LangError::InvalidEscape(c) => {
                let mut s = "invalid escape sequence: \\".to_owned();
                let v: Vec<char> = vec![*c];
                push_str(&mut s, string_from_chars(&v).as_str());
                assert(v@ =~= seq![*c]);
                s
            },
            LangError::UnexpectedToken { expected, found } => {
                let mut s = "expected ".to_owned();
                push_str(&mut s, expected);
                push_str(&mut s, ", found '");
                push_str(&mut s, found.as_str());
                push_str(&mut s, "'");
                s
            },
            LangError::UnexpectedEnd { expected } => {
                let mut s = "expected ".to_owned();
                push_str(&mut s, expected);
                push_str(&mut s, ", but reached end of input");
                s
            },
            LangError::InvalidAssignTarget => "invalid assignment target".to_owned(),
            LangError::UndefinedVariable(name) => {
                let mut s = "undefined variable: ".to_owned();
                push_str(&mut s, name.as_str());
                s
            },
            LangError::DivisionByZero => "division by zero".to_owned(),
            LangError::InvalidBinaryOp { op, lhs, rhs } => {
                let mut s = "invalid operands to '".to_owned();
                push_str(&mut s, op);
                push_str(&mut s, "': ");
                push_str(&mut s, lhs);
                push_str(&mut s, " and ");
                push_str(&mut s, rhs);
                s
            },
            LangError::InvalidUnaryOp { op, operand } => {
                let mut s = "invalid operand to '".to_owned();
                push_str(&mut s, op);
                push_str(&mut s, "': ");
                push_str(&mut s, operand);
                s
            },
            LangError::InvalidCondition { got } => {
                let mut s = "condition must be a bool, got ".to_owned();
                push_str(&mut s, got);
                s
            },
            LangError::InvalidIndex(t) => {
                let mut s = "invalid index: ".to_owned();
                push_str(&mut s, t.as_str());
                s
            },
            LangError::IndexOutOfBounds { index, len } => {
                let mut s = "index ".to_owned();
                push_str(&mut s, decimal_text(*index as u64).as_str());
                push_str(&mut s, " out of bounds (length ");
                push_str(&mut s, decimal_text(*len as u64).as_str());
                push_str(&mut s, ")");
                s
            },
            LangError::MissingKey(k) => {
                let mut s = "missing key: ".to_owned();
                push_str(&mut s, k.as_str());
                s
            },
            LangError::InvalidMapKey { got } => {
                let mut s = "invalid map key: ".to_owned();
                push_str(&mut s, got);
                s
            },
            LangError::OutOfFuel { limit } => {
                let mut s = "operation limit exceeded (".to_owned();
                push_str(&mut s, decimal_text(*limit).as_str());
                push_str(&mut s, " ops)");
                s
            },
            LangError::UndefinedFunction(name) => {
                let mut s = "undefined function: ".to_owned();
                push_str(&mut s, name.as_str());
                s
            },
            LangError::WrongArity { function, expected, got } => {
                let mut s = "function '".to_owned();
                push_str(&mut s, function.as_str());
                push_str(&mut s, "' takes ");
                push_str(&mut s, decimal_text(*expected as u64).as_str());
                push_str(&mut s, " argument(s), got ");
                push_str(&mut s, decimal_text(*got as u64).as_str());
                s
            },
            LangError::NoReturnValue { function } => {
                let mut s = "function '".to_owned();
                push_str(&mut s, function.as_str());
                push_str(&mut s, "' ended without returning a value");
                s
            },
            LangError::ReturnOutsideFunction => "'return' outside of a function".to_owned(),
            LangError::CallDepthExceeded { limit } => {
                let mut s = "call depth limit exceeded (".to_owned();
                push_str(&mut s, decimal_text(*limit as u64).as_str());
                push_str(&mut s, ")");
                s
            },
        }
    }
}

} // verus!
