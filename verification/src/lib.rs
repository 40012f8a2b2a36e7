//! playscript — a minimal, deterministic, fully-metered scripting language
//! with a tree-walking interpreter, verified with Verus.
//!
//! The pipeline is `lexer` (source text to tokens), `parser` (tokens to the
//! syntax tree of `ast`) and `interp` (the metered evaluator). Numbers are
//! IEEE-754 doubles carried as their bit patterns; the arithmetic on them is
//! supplied by the embedding host (see `host::Host`).
//!
//! Build an [`Interpreter`], feed it source with [`Interpreter::run`], and
//! inspect the result plus the operations consumed.

pub mod ast;
pub mod env;
pub mod error;
pub mod grammar;
pub mod host;
pub mod interp;
pub mod laws;
pub mod lexer;
pub mod map;
pub mod number;
pub mod parser;
pub mod text;
pub mod trace;
pub mod value;

pub use error::LangError;
pub use host::{Host, Order};
pub use interp::{DEFAULT_FUEL_LIMIT, Interpreter};
pub use trace::{EventKind, TraceEvent};
pub use value::Value;
