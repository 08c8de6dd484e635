//! A small interpreted language runtime: a tagged value model, a stack of
//! lexically scoped variable bindings, a converter from parse trees into a
//! linear token stream, and a stack-machine evaluator for that stream.

pub mod builtin;
pub mod env;
pub mod error;
pub mod eval;
pub mod fmtval;
pub mod parse;
pub mod value;

pub use env::Environment;
pub use env::SymTab;
pub use error::LCoreError;
pub use eval::lcore_interpret;
pub use parse::count_newlines;
pub use parse::ParseNode;
pub use parse::Rule;
pub use value::Builtin;
pub use value::Value;
