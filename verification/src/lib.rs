//! A small compiler back end: an AST type checker, a three-address-code
//! generator with its optimisation passes, and an interpreter for the
//! generated code.
pub mod ast;
pub mod checker;
pub mod codegen;
pub mod equivalence;
pub mod evaluation;
pub mod interpreter;
pub mod laws;
pub mod meanings;
pub mod messages;
pub mod optimize;
pub mod order;
pub mod pipeline;
pub mod symbol_table;
pub mod tac;
pub mod text;
