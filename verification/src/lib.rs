//! A small Lisp front-end: a lexer and recursive-descent reader that turn
//! source text into symbolic forms, a printer that renders forms back to
//! text, and a tree-walking evaluator over a mutable environment.
//!
//! Forms live in an arena, the [`types::Heap`]; containers hold stable
//! handles into it, so one value can be shared by several owners. The
//! reader builds forms ([`reader::read_str`]), the printer renders them
//! ([`printer::pr_str`]), the evaluator reduces them ([`eval::eval`]), and
//! [`laws`] proves that reading back a rendered form reproduces it.

pub mod builtins;
pub mod errors;
pub mod eval;
pub mod laws;
pub mod numbers;
pub mod printer;
pub mod reader;
pub mod text;
pub mod types;
