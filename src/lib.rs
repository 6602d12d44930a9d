//! A small formula engine for a grid of cells: a backtracking parsing engine,
//! an expression grammar and evaluator, and a sparse, growing cell store.

pub mod parsing;
pub mod expr;
pub mod grammar;
pub mod sheet;

pub use expr::{Error, Expr, Value};
pub use parsing::{ParseResult, Parsing, P};
pub use sheet::{Cell, Spreadsheet};
