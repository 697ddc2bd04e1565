//! Arithmetic expressions over decimal literals with `+ - * /` and
//! parentheses: a recursive-descent parser that builds an expression tree,
//! stated and proved against a grammar written as spec functions.
pub mod expr;
pub mod grammar;
pub mod parser;
pub mod bounds;
pub mod laws;

pub use expr::{EvaluationError, Expr, ParseError, Tree};
pub use parser::{parse_expression, parse_number};
