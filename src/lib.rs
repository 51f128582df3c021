//! Evaluation of arithmetic expressions in reverse Polish notation: the
//! input line is split into tokens, each token is read as a number or one
//! of the four operators, and the evaluation stack turns the tokens into a
//! program that computes the expression's value.
pub mod eval;
pub mod literal;
pub mod text;

pub use eval::{classify_token, parse, Expression, Operator, Program, RNPError, Step};
pub use literal::is_number_literal;
pub use text::tokenize;
