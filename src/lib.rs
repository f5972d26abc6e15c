//! A small calculator language: a lexer, a recursive-descent parser and a
//! tree-walking evaluator over 32-bit integers.
//!
//! Text goes through [`tokenize`], then [`parse`], then [`interpret`]; each
//! stage fails with its own error kind, and nothing is recovered.
pub mod expr;
pub mod interpret;
pub mod parser;
pub mod tokenize;

pub use expr::{AssignmentImpl, BinaryOperationImpl, Expr, FunCallImpl, NumberImpl, VariableImpl};
pub use interpret::{evaluate, interpret, Env, EvalError};
pub use parser::{parse, ParseError};
pub use tokenize::{is_valid_identifier_char, tokenize, LexError, Token, TokenType};
