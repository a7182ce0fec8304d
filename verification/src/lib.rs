//! Arithmetic expressions over `+ - * / ^` and parentheses: a lexer, a
//! parser that honours precedence and associativity, and an evaluator that
//! is generic in the numeric domain.

mod descent;
pub mod evaluator;
pub mod grammar;
pub mod laws;
pub mod lexer;
pub mod literal;
pub mod parser;
pub mod power;

pub use grammar::ASTNode;
pub use grammar::BinaryOperation;
pub use lexer::tokenize;
pub use lexer::Symbol;
pub use lexer::SymbolicError;
pub use lexer::Token;
pub use literal::Literal;
pub use parser::parse;
pub use parser::SemanticError;
pub use power::Pow;
use vstd::prelude::*;

verus! {

/// Why a text has no value.
#[derive(Debug, PartialEq, Eq, Clone, Copy, Structural)]
pub enum EvaluationError {
    /// The text is no sequence of tokens: the kind of the fault, and the
    /// index of the byte where it was found.
    ParserError { err: SymbolicError, index: usize },
    /// The tokens write no expression.
    SemanticError(SemanticError),
}

} // verus!
