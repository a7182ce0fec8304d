//! The grammar of expressions, as a relation between a sequence of tokens
//! and the tree that it writes:
//!
//! ```text
//! Sum     := Sum ('+' | '-') Product | Product
//! Product := Product ('*' | '/') Power | Power
//! Power   := Atom '^' Power | Atom
//! Atom    := '(' Sum ')' | Constant
//! ```

use crate::lexer::Token;
use vstd::prelude::*;

verus! {

/// The five operations, each on two operands.
#[derive(PartialEq, Eq, Debug, Clone, Copy, Structural)]
pub enum BinaryOperation {
    Subtract,
    Add,
    Multiply,
    Divide,
    Exponent,
}

/// An expression: a constant, or an operation on two expressions.
#[derive(PartialEq, Debug)]
pub enum ASTNode<T> {
    Binary { operation: BinaryOperation, lhs: Box<ASTNode<T>>, rhs: Box<ASTNode<T>> },
    Constant(T),
}

impl<T: View> ASTNode<T> {
    /// The same tree, with the view of each constant.
    pub open spec fn seen(self) -> ASTNode<T::V>
        decreases self,
    {
        match self {
            ASTNode::Constant(value) => ASTNode::Constant(value@),
            ASTNode::Binary { operation, lhs, rhs } => ASTNode::Binary {
                operation,
                lhs: Box::new(lhs.seen()),
                rhs: Box::new(rhs.seen()),
            },
        }
    }
}

impl<T: View> View for ASTNode<T> {
    type V = ASTNode<T::V>;

    open spec fn view(&self) -> ASTNode<T::V> {
        self.seen()
    }
}

/// How tightly sums bind.
pub const SUM: usize = 1;

/// How tightly products bind.
pub const PRODUCT: usize = 2;

/// How tightly powers bind.
pub const POWER: usize = 3;

impl BinaryOperation {
    /// How tightly the operation binds: the higher, the tighter.
    pub open spec fn binding(self) -> usize {
        match self {
            BinaryOperation::Subtract => SUM,
            BinaryOperation::Add => SUM,
            BinaryOperation::Multiply => PRODUCT,
            BinaryOperation::Divide => PRODUCT,
            BinaryOperation::Exponent => POWER,
        }
    }

    /// The operation that `token` writes, if it writes one.
    pub open spec fn written_by<T>(token: Token<T>) -> Option<BinaryOperation> {
        match token {
            Token::Dash => Some(BinaryOperation::Subtract),
            Token::Plus => Some(BinaryOperation::Add),
            Token::Asterisk => Some(BinaryOperation::Multiply),
            Token::Slash => Some(BinaryOperation::Divide),
            Token::Caret => Some(BinaryOperation::Exponent),
            _ => None,
        }
    }

    /// `token` writes an operation that binds as tightly as `level`.
    pub open spec fn written_at<T>(token: Token<T>, level: usize) -> bool {
        match BinaryOperation::written_by(token) {
            Some(operation) => operation.binding() == level,
            None => false,
        }
    }
}

/// `tokens[from..to]` is an atom that writes `tree`: a constant, or a sum
/// in parentheses.
pub open spec fn is_atom<T>(tokens: Seq<Token<T>>, from: int, to: int, tree: ASTNode<T>) -> bool
    decreases to - from, 0int,
{
    &&& 0 <= from < to <= tokens.len()
    &&& {
        ||| {
            &&& to == from + 1
            &&& tokens[from] matches Token::Constant(value)
            &&& tree == ASTNode::Constant(value)
        }
        ||| {
            &&& tokens[from] is OpenParenthesis
            &&& tokens[to - 1] is CloseParenthesis
            &&& is_sum(tokens, from + 1, to - 1, tree)
        }
    }
}

/// `tokens[from..to]` is a power that writes `tree`: an atom, or an atom,
/// `^` and a power. Powers group to the right.
pub open spec fn is_power<T>(tokens: Seq<Token<T>>, from: int, to: int, tree: ASTNode<T>) -> bool
    decreases to - from, 1int,
{
    &&& 0 <= from < to <= tokens.len()
    &&& {
        ||| is_atom(tokens, from, to, tree)
        ||| {
            &&& tree matches ASTNode::Binary { operation, lhs, rhs }
            &&& operation.binding() == POWER
            &&& exists|middle: int|
                {
                    &&& from < middle < to
                    &&& BinaryOperation::written_by(#[trigger] tokens[middle]) == Some(operation)
                    &&& is_atom(tokens, from, middle, *lhs)
                    &&& is_power(tokens, middle + 1, to, *rhs)
                }
        }
    }
}

/// `tokens[from..to]` is a product that writes `tree`: a power, or a
/// product, `*` or `/`, and a power. Products group to the left.
pub open spec fn is_product<T>(tokens: Seq<Token<T>>, from: int, to: int, tree: ASTNode<T>) -> bool
    decreases to - from, 2int,
{
    &&& 0 <= from < to <= tokens.len()
    &&& {
        ||| is_power(tokens, from, to, tree)
        ||| {
            &&& tree matches ASTNode::Binary { operation, lhs, rhs }
            &&& operation.binding() == PRODUCT
            &&& exists|middle: int|
                {
                    &&& from < middle < to
                    &&& BinaryOperation::written_by(#[trigger] tokens[middle]) == Some(operation)
                    &&& is_product(tokens, from, middle, *lhs)
                    &&& is_power(tokens, middle + 1, to, *rhs)
                }
        }
    }
}

/// `tokens[from..to]` is a sum that writes `tree`: a product, or a sum,
/// `+` or `-`, and a product. Sums group to the left.
pub open spec fn is_sum<T>(tokens: Seq<Token<T>>, from: int, to: int, tree: ASTNode<T>) -> bool
    decreases to - from, 3int,
{
    &&& 0 <= from < to <= tokens.len()
    &&& {
        ||| is_product(tokens, from, to, tree)
        ||| {
            &&& tree matches ASTNode::Binary { operation, lhs, rhs }
            &&& operation.binding() == SUM
            &&& exists|middle: int|
                {
                    &&& from < middle < to
                    &&& BinaryOperation::written_by(#[trigger] tokens[middle]) == Some(operation)
                    &&& is_sum(tokens, from, middle, *lhs)
                    &&& is_product(tokens, middle + 1, to, *rhs)
                }
        }
    }
}

/// `tokens`, all of them, write the expression `tree`.
pub open spec fn is_expression<T>(tokens: Seq<Token<T>>, tree: ASTNode<T>) -> bool {
    is_sum(tokens, 0, tokens.len() as int, tree)
}

/// How many of the first `to` tokens open a parenthesis.
pub open spec fn opened<T>(tokens: Seq<Token<T>>, to: int) -> nat
    decreases to,
{
    if to <= 0 {
        0
    } else if tokens[to - 1] is OpenParenthesis {
        opened(tokens, to - 1) + 1
    } else {
        opened(tokens, to - 1)
    }
}

/// How many of the first `to` tokens close a parenthesis.
pub open spec fn closed<T>(tokens: Seq<Token<T>>, to: int) -> nat
    decreases to,
{
    if to <= 0 {
        0
    } else if tokens[to - 1] is CloseParenthesis {
        closed(tokens, to - 1) + 1
    } else {
        closed(tokens, to - 1)
    }
}

/// As many tokens open a parenthesis as close one.
pub open spec fn is_balanced<T>(tokens: Seq<Token<T>>) -> bool {
    opened(tokens, tokens.len() as int) == closed(tokens, tokens.len() as int)
}

impl BinaryOperation {
    /// The token that writes the operation.
    pub open spec fn token<T>(self) -> Token<T> {
        match self {
            BinaryOperation::Subtract => Token::Dash,
            BinaryOperation::Add => Token::Plus,
            BinaryOperation::Multiply => Token::Asterisk,
            BinaryOperation::Divide => Token::Slash,
            BinaryOperation::Exponent => Token::Caret,
        }
    }

    /// The tree of the operation on two trees.
    pub open spec fn of<T>(self, lhs: ASTNode<T>, rhs: ASTNode<T>) -> ASTNode<T> {
        ASTNode::Binary { operation: self, lhs: Box::new(lhs), rhs: Box::new(rhs) }
    }
}

/// `tokens` write some expression.
pub open spec fn is_well_formed<T>(tokens: Seq<Token<T>>) -> bool {
    exists|tree: ASTNode<T>| is_expression(tokens, tree)
}

/// An expression that `tokens` write, where they write one.
pub open spec fn choose_expression<T>(tokens: Seq<Token<T>>) -> ASTNode<T> {
    choose|tree: ASTNode<T>| is_expression(tokens, tree)
}

} // verus!
