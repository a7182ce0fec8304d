//! The parser: recursive descent over the tokens, one function for each
//! rule of the grammar.

use crate::descent::atom_at;
use crate::descent::lemma_atom_advances;
use crate::descent::lemma_descent;
use crate::descent::lemma_power_advances;
use crate::descent::lemma_product_advances;
use crate::descent::lemma_sum_advances;
use crate::descent::operation_at;
use crate::descent::power_at;
use crate::descent::product_after;
use crate::descent::product_at;
use crate::descent::sum_after;
use crate::descent::sum_at;
use crate::grammar::choose_expression;
use crate::grammar::closed;
use crate::grammar::is_balanced;
use crate::grammar::is_expression;
use crate::grammar::is_well_formed;
use crate::grammar::opened;
use crate::grammar::ASTNode;
use crate::grammar::BinaryOperation;
use crate::grammar::POWER;
use crate::grammar::PRODUCT;
use crate::grammar::SUM;
use crate::laws::lemma_expression_balanced;
use crate::lexer::Token;
use vstd::prelude::*;

verus! {

/// Why a sequence of tokens is not an expression.
#[derive(Debug, PartialEq, Eq, Clone, Copy, Structural)]
pub enum SemanticError {
    /// Not as many parentheses are opened as are closed.
    UnbalancedParenthesis,
    /// The parentheses are balanced, and yet the tokens write no
    /// expression.
    MalformedExpression,
}

impl BinaryOperation {
    /// How tightly the operation binds: sums loosest, powers tightest.
    pub fn precedence(&self) -> (r: usize)
        ensures
            r == self.binding(),
    {
        match *self {
            BinaryOperation::Subtract => SUM,
            BinaryOperation::Add => SUM,
            BinaryOperation::Multiply => PRODUCT,
            BinaryOperation::Divide => PRODUCT,
            BinaryOperation::Exponent => POWER,
        }
    }

    /// The operation that `token` writes, if it writes one.
    pub fn from_token<T>(token: &Token<T>) -> (r: Option<Self>)
        ensures
            r == BinaryOperation::written_by(*token),
    {
        match token {
            Token::Dash => Some(BinaryOperation::Subtract),
            Token::Plus => Some(BinaryOperation::Add),
            Token::Asterisk => Some(BinaryOperation::Multiply),
            Token::Slash => Some(BinaryOperation::Divide),
            Token::Caret => Some(BinaryOperation::Exponent),
            _ => None,
        }
    }
}

/// The tokens that are still to be read, the next one last.
struct Parser<T> {
    rest: Vec<Token<T>>,
}

impl<T> Parser<T> {
    /// The parser has read `tokens[..at]` and holds the others.
    spec fn stands_at(&self, tokens: Seq<Token<T>>, at: int) -> bool {
        &&& 0 <= at <= tokens.len()
        &&& self.rest@.len() == tokens.len() - at
        &&& forall|k: int|
            0 <= k < self.rest@.len() ==> #[trigger] self.rest@[k] == tokens[tokens.len() - 1 - k]
    }

    /// A parser that has read none of `tokens`.
    fn new(tokens: Vec<Token<T>>) -> (r: Self)
        ensures
            r.stands_at(tokens@, 0),
    {
        let ghost all = tokens@;
        let mut tokens = tokens;
        let mut rest: Vec<Token<T>> = Vec::new();
        while tokens.len() > 0
            invariant
                tokens@.len() + rest@.len() == all.len(),
                forall|k: int| 0 <= k < tokens@.len() ==> #[trigger] tokens@[k] == all[k],
                forall|k: int|
                    0 <= k < rest@.len() ==> #[trigger] rest@[k] == all[all.len() - 1 - k],
            decreases tokens@.len(),
        {
            if let Some(token) = tokens.pop() {
                rest.push(token);
            }
        }
        Parser { rest }
    }

    /// Whether every token has been read.
    fn is_done(&self, Ghost(tokens): Ghost<Seq<Token<T>>>, Ghost(at): Ghost<int>) -> (r: bool)
        requires
            self.stands_at(tokens, at),
        ensures
            r == (at == tokens.len()),
    {
        self.rest.len() == 0
    }

    /// The operation of the given level that the next token writes, which
    /// is not read yet.
    fn operation(
        &self,
        level: usize,
        Ghost(tokens): Ghost<Seq<Token<T>>>,
        Ghost(at): Ghost<int>,
    ) -> (r: Option<BinaryOperation>)
        requires
            self.stands_at(tokens, at),
        ensures
            r == operation_at(tokens, at, level),
    {
        if self.rest.len() == 0 {
            return None;
        }
        match BinaryOperation::from_token(&self.rest[self.rest.len() - 1]) {
            Some(operation) => if operation.precedence() == level {
                Some(operation)
            } else {
                None
            },
            None => None,
        }
    }

    /// Reads the next token.
    fn skip(&mut self, Ghost(tokens): Ghost<Seq<Token<T>>>, Ghost(at): Ghost<int>)
        requires
            old(self).stands_at(tokens, at),
            at < tokens.len(),
        ensures
            final(self).stands_at(tokens, at + 1),
    {
        self.rest.pop();
    }

    /// Sum := Sum ('+' | '-') Product | Product
    fn c0(&mut self, Ghost(tokens): Ghost<Seq<Token<T>>>, Ghost(at): Ghost<int>) -> (r: Option<
        ASTNode<T>,
    >)
        requires
            old(self).stands_at(tokens, at),
        ensures
            match sum_at(tokens, at) {
                Some((tree, end)) => r == Some(tree) && final(self).stands_at(tokens, end),
                None => r is None,
            },
        decreases tokens.len() - at, 5int,
    {
        let mut left = match self.c1(Ghost(tokens), Ghost(at)) {
            Some(first) => first,
            None => return None,
        };
        let ghost mut here: int = product_at(tokens, at).unwrap().1;
        proof {
            lemma_product_advances(tokens, at);
        }
        loop
            invariant
                at < here <= tokens.len(),
                self.stands_at(tokens, here),
                sum_at(tokens, at) == sum_after(tokens, left, here),
            decreases tokens.len() - here,
        {
            let operation = match self.operation(SUM, Ghost(tokens), Ghost(here)) {
                Some(operation) => operation,
                None => return Some(left),
            };
            self.skip(Ghost(tokens), Ghost(here));
            let right = match self.c1(Ghost(tokens), Ghost(here + 1)) {
                Some(right) => right,
                None => return None,
            };
            proof {
                lemma_product_advances(tokens, here + 1);
                here = product_at(tokens, here + 1).unwrap().1;
            }
            left = ASTNode::Binary { operation, lhs: Box::new(left), rhs: Box::new(right) };
        }
    }

    /// Product := Product ('*' | '/') Power | Power
    fn c1(&mut self, Ghost(tokens): Ghost<Seq<Token<T>>>, Ghost(at): Ghost<int>) -> (r: Option<
        ASTNode<T>,
    >)
        requires
            old(self).stands_at(tokens, at),
        ensures
            match product_at(tokens, at) {
                Some((tree, end)) => r == Some(tree) && final(self).stands_at(tokens, end),
                None => r is None,
            },
        decreases tokens.len() - at, 3int,
    {
        let mut left = match self.c2(Ghost(tokens), Ghost(at)) {
            Some(first) => first,
            None => return None,
        };
        let ghost mut here: int = power_at(tokens, at).unwrap().1;
        proof {
            lemma_power_advances(tokens, at);
        }
        loop
            invariant
                at < here <= tokens.len(),
                self.stands_at(tokens, here),
                product_at(tokens, at) == product_after(tokens, left, here),
            decreases tokens.len() - here,
        {
            let operation = match self.operation(PRODUCT, Ghost(tokens), Ghost(here)) {
                Some(operation) => operation,
                None => return Some(left),
            };
            self.skip(Ghost(tokens), Ghost(here));
            let right = match self.c2(Ghost(tokens), Ghost(here + 1)) {
                Some(right) => right,
                None => return None,
            };
            proof {
                lemma_power_advances(tokens, here + 1);
                here = power_at(tokens, here + 1).unwrap().1;
            }
            left = ASTNode::Binary { operation, lhs: Box::new(left), rhs: Box::new(right) };
        }
    }

    /// Power := Atom '^' Power | Atom
    fn c2(&mut self, Ghost(tokens): Ghost<Seq<Token<T>>>, Ghost(at): Ghost<int>) -> (r: Option<
        ASTNode<T>,
    >)
        requires
            old(self).stands_at(tokens, at),
        ensures
            match power_at(tokens, at) {
                Some((tree, end)) => r == Some(tree) && final(self).stands_at(tokens, end),
                None => r is None,
            },
        decreases tokens.len() - at, 1int,
    {
        let base = match self.c3(Ghost(tokens), Ghost(at)) {
            Some(base) => base,
            None => return None,
        };
        let ghost end: int = atom_at(tokens, at).unwrap().1;
        proof {
            lemma_atom_advances(tokens, at);
        }
        let operation = match self.operation(POWER, Ghost(tokens), Ghost(end)) {
            Some(operation) => operation,
            None => return Some(base),
        };
        self.skip(Ghost(tokens), Ghost(end));
        match self.c2(Ghost(tokens), Ghost(end + 1)) {
            Some(exponent) => Some(
                ASTNode::Binary { operation, lhs: Box::new(base), rhs: Box::new(exponent) },
            ),
            None => None,
        }
    }

    /// Atom := '(' Sum ')' | Constant
    fn c3(&mut self, Ghost(tokens): Ghost<Seq<Token<T>>>, Ghost(at): Ghost<int>) -> (r: Option<
        ASTNode<T>,
    >)
        requires
            old(self).stands_at(tokens, at),
        ensures
            match atom_at(tokens, at) {
                Some((tree, end)) => r == Some(tree) && final(self).stands_at(tokens, end),
                None => r is None,
            },
        decreases tokens.len() - at, 0int,
    {
        match self.rest.pop() {
            Some(Token::Constant(value)) => Some(ASTNode::Constant(value)),
            Some(Token::OpenParenthesis) => {
                let tree = match self.c0(Ghost(tokens), Ghost(at + 1)) {
                    Some(tree) => tree,
                    None => return None,
                };
                proof {
                    lemma_sum_advances(tokens, at + 1);
                }
                match self.rest.pop() {
                    Some(Token::CloseParenthesis) => Some(tree),
                    _ => None,
                }
            },
            _ => None,
        }
    }
}


/// Whether as many of `tokens` open a parenthesis as close one.
fn balanced<T>(tokens: &Vec<Token<T>>) -> (r: bool)
    ensures
        r == is_balanced(tokens@),
{
    let mut open: usize = 0;
    let mut close: usize = 0;
    let mut at: usize = 0;
    while at < tokens.len()
        invariant
            at <= tokens@.len(),
            open == opened(tokens@, at as int),
            close == closed(tokens@, at as int),
            open <= at,
            close <= at,
        decreases tokens@.len() - at,
    {
        match tokens[at] {
            Token::OpenParenthesis => {
                open += 1;
            },
            Token::CloseParenthesis => {
                close += 1;
            },
            _ => {},
        }
        at += 1;
    }
    open == close
}

impl<T> ASTNode<T> {
    /// The expression that `tokens` write. The tokens are read to the last:
    /// where they write no expression as a whole, they are malformed.
    pub fn from_tokens(tokens: Vec<Token<T>>) -> (r: Result<Self, SemanticError>)
        ensures
            r is Ok <==> is_well_formed(tokens@),
            r matches Ok(tree) ==> is_expression(tokens@, tree),
            r matches Err(error) ==> error == SemanticError::MalformedExpression,
    {
        let ghost all = tokens@;
        proof {
            if is_well_formed(all) {
                lemma_descent(all, choose_expression(all));
            }
        }
        let mut parser = Parser::new(tokens);
        match parser.c0(Ghost(all), Ghost(0)) {
            Some(tree) => {
                if parser.is_done(Ghost(all), Ghost(sum_at(all, 0).unwrap().1)) {
                    proof {
                        lemma_descent(all, tree);
                    }
                    Ok(tree)
                } else {
                    Err(SemanticError::MalformedExpression)
                }
            },
            None => Err(SemanticError::MalformedExpression),
        }
    }

    /// The expression that the tokens write. Parentheses are counted
    /// first, over all the tokens: where the counts differ, nothing is
    /// parsed.
    pub fn new(expression: Vec<Token<T>>) -> (r: Result<Self, SemanticError>)
        ensures
            r is Ok <==> is_well_formed(expression@),
            match r {
                Ok(tree) => is_expression(expression@, tree),
                Err(SemanticError::UnbalancedParenthesis) => !is_balanced(expression@),
                Err(SemanticError::MalformedExpression) => is_balanced(expression@),
            },
    {
        proof {
            if is_well_formed(expression@) {
                lemma_expression_balanced(expression@, choose_expression(expression@));
            }
        }
        if !balanced(&expression) {
            return Err(SemanticError::UnbalancedParenthesis);
        }
        ASTNode::from_tokens(expression)
    }
}

/// The expression that `tokens` write, or why they write none.
pub fn parse<T>(tokens: Vec<Token<T>>) -> (r: Result<ASTNode<T>, SemanticError>)
    ensures
        r is Ok <==> is_well_formed(tokens@),
        match r {
            Ok(tree) => is_expression(tokens@, tree),
            Err(SemanticError::UnbalancedParenthesis) => !is_balanced(tokens@),
            Err(SemanticError::MalformedExpression) => is_balanced(tokens@),
        },
{
    ASTNode::new(tokens)
}

} // verus!
