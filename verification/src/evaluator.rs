//! The evaluator: from a tree to its value, in any numeric domain that has
//! the five operations.

use crate::grammar::choose_expression;
use crate::grammar::is_balanced;
use crate::grammar::is_expression;
use crate::grammar::is_well_formed;
use crate::grammar::ASTNode;
use crate::grammar::BinaryOperation;
use crate::laws::lemma_expression_balanced;
use crate::laws::lemma_views_expression;
use crate::laws::lemma_views_well_formed;
use crate::lexer::tokens_of;
use crate::lexer::views;
use crate::lexer::Symbol;
use crate::lexer::Token;
use crate::literal::Literal;
use crate::parser::SemanticError;
use crate::EvaluationError;
use crate::power::Pow;
use std::ops::Add;
use std::ops::Div;
use std::ops::Mul;
use std::ops::Sub;
use vstd::prelude::*;
use vstd::string::StringSliceAdditionalSpecFns;
use vstd::std_specs::convert::FromSpec;
use vstd::std_specs::ops::AddSpec;
use vstd::std_specs::ops::DivSpec;
use vstd::std_specs::ops::MulSpec;
use vstd::std_specs::ops::SubSpec;

verus! {

/// Each of the five operations of `T` returns what its specification says.
pub open spec fn obeys_arithmetic<
    T: Sub<Output = T> + Add<Output = T> + Mul<Output = T> + Div<Output = T> + Pow<T>,
>() -> bool {
    &&& T::obeys_sub_spec()
    &&& T::obeys_add_spec()
    &&& T::obeys_mul_spec()
    &&& T::obeys_div_spec()
    &&& T::obeys_pow_spec()
}

/// Each of the five operations of `T` may be applied to any two values, as
/// those of floating-point numbers may.
pub open spec fn is_total<
    T: Sub<Output = T> + Add<Output = T> + Mul<Output = T> + Div<Output = T> + Pow<T>,
>() -> bool {
    forall|operation: BinaryOperation, lhs: T, rhs: T| #[trigger] operation.applies(lhs, rhs)
}

impl BinaryOperation {
    /// The operation may be applied to `lhs` and `rhs`.
    pub open spec fn applies<
        T: Sub<Output = T> + Add<Output = T> + Mul<Output = T> + Div<Output = T> + Pow<T>,
    >(self, lhs: T, rhs: T) -> bool {
        match self {
            BinaryOperation::Subtract => lhs.sub_req(rhs),
            BinaryOperation::Add => lhs.add_req(rhs),
            BinaryOperation::Multiply => lhs.mul_req(rhs),
            BinaryOperation::Divide => lhs.div_req(rhs),
            BinaryOperation::Exponent => lhs.pow_req(rhs),
        }
    }

    /// What the operation makes of `lhs` and `rhs`.
    pub open spec fn applied<
        T: Sub<Output = T> + Add<Output = T> + Mul<Output = T> + Div<Output = T> + Pow<T>,
    >(self, lhs: T, rhs: T) -> T {
        match self {
            BinaryOperation::Subtract => lhs.sub_spec(rhs),
            BinaryOperation::Add => lhs.add_spec(rhs),
            BinaryOperation::Multiply => lhs.mul_spec(rhs),
            BinaryOperation::Divide => lhs.div_spec(rhs),
            BinaryOperation::Exponent => lhs.pow_spec(rhs),
        }
    }

    /// The operation of `T` returns what its specification says.
    pub open spec fn obeys<
        T: Sub<Output = T> + Add<Output = T> + Mul<Output = T> + Div<Output = T> + Pow<T>,
    >(self) -> bool {
        match self {
            BinaryOperation::Subtract => T::obeys_sub_spec(),
            BinaryOperation::Add => T::obeys_add_spec(),
            BinaryOperation::Multiply => T::obeys_mul_spec(),
            BinaryOperation::Divide => T::obeys_div_spec(),
            BinaryOperation::Exponent => T::obeys_pow_spec(),
        }
    }

    /// Applies the operation to `lhs` and `rhs`.
    pub fn operate<
        T: Sub<Output = T> + Add<Output = T> + Mul<Output = T> + Div<Output = T> + Pow<T>,
    >(&self, lhs: T, rhs: T) -> (r: T)
        requires
            self.applies(lhs, rhs),
        ensures
            self.obeys::<T>() ==> r == self.applied(lhs, rhs),
    {
        match self {
            BinaryOperation::Subtract => lhs - rhs,
            BinaryOperation::Add => lhs + rhs,
            BinaryOperation::Multiply => lhs * rhs,
            BinaryOperation::Divide => lhs / rhs,
            BinaryOperation::Exponent => lhs.pow(rhs),
        }
    }
}

impl<
    T: Sub<Output = T> + Add<Output = T> + Mul<Output = T> + Div<Output = T> + Pow<T>,
> ASTNode<T> {
    /// The value of the tree: that of a constant is the constant, that of
    /// an operation is the operation applied to the values of its operands,
    /// the left one first.
    pub open spec fn value(self) -> T
        decreases self,
    {
        match self {
            ASTNode::Constant(value) => value,
            ASTNode::Binary { operation, lhs, rhs } => operation.applied(lhs.value(), rhs.value()),
        }
    }

    /// Each operation in the tree may be applied to the values of its
    /// operands.
    pub open spec fn is_defined(self) -> bool
        decreases self,
    {
        match self {
            ASTNode::Constant(_) => true,
            ASTNode::Binary { operation, lhs, rhs } => {
                &&& lhs.is_defined()
                &&& rhs.is_defined()
                &&& operation.applies(lhs.value(), rhs.value())
            },
        }
    }
}

impl<
    T: Copy + Sub<Output = T> + Add<Output = T> + Mul<Output = T> + Div<Output = T> + Pow<T>,
> ASTNode<T> {
    /// The value of the tree, its operands computed before each operation.
    pub fn compute(&self) -> (r: T)
        requires
            is_total::<T>() || (obeys_arithmetic::<T>() && self.is_defined()),
        ensures
            obeys_arithmetic::<T>() ==> r == self.value(),
        decreases self,
    {
        match self {
            ASTNode::Constant(value) => *value,
            ASTNode::Binary { operation, lhs, rhs } => {
                let left = lhs.compute();
                let right = rhs.compute();
                assert(operation.applies(left, right));
                operation.operate(left, right)
            },
        }
    }
}

impl ASTNode<Literal> {
    /// The tree with each numeral turned into a number of `N`.
    pub open spec fn numbers<N: for <'a>From<&'a Literal>>(self) -> ASTNode<N>
        decreases self,
    {
        match self {
            ASTNode::Constant(literal) => ASTNode::Constant(N::from_spec(&literal)),
            ASTNode::Binary { operation, lhs, rhs } => ASTNode::Binary {
                operation,
                lhs: Box::new(lhs.numbers::<N>()),
                rhs: Box::new(rhs.numbers::<N>()),
            },
        }
    }

    /// The value of the tree in `N`: each numeral is turned into a number,
    /// and the operands of each operation are evaluated before it is
    /// applied.
    pub fn evaluate<
        N: for <'a>From<&'a Literal> + Sub<Output = N> + Add<Output = N> + Mul<Output = N> + Div<
            Output = N,
        > + Pow<N>,
    >(&self) -> (r: N)
        requires
            is_total::<N>() || (obeys_arithmetic::<N>() && N::obeys_from_spec()
                && self.numbers::<N>().is_defined()),
        ensures
            obeys_arithmetic::<N>() && N::obeys_from_spec() ==> r == self.numbers::<N>().value(),
        decreases self,
    {
        match self {
            ASTNode::Constant(literal) => N::from(literal),
            ASTNode::Binary { operation, lhs, rhs } => {
                let left = lhs.evaluate::<N>();
                let right = rhs.evaluate::<N>();
                assert(operation.applies(left, right));
                operation.operate(left, right)
            },
        }
    }

    /// The value in `N` of the expression that `expression` writes, or why
    /// it has none: the first lexical fault; else unbalanced parentheses;
    /// else tokens that write no expression.
    pub fn evaluate_from_string<
        N: for <'a>From<&'a Literal> + Sub<Output = N> + Add<Output = N> + Mul<Output = N> + Div<
            Output = N,
        > + Pow<N>,
    >(expression: &str) -> (r: Result<N, EvaluationError>)
        requires
            is_total::<N>(),
        ensures
            match tokens_of(expression.spec_bytes()) {
                Err((error, index)) => r matches Err(EvaluationError::ParserError { err, index: at })
                    && err == error && at == index,
                Ok(tokens) => if !is_balanced(tokens) {
                    r == Err::<N, _>(
                        EvaluationError::SemanticError(SemanticError::UnbalancedParenthesis),
                    )
                } else if !is_well_formed(tokens) {
                    r == Err::<N, _>(
                        EvaluationError::SemanticError(SemanticError::MalformedExpression),
                    )
                } else {
                    r matches Ok(number) && (obeys_arithmetic::<N>() && N::obeys_from_spec()
                        ==> is_value_of(tokens, number))
                },
            },
    {
        let symbols = match Symbol::from_str(expression) {
            Ok(symbols) => symbols,
            Err((err, index)) => return Err(EvaluationError::ParserError { err, index }),
        };
        proof {
            lemma_views_well_formed(symbols@);
            if is_well_formed(symbols@) {
                lemma_expression_balanced(symbols@, choose_expression(symbols@));
            }
        }
        let ghost written = symbols@;
        match ASTNode::new(symbols) {
            Ok(tree) => {
                let number = tree.evaluate::<N>();
                proof {
                    lemma_views_expression(written, tree);
                    if obeys_arithmetic::<N>() && N::obeys_from_spec() {
                        assert(number == tree.numbers::<N>().value());
                        assert(is_value_of(views(written), number));
                    }
                }
                Ok(number)
            },
            Err(error) => Err(EvaluationError::SemanticError(error)),
        }
    }
}

/// `number` is the value in `N` of a tree of numerals that `tokens` write.
pub open spec fn is_value_of<
    N: for <'a>From<&'a Literal> + Sub<Output = N> + Add<Output = N> + Mul<Output = N> + Div<
        Output = N,
    > + Pow<N>,
>(tokens: Seq<Token<Seq<u8>>>, number: N) -> bool {
    exists|tree: ASTNode<Literal>|
        is_expression(tokens, tree@) && number == #[trigger] tree.numbers::<N>().value()
}

} // verus!
