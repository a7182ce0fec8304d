use pemdas::ASTNode;
use pemdas::BinaryOperation;
use pemdas::EvaluationError;
use pemdas::Literal;
use pemdas::Pow;
use pemdas::SemanticError;
use pemdas::Symbol;
use pemdas::SymbolicError;
use std::ops::Add;
use std::ops::Div;
use std::ops::Mul;
use std::ops::Sub;

/// Single-precision numbers as a numeric domain of the library.
#[derive(Debug, Clone, Copy, PartialEq)]
struct Real(f32);

impl<'a> From<&'a Literal> for Real {
    fn from(literal: &'a Literal) -> Real {
        Real(std::str::from_utf8(literal.as_bytes()).unwrap().parse().unwrap())
    }
}

impl Add for Real {
    type Output = Real;

    fn add(self, rhs: Real) -> Real {
        Real(self.0 + rhs.0)
    }
}

impl Sub for Real {
    type Output = Real;

    fn sub(self, rhs: Real) -> Real {
        Real(self.0 - rhs.0)
    }
}

impl Mul for Real {
    type Output = Real;

    fn mul(self, rhs: Real) -> Real {
        Real(self.0 * rhs.0)
    }
}

impl Div for Real {
    type Output = Real;

    fn div(self, rhs: Real) -> Real {
        Real(self.0 / rhs.0)
    }
}

impl Pow<Real> for Real {
    fn pow(&self, rhs: Real) -> Real {
        Real(self.0.powf(rhs.0))
    }
}

fn value_of(expression: &str) -> f32 {
    ASTNode::new(Symbol::from_str(expression).unwrap()).unwrap().evaluate::<Real>().0
}

#[test]
fn ast_construction() {
    let ast = ASTNode::new(Symbol::from_str("(2+3()").unwrap());
    assert_eq!(ast, Err(SemanticError::UnbalancedParenthesis));
}

fn numeral(text: &str) -> Box<ASTNode<Literal>> {
    Box::new(ASTNode::Constant(Literal::new(text).unwrap()))
}

#[test]
fn ast_evaluate() {
    let ast = ASTNode::Binary {
        operation: BinaryOperation::Add,
        lhs: numeral("5."),
        rhs: numeral("7."),
    };
    assert_eq!(ast.evaluate::<Real>().0, 12.);
    let ast = ASTNode::Binary {
        operation: BinaryOperation::Add,
        lhs: Box::new(ASTNode::Binary {
            operation: BinaryOperation::Multiply,
            lhs: numeral("2."),
            rhs: numeral("9."),
        }),
        rhs: numeral("7."),
    };
    assert_eq!(ast.evaluate::<Real>().0, 25.);
}

#[test]
fn trees_of_numbers_are_computed() {
    let ast = ASTNode::Binary {
        operation: BinaryOperation::Add,
        lhs: Box::new(ASTNode::Constant(Real(5.))),
        rhs: Box::new(ASTNode::Constant(Real(7.))),
    };
    assert_eq!(ast.compute().0, 12.);
    let ast = ASTNode::Binary {
        operation: BinaryOperation::Add,
        lhs: Box::new(ASTNode::Binary {
            operation: BinaryOperation::Multiply,
            lhs: Box::new(ASTNode::Constant(Real(2.))),
            rhs: Box::new(ASTNode::Constant(Real(9.))),
        }),
        rhs: Box::new(ASTNode::Constant(Real(7.))),
    };
    assert_eq!(ast.compute().0, 25.);
}

#[test]
fn ast_constructor_braceless() {
    assert_eq!(value_of("2+5*9/3^2"), 7f32);
    assert_eq!(value_of("2*15*0.5-3^2"), 6f32);
    assert_eq!(value_of("2*15/0.5-3-2"), 55f32);
    assert_eq!(value_of("4^2/8+2*4"), 10f32);
    assert_eq!(value_of("50/5*2-2^2*4/2+7"), 19f32);
    assert_eq!(value_of("567-78*13*4-8*12"), -3585f32);
    assert_eq!(value_of("0.9-10+5/9*2^8"), 133.12222f32);
    assert_eq!(value_of("3^0.5+9-8/5-8*6"), -38.86795f32);
}

#[test]
fn ast_constructor_with_braces() {
    assert_eq!(value_of("5*(9+3)"), 60f32);
    assert_eq!(value_of("69+420^0.5+(5-2)*5"), 104.493904f32);
    assert_eq!(value_of("0.5-(9^2)+10/3*(11+5)"), -27.166668f32);
    assert_eq!(value_of("(5)"), 5f32);
    assert_eq!(value_of("((5))"), 5f32);
    assert_eq!(value_of("((10*(1)))^0.2"), 10f32.powf(0.2));
}

fn evaluated(expression: &str) -> Result<f32, EvaluationError> {
    ASTNode::evaluate_from_string::<Real>(expression).map(|number| number.0)
}

#[test]
fn evaluate_follows_associativity() {
    assert_eq!(evaluated("2-3-4"), Ok(-5f32));
    assert_eq!(evaluated("2^3^2"), Ok(512f32));
}

#[test]
fn evaluate_follows_precedence() {
    assert_eq!(evaluated("2+5*9/3^2"), Ok(7f32));
    assert_eq!(evaluated("4^2/8+2*4"), Ok(10f32));
}

#[test]
fn evaluate_follows_parentheses() {
    assert_eq!(evaluated("5*(9+3)"), Ok(60f32));
    assert_eq!(evaluated("((10*(1)))^0.2"), Ok(10f32.powf(0.2)));
    assert_eq!(evaluated("(5-2)*5"), Ok(15f32));
}

#[test]
fn evaluate_reports_unbalanced_parentheses() {
    assert_eq!(
        evaluated("(2+3("),
        Err(EvaluationError::SemanticError(SemanticError::UnbalancedParenthesis))
    );
}

#[test]
fn evaluate_reports_malformed_expressions() {
    assert_eq!(
        evaluated("2+"),
        Err(EvaluationError::SemanticError(SemanticError::MalformedExpression))
    );
    assert_eq!(
        evaluated(""),
        Err(EvaluationError::SemanticError(SemanticError::MalformedExpression))
    );
    assert_eq!(
        evaluated("2++2"),
        Err(EvaluationError::SemanticError(SemanticError::MalformedExpression))
    );
}

#[test]
fn evaluate_reports_lexical_faults_with_their_index() {
    assert_eq!(
        evaluated("2&3"),
        Err(EvaluationError::ParserError { err: SymbolicError::UnknownSymbol, index: 1 })
    );
    assert_eq!(
        evaluated("1.2.3"),
        Err(EvaluationError::ParserError { err: SymbolicError::InvalidConst, index: 4 })
    );
    assert_eq!(
        evaluated("(1.2.3"),
        Err(EvaluationError::ParserError { err: SymbolicError::InvalidConst, index: 5 })
    );
}

#[test]
fn division_by_zero_follows_the_numbers() {
    assert_eq!(evaluated("1/0"), Ok(f32::INFINITY));
    assert_eq!(evaluated("0-1/0"), Ok(f32::NEG_INFINITY));
    assert!(evaluated("0/0").unwrap().is_nan());
}

#[test]
fn operands_are_evaluated_before_the_operation() {
    assert_eq!(BinaryOperation::Subtract.operate(Real(7.), Real(2.)), Real(5.));
    assert_eq!(BinaryOperation::Add.operate(Real(7.), Real(2.)), Real(9.));
    assert_eq!(BinaryOperation::Multiply.operate(Real(7.), Real(2.)), Real(14.));
    assert_eq!(BinaryOperation::Divide.operate(Real(7.), Real(2.)), Real(3.5));
    assert_eq!(BinaryOperation::Exponent.operate(Real(7.), Real(2.)), Real(49.));
}

#[test]
fn whole_numbers_are_a_domain_too() {
    assert_eq!(BinaryOperation::Subtract.operate(7u32, 2u32), 5);
    assert_eq!(BinaryOperation::Add.operate(7u32, 2u32), 9);
    assert_eq!(BinaryOperation::Multiply.operate(7u32, 2u32), 14);
    assert_eq!(BinaryOperation::Divide.operate(7u32, 2u32), 3);
    assert_eq!(BinaryOperation::Exponent.operate(7u32, 2u32), 49);
    let tree = ASTNode::Binary {
        operation: BinaryOperation::Add,
        lhs: Box::new(ASTNode::Binary {
            operation: BinaryOperation::Exponent,
            lhs: Box::new(ASTNode::Constant(2u32)),
            rhs: Box::new(ASTNode::Constant(10u32)),
        }),
        rhs: Box::new(ASTNode::Constant(5u32)),
    };
    assert_eq!(tree.compute(), 1029);
}

#[test]
fn powers_of_whole_numbers_wrap_around() {
    assert_eq!(Pow::pow(&2u32, 10), 1024);
    assert_eq!(Pow::pow(&3u32, 0), 1);
    assert_eq!(Pow::pow(&0u32, 0), 1);
    assert_eq!(Pow::pow(&2u32, 32), 0);
    assert_eq!(Pow::pow(&3u32, 21), 1870418611);
    assert_eq!(Pow::pow(&10u32, 10), 1410065408);
}

#[test]
fn evaluate_and_compute_agree() {
    let tree = ASTNode::new(Symbol::from_str("2*15/0.5-3-2").unwrap()).unwrap();
    assert_eq!(tree.evaluate::<Real>(), Real(55.));
    let numbers = ASTNode::Binary {
        operation: BinaryOperation::Divide,
        lhs: Box::new(ASTNode::Constant(Real(15.))),
        rhs: Box::new(ASTNode::Constant(Real(0.5))),
    };
    assert_eq!(numbers.compute(), Real(30.));
}
