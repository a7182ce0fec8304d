//! What the grammar implies: laws that hold of every sequence of tokens.

use crate::descent::lemma_counts_views;
use crate::descent::lemma_descent;
use crate::descent::lemma_sum_views;
use crate::descent::sum_at;
use crate::grammar::choose_expression;
use crate::grammar::closed;
use crate::grammar::is_atom;
use crate::grammar::is_balanced;
use crate::grammar::is_expression;
use crate::grammar::is_power;
use crate::grammar::is_product;
use crate::grammar::is_sum;
use crate::grammar::is_well_formed;
use crate::grammar::opened;
use crate::grammar::ASTNode;
use crate::grammar::BinaryOperation;
use crate::grammar::POWER;
use crate::grammar::PRODUCT;
use crate::lexer::views;
use crate::lexer::Token;
use vstd::prelude::*;

verus! {

/// `tokens[from..to]` opens as many parentheses as it closes.
pub open spec fn is_balanced_between<T>(tokens: Seq<Token<T>>, from: int, to: int) -> bool {
    opened(tokens, to) - opened(tokens, from) == closed(tokens, to) - closed(tokens, from)
}

proof fn lemma_atom_balanced<T>(tokens: Seq<Token<T>>, from: int, to: int, tree: ASTNode<T>)
    requires
        is_atom(tokens, from, to, tree),
    ensures
        is_balanced_between(tokens, from, to),
    decreases to - from, 0int,
{
    if tokens[from] is OpenParenthesis {
        lemma_sum_balanced(tokens, from + 1, to - 1, tree);
    }
}

proof fn lemma_power_balanced<T>(tokens: Seq<Token<T>>, from: int, to: int, tree: ASTNode<T>)
    requires
        is_power(tokens, from, to, tree),
    ensures
        is_balanced_between(tokens, from, to),
    decreases to - from, 1int,
{
    if is_atom(tokens, from, to, tree) {
        lemma_atom_balanced(tokens, from, to, tree);
    } else {
        let middle = choose|middle: int|
            {
                &&& from < middle < to
                &&& BinaryOperation::written_by(#[trigger] tokens[middle]) == Some(tree->operation)
                &&& is_atom(tokens, from, middle, *tree->lhs)
                &&& is_power(tokens, middle + 1, to, *tree->rhs)
            };
        lemma_atom_balanced(tokens, from, middle, *tree->lhs);
        lemma_power_balanced(tokens, middle + 1, to, *tree->rhs);
    }
}

proof fn lemma_product_balanced<T>(tokens: Seq<Token<T>>, from: int, to: int, tree: ASTNode<T>)
    requires
        is_product(tokens, from, to, tree),
    ensures
        is_balanced_between(tokens, from, to),
    decreases to - from, 2int,
{
    if is_power(tokens, from, to, tree) {
        lemma_power_balanced(tokens, from, to, tree);
    } else {
        let middle = choose|middle: int|
            {
                &&& from < middle < to
                &&& BinaryOperation::written_by(#[trigger] tokens[middle]) == Some(tree->operation)
                &&& is_product(tokens, from, middle, *tree->lhs)
                &&& is_power(tokens, middle + 1, to, *tree->rhs)
            };
        lemma_product_balanced(tokens, from, middle, *tree->lhs);
        lemma_power_balanced(tokens, middle + 1, to, *tree->rhs);
    }
}

proof fn lemma_sum_balanced<T>(tokens: Seq<Token<T>>, from: int, to: int, tree: ASTNode<T>)
    requires
        is_sum(tokens, from, to, tree),
    ensures
        is_balanced_between(tokens, from, to),
    decreases to - from, 3int,
{
    if is_product(tokens, from, to, tree) {
        lemma_product_balanced(tokens, from, to, tree);
    } else {
        let middle = choose|middle: int|
            {
                &&& from < middle < to
                &&& BinaryOperation::written_by(#[trigger] tokens[middle]) == Some(tree->operation)
                &&& is_sum(tokens, from, middle, *tree->lhs)
                &&& is_product(tokens, middle + 1, to, *tree->rhs)
            };
        lemma_sum_balanced(tokens, from, middle, *tree->lhs);
        lemma_product_balanced(tokens, middle + 1, to, *tree->rhs);
    }
}

/// The tokens of an expression open as many parentheses as they close.
pub proof fn lemma_expression_balanced<T>(tokens: Seq<Token<T>>, tree: ASTNode<T>)
    requires
        is_expression(tokens, tree),
    ensures
        is_balanced(tokens),
{
    lemma_sum_balanced(tokens, 0, tokens.len() as int, tree);
}

/// A constant alone writes itself.
pub proof fn lemma_constant<T>(value: T)
    ensures
        is_expression(seq![Token::Constant(value)], ASTNode::Constant(value)),
{
    let tokens = seq![Token::Constant(value)];
    let tree = ASTNode::Constant(value);
    assert(is_atom(tokens, 0, 1, tree));
    assert(is_power(tokens, 0, 1, tree));
    assert(is_product(tokens, 0, 1, tree));
}

/// One operation between two constants writes that operation on them.
pub proof fn lemma_one_operation<T>(a: T, operation: BinaryOperation, b: T)
    ensures
        is_expression(
            seq![Token::Constant(a), operation.token(), Token::Constant(b)],
            operation.of(ASTNode::Constant(a), ASTNode::Constant(b)),
        ),
{
    let tokens = seq![Token::Constant(a), operation.token(), Token::Constant(b)];
    let left = ASTNode::Constant(a);
    let right = ASTNode::Constant(b);
    assert(is_atom(tokens, 0, 1, left));
    assert(is_power(tokens, 0, 1, left));
    assert(is_product(tokens, 0, 1, left));
    assert(is_sum(tokens, 0, 1, left));
    assert(is_atom(tokens, 2, 3, right));
    assert(is_power(tokens, 2, 3, right));
    assert(is_product(tokens, 2, 3, right));
    assert(BinaryOperation::written_by(tokens[1]) == Some(operation));
    let tree = operation.of(left, right);
    if operation.binding() == POWER {
        assert(is_power(tokens, 0, 3, tree));
        assert(is_product(tokens, 0, 3, tree));
    } else if operation.binding() == PRODUCT {
        assert(is_product(tokens, 0, 3, tree));
    }
    assert(is_sum(tokens, 0, 3, tree));
}

/// Of two operations between three constants, the second is applied first
/// where it binds tighter than the first, and where both are powers;
/// otherwise the first is. So `2-3-4` is `(2-3)-4`, `2^3^2` is `2^(3^2)`,
/// `2+3*4` is `2+(3*4)` and `2*3+4` is `(2*3)+4`.
pub proof fn lemma_two_operations<T>(
    a: T,
    first: BinaryOperation,
    b: T,
    second: BinaryOperation,
    c: T,
)
    ensures
        is_expression(
            seq![
                Token::Constant(a),
                first.token(),
                Token::Constant(b),
                second.token(),
                Token::Constant(c),
            ],
            if first.binding() < second.binding() || (first.binding() == POWER && second.binding()
                == POWER) {
                first.of(
                    ASTNode::Constant(a),
                    second.of(ASTNode::Constant(b), ASTNode::Constant(c)),
                )
            } else {
                second.of(
                    first.of(ASTNode::Constant(a), ASTNode::Constant(b)),
                    ASTNode::Constant(c),
                )
            },
        ),
{
    let tokens = seq![
        Token::Constant(a),
        first.token(),
        Token::Constant(b),
        second.token(),
        Token::Constant(c),
    ];
    let x = ASTNode::Constant(a);
    let y = ASTNode::Constant(b);
    let z = ASTNode::Constant(c);
    assert(is_atom(tokens, 0, 1, x));
    assert(is_power(tokens, 0, 1, x));
    assert(is_product(tokens, 0, 1, x));
    assert(is_sum(tokens, 0, 1, x));
    assert(is_atom(tokens, 2, 3, y));
    assert(is_power(tokens, 2, 3, y));
    assert(is_product(tokens, 2, 3, y));
    assert(is_atom(tokens, 4, 5, z));
    assert(is_power(tokens, 4, 5, z));
    assert(is_product(tokens, 4, 5, z));
    assert(BinaryOperation::written_by(tokens[1]) == Some(first));
    assert(BinaryOperation::written_by(tokens[3]) == Some(second));
    if first.binding() < second.binding() || (first.binding() == POWER && second.binding()
        == POWER) {
        let right = second.of(y, z);
        let tree = first.of(x, right);
        if second.binding() == POWER {
            assert(is_power(tokens, 2, 5, right));
        }
        assert(is_product(tokens, 2, 5, right));
        if first.binding() == POWER {
            assert(is_power(tokens, 0, 5, tree));
            assert(is_product(tokens, 0, 5, tree));
        } else if first.binding() == PRODUCT {
            assert(is_product(tokens, 0, 5, tree));
        }
        assert(is_sum(tokens, 0, 5, tree));
    } else {
        let left = first.of(x, y);
        let tree = second.of(left, z);
        if first.binding() == POWER {
            assert(is_power(tokens, 0, 3, left));
            assert(is_product(tokens, 0, 3, left));
        } else if first.binding() == PRODUCT {
            assert(is_product(tokens, 0, 3, left));
        }
        assert(is_sum(tokens, 0, 3, left));
        if second.binding() == PRODUCT {
            assert(is_product(tokens, 0, 5, tree));
        }
        assert(is_sum(tokens, 0, 5, tree));
    }
}

/// What `tokens[from..to]` write, the same tokens write wherever they
/// stand: in `other`, `by` places further on.
proof fn lemma_atom_moves<T>(
    tokens: Seq<Token<T>>,
    from: int,
    to: int,
    tree: ASTNode<T>,
    other: Seq<Token<T>>,
    by: int,
)
    requires
        is_atom(tokens, from, to, tree),
        0 <= from + by,
        to + by <= other.len(),
        forall|k: int| from <= k < to ==> tokens[k] == #[trigger] other[k + by],
    ensures
        is_atom(other, from + by, to + by, tree),
    decreases to - from, 0int,
{
    assert(tokens[from] == other[from + by]);
    assert(tokens[to - 1] == other[to - 1 + by]);
    if tokens[from] is OpenParenthesis {
        lemma_sum_moves(tokens, from + 1, to - 1, tree, other, by);
    }
}

proof fn lemma_power_moves<T>(
    tokens: Seq<Token<T>>,
    from: int,
    to: int,
    tree: ASTNode<T>,
    other: Seq<Token<T>>,
    by: int,
)
    requires
        is_power(tokens, from, to, tree),
        0 <= from + by,
        to + by <= other.len(),
        forall|k: int| from <= k < to ==> tokens[k] == #[trigger] other[k + by],
    ensures
        is_power(other, from + by, to + by, tree),
    decreases to - from, 1int,
{
    if is_atom(tokens, from, to, tree) {
        lemma_atom_moves(tokens, from, to, tree, other, by);
    } else {
        let middle = choose|middle: int|
            {
                &&& from < middle < to
                &&& BinaryOperation::written_by(#[trigger] tokens[middle]) == Some(tree->operation)
                &&& is_atom(tokens, from, middle, *tree->lhs)
                &&& is_power(tokens, middle + 1, to, *tree->rhs)
            };
        lemma_atom_moves(tokens, from, middle, *tree->lhs, other, by);
        lemma_power_moves(tokens, middle + 1, to, *tree->rhs, other, by);
        assert(tokens[middle] == other[middle + by]);
    }
}

proof fn lemma_product_moves<T>(
    tokens: Seq<Token<T>>,
    from: int,
    to: int,
    tree: ASTNode<T>,
    other: Seq<Token<T>>,
    by: int,
)
    requires
        is_product(tokens, from, to, tree),
        0 <= from + by,
        to + by <= other.len(),
        forall|k: int| from <= k < to ==> tokens[k] == #[trigger] other[k + by],
    ensures
        is_product(other, from + by, to + by, tree),
    decreases to - from, 2int,
{
    if is_power(tokens, from, to, tree) {
        lemma_power_moves(tokens, from, to, tree, other, by);
    } else {
        let middle = choose|middle: int|
            {
                &&& from < middle < to
                &&& BinaryOperation::written_by(#[trigger] tokens[middle]) == Some(tree->operation)
                &&& is_product(tokens, from, middle, *tree->lhs)
                &&& is_power(tokens, middle + 1, to, *tree->rhs)
            };
        lemma_product_moves(tokens, from, middle, *tree->lhs, other, by);
        lemma_power_moves(tokens, middle + 1, to, *tree->rhs, other, by);
        assert(tokens[middle] == other[middle + by]);
    }
}

proof fn lemma_sum_moves<T>(
    tokens: Seq<Token<T>>,
    from: int,
    to: int,
    tree: ASTNode<T>,
    other: Seq<Token<T>>,
    by: int,
)
    requires
        is_sum(tokens, from, to, tree),
        0 <= from + by,
        to + by <= other.len(),
        forall|k: int| from <= k < to ==> tokens[k] == #[trigger] other[k + by],
    ensures
        is_sum(other, from + by, to + by, tree),
    decreases to - from, 3int,
{
    if is_product(tokens, from, to, tree) {
        lemma_product_moves(tokens, from, to, tree, other, by);
    } else {
        let middle = choose|middle: int|
            {
                &&& from < middle < to
                &&& BinaryOperation::written_by(#[trigger] tokens[middle]) == Some(tree->operation)
                &&& is_sum(tokens, from, middle, *tree->lhs)
                &&& is_product(tokens, middle + 1, to, *tree->rhs)
            };
        lemma_sum_moves(tokens, from, middle, *tree->lhs, other, by);
        lemma_product_moves(tokens, middle + 1, to, *tree->rhs, other, by);
        assert(tokens[middle] == other[middle + by]);
    }
}

/// An expression in parentheses is the same expression: `(5)` and `((5))`
/// are `5`.
pub proof fn lemma_parenthesized<T>(tokens: Seq<Token<T>>, tree: ASTNode<T>)
    requires
        is_expression(tokens, tree),
    ensures
        is_expression(
            seq![Token::OpenParenthesis] + tokens + seq![Token::CloseParenthesis],
            tree,
        ),
{
    let around = seq![Token::OpenParenthesis] + tokens + seq![Token::CloseParenthesis];
    let end = around.len() as int;
    lemma_sum_moves(tokens, 0, tokens.len() as int, tree, around, 1);
    assert(around[0] is OpenParenthesis);
    assert(around[end - 1] is CloseParenthesis);
    assert(is_atom(around, 0, end, tree));
    assert(is_power(around, 0, end, tree));
    assert(is_product(around, 0, end, tree));
}

/// An operation between two expressions in parentheses writes that
/// operation on them, whatever binds how tightly inside: `(5-2)*5` is the
/// product of `5-2` and `5`.
pub proof fn lemma_operation_on_parenthesized<T>(
    left: Seq<Token<T>>,
    lhs: ASTNode<T>,
    operation: BinaryOperation,
    right: Seq<Token<T>>,
    rhs: ASTNode<T>,
)
    requires
        is_expression(left, lhs),
        is_expression(right, rhs),
    ensures
        is_expression(
            seq![Token::OpenParenthesis] + left + seq![Token::CloseParenthesis, operation.token()]
                + seq![Token::OpenParenthesis] + right + seq![Token::CloseParenthesis],
            operation.of(lhs, rhs),
        ),
{
    let all = seq![Token::OpenParenthesis] + left + seq![Token::CloseParenthesis, operation.token()]
        + seq![Token::OpenParenthesis] + right + seq![Token::CloseParenthesis];
    let middle = left.len() as int + 2;
    let end = all.len() as int;
    lemma_sum_moves(left, 0, left.len() as int, lhs, all, 1);
    lemma_sum_moves(right, 0, right.len() as int, rhs, all, middle + 2);
    assert(all[0] is OpenParenthesis);
    assert(all[middle - 1] is CloseParenthesis);
    assert(all[middle + 1] is OpenParenthesis);
    assert(all[end - 1] is CloseParenthesis);
    assert(is_atom(all, 0, middle, lhs));
    assert(is_power(all, 0, middle, lhs));
    assert(is_product(all, 0, middle, lhs));
    assert(is_sum(all, 0, middle, lhs));
    assert(is_atom(all, middle + 1, end, rhs));
    assert(is_power(all, middle + 1, end, rhs));
    assert(is_product(all, middle + 1, end, rhs));
    assert(BinaryOperation::written_by(all[middle]) == Some(operation));
    let tree = operation.of(lhs, rhs);
    if operation.binding() == POWER {
        assert(is_power(all, 0, end, tree));
        assert(is_product(all, 0, end, tree));
    } else if operation.binding() == PRODUCT {
        assert(is_product(all, 0, end, tree));
    }
    assert(is_sum(all, 0, end, tree));
}

/// A sequence of tokens writes at most one expression.
pub proof fn lemma_expression_unique<T>(tokens: Seq<Token<T>>, one: ASTNode<T>, other: ASTNode<T>)
    requires
        is_expression(tokens, one),
        is_expression(tokens, other),
    ensures
        one == other,
{
    lemma_descent(tokens, one);
    lemma_descent(tokens, other);
}

/// Whether tokens are balanced, and whether they write an expression, is
/// decided by their views.
pub proof fn lemma_views_well_formed<T: View>(tokens: Seq<Token<T>>)
    ensures
        is_balanced(views(tokens)) == is_balanced(tokens),
        is_well_formed(views(tokens)) == is_well_formed(tokens),
{
    lemma_counts_views(tokens, tokens.len() as int);
    lemma_sum_views(tokens, 0);
    if is_well_formed(tokens) {
        let tree = choose_expression(tokens);
        lemma_descent(tokens, tree);
        lemma_descent(views(tokens), tree@);
    }
    if is_well_formed(views(tokens)) {
        let seen = choose_expression(views(tokens));
        lemma_descent(views(tokens), seen);
        let tree = sum_at(tokens, 0).unwrap().0;
        lemma_descent(tokens, tree);
    }
}

/// The views of tokens that write a tree write the view of the tree.
pub proof fn lemma_views_expression<T: View>(tokens: Seq<Token<T>>, tree: ASTNode<T>)
    requires
        is_expression(tokens, tree),
    ensures
        is_expression(views(tokens), tree@),
{
    lemma_sum_views(tokens, 0);
    lemma_descent(tokens, tree);
    lemma_descent(views(tokens), tree@);
}

} // verus!
