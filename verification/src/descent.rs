//! The descent as a function: what each rule of the grammar finds from a
//! position on, and the proof that it finds exactly what the grammar
//! allows.

use crate::grammar::closed;
use crate::grammar::is_atom;
use crate::grammar::is_expression;
use crate::grammar::is_power;
use crate::grammar::is_product;
use crate::grammar::is_sum;
use crate::grammar::opened;
use crate::grammar::ASTNode;
use crate::grammar::BinaryOperation;
use crate::grammar::POWER;
use crate::grammar::PRODUCT;
use crate::grammar::SUM;
use crate::lexer::views;
use crate::lexer::Token;
use vstd::prelude::*;

verus! {

/// The operation that binds as tightly as `level` and is written at `at`.
pub(crate) open spec fn operation_at<T>(tokens: Seq<Token<T>>, at: int, level: usize) -> Option<
    BinaryOperation,
> {
    if 0 <= at < tokens.len() && BinaryOperation::written_at(tokens[at], level) {
        BinaryOperation::written_by(tokens[at])
    } else {
        None
    }
}

/// The atom that begins at `at`, with the position behind it.
pub(crate) open spec fn atom_at<T>(tokens: Seq<Token<T>>, at: int) -> Option<(ASTNode<T>, int)>
    decreases tokens.len() - at, 0int,
{
    if 0 <= at < tokens.len() {
        match tokens[at] {
            Token::Constant(value) => Some((ASTNode::Constant(value), at + 1)),
            Token::OpenParenthesis => match sum_at(tokens, at + 1) {
                Some((tree, end)) => if end < tokens.len() && tokens[end] is CloseParenthesis {
                    Some((tree, end + 1))
                } else {
                    None
                },
                None => None,
            },
            _ => None,
        }
    } else {
        None
    }
}

/// The longest power that begins at `at`, with the position behind it.
pub(crate) open spec fn power_at<T>(tokens: Seq<Token<T>>, at: int) -> Option<(ASTNode<T>, int)>
    decreases tokens.len() - at, 1int,
{
    match atom_at(tokens, at) {
        Some((base, end)) => if at < end <= tokens.len() {
            match operation_at(tokens, end, POWER) {
                Some(operation) => match power_at(tokens, end + 1) {
                    Some((exponent, stop)) => Some(
                        (
                            ASTNode::Binary {
                                operation,
                                lhs: Box::new(base),
                                rhs: Box::new(exponent),
                            },
                            stop,
                        ),
                    ),
                    None => None,
                },
                None => Some((base, end)),
            }
        } else {
            None
        },
        None => None,
    }
}

/// The longest product that begins with `left`, which ends before `at`.
pub(crate) open spec fn product_after<T>(tokens: Seq<Token<T>>, left: ASTNode<T>, at: int) -> Option<
    (ASTNode<T>, int),
>
    decreases tokens.len() - at, 2int,
{
    match operation_at(tokens, at, PRODUCT) {
        Some(operation) => match power_at(tokens, at + 1) {
            Some((right, end)) => if at < end <= tokens.len() {
                product_after(
                    tokens,
                    ASTNode::Binary { operation, lhs: Box::new(left), rhs: Box::new(right) },
                    end,
                )
            } else {
                None
            },
            None => None,
        },
        None => Some((left, at)),
    }
}

/// The longest product that begins at `at`, with the position behind it.
pub(crate) open spec fn product_at<T>(tokens: Seq<Token<T>>, at: int) -> Option<(ASTNode<T>, int)>
    decreases tokens.len() - at, 3int,
{
    match power_at(tokens, at) {
        Some((first, end)) => if at < end <= tokens.len() {
            product_after(tokens, first, end)
        } else {
            None
        },
        None => None,
    }
}

/// The longest sum that begins with `left`, which ends before `at`.
pub(crate) open spec fn sum_after<T>(tokens: Seq<Token<T>>, left: ASTNode<T>, at: int) -> Option<
    (ASTNode<T>, int),
>
    decreases tokens.len() - at, 4int,
{
    match operation_at(tokens, at, SUM) {
        Some(operation) => match product_at(tokens, at + 1) {
            Some((right, end)) => if at < end <= tokens.len() {
                sum_after(
                    tokens,
                    ASTNode::Binary { operation, lhs: Box::new(left), rhs: Box::new(right) },
                    end,
                )
            } else {
                None
            },
            None => None,
        },
        None => Some((left, at)),
    }
}

/// The longest sum that begins at `at`, with the position behind it.
pub(crate) open spec fn sum_at<T>(tokens: Seq<Token<T>>, at: int) -> Option<(ASTNode<T>, int)>
    decreases tokens.len() - at, 5int,
{
    match product_at(tokens, at) {
        Some((first, end)) => if at < end <= tokens.len() {
            sum_after(tokens, first, end)
        } else {
            None
        },
        None => None,
    }
}

/// What the descent finds lies behind where it began, within the tokens.
pub(crate) proof fn lemma_atom_advances<T>(tokens: Seq<Token<T>>, at: int)
    ensures
        atom_at(tokens, at) matches Some((_, end)) ==> at < end <= tokens.len(),
    decreases tokens.len() - at, 0int,
{
    if 0 <= at < tokens.len() && tokens[at] is OpenParenthesis {
        lemma_sum_advances(tokens, at + 1);
    }
}

pub(crate) proof fn lemma_power_advances<T>(tokens: Seq<Token<T>>, at: int)
    ensures
        power_at(tokens, at) matches Some((_, end)) ==> at < end <= tokens.len(),
    decreases tokens.len() - at, 1int,
{
    if let Some((_, end)) = atom_at(tokens, at) {
        if at < end <= tokens.len() && operation_at(tokens, end, POWER) is Some {
            lemma_power_advances(tokens, end + 1);
        }
    }
}

pub(crate) proof fn lemma_product_advances<T>(tokens: Seq<Token<T>>, at: int)
    ensures
        product_at(tokens, at) matches Some((_, end)) ==> at < end <= tokens.len(),
    decreases tokens.len() - at, 3int,
{
    if let Some((first, end)) = power_at(tokens, at) {
        if at < end <= tokens.len() {
            lemma_product_after_advances(tokens, first, end);
        }
    }
}

pub(crate) proof fn lemma_product_after_advances<T>(tokens: Seq<Token<T>>, left: ASTNode<T>, at: int)
    requires
        at <= tokens.len(),
    ensures
        product_after(tokens, left, at) matches Some((_, end)) ==> at <= end <= tokens.len(),
    decreases tokens.len() - at, 2int,
{
    if let Some(operation) = operation_at(tokens, at, PRODUCT) {
        if let Some((right, end)) = power_at(tokens, at + 1) {
            if at < end <= tokens.len() {
                lemma_product_after_advances(
                    tokens,
                    ASTNode::Binary { operation, lhs: Box::new(left), rhs: Box::new(right) },
                    end,
                );
            }
        }
    }
}

pub(crate) proof fn lemma_sum_after_advances<T>(tokens: Seq<Token<T>>, left: ASTNode<T>, at: int)
    requires
        at <= tokens.len(),
    ensures
        sum_after(tokens, left, at) matches Some((_, end)) ==> at <= end <= tokens.len(),
    decreases tokens.len() - at, 4int,
{
    if let Some(operation) = operation_at(tokens, at, SUM) {
        if let Some((right, end)) = product_at(tokens, at + 1) {
            if at < end <= tokens.len() {
                lemma_sum_after_advances(
                    tokens,
                    ASTNode::Binary { operation, lhs: Box::new(left), rhs: Box::new(right) },
                    end,
                );
            }
        }
    }
}

pub(crate) proof fn lemma_sum_advances<T>(tokens: Seq<Token<T>>, at: int)
    ensures
        sum_at(tokens, at) matches Some((_, end)) ==> at < end <= tokens.len(),
    decreases tokens.len() - at, 5int,
{
    if let Some((first, end)) = product_at(tokens, at) {
        if at < end <= tokens.len() {
            lemma_sum_after_advances(tokens, first, end);
        }
    }
}

/// What the descent finds at `at` is an atom of the grammar.
pub(crate) proof fn lemma_atom_sound<T>(tokens: Seq<Token<T>>, at: int)
    ensures
        atom_at(tokens, at) matches Some((tree, end)) ==> is_atom(tokens, at, end, tree),
    decreases tokens.len() - at, 0int,
{
    if 0 <= at < tokens.len() && tokens[at] is OpenParenthesis {
        lemma_sum_sound(tokens, at + 1);
        lemma_sum_advances(tokens, at + 1);
    }
}

pub(crate) proof fn lemma_power_sound<T>(tokens: Seq<Token<T>>, at: int)
    ensures
        power_at(tokens, at) matches Some((tree, end)) ==> is_power(tokens, at, end, tree),
    decreases tokens.len() - at, 1int,
{
    lemma_atom_sound(tokens, at);
    lemma_power_advances(tokens, at);
    if let Some((base, end)) = atom_at(tokens, at) {
        if at < end <= tokens.len() && operation_at(tokens, end, POWER) is Some {
            lemma_power_sound(tokens, end + 1);
            if let Some((exponent, stop)) = power_at(tokens, end + 1) {
                assert(is_atom(tokens, at, end, base));
                assert(is_power(tokens, end + 1, stop, exponent));
            }
        }
    }
}

pub(crate) proof fn lemma_product_after_sound<T>(tokens: Seq<Token<T>>, from: int, left: ASTNode<T>, at: int)
    requires
        is_product(tokens, from, at, left),
    ensures
        product_after(tokens, left, at) matches Some((tree, end)) ==> is_product(
            tokens,
            from,
            end,
            tree,
        ),
    decreases tokens.len() - at, 2int,
{
    if let Some(operation) = operation_at(tokens, at, PRODUCT) {
        lemma_power_sound(tokens, at + 1);
        lemma_power_advances(tokens, at + 1);
        if let Some((right, end)) = power_at(tokens, at + 1) {
            let joined = ASTNode::Binary { operation, lhs: Box::new(left), rhs: Box::new(right) };
            assert(is_product(tokens, from, at, left));
            assert(is_power(tokens, at + 1, end, right));
            assert(is_product(tokens, from, end, joined));
            lemma_product_after_sound(tokens, from, joined, end);
        }
    }
}

pub(crate) proof fn lemma_product_sound<T>(tokens: Seq<Token<T>>, at: int)
    ensures
        product_at(tokens, at) matches Some((tree, end)) ==> is_product(tokens, at, end, tree),
    decreases tokens.len() - at, 3int,
{
    lemma_power_sound(tokens, at);
    if let Some((first, end)) = power_at(tokens, at) {
        if at < end <= tokens.len() {
            lemma_product_after_sound(tokens, at, first, end);
        }
    }
}

pub(crate) proof fn lemma_sum_after_sound<T>(tokens: Seq<Token<T>>, from: int, left: ASTNode<T>, at: int)
    requires
        is_sum(tokens, from, at, left),
    ensures
        sum_after(tokens, left, at) matches Some((tree, end)) ==> is_sum(tokens, from, end, tree),
    decreases tokens.len() - at, 4int,
{
    if let Some(operation) = operation_at(tokens, at, SUM) {
        lemma_product_sound(tokens, at + 1);
        lemma_product_advances(tokens, at + 1);
        if let Some((right, end)) = product_at(tokens, at + 1) {
            let joined = ASTNode::Binary { operation, lhs: Box::new(left), rhs: Box::new(right) };
            assert(is_sum(tokens, from, at, left));
            assert(is_product(tokens, at + 1, end, right));
            assert(is_sum(tokens, from, end, joined));
            lemma_sum_after_sound(tokens, from, joined, end);
        }
    }
}

pub(crate) proof fn lemma_sum_sound<T>(tokens: Seq<Token<T>>, at: int)
    ensures
        sum_at(tokens, at) matches Some((tree, end)) ==> is_sum(tokens, at, end, tree),
    decreases tokens.len() - at, 5int,
{
    lemma_product_sound(tokens, at);
    if let Some((first, end)) = product_at(tokens, at) {
        if at < end <= tokens.len() {
            lemma_sum_after_sound(tokens, at, first, end);
        }
    }
}

/// The descent finds every atom of the grammar.
pub(crate) proof fn lemma_atom_complete<T>(tokens: Seq<Token<T>>, from: int, to: int, tree: ASTNode<T>)
    requires
        is_atom(tokens, from, to, tree),
    ensures
        atom_at(tokens, from) == Some((tree, to)),
    decreases to - from, 0int,
{
    if tokens[from] is OpenParenthesis {
        lemma_sum_complete(tokens, from + 1, to - 1, tree);
    }
}

/// The descent finds every power of the grammar that no `^` follows.
pub(crate) proof fn lemma_power_complete<T>(tokens: Seq<Token<T>>, from: int, to: int, tree: ASTNode<T>)
    requires
        is_power(tokens, from, to, tree),
        operation_at(tokens, to, POWER) is None,
    ensures
        power_at(tokens, from) == Some((tree, to)),
    decreases to - from, 1int,
{
    if is_atom(tokens, from, to, tree) {
        lemma_atom_complete(tokens, from, to, tree);
    } else {
        let lhs = tree->lhs;
        let rhs = tree->rhs;
        let middle = choose|middle: int|
            {
                &&& from < middle < to
                &&& BinaryOperation::written_by(#[trigger] tokens[middle]) == Some(tree->operation)
                &&& is_atom(tokens, from, middle, *lhs)
                &&& is_power(tokens, middle + 1, to, *rhs)
            };
        lemma_atom_complete(tokens, from, middle, *lhs);
        lemma_power_complete(tokens, middle + 1, to, *rhs);
    }
}

/// The descent reaches every product of the grammar that no `^` follows,
/// and goes on from there.
pub(crate) proof fn lemma_product_complete<T>(tokens: Seq<Token<T>>, from: int, to: int, tree: ASTNode<T>)
    requires
        is_product(tokens, from, to, tree),
        operation_at(tokens, to, POWER) is None,
    ensures
        product_at(tokens, from) == product_after(tokens, tree, to),
    decreases to - from, 2int,
{
    if is_power(tokens, from, to, tree) {
        lemma_power_complete(tokens, from, to, tree);
    } else {
        let lhs = tree->lhs;
        let rhs = tree->rhs;
        let middle = choose|middle: int|
            {
                &&& from < middle < to
                &&& BinaryOperation::written_by(#[trigger] tokens[middle]) == Some(tree->operation)
                &&& is_product(tokens, from, middle, *lhs)
                &&& is_power(tokens, middle + 1, to, *rhs)
            };
        lemma_product_complete(tokens, from, middle, *lhs);
        lemma_power_complete(tokens, middle + 1, to, *rhs);
    }
}

/// The descent reaches every sum of the grammar that neither `^`, `*` nor
/// `/` follows, and goes on from there.
pub(crate) proof fn lemma_sum_complete<T>(tokens: Seq<Token<T>>, from: int, to: int, tree: ASTNode<T>)
    requires
        is_sum(tokens, from, to, tree),
        operation_at(tokens, to, POWER) is None,
        operation_at(tokens, to, PRODUCT) is None,
    ensures
        sum_at(tokens, from) == sum_after(tokens, tree, to),
    decreases to - from, 3int,
{
    if is_product(tokens, from, to, tree) {
        lemma_product_complete(tokens, from, to, tree);
    } else {
        let lhs = tree->lhs;
        let rhs = tree->rhs;
        let middle = choose|middle: int|
            {
                &&& from < middle < to
                &&& BinaryOperation::written_by(#[trigger] tokens[middle]) == Some(tree->operation)
                &&& is_sum(tokens, from, middle, *lhs)
                &&& is_product(tokens, middle + 1, to, *rhs)
            };
        lemma_sum_complete(tokens, from, middle, *lhs);
        lemma_product_complete(tokens, middle + 1, to, *rhs);
    }
}

/// The descent from the first token reaches the end with `tree` exactly
/// where the tokens write the expression `tree`.
pub(crate) proof fn lemma_descent<T>(tokens: Seq<Token<T>>, tree: ASTNode<T>)
    ensures
        is_expression(tokens, tree) <==> sum_at(tokens, 0) == Some((tree, tokens.len() as int)),
{
    if is_expression(tokens, tree) {
        lemma_sum_complete(tokens, 0, tokens.len() as int, tree);
    }
    lemma_sum_sound(tokens, 0);
}

/// What the descent finds, with the view of each constant.
pub(crate) open spec fn found_view<T: View>(found: Option<(ASTNode<T>, int)>) -> Option<(ASTNode<T::V>, int)> {
    match found {
        Some((tree, end)) => Some((tree@, end)),
        None => None,
    }
}

/// The descent over the views of the tokens finds the views of what the
/// descent over the tokens finds.
pub(crate) proof fn lemma_atom_views<T: View>(tokens: Seq<Token<T>>, at: int)
    ensures
        atom_at(views(tokens), at) == found_view(atom_at(tokens, at)),
    decreases tokens.len() - at, 0int,
{
    assert(views(tokens).len() == tokens.len());
    if 0 <= at < tokens.len() {
        assert(views(tokens)[at] == tokens[at]@);
        if tokens[at] is OpenParenthesis {
            lemma_sum_views(tokens, at + 1);
            lemma_sum_advances(tokens, at + 1);
            if let Some((_, end)) = sum_at(tokens, at + 1) {
                if 0 <= end < tokens.len() {
                    assert(views(tokens)[end] == tokens[end]@);
                }
            }
        }
    }
}

pub(crate) proof fn lemma_power_views<T: View>(tokens: Seq<Token<T>>, at: int)
    ensures
        power_at(views(tokens), at) == found_view(power_at(tokens, at)),
    decreases tokens.len() - at, 1int,
{
    lemma_atom_views(tokens, at);
    if let Some((_, end)) = atom_at(tokens, at) {
        if at < end <= tokens.len() && operation_at(tokens, end, POWER) is Some {
            lemma_power_views(tokens, end + 1);
        }
    }
}

pub(crate) proof fn lemma_product_after_views<T: View>(tokens: Seq<Token<T>>, left: ASTNode<T>, at: int)
    ensures
        product_after(views(tokens), left@, at) == found_view(product_after(tokens, left, at)),
    decreases tokens.len() - at, 2int,
{
    if let Some(operation) = operation_at(tokens, at, PRODUCT) {
        lemma_power_views(tokens, at + 1);
        if let Some((right, end)) = power_at(tokens, at + 1) {
            if at < end <= tokens.len() {
                lemma_product_after_views(
                    tokens,
                    ASTNode::Binary { operation, lhs: Box::new(left), rhs: Box::new(right) },
                    end,
                );
            }
        }
    }
}

pub(crate) proof fn lemma_product_views<T: View>(tokens: Seq<Token<T>>, at: int)
    ensures
        product_at(views(tokens), at) == found_view(product_at(tokens, at)),
    decreases tokens.len() - at, 3int,
{
    lemma_power_views(tokens, at);
    if let Some((first, end)) = power_at(tokens, at) {
        if at < end <= tokens.len() {
            lemma_product_after_views(tokens, first, end);
        }
    }
}

pub(crate) proof fn lemma_sum_after_views<T: View>(tokens: Seq<Token<T>>, left: ASTNode<T>, at: int)
    ensures
        sum_after(views(tokens), left@, at) == found_view(sum_after(tokens, left, at)),
    decreases tokens.len() - at, 4int,
{
    if let Some(operation) = operation_at(tokens, at, SUM) {
        lemma_product_views(tokens, at + 1);
        if let Some((right, end)) = product_at(tokens, at + 1) {
            if at < end <= tokens.len() {
                lemma_sum_after_views(
                    tokens,
                    ASTNode::Binary { operation, lhs: Box::new(left), rhs: Box::new(right) },
                    end,
                );
            }
        }
    }
}

pub(crate) proof fn lemma_sum_views<T: View>(tokens: Seq<Token<T>>, at: int)
    ensures
        sum_at(views(tokens), at) == found_view(sum_at(tokens, at)),
    decreases tokens.len() - at, 5int,
{
    lemma_product_views(tokens, at);
    if let Some((first, end)) = product_at(tokens, at) {
        if at < end <= tokens.len() {
            lemma_sum_after_views(tokens, first, end);
        }
    }
}

pub(crate) proof fn lemma_counts_views<T: View>(tokens: Seq<Token<T>>, to: int)
    requires
        to <= tokens.len(),
    ensures
        opened(views(tokens), to) == opened(tokens, to),
        closed(views(tokens), to) == closed(tokens, to),
    decreases to,
{
    if to > 0 {
        lemma_counts_views(tokens, to - 1);
    }
}

} // verus!
