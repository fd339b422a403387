//! What holds of the tree of every row of tokens: it is made of the tokens
//! that were read, in their order, and its shape follows the binding power
//! of the operators, each of them grouping to the left.

use vstd::prelude::*;
use crate::ast::{ExprView, Operator};
use crate::parser::{
    additive_at, additive_operator, additive_rest, binary, comparison_at, comparison_operator,
    comparison_rest, multiplicative_at, multiplicative_operator, multiplicative_rest, primary_at,
    token_at, ParseErrorView,
};
use crate::token::{TokenKind, TokenView};

verus! {

/// The token that stands for `operator`.
pub open spec fn operator_kind(operator: Operator) -> TokenKind {
    match operator {
        Operator::Plus => TokenKind::Plus,
        Operator::Minus => TokenKind::Minus,
        Operator::Multiply => TokenKind::Star,
        Operator::Divide => TokenKind::Slash,
        Operator::Eq => TokenKind::Eq,
        Operator::NotEq => TokenKind::NotEq,
        Operator::Gt => TokenKind::Gt,
        Operator::Lt => TokenKind::Lt,
        Operator::GtEq => TokenKind::GtEq,
        Operator::LtEq => TokenKind::LtEq,
    }
}

/// The tokens of which a tree is made, from left to right.
pub open spec fn expr_kinds(expr: ExprView) -> Seq<TokenKind>
    decreases expr,
{
    match expr {
        ExprView::Number(value) => seq![TokenKind::Number(value)],
        ExprView::Identifier(name) => seq![TokenKind::Ident(name)],
        ExprView::BinaryOp { left, operator, right } => expr_kinds(*left) + seq![
            operator_kind(operator),
        ] + expr_kinds(*right),
    }
}

/// The kinds of the tokens from `from` up to `to`.
pub open spec fn kinds_between(tokens: Seq<TokenView>, from: int, to: int) -> Seq<TokenKind> {
    tokens.subrange(from, to).map_values(|t: TokenView| t.kind)
}

/// A number or an identifier.
pub open spec fn is_primary(expr: ExprView) -> bool {
    expr is Number || expr is Identifier
}

/// A primary, or a multiplicative tree times or over a primary.
pub open spec fn is_multiplicative(expr: ExprView) -> bool
    decreases expr,
{
    match expr {
        ExprView::BinaryOp { left, operator, right } => {
            &&& operator is Multiply || operator is Divide
            &&& is_multiplicative(*left)
            &&& is_primary(*right)
        },
        _ => true,
    }
}

/// A multiplicative tree, or an additive tree plus or minus a multiplicative
/// one.
pub open spec fn is_additive(expr: ExprView) -> bool
    decreases expr,
{
    is_multiplicative(expr) || (match expr {
        ExprView::BinaryOp { left, operator, right } => {
            &&& operator is Plus || operator is Minus
            &&& is_additive(*left)
            &&& is_multiplicative(*right)
        },
        _ => false,
    })
}

/// An additive tree, or a comparison of such a tree of comparisons with an
/// additive tree.
pub open spec fn is_expression(expr: ExprView) -> bool
    decreases expr,
{
    is_additive(expr) || (match expr {
        ExprView::BinaryOp { left, operator, right } => {
            &&& comparison_operator(operator_kind(operator)) is Some
            &&& is_expression(*left)
            &&& is_additive(*right)
        },
        _ => false,
    })
}

/// The kinds of two rows of tokens that meet are the kinds of the whole.
proof fn lemma_kinds_meet(tokens: Seq<TokenView>, from: int, mid: int, to: int)
    requires
        0 <= from <= mid <= to <= tokens.len(),
    ensures
        kinds_between(tokens, from, mid) + kinds_between(tokens, mid, to) == kinds_between(
            tokens,
            from,
            to,
        ),
        mid < to ==> kinds_between(tokens, mid, mid + 1) == seq![token_at(tokens, mid).kind],
{
    assert(kinds_between(tokens, from, mid) + kinds_between(tokens, mid, to) =~= kinds_between(
        tokens,
        from,
        to,
    ));
    if mid < to {
        assert(kinds_between(tokens, mid, mid + 1) =~= seq![token_at(tokens, mid).kind]);
    }
}

/// A primary is made of the one token that was read.
pub proof fn lemma_primary_reads_back(tokens: Seq<TokenView>, pos: int)
    requires
        0 <= pos <= tokens.len(),
    ensures
        primary_at(tokens, pos) matches Ok((expr, next)) ==> {
            &&& next == pos + 1 <= tokens.len()
            &&& is_primary(expr)
            &&& expr_kinds(expr) == kinds_between(tokens, pos, next)
        },
{
    if primary_at(tokens, pos) is Ok {
        lemma_kinds_meet(tokens, pos, pos, pos + 1);
    }
}

proof fn lemma_multiplicative_rest_reads_back(
    tokens: Seq<TokenView>,
    start: int,
    left: ExprView,
    pos: int,
)
    requires
        0 <= start <= pos <= tokens.len(),
        is_multiplicative(left),
        expr_kinds(left) == kinds_between(tokens, start, pos),
    ensures
        multiplicative_rest(tokens, left, pos) matches Ok((expr, next)) ==> {
            &&& pos <= next <= tokens.len()
            &&& is_multiplicative(expr)
            &&& expr_kinds(expr) == kinds_between(tokens, start, next)
            &&& multiplicative_operator(token_at(tokens, next).kind) is None
        },
    decreases tokens.len() - pos,
{
    if let Some(operator) = multiplicative_operator(token_at(tokens, pos).kind) {
        lemma_primary_reads_back(tokens, pos + 1);
        if let Ok((right, next)) = primary_at(tokens, pos + 1) {
            lemma_kinds_meet(tokens, start, pos, pos + 1);
            lemma_kinds_meet(tokens, start, pos + 1, next);
            lemma_multiplicative_rest_reads_back(
                tokens,
                start,
                binary(left, operator, right),
                next,
            );
        }
    }
}

/// A multiplicative tree is made of the tokens that were read, groups to the
/// left, and ends in front of a token that is neither `*` nor `/`.
pub proof fn lemma_multiplicative_reads_back(tokens: Seq<TokenView>, pos: int)
    requires
        0 <= pos <= tokens.len(),
    ensures
        multiplicative_at(tokens, pos) matches Ok((expr, next)) ==> {
            &&& pos < next <= tokens.len()
            &&& is_multiplicative(expr)
            &&& expr_kinds(expr) == kinds_between(tokens, pos, next)
            &&& multiplicative_operator(token_at(tokens, next).kind) is None
        },
{
    lemma_primary_reads_back(tokens, pos);
    if let Ok((left, next)) = primary_at(tokens, pos) {
        lemma_multiplicative_rest_reads_back(tokens, pos, left, next);
    }
}

proof fn lemma_additive_rest_reads_back(
    tokens: Seq<TokenView>,
    start: int,
    left: ExprView,
    pos: int,
)
    requires
        0 <= start <= pos <= tokens.len(),
        is_additive(left),
        expr_kinds(left) == kinds_between(tokens, start, pos),
        multiplicative_operator(token_at(tokens, pos).kind) is None,
    ensures
        additive_rest(tokens, left, pos) matches Ok((expr, next)) ==> {
            &&& pos <= next <= tokens.len()
            &&& is_additive(expr)
            &&& expr_kinds(expr) == kinds_between(tokens, start, next)
            &&& multiplicative_operator(token_at(tokens, next).kind) is None
            &&& additive_operator(token_at(tokens, next).kind) is None
        },
    decreases tokens.len() - pos,
{
    if let Some(operator) = additive_operator(token_at(tokens, pos).kind) {
        lemma_multiplicative_reads_back(tokens, pos + 1);
        if let Ok((right, next)) = multiplicative_at(tokens, pos + 1) {
            lemma_kinds_meet(tokens, start, pos, pos + 1);
            lemma_kinds_meet(tokens, start, pos + 1, next);
            lemma_additive_rest_reads_back(tokens, start, binary(left, operator, right), next);
        }
    }
}

/// An additive tree is made of the tokens that were read, groups to the
/// left with `*` and `/` below `+` and `-`, and ends in front of a token that
/// is none of the four.
pub proof fn lemma_additive_reads_back(tokens: Seq<TokenView>, pos: int)
    requires
        0 <= pos <= tokens.len(),
    ensures
        additive_at(tokens, pos) matches Ok((expr, next)) ==> {
            &&& pos < next <= tokens.len()
            &&& is_additive(expr)
            &&& expr_kinds(expr) == kinds_between(tokens, pos, next)
            &&& multiplicative_operator(token_at(tokens, next).kind) is None
            &&& additive_operator(token_at(tokens, next).kind) is None
        },
{
    lemma_multiplicative_reads_back(tokens, pos);
    if let Ok((left, next)) = multiplicative_at(tokens, pos) {
        lemma_additive_rest_reads_back(tokens, pos, left, next);
    }
}

proof fn lemma_comparison_rest_reads_back(
    tokens: Seq<TokenView>,
    start: int,
    left: ExprView,
    pos: int,
)
    requires
        0 <= start <= pos <= tokens.len(),
        is_expression(left),
        expr_kinds(left) == kinds_between(tokens, start, pos),
        multiplicative_operator(token_at(tokens, pos).kind) is None,
        additive_operator(token_at(tokens, pos).kind) is None,
    ensures
        comparison_rest(tokens, left, pos) matches Ok((expr, next)) ==> {
            &&& pos <= next <= tokens.len()
            &&& is_expression(expr)
            &&& expr_kinds(expr) == kinds_between(tokens, start, next)
            &&& multiplicative_operator(token_at(tokens, next).kind) is None
            &&& additive_operator(token_at(tokens, next).kind) is None
            &&& comparison_operator(token_at(tokens, next).kind) is None
        },
    decreases tokens.len() - pos,
{
    if let Some(operator) = comparison_operator(token_at(tokens, pos).kind) {
        lemma_additive_reads_back(tokens, pos + 1);
        if let Ok((right, next)) = additive_at(tokens, pos + 1) {
            lemma_kinds_meet(tokens, start, pos, pos + 1);
            lemma_kinds_meet(tokens, start, pos + 1, next);
            lemma_comparison_rest_reads_back(tokens, start, binary(left, operator, right), next);
        }
    }
}

/// The tree of an expression is made of exactly the tokens that were read,
/// in their order. Its shape follows the grammar: `*` and `/` bind tighter
/// than `+` and `-`, these tighter than the comparisons, and operators of one
/// level group to the left. It is the longest there is: the token behind it
/// is no operator.
pub proof fn lemma_expression_reads_back(tokens: Seq<TokenView>, pos: int)
    requires
        0 <= pos <= tokens.len(),
    ensures
        comparison_at(tokens, pos) matches Ok((expr, next)) ==> {
            &&& pos < next <= tokens.len()
            &&& is_expression(expr)
            &&& expr_kinds(expr) == kinds_between(tokens, pos, next)
            &&& multiplicative_operator(token_at(tokens, next).kind) is None
            &&& additive_operator(token_at(tokens, next).kind) is None
            &&& comparison_operator(token_at(tokens, next).kind) is None
        },
{
    lemma_additive_reads_back(tokens, pos);
    if let Ok((left, next)) = additive_at(tokens, pos) {
        lemma_comparison_rest_reads_back(tokens, pos, left, next);
    }
}

/// An expression whose first token is neither a number nor an identifier
/// fails at once, with the error that names this token.
pub proof fn lemma_expression_fails_at_operand(tokens: Seq<TokenView>, pos: int)
    requires
        0 <= pos <= tokens.len(),
    ensures
        primary_at(tokens, pos) is Err ==> comparison_at(tokens, pos) == Err::<
            (ExprView, int),
            ParseErrorView,
        >(primary_at(tokens, pos)->Err_0),
{
}

} // verus!
