//! The syntax tree: expressions, operators, statements and programs.

use vstd::prelude::*;

verus! {

/// A binary operator.
#[derive(Debug, Clone, Copy, PartialEq, Eq, Structural)]
pub enum Operator {
    Plus,
    Minus,
    Multiply,
    Divide,
    Eq,
    NotEq,
    Gt,
    Lt,
    GtEq,
    LtEq,
}

/// An expression. Each node owns its operands, so a value is a finite tree.
#[derive(Debug, PartialEq)]
pub enum Expr {
    Number(i64),
    Identifier(String),
    BinaryOp { left: Box<Expr>, operator: Operator, right: Box<Expr> },
}

/// A statement.
#[derive(Debug, Clone, PartialEq)]
pub enum Statement {
    Assign { name: String, value: Expr },
    Expr(Expr),
}

/// A program: statements in the order in which they run.
#[derive(Debug, Clone, PartialEq)]
pub struct Program {
    pub statements: Vec<Statement>,
}

impl Clone for Expr {
    fn clone(&self) -> (res: Expr)
        ensures
            res@ == self@,
        decreases self,
    {
        match self {
            Expr::Number(value) => Expr::Number(*value),
            Expr::Identifier(name) => Expr::Identifier(name.clone()),
            Expr::BinaryOp { left, operator, right } => {
                let l = (**left).clone();
                let r = (**right).clone();
                Expr::BinaryOp { left: Box::new(l), operator: *operator, right: Box::new(r) }
            },
        }
    }
}

/// The mathematical value of an [`Expr`]: names are sequences of characters.
pub enum ExprView {
    Number(i64),
    Identifier(Seq<char>),
    BinaryOp { left: Box<ExprView>, operator: Operator, right: Box<ExprView> },
}

/// The mathematical value of a [`Statement`].
pub enum StatementView {
    Assign { name: Seq<char>, value: ExprView },
    Expr(ExprView),
}

/// The value of an expression tree, node by node.
pub open spec fn expr_view(expr: Expr) -> ExprView
    decreases expr,
{
    match expr {
        Expr::Number(value) => ExprView::Number(value),
        Expr::Identifier(name) => ExprView::Identifier(name@),
        Expr::BinaryOp { left, operator, right } => ExprView::BinaryOp {
            left: Box::new(expr_view(*left)),
            operator,
            right: Box::new(expr_view(*right)),
        },
    }
}

impl View for Expr {
    type V = ExprView;

    open spec fn view(&self) -> ExprView {
        expr_view(*self)
    }
}

impl View for Statement {
    type V = StatementView;

    open spec fn view(&self) -> StatementView {
        match self {
            Statement::Assign { name, value } => StatementView::Assign {
                name: name@,
                value: value@,
            },
            Statement::Expr(expr) => StatementView::Expr(expr@),
        }
    }
}

/// The views of a vector of statements, in order.
pub open spec fn statement_views(statements: Seq<Statement>) -> Seq<StatementView> {
    statements.map_values(|s: Statement| s@)
}

impl View for Program {
    type V = Seq<StatementView>;

    open spec fn view(&self) -> Seq<StatementView> {
        statement_views(self.statements@)
    }
}

} // verus!
