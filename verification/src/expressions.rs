//! Expressions of the syntax tree.

use vstd::prelude::*;
use crate::scanner::Token;
use crate::types::Object;

verus! {

/// The identity of an expression node, unique within one parse.
pub type ExprID = u64;

/// An expression. Every node has an identity of its own.
#[derive(Debug)]
pub enum Expr {
    Literal(Literal),
    Binary(Binary),
    Unary(Unary),
    Grouping(Grouping),
    Var(Variable),
    Assign(Assign),
    Logical(Logical),
    Call(Call),
    Get(Get),
    SetExpr(SetExpr),
    This(This),
}

/// A literal value.
#[derive(Debug)]
pub struct Literal {
    pub id: ExprID,
    pub value: Object,
}

/// An arithmetic operation, a comparison or a test of equality.
#[derive(Debug)]
pub struct Binary {
    pub id: ExprID,
    pub left: Box<Expr>,
    pub operator: Token,
    pub right: Box<Expr>,
}

/// `left and right` or `left or right`.
#[derive(Debug)]
pub struct Logical {
    pub id: ExprID,
    pub left: Box<Expr>,
    pub operator: Token,
    pub right: Box<Expr>,
}

/// `-right` or `!right`.
#[derive(Debug)]
pub struct Unary {
    pub id: ExprID,
    pub operator: Token,
    pub right: Box<Expr>,
}

/// An expression in parentheses.
#[derive(Debug)]
pub struct Grouping {
    pub id: ExprID,
    pub expr: Box<Expr>,
}

/// A variable that is read.
#[derive(Debug)]
pub struct Variable {
    pub id: ExprID,
    pub name: Token,
}

/// An assignment to a variable.
#[derive(Debug)]
pub struct Assign {
    pub id: ExprID,
    pub name: Token,
    pub value: Box<Expr>,
}

/// A call: the callee, the closing parenthesis and the arguments.
#[derive(Debug)]
pub struct Call {
    pub id: ExprID,
    pub calle: Box<Expr>,
    pub paren: Token,
    pub arguments: Vec<Expr>,
}

/// A property read, `object.name`.
#[derive(Debug)]
pub struct Get {
    pub id: ExprID,
    pub expr: Box<Expr>,
    pub name: Token,
}

/// A property write, `object.name = value`.
#[derive(Debug)]
pub struct SetExpr {
    pub id: ExprID,
    pub expr: Box<Expr>,
    pub name: Token,
    pub value: Box<Expr>,
}

/// `this`.
#[derive(Debug)]
pub struct This {
    pub id: ExprID,
    pub keyword: Token,
}

impl Expr {
    /// The identity of the expression node.
    pub open spec fn id(&self) -> ExprID {
        match self {
            Expr::Literal(l) => l.id,
            Expr::Binary(b) => b.id,
            Expr::Unary(u) => u.id,
            Expr::Grouping(g) => g.id,
            Expr::Var(v) => v.id,
            Expr::Assign(a) => a.id,
            Expr::Logical(l) => l.id,
            Expr::Call(c) => c.id,
            Expr::Get(g) => g.id,
            Expr::SetExpr(s) => s.id,
            Expr::This(t) => t.id,
        }
    }

    /// The identity of the expression node.
    pub fn get_id(&self) -> (r: ExprID)
        ensures
            r == self.id(),
    {
        match self {
            Self::Literal(l) => l.id,
            Self::Binary(b) => b.id,
            Self::Unary(u) => u.id,
            Self::Grouping(g) => g.id,
            Self::Var(v) => v.id,
            Self::Assign(a) => a.id,
            Self::Logical(l) => l.id,
            Self::Call(c) => c.id,
            Self::Get(g) => g.id,
            Self::SetExpr(s) => s.id,
            Self::This(t) => t.id,
        }
    }
}

/// An expression as a mathematical value: the list of a call's arguments is a sequence.
#[allow(inconsistent_fields)]
pub enum ExprView {
    Literal { id: ExprID, value: Object },
    Binary { id: ExprID, left: Box<ExprView>, operator: Token, right: Box<ExprView> },
    Logical { id: ExprID, left: Box<ExprView>, operator: Token, right: Box<ExprView> },
    Unary { id: ExprID, operator: Token, right: Box<ExprView> },
    Grouping { id: ExprID, expr: Box<ExprView> },
    Var { id: ExprID, name: Token },
    Assign { id: ExprID, name: Token, value: Box<ExprView> },
    Call { id: ExprID, calle: Box<ExprView>, paren: Token, arguments: Seq<ExprView> },
    Get { id: ExprID, expr: Box<ExprView>, name: Token },
    SetExpr { id: ExprID, expr: Box<ExprView>, name: Token, value: Box<ExprView> },
    This { id: ExprID, keyword: Token },
}

/// The expression as a mathematical value.
pub open spec fn expr_view(e: Expr) -> ExprView
    decreases e,
{
    match e {
        Expr::Literal(l) => ExprView::Literal { id: l.id, value: l.value },
        Expr::Binary(b) => ExprView::Binary {
            id: b.id,
            left: Box::new(expr_view(*b.left)),
            operator: b.operator,
            right: Box::new(expr_view(*b.right)),
        },
        Expr::Logical(l) => ExprView::Logical {
            id: l.id,
            left: Box::new(expr_view(*l.left)),
            operator: l.operator,
            right: Box::new(expr_view(*l.right)),
        },
        Expr::Unary(u) => ExprView::Unary {
            id: u.id,
            operator: u.operator,
            right: Box::new(expr_view(*u.right)),
        },
        Expr::Grouping(g) => ExprView::Grouping { id: g.id, expr: Box::new(expr_view(*g.expr)) },
        Expr::Var(v) => ExprView::Var { id: v.id, name: v.name },
        Expr::Assign(a) => ExprView::Assign {
            id: a.id,
            name: a.name,
            value: Box::new(expr_view(*a.value)),
        },
        Expr::Call(c) => ExprView::Call {
            id: c.id,
            calle: Box::new(expr_view(*c.calle)),
            paren: c.paren,
            arguments: Seq::new(
                c.arguments@.len(),
                |i: int|
                    if 0 <= i < c.arguments@.len() {
                        expr_view(c.arguments@[i])
                    } else {
                        ExprView::Literal { id: 0, value: Object::Nil }
                    },
            ),
        },
        Expr::Get(g) => ExprView::Get {
            id: g.id,
            expr: Box::new(expr_view(*g.expr)),
            name: g.name,
        },
        Expr::SetExpr(s) => ExprView::SetExpr {
            id: s.id,
            expr: Box::new(expr_view(*s.expr)),
            name: s.name,
            value: Box::new(expr_view(*s.value)),
        },
        Expr::This(t) => ExprView::This { id: t.id, keyword: t.keyword },
    }
}

impl View for Expr {
    type V = ExprView;

    open spec fn view(&self) -> ExprView {
        expr_view(*self)
    }
}

/// The views of a list of expressions.
pub open spec fn exprs_view(es: Seq<Expr>) -> Seq<ExprView> {
    Seq::new(es.len(), |i: int| es[i]@)
}

} // verus!
