//! Statements of the syntax tree.

use vstd::prelude::*;
use crate::expressions::{Expr, ExprView};
use crate::scanner::Token;

verus! {

/// A statement.
#[derive(Debug)]
pub enum Stmt {
    ExprStmt(Expr),
    Var(Var),
    Block(Block),
    If(IfStmt),
    While(WhileStmt),
    Func(Func),
    Class(Class),
    Return(ReturnStmt),
}

/// A class declaration: the name and the methods.
#[derive(Debug)]
pub struct Class {
    pub name: Token,
    pub methods: Vec<Func>,
}

/// A function declaration, or a method: the name, the parameters and the body.
#[derive(Debug)]
pub struct Func {
    pub name: Token,
    pub params: Vec<Token>,
    pub body: Vec<Stmt>,
}

/// A variable declaration with its initializer, if it has one.
#[derive(Debug)]
pub struct Var {
    pub token: Token,
    pub initializer: Option<Expr>,
}

/// A block of statements with a scope of its own.
#[derive(Debug)]
pub struct Block {
    pub stmts: Vec<Stmt>,
}

/// A conditional.
#[derive(Debug)]
pub struct IfStmt {
    pub condition: Expr,
    pub then_block: Box<Stmt>,
    pub else_block: Option<Box<Stmt>>,
}

/// A loop.
#[derive(Debug)]
pub struct WhileStmt {
    pub condition: Expr,
    pub body: Box<Stmt>,
}

/// A `return` with its value, if it has one.
#[derive(Debug)]
pub struct ReturnStmt {
    pub keyword: Token,
    pub value: Option<Expr>,
}

/// A function declaration as a mathematical value.
pub struct FuncView {
    pub name: Token,
    pub params: Seq<Token>,
    pub body: Seq<StmtView>,
}

/// A statement as a mathematical value: lists are sequences.
pub enum StmtView {
    ExprStmt(ExprView),
    Var { token: Token, initializer: Option<ExprView> },
    Block { stmts: Seq<StmtView> },
    If { condition: ExprView, then_block: Box<StmtView>, else_block: Option<Box<StmtView>> },
    While { condition: ExprView, body: Box<StmtView> },
    Func(FuncView),
    Class { name: Token, methods: Seq<FuncView> },
    Return { keyword: Token, value: Option<ExprView> },
}

/// The statements as mathematical values.
pub open spec fn stmts_view(stmts: Seq<Stmt>) -> Seq<StmtView>
    decreases stmts, 1nat,
{
    Seq::new(
        stmts.len(),
        |i: int|
            if 0 <= i < stmts.len() {
                stmt_view(stmts[i])
            } else {
                StmtView::Block { stmts: Seq::empty() }
            },
    )
}

/// The function declaration as a mathematical value.
pub open spec fn func_view(f: Func) -> FuncView
    decreases f, 0nat,
{
    FuncView { name: f.name, params: f.params@, body: stmts_view(f.body@) }
}

/// The function declarations as mathematical values.
pub open spec fn funcs_view(funcs: Seq<Func>) -> Seq<FuncView>
    decreases funcs, 1nat,
{
    Seq::new(
        funcs.len(),
        |i: int|
            if 0 <= i < funcs.len() {
                func_view(funcs[i])
            } else {
                FuncView { name: arbitrary(), params: Seq::empty(), body: Seq::empty() }
            },
    )
}

/// The statement as a mathematical value.
pub open spec fn stmt_view(s: Stmt) -> StmtView
    decreases s, 0nat,
{
    match s {
        Stmt::ExprStmt(e) => StmtView::ExprStmt(e@),
        Stmt::Var(v) => StmtView::Var {
            token: v.token,
            initializer: match v.initializer {
                Some(e) => Some(e@),
                None => None,
            },
        },
        Stmt::Block(b) => StmtView::Block { stmts: stmts_view(b.stmts@) },
        Stmt::If(i) => StmtView::If {
            condition: i.condition@,
            then_block: Box::new(stmt_view(*i.then_block)),
            else_block: match i.else_block {
                Some(e) => Some(Box::new(stmt_view(*e))),
                None => None,
            },
        },
        Stmt::While(w) => StmtView::While {
            condition: w.condition@,
            body: Box::new(stmt_view(*w.body)),
        },
        Stmt::Func(f) => StmtView::Func(func_view(f)),
        Stmt::Class(c) => StmtView::Class { name: c.name, methods: funcs_view(c.methods@) },
        Stmt::Return(r) => StmtView::Return {
            keyword: r.keyword,
            value: match r.value {
                Some(e) => Some(e@),
                None => None,
            },
        },
    }
}

impl View for Stmt {
    type V = StmtView;

    open spec fn view(&self) -> StmtView {
        stmt_view(*self)
    }
}

impl View for Func {
    type V = FuncView;

    open spec fn view(&self) -> FuncView {
        func_view(*self)
    }
}

} // verus!
