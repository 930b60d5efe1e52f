//! Names in scope: which names are defined in each scope around a piece of
//! a program, and what it means that the depths recorded for the program
//! lead to scopes that define the names read.

use vstd::prelude::*;
use crate::expressions::Expr;
use crate::scanner::Token;
use crate::statements::{Func, Stmt};

verus! {

/// The names that are defined in each of the scopes around a place in a
/// program, innermost last.
pub type Names = Seq<Set<Seq<char>>>;

/// The scopes with `name` defined in the innermost one. At top level, where
/// no scope is open, nothing is kept.
pub open spec fn with_name(scopes: Names, name: Seq<char>) -> Names {
    if scopes.len() == 0 {
        scopes
    } else {
        scopes.update(scopes.len() - 1, scopes.last().insert(name))
    }
}

/// The depth recorded for the reference `id`, if one is, leads to an open scope.
pub open spec fn write_named(id: u64, scopes: Names, locals: Map<u64, usize>) -> bool {
    locals.contains_key(id) ==> locals[id] < scopes.len()
}

/// The depth recorded for the read `id` of `name`, if one is, leads to an
/// open scope that defines the name.
pub open spec fn read_named(id: u64, name: Seq<char>, scopes: Names, locals: Map<u64, usize>)
    -> bool {
    locals.contains_key(id) ==> locals[id] < scopes.len() && scopes[scopes.len() - 1
        - locals[id]].contains(name)
}

/// Every depth recorded for a reference in the expression leads to an open
/// scope, and for a read to one that defines the name.
pub open spec fn expr_named(e: &Expr, scopes: Names, locals: Map<u64, usize>) -> bool
    decreases e, 0nat,
{
    match e {
        Expr::Literal(_) => true,
        Expr::Grouping(g) => expr_named(&*g.expr, scopes, locals),
        Expr::Unary(u) => expr_named(&*u.right, scopes, locals),
        Expr::Binary(b) => expr_named(&*b.left, scopes, locals) && expr_named(
            &*b.right,
            scopes,
            locals,
        ),
        Expr::Logical(l) => expr_named(&*l.left, scopes, locals) && expr_named(
            &*l.right,
            scopes,
            locals,
        ),
        Expr::Var(v) => read_named(v.id, v.name.name(), scopes, locals),
        Expr::Assign(a) => write_named(a.id, scopes, locals) && expr_named(
            &*a.value,
            scopes,
            locals,
        ),
        Expr::Call(c) => expr_named(&*c.calle, scopes, locals) && exprs_named(
            c.arguments@,
            0,
            scopes,
            locals,
        ),
        Expr::Get(g) => expr_named(&*g.expr, scopes, locals),
        Expr::SetExpr(s) => expr_named(&*s.expr, scopes, locals) && expr_named(
            &*s.value,
            scopes,
            locals,
        ),
        Expr::This(t) => read_named(t.id, t.keyword.name(), scopes, locals),
    }
}

/// The expressions from the `i`th on are named.
pub open spec fn exprs_named(es: Seq<Expr>, i: nat, scopes: Names, locals: Map<u64, usize>)
    -> bool
    decreases es, es.len() - i,
{
    if i >= es.len() {
        true
    } else {
        expr_named(&es[i as int], scopes, locals) && exprs_named(es, i + 1, scopes, locals)
    }
}

/// The name that the statement defines in the scope that it stands in, if
/// it is a declaration.
pub open spec fn declares(s: &Stmt) -> Option<Seq<char>> {
    match s {
        Stmt::Var(v) => Some(v.token.name()),
        Stmt::Func(f) => Some(f.name.name()),
        Stmt::Class(c) => Some(c.name.name()),
        _ => None,
    }
}

/// The names defined after the statement, where `scopes` are defined before it.
pub open spec fn scopes_after(s: &Stmt, scopes: Names) -> Names {
    match declares(s) {
        Some(name) => with_name(scopes, name),
        None => scopes,
    }
}

/// The names of the parameters from the `i`th on.
pub open spec fn param_names(params: Seq<Token>, i: nat) -> Set<Seq<char>>
    decreases params.len() - i,
{
    if i >= params.len() {
        Set::empty()
    } else {
        param_names(params, i + 1).insert(params[i as int].name())
    }
}

/// The names defined in the body of a function with the given parameters,
/// where `scopes` are defined around the function.
pub open spec fn body_scopes(scopes: Names, params: Seq<Token>) -> Names {
    scopes.push(param_names(params, 0))
}

/// The names defined in the body of a method with the given parameters,
/// where `scopes` are defined around the class.
pub open spec fn method_scopes(scopes: Names, params: Seq<Token>) -> Names {
    scopes.push(set!["this"@]).push(param_names(params, 0))
}

/// Every depth recorded for a reference in the statement leads to an open
/// scope, and for a read to one that defines the name when the read is
/// run; and no branch of a conditional or body of a loop is a declaration.
pub open spec fn stmt_named(s: &Stmt, scopes: Names, locals: Map<u64, usize>) -> bool
    decreases s, 0nat,
{
    match s {
        Stmt::ExprStmt(e) => expr_named(e, scopes, locals),
        Stmt::Var(v) => match v.initializer {
            Some(init) => expr_named(&init, scopes, locals),
            None => true,
        },
        Stmt::Block(b) => stmts_named(b.stmts@, 0, scopes.push(Set::empty()), locals),
        Stmt::If(i) => {
            &&& expr_named(&i.condition, scopes, locals)
            &&& stmt_named(&*i.then_block, scopes, locals)
            &&& declares(&*i.then_block) is None
            &&& match i.else_block {
                Some(e) => stmt_named(&*e, scopes, locals) && declares(&*e) is None,
                None => true,
            }
        },
        Stmt::While(w) => {
            &&& expr_named(&w.condition, scopes, locals)
            &&& stmt_named(&*w.body, scopes, locals)
            &&& declares(&*w.body) is None
        },
        Stmt::Func(f) => stmts_named(
            f.body@,
            0,
            body_scopes(with_name(scopes, f.name.name()), f.params@),
            locals,
        ),
        Stmt::Class(c) => methods_named(c.methods@, 0, with_name(scopes, c.name.name()), locals),
        Stmt::Return(r) => match r.value {
            Some(v) => expr_named(&v, scopes, locals),
            None => true,
        },
    }
}

/// The statements from the `i`th on are named, each after the declarations
/// before it.
pub open spec fn stmts_named(ss: Seq<Stmt>, i: nat, scopes: Names, locals: Map<u64, usize>)
    -> bool
    decreases ss, ss.len() - i,
{
    if i >= ss.len() {
        true
    } else {
        stmt_named(&ss[i as int], scopes, locals) && stmts_named(
            ss,
            i + 1,
            scopes_after(&ss[i as int], scopes),
            locals,
        )
    }
}

/// The bodies of the methods from the `i`th on are named, where `scopes` are
/// defined around the class.
pub open spec fn methods_named(ms: Seq<Func>, i: nat, scopes: Names, locals: Map<u64, usize>)
    -> bool
    decreases ms, ms.len() - i,
{
    if i >= ms.len() {
        true
    } else {
        stmts_named(ms[i as int].body@, 0, method_scopes(scopes, ms[i as int].params@), locals)
            && methods_named(ms, i + 1, scopes, locals)
    }
}

/// Each of the expressions is named, if all from the `i`th on are.
pub proof fn lemma_exprs_named_each(
    es: Seq<Expr>,
    i: nat,
    scopes: Names,
    locals: Map<u64, usize>,
    j: int,
)
    requires
        exprs_named(es, i, scopes, locals),
        i <= j < es.len(),
    ensures
        expr_named(&es[j], scopes, locals),
    decreases es.len() - i,
{
    if i < j {
        lemma_exprs_named_each(es, i + 1, scopes, locals, j);
    }
}

/// The body of each of the methods is named, if all from the `i`th on are.
pub proof fn lemma_methods_named_each(
    ms: Seq<Func>,
    i: nat,
    scopes: Names,
    locals: Map<u64, usize>,
    j: int,
)
    requires
        methods_named(ms, i, scopes, locals),
        i <= j < ms.len(),
    ensures
        stmts_named(ms[j].body@, 0, method_scopes(scopes, ms[j].params@), locals),
    decreases ms.len() - i,
{
    if i < j {
        lemma_methods_named_each(ms, i + 1, scopes, locals, j);
    }
}

/// Every `this` in the expression is spelled `this`.
pub open spec fn spelled(e: &Expr) -> bool
    decreases e, 0nat,
{
    match e {
        Expr::Literal(_) => true,
        Expr::Grouping(g) => spelled(&*g.expr),
        Expr::Unary(u) => spelled(&*u.right),
        Expr::Binary(b) => spelled(&*b.left) && spelled(&*b.right),
        Expr::Logical(l) => spelled(&*l.left) && spelled(&*l.right),
        Expr::Var(_) => true,
        Expr::Assign(a) => spelled(&*a.value),
        Expr::Call(c) => spelled(&*c.calle) && all_spelled(c.arguments@, 0),
        Expr::Get(g) => spelled(&*g.expr),
        Expr::SetExpr(s) => spelled(&*s.expr) && spelled(&*s.value),
        Expr::This(t) => t.keyword.name() == "this"@,
    }
}

/// Every `this` in the expressions from the `i`th on is spelled `this`.
pub open spec fn all_spelled(es: Seq<Expr>, i: nat) -> bool
    decreases es, es.len() - i,
{
    if i >= es.len() {
        true
    } else {
        spelled(&es[i as int]) && all_spelled(es, i + 1)
    }
}

/// The statement is plain: no branch of a conditional and no body of a loop
/// in it is a declaration, no variable in it is called `this`, and in the
/// initializer of a variable every `this` is spelled `this`.
pub open spec fn plain(s: &Stmt) -> bool
    decreases s, 0nat,
{
    match s {
        Stmt::ExprStmt(_) => true,
        Stmt::Var(v) => v.token.name() != "this"@ && match v.initializer {
            Some(init) => spelled(&init),
            None => true,
        },
        Stmt::Block(b) => all_plain(b.stmts@, 0),
        Stmt::If(i) => {
            &&& plain(&*i.then_block)
            &&& declares(&*i.then_block) is None
            &&& match i.else_block {
                Some(e) => plain(&*e) && declares(&*e) is None,
                None => true,
            }
        },
        Stmt::While(w) => plain(&*w.body) && declares(&*w.body) is None,
        Stmt::Func(f) => all_plain(f.body@, 0),
        Stmt::Class(c) => methods_plain(c.methods@, 0),
        Stmt::Return(_) => true,
    }
}

/// The statements from the `i`th on are plain.
pub open spec fn all_plain(ss: Seq<Stmt>, i: nat) -> bool
    decreases ss, ss.len() - i,
{
    if i >= ss.len() {
        true
    } else {
        plain(&ss[i as int]) && all_plain(ss, i + 1)
    }
}

/// The bodies of the methods from the `i`th on are plain.
pub open spec fn methods_plain(ms: Seq<Func>, i: nat) -> bool
    decreases ms, ms.len() - i,
{
    if i >= ms.len() {
        true
    } else {
        all_plain(ms[i as int].body@, 0) && methods_plain(ms, i + 1)
    }
}

} // verus!
