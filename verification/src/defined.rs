//! What the resolver records leads to scopes that define the names read:
//! the static half of the claim that a read at a recorded depth finds a
//! binding.

use vstd::prelude::*;
use crate::expressions::Expr;
use crate::naming::{
    Names, all_plain, all_spelled, body_scopes, declares, expr_named, exprs_named,
    method_scopes, methods_named, methods_plain, param_names, plain, scopes_after, spelled,
    stmt_named, stmts_named, with_name,
};
use crate::resolved::{
    expr_distinct, expr_idset, exprs_idset, fresh, kept, lemma_expr_recorded,
    lemma_exprs_apart, lemma_exprs_each_distinct, lemma_exprs_idset_has, lemma_exprs_recorded,
    lemma_fresh_part, lemma_fun_recorded, lemma_funcs_apart, lemma_funcs_each_distinct,
    lemma_funcs_idset_has, lemma_methods_recorded, lemma_params_record_nothing, lemma_rounds,
    lemma_same_on_part, lemma_still_fresh, lemma_stmt_recorded, lemma_stmts_apart,
    lemma_stmts_each_distinct, lemma_stmts_idset_has, lemma_stmts_recorded, method_idset,
    recorded, same_on, stmt_distinct, stmt_idset, stmts_distinct, stmts_idset, top_level,
};
use crate::resolver::{
    ClassType, FunctionType, Resolution, Scope, depth_of, lemma_expr_keeps_context,
};
use crate::scanner::Token;
use crate::statements::{Func, Stmt, StmtView, funcs_view, stmts_view};

verus! {

/// Whether an expression is named depends on what is recorded for its own
/// identities alone.
pub proof fn lemma_expr_named_same(e: &Expr, k: Names, a: Map<u64, usize>, b: Map<u64, usize>)
    requires
        same_on(a, b, expr_idset(e@)),
    ensures
        expr_named(e, k, a) == expr_named(e, k, b),
    decreases e, 0nat,
{
    match e {
        Expr::Literal(_) => {},
        Expr::Grouping(g) => {
            lemma_same_on_part(a, b, expr_idset(e@), expr_idset((*g.expr)@));
            lemma_expr_named_same(&*g.expr, k, a, b);
        },
        Expr::Unary(u) => {
            lemma_same_on_part(a, b, expr_idset(e@), expr_idset((*u.right)@));
            lemma_expr_named_same(&*u.right, k, a, b);
        },
        Expr::Binary(x) => {
            lemma_same_on_part(a, b, expr_idset(e@), expr_idset((*x.left)@));
            lemma_expr_named_same(&*x.left, k, a, b);
            lemma_same_on_part(a, b, expr_idset(e@), expr_idset((*x.right)@));
            lemma_expr_named_same(&*x.right, k, a, b);
        },
        Expr::Logical(l) => {
            lemma_same_on_part(a, b, expr_idset(e@), expr_idset((*l.left)@));
            lemma_expr_named_same(&*l.left, k, a, b);
            lemma_same_on_part(a, b, expr_idset(e@), expr_idset((*l.right)@));
            lemma_expr_named_same(&*l.right, k, a, b);
        },
        Expr::Var(v) => {
            assert(expr_idset(e@).contains(v.id));
        },
        Expr::Assign(x) => {
            assert(expr_idset(e@).contains(x.id));
            lemma_same_on_part(a, b, expr_idset(e@), expr_idset((*x.value)@));
            lemma_expr_named_same(&*x.value, k, a, b);
        },
        Expr::Call(c) => {
            lemma_same_on_part(a, b, expr_idset(e@), expr_idset((*c.calle)@));
            lemma_expr_named_same(&*c.calle, k, a, b);
            let views = e@->Call_arguments;
            assert forall|j: int| 0 <= j < c.arguments@.len() implies same_on(
                a,
                b,
                expr_idset(#[trigger] c.arguments@[j]@),
            ) by {
                assert(views[j] == c.arguments@[j]@);
                lemma_exprs_idset_has(views, views.len(), j);
                lemma_same_on_part(a, b, expr_idset(e@), exprs_idset(views, views.len()));
                lemma_same_on_part(
                    a,
                    b,
                    exprs_idset(views, views.len()),
                    expr_idset(c.arguments@[j]@),
                );
            }
            lemma_exprs_named_same(c.arguments@, 0, k, a, b);
        },
        Expr::Get(g) => {
            lemma_same_on_part(a, b, expr_idset(e@), expr_idset((*g.expr)@));
            lemma_expr_named_same(&*g.expr, k, a, b);
        },
        Expr::SetExpr(x) => {
            lemma_same_on_part(a, b, expr_idset(e@), expr_idset((*x.expr)@));
            lemma_expr_named_same(&*x.expr, k, a, b);
            lemma_same_on_part(a, b, expr_idset(e@), expr_idset((*x.value)@));
            lemma_expr_named_same(&*x.value, k, a, b);
        },
        Expr::This(t) => {
            assert(expr_idset(e@).contains(t.id));
        },
    }
}

/// Whether expressions are named depends on what is recorded for their own identities alone.
pub proof fn lemma_exprs_named_same(
    es: Seq<Expr>,
    i: nat,
    k: Names,
    a: Map<u64, usize>,
    b: Map<u64, usize>,
)
    requires
        forall|j: int| i <= j < es.len() ==> same_on(a, b, expr_idset(#[trigger] es[j]@)),
    ensures
        exprs_named(es, i, k, a) == exprs_named(es, i, k, b),
    decreases es, es.len() - i,
{
    if i < es.len() {
        lemma_expr_named_same(&es[i as int], k, a, b);
        lemma_exprs_named_same(es, i + 1, k, a, b);
    }
}

/// Whether a statement is named depends on what is recorded for its own
/// identities alone.
pub proof fn lemma_stmt_named_same(s: &Stmt, k: Names, a: Map<u64, usize>, b: Map<u64, usize>)
    requires
        same_on(a, b, stmt_idset(s@)),
    ensures
        stmt_named(s, k, a) == stmt_named(s, k, b),
    decreases s, 0nat,
{
    match s {
        Stmt::ExprStmt(e) => {
            lemma_same_on_part(a, b, stmt_idset(s@), expr_idset(e@));
            lemma_expr_named_same(e, k, a, b);
        },
        Stmt::Var(v) => {
            if let Some(init) = v.initializer {
                lemma_same_on_part(a, b, stmt_idset(s@), expr_idset(init@));
                lemma_expr_named_same(&init, k, a, b);
            }
        },
        Stmt::Block(x) => {
            lemma_stmts_named_same_all(x.stmts@, k.push(Set::empty()), a, b, stmt_idset(s@));
        },
        Stmt::If(x) => {
            lemma_same_on_part(a, b, stmt_idset(s@), expr_idset(x.condition@));
            lemma_expr_named_same(&x.condition, k, a, b);
            lemma_same_on_part(a, b, stmt_idset(s@), stmt_idset((*x.then_block)@));
            lemma_stmt_named_same(&*x.then_block, k, a, b);
            if let Some(e) = x.else_block {
                lemma_same_on_part(a, b, stmt_idset(s@), stmt_idset((*e)@));
                lemma_stmt_named_same(&*e, k, a, b);
            }
        },
        Stmt::While(w) => {
            lemma_same_on_part(a, b, stmt_idset(s@), expr_idset(w.condition@));
            lemma_expr_named_same(&w.condition, k, a, b);
            lemma_same_on_part(a, b, stmt_idset(s@), stmt_idset((*w.body)@));
            lemma_stmt_named_same(&*w.body, k, a, b);
        },
        Stmt::Func(f) => {
            assert(s@ == crate::statements::stmt_view(*s));
            assert(s@ == StmtView::Func(crate::statements::func_view(*f)));
            assert(crate::statements::func_view(*f).body == stmts_view(f.body@));
            lemma_stmts_named_same_all(
                f.body@,
                body_scopes(with_name(k, f.name.name()), f.params@),
                a,
                b,
                stmt_idset(s@),
            );
        },
        Stmt::Class(c) => {
            let views = funcs_view(c.methods@);
            assert forall|j: int| 0 <= j < c.methods@.len() implies same_on(
                a,
                b,
                stmts_idset(
                    stmts_view((#[trigger] c.methods@[j]).body@),
                    c.methods@[j].body@.len(),
                ),
            ) by {
                assert(views[j].body == stmts_view(c.methods@[j].body@));
                lemma_funcs_idset_has(views, views.len(), j);
                lemma_same_on_part(
                    a,
                    b,
                    stmt_idset(s@),
                    stmts_idset(stmts_view(c.methods@[j].body@), c.methods@[j].body@.len()),
                );
            }
            lemma_methods_named_same(c.methods@, 0, with_name(k, c.name.name()), a, b);
        },
        Stmt::Return(r) => {
            if let Some(v) = r.value {
                lemma_same_on_part(a, b, stmt_idset(s@), expr_idset(v@));
                lemma_expr_named_same(&v, k, a, b);
            }
        },
    }
}

/// Whether the statements of a list are named depends on what is recorded for
/// their own identities alone.
pub proof fn lemma_stmts_named_same_all(
    ss: Seq<Stmt>,
    k: Names,
    a: Map<u64, usize>,
    b: Map<u64, usize>,
    ids: Set<u64>,
)
    requires
        same_on(a, b, ids),
        ids == stmts_idset(stmts_view(ss), ss.len()),
    ensures
        stmts_named(ss, 0, k, a) == stmts_named(ss, 0, k, b),
    decreases ss, ss.len() + 1,
{
    let views = stmts_view(ss);
    assert forall|j: int| 0 <= j < ss.len() implies same_on(
        a,
        b,
        stmt_idset((#[trigger] ss[j])@),
    ) by {
        assert(views[j] == ss[j]@);
        lemma_stmts_idset_has(views, views.len(), j);
    }
    lemma_stmts_named_same(ss, 0, k, a, b);
}

/// Whether statements are named depends on what is recorded for their own identities alone.
pub proof fn lemma_stmts_named_same(
    ss: Seq<Stmt>,
    i: nat,
    k: Names,
    a: Map<u64, usize>,
    b: Map<u64, usize>,
)
    requires
        forall|j: int| i <= j < ss.len() ==> same_on(a, b, stmt_idset((#[trigger] ss[j])@)),
    ensures
        stmts_named(ss, i, k, a) == stmts_named(ss, i, k, b),
    decreases ss, ss.len() - i,
{
    if i < ss.len() {
        lemma_stmt_named_same(&ss[i as int], k, a, b);
        lemma_stmts_named_same(ss, i + 1, scopes_after(&ss[i as int], k), a, b);
    }
}

/// Whether the bodies of methods are named depends on what is recorded for their
/// own identities alone.
pub proof fn lemma_methods_named_same(
    ms: Seq<Func>,
    i: nat,
    k: Names,
    a: Map<u64, usize>,
    b: Map<u64, usize>,
)
    requires
        forall|j: int|
            i <= j < ms.len() ==> same_on(
                a,
                b,
                stmts_idset(stmts_view((#[trigger] ms[j]).body@), ms[j].body@.len()),
            ),
    ensures
        methods_named(ms, i, k, a) == methods_named(ms, i, k, b),
    decreases ms, ms.len() - i,
{
    if i < ms.len() {
        lemma_stmts_named_same_all(
            ms[i as int].body@,
            method_scopes(k, ms[i as int].params@),
            a,
            b,
            stmts_idset(stmts_view(ms[i as int].body@), ms[i as int].body@.len()),
        );
        lemma_methods_named_same(ms, i + 1, k, a, b);
    }
}

/// The names that the scope has defined.
pub open spec fn defined_in(scope: Scope) -> Set<Seq<char>> {
    Set::new(|name: Seq<char>| scope.contains_key(name) && scope[name])
}

/// The names that each of the scopes has defined.
pub open spec fn names_of(scopes: Seq<Scope>) -> Names {
    Seq::new(scopes.len(), |i: int| defined_in(scopes[i]))
}

/// Every scope has defined the names that it declares.
pub open spec fn settled(scopes: Seq<Scope>) -> bool {
    forall|i: int, name: Seq<char>|
        0 <= i < scopes.len() && #[trigger] scopes[i].contains_key(name) ==> scopes[i][name]
}

/// Every scope but the innermost has defined the names that it declares,
/// and the innermost has defined `this` if it declares it.
pub open spec fn readable(scopes: Seq<Scope>) -> bool {
    scopes.len() > 0 ==> settled(scopes.drop_last()) && (scopes.last().contains_key("this"@)
        ==> scopes.last()["this"@])
}

/// Reads find defined names: every scope is settled; or, where every `this`
/// that is read is spelled `this`, every scope but the innermost is, and the
/// innermost has defined `this` if it declares it.
pub open spec fn legible(scopes: Seq<Scope>, spelled: bool) -> bool {
    settled(scopes) || (spelled && readable(scopes))
}

/// The scopes but the innermost of settled scopes are settled.
pub proof fn lemma_settled_rest(scopes: Seq<Scope>)
    requires
        settled(scopes),
        scopes.len() > 0,
    ensures
        settled(scopes.drop_last()),
{
    let rest = scopes.drop_last();
    assert forall|i: int, name: Seq<char>|
        0 <= i < rest.len() && #[trigger] rest[i].contains_key(name) implies rest[i][name] by {
        assert(rest[i] == scopes[i]);
        assert(scopes[i].contains_key(name));
    }
}

/// The nearest scope that declares a name has defined it, if every scope
/// but the innermost is settled and the innermost has defined the name if
/// it declares it.
pub proof fn lemma_depth_defined(scopes: Seq<Scope>, name: Seq<char>)
    requires
        scopes.len() > 0 ==> settled(scopes.drop_last()) && (scopes.last().contains_key(name)
            ==> scopes.last()[name]),
    ensures
        depth_of(scopes, name) matches Some(d) ==> d < scopes.len() && names_of(
            scopes,
        )[scopes.len() - 1 - d].contains(name),
    decreases scopes.len(),
{
    if scopes.len() > 0 && !scopes.last().contains_key(name) {
        let rest = scopes.drop_last();
        if rest.len() > 0 {
            lemma_settled_rest(rest);
            assert(rest.last() == rest[rest.len() - 1]);
            assert(rest[rest.len() - 1].contains_key(name) ==> rest[rest.len() - 1][name]);
        }
        lemma_depth_defined(rest, name);
        if let Some(d) = depth_of(rest, name) {
            assert(rest[rest.len() - 1 - d] == scopes[scopes.len() - 1 - (d + 1)]);
        }
    }
}

/// A read that is resolved is recorded with a depth that leads to a scope
/// that defines the name.
pub proof fn lemma_read_defined(r: Resolution, id: u64, name: Seq<char>)
    requires
        !r.locals.contains_key(id),
        r.scopes.len() > 0 ==> settled(r.scopes.drop_last()) && (r.scopes.last().contains_key(
            name,
        ) ==> r.scopes.last()[name]),
    ensures
        crate::naming::read_named(id, name, names_of(r.scopes), r.resolve_local(id, name).locals),
        crate::naming::write_named(id, names_of(r.scopes), r.resolve_local(id, name).locals),
{
    lemma_depth_defined(r.scopes, name);
}

/// A write that is resolved is recorded with a depth that leads to an open scope.
pub proof fn lemma_write_defined(r: Resolution, id: u64, name: Seq<char>)
    requires
        !r.locals.contains_key(id),
    ensures
        crate::naming::write_named(id, names_of(r.scopes), r.resolve_local(id, name).locals),
{
    crate::resolver::lemma_depth_is_nearest_scope(r.scopes, name);
}

/// What is recorded when an expression is resolved leads to scopes that
/// define the names read.
pub proof fn lemma_expr_defined(r: Resolution, e: &Expr)
    requires
        r.resolve_expr(e) is Ok,
        fresh(r.locals, expr_idset(e@)),
        expr_distinct(e@),
        legible(r.scopes, spelled(e)),
    ensures
        expr_named(e, names_of(r.scopes), r.resolve_expr(e)->Ok_0.locals),
    decreases e, 0nat,
{
    let after = r.resolve_expr(e)->Ok_0;
    let k = names_of(r.scopes);
    let all = expr_idset(e@);
    match e {
        Expr::Literal(_) => {},
        Expr::Grouping(g) => {
            lemma_fresh_part(r.locals, all, expr_idset((*g.expr)@));
            lemma_expr_defined(r, &*g.expr);
        },
        Expr::Unary(u) => {
            lemma_fresh_part(r.locals, all, expr_idset((*u.right)@));
            lemma_expr_defined(r, &*u.right);
        },
        Expr::Get(g) => {
            lemma_fresh_part(r.locals, all, expr_idset((*g.expr)@));
            lemma_expr_defined(r, &*g.expr);
        },
        Expr::Binary(b) => {
            lemma_fresh_part(r.locals, all, expr_idset((*b.left)@));
            lemma_fresh_part(r.locals, all, expr_idset((*b.right)@));
            lemma_two_defined(r, &*b.left, &*b.right);
            lemma_expr_defined(r, &*b.left);
            lemma_expr_defined(r.resolve_expr(&*b.left)->Ok_0, &*b.right);
            lemma_expr_named_same(
                &*b.left,
                k,
                r.resolve_expr(&*b.left)->Ok_0.locals,
                after.locals,
            );
        },
        Expr::Logical(l) => {
            lemma_fresh_part(r.locals, all, expr_idset((*l.left)@));
            lemma_fresh_part(r.locals, all, expr_idset((*l.right)@));
            lemma_two_defined(r, &*l.left, &*l.right);
            lemma_expr_defined(r, &*l.left);
            lemma_expr_defined(r.resolve_expr(&*l.left)->Ok_0, &*l.right);
            lemma_expr_named_same(
                &*l.left,
                k,
                r.resolve_expr(&*l.left)->Ok_0.locals,
                after.locals,
            );
        },
        Expr::SetExpr(s) => {
            lemma_fresh_part(r.locals, all, expr_idset((*s.value)@));
            lemma_fresh_part(r.locals, all, expr_idset((*s.expr)@));
            lemma_two_defined(r, &*s.value, &*s.expr);
            lemma_expr_defined(r, &*s.value);
            lemma_expr_defined(r.resolve_expr(&*s.value)->Ok_0, &*s.expr);
            lemma_expr_named_same(
                &*s.value,
                k,
                r.resolve_expr(&*s.value)->Ok_0.locals,
                after.locals,
            );
        },
        Expr::Var(v) => {
            assert(all.contains(v.id));
            if r.scopes.len() > 0 && settled(r.scopes) {
                lemma_settled_rest(r.scopes);
                assert(r.scopes.last() == r.scopes[r.scopes.len() - 1]);
            }
            lemma_read_defined(r, v.id, v.name.name());
        },
        Expr::This(t) => {
            assert(all.contains(t.id));
            if r.scopes.len() > 0 && settled(r.scopes) {
                lemma_settled_rest(r.scopes);
                assert(r.scopes.last() == r.scopes[r.scopes.len() - 1]);
            }
            lemma_read_defined(r, t.id, t.keyword.name());
        },
        Expr::Assign(a) => {
            let part = expr_idset((*a.value)@);
            let mid = r.resolve_expr(&*a.value)->Ok_0;
            assert(all.contains(a.id));
            lemma_fresh_part(r.locals, all, part);
            lemma_expr_recorded(r, &*a.value);
            lemma_expr_defined(r, &*a.value);
            assert(kept(r.locals, mid.locals, a.id));
            lemma_write_defined(mid, a.id, a.name.name());
            crate::resolved::lemma_reference_fits(mid, a.id, a.name.name());
            lemma_rounds(r.locals, mid.locals, after.locals, part, set![a.id]);
            lemma_expr_named_same(&*a.value, k, mid.locals, after.locals);
        },
        Expr::Call(c) => {
            let views = e@->Call_arguments;
            let first = expr_idset((*c.calle)@);
            let rest = exprs_idset(views, views.len());
            let mid = r.resolve_expr(&*c.calle)->Ok_0;
            lemma_fresh_part(r.locals, all, first);
            lemma_fresh_part(r.locals, all, rest);
            lemma_expr_recorded(r, &*c.calle);
            lemma_expr_defined(r, &*c.calle);
            lemma_expr_keeps_context(r, &*c.calle);
            lemma_rounds(r.locals, mid.locals, mid.locals, first, rest);
            assert forall|j: int| 0 <= j < c.arguments@.len() implies fresh(
                mid.locals,
                expr_idset(#[trigger] c.arguments@[j]@),
            ) && expr_distinct(c.arguments@[j]@) by {
                assert(views[j] == c.arguments@[j]@);
                lemma_exprs_idset_has(views, views.len(), j);
                lemma_fresh_part(mid.locals, rest, expr_idset(views[j]));
                lemma_exprs_each_distinct(views, views.len(), j);
            }
            assert forall|i: int, j: int| 0 <= i < j < c.arguments@.len() implies expr_idset(
                #[trigger] c.arguments@[i]@,
            ).disjoint(expr_idset(#[trigger] c.arguments@[j]@)) by {
                assert(views[i] == c.arguments@[i]@);
                assert(views[j] == c.arguments@[j]@);
                lemma_exprs_apart(views, views.len(), i, j);
            }
            lemma_exprs_recorded(mid, c.arguments@, 0);
            lemma_exprs_defined(mid, c.arguments@, 0);
            assert forall|id: u64| !rest.contains(id) implies kept(
                mid.locals,
                after.locals,
                id,
            ) by {
                assert forall|j: int| 0 <= j < c.arguments@.len() implies !expr_idset(
                    #[trigger] c.arguments@[j]@,
                ).contains(id) by {
                    assert(views[j] == c.arguments@[j]@);
                    lemma_exprs_idset_has(views, views.len(), j);
                }
            }
            lemma_rounds(r.locals, mid.locals, after.locals, first, rest);
            lemma_expr_named_same(&*c.calle, k, mid.locals, after.locals);
        },
    }
}

/// Of two expressions that are resolved one after the other, the second
/// records nothing for the identities of the first, and is resolved with
/// the scopes of the first.
pub proof fn lemma_two_defined(r: Resolution, first: &Expr, second: &Expr)
    requires
        r.resolve_expr(first) is Ok,
        r.resolve_expr(first)->Ok_0.resolve_expr(second) is Ok,
        fresh(r.locals, expr_idset(first@)),
        fresh(r.locals, expr_idset(second@)),
        expr_distinct(first@),
        expr_distinct(second@),
        expr_idset(first@).disjoint(expr_idset(second@)),
    ensures
        r.resolve_expr(first)->Ok_0.scopes == r.scopes,
        fresh(r.resolve_expr(first)->Ok_0.locals, expr_idset(second@)),
        same_on(
            r.resolve_expr(first)->Ok_0.locals,
            r.resolve_expr(first)->Ok_0.resolve_expr(second)->Ok_0.locals,
            expr_idset(first@),
        ),
{
    let mid = r.resolve_expr(first)->Ok_0;
    let after = mid.resolve_expr(second)->Ok_0;
    lemma_expr_recorded(r, first);
    lemma_still_fresh(r, mid, expr_idset(first@), expr_idset(second@));
    lemma_expr_recorded(mid, second);
    lemma_rounds(r.locals, mid.locals, after.locals, expr_idset(first@), expr_idset(second@));
}

/// What is recorded when expressions are resolved leads to scopes that
/// define the names read.
pub proof fn lemma_exprs_defined(r: Resolution, es: Seq<Expr>, i: nat)
    requires
        r.resolve_exprs(es, i) is Ok,
        forall|j: int|
            i <= j < es.len() ==> fresh(r.locals, expr_idset(#[trigger] es[j]@)) && expr_distinct(
                es[j]@,
            ),
        forall|j: int, l: int|
            i <= j < l < es.len() ==> expr_idset(#[trigger] es[j]@).disjoint(
                expr_idset(#[trigger] es[l]@),
            ),
        legible(r.scopes, all_spelled(es, i)),
    ensures
        exprs_named(es, i, names_of(r.scopes), r.resolve_exprs(es, i)->Ok_0.locals),
    decreases es, es.len() - i,
{
    if i < es.len() {
        let after = r.resolve_exprs(es, i)->Ok_0;
        let mid = r.resolve_expr(&es[i as int])->Ok_0;
        let first = expr_idset(es[i as int]@);
        lemma_expr_recorded(r, &es[i as int]);
        lemma_expr_defined(r, &es[i as int]);
        lemma_expr_keeps_context(r, &es[i as int]);
        assert forall|j: int| i + 1 <= j < es.len() implies fresh(
            mid.locals,
            expr_idset(#[trigger] es[j]@),
        ) by {
            lemma_rounds(r.locals, mid.locals, mid.locals, first, expr_idset(es[j]@));
        }
        lemma_exprs_recorded(mid, es, i + 1);
        lemma_exprs_defined(mid, es, i + 1);
        assert forall|id: u64| first.contains(id) implies kept(mid.locals, after.locals, id) by {
            assert forall|j: int| i + 1 <= j < es.len() implies !expr_idset(
                #[trigger] es[j]@,
            ).contains(id) by {
                assert(first.disjoint(expr_idset(es[j]@)));
            }
        }
        lemma_expr_named_same(&es[i as int], names_of(r.scopes), mid.locals, after.locals);
    }
}

/// The scopes differ in the innermost one at most.
pub open spec fn same_around(a: Seq<Scope>, b: Seq<Scope>) -> bool {
    a.len() == b.len() && (a.len() > 0 ==> a.drop_last() == b.drop_last())
}

/// A name that is defined in the innermost scope is one more of its names;
/// the scopes around are as before, and settled scopes stay settled.
pub proof fn lemma_bind_defines(r: Resolution, name: Seq<char>)
    ensures
        names_of(r.bind(name, true).scopes) == with_name(names_of(r.scopes), name),
        settled(r.scopes) ==> settled(r.bind(name, true).scopes),
        same_around(r.scopes, r.bind(name, true).scopes),
{
    let after = r.bind(name, true).scopes;
    if r.scopes.len() > 0 {
        let top = r.scopes.len() - 1;
        assert(defined_in(after[top]) =~= defined_in(r.scopes[top]).insert(name));
        assert(names_of(after) =~= with_name(names_of(r.scopes), name));
        assert(after.drop_last() =~= r.scopes.drop_last());
    }
}

/// A name that is declared in the innermost scope and not yet defined is
/// none of its names; if the scopes were settled and the name is not
/// `this`, they are readable. Defining the name later is as defining it at once.
pub proof fn lemma_declared(r: Resolution, name: Token)
    requires
        r.declare(name) is Ok,
    ensures
        names_of(r.declare(name)->Ok_0.scopes) == names_of(r.scopes),
        settled(r.scopes) && name.name() != "this"@ ==> readable(r.declare(name)->Ok_0.scopes),
        r.declare(name)->Ok_0.define(name).scopes == r.bind(name.name(), true).scopes,
        r.declare(name)->Ok_0.locals == r.locals,
{
    let mid = r.declare(name)->Ok_0;
    if r.scopes.len() > 0 {
        let top = r.scopes.len() - 1;
        assert(defined_in(mid.scopes[top]) =~= defined_in(r.scopes[top]));
        assert(names_of(mid.scopes) =~= names_of(r.scopes));
        assert(mid.scopes.drop_last() =~= r.scopes.drop_last());
        if settled(r.scopes) {
            lemma_settled_rest(r.scopes);
            assert(r.scopes.last() == r.scopes[top]);
        }
        assert(r.scopes[top].insert(name.name(), false).insert(name.name(), true)
            =~= r.scopes[top].insert(name.name(), true));
        assert(mid.define(name).scopes =~= r.bind(name.name(), true).scopes);
    }
}

/// A new scope has no names.
pub proof fn lemma_begun(r: Resolution)
    ensures
        names_of(r.begin_scope().scopes) == names_of(r.scopes).push(Set::empty()),
        settled(r.scopes) ==> settled(r.begin_scope().scopes),
        r.begin_scope().scopes.drop_last() == r.scopes,
{
    let after = r.begin_scope().scopes;
    assert(defined_in(after[r.scopes.len() as int]) =~= Set::<Seq<char>>::empty());
    assert(names_of(after) =~= names_of(r.scopes).push(Set::empty()));
    assert(after.drop_last() =~= r.scopes);
    if settled(r.scopes) {
        assert forall|i: int, name: Seq<char>|
            0 <= i < after.len() && #[trigger] after[i].contains_key(name) implies after[i][name] by {
            if i < r.scopes.len() {
                assert(after[i] == r.scopes[i]);
                assert(r.scopes[i].contains_key(name));
            }
        }
    }
}

/// Parameters are defined in the innermost scope: its names are what they
/// were and the names of the parameters, and the scopes around are as before.
pub proof fn lemma_params_defined(r: Resolution, params: Seq<Token>, i: nat)
    requires
        r.declare_params(params, i) is Ok,
        r.scopes.len() > 0,
    ensures
        same_around(r.scopes, r.declare_params(params, i)->Ok_0.scopes),
        settled(r.scopes) ==> settled(r.declare_params(params, i)->Ok_0.scopes),
        defined_in(r.declare_params(params, i)->Ok_0.scopes.last()) == defined_in(
            r.scopes.last(),
        ).union(param_names(params, i)),
    decreases params.len() - i,
{
    if i < params.len() {
        let name = params[i as int];
        let mid = r.declare(name)->Ok_0.define(name);
        let after = r.declare_params(params, i)->Ok_0;
        lemma_declared(r, name);
        lemma_bind_defines(r, name.name());
        lemma_params_defined(mid, params, i + 1);
        assert(mid.scopes.last() == mid.scopes[mid.scopes.len() - 1]);
        assert(defined_in(mid.scopes.last()) =~= defined_in(r.scopes.last()).insert(
            name.name(),
        ));
        assert(defined_in(after.scopes.last()) =~= defined_in(r.scopes.last()).union(
            param_names(params, i),
        ));
    } else {
        assert(defined_in(r.scopes.last()).union(param_names(params, i)) =~= defined_in(
            r.scopes.last(),
        ));
    }
}

/// What a plain statement that is resolved does to the scopes: a
/// declaration defines its name in the innermost scope, and nothing else changes.
pub proof fn lemma_stmt_scopes(r: Resolution, s: &Stmt)
    requires
        r.resolve_stmt(s) is Ok,
        plain(s),
    ensures
        r.resolve_stmt(s)->Ok_0.scopes == match declares(s) {
            Some(name) => r.bind(name, true).scopes,
            None => r.scopes,
        },
    decreases s, 0nat,
{
    match s {
        Stmt::ExprStmt(e) => {
            lemma_expr_keeps_context(r, e);
        },
        Stmt::Var(v) => {
            let mid = r.declare(v.token)->Ok_0;
            lemma_declared(r, v.token);
            if let Some(init) = v.initializer {
                lemma_expr_keeps_context(mid, &init);
            }
        },
        Stmt::Block(b) => {
            lemma_begun(r);
            lemma_stmts_scopes(r.begin_scope(), b.stmts@, 0);
        },
        Stmt::If(i) => {
            lemma_expr_keeps_context(r, &i.condition);
            let mid = r.resolve_expr(&i.condition)->Ok_0;
            lemma_stmt_scopes(mid, &*i.then_block);
            let then = mid.resolve_stmt(&*i.then_block)->Ok_0;
            if let Some(e) = i.else_block {
                lemma_stmt_scopes(then, &*e);
            }
        },
        Stmt::While(w) => {
            lemma_expr_keeps_context(r, &w.condition);
            let mid = r.resolve_expr(&w.condition)->Ok_0;
            lemma_stmt_scopes(mid, &*w.body);
        },
        Stmt::Func(f) => {
            let mid = r.declare(f.name)->Ok_0;
            lemma_declared(r, f.name);
            lemma_fun_scopes(mid.define(f.name), f, FunctionType::FUNCTION);
        },
        Stmt::Class(c) => {
            let mid = r.declare(c.name)->Ok_0;
            let opened = Resolution { class: ClassType::CLASS, ..mid.define(c.name) }.begin_scope();
            let inside = opened.bind("this"@, true);
            lemma_declared(r, c.name);
            lemma_begun(Resolution { class: ClassType::CLASS, ..mid.define(c.name) });
            lemma_bind_defines(opened, "this"@);
            lemma_methods_scopes(inside, c.methods@, 0);
        },
        Stmt::Return(ret) => {
            if let Some(v) = ret.value {
                lemma_expr_keeps_context(r, &v);
            }
        },
    }
}

/// Plain statements that are resolved change the innermost scope at most.
pub proof fn lemma_stmts_scopes(r: Resolution, ss: Seq<Stmt>, i: nat)
    requires
        r.resolve_stmts(ss, i) is Ok,
        all_plain(ss, i),
    ensures
        same_around(r.scopes, r.resolve_stmts(ss, i)->Ok_0.scopes),
    decreases ss, ss.len() - i,
{
    if i < ss.len() {
        let mid = r.resolve_stmt(&ss[i as int])->Ok_0;
        lemma_stmt_scopes(r, &ss[i as int]);
        if let Some(name) = declares(&ss[i as int]) {
            lemma_bind_defines(r, name);
        }
        lemma_stmts_scopes(mid, ss, i + 1);
    }
}

/// A function with a plain body that is resolved leaves the scopes as they were.
pub proof fn lemma_fun_scopes(r: Resolution, f: &Func, kind: FunctionType)
    requires
        r.resolve_fun(f, kind) is Ok,
        all_plain(f.body@, 0),
    ensures
        r.resolve_fun(f, kind)->Ok_0.scopes == r.scopes,
    decreases f, 0nat,
{
    let inside = Resolution { function: kind, ..r }.begin_scope();
    let ready = inside.declare_params(f.params@, 0)->Ok_0;
    lemma_begun(Resolution { function: kind, ..r });
    lemma_params_defined(inside, f.params@, 0);
    lemma_stmts_scopes(ready, f.body@, 0);
}

/// Methods with plain bodies that are resolved leave the scopes as they were.
pub proof fn lemma_methods_scopes(r: Resolution, ms: Seq<Func>, i: nat)
    requires
        r.resolve_methods(ms, i) is Ok,
        methods_plain(ms, i),
    ensures
        r.resolve_methods(ms, i)->Ok_0.scopes == r.scopes,
    decreases ms, ms.len() - i,
{
    if i < ms.len() {
        let kind = if ms[i as int].name.name() == "init"@ {
            FunctionType::INITIALIZER
        } else {
            FunctionType::METHOD
        };
        lemma_fun_scopes(r, &ms[i as int], kind);
        lemma_methods_scopes(r.resolve_fun(&ms[i as int], kind)->Ok_0, ms, i + 1);
    }
}

/// After a plain statement is resolved from settled scopes, the scopes are
/// settled and define what the statement declares besides.
pub proof fn lemma_stmt_settles(r: Resolution, s: &Stmt)
    requires
        r.resolve_stmt(s) is Ok,
        plain(s),
    ensures
        settled(r.scopes) ==> settled(r.resolve_stmt(s)->Ok_0.scopes),
        names_of(r.resolve_stmt(s)->Ok_0.scopes) == scopes_after(s, names_of(r.scopes)),
{
    lemma_stmt_scopes(r, s);
    if let Some(name) = declares(s) {
        lemma_bind_defines(r, name);
    }
}

/// What is recorded when a plain statement is resolved from settled scopes
/// leads to scopes that define the names read.
#[verifier::spinoff_prover]
pub proof fn lemma_stmt_defined(r: Resolution, s: &Stmt)
    requires
        r.resolve_stmt(s) is Ok,
        fresh(r.locals, stmt_idset(s@)),
        stmt_distinct(s@),
        settled(r.scopes),
        plain(s),
    ensures
        stmt_named(s, names_of(r.scopes), r.resolve_stmt(s)->Ok_0.locals),
    decreases s, 1nat,
{
    let after = r.resolve_stmt(s)->Ok_0;
    let k = names_of(r.scopes);
    let all = stmt_idset(s@);
    match s {
        Stmt::ExprStmt(e) => {
            lemma_expr_defined(r, e);
        },
        Stmt::Var(v) => {
            let declared = r.declare(v.token)->Ok_0;
            lemma_declared(r, v.token);
            if let Some(init) = v.initializer {
                lemma_expr_defined(declared, &init);
            }
        },
        Stmt::Block(b) => {
            lemma_begun(r);
            lemma_stmts_defined_all(r.begin_scope(), b.stmts@);
        },
        Stmt::If(_) => {
            lemma_if_defined(r, s);
        },
        Stmt::While(w) => {
            let first = expr_idset(w.condition@);
            let second = stmt_idset((*w.body)@);
            let mid = r.resolve_expr(&w.condition)->Ok_0;
            lemma_fresh_part(r.locals, all, first);
            lemma_fresh_part(r.locals, all, second);
            lemma_expr_recorded(r, &w.condition);
            lemma_expr_defined(r, &w.condition);
            lemma_still_fresh(r, mid, first, second);
            lemma_stmt_recorded(mid, &*w.body);
            lemma_stmt_defined(mid, &*w.body);
            lemma_rounds(r.locals, mid.locals, after.locals, first, second);
            lemma_expr_named_same(&w.condition, k, mid.locals, after.locals);
        },
        Stmt::Func(f) => {
            let declared = r.declare(f.name)->Ok_0.define(f.name);
            assert(s@ == crate::statements::stmt_view(*s));
            assert(s@ == StmtView::Func(crate::statements::func_view(*f)));
            assert(crate::statements::func_view(*f).body == stmts_view(f.body@));
            lemma_declared(r, f.name);
            lemma_bind_defines(r, f.name.name());
            lemma_fun_defined(declared, f, FunctionType::FUNCTION);
        },
        Stmt::Class(_) => {
            lemma_class_defined(r, s);
        },
        Stmt::Return(x) => {
            if let Some(v) = x.value {
                lemma_expr_defined(r, &v);
            }
        },
    }
}

/// What is recorded when a plain conditional is resolved from settled scopes
/// leads to scopes that define the names read.
#[verifier::spinoff_prover]
pub proof fn lemma_if_defined(r: Resolution, s: &Stmt)
    requires
        r.resolve_stmt(s) is Ok,
        fresh(r.locals, stmt_idset(s@)),
        stmt_distinct(s@),
        settled(r.scopes),
        plain(s),
        s is If,
    ensures
        stmt_named(s, names_of(r.scopes), r.resolve_stmt(s)->Ok_0.locals),
    decreases s, 0nat,
{
    let after = r.resolve_stmt(s)->Ok_0;
    let k = names_of(r.scopes);
    let all = stmt_idset(s@);
    match s {
        Stmt::If(i) => {
            let first = expr_idset(i.condition@);
            let second = stmt_idset((*i.then_block)@);
            let mid = r.resolve_expr(&i.condition)->Ok_0;
            let then = mid.resolve_stmt(&*i.then_block)->Ok_0;
            lemma_fresh_part(r.locals, all, first);
            lemma_fresh_part(r.locals, all, second);
            lemma_expr_recorded(r, &i.condition);
            lemma_expr_defined(r, &i.condition);
            lemma_still_fresh(r, mid, first, second);
            lemma_stmt_recorded(mid, &*i.then_block);
            lemma_stmt_defined(mid, &*i.then_block);
            lemma_stmt_scopes(mid, &*i.then_block);
            lemma_rounds(r.locals, mid.locals, then.locals, first, second);
            lemma_expr_named_same(&i.condition, k, mid.locals, then.locals);
            match i.else_block {
                Some(e) => {
                    let third = stmt_idset((*e)@);
                    lemma_fresh_part(r.locals, all, third);
                    lemma_still_fresh(r, then, first.union(second), third);
                    lemma_stmt_recorded(then, &*e);
                    lemma_stmt_defined(then, &*e);
                    lemma_rounds(
                        r.locals,
                        then.locals,
                        after.locals,
                        first.union(second),
                        third,
                    );
                    lemma_same_on_part(
                        then.locals,
                        after.locals,
                        first.union(second),
                        first,
                    );
                    lemma_same_on_part(
                        then.locals,
                        after.locals,
                        first.union(second),
                        second,
                    );
                    lemma_expr_named_same(&i.condition, k, then.locals, after.locals);
                    lemma_stmt_named_same(&*i.then_block, k, then.locals, after.locals);
                },
                None => {},
            }
        },
        _ => {},
    }
}

/// What is recorded when a class with plain methods is resolved from settled
/// scopes leads to scopes that define the names read.
#[verifier::spinoff_prover]
pub proof fn lemma_class_defined(r: Resolution, s: &Stmt)
    requires
        r.resolve_stmt(s) is Ok,
        fresh(r.locals, stmt_idset(s@)),
        stmt_distinct(s@),
        settled(r.scopes),
        plain(s),
        s is Class,
    ensures
        stmt_named(s, names_of(r.scopes), r.resolve_stmt(s)->Ok_0.locals),
    decreases s, 0nat,
{
    let after = r.resolve_stmt(s)->Ok_0;
    let all = stmt_idset(s@);
    match s {
        Stmt::Class(c) => {
            let declared = r.declare(c.name)->Ok_0.define(c.name);
            let classed = Resolution { class: ClassType::CLASS, ..declared };
            let opened = classed.begin_scope();
            let inside = opened.bind("this"@, true);
            let around = with_name(names_of(r.scopes), c.name.name());
            let views = funcs_view(c.methods@);
            lemma_declared(r, c.name);
            lemma_bind_defines(r, c.name.name());
            lemma_begun(classed);
            lemma_bind_defines(opened, "this"@);
            assert(Set::<Seq<char>>::empty().insert("this"@) =~= set!["this"@]);
            assert(names_of(inside.scopes) =~= around.push(set!["this"@]));
            assert forall|j: int| 0 <= j < c.methods@.len() implies fresh(
                inside.locals,
                method_idset(#[trigger] c.methods@[j]),
            ) && stmts_distinct(
                stmts_view(c.methods@[j].body@),
                c.methods@[j].body@.len(),
            ) by {
                assert(views[j].body == stmts_view(c.methods@[j].body@));
                lemma_funcs_idset_has(views, views.len(), j);
                lemma_fresh_part(r.locals, all, method_idset(c.methods@[j]));
                lemma_funcs_each_distinct(views, views.len(), j);
            }
            assert forall|i: int, j: int| 0 <= i < j < c.methods@.len() implies method_idset(
                #[trigger] c.methods@[i],
            ).disjoint(method_idset(#[trigger] c.methods@[j])) by {
                assert(views[i].body == stmts_view(c.methods@[i].body@));
                assert(views[j].body == stmts_view(c.methods@[j].body@));
                lemma_funcs_apart(views, views.len(), i, j);
            }
            lemma_methods_defined(inside, c.methods@, 0, around);
        },
        _ => {},
    }
}

/// What is recorded when a function with a plain body is resolved from
/// settled scopes leads to scopes that define the names read in its body.
pub proof fn lemma_fun_defined(r: Resolution, f: &Func, kind: FunctionType)
    requires
        r.resolve_fun(f, kind) is Ok,
        fresh(r.locals, method_idset(*f)),
        stmts_distinct(stmts_view(f.body@), f.body@.len()),
        settled(r.scopes),
        all_plain(f.body@, 0),
    ensures
        stmts_named(
            f.body@,
            0,
            body_scopes(names_of(r.scopes), f.params@),
            r.resolve_fun(f, kind)->Ok_0.locals,
        ),
    decreases f, 0nat,
{
    let kinded = Resolution { function: kind, ..r };
    let inside = kinded.begin_scope();
    lemma_begun(kinded);
    lemma_params_record_nothing(inside, f.params@, 0);
    lemma_params_defined(inside, f.params@, 0);
    let ready = inside.declare_params(f.params@, 0)->Ok_0;
    assert(names_of(ready.scopes) =~= body_scopes(names_of(r.scopes), f.params@)) by {
        let top = r.scopes.len() as int;
        assert(ready.scopes.last() == ready.scopes[top]);
        assert(inside.scopes.last() == inside.scopes[top]);
        assert(defined_in(inside.scopes[top]) =~= Set::<Seq<char>>::empty());
        assert(defined_in(ready.scopes[top]) =~= param_names(f.params@, 0));
        assert forall|i: int| 0 <= i < top implies names_of(ready.scopes)[i] == names_of(
            r.scopes,
        )[i] by {
            assert(ready.scopes[i] == ready.scopes.drop_last()[i]);
            assert(inside.scopes[i] == inside.scopes.drop_last()[i]);
        }
    }
    lemma_stmts_defined_all(ready, f.body@);
}

/// What is recorded when the plain statements of a list are resolved from
/// settled scopes leads to scopes that define the names read.
pub proof fn lemma_stmts_defined_all(r: Resolution, ss: Seq<Stmt>)
    requires
        r.resolve_stmts(ss, 0) is Ok,
        fresh(r.locals, stmts_idset(stmts_view(ss), ss.len())),
        stmts_distinct(stmts_view(ss), ss.len()),
        settled(r.scopes),
        all_plain(ss, 0),
    ensures
        stmts_named(ss, 0, names_of(r.scopes), r.resolve_stmts(ss, 0)->Ok_0.locals),
    decreases ss, ss.len() + 1,
{
    let views = stmts_view(ss);
    let all = stmts_idset(views, ss.len());
    assert forall|j: int| 0 <= j < ss.len() implies fresh(
        r.locals,
        stmt_idset((#[trigger] ss[j])@),
    ) && stmt_distinct(ss[j]@) by {
        assert(views[j] == ss[j]@);
        lemma_stmts_idset_has(views, views.len(), j);
        lemma_fresh_part(r.locals, all, stmt_idset(ss[j]@));
        lemma_stmts_each_distinct(views, views.len(), j);
    }
    assert forall|i: int, j: int| 0 <= i < j < ss.len() implies stmt_idset(
        (#[trigger] ss[i])@,
    ).disjoint(stmt_idset((#[trigger] ss[j])@)) by {
        assert(views[i] == ss[i]@);
        assert(views[j] == ss[j]@);
        lemma_stmts_apart(views, views.len(), i, j);
    }
    lemma_stmts_defined(r, ss, 0);
}

/// What is recorded when the plain statements from the `i`th on are
/// resolved from settled scopes leads to scopes that define the names read.
pub proof fn lemma_stmts_defined(r: Resolution, ss: Seq<Stmt>, i: nat)
    requires
        r.resolve_stmts(ss, i) is Ok,
        forall|j: int|
            i <= j < ss.len() ==> fresh(r.locals, stmt_idset((#[trigger] ss[j])@))
                && stmt_distinct(ss[j]@),
        forall|j: int, l: int|
            i <= j < l < ss.len() ==> stmt_idset((#[trigger] ss[j])@).disjoint(
                stmt_idset((#[trigger] ss[l])@),
            ),
        settled(r.scopes),
        all_plain(ss, i),
    ensures
        stmts_named(ss, i, names_of(r.scopes), r.resolve_stmts(ss, i)->Ok_0.locals),
    decreases ss, ss.len() - i,
{
    if i < ss.len() {
        let after = r.resolve_stmts(ss, i)->Ok_0;
        let mid = r.resolve_stmt(&ss[i as int])->Ok_0;
        let first = stmt_idset(ss[i as int]@);
        lemma_stmt_recorded(r, &ss[i as int]);
        lemma_stmt_defined(r, &ss[i as int]);
        lemma_stmt_settles(r, &ss[i as int]);
        assert forall|j: int| i + 1 <= j < ss.len() implies fresh(
            mid.locals,
            stmt_idset((#[trigger] ss[j])@),
        ) by {
            lemma_still_fresh(r, mid, first, stmt_idset(ss[j]@));
        }
        lemma_stmts_recorded(mid, ss, i + 1);
        lemma_stmts_defined(mid, ss, i + 1);
        assert forall|id: u64| first.contains(id) implies kept(mid.locals, after.locals, id) by {
            assert forall|j: int| i + 1 <= j < ss.len() implies !stmt_idset(
                (#[trigger] ss[j])@,
            ).contains(id) by {
                assert(first.disjoint(stmt_idset(ss[j]@)));
            }
        }
        lemma_stmt_named_same(&ss[i as int], names_of(r.scopes), mid.locals, after.locals);
    }
}

/// What is recorded when the methods from the `i`th on, with plain bodies,
/// are resolved from settled scopes, the innermost of which defines `this`
/// alone, leads to scopes that define the names read.
pub proof fn lemma_methods_defined(r: Resolution, ms: Seq<Func>, i: nat, around: Names)
    requires
        r.resolve_methods(ms, i) is Ok,
        forall|j: int|
            i <= j < ms.len() ==> fresh(r.locals, method_idset(#[trigger] ms[j]))
                && stmts_distinct(stmts_view(ms[j].body@), ms[j].body@.len()),
        forall|j: int, l: int|
            i <= j < l < ms.len() ==> method_idset(#[trigger] ms[j]).disjoint(
                method_idset(#[trigger] ms[l]),
            ),
        settled(r.scopes),
        methods_plain(ms, i),
        names_of(r.scopes) == around.push(set!["this"@]),
    ensures
        methods_named(ms, i, around, r.resolve_methods(ms, i)->Ok_0.locals),
    decreases ms, ms.len() - i,
{
    if i < ms.len() {
        let kind = if ms[i as int].name.name() == "init"@ {
            FunctionType::INITIALIZER
        } else {
            FunctionType::METHOD
        };
        let after = r.resolve_methods(ms, i)->Ok_0;
        let mid = r.resolve_fun(&ms[i as int], kind)->Ok_0;
        let first = method_idset(ms[i as int]);
        lemma_fun_recorded(r, &ms[i as int], kind);
        lemma_fun_defined(r, &ms[i as int], kind);
        lemma_fun_scopes(r, &ms[i as int], kind);
        assert forall|j: int| i + 1 <= j < ms.len() implies fresh(
            mid.locals,
            method_idset(#[trigger] ms[j]),
        ) by {
            lemma_still_fresh(r, mid, first, method_idset(ms[j]));
        }
        lemma_methods_recorded(mid, ms, i + 1);
        lemma_methods_defined(mid, ms, i + 1, around);
        assert forall|id: u64| first.contains(id) implies kept(mid.locals, after.locals, id) by {
            assert forall|j: int| i + 1 <= j < ms.len() implies !method_idset(
                #[trigger] ms[j],
            ).contains(id) by {
                assert(first.disjoint(method_idset(ms[j])));
            }
        }
        lemma_stmts_named_same_all(
            ms[i as int].body@,
            method_scopes(around, ms[i as int].params@),
            mid.locals,
            after.locals,
            first,
        );
    }
}

/// A resolved program is named: if a plain program in which no two
/// expressions share an identity is resolved from the top level, with
/// nothing recorded before, every depth that is recorded for a read of the
/// program leads to a scope that has defined the name when the read is run.
pub proof fn lemma_program_defined(stmts: Seq<Stmt>)
    requires
        crate::numbering::stmts_ids(stmts_view(stmts), stmts.len()).no_duplicates(),
        top_level().resolve_stmts(stmts, 0) is Ok,
        all_plain(stmts, 0),
    ensures
        stmts_named(stmts, 0, Seq::empty(), top_level().resolve_stmts(stmts, 0)->Ok_0.locals),
{
    crate::resolved::lemma_stmts_bridge(stmts_view(stmts), stmts.len());
    lemma_stmts_defined_all(top_level(), stmts);
    assert(names_of(top_level().scopes) =~= Seq::<Set<Seq<char>>>::empty());
}

} // verus!
