//! What the resolver records fits the program: every depth that is recorded
//! for a reference is smaller than the number of scopes around the
//! reference, if no two expressions of the program share an identity.

use vstd::prelude::*;
use crate::expressions::{Expr, ExprView};
use crate::numbering::{expr_ids, exprs_ids, funcs_ids, stmt_ids, stmts_ids};
use crate::resolver::{
    ClassType, FunctionType, Resolution, lemma_depth_is_nearest_scope,
    lemma_expr_keeps_context,
};
use crate::scanner::Token;
use crate::scoping::{expr_fits, exprs_fit, methods_fit, reference_fits, stmt_fits, stmts_fit};
use crate::statements::{Func, FuncView, Stmt, StmtView, funcs_view, stmts_view};

verus! {

/// The identities of the nodes of an expression.
pub open spec fn expr_idset(e: ExprView) -> Set<u64>
    decreases e,
{
    match e {
        ExprView::Literal { id, .. } => set![id],
        ExprView::Var { id, .. } => set![id],
        ExprView::This { id, .. } => set![id],
        ExprView::Unary { id, right, .. } => expr_idset(*right).insert(id),
        ExprView::Grouping { id, expr } => expr_idset(*expr).insert(id),
        ExprView::Assign { id, value, .. } => expr_idset(*value).insert(id),
        ExprView::Get { id, expr, .. } => expr_idset(*expr).insert(id),
        ExprView::Binary { id, left, right, .. } => expr_idset(*left).union(expr_idset(*right))
            .insert(id),
        ExprView::Logical { id, left, right, .. } => expr_idset(*left).union(expr_idset(*right))
            .insert(id),
        ExprView::SetExpr { id, expr, value, .. } => expr_idset(*expr).union(expr_idset(*value))
            .insert(id),
        ExprView::Call { id, calle, arguments, .. } => expr_idset(*calle).union(
            exprs_idset(arguments, arguments.len()),
        ).insert(id),
    }
}

/// The identities of the nodes of the first `n` expressions.
pub open spec fn exprs_idset(es: Seq<ExprView>, n: nat) -> Set<u64>
    decreases es, n,
{
    if n == 0 || n > es.len() {
        Set::empty()
    } else {
        exprs_idset(es, (n - 1) as nat).union(expr_idset(es[n - 1]))
    }
}

/// No two nodes of the expression share an identity.
pub open spec fn expr_distinct(e: ExprView) -> bool
    decreases e,
{
    match e {
        ExprView::Literal { .. } => true,
        ExprView::Var { .. } => true,
        ExprView::This { .. } => true,
        ExprView::Unary { id, right, .. } => expr_distinct(*right) && !expr_idset(*right).contains(
            id,
        ),
        ExprView::Grouping { id, expr } => expr_distinct(*expr) && !expr_idset(*expr).contains(id),
        ExprView::Assign { id, value, .. } => expr_distinct(*value) && !expr_idset(*value).contains(
            id,
        ),
        ExprView::Get { id, expr, .. } => expr_distinct(*expr) && !expr_idset(*expr).contains(id),
        ExprView::Binary { id, left, right, .. } => expr_distinct(*left) && expr_distinct(*right)
            && apart(expr_idset(*left), expr_idset(*right), id),
        ExprView::Logical { id, left, right, .. } => expr_distinct(*left) && expr_distinct(*right)
            && apart(expr_idset(*left), expr_idset(*right), id),
        ExprView::SetExpr { id, expr, value, .. } => expr_distinct(*expr) && expr_distinct(*value)
            && apart(expr_idset(*expr), expr_idset(*value), id),
        ExprView::Call { id, calle, arguments, .. } => {
            &&& expr_distinct(*calle)
            &&& exprs_distinct(arguments, arguments.len())
            &&& expr_idset(*calle).disjoint(exprs_idset(arguments, arguments.len()))
            &&& !expr_idset(*calle).contains(id)
            &&& !exprs_idset(arguments, arguments.len()).contains(id)
        },
    }
}

/// The two sets of identities share nothing, and neither holds `id`.
pub open spec fn apart(a: Set<u64>, b: Set<u64>, id: u64) -> bool {
    &&& a.disjoint(b)
    &&& !a.contains(id)
    &&& !b.contains(id)
}

/// No two nodes of the first `n` expressions share an identity.
pub open spec fn exprs_distinct(es: Seq<ExprView>, n: nat) -> bool
    decreases es, n,
{
    if n == 0 || n > es.len() {
        true
    } else {
        &&& exprs_distinct(es, (n - 1) as nat)
        &&& expr_distinct(es[n - 1])
        &&& exprs_idset(es, (n - 1) as nat).disjoint(expr_idset(es[n - 1]))
    }
}

/// The identities of an expression that may be missing.
pub open spec fn optional_idset(e: Option<ExprView>) -> Set<u64> {
    match e {
        Some(e) => expr_idset(e),
        None => Set::empty(),
    }
}

/// No two nodes of an expression that may be missing share an identity.
pub open spec fn optional_distinct(e: Option<ExprView>) -> bool {
    match e {
        Some(e) => expr_distinct(e),
        None => true,
    }
}

/// The identities of the expressions of a statement.
pub open spec fn stmt_idset(s: StmtView) -> Set<u64>
    decreases s, 0nat,
{
    match s {
        StmtView::ExprStmt(e) => expr_idset(e),
        StmtView::Var { initializer, .. } => optional_idset(initializer),
        StmtView::Block { stmts } => stmts_idset(stmts, stmts.len()),
        StmtView::If { condition, then_block, else_block } => expr_idset(condition).union(
            stmt_idset(*then_block),
        ).union(
            match else_block {
                Some(e) => stmt_idset(*e),
                None => Set::empty(),
            },
        ),
        StmtView::While { condition, body } => expr_idset(condition).union(stmt_idset(*body)),
        StmtView::Func(f) => stmts_idset(f.body, f.body.len()),
        StmtView::Class { methods, .. } => funcs_idset(methods, methods.len()),
        StmtView::Return { value, .. } => optional_idset(value),
    }
}

/// The identities of the expressions of the first `n` statements.
pub open spec fn stmts_idset(ss: Seq<StmtView>, n: nat) -> Set<u64>
    decreases ss, n,
{
    if n == 0 || n > ss.len() {
        Set::empty()
    } else {
        stmts_idset(ss, (n - 1) as nat).union(stmt_idset(ss[n - 1]))
    }
}

/// The identities of the expressions of the first `n` functions.
pub open spec fn funcs_idset(fs: Seq<FuncView>, n: nat) -> Set<u64>
    decreases fs, n,
{
    if n == 0 || n > fs.len() {
        Set::empty()
    } else {
        funcs_idset(fs, (n - 1) as nat).union(stmts_idset(fs[n - 1].body, fs[n - 1].body.len()))
    }
}

/// No two expressions of the statement share an identity.
pub open spec fn stmt_distinct(s: StmtView) -> bool
    decreases s, 0nat,
{
    match s {
        StmtView::ExprStmt(e) => expr_distinct(e),
        StmtView::Var { initializer, .. } => optional_distinct(initializer),
        StmtView::Block { stmts } => stmts_distinct(stmts, stmts.len()),
        StmtView::If { condition, then_block, else_block } => {
            &&& expr_distinct(condition)
            &&& stmt_distinct(*then_block)
            &&& expr_idset(condition).disjoint(stmt_idset(*then_block))
            &&& match else_block {
                Some(e) => stmt_distinct(*e) && expr_idset(condition).disjoint(stmt_idset(*e))
                    && stmt_idset(*then_block).disjoint(stmt_idset(*e)),
                None => true,
            }
        },
        StmtView::While { condition, body } => {
            &&& expr_distinct(condition)
            &&& stmt_distinct(*body)
            &&& expr_idset(condition).disjoint(stmt_idset(*body))
        },
        StmtView::Func(f) => stmts_distinct(f.body, f.body.len()),
        StmtView::Class { methods, .. } => funcs_distinct(methods, methods.len()),
        StmtView::Return { value, .. } => optional_distinct(value),
    }
}

/// No two expressions of the first `n` statements share an identity.
pub open spec fn stmts_distinct(ss: Seq<StmtView>, n: nat) -> bool
    decreases ss, n,
{
    if n == 0 || n > ss.len() {
        true
    } else {
        &&& stmts_distinct(ss, (n - 1) as nat)
        &&& stmt_distinct(ss[n - 1])
        &&& stmts_idset(ss, (n - 1) as nat).disjoint(stmt_idset(ss[n - 1]))
    }
}

/// No two expressions of the first `n` functions share an identity.
pub open spec fn funcs_distinct(fs: Seq<FuncView>, n: nat) -> bool
    decreases fs, n,
{
    if n == 0 || n > fs.len() {
        true
    } else {
        &&& funcs_distinct(fs, (n - 1) as nat)
        &&& stmts_distinct(fs[n - 1].body, fs[n - 1].body.len())
        &&& funcs_idset(fs, (n - 1) as nat).disjoint(
            stmts_idset(fs[n - 1].body, fs[n - 1].body.len()),
        )
    }
}

/// A list of identities without duplicates names each identity of its set once.
pub open spec fn lists(ids: Seq<u64>, set: Set<u64>) -> bool {
    &&& forall|x: u64| ids.contains(x) <==> set.contains(x)
}

/// The halves of a list without duplicates have no duplicates and share nothing.
pub proof fn lemma_split(a: Seq<u64>, b: Seq<u64>)
    requires
        (a + b).no_duplicates(),
    ensures
        a.no_duplicates(),
        b.no_duplicates(),
        forall|x: u64| a.contains(x) ==> !b.contains(x),
        forall|x: u64| (a + b).contains(x) <==> a.contains(x) || b.contains(x),
{
    let all = a + b;
    assert forall|i: int, j: int| 0 <= i < a.len() && 0 <= j < a.len() && i != j implies a[i]
        != a[j] by {
        assert(all[i] == a[i] && all[j] == a[j]);
    }
    assert forall|i: int, j: int| 0 <= i < b.len() && 0 <= j < b.len() && i != j implies b[i]
        != b[j] by {
        assert(all[a.len() + i] == b[i] && all[a.len() + j] == b[j]);
    }
    assert forall|x: u64| a.contains(x) implies !b.contains(x) by {
        if b.contains(x) {
            let i = choose|i: int| 0 <= i < a.len() && a[i] == x;
            let j = choose|j: int| 0 <= j < b.len() && b[j] == x;
            assert(all[i] == x && all[a.len() + j] == x);
        }
    }
    lemma_contains_either(a, b);
}

/// What a list of two halves contains is in one of the halves.
pub proof fn lemma_contains_either(a: Seq<u64>, b: Seq<u64>)
    ensures
        forall|x: u64| (a + b).contains(x) <==> a.contains(x) || b.contains(x),
{
    let all = a + b;
    assert forall|x: u64| all.contains(x) <==> a.contains(x) || b.contains(x) by {
        if all.contains(x) {
            let i = choose|i: int| 0 <= i < all.len() && all[i] == x;
            if i < a.len() {
                assert(a[i] == x);
            } else {
                assert(b[i - a.len()] == x);
            }
        }
        if a.contains(x) {
            let i = choose|i: int| 0 <= i < a.len() && a[i] == x;
            assert(all[i] == x);
        }
        if b.contains(x) {
            let j = choose|j: int| 0 <= j < b.len() && b[j] == x;
            assert(all[a.len() + j] == x);
        }
    }
}

/// A list without duplicates with one more item: the item is new.
pub proof fn lemma_split_last(a: Seq<u64>, x: u64)
    requires
        a.push(x).no_duplicates(),
    ensures
        a.no_duplicates(),
        !a.contains(x),
        forall|y: u64| a.push(x).contains(y) <==> a.contains(y) || y == x,
{
    assert(a.push(x) == a + seq![x]);
    lemma_split(a, seq![x]);
    assert(seq![x][0] == x);
    assert(seq![x].contains(x));
    assert forall|y: u64| seq![x].contains(y) implies y == x by {
        let i = choose|i: int| 0 <= i < seq![x].len() && seq![x][i] == y;
    }
}

/// What a list with one more item contains.
pub proof fn lemma_contains_last(a: Seq<u64>, x: u64)
    ensures
        forall|y: u64| a.push(x).contains(y) <==> a.contains(y) || y == x,
{
    assert(a.push(x) == a + seq![x]);
    lemma_contains_either(a, seq![x]);
    assert(seq![x][0] == x);
    assert forall|y: u64| seq![x].contains(y) <==> y == x by {
        if seq![x].contains(y) {
            let i = choose|i: int| 0 <= i < seq![x].len() && seq![x][i] == y;
        }
    }
}

/// The list of the identities of an expression names the identities of its
/// set; if it has no duplicates, no two nodes of the expression share an
/// identity.
pub proof fn lemma_expr_bridge(e: ExprView)
    ensures
        lists(expr_ids(e), expr_idset(e)),
        expr_ids(e).no_duplicates() ==> expr_distinct(e),
    decreases e,
{
    match e {
        ExprView::Literal { id, .. } => {
            lemma_contains_one(id);
        },
        ExprView::Var { id, .. } => {
            lemma_contains_one(id);
        },
        ExprView::This { id, .. } => {
            lemma_contains_one(id);
        },
        ExprView::Unary { id, right, .. } => {
            lemma_expr_bridge(*right);
            lemma_one(expr_ids(*right), expr_idset(*right), id);
        },
        ExprView::Grouping { id, expr } => {
            lemma_expr_bridge(*expr);
            lemma_one(expr_ids(*expr), expr_idset(*expr), id);
        },
        ExprView::Assign { id, value, .. } => {
            lemma_expr_bridge(*value);
            lemma_one(expr_ids(*value), expr_idset(*value), id);
        },
        ExprView::Get { id, expr, .. } => {
            lemma_expr_bridge(*expr);
            lemma_one(expr_ids(*expr), expr_idset(*expr), id);
        },
        ExprView::Binary { id, left, right, .. } => {
            lemma_expr_bridge(*left);
            lemma_expr_bridge(*right);
            lemma_two(expr_ids(*left), expr_idset(*left), expr_ids(*right), expr_idset(*right), id);
        },
        ExprView::Logical { id, left, right, .. } => {
            lemma_expr_bridge(*left);
            lemma_expr_bridge(*right);
            lemma_two(expr_ids(*left), expr_idset(*left), expr_ids(*right), expr_idset(*right), id);
        },
        ExprView::SetExpr { id, expr, value, .. } => {
            lemma_expr_bridge(*expr);
            lemma_expr_bridge(*value);
            lemma_two(expr_ids(*expr), expr_idset(*expr), expr_ids(*value), expr_idset(*value), id);
        },
        ExprView::Call { id, calle, arguments, .. } => {
            lemma_expr_bridge(*calle);
            lemma_exprs_bridge(arguments, arguments.len());
            lemma_two(
                expr_ids(*calle),
                expr_idset(*calle),
                exprs_ids(arguments, arguments.len()),
                exprs_idset(arguments, arguments.len()),
                id,
            );
        },
    }
}

/// What a list of one item contains.
pub proof fn lemma_contains_one(x: u64)
    ensures
        lists(seq![x], set![x]),
{
    assert(seq![x][0] == x);
    assert forall|y: u64| seq![x].contains(y) <==> set![x].contains(y) by {
        if seq![x].contains(y) {
            let i = choose|i: int| 0 <= i < seq![x].len() && seq![x][i] == y;
        }
    }
}

/// The bridge for a node with one operand.
pub proof fn lemma_one(a: Seq<u64>, sa: Set<u64>, id: u64)
    requires
        lists(a, sa),
    ensures
        lists(a.push(id), sa.insert(id)),
        a.push(id).no_duplicates() ==> a.no_duplicates() && !sa.contains(id),
{
    lemma_contains_last(a, id);
    assert forall|y: u64| a.push(id).contains(y) <==> sa.insert(id).contains(y) by {
        assert(a.contains(y) <==> sa.contains(y));
        assert(a.push(id).contains(y) <==> a.contains(y) || y == id);
    }
    if a.push(id).no_duplicates() {
        lemma_split_last(a, id);
        assert(a.contains(id) <==> sa.contains(id));
    }
}

/// The bridge for two parts in a row.
pub proof fn lemma_parts(a: Seq<u64>, sa: Set<u64>, b: Seq<u64>, sb: Set<u64>)
    requires
        lists(a, sa),
        lists(b, sb),
    ensures
        lists(a + b, sa.union(sb)),
        (a + b).no_duplicates() ==> a.no_duplicates() && b.no_duplicates() && sa.disjoint(sb),
{
    lemma_contains_either(a, b);
    assert forall|y: u64| (a + b).contains(y) <==> sa.union(sb).contains(y) by {
        assert(a.contains(y) <==> sa.contains(y));
        assert(b.contains(y) <==> sb.contains(y));
        assert((a + b).contains(y) <==> a.contains(y) || b.contains(y));
    }
    if (a + b).no_duplicates() {
        lemma_split(a, b);
        assert forall|y: u64| !(sa.contains(y) && sb.contains(y)) by {
            assert(a.contains(y) <==> sa.contains(y));
            assert(b.contains(y) <==> sb.contains(y));
            if a.contains(y) {
                assert(!b.contains(y));
            }
        }
    }
}

/// The bridge for a node with two operands.
pub proof fn lemma_two(a: Seq<u64>, sa: Set<u64>, b: Seq<u64>, sb: Set<u64>, id: u64)
    requires
        lists(a, sa),
        lists(b, sb),
    ensures
        lists((a + b).push(id), sa.union(sb).insert(id)),
        (a + b).push(id).no_duplicates() ==> a.no_duplicates() && b.no_duplicates() && apart(
            sa,
            sb,
            id,
        ),
{
    lemma_parts(a, sa, b, sb);
    lemma_one(a + b, sa.union(sb), id);
}

/// The bridge for the first `n` expressions of a list.
pub proof fn lemma_exprs_bridge(es: Seq<ExprView>, n: nat)
    ensures
        lists(exprs_ids(es, n), exprs_idset(es, n)),
        exprs_ids(es, n).no_duplicates() ==> exprs_distinct(es, n),
    decreases es, n,
{
    if n == 0 || n > es.len() {
    } else {
        lemma_exprs_bridge(es, (n - 1) as nat);
        lemma_expr_bridge(es[n - 1]);
        lemma_parts(
            exprs_ids(es, (n - 1) as nat),
            exprs_idset(es, (n - 1) as nat),
            expr_ids(es[n - 1]),
            expr_idset(es[n - 1]),
        );
    }
}

/// The bridge for an expression that may be missing.
pub proof fn lemma_optional_bridge(e: Option<ExprView>)
    ensures
        lists(crate::numbering::of_optional()(e), optional_idset(e)),
        crate::numbering::of_optional()(e).no_duplicates() ==> optional_distinct(e),
{
    match e {
        Some(e) => {
            lemma_expr_bridge(e);
        },
        None => {},
    }
}

/// The list of the identities of a statement names the identities of its
/// set; if it has no duplicates, no two expressions of the statement share
/// an identity.
pub proof fn lemma_stmt_bridge(s: StmtView)
    ensures
        lists(stmt_ids(s), stmt_idset(s)),
        stmt_ids(s).no_duplicates() ==> stmt_distinct(s),
    decreases s, 0nat,
{
    match s {
        StmtView::ExprStmt(e) => {
            lemma_expr_bridge(e);
        },
        StmtView::Var { initializer, .. } => {
            lemma_optional_bridge(initializer);
        },
        StmtView::Block { stmts } => {
            lemma_stmts_bridge(stmts, stmts.len());
        },
        StmtView::If { condition, then_block, else_block } => {
            let a = expr_ids(condition);
            let b = stmt_ids(*then_block);
            let c = match else_block {
                Some(e) => stmt_ids(*e),
                None => Seq::empty(),
            };
            lemma_expr_bridge(condition);
            lemma_stmt_bridge(*then_block);
            match else_block {
                Some(e) => {
                    lemma_stmt_bridge(*e);
                },
                None => {},
            }
            let sc = match else_block {
                Some(e) => stmt_idset(*e),
                None => Set::empty(),
            };
            lemma_parts(a, expr_idset(condition), b, stmt_idset(*then_block));
            lemma_parts(a + b, expr_idset(condition).union(stmt_idset(*then_block)), c, sc);
        },
        StmtView::While { condition, body } => {
            let a = expr_ids(condition);
            let b = stmt_ids(*body);
            lemma_expr_bridge(condition);
            lemma_stmt_bridge(*body);
            lemma_parts(a, expr_idset(condition), b, stmt_idset(*body));
        },
        StmtView::Func(f) => {
            lemma_stmts_bridge(f.body, f.body.len());
        },
        StmtView::Class { methods, .. } => {
            lemma_funcs_bridge(methods, methods.len());
        },
        StmtView::Return { value, .. } => {
            lemma_optional_bridge(value);
        },
    }
}

/// The bridge for the first `n` statements of a list.
pub proof fn lemma_stmts_bridge(ss: Seq<StmtView>, n: nat)
    ensures
        lists(stmts_ids(ss, n), stmts_idset(ss, n)),
        stmts_ids(ss, n).no_duplicates() ==> stmts_distinct(ss, n),
    decreases ss, n,
{
    if n == 0 || n > ss.len() {
    } else {
        lemma_stmts_bridge(ss, (n - 1) as nat);
        lemma_stmt_bridge(ss[n - 1]);
        lemma_parts(
            stmts_ids(ss, (n - 1) as nat),
            stmts_idset(ss, (n - 1) as nat),
            stmt_ids(ss[n - 1]),
            stmt_idset(ss[n - 1]),
        );
    }
}

/// The bridge for the first `n` functions of a list.
pub proof fn lemma_funcs_bridge(fs: Seq<FuncView>, n: nat)
    ensures
        lists(funcs_ids(fs, n), funcs_idset(fs, n)),
        funcs_ids(fs, n).no_duplicates() ==> funcs_distinct(fs, n),
    decreases fs, n,
{
    if n == 0 || n > fs.len() {
    } else {
        lemma_funcs_bridge(fs, (n - 1) as nat);
        lemma_stmts_bridge(fs[n - 1].body, fs[n - 1].body.len());
        lemma_parts(
            funcs_ids(fs, (n - 1) as nat),
            funcs_idset(fs, (n - 1) as nat),
            stmts_ids(fs[n - 1].body, fs[n - 1].body.len()),
            stmts_idset(fs[n - 1].body, fs[n - 1].body.len()),
        );
    }
}

/// The two maps of depths say the same of the identity `id`.
pub open spec fn kept(a: Map<u64, usize>, b: Map<u64, usize>, id: u64) -> bool {
    a.contains_key(id) == b.contains_key(id) && (a.contains_key(id) ==> a[id] == b[id])
}

/// The two maps of depths say the same of the identities in `ids`.
pub open spec fn same_on(a: Map<u64, usize>, b: Map<u64, usize>, ids: Set<u64>) -> bool {
    forall|id: u64| ids.contains(id) ==> kept(a, b, id)
}

/// The two maps of depths say the same of the identities that are not in `ids`.
pub open spec fn same_off(a: Map<u64, usize>, b: Map<u64, usize>, ids: Set<u64>) -> bool {
    forall|id: u64| !ids.contains(id) ==> kept(a, b, id)
}

/// The map of depths says nothing of the identities in `ids`.
pub open spec fn fresh(a: Map<u64, usize>, ids: Set<u64>) -> bool {
    forall|id: u64| ids.contains(id) ==> !a.contains_key(id)
}

/// The identities of each of the first `n` expressions are among those of all of them.
pub proof fn lemma_exprs_idset_has(es: Seq<ExprView>, n: nat, j: int)
    requires
        0 <= j < n <= es.len(),
    ensures
        expr_idset(es[j]).subset_of(exprs_idset(es, n)),
    decreases n,
{
    if j < n - 1 {
        lemma_exprs_idset_has(es, (n - 1) as nat, j);
    }
}

/// The identities of each of the first `n` statements are among those of all of them.
pub proof fn lemma_stmts_idset_has(ss: Seq<StmtView>, n: nat, j: int)
    requires
        0 <= j < n <= ss.len(),
    ensures
        stmt_idset(ss[j]).subset_of(stmts_idset(ss, n)),
    decreases n,
{
    if j < n - 1 {
        lemma_stmts_idset_has(ss, (n - 1) as nat, j);
    }
}

/// The identities of each of the first `n` functions are among those of all of them.
pub proof fn lemma_funcs_idset_has(fs: Seq<FuncView>, n: nat, j: int)
    requires
        0 <= j < n <= fs.len(),
    ensures
        stmts_idset(fs[j].body, fs[j].body.len()).subset_of(funcs_idset(fs, n)),
    decreases n,
{
    if j < n - 1 {
        lemma_funcs_idset_has(fs, (n - 1) as nat, j);
    }
}

/// Among expressions of which no two nodes share an identity, each has nodes
/// of different identities, and no two share one.
pub proof fn lemma_exprs_apart(es: Seq<ExprView>, n: nat, i: int, j: int)
    requires
        exprs_distinct(es, n),
        0 <= i < j < n <= es.len(),
    ensures
        expr_distinct(es[i]),
        expr_distinct(es[j]),
        expr_idset(es[i]).disjoint(expr_idset(es[j])),
    decreases n,
{
    if j < n - 1 {
        lemma_exprs_apart(es, (n - 1) as nat, i, j);
    } else {
        lemma_exprs_idset_has(es, (n - 1) as nat, i);
        lemma_exprs_each_distinct(es, (n - 1) as nat, i);
    }
}

/// Among expressions of which no two nodes share an identity, each has nodes
/// of different identities.
pub proof fn lemma_exprs_each_distinct(es: Seq<ExprView>, n: nat, i: int)
    requires
        exprs_distinct(es, n),
        0 <= i < n <= es.len(),
    ensures
        expr_distinct(es[i]),
    decreases n,
{
    if i < n - 1 {
        lemma_exprs_each_distinct(es, (n - 1) as nat, i);
    }
}

/// Among statements of which no two expressions share an identity, each has
/// expressions of different identities.
pub proof fn lemma_stmts_each_distinct(ss: Seq<StmtView>, n: nat, i: int)
    requires
        stmts_distinct(ss, n),
        0 <= i < n <= ss.len(),
    ensures
        stmt_distinct(ss[i]),
    decreases n,
{
    if i < n - 1 {
        lemma_stmts_each_distinct(ss, (n - 1) as nat, i);
    }
}

/// Among statements of which no two expressions share an identity, no two
/// statements share one.
pub proof fn lemma_stmts_apart(ss: Seq<StmtView>, n: nat, i: int, j: int)
    requires
        stmts_distinct(ss, n),
        0 <= i < j < n <= ss.len(),
    ensures
        stmt_idset(ss[i]).disjoint(stmt_idset(ss[j])),
    decreases n,
{
    if j < n - 1 {
        lemma_stmts_apart(ss, (n - 1) as nat, i, j);
    } else {
        lemma_stmts_idset_has(ss, (n - 1) as nat, i);
    }
}

/// Among functions of which no two expressions share an identity, each has
/// expressions of different identities.
pub proof fn lemma_funcs_each_distinct(fs: Seq<FuncView>, n: nat, i: int)
    requires
        funcs_distinct(fs, n),
        0 <= i < n <= fs.len(),
    ensures
        stmts_distinct(fs[i].body, fs[i].body.len()),
    decreases n,
{
    if i < n - 1 {
        lemma_funcs_each_distinct(fs, (n - 1) as nat, i);
    }
}

/// Among functions of which no two expressions share an identity, no two
/// functions share one.
pub proof fn lemma_funcs_apart(fs: Seq<FuncView>, n: nat, i: int, j: int)
    requires
        funcs_distinct(fs, n),
        0 <= i < j < n <= fs.len(),
    ensures
        stmts_idset(fs[i].body, fs[i].body.len()).disjoint(
            stmts_idset(fs[j].body, fs[j].body.len()),
        ),
    decreases n,
{
    if j < n - 1 {
        lemma_funcs_apart(fs, (n - 1) as nat, i, j);
    } else {
        lemma_funcs_idset_has(fs, (n - 1) as nat, i);
    }
}

/// What two maps of depths say the same of, they say the same of in part.
pub proof fn lemma_same_on_part(a: Map<u64, usize>, b: Map<u64, usize>, all: Set<u64>, part: Set<u64>)
    requires
        same_on(a, b, all),
        part.subset_of(all),
    ensures
        same_on(a, b, part),
{
    assert forall|id: u64| part.contains(id) implies kept(a, b, id) by {
        assert(all.contains(id));
    }
}

/// Whether an expression fits depends on what is recorded for its own
/// identities alone.
pub proof fn lemma_expr_fits_same(e: &Expr, k: nat, a: Map<u64, usize>, b: Map<u64, usize>)
    requires
        same_on(a, b, expr_idset(e@)),
    ensures
        expr_fits(e, k, a) == expr_fits(e, k, b),
    decreases e, 0nat,
{
    match e {
        Expr::Literal(_) => {},
        Expr::Grouping(g) => {
            lemma_same_on_part(a, b, expr_idset(e@), expr_idset((*g.expr)@));
            lemma_expr_fits_same(&*g.expr, k, a, b);
        },
        Expr::Unary(u) => {
            lemma_same_on_part(a, b, expr_idset(e@), expr_idset((*u.right)@));
            lemma_expr_fits_same(&*u.right, k, a, b);
        },
        Expr::Binary(x) => {
            lemma_same_on_part(a, b, expr_idset(e@), expr_idset((*x.left)@));
            lemma_expr_fits_same(&*x.left, k, a, b);
            lemma_same_on_part(a, b, expr_idset(e@), expr_idset((*x.right)@));
            lemma_expr_fits_same(&*x.right, k, a, b);
        },
        Expr::Logical(l) => {
            lemma_same_on_part(a, b, expr_idset(e@), expr_idset((*l.left)@));
            lemma_expr_fits_same(&*l.left, k, a, b);
            lemma_same_on_part(a, b, expr_idset(e@), expr_idset((*l.right)@));
            lemma_expr_fits_same(&*l.right, k, a, b);
        },
        Expr::Var(v) => {
            assert(expr_idset(e@).contains(v.id));
        },
        Expr::Assign(x) => {
            assert(expr_idset(e@).contains(x.id));
            lemma_same_on_part(a, b, expr_idset(e@), expr_idset((*x.value)@));
            lemma_expr_fits_same(&*x.value, k, a, b);
        },
        Expr::Call(c) => {
            lemma_same_on_part(a, b, expr_idset(e@), expr_idset((*c.calle)@));
            lemma_expr_fits_same(&*c.calle, k, a, b);
            let views = e@->Call_arguments;
            assert forall|j: int| 0 <= j < c.arguments@.len() implies same_on(
                a,
                b,
                expr_idset(#[trigger] c.arguments@[j]@),
            ) by {
                assert(views[j] == c.arguments@[j]@);
                lemma_exprs_idset_has(views, views.len(), j);
                lemma_same_on_part(a, b, expr_idset(e@), exprs_idset(views, views.len()));
                lemma_same_on_part(
                    a,
                    b,
                    exprs_idset(views, views.len()),
                    expr_idset(c.arguments@[j]@),
                );
            }
            lemma_exprs_fit_same(c.arguments@, 0, k, a, b);
        },
        Expr::Get(g) => {
            lemma_same_on_part(a, b, expr_idset(e@), expr_idset((*g.expr)@));
            lemma_expr_fits_same(&*g.expr, k, a, b);
        },
        Expr::SetExpr(x) => {
            lemma_same_on_part(a, b, expr_idset(e@), expr_idset((*x.expr)@));
            lemma_expr_fits_same(&*x.expr, k, a, b);
            lemma_same_on_part(a, b, expr_idset(e@), expr_idset((*x.value)@));
            lemma_expr_fits_same(&*x.value, k, a, b);
        },
        Expr::This(t) => {
            assert(expr_idset(e@).contains(t.id));
        },
    }
}

/// Whether expressions fit depends on what is recorded for their own identities alone.
pub proof fn lemma_exprs_fit_same(
    es: Seq<Expr>,
    i: nat,
    k: nat,
    a: Map<u64, usize>,
    b: Map<u64, usize>,
)
    requires
        forall|j: int| i <= j < es.len() ==> same_on(a, b, expr_idset(#[trigger] es[j]@)),
    ensures
        exprs_fit(es, i, k, a) == exprs_fit(es, i, k, b),
    decreases es, es.len() - i,
{
    if i < es.len() {
        lemma_expr_fits_same(&es[i as int], k, a, b);
        lemma_exprs_fit_same(es, i + 1, k, a, b);
    }
}

/// Whether a statement fits depends on what is recorded for its own
/// identities alone.
pub proof fn lemma_stmt_fits_same(s: &Stmt, k: nat, a: Map<u64, usize>, b: Map<u64, usize>)
    requires
        same_on(a, b, stmt_idset(s@)),
    ensures
        stmt_fits(s, k, a) == stmt_fits(s, k, b),
    decreases s, 0nat,
{
    match s {
        Stmt::ExprStmt(e) => {
            lemma_same_on_part(a, b, stmt_idset(s@), expr_idset(e@));
            lemma_expr_fits_same(e, k, a, b);
        },
        Stmt::Var(v) => {
            if let Some(init) = v.initializer {
                lemma_same_on_part(a, b, stmt_idset(s@), expr_idset(init@));
                lemma_expr_fits_same(&init, k, a, b);
            }
        },
        Stmt::Block(x) => {
            lemma_stmts_fit_same_all(x.stmts@, k + 1, a, b, stmt_idset(s@));
        },
        Stmt::If(x) => {
            lemma_same_on_part(a, b, stmt_idset(s@), expr_idset(x.condition@));
            lemma_expr_fits_same(&x.condition, k, a, b);
            lemma_same_on_part(a, b, stmt_idset(s@), stmt_idset((*x.then_block)@));
            lemma_stmt_fits_same(&*x.then_block, k, a, b);
            if let Some(e) = x.else_block {
                lemma_same_on_part(a, b, stmt_idset(s@), stmt_idset((*e)@));
                lemma_stmt_fits_same(&*e, k, a, b);
            }
        },
        Stmt::While(w) => {
            lemma_same_on_part(a, b, stmt_idset(s@), expr_idset(w.condition@));
            lemma_expr_fits_same(&w.condition, k, a, b);
            lemma_same_on_part(a, b, stmt_idset(s@), stmt_idset((*w.body)@));
            lemma_stmt_fits_same(&*w.body, k, a, b);
        },
        Stmt::Func(f) => {
            assert(s@ == crate::statements::stmt_view(*s));
            assert(s@ == StmtView::Func(crate::statements::func_view(*f)));
            assert(crate::statements::func_view(*f).body == stmts_view(f.body@));
            lemma_stmts_fit_same_all(f.body@, k + 1, a, b, stmt_idset(s@));
        },
        Stmt::Class(c) => {
            let views = funcs_view(c.methods@);
            assert forall|j: int| 0 <= j < c.methods@.len() implies same_on(
                a,
                b,
                stmts_idset(
                    stmts_view((#[trigger] c.methods@[j]).body@),
                    c.methods@[j].body@.len(),
                ),
            ) by {
                assert(views[j].body == stmts_view(c.methods@[j].body@));
                lemma_funcs_idset_has(views, views.len(), j);
                lemma_same_on_part(
                    a,
                    b,
                    stmt_idset(s@),
                    stmts_idset(stmts_view(c.methods@[j].body@), c.methods@[j].body@.len()),
                );
            }
            lemma_methods_fit_same(c.methods@, 0, k + 2, a, b);
        },
        Stmt::Return(r) => {
            if let Some(v) = r.value {
                lemma_same_on_part(a, b, stmt_idset(s@), expr_idset(v@));
                lemma_expr_fits_same(&v, k, a, b);
            }
        },
    }
}

/// Whether the statements of a list fit depends on what is recorded for
/// their own identities alone.
pub proof fn lemma_stmts_fit_same_all(
    ss: Seq<Stmt>,
    k: nat,
    a: Map<u64, usize>,
    b: Map<u64, usize>,
    ids: Set<u64>,
)
    requires
        same_on(a, b, ids),
        ids == stmts_idset(stmts_view(ss), ss.len()),
    ensures
        stmts_fit(ss, 0, k, a) == stmts_fit(ss, 0, k, b),
    decreases ss, ss.len() + 1,
{
    let views = stmts_view(ss);
    assert forall|j: int| 0 <= j < ss.len() implies same_on(
        a,
        b,
        stmt_idset((#[trigger] ss[j])@),
    ) by {
        assert(views[j] == ss[j]@);
        lemma_stmts_idset_has(views, views.len(), j);
    }
    lemma_stmts_fit_same(ss, 0, k, a, b);
}

/// Whether statements fit depends on what is recorded for their own identities alone.
pub proof fn lemma_stmts_fit_same(
    ss: Seq<Stmt>,
    i: nat,
    k: nat,
    a: Map<u64, usize>,
    b: Map<u64, usize>,
)
    requires
        forall|j: int| i <= j < ss.len() ==> same_on(a, b, stmt_idset((#[trigger] ss[j])@)),
    ensures
        stmts_fit(ss, i, k, a) == stmts_fit(ss, i, k, b),
    decreases ss, ss.len() - i,
{
    if i < ss.len() {
        lemma_stmt_fits_same(&ss[i as int], k, a, b);
        lemma_stmts_fit_same(ss, i + 1, k, a, b);
    }
}

/// Whether the bodies of functions fit depends on what is recorded for their
/// own identities alone.
pub proof fn lemma_methods_fit_same(
    ms: Seq<Func>,
    i: nat,
    k: nat,
    a: Map<u64, usize>,
    b: Map<u64, usize>,
)
    requires
        forall|j: int|
            i <= j < ms.len() ==> same_on(
                a,
                b,
                stmts_idset(stmts_view((#[trigger] ms[j]).body@), ms[j].body@.len()),
            ),
    ensures
        methods_fit(ms, i, k, a) == methods_fit(ms, i, k, b),
    decreases ms, ms.len() - i,
{
    if i < ms.len() {
        lemma_stmts_fit_same_all(
            ms[i as int].body@,
            k,
            a,
            b,
            stmts_idset(stmts_view(ms[i as int].body@), ms[i as int].body@.len()),
        );
        lemma_methods_fit_same(ms, i + 1, k, a, b);
    }
}

/// What is recorded in two rounds, for identities of two sets that share
/// nothing and were not recorded before.
pub proof fn lemma_rounds(
    before: Map<u64, usize>,
    between: Map<u64, usize>,
    after: Map<u64, usize>,
    first: Set<u64>,
    second: Set<u64>,
)
    requires
        same_off(before, between, first),
        same_off(between, after, second),
        fresh(before, second),
        first.disjoint(second),
    ensures
        same_off(before, after, first.union(second)),
        same_on(between, after, first),
        fresh(between, second),
{
    assert forall|id: u64| !first.union(second).contains(id) implies kept(before, after, id) by {
        assert(kept(before, between, id));
        assert(kept(between, after, id));
    }
    assert forall|id: u64| first.contains(id) implies kept(between, after, id) by {
        assert(!second.contains(id));
    }
    assert forall|id: u64| second.contains(id) implies !between.contains_key(id) by {
        assert(!first.contains(id));
        assert(kept(before, between, id));
    }
}

/// What is not recorded for the identities of a set is not recorded for part of them.
pub proof fn lemma_fresh_part(a: Map<u64, usize>, all: Set<u64>, part: Set<u64>)
    requires
        fresh(a, all),
        part.subset_of(all),
    ensures
        fresh(a, part),
{
    assert forall|id: u64| part.contains(id) implies !a.contains_key(id) by {
        assert(all.contains(id));
    }
}

/// What stays as it is off part of a set of identities stays as it is off all of it.
pub proof fn lemma_same_off_more(
    a: Map<u64, usize>,
    b: Map<u64, usize>,
    part: Set<u64>,
    all: Set<u64>,
)
    requires
        same_off(a, b, part),
        part.subset_of(all),
    ensures
        same_off(a, b, all),
{
    assert forall|id: u64| !all.contains(id) implies kept(a, b, id) by {
        assert(!part.contains(id));
    }
}

/// What resolving led to, where it went well: the state after, with what
/// was recorded for other identities than those in `ids` as before, as many
/// scopes open, and inside the same function and class.
pub open spec fn recorded(r: Resolution, after: Resolution, ids: Set<u64>) -> bool {
    &&& same_off(r.locals, after.locals, ids)
    &&& after.scopes.len() == r.scopes.len()
    &&& after.function == r.function
    &&& after.class == r.class
}

/// A reference that is resolved is recorded with a depth that fits.
pub proof fn lemma_reference_fits(r: Resolution, id: u64, name: Seq<char>)
    requires
        !r.locals.contains_key(id),
    ensures
        recorded(r, r.resolve_local(id, name), set![id]),
        reference_fits(id, r.scopes.len(), r.resolve_local(id, name).locals),
{
    lemma_depth_is_nearest_scope(r.scopes, name);
}

/// What is recorded when an expression is resolved fits the scopes that are
/// open, and nothing else changes.
pub proof fn lemma_expr_recorded(r: Resolution, e: &Expr)
    requires
        r.resolve_expr(e) is Ok,
        fresh(r.locals, expr_idset(e@)),
        expr_distinct(e@),
    ensures
        recorded(r, r.resolve_expr(e)->Ok_0, expr_idset(e@)),
        r.resolve_expr(e)->Ok_0.scopes == r.scopes,
        expr_fits(e, r.scopes.len(), r.resolve_expr(e)->Ok_0.locals),
    decreases e, 0nat,
{
    let after = r.resolve_expr(e)->Ok_0;
    let k = r.scopes.len();
    let all = expr_idset(e@);
    lemma_expr_keeps_context(r, e);
    match e {
        Expr::Literal(_) => {},
        Expr::Grouping(g) => {
            lemma_fresh_part(r.locals, all, expr_idset((*g.expr)@));
            lemma_expr_recorded(r, &*g.expr);
            lemma_same_off_more(r.locals, after.locals, expr_idset((*g.expr)@), all);
        },
        Expr::Unary(u) => {
            lemma_fresh_part(r.locals, all, expr_idset((*u.right)@));
            lemma_expr_recorded(r, &*u.right);
            lemma_same_off_more(r.locals, after.locals, expr_idset((*u.right)@), all);
        },
        Expr::Get(g) => {
            lemma_fresh_part(r.locals, all, expr_idset((*g.expr)@));
            lemma_expr_recorded(r, &*g.expr);
            lemma_same_off_more(r.locals, after.locals, expr_idset((*g.expr)@), all);
        },
        Expr::Binary(b) => {
            let mid = r.resolve_expr(&*b.left)->Ok_0;
            lemma_fresh_part(r.locals, all, expr_idset((*b.left)@));
            lemma_fresh_part(r.locals, all, expr_idset((*b.right)@));
            lemma_expr_recorded(r, &*b.left);
            lemma_still_fresh(r, mid, expr_idset((*b.left)@), expr_idset((*b.right)@));
            lemma_expr_recorded(mid, &*b.right);
            lemma_two_combine(r, mid, after, &*b.left, &*b.right, all);
        },
        Expr::Logical(l) => {
            let mid = r.resolve_expr(&*l.left)->Ok_0;
            lemma_fresh_part(r.locals, all, expr_idset((*l.left)@));
            lemma_fresh_part(r.locals, all, expr_idset((*l.right)@));
            lemma_expr_recorded(r, &*l.left);
            lemma_still_fresh(r, mid, expr_idset((*l.left)@), expr_idset((*l.right)@));
            lemma_expr_recorded(mid, &*l.right);
            lemma_two_combine(r, mid, after, &*l.left, &*l.right, all);
        },
        Expr::SetExpr(s) => {
            let mid = r.resolve_expr(&*s.value)->Ok_0;
            lemma_fresh_part(r.locals, all, expr_idset((*s.value)@));
            lemma_fresh_part(r.locals, all, expr_idset((*s.expr)@));
            lemma_expr_recorded(r, &*s.value);
            lemma_still_fresh(r, mid, expr_idset((*s.value)@), expr_idset((*s.expr)@));
            lemma_expr_recorded(mid, &*s.expr);
            lemma_two_combine(r, mid, after, &*s.value, &*s.expr, all);
        },
        Expr::Var(v) => {
            assert(all.contains(v.id));
            lemma_reference_fits(r, v.id, v.name.name());
            lemma_same_off_more(r.locals, after.locals, set![v.id], all);
        },
        Expr::This(t) => {
            assert(all.contains(t.id));
            lemma_reference_fits(r, t.id, t.keyword.name());
            lemma_same_off_more(r.locals, after.locals, set![t.id], all);
        },
        Expr::Assign(a) => {
            let part = expr_idset((*a.value)@);
            let mid = r.resolve_expr(&*a.value)->Ok_0;
            assert(all.contains(a.id));
            lemma_fresh_part(r.locals, all, part);
            lemma_expr_recorded(r, &*a.value);
            assert(kept(r.locals, mid.locals, a.id));
            lemma_reference_fits(mid, a.id, a.name.name());
            lemma_rounds(r.locals, mid.locals, after.locals, part, set![a.id]);
            lemma_expr_fits_same(&*a.value, k, mid.locals, after.locals);
            lemma_same_off_more(r.locals, after.locals, part.union(set![a.id]), all);
        },
        Expr::Call(c) => {
            let views = e@->Call_arguments;
            let first = expr_idset((*c.calle)@);
            let rest = exprs_idset(views, views.len());
            let mid = r.resolve_expr(&*c.calle)->Ok_0;
            lemma_fresh_part(r.locals, all, first);
            lemma_fresh_part(r.locals, all, rest);
            lemma_expr_recorded(r, &*c.calle);
            lemma_expr_keeps_context(r, &*c.calle);
            lemma_rounds(r.locals, mid.locals, mid.locals, first, rest);
            assert forall|j: int| 0 <= j < c.arguments@.len() implies fresh(
                mid.locals,
                expr_idset(#[trigger] c.arguments@[j]@),
            ) && expr_distinct(c.arguments@[j]@) by {
                assert(views[j] == c.arguments@[j]@);
                lemma_exprs_idset_has(views, views.len(), j);
                lemma_fresh_part(mid.locals, rest, expr_idset(views[j]));
                lemma_exprs_each_distinct(views, views.len(), j);
            }
            assert forall|i: int, j: int| 0 <= i < j < c.arguments@.len() implies expr_idset(
                #[trigger] c.arguments@[i]@,
            ).disjoint(expr_idset(#[trigger] c.arguments@[j]@)) by {
                assert(views[i] == c.arguments@[i]@);
                assert(views[j] == c.arguments@[j]@);
                lemma_exprs_apart(views, views.len(), i, j);
            }
            lemma_exprs_recorded(mid, c.arguments@, 0);
            assert forall|id: u64| !rest.contains(id) implies kept(
                mid.locals,
                after.locals,
                id,
            ) by {
                assert forall|j: int| 0 <= j < c.arguments@.len() implies !expr_idset(
                    #[trigger] c.arguments@[j]@,
                ).contains(id) by {
                    assert(views[j] == c.arguments@[j]@);
                    lemma_exprs_idset_has(views, views.len(), j);
                }
            }
            lemma_rounds(r.locals, mid.locals, after.locals, first, rest);
            lemma_expr_fits_same(&*c.calle, k, mid.locals, after.locals);
            lemma_same_off_more(r.locals, after.locals, first.union(rest), all);
        },
    }
}

/// What two expressions that are resolved one after the other record fits,
/// if what each records alone does.
pub proof fn lemma_two_combine(
    r: Resolution,
    mid: Resolution,
    after: Resolution,
    first: &Expr,
    second: &Expr,
    all: Set<u64>,
)
    requires
        recorded(r, mid, expr_idset(first@)),
        recorded(mid, after, expr_idset(second@)),
        expr_fits(first, r.scopes.len(), mid.locals),
        fresh(r.locals, all),
        expr_idset(first@).subset_of(all),
        expr_idset(second@).subset_of(all),
        expr_idset(first@).disjoint(expr_idset(second@)),
    ensures
        recorded(r, after, all),
        expr_fits(first, r.scopes.len(), after.locals),
{
    let a = expr_idset(first@);
    let b = expr_idset(second@);
    lemma_fresh_part(r.locals, all, b);
    lemma_rounds(r.locals, mid.locals, after.locals, a, b);
    lemma_expr_fits_same(first, r.scopes.len(), mid.locals, after.locals);
    lemma_same_off_more(r.locals, after.locals, a.union(b), all);
}

/// What was not recorded before an expression is resolved, and is none of
/// its identities, is not recorded after.
pub proof fn lemma_still_fresh(r: Resolution, mid: Resolution, done: Set<u64>, next: Set<u64>)
    requires
        same_off(r.locals, mid.locals, done),
        fresh(r.locals, next),
        done.disjoint(next),
    ensures
        fresh(mid.locals, next),
{
    lemma_rounds(r.locals, mid.locals, mid.locals, done, next);
}

/// What is recorded when expressions are resolved fits the scopes that are
/// open, and nothing else changes.
pub proof fn lemma_exprs_recorded(r: Resolution, es: Seq<Expr>, i: nat)
    requires
        r.resolve_exprs(es, i) is Ok,
        forall|j: int|
            i <= j < es.len() ==> fresh(r.locals, expr_idset(#[trigger] es[j]@)) && expr_distinct(
                es[j]@,
            ),
        forall|j: int, l: int|
            i <= j < l < es.len() ==> expr_idset(#[trigger] es[j]@).disjoint(
                expr_idset(#[trigger] es[l]@),
            ),
    ensures
        forall|id: u64|
            (forall|j: int| i <= j < es.len() ==> !expr_idset(#[trigger] es[j]@).contains(id))
                ==> kept(r.locals, r.resolve_exprs(es, i)->Ok_0.locals, id),
        exprs_fit(es, i, r.scopes.len(), r.resolve_exprs(es, i)->Ok_0.locals),
    decreases es, es.len() - i,
{
    if i < es.len() {
        let after = r.resolve_exprs(es, i)->Ok_0;
        let mid = r.resolve_expr(&es[i as int])->Ok_0;
        let first = expr_idset(es[i as int]@);
        lemma_expr_recorded(r, &es[i as int]);
        lemma_expr_keeps_context(r, &es[i as int]);
        assert forall|j: int| i + 1 <= j < es.len() implies fresh(
            mid.locals,
            expr_idset(#[trigger] es[j]@),
        ) by {
            lemma_rounds(r.locals, mid.locals, mid.locals, first, expr_idset(es[j]@));
        }
        lemma_exprs_recorded(mid, es, i + 1);
        assert forall|id: u64| first.contains(id) implies kept(mid.locals, after.locals, id) by {
            assert forall|j: int| i + 1 <= j < es.len() implies !expr_idset(
                #[trigger] es[j]@,
            ).contains(id) by {
                assert(first.disjoint(expr_idset(es[j]@)));
            }
        }
        lemma_expr_fits_same(&es[i as int], r.scopes.len(), mid.locals, after.locals);
        assert forall|id: u64|
            (forall|j: int|
                i <= j < es.len() ==> !expr_idset(#[trigger] es[j]@).contains(id)) implies kept(
            r.locals,
            after.locals,
            id,
        ) by {
            assert(!expr_idset(es[i as int]@).contains(id));
            assert(kept(r.locals, mid.locals, id));
            assert(kept(mid.locals, after.locals, id));
        }
    }
}

/// Declaring parameters records nothing and opens no scope.
pub proof fn lemma_params_record_nothing(r: Resolution, params: Seq<Token>, i: nat)
    requires
        r.declare_params(params, i) is Ok,
    ensures
        r.declare_params(params, i)->Ok_0.locals == r.locals,
        r.declare_params(params, i)->Ok_0.scopes.len() == r.scopes.len(),
        r.declare_params(params, i)->Ok_0.function == r.function,
        r.declare_params(params, i)->Ok_0.class == r.class,
    decreases params.len() - i,
{
    if i < params.len() {
        let mid = r.declare(params[i as int])->Ok_0.define(params[i as int]);
        lemma_params_record_nothing(mid, params, i + 1);
    }
}

/// What is recorded when a statement is resolved fits the scopes that are
/// open around each reference, and nothing else changes.
#[verifier::spinoff_prover]
pub proof fn lemma_stmt_recorded(r: Resolution, s: &Stmt)
    requires
        r.resolve_stmt(s) is Ok,
        fresh(r.locals, stmt_idset(s@)),
        stmt_distinct(s@),
    ensures
        recorded(r, r.resolve_stmt(s)->Ok_0, stmt_idset(s@)),
        stmt_fits(s, r.scopes.len(), r.resolve_stmt(s)->Ok_0.locals),
    decreases s, 1nat,
{
    let after = r.resolve_stmt(s)->Ok_0;
    let k = r.scopes.len();
    let all = stmt_idset(s@);
    match s {
        Stmt::ExprStmt(e) => {
            lemma_expr_recorded(r, e);
        },
        Stmt::Var(v) => {
            let declared = r.declare(v.token)->Ok_0;
            if let Some(init) = v.initializer {
                lemma_expr_recorded(declared, &init);
            }
        },
        Stmt::Block(b) => {
            lemma_stmts_recorded_all(r.begin_scope(), b.stmts@);
        },
        Stmt::If(_) => {
            lemma_if_recorded(r, s);
        },
        Stmt::While(w) => {
            let first = expr_idset(w.condition@);
            let second = stmt_idset((*w.body)@);
            let mid = r.resolve_expr(&w.condition)->Ok_0;
            lemma_fresh_part(r.locals, all, first);
            lemma_fresh_part(r.locals, all, second);
            lemma_expr_recorded(r, &w.condition);
            lemma_still_fresh(r, mid, first, second);
            lemma_stmt_recorded(mid, &*w.body);
            lemma_rounds(r.locals, mid.locals, after.locals, first, second);
            lemma_expr_fits_same(&w.condition, k, mid.locals, after.locals);
            lemma_same_off_more(r.locals, after.locals, first.union(second), all);
        },
        Stmt::Func(f) => {
            let declared = r.declare(f.name)->Ok_0.define(f.name);
            assert(s@ == crate::statements::stmt_view(*s));
            assert(s@ == StmtView::Func(crate::statements::func_view(*f)));
            assert(crate::statements::func_view(*f).body == stmts_view(f.body@));
            lemma_fun_recorded(declared, f, FunctionType::FUNCTION);
        },
        Stmt::Class(_) => {
            lemma_class_recorded(r, s);
        },
        Stmt::Return(x) => {
            if let Some(v) = x.value {
                lemma_expr_recorded(r, &v);
            }
        },
    }
}

/// What is recorded when a conditional is resolved fits, and nothing else changes.
#[verifier::spinoff_prover]
pub proof fn lemma_if_recorded(r: Resolution, s: &Stmt)
    requires
        r.resolve_stmt(s) is Ok,
        fresh(r.locals, stmt_idset(s@)),
        stmt_distinct(s@),
        s is If,
    ensures
        recorded(r, r.resolve_stmt(s)->Ok_0, stmt_idset(s@)),
        stmt_fits(s, r.scopes.len(), r.resolve_stmt(s)->Ok_0.locals),
    decreases s, 0nat,
{
    let after = r.resolve_stmt(s)->Ok_0;
    let k = r.scopes.len();
    let all = stmt_idset(s@);
    match s {
        Stmt::If(i) => {
            let first = expr_idset(i.condition@);
            let second = stmt_idset((*i.then_block)@);
            let mid = r.resolve_expr(&i.condition)->Ok_0;
            let then = mid.resolve_stmt(&*i.then_block)->Ok_0;
            lemma_fresh_part(r.locals, all, first);
            lemma_fresh_part(r.locals, all, second);
            lemma_expr_recorded(r, &i.condition);
            lemma_still_fresh(r, mid, first, second);
            lemma_stmt_recorded(mid, &*i.then_block);
            lemma_rounds(r.locals, mid.locals, then.locals, first, second);
            lemma_expr_fits_same(&i.condition, k, mid.locals, then.locals);
            match i.else_block {
                Some(e) => {
                    let third = stmt_idset((*e)@);
                    lemma_fresh_part(r.locals, all, third);
                    lemma_still_fresh(r, then, first.union(second), third);
                    lemma_stmt_recorded(then, &*e);
                    lemma_rounds(
                        r.locals,
                        then.locals,
                        after.locals,
                        first.union(second),
                        third,
                    );
                    lemma_same_on_part(
                        then.locals,
                        after.locals,
                        first.union(second),
                        first,
                    );
                    lemma_same_on_part(
                        then.locals,
                        after.locals,
                        first.union(second),
                        second,
                    );
                    lemma_expr_fits_same(&i.condition, k, then.locals, after.locals);
                    lemma_stmt_fits_same(&*i.then_block, k, then.locals, after.locals);
                    lemma_same_off_more(
                        r.locals,
                        after.locals,
                        first.union(second).union(third),
                        all,
                    );
                },
                None => {
                    lemma_same_off_more(r.locals, after.locals, first.union(second), all);
                },
            }
        },
        _ => {},
    }
}

/// What is recorded when a class is resolved fits, and nothing else changes.
#[verifier::spinoff_prover]
pub proof fn lemma_class_recorded(r: Resolution, s: &Stmt)
    requires
        r.resolve_stmt(s) is Ok,
        fresh(r.locals, stmt_idset(s@)),
        stmt_distinct(s@),
        s is Class,
    ensures
        recorded(r, r.resolve_stmt(s)->Ok_0, stmt_idset(s@)),
        stmt_fits(s, r.scopes.len(), r.resolve_stmt(s)->Ok_0.locals),
    decreases s, 0nat,
{
    let after = r.resolve_stmt(s)->Ok_0;
    let k = r.scopes.len();
    let all = stmt_idset(s@);
    match s {
        Stmt::Class(c) => {
            let declared = r.declare(c.name)->Ok_0.define(c.name);
            let inside = Resolution { class: ClassType::CLASS, ..declared }.begin_scope().bind(
                "this"@,
                true,
            );
            let views = funcs_view(c.methods@);
            assert forall|j: int| 0 <= j < c.methods@.len() implies fresh(
                inside.locals,
                method_idset(#[trigger] c.methods@[j]),
            ) && stmts_distinct(
                stmts_view(c.methods@[j].body@),
                c.methods@[j].body@.len(),
            ) by {
                assert(views[j].body == stmts_view(c.methods@[j].body@));
                lemma_funcs_idset_has(views, views.len(), j);
                lemma_fresh_part(r.locals, all, method_idset(c.methods@[j]));
                lemma_funcs_each_distinct(views, views.len(), j);
            }
            assert forall|i: int, j: int| 0 <= i < j < c.methods@.len() implies method_idset(
                #[trigger] c.methods@[i],
            ).disjoint(method_idset(#[trigger] c.methods@[j])) by {
                assert(views[i].body == stmts_view(c.methods@[i].body@));
                assert(views[j].body == stmts_view(c.methods@[j].body@));
                lemma_funcs_apart(views, views.len(), i, j);
            }
            lemma_methods_recorded(inside, c.methods@, 0);
            assert forall|id: u64| !all.contains(id) implies kept(r.locals, after.locals, id) by {
                assert forall|j: int| 0 <= j < c.methods@.len() implies !method_idset(
                    #[trigger] c.methods@[j],
                ).contains(id) by {
                    assert(views[j].body == stmts_view(c.methods@[j].body@));
                    lemma_funcs_idset_has(views, views.len(), j);
                }
            }
        },
        _ => {},
    }
}

/// The identities of the expressions of a function.
pub open spec fn method_idset(f: Func) -> Set<u64> {
    stmts_idset(stmts_view(f.body@), f.body@.len())
}

/// What is recorded when a function is resolved fits the scopes that are
/// open around each reference, one more than around the function, and
/// nothing else changes.
pub proof fn lemma_fun_recorded(r: Resolution, f: &Func, kind: FunctionType)
    requires
        r.resolve_fun(f, kind) is Ok,
        fresh(r.locals, method_idset(*f)),
        stmts_distinct(stmts_view(f.body@), f.body@.len()),
    ensures
        recorded(r, r.resolve_fun(f, kind)->Ok_0, method_idset(*f)),
        stmts_fit(f.body@, 0, r.scopes.len() + 1, r.resolve_fun(f, kind)->Ok_0.locals),
    decreases f, 0nat,
{
    let inside = Resolution { function: kind, ..r }.begin_scope();
    lemma_params_record_nothing(inside, f.params@, 0);
    let ready = inside.declare_params(f.params@, 0)->Ok_0;
    lemma_stmts_recorded_all(ready, f.body@);
}

/// What is recorded when the statements of a list are resolved fits the
/// scopes that are open around each reference, and nothing else changes.
pub proof fn lemma_stmts_recorded_all(r: Resolution, ss: Seq<Stmt>)
    requires
        r.resolve_stmts(ss, 0) is Ok,
        fresh(r.locals, stmts_idset(stmts_view(ss), ss.len())),
        stmts_distinct(stmts_view(ss), ss.len()),
    ensures
        recorded(r, r.resolve_stmts(ss, 0)->Ok_0, stmts_idset(stmts_view(ss), ss.len())),
        stmts_fit(ss, 0, r.scopes.len(), r.resolve_stmts(ss, 0)->Ok_0.locals),
    decreases ss, ss.len() + 1,
{
    let views = stmts_view(ss);
    let all = stmts_idset(views, ss.len());
    let after = r.resolve_stmts(ss, 0)->Ok_0;
    assert forall|j: int| 0 <= j < ss.len() implies fresh(
        r.locals,
        stmt_idset((#[trigger] ss[j])@),
    ) && stmt_distinct(ss[j]@) by {
        assert(views[j] == ss[j]@);
        lemma_stmts_idset_has(views, views.len(), j);
        lemma_fresh_part(r.locals, all, stmt_idset(ss[j]@));
        lemma_stmts_each_distinct(views, views.len(), j);
    }
    assert forall|i: int, j: int| 0 <= i < j < ss.len() implies stmt_idset(
        (#[trigger] ss[i])@,
    ).disjoint(stmt_idset((#[trigger] ss[j])@)) by {
        assert(views[i] == ss[i]@);
        assert(views[j] == ss[j]@);
        lemma_stmts_apart(views, views.len(), i, j);
    }
    lemma_stmts_recorded(r, ss, 0);
    assert forall|id: u64| !all.contains(id) implies kept(r.locals, after.locals, id) by {
        assert forall|j: int| 0 <= j < ss.len() implies !stmt_idset((#[trigger] ss[j])@).contains(
            id,
        ) by {
            assert(views[j] == ss[j]@);
            lemma_stmts_idset_has(views, views.len(), j);
        }
    }
}

/// What is recorded when the statements from the `i`th on are resolved fits
/// the scopes that are open around each reference, and nothing else
/// changes.
pub proof fn lemma_stmts_recorded(r: Resolution, ss: Seq<Stmt>, i: nat)
    requires
        r.resolve_stmts(ss, i) is Ok,
        forall|j: int|
            i <= j < ss.len() ==> fresh(r.locals, stmt_idset((#[trigger] ss[j])@))
                && stmt_distinct(ss[j]@),
        forall|j: int, l: int|
            i <= j < l < ss.len() ==> stmt_idset((#[trigger] ss[j])@).disjoint(
                stmt_idset((#[trigger] ss[l])@),
            ),
    ensures
        forall|id: u64|
            (forall|j: int| i <= j < ss.len() ==> !stmt_idset((#[trigger] ss[j])@).contains(id))
                ==> kept(r.locals, r.resolve_stmts(ss, i)->Ok_0.locals, id),
        stmts_fit(ss, i, r.scopes.len(), r.resolve_stmts(ss, i)->Ok_0.locals),
        r.resolve_stmts(ss, i)->Ok_0.scopes.len() == r.scopes.len(),
        r.resolve_stmts(ss, i)->Ok_0.function == r.function,
        r.resolve_stmts(ss, i)->Ok_0.class == r.class,
    decreases ss, ss.len() - i,
{
    if i < ss.len() {
        let after = r.resolve_stmts(ss, i)->Ok_0;
        let mid = r.resolve_stmt(&ss[i as int])->Ok_0;
        let first = stmt_idset(ss[i as int]@);
        lemma_stmt_recorded(r, &ss[i as int]);
        assert forall|j: int| i + 1 <= j < ss.len() implies fresh(
            mid.locals,
            stmt_idset((#[trigger] ss[j])@),
        ) by {
            lemma_still_fresh(r, mid, first, stmt_idset(ss[j]@));
        }
        lemma_stmts_recorded(mid, ss, i + 1);
        assert forall|id: u64| first.contains(id) implies kept(mid.locals, after.locals, id) by {
            assert forall|j: int| i + 1 <= j < ss.len() implies !stmt_idset(
                (#[trigger] ss[j])@,
            ).contains(id) by {
                assert(first.disjoint(stmt_idset(ss[j]@)));
            }
        }
        lemma_stmt_fits_same(&ss[i as int], r.scopes.len(), mid.locals, after.locals);
        assert forall|id: u64|
            (forall|j: int|
                i <= j < ss.len() ==> !stmt_idset((#[trigger] ss[j])@).contains(
                    id,
                )) implies kept(r.locals, after.locals, id) by {
            assert(!stmt_idset(ss[i as int]@).contains(id));
            assert(kept(r.locals, mid.locals, id));
            assert(kept(mid.locals, after.locals, id));
        }
    }
}

/// What is recorded when the methods from the `i`th on are resolved fits the
/// scopes that are open around each reference, and nothing else changes.
pub proof fn lemma_methods_recorded(r: Resolution, ms: Seq<Func>, i: nat)
    requires
        r.resolve_methods(ms, i) is Ok,
        forall|j: int|
            i <= j < ms.len() ==> fresh(r.locals, method_idset(#[trigger] ms[j]))
                && stmts_distinct(stmts_view(ms[j].body@), ms[j].body@.len()),
        forall|j: int, l: int|
            i <= j < l < ms.len() ==> method_idset(#[trigger] ms[j]).disjoint(
                method_idset(#[trigger] ms[l]),
            ),
    ensures
        forall|id: u64|
            (forall|j: int| i <= j < ms.len() ==> !method_idset(#[trigger] ms[j]).contains(id))
                ==> kept(r.locals, r.resolve_methods(ms, i)->Ok_0.locals, id),
        methods_fit(ms, i, r.scopes.len() + 1, r.resolve_methods(ms, i)->Ok_0.locals),
        r.resolve_methods(ms, i)->Ok_0.scopes.len() == r.scopes.len(),
        r.resolve_methods(ms, i)->Ok_0.function == r.function,
        r.resolve_methods(ms, i)->Ok_0.class == r.class,
    decreases ms, ms.len() - i,
{
    if i < ms.len() {
        let kind = if ms[i as int].name.name() == "init"@ {
            FunctionType::INITIALIZER
        } else {
            FunctionType::METHOD
        };
        let after = r.resolve_methods(ms, i)->Ok_0;
        let mid = r.resolve_fun(&ms[i as int], kind)->Ok_0;
        let first = method_idset(ms[i as int]);
        lemma_fun_recorded(r, &ms[i as int], kind);
        assert forall|j: int| i + 1 <= j < ms.len() implies fresh(
            mid.locals,
            method_idset(#[trigger] ms[j]),
        ) by {
            lemma_still_fresh(r, mid, first, method_idset(ms[j]));
        }
        lemma_methods_recorded(mid, ms, i + 1);
        assert forall|id: u64| first.contains(id) implies kept(mid.locals, after.locals, id) by {
            assert forall|j: int| i + 1 <= j < ms.len() implies !method_idset(
                #[trigger] ms[j],
            ).contains(id) by {
                assert(first.disjoint(method_idset(ms[j])));
            }
        }
        lemma_stmts_fit_same_all(
            ms[i as int].body@,
            r.scopes.len() + 1,
            mid.locals,
            after.locals,
            first,
        );
        assert forall|id: u64|
            (forall|j: int|
                i <= j < ms.len() ==> !method_idset(#[trigger] ms[j]).contains(id)) implies kept(
            r.locals,
            after.locals,
            id,
        ) by {
            assert(!method_idset(ms[i as int]).contains(id));
            assert(kept(r.locals, mid.locals, id));
            assert(kept(mid.locals, after.locals, id));
        }
    }
}

/// A resolved program fits: if a program in which no two expressions share
/// an identity is resolved from the top level, with nothing recorded
/// before, every depth that is recorded for a reference of the program is
/// smaller than the number of scopes around the reference.
pub proof fn lemma_program_recorded(stmts: Seq<Stmt>)
    requires
        stmts_ids(stmts_view(stmts), stmts.len()).no_duplicates(),
        top_level().resolve_stmts(stmts, 0) is Ok,
    ensures
        stmts_fit(stmts, 0, 0, top_level().resolve_stmts(stmts, 0)->Ok_0.locals),
{
    lemma_stmts_bridge(stmts_view(stmts), stmts.len());
    lemma_stmts_recorded_all(top_level(), stmts);
}

/// The resolver's state at the top level of a program, with nothing recorded.
pub open spec fn top_level() -> Resolution {
    Resolution {
        scopes: Seq::empty(),
        locals: Map::empty(),
        function: FunctionType::NONE,
        class: ClassType::NONE,
    }
}

} // verus!
