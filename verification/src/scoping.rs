//! Scoping: the depths that the resolver records fit the chains of
//! environments that the machine builds.
//!
//! A reference that is resolved to the depth `d` is read `d` links out from
//! the environment that is current at the reference. This module shows that
//! such a read never runs off the chain: wherever the machine evaluates an
//! expression of a resolved program, the chain of environments is as long as
//! the expression is deep in scopes, and every recorded depth is smaller.

use vstd::prelude::*;
use crate::environment::{Environment, ancestor_of, bound_in, envs_ordered};
use crate::expressions::Expr;
use crate::machine::{
    Action, Event, Frame, State, applies, assigns, boundary, call_ends, calls, classes_wf,
    expr_step, extended, frames_marked, frames_ok, functions_ok, gets, host_step,
    instantiates, invokes, methods_of, params_map, peek, popped, reclaimed, return_unwinds,
    step_spec, stmt_step, this_binding,
};
use crate::operators::Outcome;
use crate::scanner::Token;
use crate::types::Object;
use crate::statements::{Func, Stmt};
use crate::types::{Function, LoxClass, truthy};

verus! {

/// The number of links from `env` to the outermost environment of its chain.
pub open spec fn chain_length(envs: Seq<Environment>, env: usize) -> nat
    decreases env,
{
    if env >= envs.len() {
        0
    } else {
        match envs[env as int].enclosing {
            Some(p) => if p < env {
                1 + chain_length(envs, p)
            } else {
                0
            },
            None => 0,
        }
    }
}

/// The depth recorded for the reference `id`, if one is, is smaller than `k`.
pub open spec fn reference_fits(id: u64, k: nat, locals: Map<u64, usize>) -> bool {
    locals.contains_key(id) ==> locals[id] < k
}

/// Every depth recorded for a reference in the expression is smaller than
/// `k`, the number of scopes around the expression.
pub open spec fn expr_fits(e: &Expr, k: nat, locals: Map<u64, usize>) -> bool
    decreases e, 0nat,
{
    match e {
        Expr::Literal(_) => true,
        Expr::Grouping(g) => expr_fits(&*g.expr, k, locals),
        Expr::Unary(u) => expr_fits(&*u.right, k, locals),
        Expr::Binary(b) => expr_fits(&*b.left, k, locals) && expr_fits(&*b.right, k, locals),
        Expr::Logical(l) => expr_fits(&*l.left, k, locals) && expr_fits(&*l.right, k, locals),
        Expr::Var(v) => reference_fits(v.id, k, locals),
        Expr::Assign(a) => reference_fits(a.id, k, locals) && expr_fits(&*a.value, k, locals),
        Expr::Call(c) => expr_fits(&*c.calle, k, locals) && exprs_fit(c.arguments@, 0, k, locals),
        Expr::Get(g) => expr_fits(&*g.expr, k, locals),
        Expr::SetExpr(s) => expr_fits(&*s.expr, k, locals) && expr_fits(&*s.value, k, locals),
        Expr::This(t) => reference_fits(t.id, k, locals),
    }
}

/// The expressions from the `i`th on fit `k` scopes.
pub open spec fn exprs_fit(es: Seq<Expr>, i: nat, k: nat, locals: Map<u64, usize>) -> bool
    decreases es, es.len() - i,
{
    if i >= es.len() {
        true
    } else {
        expr_fits(&es[i as int], k, locals) && exprs_fit(es, i + 1, k, locals)
    }
}

/// Every depth recorded for a reference in the statement is smaller than the
/// number of scopes around the reference, where `k` scopes are around the
/// statement: a block adds one scope, a function one for its parameters and
/// body, a class one for `this` around its methods.
pub open spec fn stmt_fits(s: &Stmt, k: nat, locals: Map<u64, usize>) -> bool
    decreases s, 0nat,
{
    match s {
        Stmt::ExprStmt(e) => expr_fits(e, k, locals),
        Stmt::Var(v) => match v.initializer {
            Some(init) => expr_fits(&init, k, locals),
            None => true,
        },
        Stmt::Block(b) => stmts_fit(b.stmts@, 0, k + 1, locals),
        Stmt::If(i) => expr_fits(&i.condition, k, locals) && stmt_fits(&*i.then_block, k, locals)
            && match i.else_block {
            Some(e) => stmt_fits(&*e, k, locals),
            None => true,
        },
        Stmt::While(w) => expr_fits(&w.condition, k, locals) && stmt_fits(&*w.body, k, locals),
        Stmt::Func(f) => stmts_fit(f.body@, 0, k + 1, locals),
        Stmt::Class(c) => methods_fit(c.methods@, 0, k + 2, locals),
        Stmt::Return(r) => match r.value {
            Some(v) => expr_fits(&v, k, locals),
            None => true,
        },
    }
}

/// The statements from the `i`th on fit `k` scopes.
pub open spec fn stmts_fit(ss: Seq<Stmt>, i: nat, k: nat, locals: Map<u64, usize>) -> bool
    decreases ss, ss.len() - i,
{
    if i >= ss.len() {
        true
    } else {
        stmt_fits(&ss[i as int], k, locals) && stmts_fit(ss, i + 1, k, locals)
    }
}

/// The bodies of the functions from the `i`th on fit `k` scopes.
pub open spec fn methods_fit(ms: Seq<Func>, i: nat, k: nat, locals: Map<u64, usize>) -> bool
    decreases ms, ms.len() - i,
{
    if i >= ms.len() {
        true
    } else {
        stmts_fit(ms[i as int].body@, 0, k, locals) && methods_fit(ms, i + 1, k, locals)
    }
}

/// Each of the statements fits, if all from the `i`th on do.
pub proof fn lemma_stmts_fit_each(ss: Seq<Stmt>, i: nat, k: nat, locals: Map<u64, usize>, j: int)
    requires
        stmts_fit(ss, i, k, locals),
        i <= j < ss.len(),
    ensures
        stmt_fits(&ss[j], k, locals),
    decreases ss.len() - i,
{
    if i < j {
        lemma_stmts_fit_each(ss, i + 1, k, locals, j);
    }
}

/// Each of the expressions fits, if all from the `i`th on do.
pub proof fn lemma_exprs_fit_each(es: Seq<Expr>, i: nat, k: nat, locals: Map<u64, usize>, j: int)
    requires
        exprs_fit(es, i, k, locals),
        i <= j < es.len(),
    ensures
        expr_fits(&es[j], k, locals),
    decreases es.len() - i,
{
    if i < j {
        lemma_exprs_fit_each(es, i + 1, k, locals, j);
    }
}

/// The body of each of the functions fits, if all from the `i`th on do.
pub proof fn lemma_methods_fit_each(
    ms: Seq<Func>,
    i: nat,
    k: nat,
    locals: Map<u64, usize>,
    j: int,
)
    requires
        methods_fit(ms, i, k, locals),
        i <= j < ms.len(),
    ensures
        stmts_fit(ms[j].body@, 0, k, locals),
    decreases ms.len() - i,
{
    if i < j {
        lemma_methods_fit_each(ms, i + 1, k, locals, j);
    }
}

/// What the frame holds fits `k` scopes. The program itself is in no scope.
pub open spec fn frame_fits(frame: Frame, k: nat, locals: Map<u64, usize>) -> bool {
    match frame {
        Frame::Program { stmts, .. } => k == 0 && stmts_fit(stmts@, 0, 0, locals),
        Frame::Block { stmts, .. } => stmts_fit(stmts@, 0, k, locals),
        Frame::Stmt { stmt, .. } => stmt_fits(stmt, k, locals),
        Frame::Expr { expr, .. } => expr_fits(expr, k, locals),
        Frame::Call { .. } => true,
        Frame::Host { .. } => true,
    }
}

/// The environment that is current for the frames below `frame`, where `env`
/// is current for `frame`: a block and a call go back to the environment
/// that was current when they began.
pub open spec fn below(frame: Frame, env: usize) -> usize {
    match frame {
        Frame::Block { prev, .. } => prev,
        Frame::Call { prev, .. } => prev,
        _ => env,
    }
}

/// What each frame holds fits the chain of the environment that is current
/// when the frame is run, where `env` is current for the innermost frame.
pub open spec fn frames_scoped(
    frames: Seq<Frame>,
    env: usize,
    envs: Seq<Environment>,
    locals: Map<u64, usize>,
) -> bool
    decreases frames.len(),
{
    if frames.len() == 0 {
        true
    } else {
        &&& frame_fits(frames.last(), chain_length(envs, env), locals)
        &&& frames_scoped(frames.drop_last(), below(frames.last(), env), envs, locals)
    }
}

/// The body of the function fits the chain of its closure and the scope of
/// its parameters and body.
pub open spec fn function_fits(f: Function, envs: Seq<Environment>, locals: Map<u64, usize>)
    -> bool {
    stmts_fit(f.decl.body@, 0, chain_length(envs, f.closure) + 1, locals)
}

/// The body of the method fits the chain of its closure, the scope of `this`
/// and the scope of its parameters and body.
pub open spec fn method_fits(f: Function, envs: Seq<Environment>, locals: Map<u64, usize>)
    -> bool {
    stmts_fit(f.decl.body@, 0, chain_length(envs, f.closure) + 2, locals)
}

/// The state fits the recorded depths: what every frame holds, every
/// function and every method fits the chain of environments that it is run
/// in, and only the globals are enclosed by nothing.
pub open spec fn scoped(st: State) -> bool {
    &&& frames_scoped(st.frames, st.env, st.envs, st.locals)
    &&& tables_scoped(st)
}

/// A read at a recorded depth stays on the chain: in a state that fits, a
/// reference with the depth `d` in an expression that the machine is about
/// to evaluate is read in an environment that exists, `d` links out from the
/// current one, and that environment is no less deep in its chain than the
/// scope of the reference is deep in scopes.
pub proof fn lemma_resolved_read_stays_on_chain(st: State, id: u64)
    requires
        st.wf(),
        scoped(st),
        st.frames.len() > 0,
        st.frames.last() matches Frame::Expr { expr, .. } && match *expr {
            Expr::Var(v) => v.id == id,
            Expr::Assign(a) => a.id == id,
            Expr::This(t) => t.id == id,
            _ => false,
        },
        st.locals.contains_key(id),
    ensures
        st.locals[id] < chain_length(st.envs, st.env),
        ancestor_of(st.envs, st.env, st.locals[id] as nat) matches Some(a) && a != 0
            && chain_length(st.envs, a) == chain_length(st.envs, st.env) - st.locals[id],
{
    lemma_chain_has_ancestors(st.envs, st.env, st.locals[id] as nat);
}

/// Every environment of a chain is reached by as many links as it is nearer
/// to the outermost one.
pub proof fn lemma_chain_has_ancestors(envs: Seq<Environment>, env: usize, distance: nat)
    requires
        envs_ordered(envs),
        env < envs.len(),
        distance <= chain_length(envs, env),
    ensures
        ancestor_of(envs, env, distance) matches Some(a) && a < envs.len() && chain_length(envs, a)
            == chain_length(envs, env) - distance,
        distance < chain_length(envs, env) ==> ancestor_of(envs, env, distance) != Some(0usize),
    decreases distance,
{
    if distance > 0 {
        let p = envs[env as int].enclosing->Some_0;
        lemma_chain_has_ancestors(envs, p, (distance - 1) as nat);
    } else if chain_length(envs, env) > 0 {
        assert(envs[env as int].enclosing is Some);
    }
}

/// Two lists of environments have the same links in their first `n` environments.
pub open spec fn same_links(a: Seq<Environment>, b: Seq<Environment>, n: nat) -> bool {
    &&& n <= a.len()
    &&& n <= b.len()
    &&& forall|i: int| 0 <= i < n ==> (#[trigger] a[i]).enclosing == (#[trigger] b[i]).enclosing
}

/// Chains are as long in one list of environments as in another with the same links.
pub proof fn lemma_chain_length_agrees(
    a: Seq<Environment>,
    b: Seq<Environment>,
    n: nat,
    env: usize,
)
    requires
        same_links(a, b, n),
        env < n,
    ensures
        chain_length(a, env) == chain_length(b, env),
    decreases env,
{
    assert(a[env as int].enclosing == b[env as int].enclosing);
    match a[env as int].enclosing {
        Some(p) => {
            if p < env {
                lemma_chain_length_agrees(a, b, n, p);
            }
        },
        None => {},
    }
}

/// One more environment leaves the links of the others as they are.
pub proof fn lemma_extended_links(
    pre: Seq<Environment>,
    post: Seq<Environment>,
    enclosing: usize,
    bindings: Map<Seq<char>, crate::types::Object>,
)
    requires
        extended(pre, post, enclosing, bindings),
    ensures
        same_links(pre, post, pre.len()),
        same_links(post, pre, pre.len()),
{
    assert forall|i: int| 0 <= i < pre.len() implies (#[trigger] pre[i]).enclosing == (
    #[trigger] post[i]).enclosing by {
        assert(post[i] == post.take(pre.len() as int)[i]);
    }
}

/// A binding leaves all links as they are.
pub proof fn lemma_bound_links(
    pre: Seq<Environment>,
    post: Seq<Environment>,
    a: usize,
    name: Seq<char>,
    value: crate::types::Object,
)
    requires
        bound_in(pre, post, a, name, value),
    ensures
        same_links(pre, post, pre.len()),
{
    assert forall|i: int| 0 <= i < pre.len() implies (#[trigger] pre[i]).enclosing == (
    #[trigger] post[i]).enclosing by {
        if i != a {
            assert(post[i] == pre[i]);
        }
    }
}

/// The environments that are left have the links that they had.
pub proof fn lemma_reclaimed_links(envs: Seq<Environment>, pinned: usize, mark: usize)
    ensures
        same_links(envs, reclaimed(envs, pinned, mark), reclaimed(envs, pinned, mark).len()),
{
}

/// Frames that fit one list of environments fit another with the same links.
pub proof fn lemma_frames_transfer(
    frames: Seq<Frame>,
    env: usize,
    a: Seq<Environment>,
    b: Seq<Environment>,
    n: nat,
    locals: Map<u64, usize>,
)
    requires
        frames_scoped(frames, env, a, locals),
        frames_marked(frames, n),
        env < n,
        same_links(a, b, n),
    ensures
        frames_scoped(frames, env, b, locals),
    decreases frames.len(),
{
    if frames.len() > 0 {
        lemma_chain_length_agrees(a, b, n, env);
        match frames.last() {
            Frame::Block { prev, mark, .. } => {
                lemma_frames_transfer(frames.drop_last(), prev, a, b, mark as nat, locals);
            },
            Frame::Call { prev, mark, .. } => {
                lemma_frames_transfer(frames.drop_last(), prev, a, b, mark as nat, locals);
            },
            _ => {
                lemma_frames_transfer(frames.drop_last(), env, a, b, n, locals);
            },
        }
    }
}

/// One more frame that is no block and no call, and fits, keeps the frames fitting.
pub proof fn lemma_scoped_push(
    frames: Seq<Frame>,
    frame: Frame,
    env: usize,
    envs: Seq<Environment>,
    locals: Map<u64, usize>,
)
    requires
        frames_scoped(frames, env, envs, locals),
        frame_fits(frame, chain_length(envs, env), locals),
        !(frame is Block),
        !(frame is Call),
    ensures
        frames_scoped(frames.push(frame), env, envs, locals),
{
    assert(frames.push(frame).drop_last() == frames);
}

/// A block or a call that begins keeps the frames fitting: the frames so
/// far fit the environment that it goes back to.
pub proof fn lemma_scoped_begin(
    frames: Seq<Frame>,
    frame: Frame,
    env: usize,
    envs: Seq<Environment>,
    locals: Map<u64, usize>,
)
    requires
        frames_scoped(frames, below(frame, env), envs, locals),
        frame_fits(frame, chain_length(envs, env), locals),
    ensures
        frames_scoped(frames.push(frame), env, envs, locals),
{
    assert(frames.push(frame).drop_last() == frames);
}

/// The environment that is current for the `k`th frame.
pub open spec fn env_at(frames: Seq<Frame>, env: usize, k: int) -> usize
    decreases frames.len(),
{
    if frames.len() == 0 || k >= frames.len() - 1 {
        env
    } else {
        env_at(frames.drop_last(), below(frames.last(), env), k)
    }
}

/// The frames up to the `k`th fit the environment that is current for the `k`th.
pub proof fn lemma_scoped_at(
    frames: Seq<Frame>,
    env: usize,
    envs: Seq<Environment>,
    locals: Map<u64, usize>,
    k: int,
)
    requires
        frames_scoped(frames, env, envs, locals),
        0 <= k < frames.len(),
    ensures
        frames_scoped(frames.take(k + 1), env_at(frames, env, k), envs, locals),
    decreases frames.len(),
{
    if k >= frames.len() - 1 {
        assert(frames.take(k + 1) == frames);
    } else {
        lemma_scoped_at(frames.drop_last(), below(frames.last(), env), envs, locals, k);
        assert(frames.drop_last().take(k + 1) == frames.take(k + 1));
    }
}

/// The frames up to the `k`th are in order for as many environments as the
/// frames are, and the environment that is current for the `k`th is one of
/// them.
pub proof fn lemma_marked_at(frames: Seq<Frame>, env: usize, n: nat, k: int)
    requires
        frames_marked(frames, n),
        env < n,
        0 <= k < frames.len(),
    ensures
        frames_marked(frames.take(k + 1), n),
        env_at(frames, env, k) < n,
    decreases frames.len(),
{
    if k >= frames.len() - 1 {
        assert(frames.take(k + 1) == frames);
    } else {
        assert(frames.drop_last().take(k + 1) == frames.take(k + 1));
        match frames.last() {
            Frame::Block { prev, mark, .. } => {
                lemma_marked_at(frames.drop_last(), prev, mark as nat, k);
                crate::machine::lemma_marked_for_more(frames.take(k + 1), mark as nat, n);
            },
            Frame::Call { prev, mark, .. } => {
                lemma_marked_at(frames.drop_last(), prev, mark as nat, k);
                crate::machine::lemma_marked_for_more(frames.take(k + 1), mark as nat, n);
            },
            _ => {
                lemma_marked_at(frames.drop_last(), env, n, k);
            },
        }
    }
}

/// The body of every function fits the chain of its closure.
pub open spec fn functions_scoped(
    functions: Seq<Function>,
    envs: Seq<Environment>,
    locals: Map<u64, usize>,
) -> bool {
    forall|h: int| 0 <= h < functions.len() ==> function_fits(#[trigger] functions[h], envs, locals)
}

/// The body of every method of every class fits the chain of its closure.
pub open spec fn classes_scoped(
    classes: Seq<LoxClass>,
    envs: Seq<Environment>,
    locals: Map<u64, usize>,
) -> bool {
    forall|c: int, name: Seq<char>|
        0 <= c < classes.len() && (#[trigger] classes[c]).methods@.contains_key(name)
            ==> method_fits(#[trigger] classes[c].methods@[name], envs, locals)
}

/// The body of the function of every call in flight fits the chain of its closure.
pub open spec fn calls_scoped(frames: Seq<Frame>, envs: Seq<Environment>, locals: Map<u64, usize>)
    -> bool {
    forall|i: int|
        0 <= i < frames.len() ==> (#[trigger] frames[i] matches Frame::Call { function, .. }
            ==> function_fits(function, envs, locals))
}

/// Only the globals are enclosed by nothing.
pub open spec fn rooted(envs: Seq<Environment>) -> bool {
    forall|i: int| 0 < i < envs.len() ==> (#[trigger] envs[i]).enclosing is Some
}

/// The functions, the methods and the calls in flight fit the chains of
/// their closures, and only the globals are enclosed by nothing.
pub open spec fn tables_scoped(st: State) -> bool {
    &&& functions_scoped(st.functions, st.envs, st.locals)
    &&& classes_scoped(st.classes, st.envs, st.locals)
    &&& calls_scoped(st.frames, st.envs, st.locals)
    &&& rooted(st.envs)
}

/// Functions, methods and calls in flight that fit one list of environments
/// fit another that has the same links where they close over it.
pub proof fn lemma_tables_transfer(
    functions: Seq<Function>,
    classes: Seq<LoxClass>,
    frames: Seq<Frame>,
    a: Seq<Environment>,
    b: Seq<Environment>,
    n: nat,
    pinned: nat,
    locals: Map<u64, usize>,
)
    requires
        functions_scoped(functions, a, locals),
        classes_scoped(classes, a, locals),
        calls_scoped(frames, a, locals),
        functions_ok(functions, pinned),
        classes_wf(classes, pinned),
        frames_ok(frames, pinned),
        pinned <= n,
        same_links(a, b, n),
    ensures
        functions_scoped(functions, b, locals),
        classes_scoped(classes, b, locals),
        calls_scoped(frames, b, locals),
{
    assert forall|h: int| 0 <= h < functions.len() implies function_fits(
        #[trigger] functions[h],
        b,
        locals,
    ) by {
        lemma_chain_length_agrees(a, b, n, functions[h].closure);
    }
    assert forall|c: int, name: Seq<char>|
        0 <= c < classes.len() && (#[trigger] classes[c]).methods@.contains_key(
            name,
        ) implies method_fits(#[trigger] classes[c].methods@[name], b, locals) by {
        assert(crate::machine::class_ok(classes[c], pinned));
        lemma_chain_length_agrees(a, b, n, classes[c].methods@[name].closure);
    }
    assert forall|i: int| 0 <= i < frames.len() implies (#[trigger] frames[i] matches Frame::Call {
        function,
        ..
    } ==> function_fits(function, b, locals)) by {
        if let Frame::Call { function, .. } = frames[i] {
            assert(crate::machine::frame_ok(frames[i], pinned));
            lemma_chain_length_agrees(a, b, n, function.closure);
        }
    }
}

/// One more frame that is no call keeps the calls in flight fitting.
pub proof fn lemma_calls_push(
    frames: Seq<Frame>,
    frame: Frame,
    envs: Seq<Environment>,
    locals: Map<u64, usize>,
)
    requires
        calls_scoped(frames, envs, locals),
        frame matches Frame::Call { function, .. } ==> function_fits(function, envs, locals),
    ensures
        calls_scoped(frames.push(frame), envs, locals),
{
    let more = frames.push(frame);
    assert forall|i: int| 0 <= i < more.len() implies (#[trigger] more[i] matches Frame::Call {
        function,
        ..
    } ==> function_fits(function, envs, locals)) by {
        if i < frames.len() {
            assert(more[i] == frames[i]);
        }
    }
}

/// The first frames of frames whose calls fit have calls that fit.
pub proof fn lemma_calls_take(
    frames: Seq<Frame>,
    k: int,
    envs: Seq<Environment>,
    locals: Map<u64, usize>,
)
    requires
        calls_scoped(frames, envs, locals),
        0 <= k <= frames.len(),
    ensures
        calls_scoped(frames.take(k), envs, locals),
{
    let fewer = frames.take(k);
    assert forall|i: int| 0 <= i < fewer.len() implies (#[trigger] fewer[i] matches Frame::Call {
        function,
        ..
    } ==> function_fits(function, envs, locals)) by {
        assert(fewer[i] == frames[i]);
    }
}

/// What fits a state fits its frames and tables with other environments
/// that have the same links in the first `n`, if nothing refers to a later
/// one.
pub proof fn lemma_transfer(pre: State, envs: Seq<Environment>, n: nat)
    requires
        pre.wf(),
        scoped(pre),
        same_links(pre.envs, envs, n),
        pre.pinned <= n,
        pre.env < n,
        frames_marked(pre.frames, n),
    ensures
        frames_scoped(pre.frames, pre.env, envs, pre.locals),
        functions_scoped(pre.functions, envs, pre.locals),
        classes_scoped(pre.classes, envs, pre.locals),
        calls_scoped(pre.frames, envs, pre.locals),
{
    lemma_frames_transfer(pre.frames, pre.env, pre.envs, envs, n, pre.locals);
    lemma_tables_transfer(
        pre.functions,
        pre.classes,
        pre.frames,
        pre.envs,
        envs,
        n,
        pre.pinned as nat,
        pre.locals,
    );
}

/// A binding keeps the globals the only environment that nothing encloses.
pub proof fn lemma_bound_rooted(
    pre: Seq<Environment>,
    post: Seq<Environment>,
    a: usize,
    name: Seq<char>,
    value: crate::types::Object,
)
    requires
        rooted(pre),
        bound_in(pre, post, a, name, value),
    ensures
        rooted(post),
{
    assert forall|i: int| 0 < i < post.len() implies (#[trigger] post[i]).enclosing is Some by {
        if i != a {
            assert(post[i] == pre[i]);
        }
        assert(pre[i].enclosing is Some);
    }
}

/// One more environment, which is enclosed, keeps the globals the only
/// environment that nothing encloses.
pub proof fn lemma_extended_rooted(
    pre: Seq<Environment>,
    post: Seq<Environment>,
    enclosing: usize,
    bindings: Map<Seq<char>, crate::types::Object>,
)
    requires
        rooted(pre),
        extended(pre, post, enclosing, bindings),
    ensures
        rooted(post),
{
    assert forall|i: int| 0 < i < post.len() implies (#[trigger] post[i]).enclosing is Some by {
        if i < pre.len() {
            assert(post[i] == post.take(pre.len() as int)[i]);
            assert(pre[i].enclosing is Some);
        }
    }
}

/// The chain of a new environment is one longer than that of the environment around it.
pub proof fn lemma_extended_chain(
    pre: Seq<Environment>,
    post: Seq<Environment>,
    enclosing: usize,
    bindings: Map<Seq<char>, crate::types::Object>,
)
    requires
        extended(pre, post, enclosing, bindings),
        enclosing < pre.len(),
        pre.len() <= usize::MAX,
    ensures
        chain_length(post, pre.len() as usize) == chain_length(pre, enclosing) + 1,
{
    lemma_extended_links(pre, post, enclosing, bindings);
    lemma_chain_length_agrees(post, pre, pre.len(), enclosing);
    assert(post[pre.len() as int] == post.last());
}

/// A state whose binding in the current chain changed fits as before.
pub proof fn lemma_binding_keeps_scope(
    pre: State,
    post: State,
    a: usize,
    name: Seq<char>,
    value: crate::types::Object,
)
    requires
        pre.wf(),
        scoped(pre),
        bound_in(pre.envs, post.envs, a, name, value),
        post.frames == pre.frames,
        post.env == pre.env,
        post.functions == pre.functions,
        post.classes == pre.classes,
        post.locals == pre.locals,
    ensures
        scoped(post),
{
    lemma_bound_links(pre.envs, post.envs, a, name, value);
    lemma_transfer(pre, post.envs, pre.envs.len());
    lemma_bound_rooted(pre.envs, post.envs, a, name, value);
}

/// The frames below the innermost call in flight fit the environment that
/// the call goes back to.
pub proof fn lemma_scoped_below_call(
    frames: Seq<Frame>,
    env: usize,
    envs: Seq<Environment>,
    locals: Map<u64, usize>,
    n: nat,
)
    requires
        frames_scoped(frames, env, envs, locals),
        frames_marked(frames, n),
        env < n,
        boundary(frames) >= 0,
    ensures
        match frames[boundary(frames)] {
            Frame::Call { prev, mark, .. } => frames_scoped(
                frames.take(boundary(frames)),
                prev,
                envs,
                locals,
            ) && frames_marked(frames.take(boundary(frames)), mark as nat) && prev < mark <= n,
            _ => rooted(envs) && envs_ordered(envs) && n <= envs.len() ==> frames_scoped(
                frames.take(boundary(frames) + 1),
                0,
                envs,
                locals,
            ),
        },
    decreases frames.len(),
{
    let k = boundary(frames);
    if frames.last() is Call || frames.last() is Program {
        assert(frames.take(k) == frames.drop_last());
        assert(frames.take(k + 1) == frames);
        if frames.last() is Program && rooted(envs) && envs_ordered(envs) && n <= envs.len() {
            assert(chain_length(envs, env) == 0);
            if env != 0 {
                assert(envs[env as int].enclosing is Some);
                assert(envs[env as int].enclosing->Some_0 < env);
            }
        }
    } else {
        let rest = frames.drop_last();
        let e = below(frames.last(), env);
        crate::laws::lemma_boundary_is_innermost(rest);
        assert(boundary(rest) == k);
        match frames.last() {
            Frame::Block { prev, mark, .. } => {
                lemma_scoped_below_call(rest, e, envs, locals, mark as nat);
            },
            _ => {
                lemma_scoped_below_call(rest, e, envs, locals, n);
            },
        }
        assert(rest.take(k) == frames.take(k));
        assert(rest.take(k + 1) == frames.take(k + 1));
        assert(rest[k] == frames[k]);
    }
}

/// Giving up the environments that a block or a call made keeps what is
/// left fitting.
pub proof fn lemma_reclaim_keeps_scope(
    frames: Seq<Frame>,
    env: usize,
    envs: Seq<Environment>,
    pinned: usize,
    mark: usize,
    functions: Seq<Function>,
    classes: Seq<LoxClass>,
    locals: Map<u64, usize>,
)
    requires
        frames_scoped(frames, env, envs, locals),
        frames_marked(frames, mark as nat),
        env < mark <= envs.len(),
        functions_scoped(functions, envs, locals),
        classes_scoped(classes, envs, locals),
        calls_scoped(frames, envs, locals),
        functions_ok(functions, pinned as nat),
        classes_wf(classes, pinned as nat),
        frames_ok(frames, pinned as nat),
        pinned <= envs.len(),
        rooted(envs),
    ensures
        frames_scoped(frames, env, reclaimed(envs, pinned, mark), locals),
        functions_scoped(functions, reclaimed(envs, pinned, mark), locals),
        classes_scoped(classes, reclaimed(envs, pinned, mark), locals),
        calls_scoped(frames, reclaimed(envs, pinned, mark), locals),
        rooted(reclaimed(envs, pinned, mark)),
{
    let kept = reclaimed(envs, pinned, mark);
    lemma_reclaimed_links(envs, pinned, mark);
    if pinned <= mark {
        lemma_frames_transfer(frames, env, envs, kept, mark as nat, locals);
        lemma_tables_transfer(
            functions,
            classes,
            frames,
            envs,
            kept,
            mark as nat,
            pinned as nat,
            locals,
        );
    }
    assert forall|i: int| 0 < i < kept.len() implies (#[trigger] kept[i]).enclosing is Some by {
        assert(kept[i] == envs[i]);
    }
}

/// The end of a call keeps the state fitting.
pub proof fn lemma_call_end_keeps_scope<'a>(
    pre: State<'a>,
    post: State<'a>,
    rest: Seq<Frame<'a>>,
    function: Function<'a>,
    prev: usize,
    base: usize,
    mark: usize,
    value: Object,
)
    requires
        frames_scoped(rest, prev, pre.envs, pre.locals),
        frames_marked(rest, mark as nat),
        prev < mark <= pre.envs.len(),
        functions_scoped(pre.functions, pre.envs, pre.locals),
        classes_scoped(pre.classes, pre.envs, pre.locals),
        calls_scoped(rest, pre.envs, pre.locals),
        functions_ok(pre.functions, pre.pinned as nat),
        classes_wf(pre.classes, pre.pinned as nat),
        frames_ok(rest, pre.pinned as nat),
        pre.pinned <= pre.envs.len(),
        rooted(pre.envs),
        call_ends(pre, post, rest, function, prev, base, mark, value),
    ensures
        scoped(post),
{
    lemma_reclaim_keeps_scope(
        rest,
        prev,
        pre.envs,
        pre.pinned,
        mark,
        pre.functions,
        pre.classes,
        pre.locals,
    );
}

/// A `return` keeps the state fitting.
pub proof fn lemma_return_keeps_scope<'a>(pre: State<'a>, post: State<'a>, value: Object)
    requires
        pre.wf(),
        scoped(pre),
        return_unwinds(pre, post, value),
    ensures
        scoped(post),
{
    let k = boundary(pre.frames);
    if k >= 0 {
        crate::laws::lemma_boundary_is_innermost(pre.frames);
        lemma_scoped_below_call(pre.frames, pre.env, pre.envs, pre.locals, pre.envs.len());
        match pre.frames[k] {
            Frame::Call { function, prev, base, mark } => {
                let rest = pre.frames.take(k);
                lemma_calls_take(pre.frames, k, pre.envs, pre.locals);
                assert(frames_ok(rest, pre.pinned as nat)) by {
                    assert forall|i: int| 0 <= i < rest.len() implies crate::machine::frame_ok(
                        #[trigger] rest[i],
                        pre.pinned as nat,
                    ) by {
                        assert(rest[i] == pre.frames[i]);
                    }
                }
                lemma_call_end_keeps_scope(pre, post, rest, function, prev, base, mark, value);
            },
            _ => {
                lemma_calls_take(pre.frames, k + 1, pre.envs, pre.locals);
            },
        }
    }
}

/// The methods of a class body are made of its functions.
pub proof fn lemma_methods_of_fit(
    methods: Seq<Func>,
    closure: usize,
    n: nat,
    k: nat,
    locals: Map<u64, usize>,
    name: Seq<char>,
)
    requires
        methods_fit(methods, 0, k, locals),
        n <= methods.len(),
        methods_of(methods, closure, n).contains_key(name),
    ensures
        stmts_fit(methods_of(methods, closure, n)[name].decl.body@, 0, k, locals),
        methods_of(methods, closure, n)[name].closure == closure,
    decreases n,
{
    if n > 0 {
        if methods[n - 1].name.name() == name {
            lemma_methods_fit_each(methods, 0, k, locals, n - 1);
        } else {
            lemma_methods_of_fit(methods, closure, (n - 1) as nat, k, locals, name);
        }
    }
}

/// One step of a statement keeps the state fitting.
#[verifier::spinoff_prover]
#[verifier::rlimit(50)]
pub proof fn lemma_stmt_keeps_scope<'a>(
    pre: State<'a>,
    post: State<'a>,
    stmt: &'a Stmt,
    phase: usize,
)
    requires
        pre.wf(),
        scoped(pre),
        stmt_fits(stmt, chain_length(pre.envs, pre.env), pre.locals),
        stmt_step(pre, post, stmt, phase),
    ensures
        scoped(post),
{
    let k = chain_length(pre.envs, pre.env);
    let again = Frame::Stmt { stmt, phase: 1 };
    let waiting = pre.frames.push(again);
    lemma_scoped_push(pre.frames, again, pre.env, pre.envs, pre.locals);
    lemma_calls_push(pre.frames, again, pre.envs, pre.locals);
    match stmt {
        Stmt::ExprStmt(e) => {
            if phase == 0 {
                let next = Frame::Expr { expr: e, phase: 0 };
                lemma_scoped_push(waiting, next, pre.env, pre.envs, pre.locals);
                lemma_calls_push(waiting, next, pre.envs, pre.locals);
            }
        },
        Stmt::Var(v) => {
            match v.initializer {
                Some(init) => {
                    if phase == 0 {
                        let next = Frame::Expr { expr: &init, phase: 0 };
                        lemma_scoped_push(waiting, next, pre.env, pre.envs, pre.locals);
                        lemma_calls_push(waiting, next, pre.envs, pre.locals);
                    } else {
                        lemma_binding_keeps_scope(
                            pre,
                            post,
                            pre.env,
                            v.token.name(),
                            peek(pre.values, 0),
                        );
                    }
                },
                None => {
                    lemma_binding_keeps_scope(pre, post, pre.env, v.token.name(), Object::Nil);
                },
            }
        },
        Stmt::Block(b) => {
            let frame = Frame::Block {
                stmts: &b.stmts,
                next: 0,
                prev: pre.env,
                mark: pre.envs.len() as usize,
            };
            lemma_extended_links(pre.envs, post.envs, pre.env, Map::empty());
            lemma_transfer(pre, post.envs, pre.envs.len());
            lemma_extended_rooted(pre.envs, post.envs, pre.env, Map::empty());
            lemma_extended_chain(pre.envs, post.envs, pre.env, Map::empty());
            lemma_scoped_begin(pre.frames, frame, post.env, post.envs, post.locals);
            lemma_calls_push(pre.frames, frame, post.envs, post.locals);
        },
        Stmt::If(s) => {
            if phase == 0 {
                let next = Frame::Expr { expr: &s.condition, phase: 0 };
                lemma_scoped_push(waiting, next, pre.env, pre.envs, pre.locals);
                lemma_calls_push(waiting, next, pre.envs, pre.locals);
            } else if truthy(peek(pre.values, 0)@) {
                let next = Frame::Stmt { stmt: &*s.then_block, phase: 0 };
                lemma_scoped_push(pre.frames, next, pre.env, pre.envs, pre.locals);
                lemma_calls_push(pre.frames, next, pre.envs, pre.locals);
            } else {
                match s.else_block {
                    Some(e) => {
                        let next = Frame::Stmt { stmt: &*e, phase: 0 };
                        lemma_scoped_push(pre.frames, next, pre.env, pre.envs, pre.locals);
                        lemma_calls_push(pre.frames, next, pre.envs, pre.locals);
                    },
                    None => {},
                }
            }
        },
        Stmt::While(s) => {
            if phase == 0 {
                let next = Frame::Expr { expr: &s.condition, phase: 0 };
                lemma_scoped_push(waiting, next, pre.env, pre.envs, pre.locals);
                lemma_calls_push(waiting, next, pre.envs, pre.locals);
            } else if truthy(peek(pre.values, 0)@) {
                let first = Frame::Stmt { stmt, phase: 0 };
                let next = Frame::Stmt { stmt: &*s.body, phase: 0 };
                lemma_scoped_push(pre.frames, first, pre.env, pre.envs, pre.locals);
                lemma_calls_push(pre.frames, first, pre.envs, pre.locals);
                lemma_scoped_push(pre.frames.push(first), next, pre.env, pre.envs, pre.locals);
                lemma_calls_push(pre.frames.push(first), next, pre.envs, pre.locals);
            }
        },
        Stmt::Func(f) => {
            let made = Function { decl: f, closure: pre.env, is_init: false };
            lemma_binding_keeps_scope(
                pre,
                State { functions: pre.functions, pinned: pre.pinned, ..post },
                pre.env,
                f.name.name(),
                Object::Func(pre.functions.len() as usize),
            );
            lemma_bound_links(
                pre.envs,
                post.envs,
                pre.env,
                f.name.name(),
                Object::Func(pre.functions.len() as usize),
            );
            lemma_chain_length_agrees(pre.envs, post.envs, pre.envs.len(), pre.env);
            assert forall|h: int| 0 <= h < post.functions.len() implies function_fits(
                #[trigger] post.functions[h],
                post.envs,
                post.locals,
            ) by {
                if h < pre.functions.len() {
                    assert(post.functions[h] == pre.functions[h]);
                }
            }
        },
        Stmt::Return(r) => {
            match r.value {
                Some(v) => {
                    if phase == 0 {
                        let next = Frame::Expr { expr: &v, phase: 0 };
                        lemma_scoped_push(waiting, next, pre.env, pre.envs, pre.locals);
                        lemma_calls_push(waiting, next, pre.envs, pre.locals);
                    } else {
                        lemma_return_keeps_scope(
                            State { values: popped(pre.values, 1), ..pre },
                            post,
                            peek(pre.values, 0),
                        );
                    }
                },
                None => {
                    lemma_return_keeps_scope(pre, post, Object::Nil);
                },
            }
        },
        Stmt::Class(c) => {
            lemma_binding_keeps_scope(
                pre,
                State { classes: pre.classes, pinned: pre.pinned, ..post },
                pre.env,
                c.name.name(),
                Object::Class(pre.classes.len() as usize),
            );
            lemma_bound_links(
                pre.envs,
                post.envs,
                pre.env,
                c.name.name(),
                Object::Class(pre.classes.len() as usize),
            );
            lemma_chain_length_agrees(pre.envs, post.envs, pre.envs.len(), pre.env);
            assert forall|i: int, name: Seq<char>|
                0 <= i < post.classes.len() && (#[trigger] post.classes[i]).methods@.contains_key(
                    name,
                ) implies method_fits(
                #[trigger] post.classes[i].methods@[name],
                post.envs,
                post.locals,
            ) by {
                if i < pre.classes.len() {
                    assert(post.classes[i] == post.classes.take(pre.classes.len() as int)[i]);
                } else {
                    lemma_methods_of_fit(
                        c.methods@,
                        pre.env,
                        c.methods@.len(),
                        k + 2,
                        pre.locals,
                        name,
                    );
                }
            }
        },
    }
}

/// One more frame that is no block and no call, and fits, keeps the state fitting.
pub proof fn lemma_schedule_keeps_scope<'a>(pre: State<'a>, post: State<'a>, frame: Frame<'a>)
    requires
        scoped(pre),
        post.frames == pre.frames.push(frame),
        post.env == pre.env,
        post.same_store(pre),
        frame_fits(frame, chain_length(pre.envs, pre.env), pre.locals),
        !(frame is Block),
        !(frame is Call),
    ensures
        scoped(post),
{
    lemma_scoped_push(pre.frames, frame, pre.env, pre.envs, pre.locals);
    lemma_calls_push(pre.frames, frame, pre.envs, pre.locals);
}

/// Two more frames that are no blocks and no calls, and fit, keep the state fitting.
pub proof fn lemma_schedule_two_keeps_scope<'a>(
    pre: State<'a>,
    post: State<'a>,
    first: Frame<'a>,
    second: Frame<'a>,
)
    requires
        scoped(pre),
        post.frames == pre.frames.push(first).push(second),
        post.env == pre.env,
        post.same_store(pre),
        frame_fits(first, chain_length(pre.envs, pre.env), pre.locals),
        frame_fits(second, chain_length(pre.envs, pre.env), pre.locals),
        !(first is Block),
        !(first is Call),
        !(second is Block),
        !(second is Call),
    ensures
        scoped(post),
{
    lemma_scoped_push(pre.frames, first, pre.env, pre.envs, pre.locals);
    lemma_calls_push(pre.frames, first, pre.envs, pre.locals);
    lemma_scoped_push(pre.frames.push(first), second, pre.env, pre.envs, pre.locals);
    lemma_calls_push(pre.frames.push(first), second, pre.envs, pre.locals);
}

/// The beginning of a call of a function that fits keeps the state fitting.
pub proof fn lemma_call_keeps_scope<'a>(
    pre: State<'a>,
    post: State<'a>,
    action: Action,
    function: Function<'a>,
    args: Seq<Object>,
    token: Token,
)
    requires
        pre.wf(),
        scoped(pre),
        function.closure < pre.pinned,
        function_fits(function, pre.envs, pre.locals),
        calls(pre, post, action, function, args, token),
    ensures
        scoped(post),
{
    if args.len() == function.decl.params@.len() {
        let bindings = params_map(function.decl.params@, args, args.len());
        let call = Frame::Call {
            function,
            prev: pre.env,
            base: pre.values.len() as usize,
            mark: pre.envs.len() as usize,
        };
        let body = Frame::Block {
            stmts: &function.decl.body,
            next: 0,
            prev: pre.env,
            mark: pre.envs.len() as usize,
        };
        lemma_extended_links(pre.envs, post.envs, function.closure, bindings);
        lemma_transfer(pre, post.envs, pre.envs.len());
        lemma_extended_rooted(pre.envs, post.envs, function.closure, bindings);
        lemma_extended_chain(pre.envs, post.envs, function.closure, bindings);
        lemma_chain_length_agrees(pre.envs, post.envs, pre.envs.len(), function.closure);
        lemma_scoped_begin(pre.frames, call, pre.env, post.envs, post.locals);
        lemma_calls_push(pre.frames, call, post.envs, post.locals);
        lemma_scoped_begin(pre.frames.push(call), body, post.env, post.envs, post.locals);
        lemma_calls_push(pre.frames.push(call), body, post.envs, post.locals);
    }
}

/// The beginning of a call of a class keeps the state fitting.
#[verifier::spinoff_prover]
pub proof fn lemma_instantiate_keeps_scope<'a>(
    pre: State<'a>,
    post: State<'a>,
    action: Action,
    h: usize,
    args: Seq<Object>,
    token: Token,
)
    requires
        pre.wf(),
        scoped(pre),
        h < pre.classes.len(),
        instantiates(pre, post, action, h, args, token),
    ensures
        scoped(post),
{
    let class = pre.classes[h as int];
    if class.methods@.contains_key("init"@) {
        let init = class.methods@["init"@];
        if args.len() == init.decl.params@.len() {
            let mid = post.envs.drop_last();
            let this_env = pre.envs.len() as usize;
            let bound = Function { decl: init.decl, closure: this_env, is_init: init.is_init };
            let bindings = params_map(init.decl.params@, args, args.len());
            let instance = pre.instances.len() as usize;
            let call = Frame::Call {
                function: bound,
                prev: pre.env,
                base: pre.values.len() as usize,
                mark: (pre.envs.len() + 1) as usize,
            };
            let body = Frame::Block {
                stmts: &init.decl.body,
                next: 0,
                prev: pre.env,
                mark: (pre.envs.len() + 1) as usize,
            };
            assert(crate::machine::class_ok(class, pre.pinned as nat));
            assert(method_fits(init, pre.envs, pre.locals));
            lemma_extended_links(pre.envs, mid, init.closure, this_binding(instance));
            lemma_extended_links(mid, post.envs, this_env, bindings);
            assert(same_links(pre.envs, post.envs, pre.envs.len())) by {
                assert forall|i: int| 0 <= i < pre.envs.len() implies (#[trigger] pre.envs[i])
                    .enclosing == (#[trigger] post.envs[i]).enclosing by {
                    assert(mid[i].enclosing == pre.envs[i].enclosing);
                    assert(mid[i].enclosing == post.envs[i].enclosing);
                }
            }
            lemma_transfer(pre, post.envs, pre.envs.len());
            lemma_extended_rooted(pre.envs, mid, init.closure, this_binding(instance));
            lemma_extended_rooted(mid, post.envs, this_env, bindings);
            lemma_extended_chain(pre.envs, mid, init.closure, this_binding(instance));
            lemma_extended_chain(mid, post.envs, this_env, bindings);
            lemma_chain_length_agrees(mid, post.envs, mid.len(), this_env);
            assert(function_fits(bound, post.envs, post.locals));
            lemma_scoped_begin(pre.frames, call, pre.env, post.envs, post.locals);
            lemma_calls_push(pre.frames, call, post.envs, post.locals);
            lemma_scoped_begin(pre.frames.push(call), body, post.env, post.envs, post.locals);
            lemma_calls_push(pre.frames.push(call), body, post.envs, post.locals);
        }
    }
}

/// Reading a property keeps the state fitting.
#[verifier::spinoff_prover]
pub proof fn lemma_get_keeps_scope<'a>(
    pre: State<'a>,
    post: State<'a>,
    action: Action,
    object: Object,
    name: Token,
)
    requires
        pre.wf(),
        scoped(pre),
        gets(pre, post, action, object, name),
    ensures
        scoped(post),
{
    match object {
        Object::ClassInstance(i) => {
            if i < pre.instances.len() {
                let instance = pre.instances[i as int];
                if !instance.fields@.contains_key(name.name()) && instance.klass
                    < pre.classes.len() && pre.classes[instance.klass as int].methods@.contains_key(
                    name.name(),
                ) {
                    let class = pre.classes[instance.klass as int];
                    let method = class.methods@[name.name()];
                    let this_env = pre.envs.len() as usize;
                    assert(crate::machine::class_ok(class, pre.pinned as nat));
                    assert(method_fits(method, pre.envs, pre.locals));
                    lemma_extended_links(pre.envs, post.envs, method.closure, this_binding(i));
                    lemma_transfer(pre, post.envs, pre.envs.len());
                    lemma_extended_rooted(pre.envs, post.envs, method.closure, this_binding(i));
                    lemma_extended_chain(pre.envs, post.envs, method.closure, this_binding(i));
                    assert forall|h: int| 0 <= h < post.functions.len() implies function_fits(
                        #[trigger] post.functions[h],
                        post.envs,
                        post.locals,
                    ) by {
                        if h < pre.functions.len() {
                            assert(post.functions[h] == pre.functions[h]);
                        }
                    }
                }
            }
        },
        _ => {},
    }
}

/// Applying a callee to its arguments keeps the state fitting.
pub proof fn lemma_invoke_keeps_scope<'a>(
    pre: State<'a>,
    post: State<'a>,
    action: Action,
    callee: Object,
    args: Seq<Object>,
    token: &'a Token,
)
    requires
        pre.wf(),
        scoped(pre),
        invokes(pre, post, action, callee, args, token),
    ensures
        scoped(post),
{
    match callee {
        Object::Func(h) => {
            if h < pre.functions.len() {
                lemma_call_keeps_scope(pre, post, action, pre.functions[h as int], args, *token);
            }
        },
        Object::NativeFunc(n) => {
            if post.frames.len() > 0 && post.frames != pre.frames {
                lemma_schedule_keeps_scope(pre, post, post.frames.last());
                assert(post.frames == pre.frames.push(post.frames.last()));
            }
        },
        Object::Class(h) => {
            if h < pre.classes.len() {
                lemma_instantiate_keeps_scope(pre, post, action, h, args, *token);
            }
        },
        _ => {},
    }
}

/// An assignment keeps the state fitting.
pub proof fn lemma_assign_keeps_scope<'a>(
    pre: State<'a>,
    post: State<'a>,
    action: Action,
    id: u64,
    name: Token,
    value: Object,
)
    requires
        pre.wf(),
        scoped(pre),
        assigns(pre, post, action, id, name, value),
    ensures
        scoped(post),
{
    let target = if pre.locals.contains_key(id) {
        ancestor_of(pre.envs, pre.env, pre.locals[id] as nat)
    } else {
        Some(0usize)
    };
    match target {
        Some(frame) => {
            lemma_binding_keeps_scope(pre, post, frame, name.name(), value);
        },
        None => {},
    }
}

/// Acting on what an operator led to keeps the state fitting.
pub proof fn lemma_apply_keeps_scope<'a>(
    pre: State<'a>,
    post: State<'a>,
    action: Action,
    outcome: Outcome,
    token: &'a Token,
)
    requires
        pre.wf(),
        scoped(pre),
        applies(pre, post, action, outcome, token),
    ensures
        scoped(post),
{
    match outcome {
        Outcome::Ask { .. } => {
            lemma_schedule_keeps_scope(
                pre,
                post,
                Frame::Host { token, wait: crate::machine::Wait::Arithmetic },
            );
        },
        _ => {},
    }
}

/// One step of an expression keeps the state fitting.
#[verifier::spinoff_prover]
#[verifier::rlimit(50)]
pub proof fn lemma_expr_keeps_scope<'a>(
    pre: State<'a>,
    post: State<'a>,
    action: Action,
    expr: &'a Expr,
    phase: usize,
)
    requires
        pre.wf(),
        scoped(pre),
        expr_fits(expr, chain_length(pre.envs, pre.env), pre.locals),
        expr_step(pre, post, action, expr, phase),
    ensures
        scoped(post),
{
    let k = chain_length(pre.envs, pre.env);
    let again = Frame::Expr { expr, phase: crate::machine::after(phase) };
    match expr {
        Expr::Literal(_) => {},
        Expr::Grouping(g) => {
            lemma_schedule_keeps_scope(pre, post, Frame::Expr { expr: &*g.expr, phase: 0 });
        },
        Expr::Unary(u) => {
            if phase == 0 {
                lemma_schedule_two_keeps_scope(
                    pre,
                    post,
                    again,
                    Frame::Expr { expr: &*u.right, phase: 0 },
                );
            } else {
                lemma_apply_keeps_scope(
                    State { values: popped(pre.values, 1), ..pre },
                    post,
                    action,
                    crate::operators::unary_outcome(u.operator.token_type, peek(pre.values, 0)@),
                    &u.operator,
                );
            }
        },
        Expr::Binary(b) => {
            if phase == 0 {
                lemma_schedule_two_keeps_scope(
                    pre,
                    post,
                    again,
                    Frame::Expr { expr: &*b.left, phase: 0 },
                );
            } else if phase == 1 {
                lemma_schedule_two_keeps_scope(
                    pre,
                    post,
                    again,
                    Frame::Expr { expr: &*b.right, phase: 0 },
                );
            } else {
                lemma_apply_keeps_scope(
                    State { values: popped(pre.values, 2), ..pre },
                    post,
                    action,
                    crate::operators::binary_outcome(
                        b.operator.token_type,
                        peek(pre.values, 1)@,
                        peek(pre.values, 0)@,
                    ),
                    &b.operator,
                );
            }
        },
        Expr::Logical(l) => {
            if phase == 0 {
                lemma_schedule_two_keeps_scope(
                    pre,
                    post,
                    again,
                    Frame::Expr { expr: &*l.left, phase: 0 },
                );
            } else {
                match crate::operators::short_circuits(
                    l.operator.token_type,
                    peek(pre.values, 0)@,
                ) {
                    Some(false) => {
                        lemma_schedule_keeps_scope(
                            pre,
                            State { values: pre.values, ..post },
                            Frame::Expr { expr: &*l.right, phase: 0 },
                        );
                    },
                    _ => {},
                }
            }
        },
        Expr::Var(_) => {},
        Expr::This(_) => {},
        Expr::Assign(a) => {
            if phase == 0 {
                lemma_schedule_two_keeps_scope(
                    pre,
                    post,
                    again,
                    Frame::Expr { expr: &*a.value, phase: 0 },
                );
            } else {
                lemma_assign_keeps_scope(
                    State { values: popped(pre.values, 1), ..pre },
                    post,
                    action,
                    a.id,
                    a.name,
                    peek(pre.values, 0),
                );
            }
        },
        Expr::Call(c) => {
            if phase == 0 {
                lemma_schedule_two_keeps_scope(
                    pre,
                    post,
                    again,
                    Frame::Expr { expr: &*c.calle, phase: 0 },
                );
            } else if phase <= c.arguments@.len() {
                lemma_exprs_fit_each(c.arguments@, 0, k, pre.locals, phase - 1);
                lemma_schedule_two_keeps_scope(
                    pre,
                    post,
                    again,
                    Frame::Expr { expr: &c.arguments@[phase - 1], phase: 0 },
                );
            } else {
                let n = c.arguments@.len();
                let under = popped(pre.values, n);
                lemma_invoke_keeps_scope(
                    State { values: popped(under, 1), ..pre },
                    post,
                    action,
                    peek(under, 0),
                    crate::machine::operands(pre.values, n),
                    &c.paren,
                );
            }
        },
        Expr::Get(g) => {
            if phase == 0 {
                lemma_schedule_two_keeps_scope(
                    pre,
                    post,
                    again,
                    Frame::Expr { expr: &*g.expr, phase: 0 },
                );
            } else {
                lemma_get_keeps_scope(
                    State { values: popped(pre.values, 1), ..pre },
                    post,
                    action,
                    peek(pre.values, 0),
                    g.name,
                );
            }
        },
        Expr::SetExpr(s) => {
            if phase == 0 {
                lemma_schedule_two_keeps_scope(
                    pre,
                    post,
                    again,
                    Frame::Expr { expr: &*s.expr, phase: 0 },
                );
            } else if phase == 1 {
                match peek(pre.values, 0) {
                    Object::ClassInstance(i) => {
                        if i < pre.instances.len() {
                            lemma_schedule_two_keeps_scope(
                                pre,
                                post,
                                again,
                                Frame::Expr { expr: &*s.value, phase: 0 },
                            );
                        }
                    },
                    _ => {},
                }
            }
        },
    }
}

/// One step of a request to the host keeps the state fitting.
pub proof fn lemma_host_keeps_scope<'a>(
    pre: State<'a>,
    post: State<'a>,
    action: Action,
    token: &'a Token,
    wait: crate::machine::Wait,
    event: Event,
)
    requires
        pre.wf(),
        scoped(pre),
        host_step(pre, post, action, token, wait, event),
    ensures
        scoped(post),
{
    match event {
        Event::Resume => {
            if wait == crate::machine::Wait::Prompt {
                lemma_schedule_keeps_scope(
                    pre,
                    post,
                    Frame::Host { token, wait: crate::machine::Wait::Line },
                );
            }
        },
        _ => {},
    }
}

/// Scoping is kept by every step: if a state fits the recorded depths, the
/// state after one step of the machine fits them too.
#[verifier::spinoff_prover]
#[verifier::rlimit(50)]
pub proof fn lemma_step_keeps_scope<'a>(
    pre: State<'a>,
    event: Event,
    post: State<'a>,
    action: Action,
)
    requires
        pre.wf(),
        scoped(pre),
        step_spec(pre, event, post, action),
    ensures
        scoped(post),
{
    if pre.frames.len() > 0 {
        let top = pre.frames.last();
        let rest = State { frames: pre.frames.drop_last(), ..pre };
        let k = chain_length(pre.envs, pre.env);
        lemma_calls_take(pre.frames, pre.frames.len() - 1, pre.envs, pre.locals);
        assert(pre.frames.take(pre.frames.len() - 1) == rest.frames);
        assert(frames_ok(rest.frames, pre.pinned as nat)) by {
            assert forall|i: int| 0 <= i < rest.frames.len() implies crate::machine::frame_ok(
                #[trigger] rest.frames[i],
                pre.pinned as nat,
            ) by {
                assert(rest.frames[i] == pre.frames[i]);
            }
        }
        match top {
            Frame::Program { stmts, next } => {
                if next < stmts@.len() {
                    lemma_stmts_fit_each(stmts@, 0, 0, pre.locals, next as int);
                    lemma_schedule_two_keeps_scope(
                        rest,
                        post,
                        Frame::Program { stmts, next: (next + 1) as usize },
                        Frame::Stmt { stmt: &stmts@[next as int], phase: 0 },
                    );
                }
            },
            Frame::Block { stmts, next, prev, mark } => {
                if next < stmts@.len() {
                    let again = Frame::Block { stmts, next: (next + 1) as usize, prev, mark };
                    let stmt = Frame::Stmt { stmt: &stmts@[next as int], phase: 0 };
                    lemma_stmts_fit_each(stmts@, 0, k, pre.locals, next as int);
                    lemma_scoped_begin(rest.frames, again, pre.env, pre.envs, pre.locals);
                    lemma_calls_push(rest.frames, again, pre.envs, pre.locals);
                    lemma_scoped_push(
                        rest.frames.push(again),
                        stmt,
                        pre.env,
                        pre.envs,
                        pre.locals,
                    );
                    lemma_calls_push(rest.frames.push(again), stmt, pre.envs, pre.locals);
                } else {
                    lemma_reclaim_keeps_scope(
                        rest.frames,
                        prev,
                        pre.envs,
                        pre.pinned,
                        mark,
                        pre.functions,
                        pre.classes,
                        pre.locals,
                    );
                }
            },
            Frame::Stmt { stmt, phase } => {
                lemma_stmt_keeps_scope(rest, post, stmt, phase);
            },
            Frame::Expr { expr, phase } => {
                lemma_expr_keeps_scope(rest, post, action, expr, phase);
            },
            Frame::Call { function, prev, base, mark } => {
                lemma_call_end_keeps_scope(
                    rest,
                    post,
                    rest.frames,
                    function,
                    prev,
                    base,
                    mark,
                    Object::Nil,
                );
            },
            Frame::Host { token, wait } => {
                lemma_host_keeps_scope(rest, post, action, token, wait, event);
            },
        }
    }
}

/// A machine in which nothing is pending and no function or class is made
/// fits whatever depths are recorded.
pub proof fn lemma_idle_fits(st: State)
    requires
        st.frames.len() == 0,
        st.functions.len() == 0,
        st.classes.len() == 0,
        st.envs.len() == 1,
    ensures
        scoped(st),
{
}

/// Loading a program whose statements fit no scope into a machine in which
/// nothing is pending keeps the machine fitting.
pub proof fn lemma_loaded_fits<'a>(pre: State<'a>, post: State<'a>, stmts: &'a Vec<Stmt>)
    requires
        pre.wf(),
        scoped(pre),
        pre.frames.len() == 0,
        post.frames == pre.frames.push(Frame::Program { stmts, next: 0 }),
        post.env == 0,
        post.same_store(pre),
        stmts_fit(stmts@, 0, 0, pre.locals),
    ensures
        scoped(post),
{
    let frame = Frame::Program { stmts, next: 0 };
    assert(pre.frames.push(frame).drop_last() == pre.frames);
    assert(chain_length(post.envs, 0) == 0);
    assert(frames_scoped(pre.frames, 0, post.envs, post.locals));
    assert(frame_fits(frame, 0, post.locals));
    lemma_scoped_push(pre.frames, frame, 0, post.envs, post.locals);
    lemma_calls_push(pre.frames, frame, pre.envs, pre.locals);
}

/// Scoping is kept by every run: if the first state of a run of steps fits
/// the recorded depths, every state of the run does.
pub proof fn lemma_run_keeps_scope<'a>(
    states: Seq<State<'a>>,
    first: Event,
    action: Action,
    i: int,
)
    requires
        crate::machine::run_spec(states, first, action),
        forall|j: int| 0 <= j < states.len() ==> (#[trigger] states[j]).wf(),
        scoped(states[0]),
        0 <= i < states.len(),
    ensures
        scoped(states[i]),
    decreases i,
{
    if i > 0 {
        lemma_run_keeps_scope(states, first, action, i - 1);
        if i - 1 < states.len() - 2 {
            lemma_step_keeps_scope(
                states[i - 1],
                crate::machine::event_of(first, i - 1),
                states[i],
                Action::Continue,
            );
        } else {
            lemma_step_keeps_scope(
                states[i - 1],
                crate::machine::event_of(first, i - 1),
                states[i],
                action,
            );
        }
    }
}

} // verus!
