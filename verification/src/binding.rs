//! Bindings: a read at a recorded depth finds a binding.
//!
//! This module shows that the machine keeps every environment of the
//! current chain binding the names that are defined in the scope that the
//! environment was made for, so that a variable that the resolver found in
//! an open scope is bound where the machine reads it.

use vstd::prelude::*;
use crate::environment::{Environment, ancestor_of, bound_in, envs_ordered, value_at};
use crate::expressions::Expr;
use crate::machine::{
    Action, Event, Frame, State, Wait, after, applies, assigns, boundary, calls, classes_wf,
    expr_step, extended, frames_marked, frames_ok, functions_ok, gets, host_step,
    instantiates, invokes, methods_of, operands, params_map, peek, popped, reclaimed,
    return_unwinds, step_spec, stmt_step, this_binding,
};
use crate::naming::{
    Names, body_scopes, declares, expr_named, lemma_methods_named_each, method_scopes,
    methods_named, param_names, scopes_after, stmt_named, stmts_named, with_name,
};
use crate::operators::{Outcome, binary_outcome, short_circuits, unary_outcome};
use crate::scanner::Token;
use crate::scoping::{below, chain_length, lemma_chain_length_agrees, same_links};
use crate::statements::{Func, Stmt};
use crate::types::{Function, LoxClass, NativeFunc, Object, truthy};

verus! {

/// The environment `distance` links out from `env` exists and binds `name`.
pub open spec fn bound_at(envs: Seq<Environment>, env: usize, distance: nat, name: Seq<char>)
    -> bool {
    match ancestor_of(envs, env, distance) {
        Some(a) => a < envs.len() && envs[a as int].values@.contains_key(name),
        None => false,
    }
}

/// The scope `distance` scopes out from the innermost defines `name`.
pub open spec fn defined_at(scopes: Names, distance: nat, name: Seq<char>) -> bool {
    distance < scopes.len() && scopes[scopes.len() - 1 - distance].contains(name)
}

/// The chain of environments around `env` binds the names that are defined
/// in the scopes: the chain has one environment for each scope, besides the
/// globals, and each binds the names of its scope.
pub open spec fn covers(scopes: Names, envs: Seq<Environment>, env: usize) -> bool {
    &&& env < envs.len()
    &&& chain_length(envs, env) == scopes.len()
    &&& forall|j: nat, name: Seq<char>| #[trigger]
        defined_at(scopes, j, name) ==> bound_at(envs, env, j, name)
}

/// The second list of environments has the links of the first in its first
/// `n` environments, and binds there what the first binds.
pub open spec fn grown(a: Seq<Environment>, b: Seq<Environment>, n: nat) -> bool {
    &&& same_links(a, b, n)
    &&& forall|i: int, name: Seq<char>|
        0 <= i < n && #[trigger] a[i].values@.contains_key(name) ==> b[i].values@.contains_key(
            name,
        )
}

/// Walks along a chain are the same in lists of environments with the same links.
pub proof fn lemma_ancestor_agrees(
    a: Seq<Environment>,
    b: Seq<Environment>,
    n: nat,
    env: usize,
    distance: nat,
)
    requires
        same_links(a, b, n),
        envs_ordered(a),
        env < n,
    ensures
        ancestor_of(a, env, distance) == ancestor_of(b, env, distance),
        ancestor_of(a, env, distance) matches Some(x) ==> x < n,
    decreases distance,
{
    if distance > 0 {
        assert(a[env as int].enclosing == b[env as int].enclosing);
        match a[env as int].enclosing {
            Some(p) => {
                lemma_ancestor_agrees(a, b, n, p, (distance - 1) as nat);
            },
            None => {},
        }
    }
}

/// What a chain binds, it binds when its environments have grown.
pub proof fn lemma_covers_grown(
    scopes: Names,
    a: Seq<Environment>,
    b: Seq<Environment>,
    n: nat,
    env: usize,
)
    requires
        covers(scopes, a, env),
        grown(a, b, n),
        envs_ordered(a),
        env < n,
    ensures
        covers(scopes, b, env),
{
    lemma_chain_length_agrees(a, b, n, env);
    assert forall|j: nat, name: Seq<char>| #[trigger]
        defined_at(scopes, j, name) implies bound_at(b, env, j, name) by {
        assert(bound_at(a, env, j, name));
        lemma_ancestor_agrees(a, b, n, env, j);
        let x = ancestor_of(a, env, j)->Some_0;
        assert(a[x as int].values@.contains_key(name));
    }
}

/// A read that is named finds a binding where the chain binds the names in scope.
pub proof fn lemma_named_read_is_bound(
    scopes: Names,
    envs: Seq<Environment>,
    env: usize,
    depth: nat,
    name: Seq<char>,
)
    requires
        covers(scopes, envs, env),
        depth < scopes.len(),
        scopes[scopes.len() - 1 - depth].contains(name),
    ensures
        value_at(envs, env, depth, name) is Some,
{
    assert(defined_at(scopes, depth, name));
    assert(bound_at(envs, env, depth, name));
}

/// A binding makes the environments grow.
pub proof fn lemma_bound_grown(
    pre: Seq<Environment>,
    post: Seq<Environment>,
    a: usize,
    name: Seq<char>,
    value: Object,
)
    requires
        bound_in(pre, post, a, name, value),
    ensures
        grown(pre, post, pre.len()),
{
    assert forall|i: int| 0 <= i < pre.len() implies (#[trigger] pre[i]).enclosing == (
    #[trigger] post[i]).enclosing by {
        if i != a {
            assert(post[i] == pre[i]);
        }
    }
    assert forall|i: int, other: Seq<char>|
        0 <= i < pre.len() && #[trigger] pre[i].values@.contains_key(other) implies post[i].values@
        .contains_key(other) by {
        if i != a {
            assert(post[i] == pre[i]);
        }
    }
}

/// One more environment makes the environments grow.
pub proof fn lemma_extended_grown(
    pre: Seq<Environment>,
    post: Seq<Environment>,
    enclosing: usize,
    bindings: Map<Seq<char>, Object>,
)
    requires
        extended(pre, post, enclosing, bindings),
    ensures
        grown(pre, post, pre.len()),
{
    assert forall|i: int| 0 <= i < pre.len() implies #[trigger] post[i] == pre[i] by {
        assert(post[i] == post.take(pre.len() as int)[i]);
    }
}

/// The environments that are left are grown from what they were.
pub proof fn lemma_reclaimed_grown(envs: Seq<Environment>, pinned: usize, mark: usize)
    ensures
        grown(envs, reclaimed(envs, pinned, mark), reclaimed(envs, pinned, mark).len()),
{
}

/// What has grown in its first `n` environments has grown in fewer.
pub proof fn lemma_grown_fewer(a: Seq<Environment>, b: Seq<Environment>, n: nat, m: nat)
    requires
        grown(a, b, n),
        m <= n,
    ensures
        grown(a, b, m),
{
}

/// After a name is bound in the current environment, the chain binds the
/// names in scope and the new name.
pub proof fn lemma_covers_defined(
    scopes: Names,
    pre: Seq<Environment>,
    post: Seq<Environment>,
    env: usize,
    name: Seq<char>,
    value: Object,
)
    requires
        covers(scopes, pre, env),
        bound_in(pre, post, env, name, value),
        envs_ordered(pre),
    ensures
        covers(with_name(scopes, name), post, env),
{
    lemma_bound_grown(pre, post, env, name, value);
    lemma_covers_grown(scopes, pre, post, pre.len(), env);
    let more = with_name(scopes, name);
    assert forall|j: nat, other: Seq<char>| #[trigger]
        defined_at(more, j, other) implies bound_at(post, env, j, other) by {
        if j == 0 && other == name {
            assert(post[env as int].values@.contains_key(name));
        } else {
            assert(defined_at(scopes, j, other));
        }
    }
}

/// A new environment that binds the names of a new scope makes a chain that
/// binds the names in scope.
pub proof fn lemma_covers_child(
    scopes: Names,
    top: Set<Seq<char>>,
    pre: Seq<Environment>,
    post: Seq<Environment>,
    enclosing: usize,
    bindings: Map<Seq<char>, Object>,
)
    requires
        covers(scopes, pre, enclosing),
        extended(pre, post, enclosing, bindings),
        forall|name: Seq<char>| top.contains(name) ==> bindings.contains_key(name),
        envs_ordered(pre),
        pre.len() <= usize::MAX,
    ensures
        covers(scopes.push(top), post, pre.len() as usize),
{
    let child = pre.len() as usize;
    let more = scopes.push(top);
    lemma_extended_grown(pre, post, enclosing, bindings);
    lemma_covers_grown(scopes, pre, post, pre.len(), enclosing);
    crate::scoping::lemma_extended_chain(pre, post, enclosing, bindings);
    assert(post[child as int] == post.last());
    assert forall|j: nat, name: Seq<char>| #[trigger]
        defined_at(more, j, name) implies bound_at(post, child, j, name) by {
        if j == 0 {
            assert(more[more.len() - 1] == top);
        } else {
            assert(more[more.len() - 1 - j] == scopes[scopes.len() - 1 - (j - 1)]);
            assert(defined_at(scopes, (j - 1) as nat, name));
            assert(bound_at(post, enclosing, (j - 1) as nat, name));
            assert(ancestor_of(post, child, j) == ancestor_of(post, enclosing, (j - 1) as nat));
        }
    }
}

/// The parameters of a call are bound to its arguments.
pub proof fn lemma_params_bound(params: Seq<Token>, args: Seq<Object>, n: nat, name: Seq<char>)
    requires
        exists|i: int| 0 <= i < n && params[i].name() == name,
        n <= params.len(),
        n <= args.len(),
    ensures
        params_map(params, args, n).contains_key(name),
    decreases n,
{
    if n > 0 && params[n - 1].name() != name {
        let i = choose|i: int| 0 <= i < n && params[i].name() == name;
        assert(0 <= i < n - 1 && params[i].name() == name);
        lemma_params_bound(params, args, (n - 1) as nat, name);
    }
}

/// The names of the parameters are the names of the tokens.
pub proof fn lemma_param_names(params: Seq<Token>, i: nat, name: Seq<char>)
    requires
        param_names(params, i).contains(name),
    ensures
        exists|j: int| i <= j < params.len() && params[j].name() == name,
    decreases params.len() - i,
{
    if i < params.len() {
        if params[i as int].name() != name {
            lemma_param_names(params, i + 1, name);
            let j = choose|j: int| i + 1 <= j < params.len() && params[j].name() == name;
            assert(i <= j < params.len() && params[j].name() == name);
        }
    }
}

/// What the frame holds is named, where `scopes` are the names defined
/// around it. The program itself is in no scope.
pub open spec fn frame_named(frame: Frame, scopes: Names, locals: Map<u64, usize>) -> bool {
    match frame {
        Frame::Program { stmts, next } => scopes.len() == 0 && stmts_named(
            stmts@,
            next as nat,
            scopes,
            locals,
        ),
        Frame::Block { stmts, next, .. } => stmts_named(stmts@, next as nat, scopes, locals),
        Frame::Stmt { stmt, .. } => stmt_named(stmt, scopes, locals),
        Frame::Expr { expr, .. } => expr_named(expr, scopes, locals),
        Frame::Call { .. } => true,
        Frame::Host { .. } => true,
    }
}

/// The names that are defined when the frame has run, where `scopes` are
/// defined when it begins.
pub open spec fn names_after(frame: Frame, scopes: Names) -> Names {
    match frame {
        Frame::Stmt { stmt, .. } => scopes_after(stmt, scopes),
        _ => scopes,
    }
}

/// The frames are named, each where the names of `stack` are defined: a
/// frame below a block or a call is run in the environment that the block
/// or call goes back to, whose chain binds the names defined around the
/// frame; a frame below another frame is run when that frame has run, with
/// the names that are defined then.
pub open spec fn frames_named(
    frames: Seq<Frame>,
    stack: Seq<Names>,
    envs: Seq<Environment>,
    locals: Map<u64, usize>,
) -> bool
    decreases frames.len(),
{
    &&& frames.len() == stack.len()
    &&& frames.len() > 0 ==> {
        let rest = frames.drop_last();
        let under = stack.drop_last();
        &&& frame_named(frames.last(), stack.last(), locals)
        &&& frames_named(rest, under, envs, locals)
        &&& rest.len() > 0 ==> match frames.last() {
            Frame::Block { prev, .. } => covers(under.last(), envs, prev),
            Frame::Call { prev, .. } => covers(under.last(), envs, prev),
            other => under.last() == names_after(other, stack.last()),
        }
    }
}

/// The body of the function is named where names are defined that the chain
/// of its closure binds.
pub open spec fn function_named(f: Function, envs: Seq<Environment>, locals: Map<u64, usize>)
    -> bool {
    exists|scopes: Names| #[trigger]
        covers(scopes, envs, f.closure) && stmts_named(
            f.decl.body@,
            0,
            body_scopes(scopes, f.decl.params@),
            locals,
        )
}

/// The body of the method is named where names and `this` are defined, and
/// the chain of its closure binds the names.
pub open spec fn method_named(f: Function, envs: Seq<Environment>, locals: Map<u64, usize>)
    -> bool {
    exists|scopes: Names| #[trigger]
        covers(scopes, envs, f.closure) && stmts_named(
            f.decl.body@,
            0,
            method_scopes(scopes, f.decl.params@),
            locals,
        )
}

/// Every function is named.
pub open spec fn functions_named(
    functions: Seq<Function>,
    envs: Seq<Environment>,
    locals: Map<u64, usize>,
) -> bool {
    forall|h: int| 0 <= h < functions.len() ==> function_named(#[trigger] functions[h], envs, locals)
}

/// Every method of every class is named.
pub open spec fn classes_named(
    classes: Seq<LoxClass>,
    envs: Seq<Environment>,
    locals: Map<u64, usize>,
) -> bool {
    forall|c: int, name: Seq<char>|
        0 <= c < classes.len() && (#[trigger] classes[c]).methods@.contains_key(name)
            ==> method_named(#[trigger] classes[c].methods@[name], envs, locals)
}

/// The function of every call in flight is named.
pub open spec fn calls_named(frames: Seq<Frame>, envs: Seq<Environment>, locals: Map<u64, usize>)
    -> bool {
    forall|i: int|
        0 <= i < frames.len() ==> (#[trigger] frames[i] matches Frame::Call { function, .. }
            ==> function_named(function, envs, locals))
}

/// The state binds what it reads: the frames are named where the names of
/// `stack` are defined, the chain of the current environment binds the
/// names defined around the innermost frame, and every function and method
/// is named.
pub open spec fn bound(st: State, stack: Seq<Names>) -> bool {
    &&& frames_named(st.frames, stack, st.envs, st.locals)
    &&& st.frames.len() > 0 ==> covers(stack.last(), st.envs, st.env)
    &&& functions_named(st.functions, st.envs, st.locals)
    &&& classes_named(st.classes, st.envs, st.locals)
    &&& calls_named(st.frames, st.envs, st.locals)
}

/// A read at a recorded depth finds a binding: in a state that binds what
/// it reads, a variable or `this` that is about to be evaluated and has a
/// recorded depth is bound in the environment that many links out from the
/// current one.
pub proof fn lemma_resolved_read_is_bound(st: State, stack: Seq<Names>)
    requires
        bound(st, stack),
        st.frames.len() > 0,
        st.frames.last() matches Frame::Expr { expr, .. } && match *expr {
            Expr::Var(v) => st.locals.contains_key(v.id),
            Expr::This(t) => st.locals.contains_key(t.id),
            _ => false,
        },
    ensures
        match *st.frames.last()->Expr_expr {
            Expr::Var(v) => st.variable(v.id, v.name.name()) is Some,
            Expr::This(t) => st.variable(t.id, t.keyword.name()) is Some,
            _ => true,
        },
{
    let scopes = stack.last();
    match *st.frames.last()->Expr_expr {
        Expr::Var(v) => {
            lemma_named_read_is_bound(
                scopes,
                st.envs,
                st.env,
                st.locals[v.id] as nat,
                v.name.name(),
            );
        },
        Expr::This(t) => {
            lemma_named_read_is_bound(
                scopes,
                st.envs,
                st.env,
                st.locals[t.id] as nat,
                t.keyword.name(),
            );
        },
        _ => {},
    }
}

/// Frames that are named stay named when the environments grow.
pub proof fn lemma_frames_named_grown(
    frames: Seq<Frame>,
    stack: Seq<Names>,
    a: Seq<Environment>,
    b: Seq<Environment>,
    n: nat,
    locals: Map<u64, usize>,
)
    requires
        frames_named(frames, stack, a, locals),
        frames_marked(frames, n),
        grown(a, b, n),
        envs_ordered(a),
    ensures
        frames_named(frames, stack, b, locals),
    decreases frames.len(),
{
    if frames.len() > 0 {
        let rest = frames.drop_last();
        let under = stack.drop_last();
        match frames.last() {
            Frame::Block { prev, mark, .. } => {
                lemma_grown_fewer(a, b, n, mark as nat);
                lemma_frames_named_grown(rest, under, a, b, mark as nat, locals);
                if rest.len() > 0 {
                    lemma_covers_grown(under.last(), a, b, mark as nat, prev);
                }
            },
            Frame::Call { prev, mark, .. } => {
                lemma_grown_fewer(a, b, n, mark as nat);
                lemma_frames_named_grown(rest, under, a, b, mark as nat, locals);
                if rest.len() > 0 {
                    lemma_covers_grown(under.last(), a, b, mark as nat, prev);
                }
            },
            _ => {
                lemma_frames_named_grown(rest, under, a, b, n, locals);
            },
        }
    }
}

/// Functions, methods and calls in flight that are named stay named when
/// the environments grow.
pub proof fn lemma_tables_named_grown(
    functions: Seq<Function>,
    classes: Seq<LoxClass>,
    frames: Seq<Frame>,
    a: Seq<Environment>,
    b: Seq<Environment>,
    n: nat,
    pinned: nat,
    locals: Map<u64, usize>,
)
    requires
        functions_named(functions, a, locals),
        classes_named(classes, a, locals),
        calls_named(frames, a, locals),
        functions_ok(functions, pinned),
        classes_wf(classes, pinned),
        frames_ok(frames, pinned),
        pinned <= n,
        grown(a, b, n),
        envs_ordered(a),
    ensures
        functions_named(functions, b, locals),
        classes_named(classes, b, locals),
        calls_named(frames, b, locals),
{
    assert forall|h: int| 0 <= h < functions.len() implies function_named(
        #[trigger] functions[h],
        b,
        locals,
    ) by {
        lemma_function_named_grown(functions[h], a, b, n, locals);
    }
    assert forall|c: int, name: Seq<char>|
        0 <= c < classes.len() && (#[trigger] classes[c]).methods@.contains_key(
            name,
        ) implies method_named(#[trigger] classes[c].methods@[name], b, locals) by {
        assert(crate::machine::class_ok(classes[c], pinned));
        let m = classes[c].methods@[name];
        let scopes = choose|scopes: Names| #[trigger]
            covers(scopes, a, m.closure) && stmts_named(
                m.decl.body@,
                0,
                method_scopes(scopes, m.decl.params@),
                locals,
            );
        lemma_covers_grown(scopes, a, b, n, m.closure);
    }
    assert forall|i: int| 0 <= i < frames.len() implies (#[trigger] frames[i] matches Frame::Call {
        function,
        ..
    } ==> function_named(function, b, locals)) by {
        if let Frame::Call { function, .. } = frames[i] {
            assert(crate::machine::frame_ok(frames[i], pinned));
            lemma_function_named_grown(function, a, b, n, locals);
        }
    }
}

/// A function that is named stays named when the environments grow.
pub proof fn lemma_function_named_grown(
    f: Function,
    a: Seq<Environment>,
    b: Seq<Environment>,
    n: nat,
    locals: Map<u64, usize>,
)
    requires
        function_named(f, a, locals),
        f.closure < n,
        grown(a, b, n),
        envs_ordered(a),
    ensures
        function_named(f, b, locals),
{
    let scopes = choose|scopes: Names| #[trigger]
        covers(scopes, a, f.closure) && stmts_named(
            f.decl.body@,
            0,
            body_scopes(scopes, f.decl.params@),
            locals,
        );
    lemma_covers_grown(scopes, a, b, n, f.closure);
}

/// One more frame that is no block and no call, and is named, keeps the
/// frames named, if the frame below it is run with the names that are
/// defined when it has run.
pub proof fn lemma_named_push(
    frames: Seq<Frame>,
    stack: Seq<Names>,
    frame: Frame,
    scopes: Names,
    envs: Seq<Environment>,
    locals: Map<u64, usize>,
)
    requires
        frames_named(frames, stack, envs, locals),
        frame_named(frame, scopes, locals),
        !(frame is Block),
        !(frame is Call),
        frames.len() > 0 ==> stack.last() == names_after(frame, scopes),
    ensures
        frames_named(frames.push(frame), stack.push(scopes), envs, locals),
{
    assert(frames.push(frame).drop_last() == frames);
    assert(stack.push(scopes).drop_last() == stack);
}

/// A block or a call that begins keeps the frames named, if the chain of
/// the environment that it goes back to binds the names defined around the
/// frame below it.
pub proof fn lemma_named_begin(
    frames: Seq<Frame>,
    stack: Seq<Names>,
    frame: Frame,
    scopes: Names,
    envs: Seq<Environment>,
    locals: Map<u64, usize>,
)
    requires
        frames_named(frames, stack, envs, locals),
        frame_named(frame, scopes, locals),
        frame is Block || frame is Call,
        frames.len() > 0 ==> covers(stack.last(), envs, crate::scoping::below(frame, 0)),
    ensures
        frames_named(frames.push(frame), stack.push(scopes), envs, locals),
{
    assert(frames.push(frame).drop_last() == frames);
    assert(stack.push(scopes).drop_last() == stack);
}

/// The first frames of frames that are named are named.
pub proof fn lemma_named_take(
    frames: Seq<Frame>,
    stack: Seq<Names>,
    envs: Seq<Environment>,
    locals: Map<u64, usize>,
    k: int,
)
    requires
        frames_named(frames, stack, envs, locals),
        0 <= k <= frames.len(),
    ensures
        frames_named(frames.take(k), stack.take(k), envs, locals),
    decreases frames.len(),
{
    if k < frames.len() {
        lemma_named_take(frames.drop_last(), stack.drop_last(), envs, locals, k);
        assert(frames.drop_last().take(k) == frames.take(k));
        assert(stack.drop_last().take(k) == stack.take(k));
    } else {
        assert(frames.take(k) == frames);
        assert(stack.take(k) == stack);
    }
}

/// The frame below a block or a call is run in an environment whose chain
/// binds the names defined around it.
pub proof fn lemma_named_at(
    frames: Seq<Frame>,
    stack: Seq<Names>,
    envs: Seq<Environment>,
    locals: Map<u64, usize>,
    k: int,
)
    requires
        frames_named(frames, stack, envs, locals),
        0 < k < frames.len(),
        frames[k] is Block || frames[k] is Call,
    ensures
        covers(stack[k - 1], envs, crate::scoping::below(frames[k], 0)),
    decreases frames.len(),
{
    if k < frames.len() - 1 {
        lemma_named_at(frames.drop_last(), stack.drop_last(), envs, locals, k);
    } else {
        assert(stack.drop_last().last() == stack[k - 1]);
    }
}

/// What a frame that is taken off is run with: the frames below it are
/// named, the frame below it is run with the names `after`, the chain of
/// the current environment binds the names `scopes`, and every function and
/// method is named.
pub open spec fn ready(st: State, under: Seq<Names>, scopes: Names, after: Names) -> bool {
    &&& frames_named(st.frames, under, st.envs, st.locals)
    &&& st.frames.len() > 0 ==> under.last() == after
    &&& covers(scopes, st.envs, st.env)
    &&& functions_named(st.functions, st.envs, st.locals)
    &&& classes_named(st.classes, st.envs, st.locals)
    &&& calls_named(st.frames, st.envs, st.locals)
}

/// One more frame that is no call keeps the calls in flight named.
pub proof fn lemma_calls_named_push(
    frames: Seq<Frame>,
    frame: Frame,
    envs: Seq<Environment>,
    locals: Map<u64, usize>,
)
    requires
        calls_named(frames, envs, locals),
        frame matches Frame::Call { function, .. } ==> function_named(function, envs, locals),
    ensures
        calls_named(frames.push(frame), envs, locals),
{
    let more = frames.push(frame);
    assert forall|i: int| 0 <= i < more.len() implies (#[trigger] more[i] matches Frame::Call {
        function,
        ..
    } ==> function_named(function, envs, locals)) by {
        if i < frames.len() {
            assert(more[i] == frames[i]);
        }
    }
}

/// The first frames of frames whose calls are named have calls that are named.
pub proof fn lemma_calls_named_take(
    frames: Seq<Frame>,
    k: int,
    envs: Seq<Environment>,
    locals: Map<u64, usize>,
)
    requires
        calls_named(frames, envs, locals),
        0 <= k <= frames.len(),
    ensures
        calls_named(frames.take(k), envs, locals),
{
    let fewer = frames.take(k);
    assert forall|i: int| 0 <= i < fewer.len() implies (#[trigger] fewer[i] matches Frame::Call {
        function,
        ..
    } ==> function_named(function, envs, locals)) by {
        assert(fewer[i] == frames[i]);
    }
}

/// A state whose frames and tables are those of a ready state, with
/// environments that have grown, binds what it reads if the chain of its
/// environment binds the names that its innermost frame is run with.
pub proof fn lemma_grown_keeps_bound(
    pre: State,
    under: Seq<Names>,
    scopes: Names,
    after: Names,
    post: State,
)
    requires
        pre.wf(),
        ready(pre, under, scopes, after),
        grown(pre.envs, post.envs, pre.envs.len()),
        post.frames == pre.frames,
        post.functions == pre.functions,
        post.classes == pre.classes,
        post.locals == pre.locals,
        post.frames.len() > 0 ==> covers(after, post.envs, post.env),
    ensures
        bound(post, under),
{
    lemma_frames_named_grown(
        pre.frames,
        under,
        pre.envs,
        post.envs,
        pre.envs.len(),
        pre.locals,
    );
    lemma_tables_named_grown(
        pre.functions,
        pre.classes,
        pre.frames,
        pre.envs,
        post.envs,
        pre.envs.len(),
        pre.pinned as nat,
        pre.locals,
    );
}

/// A state that differs from a ready state in its values alone binds what it reads.
pub proof fn lemma_values_keep_bound(pre: State, under: Seq<Names>, scopes: Names, post: State)
    requires
        ready(pre, under, scopes, scopes),
        post.frames == pre.frames,
        post.env == pre.env,
        post.envs == pre.envs,
        post.functions == pre.functions,
        post.classes == pre.classes,
        post.locals == pre.locals,
    ensures
        bound(post, under),
{
}

/// One more frame on a ready state, which is no block and no call and is
/// named where the frame that was taken off was run, binds what it reads.
pub proof fn lemma_one_keeps_bound<'a>(
    pre: State<'a>,
    under: Seq<Names>,
    scopes: Names,
    post: State<'a>,
    frame: Frame<'a>,
)
    requires
        ready(pre, under, scopes, names_after(frame, scopes)),
        frame_named(frame, scopes, pre.locals),
        !(frame is Block),
        !(frame is Call),
        post.frames == pre.frames.push(frame),
        post.env == pre.env,
        post.envs == pre.envs,
        post.functions == pre.functions,
        post.classes == pre.classes,
        post.locals == pre.locals,
    ensures
        bound(post, under.push(scopes)),
{
    lemma_named_push(pre.frames, under, frame, scopes, pre.envs, pre.locals);
    lemma_calls_named_push(pre.frames, frame, pre.envs, pre.locals);
}

/// Two more frames on a ready state, which are no blocks and no calls: the
/// first goes on where the frame that was taken off was run, the second is
/// run before it and defines nothing.
pub proof fn lemma_two_keep_bound<'a>(
    pre: State<'a>,
    under: Seq<Names>,
    scopes: Names,
    post: State<'a>,
    first: Frame<'a>,
    second: Frame<'a>,
)
    requires
        ready(pre, under, scopes, names_after(first, scopes)),
        frame_named(first, scopes, pre.locals),
        frame_named(second, scopes, pre.locals),
        names_after(second, scopes) == scopes,
        !(first is Block),
        !(first is Call),
        !(second is Block),
        !(second is Call),
        post.frames == pre.frames.push(first).push(second),
        post.env == pre.env,
        post.envs == pre.envs,
        post.functions == pre.functions,
        post.classes == pre.classes,
        post.locals == pre.locals,
    ensures
        bound(post, under.push(scopes).push(scopes)),
{
    lemma_named_push(pre.frames, under, first, scopes, pre.envs, pre.locals);
    lemma_calls_named_push(pre.frames, first, pre.envs, pre.locals);
    lemma_named_push(
        pre.frames.push(first),
        under.push(scopes),
        second,
        scopes,
        pre.envs,
        pre.locals,
    );
    lemma_calls_named_push(pre.frames.push(first), second, pre.envs, pre.locals);
}

/// A binding in the current environment of a ready state, for the name that
/// the statement that was taken off declares, or none.
pub proof fn lemma_define_keeps_bound(
    pre: State,
    under: Seq<Names>,
    scopes: Names,
    post: State,
    name: Seq<char>,
    value: Object,
)
    requires
        pre.wf(),
        ready(pre, under, scopes, with_name(scopes, name)),
        bound_in(pre.envs, post.envs, pre.env, name, value),
        post.frames == pre.frames,
        post.env == pre.env,
        post.functions == pre.functions,
        post.classes == pre.classes,
        post.locals == pre.locals,
    ensures
        bound(post, under),
        covers(with_name(scopes, name), post.envs, post.env),
{
    lemma_bound_grown(pre.envs, post.envs, pre.env, name, value);
    lemma_covers_defined(scopes, pre.envs, post.envs, pre.env, name, value);
    lemma_grown_keeps_bound(pre, under, scopes, with_name(scopes, name), post);
}

/// The methods of a class body are named as its functions are.
pub proof fn lemma_methods_of_named(
    methods: Seq<Func>,
    closure: usize,
    n: nat,
    scopes: Names,
    locals: Map<u64, usize>,
    name: Seq<char>,
)
    requires
        methods_named(methods, 0, scopes, locals),
        n <= methods.len(),
        methods_of(methods, closure, n).contains_key(name),
    ensures
        stmts_named(
            methods_of(methods, closure, n)[name].decl.body@,
            0,
            method_scopes(scopes, methods_of(methods, closure, n)[name].decl.params@),
            locals,
        ),
        methods_of(methods, closure, n)[name].closure == closure,
    decreases n,
{
    if n > 0 {
        if methods[n - 1].name.name() == name {
            lemma_methods_named_each(methods, 0, scopes, locals, n - 1);
        } else {
            lemma_methods_of_named(methods, closure, (n - 1) as nat, scopes, locals, name);
        }
    }
}

/// A `return` from a ready state leads to a state that binds what it reads.
pub proof fn lemma_return_keeps_bound<'a>(
    pre: State<'a>,
    under: Seq<Names>,
    scopes: Names,
    after: Names,
    post: State<'a>,
    value: Object,
) -> (next: Seq<Names>)
    requires
        pre.wf(),
        ready(pre, under, scopes, after),
        return_unwinds(pre, post, value),
    ensures
        bound(post, next),
{
    let k = boundary(pre.frames);
    if k < 0 {
        Seq::empty()
    } else {
        crate::laws::lemma_boundary_is_innermost(pre.frames);
        match pre.frames[k] {
            Frame::Call { function, prev, base, mark } => {
                let rest = pre.frames.take(k);
                let next = under.take(k);
                lemma_named_take(pre.frames, under, pre.envs, pre.locals, k);
                lemma_calls_named_take(pre.frames, k, pre.envs, pre.locals);
                crate::scoping::lemma_marked_at(pre.frames, pre.env, pre.envs.len(), k);
                assert(pre.frames.take(k + 1).drop_last() == rest);
                assert(pre.frames.take(k + 1).last() == pre.frames[k]);
                assert(frames_marked(rest, mark as nat));
                assert(frames_ok(rest, pre.pinned as nat)) by {
                    assert forall|i: int| 0 <= i < rest.len() implies crate::machine::frame_ok(
                        #[trigger] rest[i],
                        pre.pinned as nat,
                    ) by {
                        assert(rest[i] == pre.frames[i]);
                    }
                }
                if k > 0 {
                    lemma_named_at(pre.frames, under, pre.envs, pre.locals, k);
                    assert(next.last() == under[k - 1]);
                }
                lemma_reclaim_keeps_named(
                    rest,
                    next,
                    prev,
                    pre.envs,
                    pre.pinned,
                    mark,
                    pre.functions,
                    pre.classes,
                    pre.locals,
                );
                next
            },
            _ => {
                let next = under.take(k + 1);
                lemma_named_take(pre.frames, under, pre.envs, pre.locals, k + 1);
                lemma_calls_named_take(pre.frames, k + 1, pre.envs, pre.locals);
                assert(pre.frames.take(k + 1).last() == pre.frames[k]);
                assert(next.last() == under[k]);
                assert(frame_named(pre.frames[k], under[k], pre.locals));
                assert(crate::scoping::chain_length(pre.envs, 0) == 0);
                assert forall|j: nat, name: Seq<char>| #[trigger]
                    defined_at(under[k], j, name) implies bound_at(pre.envs, 0, j, name) by {}
                next
            },
        }
    }
}

/// Giving up the environments that a block or a call made keeps what is
/// left named.
pub proof fn lemma_reclaim_keeps_named(
    frames: Seq<Frame>,
    stack: Seq<Names>,
    env: usize,
    envs: Seq<Environment>,
    pinned: usize,
    mark: usize,
    functions: Seq<Function>,
    classes: Seq<LoxClass>,
    locals: Map<u64, usize>,
)
    requires
        frames_named(frames, stack, envs, locals),
        frames_marked(frames, mark as nat),
        env < mark <= envs.len(),
        frames.len() > 0 ==> covers(stack.last(), envs, env),
        functions_named(functions, envs, locals),
        classes_named(classes, envs, locals),
        calls_named(frames, envs, locals),
        functions_ok(functions, pinned as nat),
        classes_wf(classes, pinned as nat),
        frames_ok(frames, pinned as nat),
        pinned <= envs.len(),
        envs_ordered(envs),
    ensures
        frames_named(frames, stack, reclaimed(envs, pinned, mark), locals),
        frames.len() > 0 ==> covers(stack.last(), reclaimed(envs, pinned, mark), env),
        functions_named(functions, reclaimed(envs, pinned, mark), locals),
        classes_named(classes, reclaimed(envs, pinned, mark), locals),
        calls_named(frames, reclaimed(envs, pinned, mark), locals),
{
    let kept = reclaimed(envs, pinned, mark);
    lemma_reclaimed_grown(envs, pinned, mark);
    if pinned <= mark {
        lemma_frames_named_grown(frames, stack, envs, kept, mark as nat, locals);
        lemma_tables_named_grown(
            functions,
            classes,
            frames,
            envs,
            kept,
            mark as nat,
            pinned as nat,
            locals,
        );
        if frames.len() > 0 {
            lemma_covers_grown(stack.last(), envs, kept, mark as nat, env);
        }
    }
}

/// A block that begins on a ready state leads to a state that binds what it reads.
pub proof fn lemma_block_keeps_bound<'a>(
    pre: State<'a>,
    under: Seq<Names>,
    scopes: Names,
    post: State<'a>,
    stmts: &'a Vec<Stmt>,
)
    requires
        pre.wf(),
        ready(pre, under, scopes, scopes),
        stmts_named(stmts@, 0, scopes.push(Set::empty()), pre.locals),
        extended(pre.envs, post.envs, pre.env, Map::empty()),
        post.env == pre.envs.len(),
        post.frames == pre.frames.push(
            Frame::Block { stmts, next: 0, prev: pre.env, mark: pre.envs.len() as usize },
        ),
        post.functions == pre.functions,
        post.classes == pre.classes,
        post.locals == pre.locals,
    ensures
        bound(post, under.push(scopes.push(Set::empty()))),
{
    let frame = Frame::Block { stmts, next: 0, prev: pre.env, mark: pre.envs.len() as usize };
    let inner = scopes.push(Set::<Seq<char>>::empty());
    lemma_extended_grown(pre.envs, post.envs, pre.env, Map::empty());
    lemma_frames_named_grown(
        pre.frames,
        under,
        pre.envs,
        post.envs,
        pre.envs.len(),
        pre.locals,
    );
    lemma_tables_named_grown(
        pre.functions,
        pre.classes,
        pre.frames,
        pre.envs,
        post.envs,
        pre.envs.len(),
        pre.pinned as nat,
        pre.locals,
    );
    lemma_covers_grown(scopes, pre.envs, post.envs, pre.envs.len(), pre.env);
    lemma_covers_child(scopes, Set::empty(), pre.envs, post.envs, pre.env, Map::empty());
    lemma_named_begin(pre.frames, under, frame, inner, post.envs, post.locals);
    lemma_calls_named_push(pre.frames, frame, post.envs, post.locals);
    assert(under.push(inner).last() == inner);
}

/// A step of a statement from a ready state leads to a state that binds
/// what it reads, with the names that are returned.
#[verifier::spinoff_prover]
#[verifier::rlimit(50)]
pub proof fn lemma_stmt_keeps_bound<'a>(
    pre: State<'a>,
    under: Seq<Names>,
    scopes: Names,
    post: State<'a>,
    stmt: &'a Stmt,
    phase: usize,
) -> (next: Seq<Names>)
    requires
        pre.wf(),
        ready(pre, under, scopes, scopes_after(stmt, scopes)),
        stmt_named(stmt, scopes, pre.locals),
        stmt_step(pre, post, stmt, phase),
    ensures
        bound(post, next),
{
    let again = Frame::Stmt { stmt, phase: 1 };
    let waiting = under.push(scopes).push(scopes);
    match stmt {
        Stmt::ExprStmt(e) => {
            if phase == 0 {
                lemma_two_keep_bound(
                    pre,
                    under,
                    scopes,
                    post,
                    again,
                    Frame::Expr { expr: e, phase: 0 },
                );
                waiting
            } else {
                lemma_values_keep_bound(pre, under, scopes, post);
                under
            }
        },
        Stmt::Var(v) => {
            match v.initializer {
                Some(init) => {
                    if phase == 0 {
                        lemma_two_keep_bound(
                            pre,
                            under,
                            scopes,
                            post,
                            again,
                            Frame::Expr { expr: &init, phase: 0 },
                        );
                        waiting
                    } else {
                        lemma_define_keeps_bound(
                            pre,
                            under,
                            scopes,
                            post,
                            v.token.name(),
                            peek(pre.values, 0),
                        );
                        under
                    }
                },
                None => {
                    lemma_define_keeps_bound(
                        pre,
                        under,
                        scopes,
                        post,
                        v.token.name(),
                        Object::Nil,
                    );
                    under
                },
            }
        },
        Stmt::Block(b) => {
            lemma_block_keeps_bound(pre, under, scopes, post, &b.stmts);
            under.push(scopes.push(Set::empty()))
        },
        Stmt::If(s) => {
            if phase == 0 {
                lemma_two_keep_bound(
                    pre,
                    under,
                    scopes,
                    post,
                    again,
                    Frame::Expr { expr: &s.condition, phase: 0 },
                );
                waiting
            } else if truthy(peek(pre.values, 0)@) {
                lemma_one_keeps_bound(
                    pre,
                    under,
                    scopes,
                    post,
                    Frame::Stmt { stmt: &*s.then_block, phase: 0 },
                );
                under.push(scopes)
            } else {
                match s.else_block {
                    Some(e) => {
                        lemma_one_keeps_bound(
                            pre,
                            under,
                            scopes,
                            post,
                            Frame::Stmt { stmt: &*e, phase: 0 },
                        );
                        under.push(scopes)
                    },
                    None => {
                        lemma_values_keep_bound(pre, under, scopes, post);
                        under
                    },
                }
            }
        },
        Stmt::While(s) => {
            if phase == 0 {
                lemma_two_keep_bound(
                    pre,
                    under,
                    scopes,
                    post,
                    again,
                    Frame::Expr { expr: &s.condition, phase: 0 },
                );
                waiting
            } else if truthy(peek(pre.values, 0)@) {
                lemma_two_keep_bound(
                    pre,
                    under,
                    scopes,
                    post,
                    Frame::Stmt { stmt, phase: 0 },
                    Frame::Stmt { stmt: &*s.body, phase: 0 },
                );
                waiting
            } else {
                lemma_values_keep_bound(pre, under, scopes, post);
                under
            }
        },
        Stmt::Func(f) => {
            let made = Object::Func(pre.functions.len() as usize);
            let inner = with_name(scopes, f.name.name());
            lemma_define_keeps_bound(
                pre,
                under,
                scopes,
                State { functions: pre.functions, pinned: pre.pinned, ..post },
                f.name.name(),
                made,
            );
            assert forall|h: int| 0 <= h < post.functions.len() implies function_named(
                #[trigger] post.functions[h],
                post.envs,
                post.locals,
            ) by {
                if h < pre.functions.len() {
                    assert(post.functions[h] == pre.functions[h]);
                } else {
                    assert(covers(inner, post.envs, post.functions[h].closure));
                }
            }
            under
        },
        Stmt::Return(r) => {
            match r.value {
                Some(v) => {
                    if phase == 0 {
                        lemma_two_keep_bound(
                            pre,
                            under,
                            scopes,
                            post,
                            again,
                            Frame::Expr { expr: &v, phase: 0 },
                        );
                        waiting
                    } else {
                        lemma_return_keeps_bound(
                            State { values: popped(pre.values, 1), ..pre },
                            under,
                            scopes,
                            scopes,
                            post,
                            peek(pre.values, 0),
                        )
                    }
                },
                None => lemma_return_keeps_bound(pre, under, scopes, scopes, post, Object::Nil),
            }
        },
        Stmt::Class(c) => {
            let made = Object::Class(pre.classes.len() as usize);
            let inner = with_name(scopes, c.name.name());
            lemma_define_keeps_bound(
                pre,
                under,
                scopes,
                State { classes: pre.classes, pinned: pre.pinned, ..post },
                c.name.name(),
                made,
            );
            assert forall|k: int, name: Seq<char>|
                0 <= k < post.classes.len() && (#[trigger] post.classes[k]).methods@.contains_key(
                    name,
                ) implies method_named(
                #[trigger] post.classes[k].methods@[name],
                post.envs,
                post.locals,
            ) by {
                if k < pre.classes.len() {
                    assert(post.classes[k] == post.classes.take(pre.classes.len() as int)[k]);
                } else {
                    lemma_methods_of_named(
                        c.methods@,
                        pre.env,
                        c.methods@.len(),
                        inner,
                        pre.locals,
                        name,
                    );
                    assert(covers(inner, post.envs, post.classes[k].methods@[name].closure));
                }
            }
            under
        },
    }
}

/// One more environment, enclosed by an earlier one, keeps the links in order.
pub proof fn lemma_extended_ordered(
    pre: Seq<Environment>,
    post: Seq<Environment>,
    enclosing: usize,
    bindings: Map<Seq<char>, Object>,
)
    requires
        envs_ordered(pre),
        extended(pre, post, enclosing, bindings),
        enclosing < pre.len(),
    ensures
        envs_ordered(post),
{
    assert forall|i: int| 0 <= i < post.len() implies match (#[trigger] post[i]).enclosing {
        Some(p) => p < i,
        None => true,
    } by {
        if i < pre.len() {
            assert(post[i] == post.take(pre.len() as int)[i]);
            assert(match pre[i].enclosing {
                Some(p) => p < i,
                None => true,
            });
        }
    }
}

/// Environments that have grown twice have grown.
pub proof fn lemma_grown_twice(
    a: Seq<Environment>,
    b: Seq<Environment>,
    c: Seq<Environment>,
    n: nat,
    m: nat,
)
    requires
        grown(a, b, n),
        grown(b, c, m),
        n <= m,
    ensures
        grown(a, c, n),
{
    assert forall|i: int| 0 <= i < n implies (#[trigger] a[i]).enclosing == (#[trigger] c[i])
        .enclosing by {
        assert(a[i].enclosing == b[i].enclosing);
        assert(b[i].enclosing == c[i].enclosing);
    }
    assert forall|i: int, name: Seq<char>|
        0 <= i < n && #[trigger] a[i].values@.contains_key(name) implies c[i].values@.contains_key(
        name,
    ) by {
        assert(b[i].values@.contains_key(name));
    }
}

/// The environment of a call binds the names of the parameters.
pub proof fn lemma_arguments_bound(params: Seq<Token>, args: Seq<Object>)
    requires
        args.len() == params.len(),
    ensures
        forall|name: Seq<char>|
            param_names(params, 0).contains(name) ==> params_map(
                params,
                args,
                args.len(),
            ).contains_key(name),
{
    assert forall|name: Seq<char>| param_names(params, 0).contains(name) implies params_map(
        params,
        args,
        args.len(),
    ).contains_key(name) by {
        lemma_param_names(params, 0, name);
        lemma_params_bound(params, args, args.len(), name);
    }
}

/// The beginning of a call, from a ready state, of a function that is named
/// leads to a state that binds what it reads.
#[verifier::spinoff_prover]
pub proof fn lemma_call_keeps_bound<'a>(
    pre: State<'a>,
    under: Seq<Names>,
    scopes: Names,
    post: State<'a>,
    action: Action,
    function: Function<'a>,
    args: Seq<Object>,
    token: Token,
) -> (next: Seq<Names>)
    requires
        pre.wf(),
        ready(pre, under, scopes, scopes),
        function.closure < pre.pinned,
        function_named(function, pre.envs, pre.locals),
        calls(pre, post, action, function, args, token),
    ensures
        bound(post, next),
{
    let params = function.decl.params@;
    if args.len() == params.len() {
        let around = choose|s: Names| #[trigger]
            covers(s, pre.envs, function.closure) && stmts_named(
                function.decl.body@,
                0,
                body_scopes(s, params),
                pre.locals,
            );
        let inner = body_scopes(around, params);
        let bindings = params_map(params, args, args.len());
        let call = Frame::Call {
            function,
            prev: pre.env,
            base: pre.values.len() as usize,
            mark: pre.envs.len() as usize,
        };
        let body = Frame::Block {
            stmts: &function.decl.body,
            next: 0,
            prev: pre.env,
            mark: pre.envs.len() as usize,
        };
        let n = pre.envs.len();
        lemma_extended_grown(pre.envs, post.envs, function.closure, bindings);
        lemma_frames_named_grown(pre.frames, under, pre.envs, post.envs, n, pre.locals);
        lemma_tables_named_grown(
            pre.functions,
            pre.classes,
            pre.frames,
            pre.envs,
            post.envs,
            n,
            pre.pinned as nat,
            pre.locals,
        );
        lemma_covers_grown(scopes, pre.envs, post.envs, n, pre.env);
        lemma_function_named_grown(function, pre.envs, post.envs, n, pre.locals);
        lemma_arguments_bound(params, args);
        lemma_covers_child(
            around,
            param_names(params, 0),
            pre.envs,
            post.envs,
            function.closure,
            bindings,
        );
        lemma_named_begin(pre.frames, under, call, scopes, post.envs, post.locals);
        lemma_calls_named_push(pre.frames, call, post.envs, post.locals);
        assert(under.push(scopes).last() == scopes);
        lemma_named_begin(
            pre.frames.push(call),
            under.push(scopes),
            body,
            inner,
            post.envs,
            post.locals,
        );
        lemma_calls_named_push(pre.frames.push(call), body, post.envs, post.locals);
        assert(under.push(scopes).push(inner).last() == inner);
        under.push(scopes).push(inner)
    } else {
        Seq::empty()
    }
}

/// The beginning of a call of a class, from a ready state, leads to a state
/// that binds what it reads.
#[verifier::spinoff_prover]
pub proof fn lemma_instantiate_keeps_bound<'a>(
    pre: State<'a>,
    under: Seq<Names>,
    scopes: Names,
    post: State<'a>,
    action: Action,
    h: usize,
    args: Seq<Object>,
    token: Token,
) -> (next: Seq<Names>)
    requires
        pre.wf(),
        ready(pre, under, scopes, scopes),
        h < pre.classes.len(),
        instantiates(pre, post, action, h, args, token),
    ensures
        bound(post, next),
{
    let class = pre.classes[h as int];
    if class.methods@.contains_key("init"@) {
        let init = class.methods@["init"@];
        let params = init.decl.params@;
        if args.len() == params.len() {
            let around = choose|s: Names| #[trigger]
                covers(s, pre.envs, init.closure) && stmts_named(
                    init.decl.body@,
                    0,
                    method_scopes(s, params),
                    pre.locals,
                );
            assert(method_named(init, pre.envs, pre.locals));
            let receiver = around.push(set!["this"@]);
            let inner = method_scopes(around, params);
            let mid = post.envs.drop_last();
            let n = pre.envs.len();
            let this_env = pre.envs.len() as usize;
            let made = Function { decl: init.decl, closure: this_env, is_init: init.is_init };
            let bindings = params_map(params, args, args.len());
            let instance = pre.instances.len() as usize;
            let call = Frame::Call {
                function: made,
                prev: pre.env,
                base: pre.values.len() as usize,
                mark: (pre.envs.len() + 1) as usize,
            };
            let body = Frame::Block {
                stmts: &init.decl.body,
                next: 0,
                prev: pre.env,
                mark: (pre.envs.len() + 1) as usize,
            };
            assert(crate::machine::class_ok(class, pre.pinned as nat));
            lemma_extended_ordered(pre.envs, mid, init.closure, this_binding(instance));
            lemma_extended_grown(pre.envs, mid, init.closure, this_binding(instance));
            lemma_extended_grown(mid, post.envs, this_env, bindings);
            lemma_grown_twice(pre.envs, mid, post.envs, n, mid.len());
            lemma_frames_named_grown(pre.frames, under, pre.envs, post.envs, n, pre.locals);
            lemma_tables_named_grown(
                pre.functions,
                pre.classes,
                pre.frames,
                pre.envs,
                post.envs,
                n,
                pre.pinned as nat,
                pre.locals,
            );
            lemma_covers_grown(scopes, pre.envs, post.envs, n, pre.env);
            assert(this_binding(instance).contains_key("this"@));
            lemma_covers_child(
                around,
                set!["this"@],
                pre.envs,
                mid,
                init.closure,
                this_binding(instance),
            );
            lemma_covers_grown(receiver, mid, post.envs, mid.len(), this_env);
            lemma_arguments_bound(params, args);
            lemma_covers_child(
                receiver,
                param_names(params, 0),
                mid,
                post.envs,
                this_env,
                bindings,
            );
            assert(body_scopes(receiver, params) == inner);
            assert(covers(receiver, post.envs, made.closure));
            assert(stmts_named(
                made.decl.body@,
                0,
                body_scopes(receiver, made.decl.params@),
                post.locals,
            ));
            assert(function_named(made, post.envs, post.locals));
            lemma_named_begin(pre.frames, under, call, scopes, post.envs, post.locals);
            lemma_calls_named_push(pre.frames, call, post.envs, post.locals);
            assert(under.push(scopes).last() == scopes);
            lemma_named_begin(
                pre.frames.push(call),
                under.push(scopes),
                body,
                inner,
                post.envs,
                post.locals,
            );
            lemma_calls_named_push(pre.frames.push(call), body, post.envs, post.locals);
            assert(under.push(scopes).push(inner).last() == inner);
            under.push(scopes).push(inner)
        } else {
            Seq::empty()
        }
    } else if args.len() != 0 {
        Seq::empty()
    } else {
        under
    }
}

/// Reading a property from a ready state leads to a state that binds what it reads.
#[verifier::spinoff_prover]
pub proof fn lemma_get_keeps_bound<'a>(
    pre: State<'a>,
    under: Seq<Names>,
    scopes: Names,
    post: State<'a>,
    action: Action,
    object: Object,
    name: Token,
) -> (next: Seq<Names>)
    requires
        pre.wf(),
        ready(pre, under, scopes, scopes),
        gets(pre, post, action, object, name),
    ensures
        bound(post, next),
{
    match object {
        Object::ClassInstance(i) => {
            if i < pre.instances.len() {
                let instance = pre.instances[i as int];
                if instance.fields@.contains_key(name.name()) {
                    under
                } else if instance.klass < pre.classes.len() && pre.classes[instance.klass as int]
                    .methods@.contains_key(name.name()) {
                    let class = pre.classes[instance.klass as int];
                    let method = class.methods@[name.name()];
                    let n = pre.envs.len();
                    assert(crate::machine::class_ok(class, pre.pinned as nat));
                    assert(method_named(method, pre.envs, pre.locals));
                    let around = choose|s: Names| #[trigger]
                        covers(s, pre.envs, method.closure) && stmts_named(
                            method.decl.body@,
                            0,
                            method_scopes(s, method.decl.params@),
                            pre.locals,
                        );
                    let receiver = around.push(set!["this"@]);
                    lemma_extended_grown(pre.envs, post.envs, method.closure, this_binding(i));
                    lemma_covers_grown(scopes, pre.envs, post.envs, n, pre.env);
                    lemma_grown_keeps_bound(
                        pre,
                        under,
                        scopes,
                        scopes,
                        State { functions: pre.functions, pinned: pre.pinned, ..post },
                    );
                    assert(this_binding(i).contains_key("this"@));
                    lemma_covers_child(
                        around,
                        set!["this"@],
                        pre.envs,
                        post.envs,
                        method.closure,
                        this_binding(i),
                    );
                    assert(body_scopes(receiver, method.decl.params@) == method_scopes(
                        around,
                        method.decl.params@,
                    ));
                    assert forall|h: int| 0 <= h < post.functions.len() implies function_named(
                        #[trigger] post.functions[h],
                        post.envs,
                        post.locals,
                    ) by {
                        if h < pre.functions.len() {
                            assert(post.functions[h] == pre.functions[h]);
                        } else {
                            assert(covers(receiver, post.envs, post.functions[h].closure));
                        }
                    }
                    under
                } else {
                    Seq::empty()
                }
            } else {
                Seq::empty()
            }
        },
        _ => Seq::empty(),
    }
}

/// Applying a callee to its arguments, from a ready state, leads to a state
/// that binds what it reads.
pub proof fn lemma_invoke_keeps_bound<'a>(
    pre: State<'a>,
    under: Seq<Names>,
    scopes: Names,
    post: State<'a>,
    action: Action,
    callee: Object,
    args: Seq<Object>,
    token: &'a Token,
) -> (next: Seq<Names>)
    requires
        pre.wf(),
        ready(pre, under, scopes, scopes),
        invokes(pre, post, action, callee, args, token),
    ensures
        bound(post, next),
{
    match callee {
        Object::Func(h) => {
            if h < pre.functions.len() {
                lemma_call_keeps_bound(
                    pre,
                    under,
                    scopes,
                    post,
                    action,
                    pre.functions[h as int],
                    args,
                    *token,
                )
            } else {
                Seq::empty()
            }
        },
        Object::NativeFunc(n) => {
            if post.frames.len() == 0 {
                Seq::empty()
            } else {
                let wait = post.frames.last()->Host_wait;
                lemma_one_keeps_bound(pre, under, scopes, post, Frame::Host { token, wait });
                under.push(scopes)
            }
        },
        Object::Class(h) => {
            if h < pre.classes.len() {
                lemma_instantiate_keeps_bound(pre, under, scopes, post, action, h, args, *token)
            } else {
                Seq::empty()
            }
        },
        _ => Seq::empty(),
    }
}

/// Applying an operator from a ready state leads to a state that binds what it reads.
pub proof fn lemma_apply_keeps_bound<'a>(
    pre: State<'a>,
    under: Seq<Names>,
    scopes: Names,
    post: State<'a>,
    action: Action,
    outcome: Outcome,
    token: &'a Token,
) -> (next: Seq<Names>)
    requires
        ready(pre, under, scopes, scopes),
        applies(pre, post, action, outcome, token),
    ensures
        bound(post, next),
{
    match outcome {
        Outcome::Value(_) => under,
        Outcome::Ask { .. } => {
            lemma_one_keeps_bound(
                pre,
                under,
                scopes,
                post,
                Frame::Host { token, wait: Wait::Arithmetic },
            );
            under.push(scopes)
        },
        Outcome::Fail(_) => Seq::empty(),
    }
}

/// An assignment from a ready state leads to a state that binds what it reads.
pub proof fn lemma_assign_keeps_bound<'a>(
    pre: State<'a>,
    under: Seq<Names>,
    scopes: Names,
    post: State<'a>,
    action: Action,
    id: u64,
    name: Token,
    value: Object,
) -> (next: Seq<Names>)
    requires
        pre.wf(),
        ready(pre, under, scopes, scopes),
        assigns(pre, post, action, id, name, value),
    ensures
        bound(post, next),
{
    let target = if pre.locals.contains_key(id) {
        ancestor_of(pre.envs, pre.env, pre.locals[id] as nat)
    } else {
        Some(crate::machine::GLOBALS)
    };
    match target {
        Some(frame) => {
            lemma_bound_grown(pre.envs, post.envs, frame, name.name(), value);
            lemma_covers_grown(scopes, pre.envs, post.envs, pre.envs.len(), pre.env);
            lemma_grown_keeps_bound(pre, under, scopes, scopes, post);
            under
        },
        None => Seq::empty(),
    }
}

/// A step of an expression from a ready state leads to a state that binds
/// what it reads, with the names that are returned.
#[verifier::spinoff_prover]
#[verifier::rlimit(50)]
pub proof fn lemma_expr_keeps_bound<'a>(
    pre: State<'a>,
    under: Seq<Names>,
    scopes: Names,
    post: State<'a>,
    action: Action,
    expr: &'a Expr,
    phase: usize,
) -> (next: Seq<Names>)
    requires
        pre.wf(),
        ready(pre, under, scopes, scopes),
        expr_named(expr, scopes, pre.locals),
        expr_step(pre, post, action, expr, phase),
    ensures
        bound(post, next),
{
    let again = Frame::Expr { expr, phase: after(phase) };
    let waiting = under.push(scopes).push(scopes);
    let one = State { values: popped(pre.values, 1), ..pre };
    let two = State { values: popped(pre.values, 2), ..pre };
    match expr {
        Expr::Literal(l) => under,
        Expr::Grouping(g) => {
            lemma_one_keeps_bound(
                pre,
                under,
                scopes,
                post,
                Frame::Expr { expr: &*g.expr, phase: 0 },
            );
            under.push(scopes)
        },
        Expr::Unary(u) => {
            if phase == 0 {
                lemma_two_keep_bound(
                    pre,
                    under,
                    scopes,
                    post,
                    again,
                    Frame::Expr { expr: &*u.right, phase: 0 },
                );
                waiting
            } else {
                lemma_apply_keeps_bound(
                    one,
                    under,
                    scopes,
                    post,
                    action,
                    unary_outcome(u.operator.token_type, peek(pre.values, 0)@),
                    &u.operator,
                )
            }
        },
        Expr::Binary(b) => {
            if phase == 0 {
                lemma_two_keep_bound(
                    pre,
                    under,
                    scopes,
                    post,
                    again,
                    Frame::Expr { expr: &*b.left, phase: 0 },
                );
                waiting
            } else if phase == 1 {
                lemma_two_keep_bound(
                    pre,
                    under,
                    scopes,
                    post,
                    again,
                    Frame::Expr { expr: &*b.right, phase: 0 },
                );
                waiting
            } else {
                lemma_apply_keeps_bound(
                    two,
                    under,
                    scopes,
                    post,
                    action,
                    binary_outcome(
                        b.operator.token_type,
                        peek(pre.values, 1)@,
                        peek(pre.values, 0)@,
                    ),
                    &b.operator,
                )
            }
        },
        Expr::Logical(l) => {
            if phase == 0 {
                lemma_two_keep_bound(
                    pre,
                    under,
                    scopes,
                    post,
                    again,
                    Frame::Expr { expr: &*l.left, phase: 0 },
                );
                waiting
            } else {
                match short_circuits(l.operator.token_type, peek(pre.values, 0)@) {
                    Some(true) => under,
                    Some(false) => {
                        lemma_one_keeps_bound(
                            pre,
                            under,
                            scopes,
                            post,
                            Frame::Expr { expr: &*l.right, phase: 0 },
                        );
                        under.push(scopes)
                    },
                    None => Seq::empty(),
                }
            }
        },
        Expr::Var(v) => {
            if pre.variable(v.id, v.name.name()) is Some {
                under
            } else {
                Seq::empty()
            }
        },
        Expr::This(t) => {
            if pre.variable(t.id, t.keyword.name()) is Some {
                under
            } else {
                Seq::empty()
            }
        },
        Expr::Assign(a) => {
            if phase == 0 {
                lemma_two_keep_bound(
                    pre,
                    under,
                    scopes,
                    post,
                    again,
                    Frame::Expr { expr: &*a.value, phase: 0 },
                );
                waiting
            } else {
                lemma_assign_keeps_bound(
                    one,
                    under,
                    scopes,
                    post,
                    action,
                    a.id,
                    a.name,
                    peek(pre.values, 0),
                )
            }
        },
        Expr::Call(c) => {
            if phase == 0 {
                lemma_two_keep_bound(
                    pre,
                    under,
                    scopes,
                    post,
                    again,
                    Frame::Expr { expr: &*c.calle, phase: 0 },
                );
                waiting
            } else if phase <= c.arguments@.len() {
                crate::naming::lemma_exprs_named_each(
                    c.arguments@,
                    0,
                    scopes,
                    pre.locals,
                    phase - 1,
                );
                lemma_two_keep_bound(
                    pre,
                    under,
                    scopes,
                    post,
                    again,
                    Frame::Expr { expr: &c.arguments@[phase - 1], phase: 0 },
                );
                waiting
            } else {
                let n = c.arguments@.len();
                let rest = popped(pre.values, n);
                lemma_invoke_keeps_bound(
                    State { values: popped(rest, 1), ..pre },
                    under,
                    scopes,
                    post,
                    action,
                    peek(rest, 0),
                    operands(pre.values, n),
                    &c.paren,
                )
            }
        },
        Expr::Get(g) => {
            if phase == 0 {
                lemma_two_keep_bound(
                    pre,
                    under,
                    scopes,
                    post,
                    again,
                    Frame::Expr { expr: &*g.expr, phase: 0 },
                );
                waiting
            } else {
                lemma_get_keeps_bound(
                    one,
                    under,
                    scopes,
                    post,
                    action,
                    peek(pre.values, 0),
                    g.name,
                )
            }
        },
        Expr::SetExpr(s) => {
            if phase == 0 {
                lemma_two_keep_bound(
                    pre,
                    under,
                    scopes,
                    post,
                    again,
                    Frame::Expr { expr: &*s.expr, phase: 0 },
                );
                waiting
            } else if phase == 1 {
                if post.frames.len() == 0 {
                    Seq::empty()
                } else {
                    lemma_two_keep_bound(
                        pre,
                        under,
                        scopes,
                        post,
                        again,
                        Frame::Expr { expr: &*s.value, phase: 0 },
                    );
                    waiting
                }
            } else {
                if post.frames.len() == 0 && pre.frames.len() > 0 {
                    Seq::empty()
                } else {
                    under
                }
            }
        },
    }
}

/// The host's answer to a request, taken in a ready state, leads to a state
/// that binds what it reads.
pub proof fn lemma_host_keeps_bound<'a>(
    pre: State<'a>,
    under: Seq<Names>,
    scopes: Names,
    post: State<'a>,
    action: Action,
    token: &'a Token,
    wait: Wait,
    event: Event,
) -> (next: Seq<Names>)
    requires
        ready(pre, under, scopes, scopes),
        host_step(pre, post, action, token, wait, event),
    ensures
        bound(post, next),
{
    if post.frames == pre.frames {
        under
    } else if post.frames.len() == 0 {
        Seq::empty()
    } else {
        lemma_one_keeps_bound(
            pre,
            under,
            scopes,
            post,
            Frame::Host { token, wait: Wait::Line },
        );
        under.push(scopes)
    }
}

/// Binding is kept by every step: if a state binds what it reads, with the
/// names of `stack` defined around its frames, the state after one step of
/// the machine binds what it reads, with the names that are returned.
#[verifier::spinoff_prover]
#[verifier::rlimit(50)]
pub proof fn lemma_step_keeps_bound<'a>(
    pre: State<'a>,
    stack: Seq<Names>,
    event: Event,
    post: State<'a>,
    action: Action,
) -> (next: Seq<Names>)
    requires
        pre.wf(),
        bound(pre, stack),
        step_spec(pre, event, post, action),
    ensures
        bound(post, next),
{
    if pre.frames.len() == 0 {
        stack
    } else {
        let top = pre.frames.last();
        let rest = State { frames: pre.frames.drop_last(), ..pre };
        let under = stack.drop_last();
        let scopes = stack.last();
        lemma_calls_named_take(pre.frames, pre.frames.len() - 1, pre.envs, pre.locals);
        assert(pre.frames.take(pre.frames.len() - 1) == rest.frames);
        assert(frames_ok(rest.frames, pre.pinned as nat)) by {
            assert forall|i: int| 0 <= i < rest.frames.len() implies crate::machine::frame_ok(
                #[trigger] rest.frames[i],
                pre.pinned as nat,
            ) by {
                assert(rest.frames[i] == pre.frames[i]);
            }
        }
        match top {
            Frame::Program { stmts, next } => {
                if next < stmts@.len() {
                    let stmt = &stmts@[next as int];
                    assert(stmts@.len() == stmts.len());
                    assert(scopes_after(stmt, scopes) == scopes);
                    lemma_two_keep_bound(
                        rest,
                        under,
                        scopes,
                        post,
                        Frame::Program { stmts, next: (next + 1) as usize },
                        Frame::Stmt { stmt, phase: 0 },
                    );
                    under.push(scopes).push(scopes)
                } else {
                    under
                }
            },
            Frame::Block { stmts, next, prev, mark } => {
                if next < stmts@.len() {
                    let stmt = &stmts@[next as int];
                    let later = scopes_after(stmt, scopes);
                    assert(stmts@.len() == stmts.len());
                    let again = Frame::Block { stmts, next: (next + 1) as usize, prev, mark };
                    let first = Frame::Stmt { stmt, phase: 0 };
                    lemma_named_begin(rest.frames, under, again, later, pre.envs, pre.locals);
                    lemma_calls_named_push(rest.frames, again, pre.envs, pre.locals);
                    assert(under.push(later).last() == later);
                    lemma_named_push(
                        rest.frames.push(again),
                        under.push(later),
                        first,
                        scopes,
                        pre.envs,
                        pre.locals,
                    );
                    lemma_calls_named_push(rest.frames.push(again), first, pre.envs, pre.locals);
                    assert(under.push(later).push(scopes).last() == scopes);
                    under.push(later).push(scopes)
                } else {
                    lemma_reclaim_keeps_named(
                        rest.frames,
                        under,
                        prev,
                        pre.envs,
                        pre.pinned,
                        mark,
                        pre.functions,
                        pre.classes,
                        pre.locals,
                    );
                    under
                }
            },
            Frame::Stmt { stmt, phase } => lemma_stmt_keeps_bound(
                rest,
                under,
                scopes,
                post,
                stmt,
                phase,
            ),
            Frame::Expr { expr, phase } => lemma_expr_keeps_bound(
                rest,
                under,
                scopes,
                post,
                action,
                expr,
                phase,
            ),
            Frame::Call { function, prev, base, mark } => {
                lemma_reclaim_keeps_named(
                    rest.frames,
                    under,
                    prev,
                    pre.envs,
                    pre.pinned,
                    mark,
                    pre.functions,
                    pre.classes,
                    pre.locals,
                );
                under
            },
            Frame::Host { token, wait } => lemma_host_keeps_bound(
                rest,
                under,
                scopes,
                post,
                action,
                token,
                wait,
                event,
            ),
        }
    }
}

/// The state binds what it reads, for some names defined around its frames.
pub open spec fn binds(st: State) -> bool {
    exists|stack: Seq<Names>| bound(st, stack)
}

/// A machine in which nothing is pending and no function or class is made
/// binds what it reads, whatever depths are recorded.
pub proof fn lemma_idle_binds(st: State)
    requires
        st.frames.len() == 0,
        st.functions.len() == 0,
        st.classes.len() == 0,
    ensures
        binds(st),
{
    assert(bound(st, Seq::empty()));
}

/// Loading a program that is named from the top level into a machine in
/// which nothing is pending keeps the machine binding what it reads.
pub proof fn lemma_loaded_binds<'a>(pre: State<'a>, post: State<'a>, stmts: &'a Vec<Stmt>)
    requires
        pre.wf(),
        binds(pre),
        pre.frames.len() == 0,
        post.frames == pre.frames.push(Frame::Program { stmts, next: 0 }),
        post.env == 0,
        post.same_store(pre),
        stmts_named(stmts@, 0, Seq::empty(), pre.locals),
    ensures
        binds(post),
{
    let frame = Frame::Program { stmts, next: 0 };
    let under = choose|stack: Seq<Names>| bound(pre, stack);
    let top = Seq::<Set<Seq<char>>>::empty();
    lemma_named_push(pre.frames, under, frame, top, pre.envs, pre.locals);
    lemma_calls_named_push(pre.frames, frame, pre.envs, pre.locals);
    assert(crate::scoping::chain_length(pre.envs, 0) == 0);
    assert(under.push(top).last() == top);
    assert(covers(top, post.envs, 0));
    assert(bound(post, under.push(top)));
}

/// Binding is kept by every step: if a state binds what it reads, the state
/// after one step of the machine does.
pub proof fn lemma_step_keeps_binding<'a>(
    pre: State<'a>,
    event: Event,
    post: State<'a>,
    action: Action,
)
    requires
        pre.wf(),
        binds(pre),
        step_spec(pre, event, post, action),
    ensures
        binds(post),
{
    let stack = choose|stack: Seq<Names>| bound(pre, stack);
    let next = lemma_step_keeps_bound(pre, stack, event, post, action);
    assert(bound(post, next));
}

/// Binding is kept by every run: if the first state of a run of steps binds
/// what it reads, every state of the run does.
pub proof fn lemma_run_keeps_binding<'a>(
    states: Seq<State<'a>>,
    first: Event,
    action: Action,
    i: int,
)
    requires
        crate::machine::run_spec(states, first, action),
        forall|j: int| 0 <= j < states.len() ==> (#[trigger] states[j]).wf(),
        binds(states[0]),
        0 <= i < states.len(),
    ensures
        binds(states[i]),
    decreases i,
{
    if i > 0 {
        lemma_run_keeps_binding(states, first, action, i - 1);
        if i - 1 < states.len() - 2 {
            lemma_step_keeps_binding(
                states[i - 1],
                crate::machine::event_of(first, i - 1),
                states[i],
                Action::Continue,
            );
        } else {
            lemma_step_keeps_binding(
                states[i - 1],
                crate::machine::event_of(first, i - 1),
                states[i],
                action,
            );
        }
    }
}

/// A read at a recorded depth yields a value: in a state that binds what it
/// reads, the step that evaluates a variable or `this` with a recorded
/// depth does not fail; it pushes the value that the name is bound to in
/// the environment that many links out from the current one.
pub proof fn lemma_resolved_read_yields<'a>(
    pre: State<'a>,
    event: Event,
    post: State<'a>,
    action: Action,
    id: u64,
    name: Seq<char>,
)
    requires
        binds(pre),
        step_spec(pre, event, post, action),
        pre.frames.len() > 0,
        pre.frames.last() matches Frame::Expr { expr, .. } && match *expr {
            Expr::Var(v) => v.id == id && v.name.name() == name,
            Expr::This(t) => t.id == id && t.keyword.name() == name,
            _ => false,
        },
        pre.locals.contains_key(id),
    ensures
        action is Continue,
        value_at(pre.envs, pre.env, pre.locals[id] as nat, name) matches Some(value)
            && post.values == pre.values.push(value),
        post.frames == pre.frames.drop_last(),
{
    let stack = choose|stack: Seq<Names>| bound(pre, stack);
    lemma_resolved_read_is_bound(pre, stack);
}

} // verus!
