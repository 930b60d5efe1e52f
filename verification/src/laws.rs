//! Laws of the evaluator, proved from the contract of one step.

use vstd::prelude::*;
use crate::environment::{
    Environment, ancestor_of, bound_in, envs_ordered, lemma_ancestor_in_range,
    lemma_binding_keeps_chains, value_at,
};
use crate::expressions::Expr;
use crate::machine::{
    Action, Event, Frame, State, boundary, call_result, calls, extended, methods_of, peek, popped,
    reclaimed, step_spec, stmt_step,
};
use crate::scanner::TokenType;
use crate::statements::{Func, Stmt};
use crate::types::{Function, Object, truthy};

verus! {

/// A `return` stops at the innermost call: the frame that [`boundary`] names
/// is a call in flight or the program, and no frame above it is either.
pub proof fn lemma_boundary_is_innermost(frames: Seq<Frame>)
    ensures
        -1 <= boundary(frames) < frames.len(),
        boundary(frames) >= 0 ==> frames[boundary(frames)] is Call || frames[boundary(
            frames,
        )] is Program,
        forall|i: int|
            boundary(frames) < i < frames.len() ==> !(#[trigger] frames[i] is Call) && !(
            frames[i] is Program),
    decreases frames.len(),
{
    if frames.len() > 0 && !(frames.last() is Call || frames.last() is Program) {
        lemma_boundary_is_innermost(frames.drop_last());
        assert forall|i: int| boundary(frames) < i < frames.len() implies !(
        #[trigger] frames[i] is Call) && !(frames[i] is Program) by {
            if i < frames.len() - 1 {
                assert(frames.drop_last()[i] == frames[i]);
            }
        }
    }
}

/// The value that the machine is about to return, if its innermost frame is a
/// `return` statement whose value, if it has one, is evaluated.
pub open spec fn returning(st: State) -> Option<Object> {
    if st.frames.len() == 0 {
        None
    } else {
        match st.frames.last() {
            Frame::Stmt { stmt, phase } => match stmt {
                Stmt::Return(r) => if r.value is None {
                    Some(Object::Nil)
                } else if phase > 0 {
                    Some(peek(st.values, 0))
                } else {
                    None
                },
                _ => None,
            },
            _ => None,
        }
    }
}

/// Return propagation: when a `return` runs inside a call, however deeply it
/// is nested in blocks, conditionals and loops, the step drops every frame
/// between it and the innermost call in flight without running any of them,
/// makes the caller's environment current again, and leaves the returned
/// value (for an initializer, the instance) on the value stack as the
/// call's result. The environments that were there when the call began are
/// as they are, no object is changed, and the environments that the call
/// made are given up unless a function closes over one of them.
pub proof fn lemma_return_propagates<'a>(
    pre: State<'a>,
    event: Event,
    post: State<'a>,
    action: Action,
)
    requires
        step_spec(pre, event, post, action),
        returning(pre) is Some,
        boundary(pre.frames.drop_last()) >= 0,
        pre.frames[boundary(pre.frames.drop_last())] is Call,
    ensures
        action is Continue,
        ({
            let k = boundary(pre.frames.drop_last());
            let call = pre.frames[k];
            let value = returning(pre)->Some_0;
            &&& post.frames == pre.frames.take(k)
            &&& forall|i: int| k < i < pre.frames.len() ==> !(#[trigger] pre.frames[i] is Call)
            &&& post.env == call->Call_prev
            &&& post.values.len() > 0
            &&& post.values.last() == call_result(pre.envs, call->Call_function, value)
            &&& !call->Call_function.is_init ==> post.values.last() == value
            &&& post.same_objects(pre)
            &&& post.envs == reclaimed(pre.envs, pre.pinned, call->Call_mark)
            &&& post.envs.len() <= pre.envs.len()
            &&& forall|i: int| 0 <= i < post.envs.len() ==> post.envs[i] == pre.envs[i]
        }),
{
    let rest = pre.frames.drop_last();
    let k = boundary(rest);
    lemma_boundary_is_innermost(rest);
    assert(rest[k] == pre.frames[k]);
    assert(rest.take(k) == pre.frames.take(k));
    assert forall|i: int| k < i < pre.frames.len() implies !(#[trigger] pre.frames[i] is Call) by {
        if i < rest.len() {
            assert(rest[i] == pre.frames[i]);
        }
    }
}

/// Logical short-circuit: once the left operand of `or` or `and` is
/// evaluated, the right operand is scheduled for evaluation exactly if the
/// left one does not decide the result, that is if it is falsey for `or` and
/// truthy for `and`. If the left operand decides, it is the result and
/// nothing of the right operand is ever run; the step itself changes no
/// environment and no object.
pub proof fn lemma_logical_short_circuits<'a>(
    pre: State<'a>,
    event: Event,
    post: State<'a>,
    action: Action,
)
    requires
        step_spec(pre, event, post, action),
        pre.frames.len() > 0,
        pre.frames.last() matches Frame::Expr { expr, phase } && phase > 0 && (
        *expr matches Expr::Logical(l) && (l.operator.token_type == TokenType::OR
            || l.operator.token_type == TokenType::AND)),
    ensures
        action is Continue,
        post.same_store(pre),
        post.env == pre.env,
        ({
            let l = pre.frames.last()->Expr_expr->Logical_0;
            let left = peek(pre.values, 0);
            let decided = if l.operator.token_type == TokenType::OR {
                truthy(left@)
            } else {
                !truthy(left@)
            };
            if decided {
                &&& post.frames == pre.frames.drop_last()
                &&& post.values == popped(pre.values, 1).push(left)
            } else {
                &&& post.frames == pre.frames.drop_last().push(
                    Frame::Expr { expr: &*l.right, phase: 0 },
                )
                &&& post.values == popped(pre.values, 1)
            }
        }),
{
}

/// Initializer idempotence, at run time: a call of an initializer whose
/// closure binds `this` yields that instance, whatever value a `return` in
/// its body carried and whether or not one ran.
pub proof fn lemma_initializer_yields_instance(
    envs: Seq<Environment>,
    function: Function,
    value: Object,
    this: Object,
)
    requires
        function.is_init,
        value_at(envs, function.closure, 0, "this"@) == Some(this),
    ensures
        call_result(envs, function, value) == this,
{
}

/// Of the methods of a class body, the one named `init` is the initializer,
/// and no other is.
pub proof fn lemma_init_is_the_initializer(
    methods: Seq<Func>,
    closure: usize,
    n: nat,
    name: Seq<char>,
)
    requires
        methods_of(methods, closure, n).contains_key(name),
    ensures
        methods_of(methods, closure, n)[name].is_init == (name == "init"@),
    decreases n,
{
    if n > 0 && n <= methods.len() && methods[n - 1].name.name() != name {
        lemma_init_is_the_initializer(methods, closure, (n - 1) as nat, name);
    }
}

/// Closure capture: a function declaration makes a function value that
/// closes over the environment that is current where the declaration runs,
/// and binds the function's name to it in that environment.
pub proof fn lemma_function_captures_its_environment<'a>(
    pre: State<'a>,
    post: State<'a>,
    stmt: &'a Stmt,
    phase: usize,
)
    requires
        stmt_step(pre, post, stmt, phase),
        stmt is Func,
    ensures
        post.functions == pre.functions.push(
            Function { decl: &stmt->Func_0, closure: pre.env, is_init: false },
        ),
        bound_in(
            pre.envs,
            post.envs,
            pre.env,
            stmt->Func_0.name.name(),
            Object::Func(pre.functions.len() as usize),
        ),
        post.env == pre.env,
{
}

/// One more environment at the end leaves the chains of the earlier ones as they were.
pub proof fn lemma_extension_keeps_chains(
    pre: Seq<Environment>,
    post: Seq<Environment>,
    enclosing: usize,
    bindings: Map<Seq<char>, Object>,
    env: usize,
    distance: nat,
)
    requires
        envs_ordered(pre),
        extended(pre, post, enclosing, bindings),
        env < pre.len(),
    ensures
        ancestor_of(post, env, distance) == ancestor_of(pre, env, distance),
        forall|name: Seq<char>|
            value_at(post, env, distance, name) == value_at(pre, env, distance, name),
    decreases distance,
{
    assert(post[env as int] == post.take(pre.len() as int)[env as int]);
    if distance > 0 {
        match pre[env as int].enclosing {
            Some(p) => {
                lemma_extension_keeps_chains(
                    pre,
                    post,
                    enclosing,
                    bindings,
                    p,
                    (distance - 1) as nat,
                );
            },
            None => {},
        }
    }
    lemma_ancestor_in_range(pre, env, distance);
    match ancestor_of(pre, env, distance) {
        Some(a) => {
            assert(post[a as int] == post.take(pre.len() as int)[a as int]);
        },
        None => {},
    }
}

/// A call runs in its function's closure, not in its caller's environment:
/// the environment of the call is new, binds the parameters, and is enclosed
/// by the environment that the function closed over when it was declared; so
/// `distance + 1` links out from the body lies what lay `distance` links out
/// from the closure, wherever the call is made from.
pub proof fn lemma_call_runs_in_closure<'a>(
    pre: State<'a>,
    post: State<'a>,
    action: Action,
    function: Function<'a>,
    args: Seq<Object>,
    token: crate::scanner::Token,
    distance: nat,
    name: Seq<char>,
)
    requires
        pre.wf(),
        function.closure < pre.pinned,
        calls(pre, post, action, function, args, token),
        args.len() == function.decl.params@.len(),
    ensures
        post.env == pre.envs.len(),
        post.envs[post.env as int].enclosing == Some(function.closure),
        ancestor_of(post.envs, post.env, distance + 1) == ancestor_of(
            pre.envs,
            function.closure,
            distance,
        ),
        value_at(post.envs, post.env, distance + 1, name) == value_at(
            pre.envs,
            function.closure,
            distance,
            name,
        ),
{
    let bindings = crate::machine::params_map(function.decl.params@, args, args.len());
    lemma_extension_keeps_chains(
        pre.envs,
        post.envs,
        function.closure,
        bindings,
        function.closure,
        distance,
    );
}

/// Closure stability: a function sees what is assigned to a variable of its
/// closure after the function is made and before it is called. If `name` is
/// bound to `value` in the frame `distance` links out from the closure, and
/// a call of the function then begins, the body reads `value` for `name` at
/// `distance + 1` links out from the environment `body` of the call.
pub proof fn lemma_closure_sees_assignment(
    declared: Seq<Environment>,
    assigned: Seq<Environment>,
    called: Seq<Environment>,
    closure: usize,
    distance: nat,
    name: Seq<char>,
    value: Object,
    arguments: Map<Seq<char>, Object>,
    body: usize,
)
    requires
        envs_ordered(declared),
        body == assigned.len(),
        ancestor_of(declared, closure, distance).is_some(),
        bound_in(
            declared,
            assigned,
            ancestor_of(declared, closure, distance).unwrap(),
            name,
            value,
        ),
        extended(assigned, called, closure, arguments),
    ensures
        value_at(called, body, distance + 1, name) == Some(value),
{
    let target = ancestor_of(declared, closure, distance).unwrap();
    lemma_binding_keeps_chains(declared, assigned, target, name, value, closure, distance);
    assert(value_at(assigned, closure, distance, name) == Some(value));
    crate::machine::lemma_bound_in_order(declared, assigned, target, name, value);
    assert(closure < declared.len());
    lemma_extension_keeps_chains(assigned, called, closure, arguments, closure, distance);
    assert(called.last() == called[body as int]);
    assert(ancestor_of(called, body, distance + 1) == ancestor_of(called, closure, distance));
}

} // verus!
