//! The evaluator as a machine: its states, what it asks of the host, and
//! what one step does.
//!
//! The machine keeps a stack of frames (what is still to be done) and a stack
//! of values (what finished expressions left behind). What it cannot do
//! itself, arithmetic on numbers and console traffic, it hands to the host as
//! an [`Action`] and takes the answer as the [`Event`] of the next step.
//! [`step_spec`] says what one step does; `Interpreter::step` does it.

use vstd::prelude::*;
use crate::environment::{Environment, ancestor_of, bound_in, envs_ordered, envs_wf, value_at};
use crate::expressions::Expr;
use crate::interpreter::RuntimeError;
use crate::operators::{
    ArithOp, Outcome, binary_outcome, short_circuits, unary_outcome, without_terminator,
};
use crate::scanner::Token;
use crate::statements::{Func, Stmt};
use crate::text::decimal;
use crate::types::{Function, LoxClass, LoxInstance, NativeFunc, Object, ObjectView, truthy};

verus! {

/// A part of a line of output: literal text, or a number for the host to format.
#[derive(Debug)]
pub enum Piece {
    Text(String),
    Number(u64),
}

/// A part of a line of output, with text as a sequence of characters.
pub enum PieceView {
    Text(Seq<char>),
    Number(u64),
}

impl View for Piece {
    type V = PieceView;

    open spec fn view(&self) -> PieceView {
        match self {
            Piece::Text(s) => PieceView::Text(s@),
            Piece::Number(n) => PieceView::Number(*n),
        }
    }
}

/// What the machine asks of the host after a step.
#[derive(Debug)]
pub enum Action {
    /// Nothing: step again with [`Event::Resume`].
    Continue,
    /// Compute `left op right` on doubles and answer with [`Event::Number`].
    Arithmetic { op: ArithOp, left: u64, right: u64 },
    /// Write the pieces in order, then a newline if asked, flush, and answer
    /// with [`Event::Resume`], or with [`Event::Failed`] if writing failed.
    Write { pieces: Vec<Piece>, newline: bool },
    /// Read one line from standard input and answer with [`Event::Line`], or
    /// with [`Event::Failed`] if reading failed.
    ReadLine,
    /// The program has run to its end.
    Done,
    /// The program stopped with a runtime error.
    Error(RuntimeError),
}

/// What the host tells the machine at the start of a step.
#[derive(Debug)]
pub enum Event {
    /// Nothing to report.
    Resume,
    /// The result of the arithmetic that was asked for.
    Number(u64),
    /// The line that was read, with or without its line terminator.
    Line(String),
    /// The request failed, with the system's message.
    Failed(String),
}

/// What a host frame is waiting for.
#[derive(Debug, Clone, Copy, PartialEq, Eq, Structural)]
pub enum Wait {
    /// The result of an arithmetic operation.
    Arithmetic,
    /// The completion of `print` or `println`.
    Output,
    /// The completion of the prompt of `input`.
    Prompt,
    /// The line read by `input`.
    Line,
}

/// One entry of the machine's stack of pending work.
#[derive(Debug, Clone, Copy)]
pub enum Frame<'a> {
    /// The program's top-level statements, of which `next` is the next to run.
    Program { stmts: &'a Vec<Stmt>, next: usize },
    /// A block or a function body running in an environment of its own;
    /// `prev` is the environment to go back to when it ends, and `mark` the
    /// number of environments when it began.
    Block { stmts: &'a Vec<Stmt>, next: usize, prev: usize, mark: usize },
    /// A statement of which `phase` parts are done.
    Stmt { stmt: &'a Stmt, phase: usize },
    /// An expression of which `phase` operands are evaluated and lie on the value stack.
    Expr { expr: &'a Expr, phase: usize },
    /// A call of a user function in flight. A `return` unwinds to the nearest
    /// such frame. `prev` is the caller's environment, `base` the height of
    /// the value stack and `mark` the number of environments when the call
    /// began.
    Call { function: Function<'a>, prev: usize, base: usize, mark: usize },
    /// A request to the host in flight, blamed on `token` if it fails.
    Host { token: &'a Token, wait: Wait },
}

/// The machine's state as mathematical values.
pub struct State<'a> {
    /// The handle of the current environment.
    pub env: usize,
    /// All environments; the globals are the first.
    pub envs: Seq<Environment>,
    /// The number of environments that are kept for good: every environment
    /// that a function closes over is among them.
    pub pinned: usize,
    /// The function values made so far, by handle.
    pub functions: Seq<Function<'a>>,
    /// The classes declared so far, by handle.
    pub classes: Seq<LoxClass<'a>>,
    /// The instances made so far, by handle.
    pub instances: Seq<LoxInstance>,
    /// The pending work, innermost last.
    pub frames: Seq<Frame<'a>>,
    /// The values of finished expressions, newest last.
    pub values: Seq<Object>,
    /// The resolved depth of each expression that names a local.
    pub locals: Map<u64, usize>,
}

/// The handle of the global environment.
pub const GLOBALS: usize = 0;

/// The function of a call in flight closes over one of the first `n` environments.
pub open spec fn frame_ok(frame: Frame, n: nat) -> bool {
    match frame {
        Frame::Call { function, .. } => function.closure < n,
        _ => true,
    }
}

/// The frames go back to environments that exist: a block or a call began
/// when there were at most `n` environments, goes back to one that was
/// there when it began, and the frames below it are in order for the
/// environments that were there when it began.
pub open spec fn frames_marked(frames: Seq<Frame>, n: nat) -> bool
    decreases frames.len(),
{
    if frames.len() == 0 {
        true
    } else {
        match frames.last() {
            Frame::Block { prev, mark, .. } => prev < mark <= n && frames_marked(
                frames.drop_last(),
                mark as nat,
            ),
            Frame::Call { prev, mark, .. } => prev < mark <= n && frames_marked(
                frames.drop_last(),
                mark as nat,
            ),
            _ => frames_marked(frames.drop_last(), n),
        }
    }
}

/// Frames that are in order for `n` environments are in order for more.
pub proof fn lemma_marked_for_more(frames: Seq<Frame>, n: nat, m: nat)
    requires
        frames_marked(frames, n),
        n <= m,
    ensures
        frames_marked(frames, m),
    decreases frames.len(),
{
    if frames.len() > 0 {
        match frames.last() {
            Frame::Block { .. } => {},
            Frame::Call { .. } => {},
            _ => {
                lemma_marked_for_more(frames.drop_last(), n, m);
            },
        }
    }
}

/// One more frame that is no block and no call keeps the frames in order.
pub proof fn lemma_marked_push(frames: Seq<Frame>, frame: Frame, n: nat)
    requires
        frames_marked(frames, n),
        !(frame is Block),
        !(frame is Call),
    ensures
        frames_marked(frames.push(frame), n),
{
    assert(frames.push(frame).drop_last() == frames);
}

/// A block or a call that begins now keeps the frames in order.
pub proof fn lemma_marked_begin(frames: Seq<Frame>, frame: Frame, n: nat, m: nat)
    requires
        frames_marked(frames, n),
        n <= m,
        match frame {
            Frame::Block { prev, mark, .. } => prev < mark && n <= mark <= m,
            Frame::Call { prev, mark, .. } => prev < mark && n <= mark <= m,
            _ => false,
        },
    ensures
        frames_marked(frames.push(frame), m),
{
    assert(frames.push(frame).drop_last() == frames);
    match frame {
        Frame::Block { mark, .. } => {
            lemma_marked_for_more(frames, n, mark as nat);
        },
        Frame::Call { mark, .. } => {
            lemma_marked_for_more(frames, n, mark as nat);
        },
        _ => {},
    }
}

/// The environments that are left when a block or a call that began with
/// `mark` environments ends: those that were there when it began, if none of
/// the later ones is kept for good; else all.
pub open spec fn reclaimed(envs: Seq<Environment>, pinned: usize, mark: usize) -> Seq<
    Environment,
> {
    if pinned <= mark <= envs.len() {
        envs.take(mark as int)
    } else {
        envs
    }
}

/// The larger of two numbers.
pub open spec fn larger(a: usize, b: int) -> usize {
    if a >= b {
        a
    } else {
        b as usize
    }
}

/// Every function closes over one of the first `n` environments.
pub open spec fn functions_ok(functions: Seq<Function>, n: nat) -> bool {
    forall|i: int| 0 <= i < functions.len() ==> (#[trigger] functions[i]).closure < n
}

/// The class keeps its invariant and its methods close over environments
/// among the first `n`.
pub open spec fn class_ok(class: LoxClass, n: nat) -> bool {
    &&& class.wf()
    &&& forall|name: Seq<char>|
        class.methods@.contains_key(name) ==> (#[trigger] class.methods@[name]).closure < n
}

/// Every class is in order.
pub open spec fn classes_wf(classes: Seq<LoxClass>, n: nat) -> bool {
    forall|i: int| 0 <= i < classes.len() ==> class_ok(#[trigger] classes[i], n)
}

/// Functions, classes and calls in flight that close over the first `n`
/// environments close over the first `m` if there are more.
pub proof fn lemma_more_pinned(
    functions: Seq<Function>,
    classes: Seq<LoxClass>,
    frames: Seq<Frame>,
    n: nat,
    m: nat,
)
    requires
        n <= m,
        functions_ok(functions, n),
        classes_wf(classes, n),
        frames_ok(frames, n),
    ensures
        functions_ok(functions, m),
        classes_wf(classes, m),
        frames_ok(frames, m),
{
    assert forall|i: int| 0 <= i < classes.len() implies class_ok(#[trigger] classes[i], m) by {
        assert(class_ok(classes[i], n));
    }
    assert forall|i: int| 0 <= i < frames.len() implies frame_ok(#[trigger] frames[i], m) by {
        assert(frame_ok(frames[i], n));
    }
}

/// The first environments of a list that is in order are in order.
pub proof fn lemma_reclaimed_in_order(envs: Seq<Environment>, pinned: usize, mark: usize)
    requires
        envs_wf(envs),
        envs_ordered(envs),
    ensures
        envs_wf(reclaimed(envs, pinned, mark)),
        envs_ordered(reclaimed(envs, pinned, mark)),
{
    let kept = reclaimed(envs, pinned, mark);
    assert forall|i: int| 0 <= i < kept.len() implies (#[trigger] kept[i]).wf() && match kept[i]
        .enclosing {
        Some(p) => p < i,
        None => true,
    } by {
        assert(kept[i] == envs[i]);
        assert(envs[i].wf());
    }
}

/// One more environment, enclosed by an earlier one, keeps the environments in order.
pub proof fn lemma_extended_in_order(
    pre: Seq<Environment>,
    post: Seq<Environment>,
    enclosing: usize,
    bindings: Map<Seq<char>, Object>,
)
    requires
        envs_ordered(pre),
        envs_wf(pre),
        extended(pre, post, enclosing, bindings),
        enclosing < pre.len(),
        post.last().wf(),
    ensures
        envs_ordered(post),
        envs_wf(post),
{
    assert forall|i: int| 0 <= i < post.len() implies (#[trigger] post[i]).wf() && match post[i]
        .enclosing {
        Some(p) => p < i,
        None => true,
    } by {
        if i < pre.len() {
            assert(post[i] == post.take(pre.len() as int)[i]);
            assert(pre[i].wf());
        }
    }
}

/// A binding keeps the environments in order.
pub proof fn lemma_bound_in_order(
    pre: Seq<Environment>,
    post: Seq<Environment>,
    a: usize,
    name: Seq<char>,
    value: Object,
)
    requires
        envs_ordered(pre),
        bound_in(pre, post, a, name, value),
    ensures
        envs_ordered(post),
{
    assert forall|i: int| 0 <= i < post.len() implies match (#[trigger] post[i]).enclosing {
        Some(p) => p < i,
        None => true,
    } by {
        if i != a {
            assert(post[i] == pre[i]);
        }
        assert(match pre[i].enclosing {
            Some(p) => p < i,
            None => true,
        });
    }
}

/// Every instance keeps its invariant.
pub open spec fn instances_wf(instances: Seq<LoxInstance>) -> bool {
    forall|i: int| 0 <= i < instances.len() ==> (#[trigger] instances[i]).wf()
}

/// The function of every call in flight closes over one of the first `n` environments.
pub open spec fn frames_ok(frames: Seq<Frame>, n: nat) -> bool {
    forall|i: int| 0 <= i < frames.len() ==> frame_ok(#[trigger] frames[i], n)
}

impl<'a> State<'a> {
    /// The invariant of the machine's state.
    pub open spec fn wf(self) -> bool {
        &&& self.envs.len() > 0
        &&& self.env < self.envs.len()
        &&& 0 < self.pinned <= self.envs.len()
        &&& envs_wf(self.envs)
        &&& envs_ordered(self.envs)
        &&& functions_ok(self.functions, self.pinned as nat)
        &&& classes_wf(self.classes, self.pinned as nat)
        &&& instances_wf(self.instances)
        &&& frames_ok(self.frames, self.pinned as nat)
        &&& frames_marked(self.frames, self.envs.len())
    }

    /// The two states have the same environments, objects and resolved depths.
    pub open spec fn same_store(self, other: State<'a>) -> bool {
        &&& self.envs == other.envs
        &&& self.pinned == other.pinned
        &&& self.functions == other.functions
        &&& self.classes == other.classes
        &&& self.instances == other.instances
        &&& self.locals == other.locals
    }

    /// The two states have the same objects and resolved depths.
    pub open spec fn same_objects(self, other: State<'a>) -> bool {
        &&& self.pinned == other.pinned
        &&& self.functions == other.functions
        &&& self.classes == other.classes
        &&& self.instances == other.instances
        &&& self.locals == other.locals
    }

    /// What a variable expression with identity `id` and name `name` reads:
    /// the frame at its resolved depth, or the globals if it has none.
    pub open spec fn variable(self, id: u64, name: Seq<char>) -> Option<Object> {
        if self.locals.contains_key(id) {
            value_at(self.envs, self.env, self.locals[id] as nat, name)
        } else {
            value_at(self.envs, GLOBALS, 0, name)
        }
    }
}

/// The value `k` places below the top of the stack, `nil` if the stack is not that high.
pub open spec fn peek(values: Seq<Object>, k: nat) -> Object {
    if k < values.len() {
        values[values.len() - 1 - k]
    } else {
        Object::Nil
    }
}

/// The stack without its `k` topmost values.
pub open spec fn popped(values: Seq<Object>, k: nat) -> Seq<Object> {
    if k <= values.len() {
        values.take(values.len() - k)
    } else {
        Seq::empty()
    }
}

/// Only the pending work changes, to `frames`.
pub open spec fn schedules<'a>(pre: State<'a>, post: State<'a>, frames: Seq<Frame<'a>>) -> bool {
    &&& post.frames == frames
    &&& post.values == pre.values
    &&& post.env == pre.env
    &&& post.same_store(pre)
}

/// The pending work and the value stack change, to `frames` and `values`.
pub open spec fn continues<'a>(
    pre: State<'a>,
    post: State<'a>,
    frames: Seq<Frame<'a>>,
    values: Seq<Object>,
) -> bool {
    &&& post.frames == frames
    &&& post.values == values
    &&& post.env == pre.env
    &&& post.same_store(pre)
}

/// The machine has stopped: no work is pending, no value is kept and the
/// globals are current. The environments and objects stay as they were.
pub open spec fn halted<'a>(pre: State<'a>, post: State<'a>) -> bool {
    &&& post.frames == Seq::<Frame<'a>>::empty()
    &&& post.values == Seq::<Object>::empty()
    &&& post.env == GLOBALS
    &&& post.same_store(pre)
}

/// The machine has stopped with the runtime error `message`, blamed on `token`.
pub open spec fn fails<'a>(
    pre: State<'a>,
    post: State<'a>,
    action: Action,
    message: Seq<char>,
    token: Token,
) -> bool {
    &&& halted(pre, post)
    &&& action matches Action::Error(e) && e.message@ == message && e.token == token
}

/// `name` is bound to `value` in the current environment, and the value stack becomes `values`.
pub open spec fn defines<'a>(
    pre: State<'a>,
    post: State<'a>,
    name: Seq<char>,
    value: Object,
    values: Seq<Object>,
) -> bool {
    &&& bound_in(pre.envs, post.envs, pre.env, name, value)
    &&& post.frames == pre.frames
    &&& post.values == values
    &&& post.env == pre.env
    &&& post.same_objects(pre)
}

/// `post` is `pre` with one more environment at the end, which is enclosed by
/// `enclosing` and binds what `bindings` says.
pub open spec fn extended(
    pre: Seq<Environment>,
    post: Seq<Environment>,
    enclosing: usize,
    bindings: Map<Seq<char>, Object>,
) -> bool {
    &&& post.len() == pre.len() + 1
    &&& post.take(pre.len() as int) == pre
    &&& post.last().enclosing == Some(enclosing)
    &&& post.last().values@ == bindings
}

/// The index of the innermost frame at which a `return` stops: a call in
/// flight or the program itself. -1 if there is none.
pub open spec fn boundary(frames: Seq<Frame>) -> int
    decreases frames.len(),
{
    if frames.len() == 0 {
        -1
    } else if frames.last() is Call || frames.last() is Program {
        frames.len() - 1
    } else {
        boundary(frames.drop_last())
    }
}

/// What a call yields: the `this` of its closure if the function is an
/// initializer (`nil` if the closure binds none), else `value`.
pub open spec fn call_result(envs: Seq<Environment>, function: Function, value: Object) -> Object {
    if function.is_init {
        match value_at(envs, function.closure, 0, "this"@) {
            Some(this) => this,
            None => Object::Nil,
        }
    } else {
        value
    }
}

/// The value stack cut back to the height `base`, if it is higher.
pub open spec fn cut(values: Seq<Object>, base: usize) -> Seq<Object> {
    if base <= values.len() {
        values.take(base as int)
    } else {
        values
    }
}

/// A call of `function` ends with `value`: the frames `rest` remain, the
/// caller's environment `prev` is current again, the value stack is cut
/// back to where the call began and gets the call's result, and the
/// environments that the call made are given up unless one of them is kept
/// for good.
pub open spec fn call_ends<'a>(
    pre: State<'a>,
    post: State<'a>,
    rest: Seq<Frame<'a>>,
    function: Function<'a>,
    prev: usize,
    base: usize,
    mark: usize,
    value: Object,
) -> bool {
    &&& post.frames == rest
    &&& post.env == prev
    &&& post.values == cut(pre.values, base).push(call_result(pre.envs, function, value))
    &&& post.envs == reclaimed(pre.envs, pre.pinned, mark)
    &&& post.same_objects(pre)
}

/// `return value`: every frame above the innermost call in flight is dropped
/// without being run and the call ends with `value`. Outside any call the
/// rest of the running top-level statement is dropped and the value with it.
pub open spec fn return_unwinds<'a>(pre: State<'a>, post: State<'a>, value: Object) -> bool {
    let k = boundary(pre.frames);
    if k < 0 {
        halted(pre, post)
    } else {
        match pre.frames[k] {
            Frame::Call { function, prev, base, mark } => call_ends(
                pre,
                post,
                pre.frames.take(k),
                function,
                prev,
                base,
                mark,
                value,
            ),
            _ => {
                &&& post.frames == pre.frames.take(k + 1)
                &&& post.env == GLOBALS
                &&& post.values == pre.values
                &&& post.same_store(pre)
            },
        }
    }
}

/// The methods of a class body as a table: each closes over `closure`, the
/// one named `init` is the initializer, and of two with one name the later wins.
pub open spec fn methods_of<'a>(methods: Seq<Func>, closure: usize, n: nat) -> Map<
    Seq<char>,
    Function<'a>,
>
    decreases n,
{
    if n == 0 || n > methods.len() {
        Map::empty()
    } else {
        methods_of(methods, closure, (n - 1) as nat).insert(
            methods[n - 1].name.name(),
            Function {
                decl: &methods[n - 1],
                closure,
                is_init: methods[n - 1].name.name() == "init"@,
            },
        )
    }
}

/// Every method of a class body closes over the environment of the class declaration.
pub proof fn lemma_methods_close_over(methods: Seq<Func>, closure: usize, n: nat)
    ensures
        forall|name: Seq<char>| #[trigger]
            methods_of(methods, closure, n).contains_key(name) ==> methods_of(
                methods,
                closure,
                n,
            )[name].closure == closure,
    decreases n,
{
    if n > 0 && n <= methods.len() {
        lemma_methods_close_over(methods, closure, (n - 1) as nat);
    }
}

/// One step of a statement of which `phase` parts are done, from the state
/// `pre` in which the statement's own frame is already taken off.
pub open spec fn stmt_step<'a>(
    pre: State<'a>,
    post: State<'a>,
    stmt: &'a Stmt,
    phase: usize,
) -> bool {
    let again = pre.frames.push(Frame::Stmt { stmt, phase: 1 });
    match stmt {
        Stmt::ExprStmt(e) => if phase == 0 {
            schedules(pre, post, again.push(Frame::Expr { expr: e, phase: 0 }))
        } else {
            continues(pre, post, pre.frames, popped(pre.values, 1))
        },
        Stmt::Var(v) => match v.initializer {
            Some(init) => if phase == 0 {
                schedules(pre, post, again.push(Frame::Expr { expr: &init, phase: 0 }))
            } else {
                defines(pre, post, v.token.name(), peek(pre.values, 0), popped(pre.values, 1))
            },
            None => defines(pre, post, v.token.name(), Object::Nil, pre.values),
        },
        Stmt::Block(b) => {
            &&& extended(pre.envs, post.envs, pre.env, Map::empty())
            &&& post.env == pre.envs.len()
            &&& post.frames == pre.frames.push(
                Frame::Block {
                    stmts: &b.stmts,
                    next: 0,
                    prev: pre.env,
                    mark: pre.envs.len() as usize,
                },
            )
            &&& post.values == pre.values
            &&& post.same_objects(pre)
        },
        Stmt::If(s) => if phase == 0 {
            schedules(pre, post, again.push(Frame::Expr { expr: &s.condition, phase: 0 }))
        } else {
            let rest = popped(pre.values, 1);
            if truthy(peek(pre.values, 0)@) {
                continues(
                    pre,
                    post,
                    pre.frames.push(Frame::Stmt { stmt: &*s.then_block, phase: 0 }),
                    rest,
                )
            } else {
                match s.else_block {
                    Some(e) => continues(
                        pre,
                        post,
                        pre.frames.push(Frame::Stmt { stmt: &*e, phase: 0 }),
                        rest,
                    ),
                    None => continues(pre, post, pre.frames, rest),
                }
            }
        },
        Stmt::While(s) => if phase == 0 {
            schedules(pre, post, again.push(Frame::Expr { expr: &s.condition, phase: 0 }))
        } else {
            let rest = popped(pre.values, 1);
            if truthy(peek(pre.values, 0)@) {
                continues(
                    pre,
                    post,
                    pre.frames.push(Frame::Stmt { stmt, phase: 0 }).push(
                        Frame::Stmt { stmt: &*s.body, phase: 0 },
                    ),
                    rest,
                )
            } else {
                continues(pre, post, pre.frames, rest)
            }
        },
        Stmt::Func(f) => {
            &&& bound_in(
                pre.envs,
                post.envs,
                pre.env,
                f.name.name(),
                Object::Func(pre.functions.len() as usize),
            )
            &&& post.functions == pre.functions.push(
                Function { decl: f, closure: pre.env, is_init: false },
            )
            &&& post.pinned == larger(pre.pinned, pre.env + 1)
            &&& post.frames == pre.frames
            &&& post.values == pre.values
            &&& post.env == pre.env
            &&& post.classes == pre.classes
            &&& post.instances == pre.instances
            &&& post.locals == pre.locals
        },
        Stmt::Return(r) => match r.value {
            Some(v) => if phase == 0 {
                schedules(pre, post, again.push(Frame::Expr { expr: &v, phase: 0 }))
            } else {
                return_unwinds(
                    State { values: popped(pre.values, 1), ..pre },
                    post,
                    peek(pre.values, 0),
                )
            },
            None => return_unwinds(pre, post, Object::Nil),
        },
        Stmt::Class(c) => {
            &&& bound_in(
                pre.envs,
                post.envs,
                pre.env,
                c.name.name(),
                Object::Class(pre.classes.len() as usize),
            )
            &&& post.classes.len() == pre.classes.len() + 1
            &&& post.classes.take(pre.classes.len() as int) == pre.classes
            &&& post.classes.last().name@ == c.name.name()
            &&& post.classes.last().methods@ == methods_of(
                c.methods@,
                pre.env,
                c.methods@.len(),
            )
            &&& post.pinned == larger(pre.pinned, pre.env + 1)
            &&& post.frames == pre.frames
            &&& post.values == pre.values
            &&& post.env == pre.env
            &&& post.functions == pre.functions
            &&& post.instances == pre.instances
            &&& post.locals == pre.locals
        },
    }
}

/// The text of the error for a call with `got` arguments where `expected` are due.
pub open spec fn arity_message(expected: nat, got: nat) -> Seq<char> {
    "Expected "@ + decimal(expected) + " arguments but got "@ + decimal(got) + "."@
}

/// The topmost `n` values of the stack, oldest first; all of them if there are fewer.
pub open spec fn operands(values: Seq<Object>, n: nat) -> Seq<Object> {
    if n <= values.len() {
        values.subrange(values.len() - n, values.len() as int)
    } else {
        values
    }
}

/// The bindings of the first `n` parameters to the first `n` arguments.
pub open spec fn params_map(params: Seq<Token>, args: Seq<Object>, n: nat) -> Map<
    Seq<char>,
    Object,
>
    decreases n,
{
    if n == 0 || n > params.len() || n > args.len() {
        Map::empty()
    } else {
        params_map(params, args, (n - 1) as nat).insert(params[n - 1].name(), args[n - 1])
    }
}

/// The views of a list of pieces.
pub open spec fn pieces_view(pieces: Seq<Piece>) -> Seq<PieceView> {
    Seq::new(pieces.len(), |i: int| pieces[i]@)
}

/// How a value is shown.
pub open spec fn display_of(st: State, v: Object) -> PieceView {
    match v {
        Object::Num(n) => PieceView::Number(n),
        Object::Str(s) => PieceView::Text(s@),
        Object::Bool(b) => if b {
            PieceView::Text("true"@)
        } else {
            PieceView::Text("false"@)
        },
        Object::Nil => PieceView::Text("nil"@),
        Object::Func(h) => if h < st.functions.len() {
            PieceView::Text("<fn "@ + st.functions[h as int].decl.name.name() + ">"@)
        } else {
            PieceView::Text("<fn>"@)
        },
        Object::NativeFunc(_) => PieceView::Text("<native fn>"@),
        Object::Class(h) => if h < st.classes.len() {
            PieceView::Text(st.classes[h as int].name@)
        } else {
            PieceView::Text("<class>"@)
        },
        Object::ClassInstance(i) => if i < st.instances.len() && st.instances[i as int].klass
            < st.classes.len() {
            PieceView::Text(st.classes[st.instances[i as int].klass as int].name@ + " instance"@)
        } else {
            PieceView::Text("<instance>"@)
        },
    }
}

/// The first `n` of `args` shown and joined by single spaces.
pub open spec fn line_pieces(st: State, args: Seq<Object>, n: nat) -> Seq<PieceView>
    decreases n,
{
    if n == 0 || n > args.len() {
        Seq::empty()
    } else if n == 1 {
        seq![display_of(st, args[0])]
    } else {
        line_pieces(st, args, (n - 1) as nat).push(PieceView::Text(" "@)).push(
            display_of(st, args[n - 1]),
        )
    }
}

/// The value `v` is pushed and nothing else changes.
pub open spec fn pushes<'a>(pre: State<'a>, post: State<'a>, action: Action, v: Object) -> bool {
    &&& continues(pre, post, pre.frames, pre.values.push(v))
    &&& action is Continue
}

/// An operator was applied with `outcome`, after its operands were taken off
/// the value stack.
pub open spec fn applies<'a>(
    pre: State<'a>,
    post: State<'a>,
    action: Action,
    outcome: Outcome,
    token: &'a Token,
) -> bool {
    match outcome {
        Outcome::Value(v) => {
            &&& post.frames == pre.frames
            &&& post.values.len() == pre.values.len() + 1
            &&& post.values.drop_last() == pre.values
            &&& post.values.last()@ == v
            &&& post.env == pre.env
            &&& post.same_store(pre)
            &&& action is Continue
        },
        Outcome::Ask { op, left, right } => {
            &&& schedules(pre, post, pre.frames.push(Frame::Host { token, wait: Wait::Arithmetic }))
            &&& action == Action::Arithmetic { op, left, right }
        },
        Outcome::Fail(m) => fails(pre, post, action, m, *token),
    }
}

/// A call of the user function `function` with `args` begins: with the wrong
/// number of arguments it fails; else a new environment inside the function's
/// closure binds the parameters, becomes current, and the body is scheduled
/// above a call frame that remembers the caller's environment.
pub open spec fn calls<'a>(
    pre: State<'a>,
    post: State<'a>,
    action: Action,
    function: Function<'a>,
    args: Seq<Object>,
    token: Token,
) -> bool {
    if args.len() != function.decl.params@.len() {
        fails(pre, post, action, arity_message(function.decl.params@.len(), args.len()), token)
    } else {
        &&& extended(
            pre.envs,
            post.envs,
            function.closure,
            params_map(function.decl.params@, args, args.len()),
        )
        &&& post.env == pre.envs.len()
        &&& post.frames == pre.frames.push(
            Frame::Call {
                function,
                prev: pre.env,
                base: pre.values.len() as usize,
                mark: pre.envs.len() as usize,
            },
        ).push(
            Frame::Block {
                stmts: &function.decl.body,
                next: 0,
                prev: pre.env,
                mark: pre.envs.len() as usize,
            },
        )
        &&& post.values == pre.values
        &&& post.same_objects(pre)
        &&& action is Continue
    }
}

/// A call of the native function `native` with `args` begins.
pub open spec fn calls_native<'a>(
    pre: State<'a>,
    post: State<'a>,
    action: Action,
    native: NativeFunc,
    args: Seq<Object>,
    token: &'a Token,
) -> bool {
    match native {
        NativeFunc::INPUT => if args.len() > 1 {
            fails(
                pre,
                post,
                action,
                "expect 0 or 1 arguments, got "@ + decimal(args.len()),
                *token,
            )
        } else if args.len() == 1 {
            match args[0] {
                Object::Str(prompt) => {
                    &&& schedules(
                        pre,
                        post,
                        pre.frames.push(Frame::Host { token, wait: Wait::Prompt }),
                    )
                    &&& action matches Action::Write { pieces, newline }
                    &&& !newline
                    &&& pieces_view(pieces@) == seq![PieceView::Text(prompt@)]
                },
                _ => fails(pre, post, action, "the prompt must be a string"@, *token),
            }
        } else {
            &&& schedules(pre, post, pre.frames.push(Frame::Host { token, wait: Wait::Line }))
            &&& action is ReadLine
        },
        _ => {
            &&& schedules(pre, post, pre.frames.push(Frame::Host { token, wait: Wait::Output }))
            &&& action matches Action::Write { pieces, newline }
            &&& newline == (native == NativeFunc::PRINTLN)
            &&& pieces_view(pieces@) == line_pieces(pre, args, args.len())
        },
    }
}

/// The bindings of the environment that a bound method closes over.
pub open spec fn this_binding(instance: usize) -> Map<Seq<char>, Object> {
    Map::<Seq<char>, Object>::empty().insert("this"@, Object::ClassInstance(instance))
}

/// A call of the class with handle `h` begins: a new instance is made; if the
/// class has an `init`, that method is bound to the instance and called with
/// the arguments, and the call will yield the instance; without one the
/// instance is the result at once. The number of arguments must be that of
/// `init`'s parameters, or zero without one.
pub open spec fn instantiates<'a>(
    pre: State<'a>,
    post: State<'a>,
    action: Action,
    h: usize,
    args: Seq<Object>,
    token: Token,
) -> bool {
    let class = pre.classes[h as int];
    let instance = pre.instances.len() as usize;
    let made = {
        &&& post.instances.len() == pre.instances.len() + 1
        &&& post.instances.take(pre.instances.len() as int) == pre.instances
        &&& post.instances.last().klass == h
        &&& post.instances.last().fields@ == Map::<Seq<char>, Object>::empty()
        &&& post.functions == pre.functions
        &&& post.classes == pre.classes
        &&& post.locals == pre.locals
    };
    let after_binding = (pre.envs.len() + 1) as usize;
    if class.methods@.contains_key("init"@) {
        let init = class.methods@["init"@];
        let bound = Function {
            decl: init.decl,
            closure: pre.envs.len() as usize,
            is_init: init.is_init,
        };
        if args.len() != init.decl.params@.len() {
            fails(pre, post, action, arity_message(init.decl.params@.len(), args.len()), token)
        } else {
            &&& made
            &&& post.envs.len() == pre.envs.len() + 2
            &&& extended(pre.envs, post.envs.drop_last(), init.closure, this_binding(instance))
            &&& extended(
                post.envs.drop_last(),
                post.envs,
                pre.envs.len() as usize,
                params_map(init.decl.params@, args, args.len()),
            )
            &&& post.env == pre.envs.len() + 1
            &&& post.pinned == after_binding
            &&& post.frames == pre.frames.push(
                Frame::Call {
                    function: bound,
                    prev: pre.env,
                    base: pre.values.len() as usize,
                    mark: after_binding,
                },
            ).push(
                Frame::Block {
                    stmts: &init.decl.body,
                    next: 0,
                    prev: pre.env,
                    mark: after_binding,
                },
            )
            &&& post.values == pre.values
            &&& action is Continue
        }
    } else if args.len() != 0 {
        fails(pre, post, action, arity_message(0, args.len()), token)
    } else {
        &&& made
        &&& post.envs == pre.envs
        &&& post.pinned == pre.pinned
        &&& post.env == pre.env
        &&& post.frames == pre.frames
        &&& post.values == pre.values.push(Object::ClassInstance(instance))
        &&& action is Continue
    }
}

/// The callee is applied to the arguments.
pub open spec fn invokes<'a>(
    pre: State<'a>,
    post: State<'a>,
    action: Action,
    callee: Object,
    args: Seq<Object>,
    token: &'a Token,
) -> bool {
    match callee {
        Object::Func(h) if h < pre.functions.len() => calls(
            pre,
            post,
            action,
            pre.functions[h as int],
            args,
            *token,
        ),
        Object::NativeFunc(n) => calls_native(pre, post, action, n, args, token),
        Object::Class(h) if h < pre.classes.len() => instantiates(
            pre,
            post,
            action,
            h,
            args,
            *token,
        ),
        _ => fails(pre, post, action, "Can only call functions and classes."@, *token),
    }
}

/// A property `name` is read from `object`: a field of an instance if it has
/// one of that name, else a method of its class bound to the instance.
pub open spec fn gets<'a>(
    pre: State<'a>,
    post: State<'a>,
    action: Action,
    object: Object,
    name: Token,
) -> bool {
    match object {
        Object::ClassInstance(i) if i < pre.instances.len() => {
            let instance = pre.instances[i as int];
            if instance.fields@.contains_key(name.name()) {
                pushes(pre, post, action, instance.fields@[name.name()])
            } else if instance.klass < pre.classes.len() && pre.classes[instance.klass as int]
                .methods@.contains_key(name.name()) {
                let method = pre.classes[instance.klass as int].methods@[name.name()];
                &&& extended(pre.envs, post.envs, method.closure, this_binding(i))
                &&& post.functions == pre.functions.push(
                    Function {
                        decl: method.decl,
                        closure: pre.envs.len() as usize,
                        is_init: method.is_init,
                    },
                )
                &&& post.values == pre.values.push(Object::Func(pre.functions.len() as usize))
                &&& post.pinned == pre.envs.len() + 1
                &&& post.frames == pre.frames
                &&& post.env == pre.env
                &&& post.classes == pre.classes
                &&& post.instances == pre.instances
                &&& post.locals == pre.locals
                &&& action is Continue
            } else {
                fails(pre, post, action, "Undefined property "@ + name.name(), name)
            }
        },
        _ => fails(pre, post, action, "Only instances have properties."@, name),
    }
}

/// The field `name` of `object` is set to `value`, which is the result.
pub open spec fn sets<'a>(
    pre: State<'a>,
    post: State<'a>,
    action: Action,
    object: Object,
    name: Token,
    value: Object,
) -> bool {
    match object {
        Object::ClassInstance(i) if i < pre.instances.len() => {
            &&& post.instances.len() == pre.instances.len()
            &&& post.instances[i as int].klass == pre.instances[i as int].klass
            &&& post.instances[i as int].fields@ == pre.instances[i as int].fields@.insert(
                name.name(),
                value,
            )
            &&& forall|j: int|
                0 <= j < pre.instances.len() && j != i ==> #[trigger] post.instances[j]
                    == pre.instances[j]
            &&& post.values == pre.values.push(value)
            &&& post.frames == pre.frames
            &&& post.env == pre.env
            &&& post.envs == pre.envs
            &&& post.pinned == pre.pinned
            &&& post.functions == pre.functions
            &&& post.classes == pre.classes
            &&& post.locals == pre.locals
            &&& action is Continue
        },
        _ => fails(pre, post, action, "Only instances have properties."@, name),
    }
}

/// The variable `name` of the expression `id` is assigned `value`, which is
/// the result: in the frame at its resolved depth, or in the globals if it
/// has none.
pub open spec fn assigns<'a>(
    pre: State<'a>,
    post: State<'a>,
    action: Action,
    id: u64,
    name: Token,
    value: Object,
) -> bool {
    let target = if pre.locals.contains_key(id) {
        ancestor_of(pre.envs, pre.env, pre.locals[id] as nat)
    } else {
        Some(GLOBALS)
    };
    match target {
        Some(frame) => {
            &&& bound_in(pre.envs, post.envs, frame, name.name(), value)
            &&& post.values == pre.values.push(value)
            &&& post.frames == pre.frames
            &&& post.env == pre.env
            &&& post.same_objects(pre)
            &&& action is Continue
        },
        None => fails(pre, post, action, "Undefined variable."@, name),
    }
}

/// The phase after `phase`.
pub open spec fn after(phase: usize) -> usize {
    if phase < usize::MAX {
        (phase + 1) as usize
    } else {
        phase
    }
}

/// One step of an expression of which `phase` operands are evaluated, from
/// the state `pre` in which the expression's own frame is already taken off.
pub open spec fn expr_step<'a>(
    pre: State<'a>,
    post: State<'a>,
    action: Action,
    expr: &'a Expr,
    phase: usize,
) -> bool {
    let again = pre.frames.push(Frame::Expr { expr, phase: after(phase) });
    let operand = |e: &'a Expr|
        schedules(pre, post, again.push(Frame::Expr { expr: e, phase: 0 })) && action is Continue;
    match expr {
        Expr::Literal(l) => pushes(pre, post, action, l.value),
        Expr::Grouping(g) => schedules(
            pre,
            post,
            pre.frames.push(Frame::Expr { expr: &*g.expr, phase: 0 }),
        ) && action is Continue,
        Expr::Unary(u) => if phase == 0 {
            operand(&*u.right)
        } else {
            applies(
                State { values: popped(pre.values, 1), ..pre },
                post,
                action,
                unary_outcome(u.operator.token_type, peek(pre.values, 0)@),
                &u.operator,
            )
        },
        Expr::Binary(b) => if phase == 0 {
            operand(&*b.left)
        } else if phase == 1 {
            operand(&*b.right)
        } else {
            applies(
                State { values: popped(pre.values, 2), ..pre },
                post,
                action,
                binary_outcome(b.operator.token_type, peek(pre.values, 1)@, peek(pre.values, 0)@),
                &b.operator,
            )
        },
        Expr::Logical(l) => if phase == 0 {
            operand(&*l.left)
        } else {
            match short_circuits(l.operator.token_type, peek(pre.values, 0)@) {
                Some(true) => pushes(
                    State { values: popped(pre.values, 1), ..pre },
                    post,
                    action,
                    peek(pre.values, 0),
                ),
                Some(false) => continues(
                    pre,
                    post,
                    pre.frames.push(Frame::Expr { expr: &*l.right, phase: 0 }),
                    popped(pre.values, 1),
                ) && action is Continue,
                None => fails(pre, post, action, "Unknown operator."@, l.operator),
            }
        },
        Expr::Var(v) => match pre.variable(v.id, v.name.name()) {
            Some(value) => pushes(pre, post, action, value),
            None => fails(pre, post, action, "Undefined variable."@, v.name),
        },
        Expr::This(t) => match pre.variable(t.id, t.keyword.name()) {
            Some(value) => pushes(pre, post, action, value),
            None => fails(pre, post, action, "Undeclared variable this"@, t.keyword),
        },
        Expr::Assign(a) => if phase == 0 {
            operand(&*a.value)
        } else {
            assigns(
                State { values: popped(pre.values, 1), ..pre },
                post,
                action,
                a.id,
                a.name,
                peek(pre.values, 0),
            )
        },
        Expr::Call(c) => if phase == 0 {
            operand(&*c.calle)
        } else if phase <= c.arguments@.len() {
            operand(&c.arguments@[phase - 1])
        } else {
            let n = c.arguments@.len();
            let below = popped(pre.values, n);
            invokes(
                State { values: popped(below, 1), ..pre },
                post,
                action,
                peek(below, 0),
                operands(pre.values, n),
                &c.paren,
            )
        },
        Expr::Get(g) => if phase == 0 {
            operand(&*g.expr)
        } else {
            gets(
                State { values: popped(pre.values, 1), ..pre },
                post,
                action,
                peek(pre.values, 0),
                g.name,
            )
        },
        Expr::SetExpr(s) => if phase == 0 {
            operand(&*s.expr)
        } else if phase == 1 {
            match peek(pre.values, 0) {
                Object::ClassInstance(i) if i < pre.instances.len() => operand(&*s.value),
                _ => fails(pre, post, action, "Only instances have properties."@, s.name),
            }
        } else {
            sets(
                State { values: popped(pre.values, 2), ..pre },
                post,
                action,
                peek(pre.values, 1),
                s.name,
                peek(pre.values, 0),
            )
        },
    }
}

/// One step of a request to the host that is in flight: `event` is the
/// host's answer.
pub open spec fn host_step<'a>(
    pre: State<'a>,
    post: State<'a>,
    action: Action,
    token: &'a Token,
    wait: Wait,
    event: Event,
) -> bool {
    let unanswered = fails(pre, post, action, "The host did not answer the request."@, *token);
    match event {
        Event::Failed(message) => fails(pre, post, action, message@, *token),
        Event::Number(n) => if wait == Wait::Arithmetic {
            pushes(pre, post, action, Object::Num(n))
        } else {
            unanswered
        },
        Event::Resume => if wait == Wait::Output {
            pushes(pre, post, action, Object::Nil)
        } else if wait == Wait::Prompt {
            &&& schedules(pre, post, pre.frames.push(Frame::Host { token, wait: Wait::Line }))
            &&& action is ReadLine
        } else {
            unanswered
        },
        Event::Line(line) => if wait == Wait::Line {
            &&& post.frames == pre.frames
            &&& post.values.len() == pre.values.len() + 1
            &&& post.values.drop_last() == pre.values
            &&& post.values.last()@ == ObjectView::Str(without_terminator(line@))
            &&& post.env == pre.env
            &&& post.same_store(pre)
            &&& action is Continue
        } else {
            unanswered
        },
    }
}

/// One step of the machine: the innermost frame is taken off and run. With
/// no frame left the program is done.
pub open spec fn step_spec<'a>(pre: State<'a>, event: Event, post: State<'a>, action: Action)
    -> bool {
    if pre.frames.len() == 0 {
        &&& schedules(pre, post, pre.frames)
        &&& action is Done
    } else {
        let rest = State { frames: pre.frames.drop_last(), ..pre };
        match pre.frames.last() {
            Frame::Program { stmts, next } => {
                &&& action is Continue
                &&& if next < stmts@.len() {
                    schedules(
                        rest,
                        post,
                        rest.frames.push(Frame::Program { stmts, next: (next + 1) as usize }).push(
                            Frame::Stmt { stmt: &stmts@[next as int], phase: 0 },
                        ),
                    )
                } else {
                    schedules(rest, post, rest.frames)
                }
            },
            Frame::Block { stmts, next, prev, mark } => {
                &&& action is Continue
                &&& if next < stmts@.len() {
                    schedules(
                        rest,
                        post,
                        rest.frames.push(
                            Frame::Block { stmts, next: (next + 1) as usize, prev, mark },
                        ).push(Frame::Stmt { stmt: &stmts@[next as int], phase: 0 }),
                    )
                } else {
                    &&& post.frames == rest.frames
                    &&& post.env == prev
                    &&& post.values == rest.values
                    &&& post.envs == reclaimed(rest.envs, rest.pinned, mark)
                    &&& post.same_objects(rest)
                }
            },
            Frame::Stmt { stmt, phase } => action is Continue && stmt_step(rest, post, stmt, phase),
            Frame::Expr { expr, phase } => expr_step(rest, post, action, expr, phase),
            Frame::Call { function, prev, base, mark } => {
                &&& action is Continue
                &&& call_ends(rest, post, rest.frames, function, prev, base, mark, Object::Nil)
            },
            Frame::Host { token, wait } => host_step(rest, post, action, token, wait, event),
        }
    }
}

/// The event of the `i`th of a run of steps: the host's answer for the
/// first, nothing to report for the others.
pub open spec fn event_of(first: Event, i: int) -> Event {
    if i == 0 {
        first
    } else {
        Event::Resume
    }
}

/// A run of steps through the states `states`: every step but the last asks
/// nothing of the host, and the last gives `action`. A run of no step gives
/// [`Action::Continue`].
pub open spec fn run_spec<'a>(states: Seq<State<'a>>, first: Event, action: Action) -> bool {
    &&& states.len() > 0
    &&& forall|i: int|
        0 <= i < states.len() - 2 ==> step_spec(
            #[trigger] states[i],
            event_of(first, i),
            states[i + 1],
            Action::Continue,
        )
    &&& if states.len() == 1 {
        action is Continue
    } else {
        step_spec(
            states[states.len() - 2],
            event_of(first, states.len() - 2),
            states[states.len() - 1],
            action,
        )
    }
}

} // verus!
