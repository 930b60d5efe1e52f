//! The evaluator: the machine of [`crate::machine`] in executable form.
//!
//! One call of [`Interpreter::step`] performs one transition.

use vstd::prelude::*;
use vstd::string::*;
use std::collections::HashMap;
use crate::environment::{
    Environment, ancestor_of, assign_at, bound_in, envs_ordered, envs_wf, get_at, value_at,
};
use crate::expressions::Expr;
use crate::machine::{
    Action, Event, Frame, GLOBALS, Piece, PieceView, State, Wait, applies, arity_message, assigns,
    call_ends, calls, calls_native, class_ok, defines, display_of, expr_step, extended, fails,
    frame_ok, frames_ok, gets, host_step, instantiates, invokes, lemma_bound_in_order,
    lemma_extended_in_order, lemma_methods_close_over, lemma_more_pinned, lemma_marked_push,
    lemma_marked_begin, lemma_marked_for_more, lemma_reclaimed_in_order, reclaimed, larger,
    frames_marked, functions_ok, classes_wf, instances_wf, line_pieces,
    methods_of, operands, params_map, peek, pieces_view, popped, pushes, return_unwinds,
    schedules, sets, step_spec, stmt_step, this_binding, after, boundary, run_spec, event_of,
};
use crate::operators::{Applied, binary_op, logical_op, strip_terminator, unary_op};
use crate::pipeline::Program;
use crate::scoping::{
    lemma_idle_fits, lemma_loaded_fits, lemma_step_keeps_scope, scoped, stmts_fit,
};
use crate::scanner::Token;
use crate::statements::{Func, Stmt};
use crate::table::Table;
use crate::text::{decimal, push_decimal};
use crate::types::{Function, LoxClass, LoxInstance, NativeFunc, Object};
use crate::binding::{binds, lemma_idle_binds, lemma_loaded_binds, lemma_step_keeps_binding};
use crate::naming::stmts_named;

verus! {

broadcast use vstd::std_specs::hash::group_hash_axioms;

/// An error raised while a program runs: what went wrong and the token it is blamed on.
#[derive(Debug)]
pub struct RuntimeError {
    pub message: String,
    pub token: Token,
}

impl RuntimeError {
    /// A runtime error with the given message, blamed on the given token.
    pub fn new(message: String, token: Token) -> (r: Self)
        ensures
            r.message == message,
            r.token == token,
    {
        Self { message, token }
    }

    /// The line that is written to standard error for the error.
    pub fn report(&self) -> (r: String)
        ensures
            r@ == "Runtime Error: "@ + self.message@ + " - [Line: "@ + decimal(
                self.token.line as nat,
            ) + "]"@,
    {
        let mut text = "Runtime Error: ".to_owned();
        text.append(self.message.as_str());
        text.append(" - [Line: ");
        push_decimal(&mut text, self.token.line);
        text.append("]");
        text
    }
}

/// The evaluator.
pub struct Interpreter<'a> {
    env: usize,
    envs: Vec<Environment>,
    pinned: usize,
    functions: Vec<Function<'a>>,
    classes: Vec<LoxClass<'a>>,
    instances: Vec<LoxInstance>,
    frames: Vec<Frame<'a>>,
    values: Vec<Object>,
    locals: HashMap<u64, usize>,
}

impl<'a> View for Interpreter<'a> {
    type V = State<'a>;

    closed spec fn view(&self) -> State<'a> {
        State {
            env: self.env,
            envs: self.envs@,
            pinned: self.pinned,
            functions: self.functions@,
            classes: self.classes@,
            instances: self.instances@,
            frames: self.frames@,
            values: self.values@,
            locals: self.locals@,
        }
    }
}

proof fn lemma_popped_twice(values: Seq<Object>)
    ensures
        popped(popped(values, 1), 1) == popped(values, 2),
        peek(popped(values, 1), 0) == peek(values, 1),
{
    assert(popped(popped(values, 1), 1) =~= popped(values, 2));
}

fn pop_value(values: &mut Vec<Object>) -> (r: Object)
    ensures
        r == peek(old(values)@, 0),
        final(values)@ == popped(old(values)@, 1),
{
    match values.pop() {
        Some(v) => v,
        None => Object::Nil,
    }
}

fn top_value(values: &Vec<Object>) -> (r: Object)
    ensures
        r == peek(values@, 0),
{
    if values.len() > 0 {
        values[values.len() - 1].clone()
    } else {
        Object::Nil
    }
}

impl<'a> Interpreter<'a> {
    /// A machine with no program: the globals hold the native functions
    /// `input`, `println` and `print`, and nothing is resolved.
    pub fn new() -> (r: Self)
        ensures
            r@.wf(),
            r@.env == GLOBALS,
            r@.envs.len() == 1,
            r@.pinned == 1,
            r@.envs[0].enclosing == None::<usize>,
            r@.envs[0].values@ == Map::<Seq<char>, Object>::empty().insert(
                "input"@,
                Object::NativeFunc(NativeFunc::INPUT),
            ).insert("println"@, Object::NativeFunc(NativeFunc::PRINTLN)).insert(
                "print"@,
                Object::NativeFunc(NativeFunc::PRINT),
            ),
            r@.functions.len() == 0,
            r@.classes.len() == 0,
            r@.instances.len() == 0,
            r@.frames.len() == 0,
            r@.values.len() == 0,
            r@.locals == Map::<u64, usize>::empty(),
            scoped(r@),
            binds(r@),
    {
        let mut global = Environment::new(None);
        global.set("input".to_owned(), Object::NativeFunc(NativeFunc::INPUT));
        global.set("println".to_owned(), Object::NativeFunc(NativeFunc::PRINTLN));
        global.set("print".to_owned(), Object::NativeFunc(NativeFunc::PRINT));
        let mut envs: Vec<Environment> = Vec::new();
        envs.push(global);
        let r = Self {
            env: GLOBALS,
            envs,
            pinned: 1,
            functions: Vec::new(),
            classes: Vec::new(),
            instances: Vec::new(),
            frames: Vec::new(),
            values: Vec::new(),
            locals: HashMap::new(),
        };
        proof {
            lemma_idle_fits(r@);
            lemma_idle_binds(r@);
        }
        r
    }

    /// A machine that is about to run the program: the globals hold the
    /// native functions, the machine holds the depths of the program, and the
    /// program's statements are pending. If the depths fit the program, as
    /// those of a compiled program do, the machine fits them; if they lead
    /// to scopes that define the names read, as those of a compiled plain
    /// program do, the machine binds what it reads.
    pub fn load(program: &'a Program) -> (r: Self)
        ensures
            r@.wf(),
            r@.frames == seq![Frame::Program { stmts: &program.stmts, next: 0 }],
            r@.locals == program.locals@,
            r@.env == GLOBALS,
            r@.envs.len() == 1,
            r@.values.len() == 0,
            stmts_fit(program.stmts@, 0, 0, program.locals@) ==> scoped(r@),
            stmts_named(program.stmts@, 0, Seq::empty(), program.locals@) ==> binds(r@),
    {
        let mut machine = Interpreter::new();
        machine.resolve_all(program.locals.clone());
        machine.interpret(&program.stmts);
        assert(machine@.frames =~= seq![Frame::Program { stmts: &program.stmts, next: 0 }]);
        machine
    }

    /// Records that the expression `expr` names a binding `depth` frames out.
    pub fn resolve(&mut self, expr: &Expr, depth: usize)
        ensures
            final(self)@.locals == old(self)@.locals.insert(expr.id(), depth),
            final(self)@.env == old(self)@.env,
            final(self)@.envs == old(self)@.envs,
            final(self)@.pinned == old(self)@.pinned,
            final(self)@.functions == old(self)@.functions,
            final(self)@.classes == old(self)@.classes,
            final(self)@.instances == old(self)@.instances,
            final(self)@.frames == old(self)@.frames,
            final(self)@.values == old(self)@.values,
            old(self)@.wf() ==> final(self)@.wf(),
    {
        self.locals.insert(expr.get_id(), depth);
    }

    /// Takes over the depths that a resolver has recorded, in place of those
    /// held so far. A machine that has not run anything fits whatever depths
    /// it is given.
    pub fn resolve_all(&mut self, locals: HashMap<u64, usize>)
        ensures
            final(self)@.locals == locals@,
            old(self)@.frames.len() == 0 && old(self)@.functions.len() == 0 && old(
                self,
            )@.classes.len() == 0 && old(self)@.envs.len() == 1 ==> scoped(final(self)@),
            old(self)@.frames.len() == 0 && old(self)@.functions.len() == 0 && old(
                self,
            )@.classes.len() == 0 ==> binds(final(self)@),
            final(self)@.env == old(self)@.env,
            final(self)@.envs == old(self)@.envs,
            final(self)@.pinned == old(self)@.pinned,
            final(self)@.functions == old(self)@.functions,
            final(self)@.classes == old(self)@.classes,
            final(self)@.instances == old(self)@.instances,
            final(self)@.frames == old(self)@.frames,
            final(self)@.values == old(self)@.values,
            old(self)@.wf() ==> final(self)@.wf(),
    {
        self.locals = locals;
        proof {
            if old(self)@.frames.len() == 0 && old(self)@.functions.len() == 0 && old(
                self,
            )@.classes.len() == 0 && old(self)@.envs.len() == 1 {
                lemma_idle_fits(self@);
            }
            if old(self)@.frames.len() == 0 && old(self)@.functions.len() == 0 && old(
                self,
            )@.classes.len() == 0 {
                lemma_idle_binds(self@);
            }
        }
    }

    /// Schedules the evaluation of `expr`: its value will be pushed on the value stack.
    pub fn evaluate(&mut self, expr: &'a Expr)
        ensures
            final(self)@.frames == old(self)@.frames.push(Frame::Expr { expr, phase: 0 }),
            final(self)@.values == old(self)@.values,
            final(self)@.env == old(self)@.env,
            final(self)@.same_store(old(self)@),
            old(self)@.wf() ==> final(self)@.wf(),
    {
        self.frames.push(Frame::Expr { expr, phase: 0 });
        proof {
            if old(self)@.wf() {
                lemma_marked_push(
                    old(self)@.frames,
                    Frame::Expr { expr, phase: 0 },
                    self@.envs.len(),
                );
            }
        }
    }

    /// Schedules the execution of `stmt`.
    pub fn execute(&mut self, stmt: &'a Stmt)
        ensures
            final(self)@.frames == old(self)@.frames.push(Frame::Stmt { stmt, phase: 0 }),
            final(self)@.values == old(self)@.values,
            final(self)@.env == old(self)@.env,
            final(self)@.same_store(old(self)@),
            old(self)@.wf() ==> final(self)@.wf(),
    {
        self.frames.push(Frame::Stmt { stmt, phase: 0 });
        proof {
            if old(self)@.wf() {
                lemma_marked_push(
                    old(self)@.frames,
                    Frame::Stmt { stmt, phase: 0 },
                    self@.envs.len(),
                );
            }
        }
    }

    /// Schedules the statements `stmts` to run in the environment `env`, and
    /// makes `env` current; when they have run, or a `return` unwinds through
    /// them, the environment that was current before is current again.
    pub fn execute_block(&mut self, stmts: &'a Vec<Stmt>, env: usize)
        requires
            old(self)@.wf(),
            env < old(self)@.envs.len(),
        ensures
            final(self)@.wf(),
            final(self)@.frames == old(self)@.frames.push(
                Frame::Block {
                    stmts,
                    next: 0,
                    prev: old(self)@.env,
                    mark: old(self)@.envs.len() as usize,
                },
            ),
            final(self)@.env == env,
            final(self)@.values == old(self)@.values,
            final(self)@.same_store(old(self)@),
    {
        let frame = Frame::Block { stmts, next: 0, prev: self.env, mark: self.envs.len() };
        self.frames.push(frame);
        self.env = env;
        proof {
            lemma_marked_begin(old(self)@.frames, frame, self@.envs.len(), self@.envs.len());
        }
    }

    /// Loads a program: its statements will run in order in the global
    /// environment. If the depths that the machine holds fit the program and
    /// nothing is pending, the machine fits them from here on; if they lead
    /// to scopes that define the names read, it binds what it reads.
    pub fn interpret(&mut self, stmts: &'a Vec<Stmt>)
        requires
            old(self)@.wf(),
        ensures
            final(self)@.wf(),
            scoped(old(self)@) && old(self)@.frames.len() == 0 && stmts_fit(
                stmts@,
                0,
                0,
                old(self)@.locals,
            ) ==> scoped(final(self)@),
            binds(old(self)@) && old(self)@.frames.len() == 0 && stmts_named(
                stmts@,
                0,
                Seq::empty(),
                old(self)@.locals,
            ) ==> binds(final(self)@),
            final(self)@.frames == old(self)@.frames.push(Frame::Program { stmts, next: 0 }),
            final(self)@.env == GLOBALS,
            final(self)@.values == old(self)@.values,
            final(self)@.same_store(old(self)@),
    {
        self.frames.push(Frame::Program { stmts, next: 0 });
        self.env = GLOBALS;
        proof {
            lemma_marked_push(
                old(self)@.frames,
                Frame::Program { stmts, next: 0 },
                self@.envs.len(),
            );
            if scoped(old(self)@) && old(self)@.frames.len() == 0 && stmts_fit(
                stmts@,
                0,
                0,
                old(self)@.locals,
            ) {
                lemma_loaded_fits(old(self)@, self@, stmts);
            }
            if binds(old(self)@) && old(self)@.frames.len() == 0 && stmts_named(
                stmts@,
                0,
                Seq::empty(),
                old(self)@.locals,
            ) {
                lemma_loaded_binds(old(self)@, self@, stmts);
            }
        }
    }

    fn lookup_variable(&self, name: &Token, id: u64) -> (r: Option<Object>)
        requires
            self@.wf(),
        ensures
            r == self@.variable(id, name.name()),
    {
        let key = name.name_string();
        match self.locals.get(&id) {
            Some(d) => get_at(&self.envs, self.env, *d, &key),
            None => get_at(&self.envs, GLOBALS, 0, &key),
        }
    }
}

impl<'a> Interpreter<'a> {
    /// Stops the machine with a runtime error.
    fn fail(&mut self, message: String, token: &Token) -> (action: Action)
        requires
            old(self)@.wf(),
        ensures
            final(self)@.wf(),
            fails(old(self)@, final(self)@, action, message@, *token),
    {
        self.frames.clear();
        self.values.clear();
        self.env = GLOBALS;
        Action::Error(RuntimeError::new(message, token.clone()))
    }

    /// Reads the global variable `name`, if there is one.
    pub fn global_get(&self, name: &String) -> (r: Option<Object>)
        requires
            self@.wf(),
        ensures
            r == value_at(self@.envs, GLOBALS, 0, name@),
    {
        get_at(&self.envs, GLOBALS, 0, name)
    }

    /// Assigns to the global variable `name`, which is created if there is none.
    pub fn global_assign(&mut self, name: String, value: Object)
        requires
            old(self)@.wf(),
        ensures
            final(self)@.wf(),
            bound_in(old(self)@.envs, final(self)@.envs, GLOBALS, name@, value),
            final(self)@.frames == old(self)@.frames,
            final(self)@.values == old(self)@.values,
            final(self)@.env == old(self)@.env,
            final(self)@.same_objects(old(self)@),
    {
        assign_at(&mut self.envs, GLOBALS, 0, name, value);
        proof {
            lemma_bound_in_order(old(self)@.envs, self@.envs, GLOBALS, name@, value);
        }
    }

    /// The number of environments that are alive.
    pub fn environments(&self) -> (r: usize)
        ensures
            r == self@.envs.len(),
    {
        self.envs.len()
    }

    /// Whether no work is pending: the program, if one was loaded, has ended.
    pub fn is_done(&self) -> (r: bool)
        ensures
            r == (self@.frames.len() == 0),
    {
        self.frames.len() == 0
    }

    /// Binds `name` in the current environment, in place of an earlier
    /// binding of the name in that environment.
    pub fn define(&mut self, name: String, value: Object)
        requires
            old(self)@.wf(),
        ensures
            final(self)@.wf(),
            defines(old(self)@, final(self)@, name@, value, old(self)@.values),
    {
        let e = self.env;
        self.envs[e].set(name, value);
        proof {
            lemma_bound_in_order(old(self)@.envs, self@.envs, e, name@, value);
        }
    }

    /// Makes a new, empty environment inside `enclosing` and gives its handle.
    fn new_env(&mut self, enclosing: usize) -> (r: usize)
        requires
            old(self)@.wf(),
            enclosing < old(self)@.envs.len(),
        ensures
            final(self)@.wf(),
            r == old(self)@.envs.len(),
            extended(old(self)@.envs, final(self)@.envs, enclosing, Map::empty()),
            final(self)@.frames == old(self)@.frames,
            final(self)@.values == old(self)@.values,
            final(self)@.env == old(self)@.env,
            final(self)@.same_objects(old(self)@),
    {
        let handle = self.envs.len();
        self.envs.push(Environment::new(Some(enclosing)));
        proof {
            let pre = old(self)@;
            assert(self@.envs.take(pre.envs.len() as int) == pre.envs);
            lemma_extended_in_order(pre.envs, self@.envs, enclosing, Map::empty());
            lemma_marked_for_more(pre.frames, pre.envs.len(), self@.envs.len());
        }
        handle
    }

    /// Schedules a frame that is no block and no call.
    fn schedule(&mut self, frame: Frame<'a>)
        requires
            !(frame is Block),
            !(frame is Call),
        ensures
            schedules(old(self)@, final(self)@, old(self)@.frames.push(frame)),
            old(self)@.wf() ==> final(self)@.wf(),
    {
        self.frames.push(frame);
        proof {
            if old(self)@.wf() {
                lemma_marked_push(old(self)@.frames, frame, self@.envs.len());
            }
        }
    }

    /// Keeps the first `n` environments for good.
    fn pin(&mut self, n: usize)
        requires
            old(self)@.wf(),
            n <= old(self)@.envs.len(),
        ensures
            final(self)@.pinned == larger(old(self)@.pinned, n as int),
            final(self)@.pinned >= n,
            final(self)@.envs == old(self)@.envs,
            final(self)@.frames == old(self)@.frames,
            final(self)@.values == old(self)@.values,
            final(self)@.env == old(self)@.env,
            final(self)@.functions == old(self)@.functions,
            final(self)@.classes == old(self)@.classes,
            final(self)@.instances == old(self)@.instances,
            final(self)@.locals == old(self)@.locals,
            final(self)@.wf(),
    {
        if self.pinned < n {
            proof {
                lemma_more_pinned(
                    self@.functions,
                    self@.classes,
                    self@.frames,
                    self@.pinned as nat,
                    n as nat,
                );
            }
            self.pinned = n;
        }
    }

    /// Gives up the environments that were made since there were `mark`, if
    /// none of them is kept for good.
    fn reclaim(&mut self, mark: usize)
        requires
            old(self)@.envs.len() > 0,
            0 < old(self)@.pinned <= old(self)@.envs.len(),
            envs_wf(old(self)@.envs),
            envs_ordered(old(self)@.envs),
        ensures
            final(self)@.envs == reclaimed(old(self)@.envs, old(self)@.pinned, mark),
            final(self)@.envs.len() > 0,
            final(self)@.pinned <= final(self)@.envs.len(),
            envs_wf(final(self)@.envs),
            envs_ordered(final(self)@.envs),
            mark <= old(self)@.envs.len() ==> final(self)@.envs.len() >= mark,
            final(self)@.frames == old(self)@.frames,
            final(self)@.values == old(self)@.values,
            final(self)@.env == old(self)@.env,
            final(self)@.same_objects(old(self)@),
    {
        proof {
            lemma_reclaimed_in_order(self@.envs, self@.pinned, mark);
        }
        if self.pinned <= mark && mark <= self.envs.len() {
            self.envs.truncate(mark);
        }
    }

    /// Ends a call of `function` with `value`.
    fn end_call(
        &mut self,
        function: Function<'a>,
        prev: usize,
        base: usize,
        mark: usize,
        value: Object,
    )
        requires
            old(self)@.envs.len() > 0,
            0 < old(self)@.pinned <= old(self)@.envs.len(),
            envs_wf(old(self)@.envs),
            envs_ordered(old(self)@.envs),
            functions_ok(old(self)@.functions, old(self)@.pinned as nat),
            classes_wf(old(self)@.classes, old(self)@.pinned as nat),
            instances_wf(old(self)@.instances),
            frames_ok(old(self)@.frames, old(self)@.pinned as nat),
            frames_marked(old(self)@.frames, mark as nat),
            prev < mark <= old(self)@.envs.len(),
        ensures
            final(self)@.wf(),
            call_ends(
                old(self)@,
                final(self)@,
                old(self)@.frames,
                function,
                prev,
                base,
                mark,
                value,
            ),
    {
        let result = if function.is_init {
            match get_at(&self.envs, function.closure, 0, &"this".to_owned()) {
                Some(this) => this,
                None => Object::Nil,
            }
        } else {
            value
        };
        self.values.truncate(base);
        self.values.push(result);
        self.env = prev;
        self.reclaim(mark);
        proof {
            lemma_marked_for_more(self@.frames, mark as nat, self@.envs.len());
        }
    }

    /// Performs a `return` of `value`.
    fn unwind(&mut self, value: Object)
        requires
            old(self)@.wf(),
        ensures
            final(self)@.wf(),
            return_unwinds(old(self)@, final(self)@, value),
    {
        loop
            invariant
                self@.wf(),
                self@.frames.len() <= old(self)@.frames.len(),
                self@.frames == old(self)@.frames.take(self@.frames.len() as int),
                boundary(self@.frames) == boundary(old(self)@.frames),
                self@.values == old(self)@.values,
                self@.same_store(old(self)@),
            decreases self@.frames.len(),
        {
            let n = self.frames.len();
            if n == 0 {
                self.values.clear();
                self.env = GLOBALS;
                assert(self@.frames == Seq::<Frame<'a>>::empty());
                return ;
            }
            let top = self.frames[n - 1];
            match top {
                Frame::Call { function, prev, base, mark } => {
                    self.frames.pop();
                    assert(self@.frames == old(self)@.frames.take(n - 1));
                    assert(frames_ok(self@.frames, self@.pinned as nat));
                    self.end_call(function, prev, base, mark, value);
                    return ;
                },
                Frame::Program { .. } => {
                    self.env = GLOBALS;
                    return ;
                },
                _ => {
                    let ghost before = self@.frames;
                    self.frames.pop();
                    assert(self@.frames == old(self)@.frames.take(n - 1));
                    assert(self@.frames == before.drop_last());
                    assert(frames_ok(self@.frames, self@.pinned as nat));
                    proof {
                        match top {
                            Frame::Block { mark, .. } => {
                                lemma_marked_for_more(
                                    self@.frames,
                                    mark as nat,
                                    self@.envs.len(),
                                );
                            },
                            _ => {},
                        }
                    }
                },
            }
        }
    }

    /// Builds the method table of a class body.
    fn collect_methods(&self, methods: &'a Vec<Func>) -> (r: Table<Function<'a>>)
        ensures
            r.wf(),
            r@ == methods_of(methods@, self@.env, methods@.len()),
    {
        let mut table: Table<Function<'a>> = Table::new();
        let mut i: usize = 0;
        while i < methods.len()
            invariant
                i <= methods@.len(),
                table.wf(),
                table@ == methods_of(methods@, self@.env, i as nat),
            decreases methods@.len() - i,
        {
            let name = methods[i].name.name_string();
            let is_init = name == "init".to_owned();
            table.insert(name, Function { decl: &methods[i], closure: self.env, is_init });
            i += 1;
        }
        table
    }

    /// Performs one step of the statement `stmt`, of which `phase` parts are done.
    fn run_stmt(&mut self, stmt: &'a Stmt, phase: usize)
        requires
            old(self)@.wf(),
        ensures
            final(self)@.wf(),
            stmt_step(old(self)@, final(self)@, stmt, phase),
    {
        match stmt {
            Stmt::ExprStmt(e) => {
                if phase == 0 {
                    self.schedule(Frame::Stmt { stmt, phase: 1 });
                    self.schedule(Frame::Expr { expr: e, phase: 0 });
                } else {
                    pop_value(&mut self.values);
                }
            },
            Stmt::Var(v) => {
                match &v.initializer {
                    Some(init) => {
                        if phase == 0 {
                            self.schedule(Frame::Stmt { stmt, phase: 1 });
                            self.schedule(Frame::Expr { expr: init, phase: 0 });
                        } else {
                            let value = pop_value(&mut self.values);
                            self.define(v.token.name_string(), value);
                        }
                    },
                    None => {
                        self.define(v.token.name_string(), Object::Nil);
                    },
                }
            },
            Stmt::Block(b) => {
                let mark = self.envs.len();
                let prev = self.env;
                let env = self.new_env(prev);
                let frame = Frame::Block { stmts: &b.stmts, next: 0, prev, mark };
                self.frames.push(frame);
                self.env = env;
                proof {
                    lemma_marked_begin(old(self)@.frames, frame, mark as nat, self@.envs.len());
                }
            },
            Stmt::If(s) => {
                if phase == 0 {
                    self.schedule(Frame::Stmt { stmt, phase: 1 });
                    self.schedule(Frame::Expr { expr: &s.condition, phase: 0 });
                } else {
                    let condition = pop_value(&mut self.values);
                    if condition.is_truthy() {
                        self.schedule(Frame::Stmt { stmt: &*s.then_block, phase: 0 });
                    } else {
                        match &s.else_block {
                            Some(e) => {
                                self.schedule(Frame::Stmt { stmt: &**e, phase: 0 });
                            },
                            None => {},
                        }
                    }
                }
            },
            Stmt::While(s) => {
                if phase == 0 {
                    self.schedule(Frame::Stmt { stmt, phase: 1 });
                    self.schedule(Frame::Expr { expr: &s.condition, phase: 0 });
                } else {
                    let condition = pop_value(&mut self.values);
                    if condition.is_truthy() {
                        self.schedule(Frame::Stmt { stmt, phase: 0 });
                        self.schedule(Frame::Stmt { stmt: &*s.body, phase: 0 });
                    }
                }
            },
            Stmt::Func(f) => {
                let handle = self.functions.len();
                assert(self.envs@.len() == self.envs.len());
                self.pin(self.env + 1);
                self.functions.push(Function { decl: f, closure: self.env, is_init: false });
                self.define(f.name.name_string(), Object::Func(handle));
            },
            Stmt::Return(r) => {
                match &r.value {
                    Some(v) => {
                        if phase == 0 {
                            self.schedule(Frame::Stmt { stmt, phase: 1 });
                            self.schedule(Frame::Expr { expr: v, phase: 0 });
                        } else {
                            let value = pop_value(&mut self.values);
                            self.unwind(value);
                        }
                    },
                    None => {
                        self.unwind(Object::Nil);
                    },
                }
            },
            Stmt::Class(c) => {
                let methods = self.collect_methods(&c.methods);
                let handle = self.classes.len();
                assert(self.envs@.len() == self.envs.len());
                self.pin(self.env + 1);
                let ghost pinned = self@;
                self.define(c.name.name_string(), Object::Nil);
                self.classes.push(LoxClass::new(c.name.name_string(), methods));
                assert(self@.classes.take(handle as int) == old(self)@.classes);
                proof {
                    lemma_methods_close_over(c.methods@, self@.env, c.methods@.len());
                    assert forall|i: int| 0 <= i < self@.classes.len() implies class_ok(
                        #[trigger] self@.classes[i],
                        self@.pinned as nat,
                    ) by {
                        if i < handle {
                            assert(class_ok(pinned.classes[i], pinned.pinned as nat));
                        }
                    }
                }
                let e = self.env;
                let ghost mid = self@.envs;
                assign_at(&mut self.envs, e, 0, c.name.name_string(), Object::Class(handle));
                proof {
                    let pre = old(self)@.envs;
                    let post = self@.envs;
                    lemma_bound_in_order(
                        mid,
                        post,
                        e,
                        c.name.name(),
                        Object::Class(handle),
                    );
                    assert(post[e as int].values@ =~= pre[e as int].values@.insert(
                        c.name.name(),
                        Object::Class(handle),
                    ));
                    assert forall|i: int| 0 <= i < pre.len() && i != e implies #[trigger] post[i]
                        == pre[i] by {
                        assert(mid[i] == pre[i]);
                    }
                }
            },
        }
    }
}

fn arity_error(expected: usize, got: usize) -> (r: String)
    ensures
        r@ == arity_message(expected as nat, got as nat),
{
    let mut message = "Expected ".to_owned();
    push_decimal(&mut message, expected as u64);
    message.append(" arguments but got ");
    push_decimal(&mut message, got as u64);
    message.append(".");
    message
}

impl<'a> Function<'a> {
    /// Begins a call of the function with `arguments`; `paren` is the token
    /// that an error is blamed on.
    pub fn call(&self, interpreter: &mut Interpreter<'a>, arguments: Vec<Object>, paren: &Token)
        -> (action: Action)
        requires
            old(interpreter)@.wf(),
            self.closure < old(interpreter)@.pinned,
        ensures
            final(interpreter)@.wf(),
            calls(old(interpreter)@, final(interpreter)@, action, *self, arguments@, *paren),
    {
        let params = &self.decl.params;
        if arguments.len() != params.len() {
            return interpreter.fail(arity_error(params.len(), arguments.len()), paren);
        }
        let mut env = Environment::new(Some(self.closure));
        let mut i: usize = 0;
        while i < params.len()
            invariant
                i <= params@.len(),
                arguments@.len() == params@.len(),
                env.wf(),
                env.enclosing == Some(self.closure),
                env.values@ == params_map(params@, arguments@, i as nat),
            decreases params@.len() - i,
        {
            env.set(params[i].name_string(), arguments[i].clone());
            i += 1;
        }
        let handle = interpreter.envs.len();
        let prev = interpreter.env;
        let base = interpreter.values.len();
        interpreter.envs.push(env);
        let call = Frame::Call { function: *self, prev, base, mark: handle };
        let body = Frame::Block { stmts: &self.decl.body, next: 0, prev, mark: handle };
        interpreter.frames.push(call);
        interpreter.frames.push(body);
        interpreter.env = handle;
        proof {
            let pre = old(interpreter)@;
            let post = interpreter@;
            assert(post.envs.take(pre.envs.len() as int) == pre.envs);
            lemma_extended_in_order(
                pre.envs,
                post.envs,
                self.closure,
                params_map(params@, arguments@, arguments@.len()),
            );
            lemma_marked_begin(pre.frames, call, pre.envs.len(), pre.envs.len());
            lemma_marked_begin(pre.frames.push(call), body, pre.envs.len(), post.envs.len());
            assert forall|i: int| 0 <= i < post.frames.len() implies frame_ok(
                #[trigger] post.frames[i],
                post.pinned as nat,
            ) by {
                if i < pre.frames.len() {
                    assert(frame_ok(pre.frames[i], pre.pinned as nat));
                }
            }
        }
        Action::Continue
    }

    /// The method bound to the instance with handle `instance`: a function
    /// that closes over a new environment, inside the method's closure, in
    /// which `this` is the instance.
    pub fn bind(&self, interpreter: &mut Interpreter<'a>, instance: usize) -> (r: Function<'a>)
        requires
            old(interpreter)@.wf(),
            self.closure < old(interpreter)@.envs.len(),
        ensures
            final(interpreter)@.wf(),
            r.closure < final(interpreter)@.pinned,
            final(interpreter)@.pinned == old(interpreter)@.envs.len() + 1,
            r == (Function {
                decl: self.decl,
                closure: old(interpreter)@.envs.len() as usize,
                is_init: self.is_init,
            }),
            extended(
                old(interpreter)@.envs,
                final(interpreter)@.envs,
                self.closure,
                this_binding(instance),
            ),
            final(interpreter)@.frames == old(interpreter)@.frames,
            final(interpreter)@.values == old(interpreter)@.values,
            final(interpreter)@.env == old(interpreter)@.env,
            final(interpreter)@.functions == old(interpreter)@.functions,
            final(interpreter)@.classes == old(interpreter)@.classes,
            final(interpreter)@.instances == old(interpreter)@.instances,
            final(interpreter)@.locals == old(interpreter)@.locals,
    {
        let handle = interpreter.new_env(self.closure);
        let ghost mid = interpreter@.envs;
        interpreter.envs[handle].set("this".to_owned(), Object::ClassInstance(instance));
        proof {
            let pre = old(interpreter)@;
            let post = interpreter@;
            assert(post.envs.take(pre.envs.len() as int) =~= pre.envs) by {
                assert forall|i: int| 0 <= i < pre.envs.len() implies post.envs[i]
                    == pre.envs[i] by {
                    assert(mid.take(pre.envs.len() as int)[i] == pre.envs[i]);
                }
            }
            assert(envs_wf(post.envs)) by {
                assert forall|i: int| 0 <= i < post.envs.len() implies (#[trigger] post.envs[i])
                    .wf() by {
                    if i < pre.envs.len() {
                        assert(pre.envs[i].wf());
                    }
                }
            }
            lemma_bound_in_order(
                mid,
                post.envs,
                handle,
                "this"@,
                Object::ClassInstance(instance),
            );
            lemma_marked_for_more(post.frames, pre.envs.len(), post.envs.len());
        }
        assert(interpreter.envs@.len() == interpreter.envs.len());
        interpreter.pin(handle + 1);
        Function { decl: self.decl, closure: handle, is_init: self.is_init }
    }
}

impl NativeFunc {
    /// Begins a call of the native function with `params`; `name` is the
    /// token that an error is blamed on.
    pub fn call<'a>(&self, interpreter: &mut Interpreter<'a>, name: &'a Token, params: Vec<Object>)
        -> (action: Action)
        requires
            old(interpreter)@.wf(),
        ensures
            final(interpreter)@.wf(),
            calls_native(old(interpreter)@, final(interpreter)@, action, *self, params@, name),
    {
        match self {
            NativeFunc::INPUT => {
                if params.len() > 1 {
                    let mut message = "expect 0 or 1 arguments, got ".to_owned();
                    push_decimal(&mut message, params.len() as u64);
                    return interpreter.fail(message, name);
                }
                if params.len() == 1 {
                    match &params[0] {
                        Object::Str(prompt) => {
                            let mut pieces: Vec<Piece> = Vec::new();
                            pieces.push(Piece::Text(prompt.clone()));
                            interpreter.schedule(Frame::Host { token: name, wait: Wait::Prompt });
                            assert(pieces_view(pieces@) == seq![PieceView::Text(prompt@)]);
                            Action::Write { pieces, newline: false }
                        },
                        _ => interpreter.fail("the prompt must be a string".to_owned(), name),
                    }
                } else {
                    interpreter.schedule(Frame::Host { token: name, wait: Wait::Line });
                    Action::ReadLine
                }
            },
            _ => {
                let pieces = interpreter.line(&params);
                interpreter.schedule(Frame::Host { token: name, wait: Wait::Output });
                Action::Write { pieces, newline: *self == NativeFunc::PRINTLN }
            },
        }
    }
}

impl<'a> Interpreter<'a> {
    /// Shows a value.
    pub fn display(&self, value: &Object) -> (r: Piece)
        requires
            self@.wf(),
        ensures
            r@ == display_of(self@, *value),
    {
        match value {
            Object::Num(n) => Piece::Number(*n),
            Object::Str(s) => Piece::Text(s.clone()),
            Object::Bool(b) => if *b {
                Piece::Text("true".to_owned())
            } else {
                Piece::Text("false".to_owned())
            },
            Object::Nil => Piece::Text("nil".to_owned()),
            Object::Func(h) => if *h < self.functions.len() {
                let mut text = "<fn ".to_owned();
                let name = self.functions[*h].decl.name.name_string();
                text.append(name.as_str());
                text.append(">");
                Piece::Text(text)
            } else {
                Piece::Text("<fn>".to_owned())
            },
            Object::NativeFunc(_) => Piece::Text("<native fn>".to_owned()),
            Object::Class(h) => if *h < self.classes.len() {
                Piece::Text(self.classes[*h].name.clone())
            } else {
                Piece::Text("<class>".to_owned())
            },
            Object::ClassInstance(i) => if *i < self.instances.len() && self.instances[*i].klass
                < self.classes.len() {
                let mut text = self.classes[self.instances[*i].klass].name.clone();
                text.append(" instance");
                Piece::Text(text)
            } else {
                Piece::Text("<instance>".to_owned())
            },
        }
    }

    /// Shows the values joined by single spaces.
    fn line(&self, values: &Vec<Object>) -> (r: Vec<Piece>)
        requires
            self@.wf(),
        ensures
            pieces_view(r@) == line_pieces(self@, values@, values@.len()),
    {
        let mut pieces: Vec<Piece> = Vec::new();
        let mut i: usize = 0;
        while i < values.len()
            invariant
                self@.wf(),
                i <= values@.len(),
                pieces_view(pieces@) == line_pieces(self@, values@, i as nat),
            decreases values@.len() - i,
        {
            let ghost before = pieces@;
            if i > 0 {
                pieces.push(Piece::Text(" ".to_owned()));
            }
            let piece = self.display(&values[i]);
            pieces.push(piece);
            proof {
                if i > 0 {
                    assert(pieces_view(pieces@) == pieces_view(before).push(
                        PieceView::Text(" "@),
                    ).push(display_of(self@, values@[i as int])));
                } else {
                    assert(pieces_view(pieces@) == seq![display_of(self@, values@[0])]);
                }
            }
            i += 1;
        }
        pieces
    }

    /// Pushes a value.
    fn push(&mut self, value: Object) -> (action: Action)
        ensures
            pushes(old(self)@, final(self)@, action, value),
            old(self)@.wf() ==> final(self)@.wf(),
    {
        self.values.push(value);
        Action::Continue
    }

    /// Schedules the evaluation of the operand `operand` of `expr`, after
    /// which `expr` goes on at the phase after `phase`.
    fn operand(&mut self, expr: &'a Expr, phase: usize, operand: &'a Expr) -> (action: Action)
        ensures
            schedules(
                old(self)@,
                final(self)@,
                old(self)@.frames.push(Frame::Expr { expr, phase: after(phase) }).push(
                    Frame::Expr { expr: operand, phase: 0 },
                ),
            ),
            action is Continue,
            old(self)@.wf() ==> final(self)@.wf(),
    {
        let next = if phase < usize::MAX {
            phase + 1
        } else {
            phase
        };
        self.schedule(Frame::Expr { expr, phase: next });
        self.schedule(Frame::Expr { expr: operand, phase: 0 });
        Action::Continue
    }

    /// Acts on what an operator led to.
    fn apply(&mut self, applied: Applied, token: &'a Token) -> (action: Action)
        requires
            old(self)@.wf(),
        ensures
            final(self)@.wf(),
            applies(old(self)@, final(self)@, action, applied@, token),
    {
        match applied {
            Applied::Value(v) => {
                self.values.push(v);
                assert(self@.values.drop_last() == old(self)@.values);
                Action::Continue
            },
            Applied::Ask { op, left, right } => {
                self.schedule(Frame::Host { token, wait: Wait::Arithmetic });
                Action::Arithmetic { op, left, right }
            },
            Applied::Fail(m) => self.fail(m, token),
        }
    }

    /// Begins a call of the class with handle `h`.
    fn instantiate(&mut self, h: usize, arguments: Vec<Object>, paren: &Token) -> (action: Action)
        requires
            old(self)@.wf(),
            h < old(self)@.classes.len(),
        ensures
            final(self)@.wf(),
            instantiates(old(self)@, final(self)@, action, h, arguments@, *paren),
    {
        let instance = self.instances.len();
        assert(class_ok(self@.classes[h as int], self@.pinned as nat));
        match self.classes[h].find_method(&"init".to_owned()) {
            Some(init) => {
                if arguments.len() != init.decl.params.len() {
                    return self.fail(arity_error(init.decl.params.len(), arguments.len()), paren);
                }
                self.instances.push(LoxInstance::new(h));
                assert(self@.instances.take(instance as int) == old(self)@.instances);
                let bound = init.bind(self, instance);
                let ghost mid = self@;
                let action = bound.call(self, arguments, paren);
                proof {
                    assert(self@.envs.drop_last() == mid.envs);
                }
                action
            },
            None => {
                if arguments.len() != 0 {
                    return self.fail(arity_error(0, arguments.len()), paren);
                }
                self.instances.push(LoxInstance::new(h));
                assert(self@.instances.take(instance as int) == old(self)@.instances);
                self.values.push(Object::ClassInstance(instance));
                Action::Continue
            },
        }
    }

    /// Applies `callee` to `arguments`.
    fn invoke(&mut self, callee: Object, arguments: Vec<Object>, paren: &'a Token) -> (action:
        Action)
        requires
            old(self)@.wf(),
        ensures
            final(self)@.wf(),
            invokes(old(self)@, final(self)@, action, callee, arguments@, paren),
    {
        match callee {
            Object::Func(h) => {
                if h < self.functions.len() {
                    let function = self.functions[h];
                    function.call(self, arguments, paren)
                } else {
                    self.fail("Can only call functions and classes.".to_owned(), paren)
                }
            },
            Object::NativeFunc(n) => n.call(self, paren, arguments),
            Object::Class(h) => {
                if h < self.classes.len() {
                    self.instantiate(h, arguments, paren)
                } else {
                    self.fail("Can only call functions and classes.".to_owned(), paren)
                }
            },
            _ => self.fail("Can only call functions and classes.".to_owned(), paren),
        }
    }

    /// Reads the property `name` of `object`.
    fn get_property(&mut self, object: Object, name: &Token) -> (action: Action)
        requires
            old(self)@.wf(),
        ensures
            final(self)@.wf(),
            gets(old(self)@, final(self)@, action, object, *name),
    {
        match object {
            Object::ClassInstance(i) => {
                if i < self.instances.len() {
                    let key = name.name_string();
                    assert(self@.instances[i as int].wf());
                    match self.instances[i].get(&key) {
                        Some(value) => self.push(value),
                        None => {
                            let klass = self.instances[i].klass;
                            if klass < self.classes.len() {
                                assert(class_ok(self@.classes[klass as int], self@.pinned as nat));
                                match self.classes[klass].find_method(&key) {
                                    Some(method) => {
                                        let bound = method.bind(self, i);
                                        let handle = self.functions.len();
                                        self.functions.push(bound);
                                        self.values.push(Object::Func(handle));
                                        return Action::Continue;
                                    },
                                    None => {},
                                }
                            }
                            let mut message = "Undefined property ".to_owned();
                            message.append(key.as_str());
                            self.fail(message, name)
                        },
                    }
                } else {
                    self.fail("Only instances have properties.".to_owned(), name)
                }
            },
            _ => self.fail("Only instances have properties.".to_owned(), name),
        }
    }

    /// Sets the field `name` of `object` to `value`.
    fn set_property(&mut self, object: Object, name: &Token, value: Object) -> (action: Action)
        requires
            old(self)@.wf(),
        ensures
            final(self)@.wf(),
            sets(old(self)@, final(self)@, action, object, *name, value),
    {
        match object {
            Object::ClassInstance(i) => {
                if i < self.instances.len() {
                    assert(self@.instances[i as int].wf());
                    self.instances[i].set(name.name_string(), value.clone());
                    self.values.push(value);
                    proof {
                        let pre = old(self)@;
                        let post = self@;
                        assert forall|j: int| 0 <= j < post.instances.len() implies (
                        #[trigger] post.instances[j]).wf() by {
                            if j != i {
                                assert(pre.instances[j].wf());
                            }
                        }
                    }
                    Action::Continue
                } else {
                    self.fail("Only instances have properties.".to_owned(), name)
                }
            },
            _ => self.fail("Only instances have properties.".to_owned(), name),
        }
    }

    /// Assigns `value` to the variable `name` of the expression `id`.
    fn assign(&mut self, id: u64, name: &Token, value: Object) -> (action: Action)
        requires
            old(self)@.wf(),
        ensures
            final(self)@.wf(),
            assigns(old(self)@, final(self)@, action, id, *name, value),
    {
        let key = name.name_string();
        let found = match self.locals.get(&id) {
            Some(d) => {
                let e = self.env;
                assign_at(&mut self.envs, e, *d, key, value.clone())
            },
            None => assign_at(&mut self.envs, GLOBALS, 0, key, value.clone()),
        };
        if found {
            proof {
                let pre = old(self)@;
                let target = if pre.locals.contains_key(id) {
                    ancestor_of(pre.envs, pre.env, pre.locals[id] as nat)
                } else {
                    Some(GLOBALS)
                };
                lemma_bound_in_order(pre.envs, self@.envs, target.unwrap(), name.name(), value);
            }
            self.values.push(value);
            Action::Continue
        } else {
            self.fail("Undefined variable.".to_owned(), name)
        }
    }

    /// Performs one step of the expression `expr`, of which `phase` operands are evaluated.
    fn run_expr(&mut self, expr: &'a Expr, phase: usize) -> (action: Action)
        requires
            old(self)@.wf(),
        ensures
            final(self)@.wf(),
            expr_step(old(self)@, final(self)@, action, expr, phase),
    {
        match expr {
            Expr::Literal(l) => self.push(l.value.clone()),
            Expr::Grouping(g) => {
                self.schedule(Frame::Expr { expr: &*g.expr, phase: 0 });
                Action::Continue
            },
            Expr::Unary(u) => {
                if phase == 0 {
                    self.operand(expr, phase, &*u.right)
                } else {
                    let right = pop_value(&mut self.values);
                    let applied = unary_op(u.operator.token_type, &right);
                    self.apply(applied, &u.operator)
                }
            },
            Expr::Binary(b) => {
                if phase == 0 {
                    self.operand(expr, phase, &*b.left)
                } else if phase == 1 {
                    self.operand(expr, phase, &*b.right)
                } else {
                    let right = pop_value(&mut self.values);
                    let left = pop_value(&mut self.values);
                    proof {
                        lemma_popped_twice(old(self)@.values);
                    }
                    let applied = binary_op(b.operator.token_type, &left, &right);
                    self.apply(applied, &b.operator)
                }
            },
            Expr::Logical(l) => {
                if phase == 0 {
                    self.operand(expr, phase, &*l.left)
                } else {
                    let left = pop_value(&mut self.values);
                    match logical_op(l.operator.token_type, &left) {
                        Some(true) => self.push(left),
                        Some(false) => {
                            self.schedule(Frame::Expr { expr: &*l.right, phase: 0 });
                            Action::Continue
                        },
                        None => self.fail("Unknown operator.".to_owned(), &l.operator),
                    }
                }
            },
            Expr::Var(v) => {
                match self.lookup_variable(&v.name, v.id) {
                    Some(value) => self.push(value),
                    None => self.fail("Undefined variable.".to_owned(), &v.name),
                }
            },
            Expr::This(t) => {
                match self.lookup_variable(&t.keyword, t.id) {
                    Some(value) => self.push(value),
                    None => self.fail("Undeclared variable this".to_owned(), &t.keyword),
                }
            },
            Expr::Assign(a) => {
                if phase == 0 {
                    self.operand(expr, phase, &*a.value)
                } else {
                    let value = pop_value(&mut self.values);
                    self.assign(a.id, &a.name, value)
                }
            },
            Expr::Call(c) => {
                if phase == 0 {
                    self.operand(expr, phase, &*c.calle)
                } else if phase <= c.arguments.len() {
                    self.operand(expr, phase, &c.arguments[phase - 1])
                } else {
                    let n = c.arguments.len();
                    let height = self.values.len();
                    let start = if n <= height {
                        height - n
                    } else {
                        0
                    };
                    let arguments = self.values.split_off(start);
                    assert(arguments@ =~= operands(old(self)@.values, n as nat));
                    assert(self@.values =~= popped(old(self)@.values, n as nat));
                    let callee = pop_value(&mut self.values);
                    self.invoke(callee, arguments, &c.paren)
                }
            },
            Expr::Get(g) => {
                if phase == 0 {
                    self.operand(expr, phase, &*g.expr)
                } else {
                    let object = pop_value(&mut self.values);
                    self.get_property(object, &g.name)
                }
            },
            Expr::SetExpr(s) => {
                if phase == 0 {
                    self.operand(expr, phase, &*s.expr)
                } else if phase == 1 {
                    let is_instance = match top_value(&self.values) {
                        Object::ClassInstance(i) => i < self.instances.len(),
                        _ => false,
                    };
                    if is_instance {
                        self.operand(expr, phase, &*s.value)
                    } else {
                        self.fail("Only instances have properties.".to_owned(), &s.name)
                    }
                } else {
                    let value = pop_value(&mut self.values);
                    let object = pop_value(&mut self.values);
                    proof {
                        lemma_popped_twice(old(self)@.values);
                    }
                    self.set_property(object, &s.name, value)
                }
            },
        }
    }

    /// Takes the host's answer to the request that is in flight.
    fn answer(&mut self, token: &'a Token, wait: Wait, event: Event) -> (action: Action)
        requires
            old(self)@.wf(),
        ensures
            final(self)@.wf(),
            host_step(old(self)@, final(self)@, action, token, wait, event),
    {
        match event {
            Event::Failed(message) => self.fail(message, token),
            Event::Number(n) => {
                if wait == Wait::Arithmetic {
                    self.push(Object::Num(n))
                } else {
                    self.fail("The host did not answer the request.".to_owned(), token)
                }
            },
            Event::Resume => {
                if wait == Wait::Output {
                    self.push(Object::Nil)
                } else if wait == Wait::Prompt {
                    self.schedule(Frame::Host { token, wait: Wait::Line });
                    Action::ReadLine
                } else {
                    self.fail("The host did not answer the request.".to_owned(), token)
                }
            },
            Event::Line(line) => {
                if wait == Wait::Line {
                    self.values.push(Object::Str(strip_terminator(line)));
                    assert(self@.values.drop_last() == old(self)@.values);
                    Action::Continue
                } else {
                    self.fail("The host did not answer the request.".to_owned(), token)
                }
            },
        }
    }

    /// Performs one transition of the machine and says what the host has to
    /// do before the next one. `event` is the host's answer to the action of
    /// the step before; it is read only when a request is in flight. A
    /// machine that fits its depths, or binds what it reads, still does
    /// after the step.
    pub fn step(&mut self, event: Event) -> (action: Action)
        requires
            old(self)@.wf(),
        ensures
            final(self)@.wf(),
            step_spec(old(self)@, event, final(self)@, action),
            scoped(old(self)@) ==> scoped(final(self)@),
            binds(old(self)@) ==> binds(final(self)@),
    {
        let ghost given = event;
        let action = self.step_once(event);
        proof {
            if scoped(old(self)@) {
                lemma_step_keeps_scope(old(self)@, given, self@, action);
            }
            if binds(old(self)@) {
                lemma_step_keeps_binding(old(self)@, given, self@, action);
            }
        }
        action
    }

    /// Performs one transition of the machine.
    fn step_once(&mut self, event: Event) -> (action: Action)
        requires
            old(self)@.wf(),
        ensures
            final(self)@.wf(),
            step_spec(old(self)@, event, final(self)@, action),
    {
        let top = match self.frames.pop() {
            Some(frame) => frame,
            None => {
                return Action::Done;
            },
        };
        assert(frames_ok(self@.frames, self@.pinned as nat));
        assert(frame_ok(old(self)@.frames.last(), self@.pinned as nat));
        assert(self@.frames == old(self)@.frames.drop_last());
        proof {
            match top {
                Frame::Block { mark, .. } => {
                    lemma_marked_for_more(self@.frames, mark as nat, self@.envs.len());
                },
                Frame::Call { mark, .. } => {
                    lemma_marked_for_more(self@.frames, mark as nat, self@.envs.len());
                },
                _ => {},
            }
        }
        assert(self@ == (State { frames: old(self)@.frames.drop_last(), ..old(self)@ }));
        match top {
            Frame::Program { stmts, next } => {
                if next < stmts.len() {
                    self.schedule(Frame::Program { stmts, next: next + 1 });
                    self.schedule(Frame::Stmt { stmt: &stmts[next], phase: 0 });
                }
                Action::Continue
            },
            Frame::Block { stmts, next, prev, mark } => {
                if next < stmts.len() {
                    let again = Frame::Block { stmts, next: next + 1, prev, mark };
                    let ghost rest = self@.frames;
                    self.frames.push(again);
                    proof {
                        assert(rest.push(again).drop_last() == rest);
                        assert(frames_marked(old(self)@.frames.drop_last(), mark as nat));
                    }
                    self.schedule(Frame::Stmt { stmt: &stmts[next], phase: 0 });
                } else {
                    self.env = prev;
                    self.reclaim(mark);
                    proof {
                        assert(frames_marked(old(self)@.frames.drop_last(), mark as nat));
                        lemma_marked_for_more(self@.frames, mark as nat, self@.envs.len());
                    }
                }
                Action::Continue
            },
            Frame::Stmt { stmt, phase } => {
                self.run_stmt(stmt, phase);
                Action::Continue
            },
            Frame::Expr { expr, phase } => self.run_expr(expr, phase),
            Frame::Call { function, prev, base, mark } => {
                assert(frames_marked(old(self)@.frames.drop_last(), mark as nat));
                self.end_call(function, prev, base, mark, Object::Nil);
                Action::Continue
            },
            Frame::Host { token, wait } => self.answer(token, wait, event),
        }
    }

    /// Performs steps until the machine asks something of the host, the
    /// program ends, or `budget` steps are done, whichever comes first; in
    /// the last case the result is [`Action::Continue`]. `event` is the
    /// host's answer to the action before.
    pub fn run(&mut self, event: Event, budget: u64) -> (action: Action)
        requires
            old(self)@.wf(),
        ensures
            final(self)@.wf(),
            exists|states: Seq<State<'a>>|
                #![trigger run_spec(states, event, action)]
                {
                    &&& run_spec(states, event, action)
                    &&& states.len() <= budget + 1
                    &&& states[0] == old(self)@
                    &&& states.last() == final(self)@
                    &&& action is Continue ==> states.len() == budget + 1
                },
            scoped(old(self)@) ==> scoped(final(self)@),
            binds(old(self)@) ==> binds(final(self)@),
    {
        let ghost first = event;
        let ghost mut states: Seq<State<'a>> = seq![self@];
        if budget == 0 {
            assert(run_spec(states, first, Action::Continue));
            return Action::Continue;
        }
        let mut action = self.step(event);
        proof {
            states = states.push(self@);
        }
        let mut done: u64 = 1;
        while done < budget && matches!(action, Action::Continue)
            invariant
                self@.wf(),
                1 <= done <= budget,
                states.len() == done + 1,
                states[0] == old(self)@,
                states.last() == self@,
                run_spec(states, first, action),
                scoped(old(self)@) ==> scoped(self@),
                binds(old(self)@) ==> binds(self@),
            decreases budget - done,
        {
            let ghost before = states;
            let ghost last = action;
            action = self.step(Event::Resume);
            proof {
                states = states.push(self@);
                assert forall|i: int| 0 <= i < states.len() - 2 implies step_spec(
                    #[trigger] states[i],
                    event_of(first, i),
                    states[i + 1],
                    Action::Continue,
                ) by {
                    if i < before.len() - 2 {
                        assert(before[i] == states[i]);
                        assert(before[i + 1] == states[i + 1]);
                    } else {
                        assert(before[before.len() - 2] == states[i]);
                        assert(before[before.len() - 1] == states[i + 1]);
                        assert(last == Action::Continue);
                    }
                }
            }
            done += 1;
        }
        assert(run_spec(states, first, action));
        action
    }
}

} // verus!
