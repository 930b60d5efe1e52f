//! The resolver: a static pass that finds, for every expression that names a
//! variable, how many scopes lie between the expression and the scope that
//! declares the variable.

use vstd::prelude::*;
use crate::environment::{Environment, ancestor_of, envs_ordered, nearest_binding, value_at,
    lemma_first_read_is_nearest};
use crate::expressions::Expr;
use std::collections::HashMap;
use crate::scanner::Token;
use crate::statements::{Func, Stmt};
use crate::table::Table;
use crate::text::static_report;
use vstd::string::*;

verus! {

/// The kind of function whose body is being resolved.
#[derive(Debug, Clone, Copy, PartialEq, Eq, Structural)]
pub enum FunctionType {
    FUNCTION,
    INITIALIZER,
    METHOD,
    NONE,
}

/// Whether a class body is being resolved.
#[derive(Debug, Clone, Copy, PartialEq, Eq, Structural)]
pub enum ClassType {
    NONE,
    CLASS,
}

/// What the resolver rejects.
#[derive(Debug, Clone, Copy, PartialEq, Eq, Structural)]
pub enum ResolveErrorKind {
    /// A local variable is read in its own initializer.
    OwnInitializer,
    /// A scope other than the global one declares a name twice.
    Redeclared,
    /// `return` outside any function.
    TopLevelReturn,
    /// `return` with a value inside an initializer.
    InitializerReturn,
    /// `this` outside any class.
    ThisOutsideClass,
}

/// A static error and the token it is blamed on.
#[derive(Debug)]
pub struct ResolveError {
    pub kind: ResolveErrorKind,
    pub token: Token,
}

/// The text of each kind of error.
pub open spec fn message_of(kind: ResolveErrorKind) -> Seq<char> {
    match kind {
        ResolveErrorKind::OwnInitializer => "Can't read local variable in its own initializer."@,
        ResolveErrorKind::Redeclared => "Already a variable with this name in this scope."@,
        ResolveErrorKind::TopLevelReturn => "Can't return from top-level code."@,
        ResolveErrorKind::InitializerReturn => "Can't return a value from an initializer."@,
        ResolveErrorKind::ThisOutsideClass => "Can't use 'this' outside of a class."@,
    }
}

impl ResolveError {
    /// The text of the error.
    pub fn message(&self) -> (r: String)
        ensures
            r@ == message_of(self.kind),
    {
        match self.kind {
            ResolveErrorKind::OwnInitializer => "Can't read local variable in its own initializer.".to_owned(),
            ResolveErrorKind::Redeclared => "Already a variable with this name in this scope.".to_owned(),
            ResolveErrorKind::TopLevelReturn => "Can't return from top-level code.".to_owned(),
            ResolveErrorKind::InitializerReturn => "Can't return a value from an initializer.".to_owned(),
            ResolveErrorKind::ThisOutsideClass => "Can't use 'this' outside of a class.".to_owned(),
        }
    }

    /// The line that is written to standard error for the error.
    pub fn report(&self) -> (r: String)
        ensures
            r@ == static_report(self.token.line, self.token.spelling(), message_of(self.kind)),
    {
        let message = self.message();
        self.token.report(message.as_str())
    }
}

/// A scope: the names it declares, each with whether its initializer is done.
pub type Scope = Map<Seq<char>, bool>;

/// The resolver's state as mathematical values.
pub struct Resolution {
    /// The open scopes, innermost last. The global scope is not among them.
    pub scopes: Seq<Scope>,
    /// The depths recorded so far, by expression identity.
    pub locals: Map<u64, usize>,
    /// The kind of the function around the current position.
    pub function: FunctionType,
    /// Whether the current position is inside a class.
    pub class: ClassType,
}

/// The number of scopes between the innermost scope and the nearest scope
/// that declares `name`: 0 if the innermost scope declares it. `None` if no
/// open scope does, which makes the name a global.
pub open spec fn depth_of(scopes: Seq<Scope>, name: Seq<char>) -> Option<nat>
    decreases scopes.len(),
{
    if scopes.len() == 0 {
        None
    } else if scopes.last().contains_key(name) {
        Some(0nat)
    } else {
        match depth_of(scopes.drop_last(), name) {
            Some(d) => Some(d + 1),
            None => None,
        }
    }
}

impl Resolution {
    /// A new innermost scope is opened.
    pub open spec fn begin_scope(self) -> Resolution {
        Resolution { scopes: self.scopes.push(Map::empty()), ..self }
    }

    /// The innermost scope is closed.
    pub open spec fn end_scope(self) -> Resolution {
        if self.scopes.len() > 0 {
            Resolution { scopes: self.scopes.drop_last(), ..self }
        } else {
            self
        }
    }

    /// The innermost scope binds `name` to `ready`.
    pub open spec fn bind(self, name: Seq<char>, ready: bool) -> Resolution {
        if self.scopes.len() > 0 {
            Resolution {
                scopes: self.scopes.update(
                    self.scopes.len() - 1,
                    self.scopes.last().insert(name, ready),
                ),
                ..self
            }
        } else {
            self
        }
    }

    /// `name` is declared in the innermost scope, not yet ready to be read.
    /// At global level nothing is recorded. A scope may not declare a name twice.
    pub open spec fn declare(self, name: Token) -> Result<Resolution, ResolveError> {
        if self.scopes.len() > 0 && self.scopes.last().contains_key(name.name()) {
            Err(ResolveError { kind: ResolveErrorKind::Redeclared, token: name })
        } else {
            Ok(self.bind(name.name(), false))
        }
    }

    /// `name` is ready to be read.
    pub open spec fn define(self, name: Token) -> Resolution {
        self.bind(name.name(), true)
    }

    /// The expression `id` names `name`: its depth is recorded if an open
    /// scope declares the name, and nothing is recorded if none does (nor for
    /// a depth that a machine cannot count).
    pub open spec fn resolve_local(self, id: u64, name: Seq<char>) -> Resolution {
        match depth_of(self.scopes, name) {
            Some(d) => if d <= usize::MAX {
                Resolution { locals: self.locals.insert(id, d as usize), ..self }
            } else {
                self
            },
            None => self,
        }
    }

    /// Whether the innermost scope has declared `name` and not yet defined it.
    pub open spec fn in_own_initializer(self, name: Seq<char>) -> bool {
        self.scopes.len() > 0 && self.scopes.last().contains_key(name) && !self.scopes.last()[name]
    }

    /// The state after the expression `e` is resolved, or the first error.
    pub open spec fn resolve_expr(self, e: &Expr) -> Result<Resolution, ResolveError>
        decreases e,
    {
        match e {
            Expr::Literal(_) => Ok(self),
            Expr::Grouping(g) => self.resolve_expr(&*g.expr),
            Expr::Unary(u) => self.resolve_expr(&*u.right),
            Expr::Binary(b) => match self.resolve_expr(&*b.left) {
                Ok(r) => r.resolve_expr(&*b.right),
                Err(e) => Err(e),
            },
            Expr::Logical(l) => match self.resolve_expr(&*l.left) {
                Ok(r) => r.resolve_expr(&*l.right),
                Err(e) => Err(e),
            },
            Expr::Var(v) => if self.in_own_initializer(v.name.name()) {
                Err(ResolveError { kind: ResolveErrorKind::OwnInitializer, token: v.name })
            } else {
                Ok(self.resolve_local(v.id, v.name.name()))
            },
            Expr::Assign(a) => match self.resolve_expr(&*a.value) {
                Ok(r) => Ok(r.resolve_local(a.id, a.name.name())),
                Err(e) => Err(e),
            },
            Expr::Call(c) => match self.resolve_expr(&*c.calle) {
                Ok(r) => r.resolve_exprs(c.arguments@, 0),
                Err(e) => Err(e),
            },
            Expr::Get(g) => self.resolve_expr(&*g.expr),
            Expr::SetExpr(s) => match self.resolve_expr(&*s.value) {
                Ok(r) => r.resolve_expr(&*s.expr),
                Err(e) => Err(e),
            },
            Expr::This(t) => if self.class == ClassType::NONE {
                Err(ResolveError { kind: ResolveErrorKind::ThisOutsideClass, token: t.keyword })
            } else {
                Ok(self.resolve_local(t.id, t.keyword.name()))
            },
        }
    }

    /// The state after the expressions from the `i`th on are resolved in order.
    pub open spec fn resolve_exprs(self, es: Seq<Expr>, i: nat) -> Result<Resolution, ResolveError>
        decreases es, es.len() - i,
    {
        if i >= es.len() {
            Ok(self)
        } else {
            match self.resolve_expr(&es[i as int]) {
                Ok(r) => r.resolve_exprs(es, i + 1),
                Err(e) => Err(e),
            }
        }
    }

    /// The parameters from the `i`th on are declared and defined in order.
    pub open spec fn declare_params(self, params: Seq<Token>, i: nat) -> Result<
        Resolution,
        ResolveError,
    >
        decreases params.len() - i,
    {
        if i >= params.len() {
            Ok(self)
        } else {
            match self.declare(params[i as int]) {
                Ok(r) => r.define(params[i as int]).declare_params(params, i + 1),
                Err(e) => Err(e),
            }
        }
    }

    /// The state after the function `f` is resolved as one of kind `kind`: its
    /// parameters and body share one new scope.
    pub open spec fn resolve_fun(self, f: &Func, kind: FunctionType) -> Result<
        Resolution,
        ResolveError,
    >
        decreases f, 0nat,
    {
        let inside = Resolution { function: kind, ..self }.begin_scope();
        match inside.declare_params(f.params@, 0) {
            Ok(r) => match r.resolve_stmts(f.body@, 0) {
                Ok(r) => Ok(Resolution { function: self.function, ..r.end_scope() }),
                Err(e) => Err(e),
            },
            Err(e) => Err(e),
        }
    }

    /// The state after the methods from the `i`th on are resolved in order;
    /// the one named `init` is an initializer.
    pub open spec fn resolve_methods(self, methods: Seq<Func>, i: nat) -> Result<
        Resolution,
        ResolveError,
    >
        decreases methods, methods.len() - i,
    {
        if i >= methods.len() {
            Ok(self)
        } else {
            let kind = if methods[i as int].name.name() == "init"@ {
                FunctionType::INITIALIZER
            } else {
                FunctionType::METHOD
            };
            match self.resolve_fun(&methods[i as int], kind) {
                Ok(r) => r.resolve_methods(methods, i + 1),
                Err(e) => Err(e),
            }
        }
    }

    /// The state after the statement `s` is resolved, or the first error.
    pub open spec fn resolve_stmt(self, s: &Stmt) -> Result<Resolution, ResolveError>
        decreases s, 0nat,
    {
        match s {
            Stmt::ExprStmt(e) => self.resolve_expr(e),
            Stmt::Var(v) => match self.declare(v.token) {
                Ok(r) => match v.initializer {
                    Some(init) => match r.resolve_expr(&init) {
                        Ok(r) => Ok(r.define(v.token)),
                        Err(e) => Err(e),
                    },
                    None => Ok(r.define(v.token)),
                },
                Err(e) => Err(e),
            },
            Stmt::Block(b) => match self.begin_scope().resolve_stmts(b.stmts@, 0) {
                Ok(r) => Ok(r.end_scope()),
                Err(e) => Err(e),
            },
            Stmt::If(i) => match self.resolve_expr(&i.condition) {
                Ok(r) => match r.resolve_stmt(&*i.then_block) {
                    Ok(r) => match i.else_block {
                        Some(e) => r.resolve_stmt(&*e),
                        None => Ok(r),
                    },
                    Err(e) => Err(e),
                },
                Err(e) => Err(e),
            },
            Stmt::While(w) => match self.resolve_expr(&w.condition) {
                Ok(r) => r.resolve_stmt(&*w.body),
                Err(e) => Err(e),
            },
            Stmt::Func(f) => match self.declare(f.name) {
                Ok(r) => r.define(f.name).resolve_fun(f, FunctionType::FUNCTION),
                Err(e) => Err(e),
            },
            Stmt::Class(c) => match self.declare(c.name) {
                Ok(r) => {
                    let inside = Resolution { class: ClassType::CLASS, ..r.define(c.name) }
                        .begin_scope().bind("this"@, true);
                    match inside.resolve_methods(c.methods@, 0) {
                        Ok(r) => Ok(Resolution { class: self.class, ..r.end_scope() }),
                        Err(e) => Err(e),
                    }
                },
                Err(e) => Err(e),
            },
            Stmt::Return(r) => if self.function == FunctionType::NONE {
                Err(ResolveError { kind: ResolveErrorKind::TopLevelReturn, token: r.keyword })
            } else {
                match r.value {
                    Some(v) => if self.function == FunctionType::INITIALIZER {
                        Err(
                            ResolveError {
                                kind: ResolveErrorKind::InitializerReturn,
                                token: r.keyword,
                            },
                        )
                    } else {
                        self.resolve_expr(&v)
                    },
                    None => Ok(self),
                }
            },
        }
    }

    /// The state after the statements from the `i`th on are resolved in order.
    pub open spec fn resolve_stmts(self, ss: Seq<Stmt>, i: nat) -> Result<Resolution, ResolveError>
        decreases ss, ss.len() - i,
    {
        if i >= ss.len() {
            Ok(self)
        } else {
            match self.resolve_stmt(&ss[i as int]) {
                Ok(r) => r.resolve_stmts(ss, i + 1),
                Err(e) => Err(e),
            }
        }
    }
}

/// The scopes as maps.
pub open spec fn scopes_view(scopes: Seq<Table<bool>>) -> Seq<Scope> {
    Seq::new(scopes.len(), |i: int| scopes[i]@)
}

/// Every scope keeps its invariant.
pub open spec fn scopes_wf(scopes: Seq<Table<bool>>) -> bool {
    forall|i: int| 0 <= i < scopes.len() ==> (#[trigger] scopes[i]).wf()
}

/// A depth found in part of the scopes, seen from `k` scopes further in.
pub open spec fn deeper(found: Option<nat>, k: nat) -> Option<nat> {
    match found {
        Some(d) => Some(d + k),
        None => None,
    }
}

/// The resolver.
pub struct Resolver {
    scopes: Vec<Table<bool>>,
    locals: HashMap<u64, usize>,
    current_function: FunctionType,
    current_class: ClassType,
}

impl View for Resolver {
    type V = Resolution;

    closed spec fn view(&self) -> Resolution {
        Resolution {
            scopes: scopes_view(self.scopes@),
            locals: self.locals@,
            function: self.current_function,
            class: self.current_class,
        }
    }
}

/// What a resolving step promises: on success the resolver is in the state
/// `expected`; an error is the one `expected` names.
pub open spec fn resolved(
    expected: Result<Resolution, ResolveError>,
    result: Result<(), ResolveError>,
    state: Resolution,
) -> bool {
    match expected {
        Ok(r) => result is Ok && state == r,
        Err(e) => result == Err::<(), ResolveError>(e),
    }
}

impl Resolver {
    /// The resolver's invariant.
    pub closed spec fn wf(&self) -> bool {
        scopes_wf(self.scopes@)
    }

    /// A resolver at top level, outside any function and class, with the
    /// given scopes open and nothing resolved.
    pub fn new(scopes: Vec<Table<bool>>) -> (r: Self)
        requires
            scopes_wf(scopes@),
        ensures
            r.wf(),
            r@ == (Resolution {
                scopes: scopes_view(scopes@),
                locals: Map::empty(),
                function: FunctionType::NONE,
                class: ClassType::NONE,
            }),
    {
        Self {
            scopes,
            locals: HashMap::new(),
            current_function: FunctionType::NONE,
            current_class: ClassType::NONE,
        }
    }

    /// The depths recorded so far.
    pub fn locals(self) -> (r: HashMap<u64, usize>)
        ensures
            r@ == self@.locals,
    {
        self.locals
    }

    fn begin_scope(&mut self)
        requires
            old(self).wf(),
        ensures
            final(self).wf(),
            final(self)@ == old(self)@.begin_scope(),
    {
        self.scopes.push(Table::new());
        assert(scopes_view(self.scopes@) =~= scopes_view(old(self).scopes@).push(Map::empty()));
    }

    fn end_scope(&mut self)
        requires
            old(self).wf(),
        ensures
            final(self).wf(),
            final(self)@ == old(self)@.end_scope(),
    {
        self.scopes.pop();
        proof {
            if old(self).scopes@.len() > 0 {
                assert(scopes_view(self.scopes@) =~= scopes_view(old(self).scopes@).drop_last());
            } else {
                assert(scopes_view(self.scopes@) =~= scopes_view(old(self).scopes@));
            }
        }
    }

    fn bind(&mut self, name: String, ready: bool)
        requires
            old(self).wf(),
        ensures
            final(self).wf(),
            final(self)@ == old(self)@.bind(name@, ready),
    {
        let n = self.scopes.len();
        if n > 0 {
            self.scopes[n - 1].insert(name, ready);
            proof {
                let pre = scopes_view(old(self).scopes@);
                assert(scopes_view(self.scopes@) =~= pre.update(
                    pre.len() - 1,
                    pre.last().insert(name@, ready),
                ));
            }
        }
    }

    fn declare(&mut self, name: &Token) -> (r: Result<(), ResolveError>)
        requires
            old(self).wf(),
        ensures
            final(self).wf(),
            resolved(old(self)@.declare(*name), r, final(self)@),
    {
        let n = self.scopes.len();
        let key = name.name_string();
        if n > 0 && self.scopes[n - 1].contains_key(&key) {
            return Err(ResolveError { kind: ResolveErrorKind::Redeclared, token: name.clone() });
        }
        self.bind(key, false);
        Ok(())
    }

    fn define(&mut self, name: &Token)
        requires
            old(self).wf(),
        ensures
            final(self).wf(),
            final(self)@ == old(self)@.define(*name),
    {
        self.bind(name.name_string(), true);
    }

    fn resolve_local(&mut self, expr: &Expr, name: &Token)
        requires
            old(self).wf(),
        ensures
            final(self).wf(),
            final(self)@ == old(self)@.resolve_local(expr.id(), name.name()),
    {
        let key = name.name_string();
        let n = self.scopes.len();
        let ghost scopes = scopes_view(self.scopes@);
        let mut k: usize = 0;
        assert(scopes.take(n as int) =~= scopes);
        while k < n
            invariant
                self.wf(),
                *self == *old(self),
                n == self.scopes@.len(),
                scopes == scopes_view(self.scopes@),
                key@ == name.name(),
                k <= n,
                depth_of(scopes, key@) == deeper(depth_of(scopes.take(n - k), key@), k as nat),
            decreases n - k,
        {
            if self.scopes[n - 1 - k].contains_key(&key) {
                assert(scopes.take(n - k).last() == self.scopes@[n - 1 - k]@);
                self.locals.insert(expr.get_id(), k);
                return ;
            }
            proof {
                let part = scopes.take(n - k);
                assert(part.last() == self.scopes@[n - 1 - k]@);
                assert(part.drop_last() =~= scopes.take(n - k - 1));
            }
            k += 1;
        }
        assert(scopes.take(0).len() == 0);
    }

    fn resolve_fun(&mut self, func: &Func, kind: FunctionType) -> (r: Result<(), ResolveError>)
        requires
            old(self).wf(),
        ensures
            final(self).wf(),
            resolved(old(self)@.resolve_fun(func, kind), r, final(self)@),
        decreases func, 0nat,
    {
        let enclosing = self.current_function;
        self.current_function = kind;
        self.begin_scope();
        let mut i: usize = 0;
        while i < func.params.len()
            invariant
                self.wf(),
                i <= func.params@.len(),
                self@.declare_params(func.params@, i as nat) == (Resolution {
                    function: kind,
                    ..old(self)@
                }).begin_scope().declare_params(func.params@, 0),
            decreases func.params@.len() - i,
        {
            match self.declare(&func.params[i]) {
                Ok(()) => {},
                Err(e) => {
                    return Err(e);
                },
            }
            self.define(&func.params[i]);
            i += 1;
        }
        match self.resolve_stmts(&func.body) {
            Ok(()) => {},
            Err(e) => {
                return Err(e);
            },
        }
        self.end_scope();
        self.current_function = enclosing;
        Ok(())
    }

    fn resolve_expr(&mut self, expr: &Expr) -> (r: Result<(), ResolveError>)
        requires
            old(self).wf(),
        ensures
            final(self).wf(),
            resolved(old(self)@.resolve_expr(expr), r, final(self)@),
        decreases expr, 0nat,
    {
        match expr {
            Expr::Literal(_) => Ok(()),
            Expr::Grouping(g) => self.resolve_expr(&*g.expr),
            Expr::Unary(u) => self.resolve_expr(&*u.right),
            Expr::Binary(b) => {
                match self.resolve_expr(&*b.left) {
                    Ok(()) => self.resolve_expr(&*b.right),
                    Err(e) => Err(e),
                }
            },
            Expr::Logical(l) => {
                match self.resolve_expr(&*l.left) {
                    Ok(()) => self.resolve_expr(&*l.right),
                    Err(e) => Err(e),
                }
            },
            Expr::Var(v) => {
                let n = self.scopes.len();
                if n > 0 {
                    let key = v.name.name_string();
                    match self.scopes[n - 1].get(&key) {
                        Some(ready) => {
                            if !*ready {
                                return Err(
                                    ResolveError {
                                        kind: ResolveErrorKind::OwnInitializer,
                                        token: v.name.clone(),
                                    },
                                );
                            }
                        },
                        None => {},
                    }
                }
                self.resolve_local(expr, &v.name);
                Ok(())
            },
            Expr::Assign(a) => {
                match self.resolve_expr(&*a.value) {
                    Ok(()) => {
                        self.resolve_local(expr, &a.name);
                        Ok(())
                    },
                    Err(e) => Err(e),
                }
            },
            Expr::Call(c) => {
                match self.resolve_expr(&*c.calle) {
                    Ok(()) => {},
                    Err(e) => {
                        return Err(e);
                    },
                }
                self.resolve_exprs(&c.arguments)
            },
            Expr::Get(g) => self.resolve_expr(&*g.expr),
            Expr::SetExpr(s) => {
                match self.resolve_expr(&*s.value) {
                    Ok(()) => self.resolve_expr(&*s.expr),
                    Err(e) => Err(e),
                }
            },
            Expr::This(t) => {
                if self.current_class == ClassType::NONE {
                    return Err(
                        ResolveError {
                            kind: ResolveErrorKind::ThisOutsideClass,
                            token: t.keyword.clone(),
                        },
                    );
                }
                self.resolve_local(expr, &t.keyword);
                Ok(())
            },
        }
    }

    fn resolve_exprs(&mut self, exprs: &Vec<Expr>) -> (r: Result<(), ResolveError>)
        requires
            old(self).wf(),
        ensures
            final(self).wf(),
            resolved(old(self)@.resolve_exprs(exprs@, 0), r, final(self)@),
        decreases exprs, 1nat,
    {
        let mut i: usize = 0;
        while i < exprs.len()
            invariant
                self.wf(),
                i <= exprs@.len(),
                self@.resolve_exprs(exprs@, i as nat) == old(self)@.resolve_exprs(exprs@, 0),
            decreases exprs@.len() - i,
        {
            match self.resolve_expr(&exprs[i]) {
                Ok(()) => {},
                Err(e) => {
                    return Err(e);
                },
            }
            i += 1;
        }
        Ok(())
    }

    fn resolve_methods(&mut self, methods: &Vec<Func>) -> (r: Result<(), ResolveError>)
        requires
            old(self).wf(),
        ensures
            final(self).wf(),
            resolved(old(self)@.resolve_methods(methods@, 0), r, final(self)@),
        decreases methods, 1nat,
    {
        let mut i: usize = 0;
        while i < methods.len()
            invariant
                self.wf(),
                i <= methods@.len(),
                self@.resolve_methods(methods@, i as nat) == old(self)@.resolve_methods(
                    methods@,
                    0,
                ),
            decreases methods@.len() - i,
        {
            let is_init = methods[i].name.name_string() == "init".to_owned();
            let kind = if is_init {
                FunctionType::INITIALIZER
            } else {
                FunctionType::METHOD
            };
            match self.resolve_fun(&methods[i], kind) {
                Ok(()) => {},
                Err(e) => {
                    return Err(e);
                },
            }
            i += 1;
        }
        Ok(())
    }

    fn resolve_stmt(&mut self, stmt: &Stmt) -> (r: Result<(), ResolveError>)
        requires
            old(self).wf(),
        ensures
            final(self).wf(),
            resolved(old(self)@.resolve_stmt(stmt), r, final(self)@),
        decreases stmt, 0nat,
    {
        match stmt {
            Stmt::ExprStmt(e) => self.resolve_expr(e),
            Stmt::Var(v) => {
                match self.declare(&v.token) {
                    Ok(()) => {},
                    Err(e) => {
                        return Err(e);
                    },
                }
                match &v.initializer {
                    Some(init) => {
                        match self.resolve_expr(init) {
                            Ok(()) => {},
                            Err(e) => {
                                return Err(e);
                            },
                        }
                    },
                    None => {},
                }
                self.define(&v.token);
                Ok(())
            },
            Stmt::Block(b) => {
                self.begin_scope();
                match self.resolve_stmts(&b.stmts) {
                    Ok(()) => {},
                    Err(e) => {
                        return Err(e);
                    },
                }
                self.end_scope();
                Ok(())
            },
            Stmt::If(i) => {
                match self.resolve_expr(&i.condition) {
                    Ok(()) => {},
                    Err(e) => {
                        return Err(e);
                    },
                }
                match self.resolve_stmt(&*i.then_block) {
                    Ok(()) => {},
                    Err(e) => {
                        return Err(e);
                    },
                }
                match &i.else_block {
                    Some(e) => self.resolve_stmt(&**e),
                    None => Ok(()),
                }
            },
            Stmt::While(w) => {
                match self.resolve_expr(&w.condition) {
                    Ok(()) => self.resolve_stmt(&*w.body),
                    Err(e) => Err(e),
                }
            },
            Stmt::Func(f) => {
                match self.declare(&f.name) {
                    Ok(()) => {},
                    Err(e) => {
                        return Err(e);
                    },
                }
                self.define(&f.name);
                self.resolve_fun(f, FunctionType::FUNCTION)
            },
            Stmt::Class(c) => {
                match self.declare(&c.name) {
                    Ok(()) => {},
                    Err(e) => {
                        return Err(e);
                    },
                }
                self.define(&c.name);
                let enclosing = self.current_class;
                self.current_class = ClassType::CLASS;
                self.begin_scope();
                self.bind("this".to_owned(), true);
                match self.resolve_methods(&c.methods) {
                    Ok(()) => {},
                    Err(e) => {
                        return Err(e);
                    },
                }
                self.end_scope();
                self.current_class = enclosing;
                Ok(())
            },
            Stmt::Return(r) => {
                if self.current_function == FunctionType::NONE {
                    return Err(
                        ResolveError {
                            kind: ResolveErrorKind::TopLevelReturn,
                            token: r.keyword.clone(),
                        },
                    );
                }
                match &r.value {
                    Some(v) => {
                        if self.current_function == FunctionType::INITIALIZER {
                            return Err(
                                ResolveError {
                                    kind: ResolveErrorKind::InitializerReturn,
                                    token: r.keyword.clone(),
                                },
                            );
                        }
                        self.resolve_expr(v)
                    },
                    None => Ok(()),
                }
            },
        }
    }

    /// Resolves the statements in order: on success every expression in them
    /// that names a variable of an open scope has its depth recorded; the
    /// first static error ends the pass.
    pub fn resolve_stmts(&mut self, stmts: &Vec<Stmt>) -> (r: Result<(), ResolveError>)
        requires
            old(self).wf(),
        ensures
            final(self).wf(),
            resolved(old(self)@.resolve_stmts(stmts@, 0), r, final(self)@),
        decreases stmts, 1nat,
    {
        let mut i: usize = 0;
        while i < stmts.len()
            invariant
                self.wf(),
                i <= stmts@.len(),
                self@.resolve_stmts(stmts@, i as nat) == old(self)@.resolve_stmts(stmts@, 0),
            decreases stmts@.len() - i,
        {
            match self.resolve_stmt(&stmts[i]) {
                Ok(()) => {},
                Err(e) => {
                    return Err(e);
                },
            }
            i += 1;
        }
        Ok(())
    }
}

/// A recorded depth counts the scopes up to the nearest declaration: if some
/// open scope declares `name`, the depth found for it is the number of scopes
/// that lie further in than the nearest scope declaring it, and none of those
/// declares the name; if no open scope declares it, no depth is found.
pub proof fn lemma_depth_is_nearest_scope(scopes: Seq<Scope>, name: Seq<char>)
    ensures
        match depth_of(scopes, name) {
            Some(d) => {
                &&& d < scopes.len()
                &&& scopes[scopes.len() - 1 - d].contains_key(name)
                &&& forall|k: nat| k < d ==> !(#[trigger] scopes[scopes.len() - 1 - k]).contains_key(name)
            },
            None => forall|i: int| 0 <= i < scopes.len() ==> !(#[trigger] scopes[i]).contains_key(name),
        },
    decreases scopes.len(),
{
    if scopes.len() > 0 && !scopes.last().contains_key(name) {
        let inner = scopes.drop_last();
        lemma_depth_is_nearest_scope(inner, name);
        match depth_of(inner, name) {
            Some(d) => {
                assert(inner[inner.len() - 1 - d] == scopes[scopes.len() - 1 - (d + 1)]);
                assert forall|k: nat| k < d + 1 implies !(#[trigger] scopes[scopes.len() - 1
                    - k]).contains_key(name) by {
                    if k > 0 {
                        assert(inner[inner.len() - 1 - (k - 1) as nat] == scopes[scopes.len() - 1
                            - k]);
                    }
                }
            },
            None => {
                assert forall|i: int| 0 <= i < scopes.len() implies !(#[trigger] scopes[i])
                    .contains_key(name) by {
                    if i < inner.len() {
                        assert(inner[i] == scopes[i]);
                    }
                }
            },
        }
    }
}

/// The chain of frames around `env` mirrors the open scopes as far as `name`
/// goes: for every open scope, the frame as many links out from `env` as the
/// scope lies out from the innermost scope exists, and binds `name` exactly
/// if the scope declares it.
pub open spec fn mirrors(scopes: Seq<Scope>, envs: Seq<Environment>, env: usize, name: Seq<char>)
    -> bool {
    forall|k: nat|
        k < scopes.len() ==> match #[trigger] ancestor_of(envs, env, k) {
            Some(a) => a < envs.len() && envs[a as int].values@.contains_key(name)
                == scopes[scopes.len() - 1 - k].contains_key(name),
            None => false,
        }
}

/// A recorded depth is the number of links to the binding at run time: where
/// the chain of frames around `env` mirrors the open scopes, a name that an
/// open scope declares is read successfully at the depth found for it, at no
/// smaller distance, and that depth is the distance of the nearest frame that
/// binds the name.
pub proof fn lemma_depth_reaches_binding(
    scopes: Seq<Scope>,
    envs: Seq<Environment>,
    env: usize,
    name: Seq<char>,
)
    requires
        mirrors(scopes, envs, env, name),
        depth_of(scopes, name).is_some(),
    ensures
        value_at(envs, env, depth_of(scopes, name).unwrap(), name).is_some(),
        forall|k: nat| k < depth_of(scopes, name).unwrap() ==> value_at(envs, env, k, name).is_none(),
        envs_ordered(envs) ==> nearest_binding(envs, env, name) == depth_of(scopes, name),
{
    let d = depth_of(scopes, name).unwrap();
    lemma_depth_is_nearest_scope(scopes, name);
    assert(ancestor_of(envs, env, d).is_some());
    assert forall|k: nat| k < d implies value_at(envs, env, k, name).is_none() by {
        assert(ancestor_of(envs, env, k).is_some());
        assert(!scopes[scopes.len() - 1 - k].contains_key(name));
    }
    if envs_ordered(envs) {
        lemma_first_read_is_nearest(envs, env, name, d);
    }
}

/// Resolving an expression leaves the open scopes and the kinds of the
/// function and class around it as they were.
pub proof fn lemma_expr_keeps_context(r: Resolution, e: &Expr)
    ensures
        r.resolve_expr(e) matches Ok(after) ==> after.function == r.function && after.class
            == r.class && after.scopes == r.scopes,
    decreases e, 0nat,
{
    match e {
        Expr::Literal(_) => {},
        Expr::Grouping(g) => {
            lemma_expr_keeps_context(r, &*g.expr);
        },
        Expr::Unary(u) => {
            lemma_expr_keeps_context(r, &*u.right);
        },
        Expr::Binary(b) => {
            lemma_expr_keeps_context(r, &*b.left);
            if let Ok(mid) = r.resolve_expr(&*b.left) {
                lemma_expr_keeps_context(mid, &*b.right);
            }
        },
        Expr::Logical(l) => {
            lemma_expr_keeps_context(r, &*l.left);
            if let Ok(mid) = r.resolve_expr(&*l.left) {
                lemma_expr_keeps_context(mid, &*l.right);
            }
        },
        Expr::Var(_) => {},
        Expr::Assign(a) => {
            lemma_expr_keeps_context(r, &*a.value);
        },
        Expr::Call(c) => {
            lemma_expr_keeps_context(r, &*c.calle);
            if let Ok(mid) = r.resolve_expr(&*c.calle) {
                lemma_exprs_keep_context(mid, c.arguments@, 0);
            }
        },
        Expr::Get(g) => {
            lemma_expr_keeps_context(r, &*g.expr);
        },
        Expr::SetExpr(s) => {
            lemma_expr_keeps_context(r, &*s.value);
            if let Ok(mid) = r.resolve_expr(&*s.value) {
                lemma_expr_keeps_context(mid, &*s.expr);
            }
        },
        Expr::This(_) => {},
    }
}

/// Resolving expressions leaves the open scopes and the kinds of the
/// function and class around them as they were.
pub proof fn lemma_exprs_keep_context(r: Resolution, es: Seq<Expr>, i: nat)
    ensures
        r.resolve_exprs(es, i) matches Ok(after) ==> after.function == r.function && after.class
            == r.class && after.scopes == r.scopes,
    decreases es, es.len() - i,
{
    if i < es.len() {
        lemma_expr_keeps_context(r, &es[i as int]);
        if let Ok(mid) = r.resolve_expr(&es[i as int]) {
            lemma_exprs_keep_context(mid, es, i + 1);
        }
    }
}

/// Declaring parameters leaves the kinds of the function and class around them as they were.
pub proof fn lemma_params_keep_context(r: Resolution, params: Seq<Token>, i: nat)
    ensures
        r.declare_params(params, i) matches Ok(after) ==> after.function == r.function
            && after.class == r.class,
    decreases params.len() - i,
{
    if i < params.len() {
        if let Ok(mid) = r.declare(params[i as int]) {
            lemma_params_keep_context(mid.define(params[i as int]), params, i + 1);
        }
    }
}

/// Resolving a function leaves the kinds of the function and class around it as they were.
pub proof fn lemma_fun_keeps_context(r: Resolution, f: &Func, kind: FunctionType)
    ensures
        r.resolve_fun(f, kind) matches Ok(after) ==> after.function == r.function && after.class
            == r.class,
    decreases f, 0nat,
{
    let inside = Resolution { function: kind, ..r }.begin_scope();
    lemma_params_keep_context(inside, f.params@, 0);
    if let Ok(mid) = inside.declare_params(f.params@, 0) {
        lemma_stmts_keep_context(mid, f.body@, 0);
    }
}

/// Resolving methods leaves the kinds of the function and class around them as they were.
pub proof fn lemma_methods_keep_context(r: Resolution, methods: Seq<Func>, i: nat)
    ensures
        r.resolve_methods(methods, i) matches Ok(after) ==> after.function == r.function
            && after.class == r.class,
    decreases methods, methods.len() - i,
{
    if i < methods.len() {
        let kind = if methods[i as int].name.name() == "init"@ {
            FunctionType::INITIALIZER
        } else {
            FunctionType::METHOD
        };
        lemma_fun_keeps_context(r, &methods[i as int], kind);
        if let Ok(mid) = r.resolve_fun(&methods[i as int], kind) {
            lemma_methods_keep_context(mid, methods, i + 1);
        }
    }
}

/// Resolving a statement leaves the kinds of the function and class around it as they were.
pub proof fn lemma_stmt_keeps_context(r: Resolution, s: &Stmt)
    ensures
        r.resolve_stmt(s) matches Ok(after) ==> after.function == r.function && after.class
            == r.class,
    decreases s, 0nat,
{
    match s {
        Stmt::ExprStmt(e) => {
            lemma_expr_keeps_context(r, e);
        },
        Stmt::Var(v) => {
            if let Ok(mid) = r.declare(v.token) {
                if let Some(init) = v.initializer {
                    lemma_expr_keeps_context(mid, &init);
                }
            }
        },
        Stmt::Block(b) => {
            lemma_stmts_keep_context(r.begin_scope(), b.stmts@, 0);
        },
        Stmt::If(i) => {
            lemma_expr_keeps_context(r, &i.condition);
            if let Ok(mid) = r.resolve_expr(&i.condition) {
                lemma_stmt_keeps_context(mid, &*i.then_block);
                if let Ok(then) = mid.resolve_stmt(&*i.then_block) {
                    if let Some(e) = i.else_block {
                        lemma_stmt_keeps_context(then, &*e);
                    }
                }
            }
        },
        Stmt::While(w) => {
            lemma_expr_keeps_context(r, &w.condition);
            if let Ok(mid) = r.resolve_expr(&w.condition) {
                lemma_stmt_keeps_context(mid, &*w.body);
            }
        },
        Stmt::Func(f) => {
            if let Ok(mid) = r.declare(f.name) {
                lemma_fun_keeps_context(mid.define(f.name), f, FunctionType::FUNCTION);
            }
        },
        Stmt::Class(c) => {
            if let Ok(mid) = r.declare(c.name) {
                let inside = Resolution { class: ClassType::CLASS, ..mid.define(c.name) }
                    .begin_scope().bind("this"@, true);
                lemma_methods_keep_context(inside, c.methods@, 0);
            }
        },
        Stmt::Return(ret) => {
            if let Some(v) = ret.value {
                lemma_expr_keeps_context(r, &v);
            }
        },
    }
}

/// Resolving statements leaves the kinds of the function and class around them as they were.
pub proof fn lemma_stmts_keep_context(r: Resolution, ss: Seq<Stmt>, i: nat)
    ensures
        r.resolve_stmts(ss, i) matches Ok(after) ==> after.function == r.function && after.class
            == r.class,
    decreases ss, ss.len() - i,
{
    if i < ss.len() {
        lemma_stmt_keeps_context(r, &ss[i as int]);
        if let Ok(mid) = r.resolve_stmt(&ss[i as int]) {
            lemma_stmts_keep_context(mid, ss, i + 1);
        }
    }
}

/// Whether the statement holds a `return` with a value that belongs to the
/// function around the statement: in the statement itself or nested in its
/// blocks, conditionals and loops, but not in a function or class declared
/// in it.
pub open spec fn returns_value(s: &Stmt) -> bool
    decreases s, 0nat,
{
    match s {
        Stmt::Return(r) => r.value is Some,
        Stmt::Block(b) => any_returns_value(b.stmts@, 0),
        Stmt::If(i) => returns_value(&*i.then_block) || match i.else_block {
            Some(e) => returns_value(&*e),
            None => false,
        },
        Stmt::While(w) => returns_value(&*w.body),
        _ => false,
    }
}

/// Whether one of the statements from the `i`th on holds such a `return`.
pub open spec fn any_returns_value(ss: Seq<Stmt>, i: nat) -> bool
    decreases ss, ss.len() - i,
{
    if i >= ss.len() {
        false
    } else {
        returns_value(&ss[i as int]) || any_returns_value(ss, i + 1)
    }
}

/// Initializer idempotence, statically: inside an initializer, a statement
/// that holds a `return` with a value is rejected.
pub proof fn lemma_initializer_returns_no_value(r: Resolution, s: &Stmt)
    requires
        r.function == FunctionType::INITIALIZER,
        returns_value(s),
    ensures
        r.resolve_stmt(s) is Err,
    decreases s, 0nat,
{
    match s {
        Stmt::Block(b) => {
            lemma_initializer_body_returns_no_value(r.begin_scope(), b.stmts@, 0);
        },
        Stmt::If(i) => {
            lemma_expr_keeps_context(r, &i.condition);
            if let Ok(mid) = r.resolve_expr(&i.condition) {
                if returns_value(&*i.then_block) {
                    lemma_initializer_returns_no_value(mid, &*i.then_block);
                } else {
                    lemma_stmt_keeps_context(mid, &*i.then_block);
                    if let Ok(then) = mid.resolve_stmt(&*i.then_block) {
                        lemma_initializer_returns_no_value(then, &*i.else_block->Some_0);
                    }
                }
            }
        },
        Stmt::While(w) => {
            lemma_expr_keeps_context(r, &w.condition);
            if let Ok(mid) = r.resolve_expr(&w.condition) {
                lemma_initializer_returns_no_value(mid, &*w.body);
            }
        },
        _ => {},
    }
}

/// Inside an initializer, statements of which one holds a `return` with a
/// value are rejected.
pub proof fn lemma_initializer_body_returns_no_value(r: Resolution, ss: Seq<Stmt>, i: nat)
    requires
        r.function == FunctionType::INITIALIZER,
        any_returns_value(ss, i),
    ensures
        r.resolve_stmts(ss, i) is Err,
    decreases ss, ss.len() - i,
{
    if returns_value(&ss[i as int]) {
        lemma_initializer_returns_no_value(r, &ss[i as int]);
    } else {
        lemma_stmt_keeps_context(r, &ss[i as int]);
        if let Ok(mid) = r.resolve_stmt(&ss[i as int]) {
            lemma_initializer_body_returns_no_value(mid, ss, i + 1);
        }
    }
}

/// A method named `init` whose body holds a `return` with a value is rejected
/// wherever its class is declared.
pub proof fn lemma_init_method_returns_no_value(r: Resolution, f: &Func)
    requires
        any_returns_value(f.body@, 0),
    ensures
        r.resolve_fun(f, FunctionType::INITIALIZER) is Err,
{
    let inside = Resolution { function: FunctionType::INITIALIZER, ..r }.begin_scope();
    lemma_params_keep_context(inside, f.params@, 0);
    if let Ok(mid) = inside.declare_params(f.params@, 0) {
        lemma_initializer_body_returns_no_value(mid, f.body@, 0);
    }
}

/// The name that an expression refers to, if it is a variable, an
/// assignment to one, or `this`.
pub open spec fn referenced(e: &Expr) -> Option<Seq<char>> {
    match e {
        Expr::Var(v) => Some(v.name.name()),
        Expr::Assign(a) => Some(a.name.name()),
        Expr::This(t) => Some(t.keyword.name()),
        _ => None,
    }
}

/// Resolver completeness: when an expression that refers to a name is
/// resolved, its depth is recorded exactly if an open scope declares the
/// name, and the depth recorded is the number of scopes between the
/// expression and the nearest scope that declares the name. If no open scope
/// declares the name, nothing is recorded for the expression, which makes
/// the name a global. (For an assignment, the assigned value is resolved
/// first; `before` is the state after that.)
pub proof fn lemma_reference_is_resolved(r: Resolution, e: &Expr)
    requires
        referenced(e) is Some,
        r.resolve_expr(e) is Ok,
        r.scopes.len() <= usize::MAX,
    ensures
        ({
            let after = r.resolve_expr(e)->Ok_0;
            let before = match e {
                Expr::Assign(a) => r.resolve_expr(&*a.value)->Ok_0,
                _ => r,
            };
            &&& before.scopes == r.scopes
            &&& match depth_of(r.scopes, referenced(e)->Some_0) {
                Some(d) => {
                    &&& after.locals == before.locals.insert(e.id(), d as usize)
                    &&& after.locals[e.id()] == d
                    &&& d < r.scopes.len()
                    &&& r.scopes[r.scopes.len() - 1 - d].contains_key(referenced(e)->Some_0)
                    &&& forall|k: nat|
                        k < d ==> !(#[trigger] r.scopes[r.scopes.len() - 1 - k]).contains_key(
                            referenced(e)->Some_0,
                        )
                },
                None => after.locals == before.locals,
            }
        }),
{
    lemma_depth_is_nearest_scope(r.scopes, referenced(e)->Some_0);
    match e {
        Expr::Assign(a) => {
            lemma_expr_keeps_context(r, &*a.value);
        },
        _ => {},
    }
}

} // verus!
