use std::collections::HashMap;

use rlox::expressions::Expr;
use rlox::parser::Parser;
use rlox::resolver::{ResolveError, ResolveErrorKind, Resolver};
use rlox::scanner::{Scanner, TokenType};
use rlox::statements::Stmt;
use rlox::table::Table;
use rlox::types::Object;

fn parse(source: &str) -> Vec<Stmt> {
    let mut tokens = Scanner::new(source.chars().collect()).scan_tokens().unwrap();
    for token in tokens.iter_mut() {
        if token.token_type == TokenType::NUMBER {
            let text = token.lexeme.clone().unwrap();
            token.literal = Object::Num(text.parse::<f64>().unwrap().to_bits());
        }
    }
    Parser::new(tokens).parse().unwrap()
}

fn resolve(source: &str) -> Result<(Vec<Stmt>, HashMap<u64, usize>), ResolveError> {
    let stmts = parse(source);
    let mut resolver = Resolver::new(Vec::new());
    resolver.resolve_stmts(&stmts)?;
    Ok((stmts, resolver.locals()))
}

fn error(source: &str) -> (ResolveErrorKind, u64) {
    let e = resolve(source).unwrap_err();
    (e.kind, e.token.line)
}

/// The names that the expression refers to, with the identities of the references, in source order.
fn references(e: &Expr, found: &mut Vec<(String, u64)>) {
    match e {
        Expr::Literal(_) => {}
        Expr::Var(v) => found.push((v.name.name_string(), v.id)),
        Expr::This(t) => found.push(("this".to_string(), t.id)),
        Expr::Assign(a) => {
            found.push((format!("{}=", a.name.name_string()), a.id));
            references(&a.value, found);
        }
        Expr::Binary(b) => {
            references(&b.left, found);
            references(&b.right, found);
        }
        Expr::Logical(l) => {
            references(&l.left, found);
            references(&l.right, found);
        }
        Expr::Unary(u) => references(&u.right, found),
        Expr::Grouping(g) => references(&g.expr, found),
        Expr::Call(c) => {
            references(&c.calle, found);
            c.arguments.iter().for_each(|a| references(a, found));
        }
        Expr::Get(g) => references(&g.expr, found),
        Expr::SetExpr(s) => {
            references(&s.expr, found);
            references(&s.value, found);
        }
    }
}

fn stmt_references(s: &Stmt, found: &mut Vec<(String, u64)>) {
    match s {
        Stmt::ExprStmt(e) => references(e, found),
        Stmt::Var(v) => {
            if let Some(e) = &v.initializer {
                references(e, found);
            }
        }
        Stmt::Block(b) => b.stmts.iter().for_each(|s| stmt_references(s, found)),
        Stmt::If(i) => {
            references(&i.condition, found);
            stmt_references(&i.then_block, found);
            if let Some(e) = &i.else_block {
                stmt_references(e, found);
            }
        }
        Stmt::While(w) => {
            references(&w.condition, found);
            stmt_references(&w.body, found);
        }
        Stmt::Func(f) => f.body.iter().for_each(|s| stmt_references(s, found)),
        Stmt::Class(c) => c.methods.iter().for_each(|m| m.body.iter().for_each(|s| stmt_references(s, found))),
        Stmt::Return(r) => {
            if let Some(e) = &r.value {
                references(e, found);
            }
        }
    }
}

/// Each reference of the program with the depth recorded for it, in source order.
fn depths(source: &str) -> Vec<(String, Option<usize>)> {
    let (stmts, locals) = resolve(source).unwrap();
    let mut found = Vec::new();
    stmts.iter().for_each(|s| stmt_references(s, &mut found));
    let expected = found.len();
    let result: Vec<_> = found.into_iter().map(|(name, id)| (name, locals.get(&id).copied())).collect();
    assert_eq!(locals.len(), result.iter().filter(|(_, d)| d.is_some()).count());
    assert_eq!(result.len(), expected);
    result
}

fn at(name: &str, depth: usize) -> (String, Option<usize>) {
    (name.to_string(), Some(depth))
}

fn global(name: &str) -> (String, Option<usize>) {
    (name.to_string(), None)
}

#[test]
fn globals_get_no_depth() {
    assert_eq!(depths("var a = 1; a; a = 2; b;"), vec![global("a"), global("a="), global("b")]);
    assert_eq!(depths("fun f() {} f();"), vec![global("f")]);
}

#[test]
fn depth_counts_the_scopes_in_between() {
    assert_eq!(depths("{ var a; a; }"), vec![at("a", 0)]);
    assert_eq!(depths("{ var a; { a; } }"), vec![at("a", 1)]);
    assert_eq!(depths("{ var a; { { a; } } }"), vec![at("a", 2)]);
    assert_eq!(depths("{ var a; { var b; { var c; a; b; c; } } }"), vec![at("a", 2), at("b", 1), at("c", 0)]);
}

#[test]
fn the_nearest_declaration_wins() {
    assert_eq!(depths("{ var a; { var a; a; } a; }"), vec![at("a", 0), at("a", 0)]);
    assert_eq!(depths("var a; { a; var a; a; }"), vec![global("a"), at("a", 0)]);
    assert_eq!(depths("{ var a; { fun f() { a; } var a; a; } }"), vec![at("a", 2), at("a", 0)]);
}

#[test]
fn functions_open_one_scope_for_parameters_and_body() {
    let source = "{ var a; { var b; fun f(c) { a; b; c; g; f; { var d; a; d; c; } } } }";
    assert_eq!(
        depths(source),
        vec![at("a", 2), at("b", 1), at("c", 0), global("g"), at("f", 1), at("a", 3), at("d", 0), at("c", 1)]
    );
    assert_eq!(depths("fun f(a) { a; var b; b; }"), vec![at("a", 0), at("b", 0)]);
}

#[test]
fn assignments_are_resolved_like_reads() {
    assert_eq!(depths("{ var a; { a = 1; } }"), vec![at("a=", 1)]);
    assert_eq!(depths("{ var a; var b; { a = b; } }"), vec![at("a=", 1), at("b", 1)]);
    assert_eq!(depths("{ var a; a = a; }"), vec![at("a=", 0), at("a", 0)]);
}

#[test]
fn closures_in_closures() {
    let source = "fun make() { var i = 0; fun inc() { i = i + 1; return i; } return inc; }";
    assert_eq!(depths(source), vec![at("i=", 1), at("i", 1), at("i", 1), at("inc", 0)]);
    let source = "fun a() { var x; fun b() { fun c() { x; } } }";
    assert_eq!(depths(source), vec![at("x", 2)]);
}

#[test]
fn this_lives_one_scope_outside_the_method() {
    assert_eq!(depths("class A { m() { this; } }"), vec![at("this", 1)]);
    assert_eq!(depths("class A { m() { { this.x = this.y; } } }"), vec![at("this", 2), at("this", 2)]);
    assert_eq!(depths("class A { m() { fun f() { this; } } }"), vec![at("this", 2)]);
    assert_eq!(depths("class A { init(a) { this.a = a; } }"), vec![at("this", 1), at("a", 0)]);
    assert_eq!(depths("{ class A { m() { A; } } }"), vec![at("A", 2)]);
}

#[test]
fn for_loops_scope_their_variable() {
    assert_eq!(
        depths("for (var i = 0; i < 3; i = i + 1) i;"),
        vec![at("i", 0), at("i", 1), at("i=", 1), at("i", 1)]
    );
}

#[test]
fn static_errors() {
    assert_eq!(error("{ var a = a; }"), (ResolveErrorKind::OwnInitializer, 1));
    assert_eq!(error("{ var a;\n{ var b = 1; var c = c + b; } }"), (ResolveErrorKind::OwnInitializer, 2));
    assert_eq!(error("{ var a; var a; }"), (ResolveErrorKind::Redeclared, 1));
    assert_eq!(error("{ var a;\nfun a() {} }"), (ResolveErrorKind::Redeclared, 2));
    assert_eq!(error("{ fun f() {}\n\nclass f {} }"), (ResolveErrorKind::Redeclared, 3));
    assert_eq!(error("fun f(a, b, a) {}"), (ResolveErrorKind::Redeclared, 1));
    assert_eq!(error("fun f(a) { var a; }"), (ResolveErrorKind::Redeclared, 1));
    assert_eq!(error("return;"), (ResolveErrorKind::TopLevelReturn, 1));
    assert_eq!(error("{ if (true) { return 1; } }"), (ResolveErrorKind::TopLevelReturn, 1));
    assert_eq!(error("class A { init() { return nil; } }"), (ResolveErrorKind::InitializerReturn, 1));
    assert_eq!(
        error("class A { init() {\n while (true) { if (1) {} else {\n return 1; } } } }"),
        (ResolveErrorKind::InitializerReturn, 3)
    );
    assert_eq!(error("this;"), (ResolveErrorKind::ThisOutsideClass, 1));
    assert_eq!(error("fun f() { this.x = 1; }"), (ResolveErrorKind::ThisOutsideClass, 1));
    assert_eq!(error("class A {}\nprintln(this);"), (ResolveErrorKind::ThisOutsideClass, 2));
}

#[test]
fn what_is_allowed() {
    assert!(resolve("var a = 1; var a = a;").is_ok());
    assert!(resolve("class A { init() { return; } m() { return 1; } }").is_ok());
    assert!(resolve("class A { init() { fun f() { return 1; } } }").is_ok());
    assert!(resolve("fun f() { return 1; }").is_ok());
    assert!(resolve("{ var a; { var a; } }").is_ok());
    assert!(resolve("fun f(a) { { var a; } }").is_ok());
    assert!(resolve("class A { m() { return this; } }").is_ok());
}

#[test]
fn the_first_error_ends_the_pass() {
    assert_eq!(error("return;\nthis;"), (ResolveErrorKind::TopLevelReturn, 1));
    assert_eq!(error("this;\nreturn;"), (ResolveErrorKind::ThisOutsideClass, 1));
}

#[test]
fn error_texts() {
    let e = resolve("{ var a;\n var a; }").unwrap_err();
    assert_eq!(e.message(), "Already a variable with this name in this scope.");
    assert_eq!(e.report(), "[Line: 2] at 'a' Already a variable with this name in this scope.");
    let e = resolve("{ var a = a; }").unwrap_err();
    assert_eq!(e.report(), "[Line: 1] at 'a' Can't read local variable in its own initializer.");
    let e = resolve("return 1;").unwrap_err();
    assert_eq!(e.report(), "[Line: 1] at 'return' Can't return from top-level code.");
    let e = resolve("class A { init() { return 1; } }").unwrap_err();
    assert_eq!(e.report(), "[Line: 1] at 'return' Can't return a value from an initializer.");
    let e = resolve("this;").unwrap_err();
    assert_eq!(e.report(), "[Line: 1] at 'this' Can't use 'this' outside of a class.");
}

#[test]
fn a_resolver_may_start_inside_scopes() {
    let stmts = parse("a; b; c;");
    let mut outer: Table<bool> = Table::new();
    outer.insert("a".to_string(), true);
    let mut inner: Table<bool> = Table::new();
    inner.insert("b".to_string(), true);
    let mut resolver = Resolver::new(vec![outer, inner]);
    resolver.resolve_stmts(&stmts).unwrap();
    let locals = resolver.locals();
    let mut found = Vec::new();
    stmts.iter().for_each(|s| stmt_references(s, &mut found));
    let result: Vec<_> = found.iter().map(|(_, id)| locals.get(id).copied()).collect();
    assert_eq!(result, vec![Some(1), Some(0), None]);
}

#[test]
fn a_name_declared_and_not_defined_may_not_be_read() {
    let stmts = parse("a;");
    let mut scope: Table<bool> = Table::new();
    scope.insert("a".to_string(), false);
    let mut resolver = Resolver::new(vec![scope]);
    assert_eq!(resolver.resolve_stmts(&stmts).unwrap_err().kind, ResolveErrorKind::OwnInitializer);
}
