use rlox::environment::{assign_at, get_at, Environment};
use rlox::interpreter::{Interpreter, RuntimeError};
use rlox::machine::{Action, Event, Piece};
use rlox::operators::ArithOp;
use rlox::parser::Parser;
use rlox::resolver::Resolver;
use rlox::scanner::{Scanner, Token, TokenType};
use rlox::statements::Stmt;
use rlox::types::{Function, NativeFunc, Object};

fn parse(source: &str) -> Vec<Stmt> {
    let mut tokens = Scanner::new(source.chars().collect()).scan_tokens().unwrap();
    for token in tokens.iter_mut() {
        if token.token_type == TokenType::NUMBER {
            let text = token.lexeme.clone().unwrap();
            token.literal = Object::Num(text.parse::<f64>().unwrap().to_bits());
        }
    }
    Parser::new(tokens).parse().unwrap()
}

fn load<'a>(stmts: &'a Vec<Stmt>) -> Interpreter<'a> {
    let mut resolver = Resolver::new(Vec::new());
    resolver.resolve_stmts(stmts).unwrap();
    let mut interpreter = Interpreter::new();
    interpreter.resolve_all(resolver.locals());
    interpreter.interpret(stmts);
    interpreter
}

/// Steps with `event`, then on until the machine asks for something.
fn until_asked(interpreter: &mut Interpreter, event: Event) -> Action {
    let mut event = event;
    for _ in 0..100_000 {
        match interpreter.step(event) {
            Action::Continue => event = Event::Resume,
            action => return action,
        }
    }
    panic!("the machine does not ask");
}

fn text(pieces: &[Piece]) -> String {
    pieces
        .iter()
        .map(|p| match p {
            Piece::Text(t) => t.clone(),
            Piece::Number(bits) => format!("<{}>", f64::from_bits(*bits)),
        })
        .collect()
}

fn num(x: f64) -> Object {
    Object::Num(x.to_bits())
}

fn key(name: &str) -> String {
    name.to_string()
}

#[test]
fn a_machine_without_a_program_is_done() {
    let mut interpreter = Interpreter::new();
    assert!(matches!(interpreter.step(Event::Resume), Action::Done));
    assert!(matches!(interpreter.step(Event::Number(1)), Action::Done));
}

#[test]
fn an_empty_program_is_done_after_one_step() {
    let stmts = parse("");
    let mut interpreter = load(&stmts);
    assert!(matches!(interpreter.step(Event::Resume), Action::Continue));
    assert!(matches!(interpreter.step(Event::Resume), Action::Done));
    assert!(matches!(interpreter.step(Event::Resume), Action::Done));
}

#[test]
fn arithmetic_is_asked_operand_by_operand() {
    let stmts = parse("println(1 + 2 * 3);");
    let mut interpreter = load(&stmts);
    match until_asked(&mut interpreter, Event::Resume) {
        Action::Arithmetic { op, left, right } => {
            assert_eq!(op, ArithOp::Mul);
            assert_eq!(f64::from_bits(left), 2.0);
            assert_eq!(f64::from_bits(right), 3.0);
        }
        other => panic!("{:?}", other),
    }
    match until_asked(&mut interpreter, Event::Number(6.0f64.to_bits())) {
        Action::Arithmetic { op, left, right } => {
            assert_eq!(op, ArithOp::Add);
            assert_eq!(f64::from_bits(left), 1.0);
            assert_eq!(f64::from_bits(right), 6.0);
        }
        other => panic!("{:?}", other),
    }
    match until_asked(&mut interpreter, Event::Number(7.0f64.to_bits())) {
        Action::Write { pieces, newline } => {
            assert!(newline);
            assert_eq!(text(&pieces), "<7>");
        }
        other => panic!("{:?}", other),
    }
    assert!(matches!(until_asked(&mut interpreter, Event::Resume), Action::Done));
}

#[test]
fn the_host_decides_what_arithmetic_yields() {
    let stmts = parse("println(1 - 1);");
    let mut interpreter = load(&stmts);
    assert!(matches!(until_asked(&mut interpreter, Event::Resume), Action::Arithmetic { op: ArithOp::Sub, .. }));
    match until_asked(&mut interpreter, Event::Number(42.5f64.to_bits())) {
        Action::Write { pieces, .. } => assert_eq!(text(&pieces), "<42.5>"),
        other => panic!("{:?}", other),
    }
}

#[test]
fn print_and_println_differ_in_the_newline() {
    let stmts = parse("print(\"a\", 1); println(\"b\", nil, true);");
    let mut interpreter = load(&stmts);
    match until_asked(&mut interpreter, Event::Resume) {
        Action::Write { pieces, newline } => {
            assert!(!newline);
            assert_eq!(pieces.len(), 3);
            assert_eq!(text(&pieces), "a <1>");
        }
        other => panic!("{:?}", other),
    }
    match until_asked(&mut interpreter, Event::Resume) {
        Action::Write { pieces, newline } => {
            assert!(newline);
            assert_eq!(pieces.len(), 5);
            assert_eq!(text(&pieces), "b nil true");
        }
        other => panic!("{:?}", other),
    }
    assert!(matches!(until_asked(&mut interpreter, Event::Resume), Action::Done));
}

#[test]
fn input_prompts_then_reads() {
    let stmts = parse("println(input(\"name? \"));");
    let mut interpreter = load(&stmts);
    match until_asked(&mut interpreter, Event::Resume) {
        Action::Write { pieces, newline } => {
            assert!(!newline);
            assert_eq!(text(&pieces), "name? ");
        }
        other => panic!("{:?}", other),
    }
    assert!(matches!(until_asked(&mut interpreter, Event::Resume), Action::ReadLine));
    match until_asked(&mut interpreter, Event::Line("Ada\r\n".to_string())) {
        Action::Write { pieces, .. } => assert_eq!(text(&pieces), "Ada"),
        other => panic!("{:?}", other),
    }
}

#[test]
fn input_without_a_prompt_reads_at_once() {
    let stmts = parse("var line = input();");
    let mut interpreter = load(&stmts);
    assert!(matches!(until_asked(&mut interpreter, Event::Resume), Action::ReadLine));
    assert!(matches!(until_asked(&mut interpreter, Event::Line("x\n".to_string())), Action::Done));
}

fn failure(action: Action) -> RuntimeError {
    match action {
        Action::Error(e) => e,
        other => panic!("no error: {:?}", other),
    }
}

#[test]
fn a_failed_write_is_a_runtime_error() {
    let stmts = parse("\nprintln(1);\nprintln(2);");
    let mut interpreter = load(&stmts);
    assert!(matches!(until_asked(&mut interpreter, Event::Resume), Action::Write { .. }));
    let error = failure(until_asked(&mut interpreter, Event::Failed("broken pipe".to_string())));
    assert_eq!(error.message, "broken pipe");
    assert_eq!(error.token.line, 2);
    assert_eq!(error.report(), "Runtime Error: broken pipe - [Line: 2]");
    assert!(matches!(interpreter.step(Event::Resume), Action::Done));
}

#[test]
fn a_failed_read_is_a_runtime_error() {
    let stmts = parse("input(\"? \");");
    let mut interpreter = load(&stmts);
    assert!(matches!(until_asked(&mut interpreter, Event::Resume), Action::Write { .. }));
    assert!(matches!(until_asked(&mut interpreter, Event::Resume), Action::ReadLine));
    let error = failure(until_asked(&mut interpreter, Event::Failed("closed".to_string())));
    assert_eq!(error.message, "closed");
    let stmts = parse("input(\"? \");");
    let mut interpreter = load(&stmts);
    assert!(matches!(until_asked(&mut interpreter, Event::Resume), Action::Write { .. }));
    let error = failure(until_asked(&mut interpreter, Event::Failed("no terminal".to_string())));
    assert_eq!(error.message, "no terminal");
}

#[test]
fn an_answer_that_was_not_asked_for_is_a_runtime_error() {
    let stmts = parse("1 + 2;");
    let mut interpreter = load(&stmts);
    assert!(matches!(until_asked(&mut interpreter, Event::Resume), Action::Arithmetic { .. }));
    let error = failure(interpreter.step(Event::Resume));
    assert_eq!(error.message, "The host did not answer the request.");
    assert_eq!(error.token.token_type, TokenType::PLUS);

    let stmts = parse("println(1);");
    let mut interpreter = load(&stmts);
    assert!(matches!(until_asked(&mut interpreter, Event::Resume), Action::Write { .. }));
    let error = failure(interpreter.step(Event::Number(0)));
    assert_eq!(error.message, "The host did not answer the request.");

    let stmts = parse("input();");
    let mut interpreter = load(&stmts);
    assert!(matches!(until_asked(&mut interpreter, Event::Resume), Action::ReadLine));
    let error = failure(interpreter.step(Event::Resume));
    assert_eq!(error.message, "The host did not answer the request.");

    let stmts = parse("input(\"p\");");
    let mut interpreter = load(&stmts);
    assert!(matches!(until_asked(&mut interpreter, Event::Resume), Action::Write { .. }));
    let error = failure(interpreter.step(Event::Line("x".to_string())));
    assert_eq!(error.message, "The host did not answer the request.");
}

#[test]
fn an_event_is_ignored_when_nothing_is_asked() {
    let stmts = parse("println(\"a\");");
    let mut interpreter = load(&stmts);
    assert!(matches!(interpreter.step(Event::Number(7)), Action::Continue));
    assert!(matches!(interpreter.step(Event::Failed("x".to_string())), Action::Continue));
    match until_asked(&mut interpreter, Event::Line("y".to_string())) {
        Action::Write { pieces, .. } => assert_eq!(text(&pieces), "a"),
        other => panic!("{:?}", other),
    }
}

#[test]
fn after_an_error_the_machine_is_done() {
    let stmts = parse("println(x); println(1);");
    let mut interpreter = load(&stmts);
    let error = failure(until_asked(&mut interpreter, Event::Resume));
    assert_eq!(error.message, "Undefined variable.");
    assert_eq!(error.report(), "Runtime Error: Undefined variable. - [Line: 1]");
    assert!(matches!(interpreter.step(Event::Resume), Action::Done));
}

#[test]
fn a_program_may_be_loaded_after_another() {
    let first = parse("var a = \"kept\";");
    let second = parse("println(a);");
    let mut interpreter = Interpreter::new();
    interpreter.interpret(&first);
    assert!(matches!(until_asked(&mut interpreter, Event::Resume), Action::Done));
    interpreter.interpret(&second);
    match until_asked(&mut interpreter, Event::Resume) {
        Action::Write { pieces, .. } => assert_eq!(text(&pieces), "kept"),
        other => panic!("{:?}", other),
    }
}

#[test]
fn depths_may_be_recorded_one_by_one() {
    let stmts = parse("{ var a = \"in\"; { println(a); } }");
    let mut interpreter = Interpreter::new();
    let reference = match &stmts[0] {
        Stmt::Block(outer) => match &outer.stmts[1] {
            Stmt::Block(inner) => match &inner.stmts[0] {
                Stmt::ExprStmt(rlox::expressions::Expr::Call(c)) => &c.arguments[0],
                other => panic!("{:?}", other),
            },
            other => panic!("{:?}", other),
        },
        other => panic!("{:?}", other),
    };
    interpreter.resolve(reference, 1);
    interpreter.interpret(&stmts);
    match until_asked(&mut interpreter, Event::Resume) {
        Action::Write { pieces, .. } => assert_eq!(text(&pieces), "in"),
        other => panic!("{:?}", other),
    }
}

#[test]
fn an_unresolved_local_is_looked_up_in_the_globals() {
    let stmts = parse("{ var a = 1; println(a); }");
    let mut interpreter = Interpreter::new();
    interpreter.interpret(&stmts);
    let error = failure(until_asked(&mut interpreter, Event::Resume));
    assert_eq!(error.message, "Undefined variable.");
}

#[test]
fn a_depth_beyond_the_chain_is_an_undefined_variable() {
    let stmts = parse("a = 1;");
    let mut interpreter = Interpreter::new();
    let assignment = match &stmts[0] {
        Stmt::ExprStmt(e) => e,
        other => panic!("{:?}", other),
    };
    interpreter.resolve(assignment, 3);
    interpreter.interpret(&stmts);
    let error = failure(until_asked(&mut interpreter, Event::Resume));
    assert_eq!(error.message, "Undefined variable.");
}

#[test]
fn this_without_a_recorded_depth_is_looked_up_in_the_globals() {
    let stmts = parse("class A { m() { return this; } } A().m();");
    let mut interpreter = Interpreter::new();
    interpreter.interpret(&stmts);
    let error = failure(until_asked(&mut interpreter, Event::Resume));
    assert_eq!(error.message, "Undeclared variable this");
    assert_eq!(error.token.token_type, TokenType::THIS);
}

#[test]
fn values_are_shown() {
    let stmts = parse("fun named() {} class Thing { m() {} } var t = Thing();");
    let mut interpreter = load(&stmts);
    assert!(matches!(until_asked(&mut interpreter, Event::Resume), Action::Done));
    let show = |v: Object| text(&[interpreter.display(&v)]);
    assert_eq!(show(num(1.5)), "<1.5>");
    assert_eq!(show(Object::Str("s".to_string())), "s");
    assert_eq!(show(Object::Bool(true)), "true");
    assert_eq!(show(Object::Bool(false)), "false");
    assert_eq!(show(Object::Nil), "nil");
    assert_eq!(show(Object::Func(0)), "<fn named>");
    assert_eq!(show(Object::Func(99)), "<fn>");
    assert_eq!(show(Object::NativeFunc(NativeFunc::INPUT)), "<native fn>");
    assert_eq!(show(Object::Class(0)), "Thing");
    assert_eq!(show(Object::Class(99)), "<class>");
    assert_eq!(show(Object::ClassInstance(0)), "Thing instance");
    assert_eq!(show(Object::ClassInstance(99)), "<instance>");
}

#[test]
fn native_functions_may_be_called_directly() {
    let mut interpreter = Interpreter::new();
    let paren = Token::new(TokenType::RIGHTPAREN, 5, None, Object::Nil);
    match NativeFunc::PRINTLN.call(&mut interpreter, &paren, vec![num(1.0), Object::Nil]) {
        Action::Write { pieces, newline } => {
            assert!(newline);
            assert_eq!(text(&pieces), "<1> nil");
        }
        other => panic!("{:?}", other),
    }
    let mut interpreter = Interpreter::new();
    match NativeFunc::PRINT.call(&mut interpreter, &paren, Vec::new()) {
        Action::Write { pieces, newline } => {
            assert!(!newline);
            assert!(pieces.is_empty());
        }
        other => panic!("{:?}", other),
    }
    let mut interpreter = Interpreter::new();
    let error = failure(NativeFunc::INPUT.call(&mut interpreter, &paren, vec![Object::Nil, Object::Nil, Object::Nil]));
    assert_eq!(error.message, "expect 0 or 1 arguments, got 3");
    assert_eq!(error.token.line, 5);
    let mut interpreter = Interpreter::new();
    let error = failure(NativeFunc::INPUT.call(&mut interpreter, &paren, vec![num(1.0)]));
    assert_eq!(error.message, "the prompt must be a string");
}

#[test]
fn a_function_may_be_called_directly() {
    let stmts = parse("fun twice(a) { println(a, a); }");
    let decl = match &stmts[0] {
        Stmt::Func(f) => f,
        other => panic!("{:?}", other),
    };
    let function = Function { decl, closure: 0, is_init: false };
    let paren = Token::new(TokenType::RIGHTPAREN, 1, None, Object::Nil);
    let mut resolver = Resolver::new(Vec::new());
    resolver.resolve_stmts(&stmts).unwrap();
    let mut interpreter = Interpreter::new();
    interpreter.resolve_all(resolver.locals());
    assert!(matches!(function.call(&mut interpreter, vec![num(4.0)], &paren), Action::Continue));
    match until_asked(&mut interpreter, Event::Resume) {
        Action::Write { pieces, .. } => assert_eq!(text(&pieces), "<4> <4>"),
        other => panic!("{:?}", other),
    }
    assert!(matches!(until_asked(&mut interpreter, Event::Resume), Action::Done));
    let mut interpreter = Interpreter::new();
    let error = failure(function.call(&mut interpreter, Vec::new(), &paren));
    assert_eq!(error.message, "Expected 1 arguments but got 0.");
}

#[test]
fn a_bound_method_closes_over_its_instance() {
    let stmts = parse("fun who() { println(this); }");
    let decl = match &stmts[0] {
        Stmt::Func(f) => f,
        other => panic!("{:?}", other),
    };
    let method = Function { decl, closure: 0, is_init: true };
    let mut interpreter = Interpreter::new();
    let bound = method.bind(&mut interpreter, 7);
    assert_eq!(bound.closure, 1);
    assert!(bound.is_init);
    let again = method.bind(&mut interpreter, 8);
    assert_eq!(again.closure, 2);
}

#[test]
fn scheduling_primitives() {
    let stmts = parse("println(\"first\"); { println(\"second\"); }");
    let mut interpreter = Interpreter::new();
    interpreter.execute(&stmts[0]);
    match until_asked(&mut interpreter, Event::Resume) {
        Action::Write { pieces, .. } => assert_eq!(text(&pieces), "first"),
        other => panic!("{:?}", other),
    }
    assert!(matches!(until_asked(&mut interpreter, Event::Resume), Action::Done));
    let block = match &stmts[1] {
        Stmt::Block(b) => &b.stmts,
        other => panic!("{:?}", other),
    };
    interpreter.execute_block(block, 0);
    match until_asked(&mut interpreter, Event::Resume) {
        Action::Write { pieces, .. } => assert_eq!(text(&pieces), "second"),
        other => panic!("{:?}", other),
    }
    let expression = match &stmts[0] {
        Stmt::ExprStmt(e) => e,
        other => panic!("{:?}", other),
    };
    let mut interpreter = Interpreter::new();
    interpreter.evaluate(expression);
    assert!(matches!(until_asked(&mut interpreter, Event::Resume), Action::Write { .. }));
}

#[test]
fn environments_are_read_and_written_at_a_distance() {
    let mut envs = vec![Environment::new(None)];
    envs[0].set(key("a"), num(1.0));
    envs.push(Environment::new(Some(0)));
    envs[1].set(key("b"), num(2.0));
    envs.push(Environment::new(Some(1)));
    envs.push(Environment::new(Some(0)));
    let read = |envs: &Vec<Environment>, env: usize, distance: usize, name: &str| {
        get_at(envs, env, distance, &key(name)).map(|v| match v {
            Object::Num(bits) => f64::from_bits(bits),
            other => panic!("{:?}", other),
        })
    };
    assert_eq!(read(&envs, 2, 2, "a"), Some(1.0));
    assert_eq!(read(&envs, 2, 1, "b"), Some(2.0));
    assert_eq!(read(&envs, 2, 0, "a"), None);
    assert_eq!(read(&envs, 2, 1, "a"), None);
    assert_eq!(read(&envs, 2, 3, "a"), None);
    assert_eq!(read(&envs, 3, 1, "a"), Some(1.0));
    assert_eq!(read(&envs, 3, 1, "b"), None);
    assert_eq!(read(&envs, 9, 0, "a"), None);
    assert_eq!(read(&envs, 0, 0, "a"), Some(1.0));

    assert!(assign_at(&mut envs, 2, 2, key("a"), num(10.0)));
    assert_eq!(read(&envs, 3, 1, "a"), Some(10.0));
    assert_eq!(read(&envs, 0, 0, "a"), Some(10.0));
    assert!(assign_at(&mut envs, 2, 0, key("a"), num(20.0)));
    assert_eq!(read(&envs, 2, 0, "a"), Some(20.0));
    assert_eq!(read(&envs, 2, 2, "a"), Some(10.0));
    assert!(!assign_at(&mut envs, 2, 3, key("a"), num(30.0)));
    assert!(!assign_at(&mut envs, 7, 0, key("a"), num(30.0)));
    assert_eq!(read(&envs, 0, 0, "a"), Some(10.0));
    assert_eq!(envs.len(), 4);
}

#[test]
fn setting_replaces_in_one_frame_only() {
    let mut env = Environment::new(Some(3));
    assert_eq!(env.enclosing, Some(3));
    env.set(key("x"), num(1.0));
    env.set(key("x"), num(2.0));
    env.set(key("y"), Object::Nil);
    assert_eq!(env.values.entries.len(), 2);
    assert!(env.values.get(&key("x")).unwrap().equals(&num(2.0)));
}

#[test]
fn runtime_error_keeps_its_parts() {
    let token = Token::new(TokenType::PLUS, 31, None, Object::Nil);
    let error = RuntimeError::new("bad".to_string(), token);
    assert_eq!(error.message, "bad");
    assert_eq!(error.token.line, 31);
    assert_eq!(error.report(), "Runtime Error: bad - [Line: 31]");
}

#[test]
fn running_stops_where_the_host_is_asked() {
    let stmts = parse("var i = 0; while (i < 3) { i = i + 1; } println(i);");
    let mut interpreter = load(&stmts);
    let mut asked = 0;
    let mut event = Event::Resume;
    loop {
        event = match interpreter.run(event, 1_000_000) {
            Action::Arithmetic { op: ArithOp::Add, left, right } => {
                asked += 1;
                Event::Number((f64::from_bits(left) + f64::from_bits(right)).to_bits())
            }
            Action::Write { pieces, .. } => {
                assert_eq!(text(&pieces), "<3>");
                Event::Resume
            }
            Action::Done => break,
            other => panic!("{:?}", other),
        };
    }
    assert_eq!(asked, 3);
    assert!(interpreter.is_done());
}

#[test]
fn running_stops_when_the_budget_is_spent() {
    let stmts = parse("while (true) {}");
    let mut interpreter = load(&stmts);
    assert!(matches!(interpreter.run(Event::Resume, 0), Action::Continue));
    assert!(matches!(interpreter.run(Event::Resume, 1), Action::Continue));
    assert!(matches!(interpreter.run(Event::Resume, 10_000), Action::Continue));
    assert!(!interpreter.is_done());
    let stmts = parse("");
    let mut interpreter = load(&stmts);
    assert!(!interpreter.is_done());
    assert!(matches!(interpreter.run(Event::Resume, 1), Action::Continue));
    assert!(matches!(interpreter.run(Event::Resume, 1), Action::Done));
    assert!(interpreter.is_done());
    let mut interpreter = load(&stmts);
    assert!(matches!(interpreter.run(Event::Resume, 5), Action::Done));
}

#[test]
fn globals_may_be_read_and_written_by_the_host() {
    let stmts = parse("var a = \"set\"; b = a + given;");
    let mut interpreter = load(&stmts);
    assert!(interpreter.global_get(&key("a")).is_none());
    assert!(matches!(interpreter.global_get(&key("print")), Some(Object::NativeFunc(NativeFunc::PRINT))));
    interpreter.global_assign(key("given"), Object::Str("!".to_string()));
    assert!(matches!(interpreter.run(Event::Resume, 1_000), Action::Done));
    assert!(interpreter.global_get(&key("a")).unwrap().equals(&Object::Str("set".to_string())));
    assert!(interpreter.global_get(&key("b")).unwrap().equals(&Object::Str("set!".to_string())));
    interpreter.define(key("c"), num(1.0));
    assert!(interpreter.global_get(&key("c")).unwrap().equals(&num(1.0)));
    interpreter.global_assign(key("c"), num(2.0));
    assert!(interpreter.global_get(&key("c")).unwrap().equals(&num(2.0)));
}

/// Runs the program to its end with a host that adds, and gives the largest
/// number of environments that were alive after a step.
fn peak_environments(source: &str) -> (usize, usize) {
    let stmts = parse(source);
    let mut interpreter = load(&stmts);
    let mut peak = interpreter.environments();
    let mut event = Event::Resume;
    loop {
        event = match interpreter.step(event) {
            Action::Continue => Event::Resume,
            Action::Arithmetic { left, right, .. } => {
                Event::Number((f64::from_bits(left) + f64::from_bits(right)).to_bits())
            }
            Action::Write { .. } => Event::Resume,
            Action::Done => break,
            other => panic!("{:?}", other),
        };
        peak = peak.max(interpreter.environments());
    }
    (peak, interpreter.environments())
}

#[test]
fn environments_of_finished_blocks_are_given_up() {
    let (peak, left) = peak_environments("var i = 0; while (i < 500) { var j = i; { var k = j; } i = i + 1; }");
    assert_eq!(peak, 3);
    assert_eq!(left, 1);
}

#[test]
fn environments_of_finished_calls_are_given_up() {
    let source = "fun add(a, b) { { var c = a + b; return c; } } var i = 0; while (i < 300) { i = add(i, 1); }";
    let (peak, left) = peak_environments(source);
    assert_eq!(peak, 4);
    assert_eq!(left, 1);
    let source = "fun down(n) { if (n < 1) return 0; return down(n + -1); } down(50);";
    let (peak, left) = peak_environments(source);
    assert_eq!(peak, 52);
    assert_eq!(left, 1);
}

#[test]
fn environments_that_a_function_closes_over_are_kept() {
    let source = "var f; { var a = 1; { var b = 2; fun g() { return a + b; } f = g; } } println(f());";
    let (peak, left) = peak_environments(source);
    assert_eq!(peak, 4);
    assert_eq!(left, 3);
    let source = "fun make() { var n = 0; fun get() { return n; } return get; } var i = 0; \
                  while (i < 10) { make(); i = i + 1; }";
    // Each round keeps the environment of its call, which `get` closes over,
    // and with it the environment of the loop's block, which is older.
    let (_, left) = peak_environments(source);
    assert_eq!(left, 21);
}

#[test]
fn many_blocks_leave_the_machine_in_order() {
    let source = "var i = 0; var sum = 0; while (i < 200) { { var j = i; { sum = sum + j; } } i = i + 1; } println(sum);";
    let stmts = parse(source);
    let mut interpreter = load(&stmts);
    let mut event = Event::Resume;
    let mut written = String::new();
    loop {
        event = match interpreter.step(event) {
            Action::Continue => Event::Resume,
            Action::Arithmetic { op, left, right } => {
                let (l, r) = (f64::from_bits(left), f64::from_bits(right));
                assert!(matches!(op, ArithOp::Add));
                Event::Number((l + r).to_bits())
            }
            Action::Write { pieces, .. } => {
                written.push_str(&text(&pieces));
                Event::Resume
            }
            Action::Done => break,
            other => panic!("{:?}", other),
        };
    }
    assert_eq!(written, "<19900>");
}
