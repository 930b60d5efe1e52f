use rlox::interpreter::Interpreter;
use rlox::machine::{Action, Event, Piece};
use rlox::operators::ArithOp;
use rlox::parser::ParseErrorKind;
use rlox::pipeline::{compile, CompileError, Program};
use rlox::resolver::ResolveErrorKind;
use rlox::scanner::{Scanner, Token, TokenType};
use rlox::types::Object;

fn tokens(source: &str) -> Vec<Token> {
    let mut tokens = Scanner::new(source.chars().collect()).scan_tokens().unwrap();
    for token in tokens.iter_mut() {
        if token.token_type == TokenType::NUMBER {
            let text = token.lexeme.clone().unwrap();
            token.literal = Object::Num(text.parse::<f64>().unwrap().to_bits());
        }
    }
    tokens
}

fn program(source: &str) -> Program {
    compile(tokens(source)).unwrap()
}

fn run(program: &Program) -> Result<String, String> {
    let mut interpreter = Interpreter::load(program);
    let mut output = String::new();
    let mut event = Event::Resume;
    loop {
        event = match interpreter.run(event, 100_000) {
            Action::Continue => Event::Resume,
            Action::Arithmetic { op, left, right } => {
                let (l, r) = (f64::from_bits(left), f64::from_bits(right));
                Event::Number(
                    match op {
                        ArithOp::Add => l + r,
                        ArithOp::Sub => l - r,
                        ArithOp::Mul => l * r,
                        ArithOp::Div => l / r,
                    }
                    .to_bits(),
                )
            }
            Action::Write { pieces, newline } => {
                for piece in &pieces {
                    match piece {
                        Piece::Text(t) => output.push_str(t),
                        Piece::Number(bits) => output.push_str(&format!("{}", f64::from_bits(*bits))),
                    }
                }
                if newline {
                    output.push('\n');
                }
                Event::Resume
            }
            Action::ReadLine => Event::Line(String::new()),
            Action::Done => return Ok(output),
            Action::Error(e) => return Err(e.report()),
        };
    }
}

#[test]
fn a_compiled_program_runs() {
    let program = program("var a = 1; { var b = a + 1; println(a, b); }");
    assert_eq!(program.stmts.len(), 2);
    assert_eq!(run(&program).unwrap(), "1 2\n");
    assert_eq!(run(&program).unwrap(), "1 2\n");
}

#[test]
fn compiling_records_the_depths_of_locals_only() {
    let program = program("var g; { var a; { a; g; } }");
    assert_eq!(program.locals.len(), 1);
    assert_eq!(program.locals.values().copied().collect::<Vec<_>>(), vec![1]);
    assert!(compile(tokens("")).unwrap().locals.is_empty());
}

#[test]
fn every_recorded_depth_is_smaller_than_the_nesting() {
    let source = "{ var a; fun f(b) { { var c; class K { m(d) { { a; b; c; d; this; f; K; } } } } } }";
    let program = program(source);
    let mut depths: Vec<usize> = program.locals.values().copied().collect();
    depths.sort();
    // Around the references: the outer block, the function, its inner block,
    // the class, the method and the method's block.
    assert_eq!(depths, vec![1, 2, 3, 3, 4, 5, 5]);
    assert!(depths.iter().all(|d| *d < 6));
}

#[test]
fn a_syntax_error_comes_before_an_error_of_scoping() {
    match compile(tokens("return 1; var;")) {
        Err(CompileError::Parse(e)) => assert_eq!(e.kind, ParseErrorKind::ExpectVariableName),
        other => panic!("{:?}", other),
    }
    match compile(tokens("return 1; var a;")) {
        Err(CompileError::Resolve(e)) => {
            assert_eq!(e.kind, ResolveErrorKind::TopLevelReturn);
            assert_eq!(e.token.line, 1);
        }
        other => panic!("{:?}", other),
    }
}

#[test]
fn resolved_reads_find_their_frames_in_deep_nests() {
    let source = "var out = \"\"; \
        fun a(x) { fun b(y) { fun c(z) { { { return x + y + z; } } } return c; } return b; } \
        println(a(\"1\")(\"2\")(\"3\")); \
        class C { init(v) { this.v = v; } m() { fun inner() { return this.v; } return inner; } } \
        println(C(\"deep\").m()());";
    assert_eq!(run(&program(source)).unwrap(), "123\ndeep\n");
}

#[test]
fn a_loaded_machine_is_not_done() {
    let program = program("println(1);");
    let mut interpreter = Interpreter::load(&program);
    assert!(!interpreter.is_done());
    assert_eq!(interpreter.environments(), 1);
    assert!(matches!(interpreter.run(Event::Resume, 1_000), Action::Write { .. }));
    assert!(matches!(interpreter.run(Event::Resume, 1_000), Action::Done));
    assert!(interpreter.is_done());
}

#[test]
fn runtime_errors_are_reported_with_their_line() {
    let program = program("var a = 1;\nvar b = a + nil;");
    assert_eq!(
        run(&program).unwrap_err(),
        "Runtime Error: operands must be two numbers. - [Line: 2]"
    );
}

#[test]
fn scanned_names_are_never_spelled_this() {
    let scanned = tokens("this thisx _this This");
    let kinds: Vec<TokenType> = scanned.iter().map(|t| t.token_type).collect();
    assert_eq!(
        kinds,
        vec![TokenType::THIS, TokenType::IDENTIFIER, TokenType::IDENTIFIER, TokenType::IDENTIFIER, TokenType::EOF]
    );
    assert_eq!(scanned[0].lexeme.as_deref(), Some("this"));
    assert!(scanned[1..4].iter().all(|t| t.lexeme.as_deref() != Some("this")));
}

#[test]
fn a_resolved_read_of_a_scanned_program_finds_its_binding() {
    let source = "{ var a = \"outer\"; { fun f() { return a; } var a = \"inner\"; println(f(), a); } }";
    assert_eq!(run(&program(source)).unwrap(), "outer inner\n");
    let source = "class K { m() { var that = this; return that; } } println(K().m());";
    assert_eq!(run(&program(source)).unwrap(), "K instance\n");
}

#[test]
fn a_variable_spelled_this_by_hand_is_read_before_it_is_bound() {
    let mut handmade = tokens("class K { m() { var that = this; return that; } } K().m();");
    for token in handmade.iter_mut() {
        if token.lexeme.as_deref() == Some("that") {
            token.lexeme = Some("this".to_owned());
        }
    }
    let program = compile(handmade).unwrap();
    // The initializer and the `return` both read the name in the innermost scope.
    assert_eq!(program.locals.values().copied().collect::<Vec<_>>(), vec![0, 0]);
    assert!(run(&program).unwrap_err().contains("Undeclared variable this"));
}
