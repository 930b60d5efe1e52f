use rlox::interpreter::Interpreter;
use rlox::machine::{Action, Event, Piece};
use rlox::operators::ArithOp;
use rlox::parser::{ParseErrorKind, Parser};
use rlox::resolver::{ResolveErrorKind, Resolver};
use rlox::scanner::{ScanErrorKind, Scanner, TokenType};
use rlox::statements::Stmt;
use rlox::types::Object;

#[derive(Debug, PartialEq)]
enum Failure {
    Scan(Vec<ScanErrorKind>),
    Parse(ParseErrorKind, u64),
    Resolve(ResolveErrorKind, u64),
    Runtime(String, u64),
}

struct Run {
    output: String,
    failure: Option<Failure>,
    steps: u64,
}

fn parse(source: &str) -> Result<Vec<Stmt>, Failure> {
    let mut scanner = Scanner::new(source.chars().collect());
    let mut tokens = match scanner.scan_tokens() {
        Some(tokens) => tokens,
        None => return Err(Failure::Scan(scanner.errors().iter().map(|e| e.kind).collect())),
    };
    for token in tokens.iter_mut() {
        if token.token_type == TokenType::NUMBER {
            let text = token.lexeme.clone().unwrap();
            token.literal = Object::Num(text.parse::<f64>().unwrap().to_bits());
        }
    }
    Parser::new(tokens).parse().map_err(|e| Failure::Parse(e.kind, e.token.line))
}

fn show(pieces: &[Piece]) -> String {
    let mut text = String::new();
    for piece in pieces {
        match piece {
            Piece::Text(t) => text.push_str(t),
            Piece::Number(bits) => text.push_str(&format!("{}", f64::from_bits(*bits))),
        }
    }
    text
}

fn run_with_input(source: &str, input: &[&str]) -> Run {
    let mut run = Run { output: String::new(), failure: None, steps: 0 };
    let stmts = match parse(source) {
        Ok(stmts) => stmts,
        Err(failure) => {
            run.failure = Some(failure);
            return run;
        }
    };
    let mut resolver = Resolver::new(Vec::new());
    if let Err(e) = resolver.resolve_stmts(&stmts) {
        run.failure = Some(Failure::Resolve(e.kind, e.token.line));
        return run;
    }
    let mut interpreter = Interpreter::new();
    interpreter.resolve_all(resolver.locals());
    interpreter.interpret(&stmts);
    let mut lines = input.iter();
    let mut event = Event::Resume;
    loop {
        run.steps += 1;
        assert!(run.steps < 10_000_000, "the program does not end");
        event = match interpreter.step(event) {
            Action::Continue => Event::Resume,
            Action::Arithmetic { op, left, right } => {
                let (l, r) = (f64::from_bits(left), f64::from_bits(right));
                let result = match op {
                    ArithOp::Add => l + r,
                    ArithOp::Sub => l - r,
                    ArithOp::Mul => l * r,
                    ArithOp::Div => l / r,
                };
                Event::Number(result.to_bits())
            }
            Action::Write { pieces, newline } => {
                run.output.push_str(&show(&pieces));
                if newline {
                    run.output.push('\n');
                }
                Event::Resume
            }
            Action::ReadLine => match lines.next() {
                Some(line) => Event::Line(format!("{}\n", line)),
                None => Event::Line(String::new()),
            },
            Action::Done => return run,
            Action::Error(e) => {
                run.failure = Some(Failure::Runtime(e.message, e.token.line));
                return run;
            }
        };
    }
}

fn run(source: &str) -> Run {
    run_with_input(source, &[])
}

fn output(source: &str) -> String {
    let run = run(source);
    assert_eq!(run.failure, None, "output so far: {:?}", run.output);
    run.output
}

fn failure(source: &str) -> Failure {
    run(source).failure.unwrap()
}

#[test]
fn block_shadows_and_restores() {
    assert_eq!(output("var a = 1; { var a = 2; println(a); } println(a);"), "2\n1\n");
}

#[test]
fn closure_counts() {
    let source = "fun make(){ var i=0; fun inc(){ i = i + 1; return i; } return inc; } \
                  var c = make(); println(c()); println(c()); println(c());";
    assert_eq!(output(source), "1\n2\n3\n");
}

#[test]
fn for_loop_counts() {
    assert_eq!(output("for (var i=0; i<3; i=i+1) println(i);"), "0\n1\n2\n");
}

#[test]
fn class_with_initializer_and_method() {
    let source = "class Greeter { init(name){ this.name = name; } \
                  hi(){ println(\"hi \" + this.name); } } Greeter(\"world\").hi();";
    assert_eq!(output(source), "hi world\n");
}

#[test]
fn late_global_binding() {
    assert_eq!(output("var x; fun f(){ println(x); } x = 10; f();"), "10\n");
}

#[test]
fn first_return_wins() {
    assert_eq!(output("fun bad(){ return 1; return 2; } println(bad());"), "1\n");
}

#[test]
fn arithmetic_and_precedence() {
    assert_eq!(output("println(1 + 2 * 3);"), "7\n");
    assert_eq!(output("println((1 + 2) * 3);"), "9\n");
    assert_eq!(output("println(10 - 4 - 3);"), "3\n");
    assert_eq!(output("println(8 / 2 / 2);"), "2\n");
    assert_eq!(output("println(-3 + 1);"), "-2\n");
    assert_eq!(output("println(0.1 + 0.2);"), "0.30000000000000004\n");
    assert_eq!(output("println(7 / 2);"), "3.5\n");
}

#[test]
fn division_by_zero_is_no_error() {
    assert_eq!(output("println(1 / 0);"), "inf\n");
    assert_eq!(output("println(-1 / 0);"), "-inf\n");
    assert_eq!(output("println(0 / 0);"), "NaN\n");
    assert_eq!(output("println(0 / 0 == 0 / 0);"), "false\n");
}

#[test]
fn comparison_follows_precedence() {
    assert_eq!(output("println(1 < 2 + 3);"), "true\n");
    assert_eq!(output("println(1 + 1 >= 2);"), "true\n");
    assert_eq!(output("println(2 > 3);"), "false\n");
    assert_eq!(output("println(3 <= 3);"), "true\n");
    assert_eq!(output("println(1 < 2 == true);"), "true\n");
    assert_eq!(output("println(1 != 2);"), "true\n");
    assert_eq!(output("println(-0 == 0);"), "true\n");
    assert_eq!(output("println(-1 < 0);"), "true\n");
    assert_eq!(output("println(-1 < -2);"), "false\n");
}

#[test]
fn strings_join() {
    assert_eq!(output("println(\"a\" + \"b\" + \"c\");"), "abc\n");
    assert_eq!(output("println(\"\" + \"\");"), "\n");
}

#[test]
fn equality_never_fails() {
    assert_eq!(output("println(1 == \"1\");"), "false\n");
    assert_eq!(output("println(nil == false);"), "false\n");
    assert_eq!(output("println(nil == nil);"), "true\n");
    assert_eq!(output("println(\"a\" == \"a\");"), "true\n");
    assert_eq!(output("println(\"a\" != \"b\");"), "true\n");
    assert_eq!(output("println(println == println);"), "true\n");
    assert_eq!(output("println(println == print);"), "false\n");
    assert_eq!(output("fun f(){} var g = f; println(f == g);"), "true\n");
    assert_eq!(output("fun f(){} fun g(){} println(f == g);"), "false\n");
    assert_eq!(output("class A{} println(A == A);"), "true\n");
    assert_eq!(output("class A{} var a = A(); var b = a; println(a == b);"), "true\n");
    assert_eq!(output("class A{} println(A() == A());"), "false\n");
}

#[test]
fn truthiness() {
    assert_eq!(output("if (0) println(\"yes\"); else println(\"no\");"), "yes\n");
    assert_eq!(output("if (\"\") println(\"yes\"); else println(\"no\");"), "yes\n");
    assert_eq!(output("if (nil) println(\"yes\"); else println(\"no\");"), "no\n");
    assert_eq!(output("if (false) println(\"yes\"); else println(\"no\");"), "no\n");
    assert_eq!(output("println(!nil); println(!0); println(!!\"\");"), "true\nfalse\ntrue\n");
}

#[test]
fn logical_operators_short_circuit() {
    let source = "fun t(){ println(\"t\"); return true; } fun f(){ println(\"f\"); return false; } \
                  println(t() or f()); println(f() or t()); println(f() and t()); println(t() and f());";
    assert_eq!(output(source), "t\ntrue\nf\nt\ntrue\nf\nfalse\nt\nf\nfalse\n");
    assert_eq!(output("println(nil or \"x\"); println(1 and 2); println(nil and 2); println(1 or 2);"),
        "x\n2\nnil\n1\n");
}

#[test]
fn while_loop_runs() {
    assert_eq!(output("var i = 0; while (i < 3) { println(i); i = i + 1; }"), "0\n1\n2\n");
    assert_eq!(output("var i = 0; while (false) { println(i); } println(\"done\");"), "done\n");
}

#[test]
fn for_loop_forms() {
    assert_eq!(output("var i = 0; for (; i < 2; i = i + 1) println(i);"), "0\n1\n");
    assert_eq!(output("for (var i = 0; i < 2;) { println(i); i = i + 1; }"), "0\n1\n");
    assert_eq!(
        output("fun f(){ for (;;) { return \"out\"; } } println(f());"),
        "out\n"
    );
    assert_eq!(output("var i; for (i = 5; i > 3; i = i - 1) println(i); println(i);"), "5\n4\n3\n");
}

#[test]
fn return_unwinds_nested_frames() {
    let source = "var a = \"outer\"; \
                  fun f(){ var a = 1; while (true) { { if (a == 1) { { return a + 1; } } } println(\"no\"); } println(\"no\"); } \
                  println(f()); println(a);";
    assert_eq!(output(source), "2\nouter\n");
}

#[test]
fn function_without_return_yields_nil() {
    assert_eq!(output("fun f(){} println(f());"), "nil\n");
    assert_eq!(output("fun f(){ return; } println(f());"), "nil\n");
}

#[test]
fn recursion() {
    let source = "fun fib(n){ if (n < 2) return n; return fib(n - 1) + fib(n - 2); } println(fib(15));";
    assert_eq!(output(source), "610\n");
}

#[test]
fn deep_recursion_needs_no_host_stack() {
    let source = "fun down(n){ if (n == 0) return 0; return down(n - 1); } println(down(20000));";
    assert_eq!(output(source), "0\n");
}

#[test]
fn arguments_are_evaluated_left_to_right() {
    let source = "fun show(x){ println(x); return x; } fun add(a, b, c){ return a + b + c; } \
                  println(add(show(1), show(2), show(3)));";
    assert_eq!(output(source), "1\n2\n3\n6\n");
}

#[test]
fn closures_capture_their_declaration_environment() {
    let source = "var x = \"global\"; fun outer(){ var x = \"local\"; fun inner(){ println(x); } return inner; } \
                  var f = outer(); { var x = \"block\"; f(); }";
    assert_eq!(output(source), "local\n");
    let source = "var a = \"global\"; { fun show(){ println(a); } show(); var a = \"block\"; show(); }";
    assert_eq!(output(source), "global\nglobal\n");
}

#[test]
fn closure_sees_later_assignment() {
    let source = "fun make(){ var v = 1; fun get(){ return v; } v = 2; return get; } println(make()());";
    assert_eq!(output(source), "2\n");
}

#[test]
fn two_closures_share_one_environment() {
    let source = "var get; var set; fun make(){ var v = 0; fun g(){ return v; } fun s(x){ v = x; } get = g; set = s; } \
                  make(); set(42); println(get());";
    assert_eq!(output(source), "42\n");
}

#[test]
fn globals_may_be_redeclared_and_assigned_without_var() {
    assert_eq!(output("var a = 1; var a = 2; println(a);"), "2\n");
    assert_eq!(output("b = 3; println(b);"), "3\n");
}

#[test]
fn display_of_values() {
    assert_eq!(output("println(1); println(1.5); println(\"s\"); println(true); println(nil);"),
        "1\n1.5\ns\ntrue\nnil\n");
    assert_eq!(output("fun f(){} println(f);"), "<fn f>\n");
    assert_eq!(output("class A{} println(A); println(A());"), "A\nA instance\n");
    assert_eq!(output("println(println);"), "<native fn>\n");
    assert_eq!(output("class A{ m(){} } println(A().m);"), "<fn m>\n");
}

#[test]
fn print_joins_with_spaces() {
    assert_eq!(output("print(1, \"a\", nil); print(2); println(); println(3, 4);"), "1 a nil2\n3 4\n");
    assert_eq!(output("print();"), "");
    assert_eq!(output("println(print(1));"), "1nil\n");
}

#[test]
fn fields_and_methods() {
    let source = "class P { init(x){ this.x = x; } get(){ return this.x; } set(v){ this.x = v; return this; } } \
                  var p = P(1); println(p.get()); println(p.set(5).get()); p.y = \"new\"; println(p.y); println(p.x);";
    assert_eq!(output(source), "1\n5\nnew\n5\n");
}

#[test]
fn field_shadows_method() {
    let source = "class A { m(){ return \"method\"; } } var a = A(); println(a.m()); \
                  fun f(){ return \"field\"; } a.m = f; println(a.m());";
    assert_eq!(output(source), "method\nfield\n");
}

#[test]
fn bound_method_remembers_its_instance() {
    let source = "class A { init(n){ this.n = n; } name(){ return this.n; } } \
                  var m = A(\"first\").name; var other = A(\"second\"); println(m());";
    assert_eq!(output(source), "first\n");
}

#[test]
fn instances_are_shared() {
    let source = "class A {} var a = A(); var b = a; b.v = 7; println(a.v);";
    assert_eq!(output(source), "7\n");
}

#[test]
fn methods_may_name_their_class() {
    let source = "class A { make(){ return A(); } } println(A().make());";
    assert_eq!(output(source), "A instance\n");
}

#[test]
fn initializer_yields_the_instance() {
    assert_eq!(output("class A { init(){ return; } } println(A());"), "A instance\n");
    assert_eq!(output("class A { init(){ this.v = 1; } } var a = A(); println(a.init());"), "A instance\n");
    assert_eq!(output("class A { init(){ this.v = 1; return; this.v = 2; } } println(A().v);"), "1\n");
    assert_eq!(
        failure("class A { init(){ return 1; } }"),
        Failure::Resolve(ResolveErrorKind::InitializerReturn, 1)
    );
}

#[test]
fn set_yields_the_value() {
    assert_eq!(output("class A{} var a = A(); println(a.x = 3);"), "3\n");
    assert_eq!(output("var a; println(a = 4);"), "4\n");
    assert_eq!(output("var a; var b; a = b = 5; println(a + b);"), "10\n");
}

#[test]
fn input_reads_lines() {
    let run = run_with_input("var a = input(); var b = input(\"? \"); println(b + a);", &["x", "y"]);
    assert_eq!(run.failure, None);
    assert_eq!(run.output, "? yx\n");
    let run = run_with_input("println(input() == \"\");", &[]);
    assert_eq!(run.output, "true\n");
}

#[test]
fn comments_and_lines() {
    assert_eq!(output("// nothing\nprintln(1); // one\n// end"), "1\n");
    assert_eq!(failure("\n\nprintln(x);"), Failure::Runtime("Undefined variable.".to_string(), 3));
    assert_eq!(failure("var s = \"a\nb\";\nprintln(y);"), Failure::Runtime("Undefined variable.".to_string(), 3));
}

#[test]
fn runtime_errors() {
    let rt = |m: &str, l: u64| Failure::Runtime(m.to_string(), l);
    assert_eq!(failure("println(1 + \"a\");"), rt("operands must be two numbers.", 1));
    assert_eq!(failure("println(\"a\" + 1);"), rt("operands must be two strings.", 1));
    assert_eq!(failure("println(nil + 1);"), rt("operands must be two numbers or two strings.", 1));
    assert_eq!(failure("println(1 - \"a\");"), rt("operands must be two numbers.", 1));
    assert_eq!(failure("println(\"a\" * 2);"), rt("operands must be two numbers.", 1));
    assert_eq!(failure("println(1 / nil);"), rt("operands must be two numbers.", 1));
    assert_eq!(failure("println(1 < \"a\");"), rt("operands must be two numbers.", 1));
    assert_eq!(failure("println(\"a\" >= \"b\");"), rt("operands must be two numbers.", 1));
    assert_eq!(failure("println(-\"a\");"), rt("operands must be numbers.", 1));
    assert_eq!(failure("println(x);"), rt("Undefined variable.", 1));
    assert_eq!(failure("\"text\"();"), rt("Can only call functions and classes.", 1));
    assert_eq!(failure("nil();"), rt("Can only call functions and classes.", 1));
    assert_eq!(failure("fun f(a){} f();"), rt("Expected 1 arguments but got 0.", 1));
    assert_eq!(failure("fun f(a){} f(1, 2);"), rt("Expected 1 arguments but got 2.", 1));
    assert_eq!(failure("class A{} A(1);"), rt("Expected 0 arguments but got 1.", 1));
    assert_eq!(failure("class A{ init(a, b){} } A();"), rt("Expected 2 arguments but got 0.", 1));
    assert_eq!(
        failure("fun f(a, b, c, d, e, f, g, h, i, j, k, l){} f(1);"),
        rt("Expected 12 arguments but got 1.", 1)
    );
    assert_eq!(failure("class A{} A().x;"), rt("Undefined property x", 1));
    assert_eq!(failure("var a = 1; a.x;"), rt("Only instances have properties.", 1));
    assert_eq!(failure("var a = 1; a.x = 2;"), rt("Only instances have properties.", 1));
    assert_eq!(failure("input(1, 2);"), rt("expect 0 or 1 arguments, got 2", 1));
    assert_eq!(failure("input(1);"), rt("the prompt must be a string", 1));
}

#[test]
fn runtime_error_stops_the_program() {
    let run = run("println(1); println(nil + 1); println(2);");
    assert_eq!(run.output, "1\n");
    assert_eq!(
        run.failure,
        Some(Failure::Runtime("operands must be two numbers or two strings.".to_string(), 1))
    );
}

#[test]
fn set_on_non_instance_fails_before_the_value_is_evaluated() {
    let run = run("var a = 1; a.x = println(\"value\");");
    assert_eq!(run.output, "");
    assert_eq!(run.failure, Some(Failure::Runtime("Only instances have properties.".to_string(), 1)));
}

#[test]
fn resolve_errors() {
    assert_eq!(failure("{ var a = a; }"), Failure::Resolve(ResolveErrorKind::OwnInitializer, 1));
    assert_eq!(failure("{ var a = 1;\n var a = 2; }"), Failure::Resolve(ResolveErrorKind::Redeclared, 2));
    assert_eq!(failure("fun f(a, a){}"), Failure::Resolve(ResolveErrorKind::Redeclared, 1));
    assert_eq!(failure("return 1;"), Failure::Resolve(ResolveErrorKind::TopLevelReturn, 1));
    assert_eq!(failure("println(this);"), Failure::Resolve(ResolveErrorKind::ThisOutsideClass, 1));
    assert_eq!(failure("fun f(){ return this; }"), Failure::Resolve(ResolveErrorKind::ThisOutsideClass, 1));
    assert_eq!(output("var a = 1; var a = a + 1; println(a);"), "2\n");
}

#[test]
fn parse_errors() {
    let p = |k: ParseErrorKind, l: u64| Failure::Parse(k, l);
    assert_eq!(failure("var 1;"), p(ParseErrorKind::ExpectVariableName, 1));
    assert_eq!(failure("var a = 1"), p(ParseErrorKind::ExpectSemicolonAfterValue, 1));
    assert_eq!(failure("println(1)"), p(ParseErrorKind::ExpectSemicolonAfterValue, 1));
    assert_eq!(failure("fun f(){ return 1 }"), p(ParseErrorKind::ExpectSemicolonAfterReturn, 1));
    assert_eq!(failure("fun (){}"), p(ParseErrorKind::ExpectFunctionName, 1));
    assert_eq!(failure("fun f{}"), p(ParseErrorKind::ExpectParenAfterFunctionName, 1));
    assert_eq!(failure("fun f(1){}"), p(ParseErrorKind::ExpectParameterName, 1));
    assert_eq!(failure("fun f(a,){}"), p(ParseErrorKind::ExpectParameterName, 1));
    assert_eq!(failure("fun f(a b){}"), p(ParseErrorKind::ExpectParenAfterParameters, 1));
    assert_eq!(failure("fun f() 1;"), p(ParseErrorKind::ExpectBraceBeforeBody, 1));
    assert_eq!(failure("class {}"), p(ParseErrorKind::ExpectClassName, 1));
    assert_eq!(failure("class A"), p(ParseErrorKind::ExpectBraceBeforeClassBody, 1));
    assert_eq!(failure("class A { m(){} "), p(ParseErrorKind::ExpectBraceAfterClassBody, 1));
    assert_eq!(failure("for i;"), p(ParseErrorKind::ExpectParenAfterFor, 1));
    assert_eq!(failure("for (;1 1;) {}"), p(ParseErrorKind::ExpectSemicolonAfterLoopCondition, 1));
    assert_eq!(failure("for (;;1 1) {}"), p(ParseErrorKind::ExpectParenAfterForClauses, 1));
    assert_eq!(failure("while 1 {}"), p(ParseErrorKind::ExpectParenAfterWhile, 1));
    assert_eq!(failure("if 1 {}"), p(ParseErrorKind::ExpectParenAfterIf, 1));
    assert_eq!(failure("if (1 {}"), p(ParseErrorKind::ExpectParenAfterCondition, 1));
    assert_eq!(failure("while (1 {}"), p(ParseErrorKind::ExpectParenAfterCondition, 1));
    assert_eq!(failure("{ println(1);"), p(ParseErrorKind::ExpectBraceAfterBlock, 1));
    assert_eq!(failure("println(;"), p(ParseErrorKind::ExpectExpression, 1));
    assert_eq!(failure("\n+;"), p(ParseErrorKind::ExpectExpression, 2));
    assert_eq!(failure("super.x;"), p(ParseErrorKind::ExpectExpression, 1));
    assert_eq!(failure("(1;"), p(ParseErrorKind::ExpectParenAfterExpression, 1));
    assert_eq!(failure("f(1;"), p(ParseErrorKind::ExpectParenAfterArguments, 1));
    assert_eq!(failure("a.1;"), p(ParseErrorKind::ExpectPropertyName, 1));
    assert_eq!(failure("1 = 2;"), p(ParseErrorKind::InvalidAssignmentTarget, 1));
    assert_eq!(failure("a + b = 2;"), p(ParseErrorKind::InvalidAssignmentTarget, 1));
}

#[test]
fn scan_errors() {
    assert_eq!(failure("var a = @;"), Failure::Scan(vec![ScanErrorKind::UnexpectedCharacter]));
    assert_eq!(failure("\"open"), Failure::Scan(vec![ScanErrorKind::UnterminatedString]));
    assert_eq!(
        failure("# $ \"x"),
        Failure::Scan(vec![
            ScanErrorKind::UnexpectedCharacter,
            ScanErrorKind::UnexpectedCharacter,
            ScanErrorKind::UnterminatedString
        ])
    );
}

#[test]
fn top_level_return_inside_a_function_only() {
    assert_eq!(output("fun f(){ { return 1; } } println(f()); println(2);"), "1\n2\n");
}

#[test]
fn empty_program_ends_at_once() {
    let run = run("");
    assert_eq!(run.output, "");
    assert_eq!(run.failure, None);
    assert!(run.steps <= 3);
}
