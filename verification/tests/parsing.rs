use rlox::expressions::Expr;
use rlox::parser::{ParseError, ParseErrorKind, Parser};
use rlox::scanner::{Scanner, Token, TokenType};
use rlox::statements::{Func, Stmt};
use rlox::types::Object;

fn tokens(source: &str) -> Vec<Token> {
    let mut tokens = Scanner::new(source.chars().collect()).scan_tokens().unwrap();
    for token in tokens.iter_mut() {
        if token.token_type == TokenType::NUMBER {
            let text = token.lexeme.clone().unwrap();
            token.literal = Object::Num(text.parse::<f64>().unwrap().to_bits());
        }
    }
    tokens
}

fn parse(source: &str) -> Vec<Stmt> {
    Parser::new(tokens(source)).parse().unwrap()
}

fn parse_error(source: &str) -> ParseError {
    Parser::new(tokens(source)).parse().unwrap_err()
}

fn expression(source: &str) -> Expr {
    let mut stmts = parse(source);
    assert_eq!(stmts.len(), 1);
    match stmts.remove(0) {
        Stmt::ExprStmt(e) => e,
        other => panic!("no expression statement: {:?}", other),
    }
}

/// The expression in a compact form, with identities where asked.
fn shape(e: &Expr) -> String {
    match e {
        Expr::Literal(l) => match &l.value {
            Object::Num(bits) => format!("{}", f64::from_bits(*bits)),
            Object::Str(s) => format!("{:?}", s),
            Object::Bool(b) => format!("{}", b),
            Object::Nil => "nil".to_string(),
            other => format!("{:?}", other),
        },
        Expr::Binary(b) => format!("({} {} {})", shape(&b.left), rlox::scanner::spell(b.operator.token_type), shape(&b.right)),
        Expr::Logical(l) => format!("[{} {} {}]", shape(&l.left), rlox::scanner::spell(l.operator.token_type), shape(&l.right)),
        Expr::Unary(u) => format!("({} {})", rlox::scanner::spell(u.operator.token_type), shape(&u.right)),
        Expr::Grouping(g) => format!("(group {})", shape(&g.expr)),
        Expr::Var(v) => v.name.name_string(),
        Expr::Assign(a) => format!("({} := {})", a.name.name_string(), shape(&a.value)),
        Expr::Call(c) => format!(
            "{}({})",
            shape(&c.calle),
            c.arguments.iter().map(shape).collect::<Vec<_>>().join(", ")
        ),
        Expr::Get(g) => format!("{}.{}", shape(&g.expr), g.name.name_string()),
        Expr::SetExpr(s) => format!("({}.{} := {})", shape(&s.expr), s.name.name_string(), shape(&s.value)),
        Expr::This(_) => "this".to_string(),
    }
}

fn stmt_shape(s: &Stmt) -> String {
    match s {
        Stmt::ExprStmt(e) => format!("{};", shape(e)),
        Stmt::Var(v) => match &v.initializer {
            Some(e) => format!("var {} = {};", v.token.name_string(), shape(e)),
            None => format!("var {};", v.token.name_string()),
        },
        Stmt::Block(b) => format!("{{ {} }}", b.stmts.iter().map(stmt_shape).collect::<Vec<_>>().join(" ")),
        Stmt::If(i) => match &i.else_block {
            Some(e) => format!("if {} then {} else {}", shape(&i.condition), stmt_shape(&i.then_block), stmt_shape(e)),
            None => format!("if {} then {}", shape(&i.condition), stmt_shape(&i.then_block)),
        },
        Stmt::While(w) => format!("while {} do {}", shape(&w.condition), stmt_shape(&w.body)),
        Stmt::Func(f) => func_shape(f),
        Stmt::Class(c) => format!(
            "class {} {{ {} }}",
            c.name.name_string(),
            c.methods.iter().map(func_shape).collect::<Vec<_>>().join(" ")
        ),
        Stmt::Return(r) => match &r.value {
            Some(e) => format!("return {};", shape(e)),
            None => "return;".to_string(),
        },
    }
}

fn func_shape(f: &Func) -> String {
    format!(
        "fun {}({}) {{ {} }}",
        f.name.name_string(),
        f.params.iter().map(|p| p.name_string()).collect::<Vec<_>>().join(", "),
        f.body.iter().map(stmt_shape).collect::<Vec<_>>().join(" ")
    )
}

fn program_shape(source: &str) -> String {
    parse(source).iter().map(stmt_shape).collect::<Vec<_>>().join(" ")
}

fn ids(e: &Expr, found: &mut Vec<u64>) {
    found.push(e.get_id());
    match e {
        Expr::Literal(_) | Expr::Var(_) | Expr::This(_) => {}
        Expr::Binary(b) => {
            ids(&b.left, found);
            ids(&b.right, found);
        }
        Expr::Logical(l) => {
            ids(&l.left, found);
            ids(&l.right, found);
        }
        Expr::Unary(u) => ids(&u.right, found),
        Expr::Grouping(g) => ids(&g.expr, found),
        Expr::Assign(a) => ids(&a.value, found),
        Expr::Call(c) => {
            ids(&c.calle, found);
            for a in &c.arguments {
                ids(a, found);
            }
        }
        Expr::Get(g) => ids(&g.expr, found),
        Expr::SetExpr(s) => {
            ids(&s.expr, found);
            ids(&s.value, found);
        }
    }
}

fn stmt_ids(s: &Stmt, found: &mut Vec<u64>) {
    match s {
        Stmt::ExprStmt(e) => ids(e, found),
        Stmt::Var(v) => {
            if let Some(e) = &v.initializer {
                ids(e, found);
            }
        }
        Stmt::Block(b) => b.stmts.iter().for_each(|s| stmt_ids(s, found)),
        Stmt::If(i) => {
            ids(&i.condition, found);
            stmt_ids(&i.then_block, found);
            if let Some(e) = &i.else_block {
                stmt_ids(e, found);
            }
        }
        Stmt::While(w) => {
            ids(&w.condition, found);
            stmt_ids(&w.body, found);
        }
        Stmt::Func(f) => f.body.iter().for_each(|s| stmt_ids(s, found)),
        Stmt::Class(c) => c.methods.iter().for_each(|m| m.body.iter().for_each(|s| stmt_ids(s, found))),
        Stmt::Return(r) => {
            if let Some(e) = &r.value {
                ids(e, found);
            }
        }
    }
}

#[test]
fn precedence_and_associativity() {
    assert_eq!(shape(&expression("1 + 2 * 3;")), "(1 + (2 * 3))");
    assert_eq!(shape(&expression("1 * 2 + 3;")), "((1 * 2) + 3)");
    assert_eq!(shape(&expression("1 - 2 - 3;")), "((1 - 2) - 3)");
    assert_eq!(shape(&expression("8 / 4 / 2;")), "((8 / 4) / 2)");
    assert_eq!(shape(&expression("1 < 2 + 3;")), "(1 < (2 + 3))");
    assert_eq!(shape(&expression("1 + 2 < 3;")), "((1 + 2) < 3)");
    assert_eq!(shape(&expression("1 < 2 == 3 > 4;")), "((1 < 2) == (3 > 4))");
    assert_eq!(shape(&expression("1 == 2 != 3;")), "((1 == 2) != 3)");
    assert_eq!(shape(&expression("1 <= 2 >= 3;")), "((1 <= 2) >= 3)");
    assert_eq!(shape(&expression("a or b and c;")), "[a or [b and c]]");
    assert_eq!(shape(&expression("a and b or c;")), "[[a and b] or c]");
    assert_eq!(shape(&expression("a or b or c;")), "[[a or b] or c]");
    assert_eq!(shape(&expression("a == b and c < d;")), "[(a == b) and (c < d)]");
    assert_eq!(shape(&expression("!a == b;")), "((! a) == b)");
    assert_eq!(shape(&expression("- -a;")), "(- (- a))");
    assert_eq!(shape(&expression("!-a * b;")), "((! (- a)) * b)");
    assert_eq!(shape(&expression("-a.b;")), "(- a.b)");
    assert_eq!(shape(&expression("(1 + 2) * 3;")), "((group (1 + 2)) * 3)");
}

#[test]
fn assignment_is_right_associative() {
    assert_eq!(shape(&expression("a = b = c;")), "(a := (b := c))");
    assert_eq!(shape(&expression("a = b or c;")), "(a := [b or c])");
    assert_eq!(shape(&expression("a.b = c;")), "(a.b := c)");
    assert_eq!(shape(&expression("a.b.c = d = e;")), "(a.b.c := (d := e))");
    assert_eq!(shape(&expression("f().x = 1;")), "(f().x := 1)");
    assert_eq!(shape(&expression("this.x = 1;")), "(this.x := 1)");
}

#[test]
fn calls_and_properties_chain() {
    assert_eq!(shape(&expression("f();")), "f()");
    assert_eq!(shape(&expression("f(1, a + 2, g(3));")), "f(1, (a + 2), g(3))");
    assert_eq!(shape(&expression("f(1)(2).x.y(3);")), "f(1)(2).x.y(3)");
    assert_eq!(shape(&expression("a.b(c).d;")), "a.b(c).d");
    assert_eq!(shape(&expression("(a)(b);")), "(group a)(b)");
    assert_eq!(shape(&expression("this.name;")), "this.name");
}

#[test]
fn literals() {
    assert_eq!(shape(&expression("true;")), "true");
    assert_eq!(shape(&expression("false;")), "false");
    assert_eq!(shape(&expression("nil;")), "nil");
    assert_eq!(shape(&expression("12.5;")), "12.5");
    assert_eq!(shape(&expression("\"text\";")), "\"text\"");
}

#[test]
fn statements() {
    assert_eq!(program_shape("var a; var b = 1 + 2;"), "var a; var b = (1 + 2);");
    assert_eq!(program_shape("{ a; { b; } }"), "{ a; { b; } }");
    assert_eq!(program_shape("{}"), "{  }");
    assert_eq!(program_shape("if (a) b; else c;"), "if a then b; else c;");
    assert_eq!(program_shape("if (a) if (b) c; else d;"), "if a then if b then c; else d;");
    assert_eq!(program_shape("while (a) { b; }"), "while a do { b; }");
    assert_eq!(program_shape("fun f() {} fun g(a, b) { return a; return; }"), "fun f() {  } fun g(a, b) { return a; return; }");
    assert_eq!(
        program_shape("class A { init(x) { this.x = x; } get() { return this.x; } } class B {}"),
        "class A { fun init(x) { (this.x := x); } fun get() { return this.x; } } class B {  }"
    );
    assert_eq!(program_shape(""), "");
}

#[test]
fn for_is_a_block_around_a_while() {
    assert_eq!(
        program_shape("for (var i = 0; i < 3; i = i + 1) println(i);"),
        "{ var i = 0; while (i < 3) do { println(i); (i := (i + 1)); } }"
    );
    assert_eq!(program_shape("for (;;) a;"), "while true do a;");
    assert_eq!(program_shape("for (i = 0;;) a;"), "{ (i := 0); while true do a; }");
    assert_eq!(program_shape("for (; a < b;) c;"), "while (a < b) do c;");
    assert_eq!(program_shape("for (;; a = 1) { b; }"), "while true do { { b; } (a := 1); }");
}

#[test]
fn return_keeps_its_keyword() {
    let stmts = parse("fun f() {\n return 1;\n}");
    match &stmts[0] {
        Stmt::Func(f) => match &f.body[0] {
            Stmt::Return(r) => {
                assert_eq!(r.keyword.token_type, TokenType::RETURN);
                assert_eq!(r.keyword.line, 2);
            }
            other => panic!("no return: {:?}", other),
        },
        other => panic!("no function: {:?}", other),
    }
}

#[test]
fn every_expression_has_its_own_identity() {
    let sources = [
        "1;",
        "a = b + c * (d - 1);",
        "f(a, g(b)).x.y = !c or d and e;",
        "for (var i = 0; i < 3; i = i + 1) println(i);",
        "for (;;) {}",
        "class A { init(x) { this.x = x; } get() { return this.x + 1; } } var a = A(1); a.get();",
        "fun f(a) { if (a) { return f(a - 1); } else { while (a) a = a - 1; } }",
    ];
    for source in sources {
        let stmts = parse(source);
        let mut found = Vec::new();
        stmts.iter().for_each(|s| stmt_ids(s, &mut found));
        let count = found.len();
        found.sort();
        found.dedup();
        assert_eq!(found.len(), count, "{}", source);
    }
}

#[test]
fn identities_without_assignment_are_consecutive() {
    for source in ["1;", "f(a, g(b)).x.y;", "for (;;) {}", "!a or b and c == d + e * -f;"] {
        let stmts = parse(source);
        let mut found = Vec::new();
        stmts.iter().for_each(|s| stmt_ids(s, &mut found));
        let count = found.len() as u64;
        found.sort();
        assert_eq!(found, (0..count).collect::<Vec<_>>(), "{}", source);
    }
}

#[test]
fn identities_are_given_after_the_operands() {
    let e = expression("a + b;");
    let mut found = Vec::new();
    ids(&e, &mut found);
    assert_eq!(found, vec![2, 0, 1]);
    let e = expression("f(a)(b);");
    let mut found = Vec::new();
    ids(&e, &mut found);
    assert_eq!(found, vec![4, 2, 0, 1, 3]);
}

#[test]
fn a_list_of_tokens_without_an_end_is_parsed_to_its_end() {
    let mut tokens = tokens("a;");
    tokens.pop();
    let stmts = Parser::new(tokens).parse().unwrap();
    assert_eq!(stmts.len(), 1);
    assert!(Parser::new(Vec::new()).parse().unwrap().is_empty());
    let mut tokens = self::tokens("a +");
    tokens.pop();
    let error = Parser::new(tokens).parse().unwrap_err();
    assert_eq!(error.kind, ParseErrorKind::ExpectExpression);
    assert_eq!(error.token.token_type, TokenType::EOF);
}

#[test]
fn errors_name_the_token_found() {
    let error = parse_error("var a = 1\nvar b;");
    assert_eq!(error.kind, ParseErrorKind::ExpectSemicolonAfterValue);
    assert_eq!(error.token.token_type, TokenType::VAR);
    assert_eq!(error.token.line, 2);
    assert_eq!(error.message(), "Expect ';' after value.");
    assert_eq!(error.report(), "[Line: 2] at 'var' Expect ';' after value.");
    let error = parse_error("a = ;");
    assert_eq!(error.kind, ParseErrorKind::ExpectExpression);
    assert_eq!(error.report(), "[Line: 1] at ';' Expect expression");
    let error = parse_error("f(a");
    assert_eq!(error.kind, ParseErrorKind::ExpectParenAfterArguments);
    assert_eq!(error.report(), "[Line: 1] at end Expect ')' after arguments.");
    let error = parse_error("1 + 2 = 3;");
    assert_eq!(error.kind, ParseErrorKind::InvalidAssignmentTarget);
    assert_eq!(error.token.token_type, TokenType::EQUAL);
    let error = parse_error("var count count;");
    assert_eq!(error.report(), "[Line: 1] at 'count' Expect ';' after value.");
}

#[test]
fn the_first_error_ends_the_parse() {
    let error = parse_error("a = ; b = ; var 1;");
    assert_eq!(error.kind, ParseErrorKind::ExpectExpression);
    assert_eq!(error.token.token_type, TokenType::SEMICOLON);
}
