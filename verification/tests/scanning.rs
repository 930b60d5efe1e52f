use rlox::scanner::TokenType::{
    AND, BANG, BANGEQUAL, CLASS, COMMA, DOT, ELSE, EOF, EQUAL, EQUALEQUAL, FALSE, FOR, FUN, GREATER,
    GREATEREQUAL, IDENTIFIER, IF, LEFTBRACE, LEFTPAREN, LESS, LESSEQUAL, MINUS, NIL, NUMBER, OR, PLUS,
    RETURN, RIGHTBRACE, RIGHTPAREN, SEMICOLON, SLASH, STAR, STRING, SUPER, THIS, TRUE, VAR, WHILE,
};
use rlox::scanner::{spell, ScanError, ScanErrorKind, Scanner, Token, TokenType};
use rlox::text::{push_decimal, report_static};
use rlox::types::Object;

fn scan(source: &str) -> Vec<Token> {
    Scanner::new(source.chars().collect()).scan_tokens().unwrap()
}

fn kinds(source: &str) -> Vec<TokenType> {
    scan(source).iter().map(|t| t.token_type).collect()
}

fn errors(source: &str) -> Vec<ScanError> {
    let mut scanner = Scanner::new(source.chars().collect());
    assert!(scanner.scan_tokens().is_none());
    scanner.errors().clone()
}

#[test]
fn empty_source_is_the_end_of_file() {
    let tokens = scan("");
    assert_eq!(tokens.len(), 1);
    assert_eq!(tokens[0].token_type, EOF);
    assert_eq!(tokens[0].line, 1);
    assert_eq!(tokens[0].lexeme, None);
    assert!(tokens[0].literal.equals(&Object::Nil));
}

#[test]
fn punctuation() {
    assert_eq!(
        kinds("(){},.-+;/*"),
        vec![LEFTPAREN, RIGHTPAREN, LEFTBRACE, RIGHTBRACE, COMMA, DOT, MINUS, PLUS, SEMICOLON, SLASH, STAR, EOF]
    );
    for token in scan("(){},.-+;/*") {
        assert_eq!(token.lexeme, None);
        assert_eq!(token.line, 1);
    }
}

#[test]
fn one_and_two_character_operators() {
    assert_eq!(
        kinds("! != = == > >= < <="),
        vec![BANG, BANGEQUAL, EQUAL, EQUALEQUAL, GREATER, GREATEREQUAL, LESS, LESSEQUAL, EOF]
    );
    assert_eq!(kinds("==="), vec![EQUALEQUAL, EQUAL, EOF]);
    assert_eq!(kinds("!=="), vec![BANGEQUAL, EQUAL, EOF]);
    assert_eq!(kinds("<=>"), vec![LESSEQUAL, GREATER, EOF]);
    assert_eq!(kinds("!"), vec![BANG, EOF]);
    assert_eq!(kinds("<"), vec![LESS, EOF]);
    assert_eq!(kinds("= ="), vec![EQUAL, EQUAL, EOF]);
}

#[test]
fn keywords() {
    assert_eq!(
        kinds("and class else false fun for if nil or return super this true var while"),
        vec![AND, CLASS, ELSE, FALSE, FUN, FOR, IF, NIL, OR, RETURN, SUPER, THIS, TRUE, VAR, WHILE, EOF]
    );
    for token in scan("and class else false fun for if nil or return super true var while") {
        assert_eq!(token.lexeme, None);
    }
    assert_eq!(scan("this")[0].lexeme.as_deref(), Some("this"));
}

#[test]
fn print_is_an_identifier() {
    let tokens = scan("print println input");
    assert_eq!(tokens.iter().map(|t| t.token_type).collect::<Vec<_>>(), vec![IDENTIFIER, IDENTIFIER, IDENTIFIER, EOF]);
    assert_eq!(tokens[0].lexeme.as_deref(), Some("print"));
    assert_eq!(tokens[1].lexeme.as_deref(), Some("println"));
    assert_eq!(tokens[2].lexeme.as_deref(), Some("input"));
}

#[test]
fn identifiers() {
    let tokens = scan("a _b c1 And classy or_ _ x_y_9Z");
    let names: Vec<_> = tokens.iter().filter_map(|t| t.lexeme.clone()).collect();
    assert_eq!(names, vec!["a", "_b", "c1", "And", "classy", "or_", "_", "x_y_9Z"]);
    for token in &tokens[..8] {
        assert_eq!(token.token_type, IDENTIFIER);
        assert!(token.literal.equals(&Object::Nil));
    }
    assert_eq!(kinds("a.b"), vec![IDENTIFIER, DOT, IDENTIFIER, EOF]);
    assert_eq!(kinds("a-b"), vec![IDENTIFIER, MINUS, IDENTIFIER, EOF]);
}

#[test]
fn numbers_keep_their_text() {
    let tokens = scan("0 12 3.25 7. 1.2.3 9a");
    let texts: Vec<_> = tokens.iter().filter(|t| t.token_type == NUMBER).map(|t| t.lexeme.clone().unwrap()).collect();
    assert_eq!(texts, vec!["0", "12", "3.25", "7.", "1.2.3", "9"]);
    for token in tokens.iter().filter(|t| t.token_type == NUMBER) {
        assert!(token.literal.equals(&Object::Nil));
    }
    assert_eq!(kinds("9a"), vec![NUMBER, IDENTIFIER, EOF]);
    assert_eq!(kinds(".5"), vec![DOT, NUMBER, EOF]);
    assert_eq!(kinds("-5"), vec![MINUS, NUMBER, EOF]);
}

#[test]
fn strings() {
    let tokens = scan("\"hello world\" \"\" \"a+b\"");
    assert_eq!(tokens.iter().map(|t| t.token_type).collect::<Vec<_>>(), vec![STRING, STRING, STRING, EOF]);
    assert_eq!(tokens[0].lexeme.as_deref(), Some("hello world"));
    assert!(tokens[0].literal.equals(&Object::Str("hello world".to_string())));
    assert_eq!(tokens[1].lexeme.as_deref(), Some(""));
    assert!(tokens[1].literal.equals(&Object::Str(String::new())));
    assert_eq!(tokens[2].lexeme.as_deref(), Some("a+b"));
    let tokens = scan("\"// no comment\"");
    assert_eq!(tokens[0].lexeme.as_deref(), Some("// no comment"));
}

#[test]
fn strings_may_span_lines() {
    let tokens = scan("\"one\ntwo\n\" x");
    assert_eq!(tokens[0].token_type, STRING);
    assert_eq!(tokens[0].lexeme.as_deref(), Some("onetwo"));
    assert_eq!(tokens[0].line, 3);
    assert_eq!(tokens[1].line, 3);
}

#[test]
fn lines_are_counted() {
    let tokens = scan("a\nb\n\n c // x\nd\r\ne");
    let lines: Vec<_> = tokens.iter().map(|t| t.line).collect();
    assert_eq!(lines, vec![1, 2, 4, 5, 6, 6]);
    assert_eq!(scan("\n\n")[0].line, 3);
    assert_eq!(scan("// only a comment")[0].line, 1);
    assert_eq!(scan("// a comment\n")[0].line, 2);
}

#[test]
fn comments_and_blanks_make_no_token() {
    assert_eq!(kinds(" \t\r\n"), vec![EOF]);
    assert_eq!(kinds("// a / b\n/"), vec![SLASH, EOF]);
    assert_eq!(kinds("a // b\nc"), vec![IDENTIFIER, IDENTIFIER, EOF]);
    assert_eq!(kinds("/ /"), vec![SLASH, SLASH, EOF]);
    assert_eq!(kinds("//"), vec![EOF]);
    assert_eq!(kinds("r"), vec![IDENTIFIER, EOF]);
}

#[test]
fn unexpected_characters_are_all_reported() {
    assert_eq!(
        errors("a @ b\n# c"),
        vec![
            ScanError { kind: ScanErrorKind::UnexpectedCharacter, line: 1, at: '@' },
            ScanError { kind: ScanErrorKind::UnexpectedCharacter, line: 2, at: '#' },
        ]
    );
    assert_eq!(errors("é"), vec![ScanError { kind: ScanErrorKind::UnexpectedCharacter, line: 1, at: 'é' }]);
}

#[test]
fn unterminated_string_is_reported_where_it_ends() {
    assert_eq!(
        errors("x \"abc\ndef"),
        vec![ScanError { kind: ScanErrorKind::UnterminatedString, line: 2, at: '"' }]
    );
    assert_eq!(errors("\""), vec![ScanError { kind: ScanErrorKind::UnterminatedString, line: 1, at: '"' }]);
}

#[test]
fn scanner_goes_on_after_an_error() {
    let mut scanner = Scanner::new("a @".chars().collect());
    assert!(scanner.scan_tokens().is_none());
    assert_eq!(scanner.errors().len(), 1);
    scanner.error(9, ScanErrorKind::UnterminatedString, '"');
    assert_eq!(scanner.errors().len(), 2);
    assert_eq!(scanner.errors()[1], ScanError { kind: ScanErrorKind::UnterminatedString, line: 9, at: '"' });
}

#[test]
fn token_new_keeps_its_parts() {
    let token = Token::new(STRING, 7, Some("s".to_string()), Object::Str("s".to_string()));
    assert_eq!(token.token_type, STRING);
    assert_eq!(token.line, 7);
    assert_eq!(token.lexeme.as_deref(), Some("s"));
    assert!(token.literal.equals(&Object::Str("s".to_string())));
    let copy = token.clone();
    assert_eq!(copy.line, 7);
    assert_eq!(copy.lexeme.as_deref(), Some("s"));
    assert_eq!(copy.name_string(), "s");
    assert_eq!(Token::new(EOF, 1, None, Object::Nil).name_string(), "");
}

#[test]
fn error_messages_and_reports() {
    let unexpected = ScanError { kind: ScanErrorKind::UnexpectedCharacter, line: 12, at: '@' };
    assert_eq!(unexpected.message(), "Unexpected character.");
    assert_eq!(unexpected.report(), "[Line: 12] at '@' Unexpected character.");
    let open = ScanError { kind: ScanErrorKind::UnterminatedString, line: 3, at: '"' };
    assert_eq!(open.message(), "Unterminated string.");
    assert_eq!(open.report(), "[Line: 3] at '\"' Unterminated string.");
}

#[test]
fn tokens_are_reported_by_their_text() {
    let name = Token::new(IDENTIFIER, 4, Some("count".to_string()), Object::Nil);
    assert_eq!(name.report("Expect ';' after value."), "[Line: 4] at 'count' Expect ';' after value.");
    let brace = Token::new(RIGHTBRACE, 10, None, Object::Nil);
    assert_eq!(brace.report("Expect expression"), "[Line: 10] at '}' Expect expression");
    let end = Token::new(EOF, 2, None, Object::Nil);
    assert_eq!(end.report("Expect expression"), "[Line: 2] at end Expect expression");
    assert_eq!(spell(BANGEQUAL), "!=");
    assert_eq!(spell(WHILE), "while");
    assert_eq!(spell(IDENTIFIER), "");
}

#[test]
fn decimal_digits() {
    let decimal = |n: u64| {
        let mut text = String::from("n=");
        push_decimal(&mut text, n);
        text
    };
    assert_eq!(decimal(0), "n=0");
    assert_eq!(decimal(7), "n=7");
    assert_eq!(decimal(10), "n=10");
    assert_eq!(decimal(1234567890), "n=1234567890");
    assert_eq!(decimal(u64::MAX), "n=18446744073709551615");
    assert_eq!(report_static(100, Some("x"), "m"), "[Line: 100] at 'x' m");
    assert_eq!(report_static(0, None, "m"), "[Line: 0] at end m");
}
