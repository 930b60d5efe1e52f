//! Tokens and the scanner that produces them from source text.

use vstd::prelude::*;
use vstd::string::*;
use crate::text::{report_static, static_report};
use crate::types::{Object, ObjectView};

verus! {

/// The kinds of token.
#[derive(Debug, Clone, Copy, PartialEq, Eq, Hash, Structural)]
pub enum TokenType {
    // Single-character tokens.
    LEFTPAREN,
    RIGHTPAREN,
    LEFTBRACE,
    RIGHTBRACE,
    COMMA,
    DOT,
    MINUS,
    PLUS,
    SEMICOLON,
    SLASH,
    STAR,
    // One or two character tokens.
    BANG,
    BANGEQUAL,
    EQUAL,
    EQUALEQUAL,
    GREATER,
    GREATEREQUAL,
    LESS,
    LESSEQUAL,
    // Literals.
    IDENTIFIER,
    STRING,
    NUMBER,
    // Keywords.
    AND,
    CLASS,
    ELSE,
    FALSE,
    FUN,
    FOR,
    IF,
    NIL,
    OR,
    PRINT,
    RETURN,
    SUPER,
    THIS,
    TRUE,
    VAR,
    WHILE,
    EOF,
}

/// What a token of the kind is written as in source text. The kinds whose
/// text varies are written as nothing.
pub open spec fn written(kind: TokenType) -> Seq<char> {
    match kind {
        TokenType::LEFTPAREN => "("@,
        TokenType::RIGHTPAREN => ")"@,
        TokenType::LEFTBRACE => "{"@,
        TokenType::RIGHTBRACE => "}"@,
        TokenType::COMMA => ","@,
        TokenType::DOT => "."@,
        TokenType::MINUS => "-"@,
        TokenType::PLUS => "+"@,
        TokenType::SEMICOLON => ";"@,
        TokenType::SLASH => "/"@,
        TokenType::STAR => "*"@,
        TokenType::BANG => "!"@,
        TokenType::BANGEQUAL => "!="@,
        TokenType::EQUAL => "="@,
        TokenType::EQUALEQUAL => "=="@,
        TokenType::GREATER => ">"@,
        TokenType::GREATEREQUAL => ">="@,
        TokenType::LESS => "<"@,
        TokenType::LESSEQUAL => "<="@,
        TokenType::AND => "and"@,
        TokenType::CLASS => "class"@,
        TokenType::ELSE => "else"@,
        TokenType::FALSE => "false"@,
        TokenType::FUN => "fun"@,
        TokenType::FOR => "for"@,
        TokenType::IF => "if"@,
        TokenType::NIL => "nil"@,
        TokenType::OR => "or"@,
        TokenType::PRINT => "print"@,
        TokenType::RETURN => "return"@,
        TokenType::SUPER => "super"@,
        TokenType::THIS => "this"@,
        TokenType::TRUE => "true"@,
        TokenType::VAR => "var"@,
        TokenType::WHILE => "while"@,
        _ => ""@,
    }
}

/// What a token of the kind is written as in source text.
pub fn spell(kind: TokenType) -> (r: &'static str)
    ensures
        r@ == written(kind),
{
    match kind {
        TokenType::LEFTPAREN => "(",
        TokenType::RIGHTPAREN => ")",
        TokenType::LEFTBRACE => "{",
        TokenType::RIGHTBRACE => "}",
        TokenType::COMMA => ",",
        TokenType::DOT => ".",
        TokenType::MINUS => "-",
        TokenType::PLUS => "+",
        TokenType::SEMICOLON => ";",
        TokenType::SLASH => "/",
        TokenType::STAR => "*",
        TokenType::BANG => "!",
        TokenType::BANGEQUAL => "!=",
        TokenType::EQUAL => "=",
        TokenType::EQUALEQUAL => "==",
        TokenType::GREATER => ">",
        TokenType::GREATEREQUAL => ">=",
        TokenType::LESS => "<",
        TokenType::LESSEQUAL => "<=",
        TokenType::AND => "and",
        TokenType::CLASS => "class",
        TokenType::ELSE => "else",
        TokenType::FALSE => "false",
        TokenType::FUN => "fun",
        TokenType::FOR => "for",
        TokenType::IF => "if",
        TokenType::NIL => "nil",
        TokenType::OR => "or",
        TokenType::PRINT => "print",
        TokenType::RETURN => "return",
        TokenType::SUPER => "super",
        TokenType::THIS => "this",
        TokenType::TRUE => "true",
        TokenType::VAR => "var",
        TokenType::WHILE => "while",
        _ => "",
    }
}

/// A token: its kind, the line it ends on, its text where the kind does not
/// fix it, and the value it carries if it is a literal.
#[derive(Debug)]
pub struct Token {
    pub token_type: TokenType,
    pub line: u64,
    pub lexeme: Option<String>,
    pub literal: Object,
}

/// A token with its texts as sequences of characters.
pub struct TokenView {
    pub token_type: TokenType,
    pub line: u64,
    pub lexeme: Option<Seq<char>>,
    pub literal: ObjectView,
}

impl View for Token {
    type V = TokenView;

    open spec fn view(&self) -> TokenView {
        TokenView {
            token_type: self.token_type,
            line: self.line,
            lexeme: match self.lexeme {
                Some(s) => Some(s@),
                None => None,
            },
            literal: self.literal@,
        }
    }
}

impl Clone for Token {
    fn clone(&self) -> (r: Self)
        ensures
            r == *self,
    {
        Token {
            token_type: self.token_type,
            line: self.line,
            lexeme: match &self.lexeme {
                Some(s) => Some(s.clone()),
                None => None,
            },
            literal: self.literal.clone(),
        }
    }
}

impl Token {
    /// A token of the given parts.
    pub fn new(token_type: TokenType, line: u64, lexeme: Option<String>, literal: Object) -> (r:
        Token)
        ensures
            r == (Token { token_type, line, lexeme, literal }),
    {
        Token { token_type, line, lexeme, literal }
    }

    /// The name that the token spells: its text, or the empty name if it has none.
    pub open spec fn name(&self) -> Seq<char> {
        match self.lexeme {
            Some(s) => s@,
            None => Seq::empty(),
        }
    }

    /// The text that the token is reported by: its own text if it has one,
    /// else what its kind is written as. The end of the file has none.
    pub open spec fn spelling(&self) -> Option<Seq<char>> {
        match self.lexeme {
            Some(s) => Some(s@),
            None => match self.token_type {
                TokenType::EOF => None,
                kind => Some(written(kind)),
            },
        }
    }

    /// The line that is written to standard error for a static error with
    /// the text `message` that is blamed on this token.
    pub fn report(&self, message: &str) -> (r: String)
        ensures
            r@ == static_report(self.line, self.spelling(), message@),
    {
        match &self.lexeme {
            Some(s) => report_static(self.line, Some(s.as_str()), message),
            None => match self.token_type {
                TokenType::EOF => report_static(self.line, None, message),
                kind => report_static(self.line, Some(spell(kind)), message),
            },
        }
    }

    /// The token's text as an owned string, empty if it has none.
    pub fn name_string(&self) -> (r: String)
        ensures
            r@ == self.name(),
    {
        match &self.lexeme {
            Some(s) => s.clone(),
            None => String::new(),
        }
    }
}

/// What the scanner rejects.
#[derive(Debug, Clone, Copy, PartialEq, Eq, Structural)]
pub enum ScanErrorKind {
    /// A character that begins no token.
    UnexpectedCharacter,
    /// A string without its closing quote.
    UnterminatedString,
}

/// A lexical error, the line it was found on and the character it begins with.
#[derive(Debug, Clone, Copy, PartialEq, Eq, Structural)]
pub struct ScanError {
    pub kind: ScanErrorKind,
    pub line: u64,
    pub at: char,
}

impl ScanError {
    /// The text of the error.
    pub open spec fn text(&self) -> Seq<char> {
        match self.kind {
            ScanErrorKind::UnexpectedCharacter => "Unexpected character."@,
            ScanErrorKind::UnterminatedString => "Unterminated string."@,
        }
    }

    /// The text of the error.
    pub fn message(&self) -> (r: String)
        ensures
            r@ == self.text(),
    {
        match self.kind {
            ScanErrorKind::UnexpectedCharacter => "Unexpected character.".to_owned(),
            ScanErrorKind::UnterminatedString => "Unterminated string.".to_owned(),
        }
    }

    /// The line that is written to standard error for the error.
    pub fn report(&self) -> (r: String)
        ensures
            r@ == static_report(self.line, Some(seq![self.at]), self.text()),
    {
        let mut at = String::new();
        at.push(self.at);
        assert(at@ =~= seq![self.at]);
        let message = self.message();
        report_static(self.line, Some(at.as_str()), message.as_str())
    }
}

/// Whether the character is a decimal digit.
pub open spec fn is_digit(c: char) -> bool {
    '0' <= c <= '9'
}

/// Whether the character is a letter or an underscore.
pub open spec fn is_alpha(c: char) -> bool {
    c == '_' || 'a' <= c <= 'z' || 'A' <= c <= 'Z'
}

/// Whether the character is a letter, a digit or an underscore.
pub open spec fn is_alpha_numeric(c: char) -> bool {
    is_alpha(c) || is_digit(c)
}

/// The characters that may follow the first digit of a number.
pub open spec fn is_number_part(c: char) -> bool {
    is_digit(c) || c == '.'
}

/// The keyword that `text` spells, if it spells one.
pub open spec fn keyword_of(text: Seq<char>) -> Option<TokenType> {
    if text == "and"@ {
        Some(TokenType::AND)
    } else if text == "class"@ {
        Some(TokenType::CLASS)
    } else if text == "else"@ {
        Some(TokenType::ELSE)
    } else if text == "false"@ {
        Some(TokenType::FALSE)
    } else if text == "fun"@ {
        Some(TokenType::FUN)
    } else if text == "for"@ {
        Some(TokenType::FOR)
    } else if text == "if"@ {
        Some(TokenType::IF)
    } else if text == "nil"@ {
        Some(TokenType::NIL)
    } else if text == "or"@ {
        Some(TokenType::OR)
    } else if text == "return"@ {
        Some(TokenType::RETURN)
    } else if text == "super"@ {
        Some(TokenType::SUPER)
    } else if text == "this"@ {
        Some(TokenType::THIS)
    } else if text == "true"@ {
        Some(TokenType::TRUE)
    } else if text == "var"@ {
        Some(TokenType::VAR)
    } else if text == "while"@ {
        Some(TokenType::WHILE)
    } else {
        None
    }
}

/// The kinds of character that a lexeme of more than two characters goes on with.
#[derive(Debug, Clone, Copy, PartialEq, Eq, Structural)]
pub enum CharClass {
    /// Anything but a line feed: the rest of a comment.
    Comment,
    /// Anything but a double quote: the inside of a string.
    Text,
    /// A digit or a dot: the rest of a number.
    Number,
    /// A letter, a digit or an underscore: the rest of a word.
    Word,
}

/// Whether the character is of the class.
pub open spec fn in_class(class: CharClass, c: char) -> bool {
    match class {
        CharClass::Comment => c != '\n',
        CharClass::Text => c != '"',
        CharClass::Number => is_number_part(c),
        CharClass::Word => is_alpha_numeric(c),
    }
}

/// The number of characters from `pos` on that are of the class, up to the first that is not.
pub open spec fn run_length(source: Seq<char>, pos: int, class: CharClass) -> nat
    decreases source.len() - pos,
{
    if 0 <= pos < source.len() && in_class(class, source[pos]) {
        1 + run_length(source, pos + 1, class)
    } else {
        0
    }
}

/// The number of line feeds in `text`.
pub open spec fn newlines(text: Seq<char>) -> nat
    decreases text.len(),
{
    if text.len() == 0 {
        0
    } else if text.last() == '\n' {
        newlines(text.drop_last()) + 1
    } else {
        newlines(text.drop_last())
    }
}

/// `text` without its line feeds.
pub open spec fn without_newlines(text: Seq<char>) -> Seq<char>
    decreases text.len(),
{
    if text.len() == 0 {
        Seq::empty()
    } else if text.last() == '\n' {
        without_newlines(text.drop_last())
    } else {
        without_newlines(text.drop_last()).push(text.last())
    }
}

/// The line `n` line feeds after `line`; the count stops at the largest number.
pub open spec fn line_after(line: u64, n: nat) -> u64 {
    if line + n <= u64::MAX {
        (line + n) as u64
    } else {
        u64::MAX
    }
}

/// What one lexeme amounts to.
pub struct Lexeme {
    /// The number of characters of the lexeme after its first.
    pub more: nat,
    /// The line after the lexeme.
    pub line: u64,
    /// The token that the lexeme makes, if it makes one.
    pub token: Option<TokenView>,
    /// The error that the lexeme is, if it is one.
    pub error: Option<ScanError>,
}

/// A token that is its kind and nothing more.
pub open spec fn plain(token_type: TokenType, line: u64) -> TokenView {
    TokenView { token_type, line, lexeme: None, literal: ObjectView::Nil }
}

/// One of the operators that an `=` may follow: alone it is `single`, with the `=` it is `double`.
pub open spec fn lex_operator(
    source: Seq<char>,
    pos: int,
    line: u64,
    single: TokenType,
    double: TokenType,
) -> Lexeme {
    if pos + 1 < source.len() && source[pos + 1] == '=' {
        Lexeme { more: 1, line, token: Some(plain(double, line)), error: None }
    } else {
        Lexeme { more: 0, line, token: Some(plain(single, line)), error: None }
    }
}

/// The lexeme that begins at `pos`, on the line `line`.
pub open spec fn lex_one(source: Seq<char>, pos: int, line: u64) -> Lexeme
    recommends
        0 <= pos < source.len(),
{
    let c = source[pos];
    let single = |t: TokenType| Lexeme { more: 0, line, token: Some(plain(t, line)), error: None };
    let nothing = Lexeme { more: 0, line, token: None, error: None };
    if c == '{' {
        single(TokenType::LEFTBRACE)
    } else if c == '}' {
        single(TokenType::RIGHTBRACE)
    } else if c == '(' {
        single(TokenType::LEFTPAREN)
    } else if c == ')' {
        single(TokenType::RIGHTPAREN)
    } else if c == ',' {
        single(TokenType::COMMA)
    } else if c == '.' {
        single(TokenType::DOT)
    } else if c == ';' {
        single(TokenType::SEMICOLON)
    } else if c == '*' {
        single(TokenType::STAR)
    } else if c == '-' {
        single(TokenType::MINUS)
    } else if c == '+' {
        single(TokenType::PLUS)
    } else if c == '/' {
        if pos + 1 < source.len() && source[pos + 1] == '/' {
            // A comment runs to the end of the line and takes the line feed with it.
            let n = run_length(source, pos + 1, CharClass::Comment);
            if pos + 1 + n < source.len() {
                Lexeme { more: n + 1, line: line_after(line, 1), token: None, error: None }
            } else {
                Lexeme { more: n, line, token: None, error: None }
            }
        } else {
            single(TokenType::SLASH)
        }
    } else if c == '!' {
        lex_operator(source, pos, line, TokenType::BANG, TokenType::BANGEQUAL)
    } else if c == '=' {
        lex_operator(source, pos, line, TokenType::EQUAL, TokenType::EQUALEQUAL)
    } else if c == '>' {
        lex_operator(source, pos, line, TokenType::GREATER, TokenType::GREATEREQUAL)
    } else if c == '<' {
        lex_operator(source, pos, line, TokenType::LESS, TokenType::LESSEQUAL)
    } else if c == '"' {
        // A string runs to the next quote. Its line feeds count as lines and
        // are left out of its text.
        let n = run_length(source, pos + 1, CharClass::Text);
        let inside = source.subrange(pos + 1, pos + 1 + n);
        let end = line_after(line, newlines(inside));
        if pos + 1 + n < source.len() {
            Lexeme {
                more: n + 1,
                line: end,
                token: Some(
                    TokenView {
                        token_type: TokenType::STRING,
                        line: end,
                        lexeme: Some(without_newlines(inside)),
                        literal: ObjectView::Str(without_newlines(inside)),
                    },
                ),
                error: None,
            }
        } else {
            Lexeme {
                more: n,
                line: end,
                token: None,
                error: Some(
                    ScanError { kind: ScanErrorKind::UnterminatedString, line: end, at: c },
                ),
            }
        }
    } else if is_digit(c) {
        // The number that the text denotes is filled in by the host.
        let n = run_length(source, pos + 1, CharClass::Number);
        Lexeme {
            more: n,
            line,
            token: Some(
                TokenView {
                    token_type: TokenType::NUMBER,
                    line,
                    lexeme: Some(source.subrange(pos, pos + 1 + n)),
                    literal: ObjectView::Nil,
                },
            ),
            error: None,
        }
    } else if is_alpha(c) {
        let n = run_length(source, pos + 1, CharClass::Word);
        let text = source.subrange(pos, pos + 1 + n);
        Lexeme {
            more: n,
            line,
            token: Some(
                match keyword_of(text) {
                    Some(k) => TokenView {
                        token_type: k,
                        line,
                        lexeme: if k == TokenType::THIS {
                            Some(text)
                        } else {
                            None
                        },
                        literal: ObjectView::Nil,
                    },
                    None => TokenView {
                        token_type: TokenType::IDENTIFIER,
                        line,
                        lexeme: Some(text),
                        literal: ObjectView::Nil,
                    },
                },
            ),
            error: None,
        }
    } else if c == ' ' || c == '\t' || c == '\r' {
        nothing
    } else if c == '\n' {
        Lexeme { more: 0, line: line_after(line, 1), token: None, error: None }
    } else {
        Lexeme {
            more: 0,
            line,
            token: None,
            error: Some(ScanError { kind: ScanErrorKind::UnexpectedCharacter, line, at: c }),
        }
    }
}

/// What a stretch of source text amounts to.
pub struct Scan {
    /// The tokens, in order.
    pub tokens: Seq<TokenView>,
    /// The errors, in order.
    pub errors: Seq<ScanError>,
    /// The line after the text.
    pub line: u64,
}

/// One or no item as a sequence.
pub open spec fn optional<T>(item: Option<T>) -> Seq<T> {
    match item {
        Some(t) => seq![t],
        None => Seq::empty(),
    }
}

/// The position after a lexeme that begins at `pos`, which is never beyond the text.
pub open spec fn lexeme_end(source: Seq<char>, pos: int, lexeme: Lexeme) -> int {
    if pos + 1 + lexeme.more <= source.len() {
        pos + 1 + lexeme.more
    } else {
        source.len() as int
    }
}

/// What the source text from `pos` on amounts to, lexeme by lexeme.
pub open spec fn scan_from(source: Seq<char>, pos: int, line: u64) -> Scan
    decreases source.len() - pos,
{
    if 0 <= pos < source.len() {
        let first = lex_one(source, pos, line);
        let rest = scan_from(source, lexeme_end(source, pos, first), first.line);
        Scan {
            tokens: optional(first.token) + rest.tokens,
            errors: optional(first.error) + rest.errors,
            line: rest.line,
        }
    } else {
        Scan { tokens: Seq::empty(), errors: Seq::empty(), line }
    }
}

/// The views of a list of tokens.
pub open spec fn tokens_view(tokens: Seq<Token>) -> Seq<TokenView> {
    Seq::new(tokens.len(), |i: int| tokens[i]@)
}

/// A run of characters of one class ends inside the text.
pub proof fn lemma_run_in_text(source: Seq<char>, pos: int, class: CharClass)
    requires
        0 <= pos <= source.len(),
    ensures
        pos + run_length(source, pos, class) <= source.len(),
        pos + run_length(source, pos, class) < source.len() ==> !in_class(
            class,
            source[pos + run_length(source, pos, class)],
        ),
    decreases source.len() - pos,
{
    if pos < source.len() && in_class(class, source[pos]) {
        lemma_run_in_text(source, pos + 1, class);
    }
}

fn keyword(text: &String) -> (r: Option<TokenType>)
    ensures
        r == keyword_of(text@),
{
    if *text == "and".to_owned() {
        Some(TokenType::AND)
    } else if *text == "class".to_owned() {
        Some(TokenType::CLASS)
    } else if *text == "else".to_owned() {
        Some(TokenType::ELSE)
    } else if *text == "false".to_owned() {
        Some(TokenType::FALSE)
    } else if *text == "fun".to_owned() {
        Some(TokenType::FUN)
    } else if *text == "for".to_owned() {
        Some(TokenType::FOR)
    } else if *text == "if".to_owned() {
        Some(TokenType::IF)
    } else if *text == "nil".to_owned() {
        Some(TokenType::NIL)
    } else if *text == "or".to_owned() {
        Some(TokenType::OR)
    } else if *text == "return".to_owned() {
        Some(TokenType::RETURN)
    } else if *text == "super".to_owned() {
        Some(TokenType::SUPER)
    } else if *text == "this".to_owned() {
        Some(TokenType::THIS)
    } else if *text == "true".to_owned() {
        Some(TokenType::TRUE)
    } else if *text == "var".to_owned() {
        Some(TokenType::VAR)
    } else if *text == "while".to_owned() {
        Some(TokenType::WHILE)
    } else {
        None
    }
}

fn next_line(line: u64) -> (r: u64)
    ensures
        r == line_after(line, 1),
{
    if line < u64::MAX {
        line + 1
    } else {
        line
    }
}

/// The scanner: source text, a position in it, and what was found up to there.
pub struct Scanner {
    source: Vec<char>,
    current: usize,
    tokens: Vec<Token>,
    line: u64,
    errors: Vec<ScanError>,
}

impl Scanner {
    /// The source text.
    pub closed spec fn source(&self) -> Seq<char> {
        self.source@
    }

    /// The position of the next character to read.
    pub closed spec fn position(&self) -> int {
        self.current as int
    }

    /// The line of the next character to read.
    pub closed spec fn line(&self) -> u64 {
        self.line
    }

    /// The tokens found so far.
    pub closed spec fn tokens(&self) -> Seq<TokenView> {
        tokens_view(self.tokens@)
    }

    /// The errors found so far.
    pub closed spec fn failures(&self) -> Seq<ScanError> {
        self.errors@
    }

    /// The scanner's invariant: the position lies in the text or at its end.
    pub closed spec fn wf(&self) -> bool {
        self.current <= self.source@.len()
    }

    /// A scanner at the start of `source`, on line 1.
    pub fn new(source: Vec<char>) -> (r: Scanner)
        ensures
            r.wf(),
            r.source() == source@,
            r.position() == 0,
            r.line() == 1,
            r.tokens() == Seq::<TokenView>::empty(),
            r.failures() == Seq::<ScanError>::empty(),
    {
        let r = Scanner { source, current: 0, tokens: Vec::new(), line: 1, errors: Vec::new() };
        assert(r.tokens() =~= Seq::<TokenView>::empty());
        r
    }

    fn is_alpha_numeric(c: char) -> (r: bool)
        ensures
            r == is_alpha_numeric(c),
    {
        c == '_' || ('a' <= c && c <= 'z') || ('A' <= c && c <= 'Z') || ('0' <= c && c <= '9')
    }

    fn holds(class: CharClass, c: char) -> (r: bool)
        ensures
            r == in_class(class, c),
    {
        match class {
            CharClass::Comment => c != '\n',
            CharClass::Text => c != '"',
            CharClass::Number => ('0' <= c && c <= '9') || c == '.',
            CharClass::Word => Scanner::is_alpha_numeric(c),
        }
    }

    /// Records an error of the given kind on the given line, at the given character.
    pub fn error(&mut self, line: u64, kind: ScanErrorKind, at: char)
        ensures
            final(self).failures() == old(self).failures().push(ScanError { kind, line, at }),
            final(self).source() == old(self).source(),
            final(self).position() == old(self).position(),
            final(self).line() == old(self).line(),
            final(self).tokens() == old(self).tokens(),
            old(self).wf() ==> final(self).wf(),
    {
        self.errors.push(ScanError { kind, line, at });
    }

    /// The errors found so far.
    pub fn errors(&self) -> (r: &Vec<ScanError>)
        ensures
            r@ == self.failures(),
    {
        &self.errors
    }

    fn is_at_end(&self) -> (r: bool)
        requires
            self.wf(),
        ensures
            r == (self.position() >= self.source().len()),
    {
        self.current >= self.source.len()
    }

    /// The end of the run of characters of `class` that begins at `start`.
    fn run(&self, start: usize, class: CharClass) -> (end: usize)
        requires
            start <= self.source@.len(),
        ensures
            end == start + run_length(self.source@, start as int, class),
            end <= self.source@.len(),
    {
        let mut i: usize = start;
        while i < self.source.len() && Scanner::holds(class, self.source[i])
            invariant
                start <= i <= self.source@.len(),
                run_length(self.source@, start as int, class) == (i - start) + run_length(
                    self.source@,
                    i as int,
                    class,
                ),
            decreases self.source@.len() - i,
        {
            i += 1;
        }
        i
    }

    /// The characters from `from` up to `to` as a string.
    fn text(&self, from: usize, to: usize) -> (r: String)
        requires
            from <= to <= self.source@.len(),
        ensures
            r@ == self.source@.subrange(from as int, to as int),
    {
        let mut buf = String::new();
        let mut i: usize = from;
        while i < to
            invariant
                from <= i <= to <= self.source@.len(),
                buf@ == self.source@.subrange(from as int, i as int),
            decreases to - i,
        {
            buf.push(self.source[i]);
            assert(self.source@.subrange(from as int, i + 1) =~= self.source@.subrange(
                from as int,
                i as int,
            ).push(self.source@[i as int]));
            i += 1;
        }
        buf
    }

    /// The characters from `from` up to `to` without the line feeds, and the
    /// line that the line feeds among them lead to.
    fn string_text(&self, from: usize, to: usize, line: u64) -> (r: (String, u64))
        requires
            from <= to <= self.source@.len(),
        ensures
            r.0@ == without_newlines(self.source@.subrange(from as int, to as int)),
            r.1 == line_after(line, newlines(self.source@.subrange(from as int, to as int))),
    {
        let mut buf = String::new();
        let mut end: u64 = line;
        let mut i: usize = from;
        while i < to
            invariant
                from <= i <= to <= self.source@.len(),
                buf@ == without_newlines(self.source@.subrange(from as int, i as int)),
                end == line_after(line, newlines(self.source@.subrange(from as int, i as int))),
            decreases to - i,
        {
            let c = self.source[i];
            assert(self.source@.subrange(from as int, i + 1).drop_last() =~= self.source@.subrange(
                from as int,
                i as int,
            ));
            if c == '\n' {
                end = next_line(end);
            } else {
                buf.push(c);
            }
            i += 1;
        }
        (buf, end)
    }

    fn add(&mut self, token: Token)
        ensures
            final(self).tokens() == old(self).tokens().push(token@),
            final(self).source() == old(self).source(),
            final(self).position() == old(self).position(),
            final(self).line() == old(self).line(),
            final(self).failures() == old(self).failures(),
            old(self).wf() ==> final(self).wf(),
    {
        self.tokens.push(token);
        assert(self.tokens() =~= old(self).tokens().push(token@));
    }

    fn add_plain(&mut self, token_type: TokenType)
        ensures
            final(self).tokens() == old(self).tokens().push(plain(token_type, old(self).line())),
            final(self).source() == old(self).source(),
            final(self).position() == old(self).position(),
            final(self).line() == old(self).line(),
            final(self).failures() == old(self).failures(),
            old(self).wf() ==> final(self).wf(),
    {
        self.add(Token::new(token_type, self.line, None, Object::Nil));
    }

    fn operator(&mut self, single: TokenType, double: TokenType)
        requires
            old(self).wf(),
            0 < old(self).position(),
        ensures
            final(self).wf(),
            scanned(
                *old(self),
                *final(self),
                old(self).position() - 1,
                lex_operator(
                    old(self).source(),
                    old(self).position() - 1,
                    old(self).line(),
                    single,
                    double,
                ),
            ),
    {
        if self.current < self.source.len() && self.source[self.current] == '=' {
            self.add_plain(double);
            self.current += 1;
        } else {
            self.add_plain(single);
        }
    }

    /// Scans the lexeme at the current position.
    fn scan_token(&mut self)
        requires
            old(self).wf(),
            old(self).position() < old(self).source().len(),
        ensures
            final(self).wf(),
            scanned(
                *old(self),
                *final(self),
                old(self).position(),
                lex_one(old(self).source(), old(self).position(), old(self).line()),
            ),
    {
        let start = self.current;
        assert(self.source@.len() == self.source.len());
        let c = self.source[start];
        self.current = start + 1;
        proof {
            lemma_run_in_text(self.source@, start + 1, CharClass::Comment);
            lemma_run_in_text(self.source@, start + 1, CharClass::Text);
            lemma_run_in_text(self.source@, start + 1, CharClass::Number);
            lemma_run_in_text(self.source@, start + 1, CharClass::Word);
        }
        if c == '{' {
            self.add_plain(TokenType::LEFTBRACE);
        } else if c == '}' {
            self.add_plain(TokenType::RIGHTBRACE);
        } else if c == '(' {
            self.add_plain(TokenType::LEFTPAREN);
        } else if c == ')' {
            self.add_plain(TokenType::RIGHTPAREN);
        } else if c == ',' {
            self.add_plain(TokenType::COMMA);
        } else if c == '.' {
            self.add_plain(TokenType::DOT);
        } else if c == ';' {
            self.add_plain(TokenType::SEMICOLON);
        } else if c == '*' {
            self.add_plain(TokenType::STAR);
        } else if c == '-' {
            self.add_plain(TokenType::MINUS);
        } else if c == '+' {
            self.add_plain(TokenType::PLUS);
        } else if c == '/' {
            if self.current < self.source.len() && self.source[self.current] == '/' {
                let end = self.run(self.current, CharClass::Comment);
                if end < self.source.len() {
                    self.line = next_line(self.line);
                    self.current = end + 1;
                } else {
                    self.current = end;
                }
            } else {
                self.add_plain(TokenType::SLASH);
            }
        } else if c == '!' {
            self.operator(TokenType::BANG, TokenType::BANGEQUAL);
        } else if c == '=' {
            self.operator(TokenType::EQUAL, TokenType::EQUALEQUAL);
        } else if c == '>' {
            self.operator(TokenType::GREATER, TokenType::GREATEREQUAL);
        } else if c == '<' {
            self.operator(TokenType::LESS, TokenType::LESSEQUAL);
        } else if c == '"' {
            let end = self.run(self.current, CharClass::Text);
            let (buf, line) = self.string_text(self.current, end, self.line);
            self.line = line;
            if end < self.source.len() {
                self.current = end + 1;
                self.add(Token::new(TokenType::STRING, line, Some(buf.clone()), Object::Str(buf)));
            } else {
                self.current = end;
                self.error(line, ScanErrorKind::UnterminatedString, c);
            }
        } else if '0' <= c && c <= '9' {
            let end = self.run(self.current, CharClass::Number);
            let buf = self.text(start, end);
            self.current = end;
            self.add(Token::new(TokenType::NUMBER, self.line, Some(buf), Object::Nil));
        } else if c == '_' || ('a' <= c && c <= 'z') || ('A' <= c && c <= 'Z') {
            let end = self.run(self.current, CharClass::Word);
            let buf = self.text(start, end);
            self.current = end;
            match keyword(&buf) {
                Some(k) => {
                    let lexeme = match k {
                        TokenType::THIS => Some(buf),
                        _ => None,
                    };
                    self.add(Token::new(k, self.line, lexeme, Object::Nil));
                },
                None => {
                    self.add(Token::new(TokenType::IDENTIFIER, self.line, Some(buf), Object::Nil));
                },
            }
        } else if c == ' ' || c == '\t' || c == '\r' {
        } else if c == '\n' {
            self.line = next_line(self.line);
        } else {
            self.error(self.line, ScanErrorKind::UnexpectedCharacter, c);
        }
    }

    /// Scans the rest of the source text. Without errors the result is every
    /// token found, followed by an end-of-file token on the last line.
    pub fn scan_tokens(&mut self) -> (r: Option<Vec<Token>>)
        requires
            old(self).wf(),
        ensures
            final(self).wf(),
            final(self).source() == old(self).source(),
            final(self).position() == old(self).source().len(),
            ({
                let rest = scan_from(old(self).source(), old(self).position(), old(self).line());
                let found = old(self).tokens() + rest.tokens;
                &&& final(self).line() == rest.line
                &&& final(self).failures() == old(self).failures() + rest.errors
                &&& match r {
                    Some(tokens) => {
                        &&& final(self).failures().len() == 0
                        &&& tokens_view(tokens@) == found.push(plain(TokenType::EOF, rest.line))
                        &&& final(self).tokens() == Seq::<TokenView>::empty()
                    },
                    None => final(self).failures().len() > 0 && final(self).tokens() == found,
                }
            }),
    {
        while !self.is_at_end()
            invariant
                self.wf(),
                self.source() == old(self).source(),
                ({
                    let all = scan_from(old(self).source(), old(self).position(), old(self).line());
                    let rest = scan_from(self.source(), self.position(), self.line());
                    &&& all.line == rest.line
                    &&& old(self).tokens() + all.tokens == self.tokens() + rest.tokens
                    &&& old(self).failures() + all.errors == self.failures() + rest.errors
                }),
            decreases self.source().len() - self.position(),
        {
            let ghost before = *self;
            self.scan_token();
            proof {
                let first = lex_one(before.source(), before.position(), before.line());
                let rest = scan_from(self.source(), self.position(), self.line());
                let was = scan_from(before.source(), before.position(), before.line());
                assert(was.tokens == optional(first.token) + rest.tokens);
                assert(was.errors == optional(first.error) + rest.errors);
                assert(before.tokens() + was.tokens =~= self.tokens() + rest.tokens);
                assert(before.failures() + was.errors =~= self.failures() + rest.errors);
            }
        }
        assert(self.position() == self.source().len());
        if self.errors.len() > 0 {
            return None;
        }
        self.add_plain(TokenType::EOF);
        let mut tokens: Vec<Token> = Vec::new();
        std::mem::swap(&mut self.tokens, &mut tokens);
        assert(self.tokens() =~= Seq::<TokenView>::empty());
        Some(tokens)
    }
}

/// The scanner has gone from `pre` to `post` by the lexeme `lexeme` that begins at `start`.
pub open spec fn scanned(pre: Scanner, post: Scanner, start: int, lexeme: Lexeme) -> bool {
    &&& post.source() == pre.source()
    &&& post.position() == lexeme_end(pre.source(), start, lexeme)
    &&& post.position() == start + 1 + lexeme.more
    &&& post.line() == lexeme.line
    &&& post.tokens() == appended(pre.tokens(), lexeme.token)
    &&& post.failures() == appended(pre.failures(), lexeme.error)
}

/// The sequence with one or no item more at its end.
pub open spec fn appended<T>(items: Seq<T>, item: Option<T>) -> Seq<T> {
    match item {
        Some(t) => items.push(t),
        None => items,
    }
}

} // verus!
