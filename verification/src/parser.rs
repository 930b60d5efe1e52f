//! The parser: recursive descent from tokens to the syntax tree.
//!
//! The grammar is written down twice: as specification functions from a list
//! of tokens and a position to what is parsed there, and as the methods of
//! [`Parser`], which are proved to compute exactly that.

use vstd::prelude::*;
use crate::expressions::{
    Assign, Binary, Call, Expr, ExprView, Get, Grouping, Literal, Logical, SetExpr, This, Unary,
    Variable, exprs_view,
};
use crate::scanner::{Token, TokenType};
use crate::statements::{
    Block, Class, Func, FuncView, IfStmt, ReturnStmt, Stmt, StmtView, Var, WhileStmt, funcs_view,
    stmts_view,
};
use crate::numbering::{lemma_program_rest, spread, stmts_ids};
use crate::text::static_report;
use crate::types::Object;
use vstd::string::*;

verus! {

/// What the parser rejects.
#[derive(Debug, Clone, Copy, PartialEq, Eq, Structural)]
pub enum ParseErrorKind {
    ExpectVariableName,
    ExpectSemicolonAfterValue,
    ExpectSemicolonAfterReturn,
    ExpectFunctionName,
    ExpectParenAfterFunctionName,
    ExpectParameterName,
    ExpectParenAfterParameters,
    ExpectBraceBeforeBody,
    ExpectClassName,
    ExpectBraceBeforeClassBody,
    ExpectBraceAfterClassBody,
    ExpectParenAfterFor,
    ExpectSemicolonAfterLoopCondition,
    ExpectParenAfterForClauses,
    ExpectParenAfterWhile,
    ExpectParenAfterIf,
    ExpectParenAfterCondition,
    ExpectBraceAfterBlock,
    ExpectExpression,
    ExpectParenAfterExpression,
    ExpectParenAfterArguments,
    ExpectPropertyName,
    InvalidAssignmentTarget,
}

/// The text of each kind of error.
pub open spec fn message_of(kind: ParseErrorKind) -> Seq<char> {
    match kind {
        ParseErrorKind::ExpectVariableName => "Expect variable name."@,
        ParseErrorKind::ExpectSemicolonAfterValue => "Expect ';' after value."@,
        ParseErrorKind::ExpectSemicolonAfterReturn => "Expect ';' after return statement."@,
        ParseErrorKind::ExpectFunctionName => "Expect name."@,
        ParseErrorKind::ExpectParenAfterFunctionName => "Expect '(' after function name."@,
        ParseErrorKind::ExpectParameterName => "Expect parameter name."@,
        ParseErrorKind::ExpectParenAfterParameters => "Expect ')' after parameters."@,
        ParseErrorKind::ExpectBraceBeforeBody => "Expect '{' before function body."@,
        ParseErrorKind::ExpectClassName => "Expect class name."@,
        ParseErrorKind::ExpectBraceBeforeClassBody => "Expect '{' before class body."@,
        ParseErrorKind::ExpectBraceAfterClassBody => "Expect '}' after class body."@,
        ParseErrorKind::ExpectParenAfterFor => "Expect '(' after 'for'."@,
        ParseErrorKind::ExpectSemicolonAfterLoopCondition => "Expect ';' after loop condition."@,
        ParseErrorKind::ExpectParenAfterForClauses => "Expect ')' after loop clauses."@,
        ParseErrorKind::ExpectParenAfterWhile => "Expect '(' after 'while'."@,
        ParseErrorKind::ExpectParenAfterIf => "Expect '(' after if statement."@,
        ParseErrorKind::ExpectParenAfterCondition => "Expect ')' after condition."@,
        ParseErrorKind::ExpectBraceAfterBlock => "Expect '}' after block."@,
        ParseErrorKind::ExpectExpression => "Expect expression"@,
        ParseErrorKind::ExpectParenAfterExpression => "Expect ')' after expression"@,
        ParseErrorKind::ExpectParenAfterArguments => "Expect ')' after arguments."@,
        ParseErrorKind::ExpectPropertyName => "Expect property name after '.'."@,
        ParseErrorKind::InvalidAssignmentTarget => "Invalid assignment target."@,
    }
}

/// A syntax error: what was expected and the token found instead.
#[derive(Debug)]
pub struct ParseError {
    pub kind: ParseErrorKind,
    pub token: Token,
}

impl ParseError {
    /// The text of the error.
    pub fn message(&self) -> (r: String)
        ensures
            r@ == message_of(self.kind),
    {
        match self.kind {
            ParseErrorKind::ExpectVariableName => "Expect variable name.".to_owned(),
            ParseErrorKind::ExpectSemicolonAfterValue => "Expect ';' after value.".to_owned(),
            ParseErrorKind::ExpectSemicolonAfterReturn => "Expect ';' after return statement.".to_owned(),
            ParseErrorKind::ExpectFunctionName => "Expect name.".to_owned(),
            ParseErrorKind::ExpectParenAfterFunctionName => "Expect '(' after function name.".to_owned(),
            ParseErrorKind::ExpectParameterName => "Expect parameter name.".to_owned(),
            ParseErrorKind::ExpectParenAfterParameters => "Expect ')' after parameters.".to_owned(),
            ParseErrorKind::ExpectBraceBeforeBody => "Expect '{' before function body.".to_owned(),
            ParseErrorKind::ExpectClassName => "Expect class name.".to_owned(),
            ParseErrorKind::ExpectBraceBeforeClassBody => "Expect '{' before class body.".to_owned(),
            ParseErrorKind::ExpectBraceAfterClassBody => "Expect '}' after class body.".to_owned(),
            ParseErrorKind::ExpectParenAfterFor => "Expect '(' after 'for'.".to_owned(),
            ParseErrorKind::ExpectSemicolonAfterLoopCondition => "Expect ';' after loop condition.".to_owned(),
            ParseErrorKind::ExpectParenAfterForClauses => "Expect ')' after loop clauses.".to_owned(),
            ParseErrorKind::ExpectParenAfterWhile => "Expect '(' after 'while'.".to_owned(),
            ParseErrorKind::ExpectParenAfterIf => "Expect '(' after if statement.".to_owned(),
            ParseErrorKind::ExpectParenAfterCondition => "Expect ')' after condition.".to_owned(),
            ParseErrorKind::ExpectBraceAfterBlock => "Expect '}' after block.".to_owned(),
            ParseErrorKind::ExpectExpression => "Expect expression".to_owned(),
            ParseErrorKind::ExpectParenAfterExpression => "Expect ')' after expression".to_owned(),
            ParseErrorKind::ExpectParenAfterArguments => "Expect ')' after arguments.".to_owned(),
            ParseErrorKind::ExpectPropertyName => "Expect property name after '.'.".to_owned(),
            ParseErrorKind::InvalidAssignmentTarget => "Invalid assignment target.".to_owned(),
        }
    }

    /// The line that is written to standard error for the error.
    pub fn report(&self) -> (r: String)
        ensures
            r@ == static_report(self.token.line, self.token.spelling(), message_of(self.kind)),
    {
        let message = self.message();
        self.token.report(message.as_str())
    }
}

/// What was parsed: the value, the number of tokens it took, and the next
/// unused expression identity.
pub struct Step<T> {
    pub value: T,
    pub used: nat,
    pub id: u64,
}

/// What parsing leads to.
pub type Parsed<T> = Result<Step<T>, ParseError>;

/// The token that stands for the end of a list of tokens that has none.
pub open spec fn end_token() -> Token {
    Token { token_type: TokenType::EOF, line: 0, lexeme: None, literal: Object::Nil }
}

/// The token at `pos`; beyond the list, the end of the file.
pub open spec fn token_at(tokens: Seq<Token>, pos: nat) -> Token {
    if pos < tokens.len() {
        tokens[pos as int]
    } else {
        end_token()
    }
}

/// The kind of the token at `pos`.
pub open spec fn kind_at(tokens: Seq<Token>, pos: nat) -> TokenType {
    token_at(tokens, pos).token_type
}

/// The number of tokens from `pos` to the end of the list.
pub open spec fn remaining(tokens: Seq<Token>, pos: nat) -> nat {
    if pos <= tokens.len() {
        (tokens.len() - pos) as nat
    } else {
        0
    }
}

/// The identity after `id`.
pub open spec fn next_id(id: u64) -> u64 {
    if id < u64::MAX {
        (id + 1) as u64
    } else {
        id
    }
}

/// The token at `pos` if it is of the kind `kind`, else the error `error`.
pub open spec fn expect(tokens: Seq<Token>, pos: nat, kind: TokenType, error: ParseErrorKind)
    -> Result<Token, ParseError> {
    if kind_at(tokens, pos) == kind {
        Ok(token_at(tokens, pos))
    } else {
        Err(ParseError { kind: error, token: token_at(tokens, pos) })
    }
}

/// The level of `or`. The levels of the infix operators are numbered from
/// the loosest on.
pub const OR_LEVEL: u8 = 0;

/// The level of `and`.
pub const AND_LEVEL: u8 = 1;

/// The level of `==` and `!=`.
pub const EQUALITY_LEVEL: u8 = 2;

/// The level of `<`, `<=`, `>` and `>=`.
pub const COMPARISON_LEVEL: u8 = 3;

/// The level of `+` and `-`.
pub const TERM_LEVEL: u8 = 4;

/// The level of `*` and `/`.
pub const FACTOR_LEVEL: u8 = 5;

/// Whether a token of the kind `kind` is an infix operator of the level `level`.
pub open spec fn operator_of(level: u8, kind: TokenType) -> bool {
    if level == OR_LEVEL {
        kind == TokenType::OR
    } else if level == AND_LEVEL {
        kind == TokenType::AND
    } else if level == EQUALITY_LEVEL {
        kind == TokenType::EQUALEQUAL || kind == TokenType::BANGEQUAL
    } else if level == COMPARISON_LEVEL {
        kind == TokenType::GREATER || kind == TokenType::GREATEREQUAL || kind == TokenType::LESS
            || kind == TokenType::LESSEQUAL
    } else if level == TERM_LEVEL {
        kind == TokenType::PLUS || kind == TokenType::MINUS
    } else {
        kind == TokenType::SLASH || kind == TokenType::STAR
    }
}

/// The expression that an infix operator of the level `level` makes of its operands.
pub open spec fn infix_node(
    level: u8,
    id: u64,
    left: ExprView,
    operator: Token,
    right: ExprView,
) -> ExprView {
    if level <= AND_LEVEL {
        ExprView::Logical { id, left: Box::new(left), operator, right: Box::new(right) }
    } else {
        ExprView::Binary { id, left: Box::new(left), operator, right: Box::new(right) }
    }
}

/// A primary expression: a literal, `this`, a name, or an expression in parentheses.
#[verifier::opaque]
pub open spec fn primary(tokens: Seq<Token>, pos: nat, id: u64) -> Parsed<ExprView>
    decreases remaining(tokens, pos), 1nat,
{
    let token = token_at(tokens, pos);
    let one = |value: ExprView| Ok::<Step<ExprView>, ParseError>(Step { value, used: 1, id: next_id(id) });
    match token.token_type {
        TokenType::FALSE => one(ExprView::Literal { id, value: Object::Bool(false) }),
        TokenType::TRUE => one(ExprView::Literal { id, value: Object::Bool(true) }),
        TokenType::NIL => one(ExprView::Literal { id, value: Object::Nil }),
        TokenType::NUMBER => one(ExprView::Literal { id, value: token.literal }),
        TokenType::STRING => one(ExprView::Literal { id, value: token.literal }),
        TokenType::THIS => one(ExprView::This { id, keyword: token }),
        TokenType::IDENTIFIER => one(ExprView::Var { id, name: token }),
        TokenType::LEFTPAREN => match expression(tokens, pos + 1, id) {
            Ok(inner) => match expect(
                tokens,
                pos + 1 + inner.used,
                TokenType::RIGHTPAREN,
                ParseErrorKind::ExpectParenAfterExpression,
            ) {
                Ok(_) => Ok(
                    Step {
                        value: ExprView::Grouping { id: inner.id, expr: Box::new(inner.value) },
                        used: inner.used + 2,
                        id: next_id(inner.id),
                    },
                ),
                Err(e) => Err(e),
            },
            Err(e) => Err(e),
        },
        _ => Err(ParseError { kind: ParseErrorKind::ExpectExpression, token }),
    }
}

/// The arguments of a call after the first: each follows a comma.
#[verifier::opaque]
pub open spec fn arguments_rest(tokens: Seq<Token>, pos: nat, id: u64, found: Seq<ExprView>)
    -> Parsed<Seq<ExprView>>
    decreases remaining(tokens, pos), 0nat,
{
    if kind_at(tokens, pos) == TokenType::COMMA {
        match expression(tokens, pos + 1, id) {
            Ok(argument) => match arguments_rest(
                tokens,
                pos + 1 + argument.used,
                argument.id,
                found.push(argument.value),
            ) {
                Ok(rest) => Ok(Step { used: rest.used + 1 + argument.used, ..rest }),
                Err(e) => Err(e),
            },
            Err(e) => Err(e),
        }
    } else {
        Ok(Step { value: found, used: 0, id })
    }
}

/// The arguments of a call up to the closing parenthesis.
#[verifier::opaque]
pub open spec fn arguments(tokens: Seq<Token>, pos: nat, id: u64) -> Parsed<Seq<ExprView>>
    decreases remaining(tokens, pos), 24nat,
{
    if kind_at(tokens, pos) == TokenType::RIGHTPAREN {
        Ok(Step { value: Seq::empty(), used: 0, id })
    } else {
        match expression(tokens, pos, id) {
            Ok(first) => match arguments_rest(tokens, pos + first.used, first.id, seq![first.value]) {
                Ok(rest) => Ok(Step { used: rest.used + first.used, ..rest }),
                Err(e) => Err(e),
            },
            Err(e) => Err(e),
        }
    }
}

/// A call of `calle`, from after its opening parenthesis.
#[verifier::opaque]
pub open spec fn finish_call(tokens: Seq<Token>, pos: nat, id: u64, calle: ExprView) -> Parsed<
    ExprView,
>
    decreases remaining(tokens, pos), 25nat,
{
    match arguments(tokens, pos, id) {
        Ok(args) => match expect(
            tokens,
            pos + args.used,
            TokenType::RIGHTPAREN,
            ParseErrorKind::ExpectParenAfterArguments,
        ) {
            Ok(paren) => Ok(
                Step {
                    value: ExprView::Call {
                        id: args.id,
                        calle: Box::new(calle),
                        paren,
                        arguments: args.value,
                    },
                    used: args.used + 1,
                    id: next_id(args.id),
                },
            ),
            Err(e) => Err(e),
        },
        Err(e) => Err(e),
    }
}

/// What follows a primary expression: any number of calls and property reads.
#[verifier::opaque]
pub open spec fn call_rest(tokens: Seq<Token>, pos: nat, id: u64, expr: ExprView) -> Parsed<
    ExprView,
>
    decreases remaining(tokens, pos), 0nat,
{
    if kind_at(tokens, pos) == TokenType::LEFTPAREN {
        match finish_call(tokens, pos + 1, id, expr) {
            Ok(call) => match call_rest(tokens, pos + 1 + call.used, call.id, call.value) {
                Ok(rest) => Ok(Step { used: rest.used + 1 + call.used, ..rest }),
                Err(e) => Err(e),
            },
            Err(e) => Err(e),
        }
    } else if kind_at(tokens, pos) == TokenType::DOT {
        match expect(tokens, pos + 1, TokenType::IDENTIFIER, ParseErrorKind::ExpectPropertyName) {
            Ok(name) => match call_rest(
                tokens,
                pos + 2,
                next_id(id),
                ExprView::Get { id, expr: Box::new(expr), name },
            ) {
                Ok(rest) => Ok(Step { used: rest.used + 2, ..rest }),
                Err(e) => Err(e),
            },
            Err(e) => Err(e),
        }
    } else {
        Ok(Step { value: expr, used: 0, id })
    }
}

/// A primary expression with the calls and property reads that follow it.
#[verifier::opaque]
pub open spec fn call(tokens: Seq<Token>, pos: nat, id: u64) -> Parsed<ExprView>
    decreases remaining(tokens, pos), 2nat,
{
    match primary(tokens, pos, id) {
        Ok(first) => match call_rest(tokens, pos + first.used, first.id, first.value) {
            Ok(rest) => Ok(Step { used: rest.used + first.used, ..rest }),
            Err(e) => Err(e),
        },
        Err(e) => Err(e),
    }
}

/// A call, or `!` or `-` before a unary expression.
#[verifier::opaque]
pub open spec fn unary(tokens: Seq<Token>, pos: nat, id: u64) -> Parsed<ExprView>
    decreases remaining(tokens, pos), 3nat,
{
    if kind_at(tokens, pos) == TokenType::BANG || kind_at(tokens, pos) == TokenType::MINUS {
        match unary(tokens, pos + 1, id) {
            Ok(right) => Ok(
                Step {
                    value: ExprView::Unary {
                        id: right.id,
                        operator: token_at(tokens, pos),
                        right: Box::new(right.value),
                    },
                    used: right.used + 1,
                    id: next_id(right.id),
                },
            ),
            Err(e) => Err(e),
        }
    } else {
        call(tokens, pos, id)
    }
}

/// The place of the expressions of infix operators of the level `level` in
/// the order in which the grammar's rules refer to each other.
pub open spec fn infix_rank(level: u8) -> nat {
    if level <= FACTOR_LEVEL {
        (20 - 2 * level) as nat
    } else {
        6
    }
}

/// An operand of an infix operator of the level `level`.
#[verifier::opaque]
pub open spec fn operand(tokens: Seq<Token>, pos: nat, id: u64, level: u8) -> Parsed<ExprView>
    decreases remaining(tokens, pos), infix_rank(level) - 1,
{
    if level >= FACTOR_LEVEL {
        unary(tokens, pos, id)
    } else {
        infix(tokens, pos, id, (level + 1) as u8)
    }
}

/// What follows the left operand `left` of an infix operator of the level
/// `level`: any number of operators of that level, each with its right
/// operand. The operators associate to the left.
#[verifier::opaque]
pub open spec fn infix_rest(tokens: Seq<Token>, pos: nat, id: u64, level: u8, left: ExprView)
    -> Parsed<ExprView>
    decreases remaining(tokens, pos), 0nat,
{
    if operator_of(level, kind_at(tokens, pos)) && kind_at(tokens, pos) != TokenType::EOF {
        match operand(tokens, pos + 1, id, level) {
            Ok(right) => match infix_rest(
                tokens,
                pos + 1 + right.used,
                next_id(right.id),
                level,
                infix_node(level, right.id, left, token_at(tokens, pos), right.value),
            ) {
                Ok(rest) => Ok(Step { used: rest.used + 1 + right.used, ..rest }),
                Err(e) => Err(e),
            },
            Err(e) => Err(e),
        }
    } else {
        Ok(Step { value: left, used: 0, id })
    }
}

/// An expression of infix operators of the level `level` and tighter ones.
#[verifier::opaque]
pub open spec fn infix(tokens: Seq<Token>, pos: nat, id: u64, level: u8) -> Parsed<ExprView>
    decreases remaining(tokens, pos), infix_rank(level),
{
    if level > FACTOR_LEVEL {
        unary(tokens, pos, id)
    } else {
        match operand(tokens, pos, id, level) {
            Ok(left) => match infix_rest(tokens, pos + left.used, left.id, level, left.value) {
                Ok(rest) => Ok(Step { used: rest.used + left.used, ..rest }),
                Err(e) => Err(e),
            },
            Err(e) => Err(e),
        }
    }
}

/// An assignment to a variable or a property, or an expression of infix operators.
#[verifier::opaque]
pub open spec fn assignment(tokens: Seq<Token>, pos: nat, id: u64) -> Parsed<ExprView>
    decreases remaining(tokens, pos), 21nat,
{
    match infix(tokens, pos, id, OR_LEVEL) {
        Ok(target) => if kind_at(tokens, pos + target.used) == TokenType::EQUAL {
            match assignment(tokens, pos + target.used + 1, target.id) {
                Ok(value) => match target.value {
                    ExprView::Var { id: _, name } => Ok(
                        Step {
                            value: ExprView::Assign {
                                id: value.id,
                                name,
                                value: Box::new(value.value),
                            },
                            used: target.used + 1 + value.used,
                            id: next_id(value.id),
                        },
                    ),
                    ExprView::Get { id: _, expr, name } => Ok(
                        Step {
                            value: ExprView::SetExpr {
                                id: value.id,
                                expr,
                                name,
                                value: Box::new(value.value),
                            },
                            used: target.used + 1 + value.used,
                            id: next_id(value.id),
                        },
                    ),
                    _ => Err(
                        ParseError {
                            kind: ParseErrorKind::InvalidAssignmentTarget,
                            token: token_at(tokens, pos + target.used),
                        },
                    ),
                },
                Err(e) => Err(e),
            }
        } else {
            Ok(target)
        },
        Err(e) => Err(e),
    }
}

/// An expression.
#[verifier::opaque]
pub open spec fn expression(tokens: Seq<Token>, pos: nat, id: u64) -> Parsed<ExprView>
    decreases remaining(tokens, pos), 22nat,
{
    assignment(tokens, pos, id)
}

/// An expression statement: an expression and a semicolon.
#[verifier::opaque]
pub open spec fn expr_stmt(tokens: Seq<Token>, pos: nat, id: u64) -> Parsed<StmtView>
    decreases remaining(tokens, pos), 25nat,
{
    match expression(tokens, pos, id) {
        Ok(e) => match expect(
            tokens,
            pos + e.used,
            TokenType::SEMICOLON,
            ParseErrorKind::ExpectSemicolonAfterValue,
        ) {
            Ok(_) => Ok(Step { value: StmtView::ExprStmt(e.value), used: e.used + 1, id: e.id }),
            Err(e) => Err(e),
        },
        Err(e) => Err(e),
    }
}

/// A variable declaration, from after `var`.
#[verifier::opaque]
pub open spec fn var_decl(tokens: Seq<Token>, pos: nat, id: u64) -> Parsed<StmtView>
    decreases remaining(tokens, pos), 25nat,
{
    match expect(tokens, pos, TokenType::IDENTIFIER, ParseErrorKind::ExpectVariableName) {
        Ok(name) => if kind_at(tokens, pos + 1) == TokenType::EQUAL {
            match expression(tokens, pos + 2, id) {
                Ok(init) => match expect(
                    tokens,
                    pos + 2 + init.used,
                    TokenType::SEMICOLON,
                    ParseErrorKind::ExpectSemicolonAfterValue,
                ) {
                    Ok(_) => Ok(
                        Step {
                            value: StmtView::Var { token: name, initializer: Some(init.value) },
                            used: init.used + 3,
                            id: init.id,
                        },
                    ),
                    Err(e) => Err(e),
                },
                Err(e) => Err(e),
            }
        } else {
            match expect(
                tokens,
                pos + 1,
                TokenType::SEMICOLON,
                ParseErrorKind::ExpectSemicolonAfterValue,
            ) {
                Ok(_) => Ok(
                    Step { value: StmtView::Var { token: name, initializer: None }, used: 2, id },
                ),
                Err(e) => Err(e),
            }
        },
        Err(e) => Err(e),
    }
}

/// A return statement, from after its keyword `keyword`.
#[verifier::opaque]
pub open spec fn return_stmt(tokens: Seq<Token>, pos: nat, id: u64, keyword: Token) -> Parsed<
    StmtView,
>
    decreases remaining(tokens, pos), 25nat,
{
    if kind_at(tokens, pos) == TokenType::SEMICOLON {
        Ok(Step { value: StmtView::Return { keyword, value: None }, used: 1, id })
    } else {
        match expression(tokens, pos, id) {
            Ok(v) => match expect(
                tokens,
                pos + v.used,
                TokenType::SEMICOLON,
                ParseErrorKind::ExpectSemicolonAfterReturn,
            ) {
                Ok(_) => Ok(
                    Step {
                        value: StmtView::Return { keyword, value: Some(v.value) },
                        used: v.used + 1,
                        id: v.id,
                    },
                ),
                Err(e) => Err(e),
            },
            Err(e) => Err(e),
        }
    }
}

/// The statements of a block after those in `found`, up to the closing brace
/// or the end of the file. Every declaration takes at least one token.
#[verifier::opaque]
pub open spec fn block_rest(tokens: Seq<Token>, pos: nat, id: u64, found: Seq<StmtView>)
    -> Parsed<Seq<StmtView>>
    decreases remaining(tokens, pos), 30nat,
{
    if kind_at(tokens, pos) == TokenType::EOF || kind_at(tokens, pos) == TokenType::RIGHTBRACE {
        Ok(Step { value: found, used: 0, id })
    } else {
        match declaration(tokens, pos, id) {
            Ok(d) => if d.used == 0 {
                Ok(Step { value: found, used: 0, id })
            } else {
                match block_rest(tokens, pos + d.used, d.id, found.push(d.value)) {
                    Ok(rest) => Ok(Step { used: rest.used + d.used, ..rest }),
                    Err(e) => Err(e),
                }
            },
            Err(e) => Err(e),
        }
    }
}

/// A block, from after its opening brace: statements and the closing brace.
#[verifier::opaque]
pub open spec fn block(tokens: Seq<Token>, pos: nat, id: u64) -> Parsed<Seq<StmtView>>
    decreases remaining(tokens, pos), 31nat,
{
    match block_rest(tokens, pos, id, Seq::empty()) {
        Ok(b) => match expect(
            tokens,
            pos + b.used,
            TokenType::RIGHTBRACE,
            ParseErrorKind::ExpectBraceAfterBlock,
        ) {
            Ok(_) => Ok(Step { used: b.used + 1, ..b }),
            Err(e) => Err(e),
        },
        Err(e) => Err(e),
    }
}

/// An `if` statement, from after `if`.
#[verifier::opaque]
pub open spec fn if_stmt(tokens: Seq<Token>, pos: nat, id: u64) -> Parsed<StmtView>
    decreases remaining(tokens, pos), 25nat,
{
    match expect(tokens, pos, TokenType::LEFTPAREN, ParseErrorKind::ExpectParenAfterIf) {
        Ok(_) => match expression(tokens, pos + 1, id) {
            Ok(c) => match expect(
                tokens,
                pos + 1 + c.used,
                TokenType::RIGHTPAREN,
                ParseErrorKind::ExpectParenAfterCondition,
            ) {
                Ok(_) => match statement(tokens, pos + c.used + 2, c.id) {
                    Ok(then) => {
                        let after = pos + c.used + 2 + then.used;
                        if kind_at(tokens, after) == TokenType::ELSE {
                            match statement(tokens, after + 1, then.id) {
                                Ok(other) => Ok(
                                    Step {
                                        value: StmtView::If {
                                            condition: c.value,
                                            then_block: Box::new(then.value),
                                            else_block: Some(Box::new(other.value)),
                                        },
                                        used: c.used + then.used + other.used + 3,
                                        id: other.id,
                                    },
                                ),
                                Err(e) => Err(e),
                            }
                        } else {
                            Ok(
                                Step {
                                    value: StmtView::If {
                                        condition: c.value,
                                        then_block: Box::new(then.value),
                                        else_block: None,
                                    },
                                    used: c.used + then.used + 2,
                                    id: then.id,
                                },
                            )
                        }
                    },
                    Err(e) => Err(e),
                },
                Err(e) => Err(e),
            },
            Err(e) => Err(e),
        },
        Err(e) => Err(e),
    }
}

/// A `while` statement, from after `while`.
#[verifier::opaque]
pub open spec fn while_stmt(tokens: Seq<Token>, pos: nat, id: u64) -> Parsed<StmtView>
    decreases remaining(tokens, pos), 25nat,
{
    match expect(tokens, pos, TokenType::LEFTPAREN, ParseErrorKind::ExpectParenAfterWhile) {
        Ok(_) => match expression(tokens, pos + 1, id) {
            Ok(c) => match expect(
                tokens,
                pos + 1 + c.used,
                TokenType::RIGHTPAREN,
                ParseErrorKind::ExpectParenAfterCondition,
            ) {
                Ok(_) => match statement(tokens, pos + c.used + 2, c.id) {
                    Ok(body) => Ok(
                        Step {
                            value: StmtView::While {
                                condition: c.value,
                                body: Box::new(body.value),
                            },
                            used: c.used + body.used + 2,
                            id: body.id,
                        },
                    ),
                    Err(e) => Err(e),
                },
                Err(e) => Err(e),
            },
            Err(e) => Err(e),
        },
        Err(e) => Err(e),
    }
}

/// The first clause of a `for` statement: nothing but a semicolon, a
/// variable declaration, or an expression statement.
#[verifier::opaque]
pub open spec fn for_initializer(tokens: Seq<Token>, pos: nat, id: u64) -> Parsed<
    Option<StmtView>,
>
    decreases remaining(tokens, pos), 26nat,
{
    if kind_at(tokens, pos) == TokenType::SEMICOLON {
        Ok(Step { value: None, used: 1, id })
    } else if kind_at(tokens, pos) == TokenType::VAR {
        match var_decl(tokens, pos + 1, id) {
            Ok(v) => Ok(Step { value: Some(v.value), used: v.used + 1, id: v.id }),
            Err(e) => Err(e),
        }
    } else {
        match expr_stmt(tokens, pos, id) {
            Ok(s) => Ok(Step { value: Some(s.value), used: s.used, id: s.id }),
            Err(e) => Err(e),
        }
    }
}

/// An expression unless the token at `pos` is of the kind `end`.
#[verifier::opaque]
pub open spec fn optional_expression(tokens: Seq<Token>, pos: nat, id: u64, end: TokenType)
    -> Parsed<Option<ExprView>>
    decreases remaining(tokens, pos), 26nat,
{
    if kind_at(tokens, pos) == end {
        Ok(Step { value: None, used: 0, id })
    } else {
        match expression(tokens, pos, id) {
            Ok(e) => Ok(Step { value: Some(e.value), used: e.used, id: e.id }),
            Err(e) => Err(e),
        }
    }
}

/// What a `for` statement with the given clauses and body stands for: the
/// body and the increment in a block, looped while the condition holds, or
/// for ever without one, after the initializer in a block around it all. A
/// missing condition is the literal `true` with the identity `id`.
pub open spec fn for_loop(
    initializer: Option<StmtView>,
    condition: Option<ExprView>,
    increment: Option<ExprView>,
    body: StmtView,
    id: u64,
) -> StmtView {
    let stepped = match increment {
        Some(i) => StmtView::Block { stmts: seq![body, StmtView::ExprStmt(i)] },
        None => body,
    };
    let looped = StmtView::While {
        condition: match condition {
            Some(c) => c,
            None => ExprView::Literal { id, value: Object::Bool(true) },
        },
        body: Box::new(stepped),
    };
    match initializer {
        Some(i) => StmtView::Block { stmts: seq![i, looped] },
        None => looped,
    }
}

/// A `for` statement, from after `for`.
#[verifier::opaque]
pub open spec fn for_stmt(tokens: Seq<Token>, pos: nat, id: u64) -> Parsed<StmtView>
    decreases remaining(tokens, pos), 25nat,
{
    match expect(tokens, pos, TokenType::LEFTPAREN, ParseErrorKind::ExpectParenAfterFor) {
        Ok(_) => match for_initializer(tokens, pos + 1, id) {
            Ok(init) => {
                let at_condition = pos + 1 + init.used;
                match optional_expression(tokens, at_condition, init.id, TokenType::SEMICOLON) {
                    Ok(cond) => match expect(
                        tokens,
                        at_condition + cond.used,
                        TokenType::SEMICOLON,
                        ParseErrorKind::ExpectSemicolonAfterLoopCondition,
                    ) {
                        Ok(_) => {
                            let at_increment = at_condition + cond.used + 1;
                            match optional_expression(tokens, at_increment, cond.id, TokenType::RIGHTPAREN) {
                                Ok(incr) => match expect(
                                    tokens,
                                    at_increment + incr.used,
                                    TokenType::RIGHTPAREN,
                                    ParseErrorKind::ExpectParenAfterForClauses,
                                ) {
                                    Ok(_) => {
                                        let at_body = at_increment + incr.used + 1;
                                        match statement(tokens, at_body, incr.id) {
                                            Ok(body) => Ok(
                                                Step {
                                                    value: for_loop(
                                                        init.value,
                                                        cond.value,
                                                        incr.value,
                                                        body.value,
                                                        body.id,
                                                    ),
                                                    used: init.used + cond.used + incr.used
                                                        + body.used + 3,
                                                    id: if cond.value is None {
                                                        next_id(body.id)
                                                    } else {
                                                        body.id
                                                    },
                                                },
                                            ),
                                            Err(e) => Err(e),
                                        }
                                    },
                                    Err(e) => Err(e),
                                },
                                Err(e) => Err(e),
                            }
                        },
                        Err(e) => Err(e),
                    },
                    Err(e) => Err(e),
                }
            },
            Err(e) => Err(e),
        },
        Err(e) => Err(e),
    }
}

/// The parameters of a function after those in `found`: each follows a comma.
pub open spec fn params_rest(tokens: Seq<Token>, pos: nat, found: Seq<Token>) -> Result<
    (Seq<Token>, nat),
    ParseError,
>
    decreases remaining(tokens, pos),
{
    if kind_at(tokens, pos) == TokenType::COMMA {
        match expect(tokens, pos + 1, TokenType::IDENTIFIER, ParseErrorKind::ExpectParameterName) {
            Ok(name) => match params_rest(tokens, pos + 2, found.push(name)) {
                Ok((all, used)) => Ok((all, used + 2)),
                Err(e) => Err(e),
            },
            Err(e) => Err(e),
        }
    } else {
        Ok((found, 0))
    }
}

/// The parameters of a function up to the closing parenthesis.
pub open spec fn params(tokens: Seq<Token>, pos: nat) -> Result<(Seq<Token>, nat), ParseError> {
    if kind_at(tokens, pos) == TokenType::RIGHTPAREN {
        Ok((Seq::empty(), 0))
    } else {
        match expect(tokens, pos, TokenType::IDENTIFIER, ParseErrorKind::ExpectParameterName) {
            Ok(name) => match params_rest(tokens, pos + 1, seq![name]) {
                Ok((all, used)) => Ok((all, used + 1)),
                Err(e) => Err(e),
            },
            Err(e) => Err(e),
        }
    }
}

/// A function or a method: a name, parameters in parentheses, and a block.
#[verifier::opaque]
pub open spec fn function(tokens: Seq<Token>, pos: nat, id: u64) -> Parsed<FuncView>
    decreases remaining(tokens, pos), 25nat,
{
    match expect(tokens, pos, TokenType::IDENTIFIER, ParseErrorKind::ExpectFunctionName) {
        Ok(name) => match expect(
            tokens,
            pos + 1,
            TokenType::LEFTPAREN,
            ParseErrorKind::ExpectParenAfterFunctionName,
        ) {
            Ok(_) => match params(tokens, pos + 2) {
                Ok((names, used)) => match expect(
                    tokens,
                    pos + 2 + used,
                    TokenType::RIGHTPAREN,
                    ParseErrorKind::ExpectParenAfterParameters,
                ) {
                    Ok(_) => match expect(
                        tokens,
                        pos + 3 + used,
                        TokenType::LEFTBRACE,
                        ParseErrorKind::ExpectBraceBeforeBody,
                    ) {
                        Ok(_) => match block(tokens, pos + 4 + used, id) {
                            Ok(body) => Ok(
                                Step {
                                    value: FuncView { name, params: names, body: body.value },
                                    used: used + body.used + 4,
                                    id: body.id,
                                },
                            ),
                            Err(e) => Err(e),
                        },
                        Err(e) => Err(e),
                    },
                    Err(e) => Err(e),
                },
                Err(e) => Err(e),
            },
            Err(e) => Err(e),
        },
        Err(e) => Err(e),
    }
}

/// The methods of a class after those in `found`, up to the closing brace or
/// the end of the file.
#[verifier::opaque]
pub open spec fn methods_rest(tokens: Seq<Token>, pos: nat, id: u64, found: Seq<FuncView>)
    -> Parsed<Seq<FuncView>>
    decreases remaining(tokens, pos), 30nat,
{
    if kind_at(tokens, pos) == TokenType::EOF || kind_at(tokens, pos) == TokenType::RIGHTBRACE {
        Ok(Step { value: found, used: 0, id })
    } else {
        match function(tokens, pos, id) {
            Ok(f) => if f.used == 0 {
                Ok(Step { value: found, used: 0, id })
            } else {
                match methods_rest(tokens, pos + f.used, f.id, found.push(f.value)) {
                    Ok(rest) => Ok(Step { used: rest.used + f.used, ..rest }),
                    Err(e) => Err(e),
                }
            },
            Err(e) => Err(e),
        }
    }
}

/// A class declaration, from after `class`: a name and methods in braces.
#[verifier::opaque]
pub open spec fn class_decl(tokens: Seq<Token>, pos: nat, id: u64) -> Parsed<StmtView>
    decreases remaining(tokens, pos), 25nat,
{
    match expect(tokens, pos, TokenType::IDENTIFIER, ParseErrorKind::ExpectClassName) {
        Ok(name) => match expect(
            tokens,
            pos + 1,
            TokenType::LEFTBRACE,
            ParseErrorKind::ExpectBraceBeforeClassBody,
        ) {
            Ok(_) => match methods_rest(tokens, pos + 2, id, Seq::empty()) {
                Ok(methods) => match expect(
                    tokens,
                    pos + 2 + methods.used,
                    TokenType::RIGHTBRACE,
                    ParseErrorKind::ExpectBraceAfterClassBody,
                ) {
                    Ok(_) => Ok(
                        Step {
                            value: StmtView::Class { name, methods: methods.value },
                            used: methods.used + 3,
                            id: methods.id,
                        },
                    ),
                    Err(e) => Err(e),
                },
                Err(e) => Err(e),
            },
            Err(e) => Err(e),
        },
        Err(e) => Err(e),
    }
}

/// A statement.
#[verifier::opaque]
pub open spec fn statement(tokens: Seq<Token>, pos: nat, id: u64) -> Parsed<StmtView>
    decreases remaining(tokens, pos), 27nat,
{
    let inner = match kind_at(tokens, pos) {
        TokenType::RETURN => Some(return_stmt(tokens, pos + 1, id, token_at(tokens, pos))),
        TokenType::LEFTBRACE => Some(
            match block(tokens, pos + 1, id) {
                Ok(b) => Ok(
                    Step { value: StmtView::Block { stmts: b.value }, used: b.used, id: b.id },
                ),
                Err(e) => Err(e),
            },
        ),
        TokenType::IF => Some(if_stmt(tokens, pos + 1, id)),
        TokenType::WHILE => Some(while_stmt(tokens, pos + 1, id)),
        TokenType::FOR => Some(for_stmt(tokens, pos + 1, id)),
        _ => None,
    };
    match inner {
        Some(Ok(s)) => Ok(Step { used: s.used + 1, ..s }),
        Some(Err(e)) => Err(e),
        None => expr_stmt(tokens, pos, id),
    }
}

/// A declaration of a class, a function or a variable, or a statement.
#[verifier::opaque]
pub open spec fn declaration(tokens: Seq<Token>, pos: nat, id: u64) -> Parsed<StmtView>
    decreases remaining(tokens, pos), 28nat,
{
    let inner = match kind_at(tokens, pos) {
        TokenType::CLASS => Some(class_decl(tokens, pos + 1, id)),
        TokenType::FUN => Some(
            match function(tokens, pos + 1, id) {
                Ok(f) => Ok(Step { value: StmtView::Func(f.value), used: f.used, id: f.id }),
                Err(e) => Err(e),
            },
        ),
        TokenType::VAR => Some(var_decl(tokens, pos + 1, id)),
        _ => None,
    };
    match inner {
        Some(Ok(s)) => Ok(Step { used: s.used + 1, ..s }),
        Some(Err(e)) => Err(e),
        None => statement(tokens, pos, id),
    }
}

/// The declarations of a program after those in `found`, up to the end of the file.
#[verifier::opaque]
pub open spec fn program_rest(tokens: Seq<Token>, pos: nat, id: u64, found: Seq<StmtView>)
    -> Parsed<Seq<StmtView>>
    decreases remaining(tokens, pos), 30nat,
{
    if kind_at(tokens, pos) == TokenType::EOF {
        Ok(Step { value: found, used: 0, id })
    } else {
        match declaration(tokens, pos, id) {
            Ok(d) => if d.used == 0 {
                Ok(Step { value: found, used: 0, id })
            } else {
                match program_rest(tokens, pos + d.used, d.id, found.push(d.value)) {
                    Ok(rest) => Ok(Step { used: rest.used + d.used, ..rest }),
                    Err(e) => Err(e),
                }
            },
            Err(e) => Err(e),
        }
    }
}

/// What was parsed, with `by` tokens more taken before it.
pub open spec fn shifted<V>(rest: Parsed<V>, by: nat) -> Parsed<V> {
    match rest {
        Ok(step) => Ok(Step { used: step.used + by, ..step }),
        Err(e) => Err(e),
    }
}

/// What follows a primary expression; see [`call_rest`].
#[verifier::opaque]
pub open spec fn call_tail(tokens: Seq<Token>, pos: nat, id: u64, expr: ExprView) -> Parsed<
    ExprView,
> {
    call_rest(tokens, pos, id, expr)
}

/// The arguments of a call after the first; see [`arguments_rest`].
#[verifier::opaque]
pub open spec fn arguments_tail(tokens: Seq<Token>, pos: nat, id: u64, found: Seq<ExprView>)
    -> Parsed<Seq<ExprView>> {
    arguments_rest(tokens, pos, id, found)
}

/// The statements of a block; see [`block_rest`].
#[verifier::opaque]
pub open spec fn block_tail(tokens: Seq<Token>, pos: nat, id: u64, found: Seq<StmtView>)
    -> Parsed<Seq<StmtView>> {
    block_rest(tokens, pos, id, found)
}

/// The methods of a class; see [`methods_rest`].
#[verifier::opaque]
pub open spec fn methods_tail(tokens: Seq<Token>, pos: nat, id: u64, found: Seq<FuncView>)
    -> Parsed<Seq<FuncView>> {
    methods_rest(tokens, pos, id, found)
}

/// The declarations of a program; see [`program_rest`].
#[verifier::opaque]
pub open spec fn program_tail(tokens: Seq<Token>, pos: nat, id: u64, found: Seq<StmtView>)
    -> Parsed<Seq<StmtView>> {
    program_rest(tokens, pos, id, found)
}

/// One round of a loop that parses a list: `before` is what the rest of the
/// list amounts to when the round begins, `after` what it amounts to when the
/// round ends, `value` what is collected so far, and `got` whether the list
/// goes on. A round that goes on takes a token; one that does not takes
/// nothing.
pub open spec fn stepped<V>(
    pre: Parser,
    post: Parser,
    before: Parsed<V>,
    after: Parsed<V>,
    value: V,
    got: Result<bool, ParseError>,
) -> bool {
    match got {
        Ok(more) => {
            &&& post.position() >= pre.position()
            &&& post.next_identity() - pre.next_identity() <= post.position() - pre.position()
            &&& before == shifted(after, (post.position() - pre.position()) as nat)
            &&& more ==> post.position() > pre.position()
            &&& !more ==> post.position() == pre.position() && post.next_identity()
                == pre.next_identity() && after == Ok::<Step<V>, ParseError>(
                Step { value, used: 0, id: post.next_identity() },
            )
        },
        Err(e) => before == Err::<Step<V>, ParseError>(e),
    }
}

/// The state of a loop that parses a list, between two rounds: `expected` is
/// what the whole list amounts to from where the loop began, `rest` what
/// the rest of it amounts to from here.
pub open spec fn looping<V>(
    start: Parser,
    now: Parser,
    expected: Parsed<V>,
    rest: Parsed<V>,
    value: V,
    more: bool,
    failure: Option<ParseError>,
) -> bool {
    match failure {
        Some(e) => !more && expected == Err::<Step<V>, ParseError>(e),
        None => {
            &&& now.position() >= start.position()
            &&& now.next_identity() - start.next_identity() <= now.position() - start.position()
            &&& expected == shifted(rest, (now.position() - start.position()) as nat)
            &&& !more ==> rest == Ok::<Step<V>, ParseError>(
                Step { value, used: 0, id: now.next_identity() },
            )
        },
    }
}

/// The parser: the tokens, the position of the next one, and the next unused
/// expression identity.
pub struct Parser {
    tokens: Vec<Token>,
    current: usize,
    new_id: u64,
}

/// The parser has gone from `pre` to `post` and given `got`, as `expected`
/// says: on success the value, the tokens taken and the identities used are
/// those expected, and no more identities are used than tokens taken; a
/// failure is the expected error.
pub open spec fn parsed<V>(
    pre: Parser,
    post: Parser,
    expected: Parsed<V>,
    got: Result<V, ParseError>,
) -> bool {
    &&& post.tokens() == pre.tokens()
    &&& match expected {
        Ok(step) => {
            &&& got == Ok::<V, ParseError>(step.value)
            &&& post.position() == pre.position() + step.used
            &&& post.next_identity() == step.id
            &&& step.id - pre.next_identity() <= step.used
        },
        Err(e) => got == Err::<V, ParseError>(e),
    }
}

/// The result of parsing an expression, as a mathematical value.
pub open spec fn expr_result(r: Result<Expr, ParseError>) -> Result<ExprView, ParseError> {
    match r {
        Ok(e) => Ok(e@),
        Err(e) => Err(e),
    }
}

/// The result of parsing a statement, as a mathematical value.
pub open spec fn stmt_result(r: Result<Stmt, ParseError>) -> Result<StmtView, ParseError> {
    match r {
        Ok(s) => Ok(s@),
        Err(e) => Err(e),
    }
}

/// The result of parsing a list of statements, as a mathematical value.
pub open spec fn stmts_result(r: Result<Vec<Stmt>, ParseError>) -> Result<
    Seq<StmtView>,
    ParseError,
> {
    match r {
        Ok(s) => Ok(stmts_view(s@)),
        Err(e) => Err(e),
    }
}

/// The result of parsing a function, as a mathematical value.
pub open spec fn func_result(r: Result<Func, ParseError>) -> Result<FuncView, ParseError> {
    match r {
        Ok(f) => Ok(f@),
        Err(e) => Err(e),
    }
}

impl Parser {
    /// The tokens.
    pub closed spec fn tokens(&self) -> Seq<Token> {
        self.tokens@
    }

    /// The position of the next token.
    pub closed spec fn position(&self) -> nat {
        self.current as nat
    }

    /// The next unused expression identity.
    pub closed spec fn next_identity(&self) -> u64 {
        self.new_id
    }

    /// The parser's invariant: the position lies in the list of tokens or at
    /// its end, and no more identities are used than tokens are taken.
    pub closed spec fn wf(&self) -> bool {
        self.current <= self.tokens@.len() && self.new_id <= self.current
    }

    /// A parser at the start of `tokens`, with no identity used.
    pub fn new(tokens: Vec<Token>) -> (r: Self)
        ensures
            r.wf(),
            r.tokens() == tokens@,
            r.position() == 0,
            r.next_identity() == 0,
    {
        Self { tokens, current: 0, new_id: 0 }
    }

    fn peek(&self) -> (r: Token)
        requires
            self.wf(),
        ensures
            r == token_at(self.tokens(), self.position()),
    {
        if self.current < self.tokens.len() {
            self.tokens[self.current].clone()
        } else {
            Token::new(TokenType::EOF, 0, None, Object::Nil)
        }
    }

    fn peek_type(&self) -> (r: TokenType)
        requires
            self.wf(),
        ensures
            r == kind_at(self.tokens(), self.position()),
    {
        if self.current < self.tokens.len() {
            self.tokens[self.current].token_type
        } else {
            TokenType::EOF
        }
    }

    fn is_at_end(&self) -> (r: bool)
        requires
            self.wf(),
        ensures
            r == (kind_at(self.tokens(), self.position()) == TokenType::EOF),
    {
        self.peek_type() == TokenType::EOF
    }

    fn check(&self, token_type: TokenType) -> (r: bool)
        requires
            self.wf(),
        ensures
            r == (kind_at(self.tokens(), self.position()) == token_type),
    {
        self.peek_type() == token_type
    }

    /// Takes the token at the position, which is not the end of the file.
    fn advance(&mut self) -> (r: Token)
        requires
            old(self).wf(),
            kind_at(old(self).tokens(), old(self).position()) != TokenType::EOF,
        ensures
            final(self).wf(),
            r == token_at(old(self).tokens(), old(self).position()),
            final(self).tokens() == old(self).tokens(),
            final(self).position() == old(self).position() + 1,
            final(self).position() <= old(self).tokens().len(),
            final(self).next_identity() == old(self).next_identity(),
            final(self).next_identity() < final(self).position(),
    {
        assert(self.tokens@.len() == self.tokens.len());
        let token = self.tokens[self.current].clone();
        self.current += 1;
        token
    }

    /// Takes the token at the position if it is of the kind `token_type`.
    fn consume(&mut self, token_type: TokenType, error: ParseErrorKind) -> (r: Result<
        Token,
        ParseError,
    >)
        requires
            old(self).wf(),
            token_type != TokenType::EOF,
        ensures
            final(self).wf(),
            final(self).tokens() == old(self).tokens(),
            final(self).next_identity() == old(self).next_identity(),
            r == expect(old(self).tokens(), old(self).position(), token_type, error),
            r is Ok ==> final(self).position() == old(self).position() + 1
                && final(self).next_identity() < final(self).position(),
    {
        if self.check(token_type) {
            Ok(self.advance())
        } else {
            Err(ParseError { kind: error, token: self.peek() })
        }
    }

    /// Uses the next identity; a token was taken for it before.
    fn get_new_id(&mut self) -> (r: u64)
        requires
            old(self).wf(),
            old(self).next_identity() < old(self).position(),
        ensures
            final(self).wf(),
            r == old(self).next_identity(),
            final(self).next_identity() == next_id(r),
            final(self).next_identity() == r + 1,
            final(self).tokens() == old(self).tokens(),
            final(self).position() == old(self).position(),
    {
        let id = self.new_id;
        self.new_id += 1;
        id
    }

    fn primary(&mut self) -> (r: Result<Expr, ParseError>)
        requires
            old(self).wf(),
        ensures
            final(self).wf(),
            parsed(
                *old(self),
                *final(self),
                primary(old(self).tokens(), old(self).position(), old(self).next_identity()),
                expr_result(r),
            ),
            r is Ok ==> final(self).position() > old(self).position(),
        decreases remaining(old(self).tokens(), old(self).position()), 1nat,
    {
        reveal(self::primary);
        reveal(self::expression);
        match self.peek_type() {
            TokenType::FALSE => {
                self.advance();
                Ok(Expr::Literal(Literal { id: self.get_new_id(), value: Object::Bool(false) }))
            },
            TokenType::TRUE => {
                self.advance();
                Ok(Expr::Literal(Literal { id: self.get_new_id(), value: Object::Bool(true) }))
            },
            TokenType::NIL => {
                self.advance();
                Ok(Expr::Literal(Literal { id: self.get_new_id(), value: Object::Nil }))
            },
            TokenType::NUMBER => {
                let token = self.advance();
                Ok(Expr::Literal(Literal { id: self.get_new_id(), value: token.literal }))
            },
            TokenType::STRING => {
                let token = self.advance();
                Ok(Expr::Literal(Literal { id: self.get_new_id(), value: token.literal }))
            },
            TokenType::THIS => {
                let keyword = self.advance();
                Ok(Expr::This(This { id: self.get_new_id(), keyword }))
            },
            TokenType::IDENTIFIER => {
                let name = self.advance();
                Ok(Expr::Var(Variable { id: self.get_new_id(), name }))
            },
            TokenType::LEFTPAREN => {
                self.advance();
                let expr = match self.expression() {
                    Ok(e) => e,
                    Err(e) => {
                        return Err(e);
                    },
                };
                match self.consume(
                    TokenType::RIGHTPAREN,
                    ParseErrorKind::ExpectParenAfterExpression,
                ) {
                    Ok(_) => {},
                    Err(e) => {
                        return Err(e);
                    },
                }
                Ok(Expr::Grouping(Grouping { id: self.get_new_id(), expr: Box::new(expr) }))
            },
            _ => Err(ParseError { kind: ParseErrorKind::ExpectExpression, token: self.peek() }),
        }
    }

    /// Parses one more argument of a call, if a comma follows, and says whether it did.
    fn argument(&mut self, found: &mut Vec<Expr>) -> (r: Result<bool, ParseError>)
        requires
            old(self).wf(),
        ensures
            final(self).wf(),
            final(self).tokens() == old(self).tokens(),
            stepped(
                *old(self),
                *final(self),
                arguments_tail(
                    old(self).tokens(),
                    old(self).position(),
                    old(self).next_identity(),
                    exprs_view(old(found)@),
                ),
                arguments_tail(
                    old(self).tokens(),
                    final(self).position(),
                    final(self).next_identity(),
                    exprs_view(final(found)@),
                ),
                exprs_view(final(found)@),
                r,
            ),
        decreases remaining(old(self).tokens(), old(self).position()), 23nat,
    {
        reveal(self::arguments_rest);
        reveal(self::expression);
        reveal(arguments_tail);
        if self.check(TokenType::COMMA) {
            self.advance();
            match self.expression() {
                Ok(e) => {
                    found.push(e);
                    assert(exprs_view(found@) =~= exprs_view(old(found)@).push(e@));
                    Ok(true)
                },
                Err(e) => Err(e),
            }
        } else {
            Ok(false)
        }
    }

    /// Parses the arguments of a call up to the closing parenthesis.
    fn arguments(&mut self) -> (r: Result<Vec<Expr>, ParseError>)
        requires
            old(self).wf(),
        ensures
            final(self).wf(),
            parsed(
                *old(self),
                *final(self),
                arguments(old(self).tokens(), old(self).position(), old(self).next_identity()),
                match r {
                    Ok(found) => Ok(exprs_view(found@)),
                    Err(e) => Err(e),
                },
            ),
        decreases remaining(old(self).tokens(), old(self).position()), 24nat,
    {
        reveal(self::arguments);
        reveal(self::arguments_rest);
        reveal(self::expression);
        let mut found: Vec<Expr> = Vec::new();
        if self.check(TokenType::RIGHTPAREN) {
            assert(exprs_view(found@) =~= Seq::<ExprView>::empty());
            return Ok(found);
        }
        match self.expression() {
            Ok(e) => {
                found.push(e);
            },
            Err(e) => {
                return Err(e);
            },
        }
        assert(exprs_view(found@) =~= seq![found@[0]@]);
        let ghost tokens = self.tokens();
        let ghost start = *self;
        let ghost expected = arguments_tail(
            tokens,
            self.position(),
            self.next_identity(),
            exprs_view(found@),
        );
        let mut failure: Option<ParseError> = None;
        let mut more = true;
        while more
            invariant
                self.wf(),
                self.tokens() == tokens,
                tokens == old(self).tokens(),
                start.position() > old(self).position(),
                looping(
                    start,
                    *self,
                    expected,
                    arguments_tail(
                        tokens,
                        self.position(),
                        self.next_identity(),
                        exprs_view(found@),
                    ),
                    exprs_view(found@),
                    more,
                    failure,
                ),
            decreases if more { remaining(tokens, self.position()) + 1 } else { 0nat },
        {
            match self.argument(&mut found) {
                Ok(again) => {
                    more = again;
                },
                Err(e) => {
                    failure = Some(e);
                    more = false;
                },
            }
        }
        reveal(arguments_tail);
        match failure {
            Some(e) => Err(e),
            None => Ok(found),
        }
    }

    fn finish_call(&mut self, calle: Expr) -> (r: Result<Expr, ParseError>)
        requires
            old(self).wf(),
            old(self).next_identity() < old(self).position(),
        ensures
            final(self).wf(),
            parsed(
                *old(self),
                *final(self),
                finish_call(
                    old(self).tokens(),
                    old(self).position(),
                    old(self).next_identity(),
                    calle@,
                ),
                expr_result(r),
            ),
            r is Ok ==> final(self).next_identity() < final(self).position(),
        decreases remaining(old(self).tokens(), old(self).position()), 25nat,
    {
        reveal(self::finish_call);
        reveal(self::arguments);
        let arguments = match self.arguments() {
            Ok(found) => found,
            Err(e) => {
                return Err(e);
            },
        };
        let paren = match self.consume(
            TokenType::RIGHTPAREN,
            ParseErrorKind::ExpectParenAfterArguments,
        ) {
            Ok(t) => t,
            Err(e) => {
                return Err(e);
            },
        };
        let id = self.get_new_id();
        let call = Expr::Call(Call { id, calle: Box::new(calle), paren, arguments });
        assert(call@->Call_arguments =~= exprs_view(arguments@));
        Ok(call)
    }

    /// Parses one call or property read after the expression `expr`, if one
    /// follows, and says whether it did.
    fn call_step(&mut self, expr: Expr) -> (r: Result<(Expr, bool), ParseError>)
        requires
            old(self).wf(),
        ensures
            final(self).wf(),
            final(self).tokens() == old(self).tokens(),
            stepped(
                *old(self),
                *final(self),
                call_tail(
                    old(self).tokens(),
                    old(self).position(),
                    old(self).next_identity(),
                    expr@,
                ),
                call_tail(
                    old(self).tokens(),
                    final(self).position(),
                    final(self).next_identity(),
                    match r {
                        Ok((next, _)) => next@,
                        Err(_) => expr@,
                    },
                ),
                match r {
                    Ok((next, _)) => next@,
                    Err(_) => expr@,
                },
                match r {
                    Ok((_, more)) => Ok(more),
                    Err(e) => Err(e),
                },
            ),
            r matches Ok((next, more)) ==> !more ==> next == expr,
        decreases remaining(old(self).tokens(), old(self).position()), 0nat,
    {
        reveal(self::call_rest);
        reveal(self::finish_call);
        reveal(call_tail);
        if self.check(TokenType::LEFTPAREN) {
            self.advance();
            match self.finish_call(expr) {
                Ok(e) => Ok((e, true)),
                Err(e) => Err(e),
            }
        } else if self.check(TokenType::DOT) {
            self.advance();
            let name = match self.consume(
                TokenType::IDENTIFIER,
                ParseErrorKind::ExpectPropertyName,
            ) {
                Ok(t) => t,
                Err(e) => {
                    return Err(e);
                },
            };
            let id = self.get_new_id();
            Ok((Expr::Get(Get { id, expr: Box::new(expr), name }), true))
        } else {
            Ok((expr, false))
        }
    }

    fn call(&mut self) -> (r: Result<Expr, ParseError>)
        requires
            old(self).wf(),
        ensures
            final(self).wf(),
            parsed(
                *old(self),
                *final(self),
                call(old(self).tokens(), old(self).position(), old(self).next_identity()),
                expr_result(r),
            ),
            r is Ok ==> final(self).position() > old(self).position(),
        decreases remaining(old(self).tokens(), old(self).position()), 2nat,
    {
        reveal(self::call);
        reveal(self::call_rest);
        reveal(self::primary);
        let mut expr = match self.primary() {
            Ok(e) => e,
            Err(e) => {
                return Err(e);
            },
        };
        let ghost tokens = self.tokens();
        let ghost start = *self;
        let ghost expected = call_tail(tokens, self.position(), self.next_identity(), expr@);
        let mut failure: Option<ParseError> = None;
        let mut more = true;
        while more
            invariant
                self.wf(),
                self.tokens() == tokens,
                tokens == old(self).tokens(),
                start.position() > old(self).position(),
                looping(
                    start,
                    *self,
                    expected,
                    call_tail(tokens, self.position(), self.next_identity(), expr@),
                    expr@,
                    more,
                    failure,
                ),
            decreases if more { remaining(tokens, self.position()) + 1 } else { 0nat },
        {
            match self.call_step(expr) {
                Ok((next, again)) => {
                    expr = next;
                    more = again;
                },
                Err(e) => {
                    failure = Some(e);
                    more = false;
                    expr = Expr::Literal(Literal { id: 0, value: Object::Nil });
                },
            }
        }
        reveal(call_tail);
        match failure {
            Some(e) => Err(e),
            None => Ok(expr),
        }
    }

    fn unary(&mut self) -> (r: Result<Expr, ParseError>)
        requires
            old(self).wf(),
        ensures
            final(self).wf(),
            parsed(
                *old(self),
                *final(self),
                unary(old(self).tokens(), old(self).position(), old(self).next_identity()),
                expr_result(r),
            ),
            r is Ok ==> final(self).position() > old(self).position(),
        decreases remaining(old(self).tokens(), old(self).position()), 3nat,
    {
        reveal(self::unary);
        reveal(self::call);
        if self.check(TokenType::BANG) || self.check(TokenType::MINUS) {
            let operator = self.advance();
            let right = match self.unary() {
                Ok(e) => e,
                Err(e) => {
                    return Err(e);
                },
            };
            Ok(Expr::Unary(Unary { id: self.get_new_id(), operator, right: Box::new(right) }))
        } else {
            self.call()
        }
    }

    fn is_operator(&self, level: u8) -> (r: bool)
        requires
            self.wf(),
        ensures
            r == (operator_of(level, kind_at(self.tokens(), self.position())) && kind_at(
                self.tokens(),
                self.position(),
            ) != TokenType::EOF),
    {
        let kind = self.peek_type();
        if level == OR_LEVEL {
            kind == TokenType::OR
        } else if level == AND_LEVEL {
            kind == TokenType::AND
        } else if level == EQUALITY_LEVEL {
            kind == TokenType::EQUALEQUAL || kind == TokenType::BANGEQUAL
        } else if level == COMPARISON_LEVEL {
            kind == TokenType::GREATER || kind == TokenType::GREATEREQUAL || kind
                == TokenType::LESS || kind == TokenType::LESSEQUAL
        } else if level == TERM_LEVEL {
            kind == TokenType::PLUS || kind == TokenType::MINUS
        } else {
            kind == TokenType::SLASH || kind == TokenType::STAR
        }
    }

    fn operand(&mut self, level: u8) -> (r: Result<Expr, ParseError>)
        requires
            old(self).wf(),
        ensures
            final(self).wf(),
            parsed(
                *old(self),
                *final(self),
                operand(
                    old(self).tokens(),
                    old(self).position(),
                    old(self).next_identity(),
                    level,
                ),
                expr_result(r),
            ),
            r is Ok ==> final(self).position() > old(self).position(),
        decreases remaining(old(self).tokens(), old(self).position()), infix_rank(level) - 1,
    {
        reveal(self::operand);
        reveal(self::unary);
        reveal(self::infix);
        if level >= FACTOR_LEVEL {
            self.unary()
        } else {
            self.infix(level + 1)
        }
    }

    /// Parses an expression of infix operators of the level `level` and tighter ones.
    fn infix(&mut self, level: u8) -> (r: Result<Expr, ParseError>)
        requires
            old(self).wf(),
        ensures
            final(self).wf(),
            parsed(
                *old(self),
                *final(self),
                infix(old(self).tokens(), old(self).position(), old(self).next_identity(), level),
                expr_result(r),
            ),
            r is Ok ==> final(self).position() > old(self).position(),
        decreases remaining(old(self).tokens(), old(self).position()), infix_rank(level),
    {
        reveal(self::infix);
        reveal(self::infix_rest);
        reveal(self::operand);
        reveal(self::unary);
        if level > FACTOR_LEVEL {
            return self.unary();
        }
        let mut expr = match self.operand(level) {
            Ok(e) => e,
            Err(e) => {
                return Err(e);
            },
        };
        let ghost tokens = self.tokens();
        let ghost start = self.position();
        let ghost first = operand(
            tokens,
            old(self).position(),
            old(self).next_identity(),
            level,
        )->Ok_0;
        while self.is_operator(level)
            invariant
                self.wf(),
                level <= FACTOR_LEVEL,
                self.tokens() == tokens,
                tokens == old(self).tokens(),
                self.position() >= start,
                start == old(self).position() + first.used,
                first.used > 0,
                self.next_identity() - old(self).next_identity() <= self.position() - old(self).position(),
                operand(tokens, old(self).position(), old(self).next_identity(), level) == Ok::<
                    Step<ExprView>,
                    ParseError,
                >(first),
                shifted(
                    infix_rest(tokens, self.position(), self.next_identity(), level, expr@),
                    (self.position() - start) as nat,
                ) == infix_rest(tokens, start, first.id, level, first.value),
            decreases remaining(tokens, self.position()),
        {
            reveal(self::infix);
            reveal(self::infix_rest);
            reveal(self::operand);
            reveal(self::unary);
            let operator = self.advance();
            let right = match self.operand(level) {
                Ok(e) => e,
                Err(e) => {
                    return Err(e);
                },
            };
            let id = self.get_new_id();
            expr = if level <= AND_LEVEL {
                Expr::Logical(Logical { id, left: Box::new(expr), operator, right: Box::new(right) })
            } else {
                Expr::Binary(Binary { id, left: Box::new(expr), operator, right: Box::new(right) })
            };
        }
        Ok(expr)
    }

    fn assignment(&mut self) -> (r: Result<Expr, ParseError>)
        requires
            old(self).wf(),
        ensures
            final(self).wf(),
            parsed(
                *old(self),
                *final(self),
                assignment(old(self).tokens(), old(self).position(), old(self).next_identity()),
                expr_result(r),
            ),
            r is Ok ==> final(self).position() > old(self).position(),
        decreases remaining(old(self).tokens(), old(self).position()), 21nat,
    {
        reveal(self::assignment);
        reveal(self::infix);
        let expr = match self.infix(OR_LEVEL) {
            Ok(e) => e,
            Err(e) => {
                return Err(e);
            },
        };
        if self.check(TokenType::EQUAL) {
            let equals = self.advance();
            let value = match self.assignment() {
                Ok(e) => e,
                Err(e) => {
                    return Err(e);
                },
            };
            match expr {
                Expr::Var(v) => Ok(
                    Expr::Assign(
                        Assign { id: self.get_new_id(), name: v.name, value: Box::new(value) },
                    ),
                ),
                Expr::Get(g) => Ok(
                    Expr::SetExpr(
                        SetExpr {
                            id: self.get_new_id(),
                            expr: g.expr,
                            name: g.name,
                            value: Box::new(value),
                        },
                    ),
                ),
                _ => Err(ParseError { kind: ParseErrorKind::InvalidAssignmentTarget, token: equals }),
            }
        } else {
            Ok(expr)
        }
    }

    fn expression(&mut self) -> (r: Result<Expr, ParseError>)
        requires
            old(self).wf(),
        ensures
            final(self).wf(),
            parsed(
                *old(self),
                *final(self),
                expression(old(self).tokens(), old(self).position(), old(self).next_identity()),
                expr_result(r),
            ),
            r is Ok ==> final(self).position() > old(self).position(),
        decreases remaining(old(self).tokens(), old(self).position()), 22nat,
    {
        reveal(self::expression);
        reveal(self::assignment);
        self.assignment()
    }

    fn expr_stmt(&mut self) -> (r: Result<Stmt, ParseError>)
        requires
            old(self).wf(),
        ensures
            final(self).wf(),
            parsed(
                *old(self),
                *final(self),
                expr_stmt(old(self).tokens(), old(self).position(), old(self).next_identity()),
                stmt_result(r),
            ),
            r is Ok ==> final(self).position() > old(self).position(),
        decreases remaining(old(self).tokens(), old(self).position()), 25nat,
    {
        reveal(self::expr_stmt);
        reveal(self::expression);
        let expr = match self.expression() {
            Ok(e) => e,
            Err(e) => {
                return Err(e);
            },
        };
        match self.consume(TokenType::SEMICOLON, ParseErrorKind::ExpectSemicolonAfterValue) {
            Ok(_) => Ok(Stmt::ExprStmt(expr)),
            Err(e) => Err(e),
        }
    }

    fn var_decl(&mut self) -> (r: Result<Stmt, ParseError>)
        requires
            old(self).wf(),
        ensures
            final(self).wf(),
            parsed(
                *old(self),
                *final(self),
                var_decl(old(self).tokens(), old(self).position(), old(self).next_identity()),
                stmt_result(r),
            ),
            r is Ok ==> final(self).position() > old(self).position(),
        decreases remaining(old(self).tokens(), old(self).position()), 25nat,
    {
        reveal(self::var_decl);
        reveal(self::expression);
        let name = match self.consume(
            TokenType::IDENTIFIER,
            ParseErrorKind::ExpectVariableName,
        ) {
            Ok(t) => t,
            Err(e) => {
                return Err(e);
            },
        };
        let mut initializer: Option<Expr> = None;
        if self.check(TokenType::EQUAL) {
            self.advance();
            match self.expression() {
                Ok(e) => {
                    initializer = Some(e);
                },
                Err(e) => {
                    return Err(e);
                },
            }
        }
        match self.consume(TokenType::SEMICOLON, ParseErrorKind::ExpectSemicolonAfterValue) {
            Ok(_) => Ok(Stmt::Var(Var { token: name, initializer })),
            Err(e) => Err(e),
        }
    }

    fn return_stmt(&mut self, keyword: Token) -> (r: Result<Stmt, ParseError>)
        requires
            old(self).wf(),
        ensures
            final(self).wf(),
            parsed(
                *old(self),
                *final(self),
                return_stmt(
                    old(self).tokens(),
                    old(self).position(),
                    old(self).next_identity(),
                    keyword,
                ),
                stmt_result(r),
            ),
            r is Ok ==> final(self).position() > old(self).position(),
        decreases remaining(old(self).tokens(), old(self).position()), 25nat,
    {
        reveal(self::return_stmt);
        reveal(self::expression);
        let mut value: Option<Expr> = None;
        if !self.check(TokenType::SEMICOLON) {
            match self.expression() {
                Ok(e) => {
                    value = Some(e);
                },
                Err(e) => {
                    return Err(e);
                },
            }
            match self.consume(TokenType::SEMICOLON, ParseErrorKind::ExpectSemicolonAfterReturn) {
                Ok(_) => Ok(Stmt::Return(ReturnStmt { keyword, value })),
                Err(e) => Err(e),
            }
        } else {
            self.advance();
            Ok(Stmt::Return(ReturnStmt { keyword, value }))
        }
    }

    /// Parses one more statement of a block, unless the block ends here, and
    /// says whether it did.
    fn block_step(&mut self, found: &mut Vec<Stmt>) -> (r: Result<bool, ParseError>)
        requires
            old(self).wf(),
        ensures
            final(self).wf(),
            final(self).tokens() == old(self).tokens(),
            stepped(
                *old(self),
                *final(self),
                block_tail(
                    old(self).tokens(),
                    old(self).position(),
                    old(self).next_identity(),
                    stmts_view(old(found)@),
                ),
                block_tail(
                    old(self).tokens(),
                    final(self).position(),
                    final(self).next_identity(),
                    stmts_view(final(found)@),
                ),
                stmts_view(final(found)@),
                r,
            ),
        decreases remaining(old(self).tokens(), old(self).position()), 29nat,
    {
        reveal(self::block_rest);
        reveal(self::declaration);
        reveal(block_tail);
        if self.is_at_end() || self.check(TokenType::RIGHTBRACE) {
            Ok(false)
        } else {
            match self.declaration() {
                Ok(d) => {
                    found.push(d);
                    assert(stmts_view(found@) =~= stmts_view(old(found)@).push(d@));
                    Ok(true)
                },
                Err(e) => Err(e),
            }
        }
    }

    fn block(&mut self) -> (r: Result<Vec<Stmt>, ParseError>)
        requires
            old(self).wf(),
        ensures
            final(self).wf(),
            parsed(
                *old(self),
                *final(self),
                block(old(self).tokens(), old(self).position(), old(self).next_identity()),
                stmts_result(r),
            ),
            r is Ok ==> final(self).position() > old(self).position(),
        decreases remaining(old(self).tokens(), old(self).position()), 31nat,
    {
        reveal(self::block);
        reveal(self::block_rest);
        let mut found: Vec<Stmt> = Vec::new();
        assert(stmts_view(found@) =~= Seq::<StmtView>::empty());
        let ghost tokens = self.tokens();
        let ghost start = *self;
        let ghost expected = block_tail(
            tokens,
            self.position(),
            self.next_identity(),
            stmts_view(found@),
        );
        let mut failure: Option<ParseError> = None;
        let mut more = true;
        while more
            invariant
                self.wf(),
                self.tokens() == tokens,
                start == *old(self),
                tokens == old(self).tokens(),
                looping(
                    start,
                    *self,
                    expected,
                    block_tail(
                        tokens,
                        self.position(),
                        self.next_identity(),
                        stmts_view(found@),
                    ),
                    stmts_view(found@),
                    more,
                    failure,
                ),
            decreases if more { remaining(tokens, self.position()) + 1 } else { 0nat },
        {
            match self.block_step(&mut found) {
                Ok(again) => {
                    more = again;
                },
                Err(e) => {
                    failure = Some(e);
                    more = false;
                },
            }
        }
        reveal(block_tail);
        match failure {
            Some(e) => {
                return Err(e);
            },
            None => {},
        }
        match self.consume(TokenType::RIGHTBRACE, ParseErrorKind::ExpectBraceAfterBlock) {
            Ok(_) => Ok(found),
            Err(e) => Err(e),
        }
    }

    #[verifier::spinoff_prover]
    fn if_stmt(&mut self) -> (r: Result<Stmt, ParseError>)
        requires
            old(self).wf(),
        ensures
            final(self).wf(),
            parsed(
                *old(self),
                *final(self),
                if_stmt(old(self).tokens(), old(self).position(), old(self).next_identity()),
                stmt_result(r),
            ),
            r is Ok ==> final(self).position() > old(self).position(),
        decreases remaining(old(self).tokens(), old(self).position()), 25nat,
    {
        reveal(self::if_stmt);
        reveal(self::expression);
        reveal(self::statement);
        match self.consume(TokenType::LEFTPAREN, ParseErrorKind::ExpectParenAfterIf) {
            Ok(_) => {},
            Err(e) => {
                return Err(e);
            },
        }
        let condition = match self.expression() {
            Ok(e) => e,
            Err(e) => {
                return Err(e);
            },
        };
        match self.consume(TokenType::RIGHTPAREN, ParseErrorKind::ExpectParenAfterCondition) {
            Ok(_) => {},
            Err(e) => {
                return Err(e);
            },
        }
        let then_block = match self.statement() {
            Ok(s) => s,
            Err(e) => {
                return Err(e);
            },
        };
        let mut else_block: Option<Box<Stmt>> = None;
        if self.check(TokenType::ELSE) {
            self.advance();
            match self.statement() {
                Ok(s) => {
                    else_block = Some(Box::new(s));
                },
                Err(e) => {
                    return Err(e);
                },
            }
        }
        Ok(Stmt::If(IfStmt { condition, then_block: Box::new(then_block), else_block }))
    }

    #[verifier::spinoff_prover]
    fn while_stmt(&mut self) -> (r: Result<Stmt, ParseError>)
        requires
            old(self).wf(),
        ensures
            final(self).wf(),
            parsed(
                *old(self),
                *final(self),
                while_stmt(old(self).tokens(), old(self).position(), old(self).next_identity()),
                stmt_result(r),
            ),
            r is Ok ==> final(self).position() > old(self).position(),
        decreases remaining(old(self).tokens(), old(self).position()), 25nat,
    {
        reveal(self::while_stmt);
        reveal(self::expression);
        reveal(self::statement);
        match self.consume(TokenType::LEFTPAREN, ParseErrorKind::ExpectParenAfterWhile) {
            Ok(_) => {},
            Err(e) => {
                return Err(e);
            },
        }
        let condition = match self.expression() {
            Ok(e) => e,
            Err(e) => {
                return Err(e);
            },
        };
        match self.consume(TokenType::RIGHTPAREN, ParseErrorKind::ExpectParenAfterCondition) {
            Ok(_) => {},
            Err(e) => {
                return Err(e);
            },
        }
        match self.statement() {
            Ok(body) => Ok(Stmt::While(WhileStmt { condition, body: Box::new(body) })),
            Err(e) => Err(e),
        }
    }

    fn for_initializer(&mut self) -> (r: Result<Option<Stmt>, ParseError>)
        requires
            old(self).wf(),
        ensures
            final(self).wf(),
            parsed(
                *old(self),
                *final(self),
                for_initializer(
                    old(self).tokens(),
                    old(self).position(),
                    old(self).next_identity(),
                ),
                match r {
                    Ok(Some(s)) => Ok(Some(s@)),
                    Ok(None) => Ok(None),
                    Err(e) => Err(e),
                },
            ),
        decreases remaining(old(self).tokens(), old(self).position()), 26nat,
    {
        reveal(self::for_initializer);
        reveal(self::var_decl);
        reveal(self::expr_stmt);
        if self.check(TokenType::SEMICOLON) {
            self.advance();
            Ok(None)
        } else if self.check(TokenType::VAR) {
            self.advance();
            match self.var_decl() {
                Ok(s) => Ok(Some(s)),
                Err(e) => Err(e),
            }
        } else {
            match self.expr_stmt() {
                Ok(s) => Ok(Some(s)),
                Err(e) => Err(e),
            }
        }
    }

    fn optional_expression(&mut self, end: TokenType) -> (r: Result<Option<Expr>, ParseError>)
        requires
            old(self).wf(),
        ensures
            final(self).wf(),
            parsed(
                *old(self),
                *final(self),
                optional_expression(
                    old(self).tokens(),
                    old(self).position(),
                    old(self).next_identity(),
                    end,
                ),
                match r {
                    Ok(Some(e)) => Ok(Some(e@)),
                    Ok(None) => Ok(None),
                    Err(e) => Err(e),
                },
            ),
        decreases remaining(old(self).tokens(), old(self).position()), 26nat,
    {
        reveal(self::optional_expression);
        reveal(self::expression);
        if self.check(end) {
            Ok(None)
        } else {
            match self.expression() {
                Ok(e) => Ok(Some(e)),
                Err(e) => Err(e),
            }
        }
    }

    /// Builds the loop that a `for` statement stands for.
    fn for_loop(
        initializer: Option<Stmt>,
        condition: Expr,
        increment: Option<Expr>,
        body: Stmt,
    ) -> (r: Stmt)
        ensures
            r@ == for_loop(
                match initializer {
                    Some(s) => Some(s@),
                    None => None,
                },
                Some(condition@),
                match increment {
                    Some(e) => Some(e@),
                    None => None,
                },
                body@,
                0,
            ),
    {
        let ghost body_view = body@;
        let ghost condition_view = condition@;
        let stepped = match increment {
            Some(i) => {
                let ghost i_view = i@;
                let stmts = vec![body, Stmt::ExprStmt(i)];
                assert(stmts_view(stmts@) =~= seq![body_view, StmtView::ExprStmt(i_view)]);
                Stmt::Block(Block { stmts })
            },
            None => body,
        };
        let ghost stepped_view = stepped@;
        let looped = Stmt::While(WhileStmt { condition, body: Box::new(stepped) });
        assert(looped@ == StmtView::While {
            condition: condition_view,
            body: Box::new(stepped_view),
        });
        let ghost looped_view = looped@;
        match initializer {
            Some(i) => {
                let ghost i_view = i@;
                let stmts = vec![i, looped];
                assert(stmts_view(stmts@) =~= seq![i_view, looped_view]);
                Stmt::Block(Block { stmts })
            },
            None => looped,
        }
    }

    fn for_stmt(&mut self) -> (r: Result<Stmt, ParseError>)
        requires
            old(self).wf(),
        ensures
            final(self).wf(),
            parsed(
                *old(self),
                *final(self),
                for_stmt(old(self).tokens(), old(self).position(), old(self).next_identity()),
                stmt_result(r),
            ),
            r is Ok ==> final(self).position() > old(self).position(),
        decreases remaining(old(self).tokens(), old(self).position()), 25nat,
    {
        reveal(self::for_stmt);
        reveal(self::for_initializer);
        reveal(self::optional_expression);
        reveal(self::statement);
        match self.consume(TokenType::LEFTPAREN, ParseErrorKind::ExpectParenAfterFor) {
            Ok(_) => {},
            Err(e) => {
                return Err(e);
            },
        }
        let initializer = match self.for_initializer() {
            Ok(s) => s,
            Err(e) => {
                return Err(e);
            },
        };
        let condition = match self.optional_expression(TokenType::SEMICOLON) {
            Ok(c) => c,
            Err(e) => {
                return Err(e);
            },
        };
        match self.consume(
            TokenType::SEMICOLON,
            ParseErrorKind::ExpectSemicolonAfterLoopCondition,
        ) {
            Ok(_) => {},
            Err(e) => {
                return Err(e);
            },
        }
        let increment = match self.optional_expression(TokenType::RIGHTPAREN) {
            Ok(i) => i,
            Err(e) => {
                return Err(e);
            },
        };
        match self.consume(TokenType::RIGHTPAREN, ParseErrorKind::ExpectParenAfterForClauses) {
            Ok(_) => {},
            Err(e) => {
                return Err(e);
            },
        }
        let body = match self.statement() {
            Ok(s) => s,
            Err(e) => {
                return Err(e);
            },
        };
        let condition = match condition {
            Some(c) => c,
            None => Expr::Literal(Literal { id: self.get_new_id(), value: Object::Bool(true) }),
        };
        Ok(Parser::for_loop(initializer, condition, increment, body))
    }

    /// Parses the parameters of a function up to the closing parenthesis.
    fn parameters(&mut self) -> (r: Result<Vec<Token>, ParseError>)
        requires
            old(self).wf(),
        ensures
            final(self).wf(),
            final(self).tokens() == old(self).tokens(),
            final(self).next_identity() == old(self).next_identity(),
            match params(old(self).tokens(), old(self).position()) {
                Ok((names, used)) => r is Ok && r->Ok_0@ == names && final(self).position() == old(self).position() + used,
                Err(e) => r == Err::<Vec<Token>, ParseError>(e),
            },
    {
        let mut found: Vec<Token> = Vec::new();
        if self.check(TokenType::RIGHTPAREN) {
            return Ok(found);
        }
        match self.consume(TokenType::IDENTIFIER, ParseErrorKind::ExpectParameterName) {
            Ok(t) => {
                found.push(t);
            },
            Err(e) => {
                return Err(e);
            },
        }
        let ghost tokens = self.tokens();
        let ghost start = self.position();
        let ghost expected = params_rest(tokens, start, found@);
        assert(found@ =~= seq![found@[0]]);
        while self.check(TokenType::COMMA)
            invariant
                self.wf(),
                self.tokens() == tokens,
                tokens == old(self).tokens(),
                self.next_identity() == old(self).next_identity(),
                self.position() >= start,
                start == old(self).position() + 1,
                params(tokens, old(self).position()) == match expected {
                    Ok((all, used)) => Ok::<(Seq<Token>, nat), ParseError>((all, used + 1)),
                    Err(e) => Err(e),
                },
                expected == match params_rest(tokens, self.position(), found@) {
                    Ok((all, used)) => Ok::<(Seq<Token>, nat), ParseError>(
                        (all, (used + self.position() - start) as nat),
                    ),
                    Err(e) => Err(e),
                },
            decreases remaining(tokens, self.position()),
        {
            self.advance();
            match self.consume(TokenType::IDENTIFIER, ParseErrorKind::ExpectParameterName) {
                Ok(t) => {
                    found.push(t);
                },
                Err(e) => {
                    return Err(e);
                },
            }
        }
        Ok(found)
    }

    fn function(&mut self) -> (r: Result<Func, ParseError>)
        requires
            old(self).wf(),
        ensures
            final(self).wf(),
            parsed(
                *old(self),
                *final(self),
                function(old(self).tokens(), old(self).position(), old(self).next_identity()),
                func_result(r),
            ),
            r is Ok ==> final(self).position() > old(self).position(),
        decreases remaining(old(self).tokens(), old(self).position()), 25nat,
    {
        reveal(self::function);
        reveal(self::block);
        let name = match self.consume(TokenType::IDENTIFIER, ParseErrorKind::ExpectFunctionName) {
            Ok(t) => t,
            Err(e) => {
                return Err(e);
            },
        };
        match self.consume(TokenType::LEFTPAREN, ParseErrorKind::ExpectParenAfterFunctionName) {
            Ok(_) => {},
            Err(e) => {
                return Err(e);
            },
        }
        let params = match self.parameters() {
            Ok(p) => p,
            Err(e) => {
                return Err(e);
            },
        };
        match self.consume(TokenType::RIGHTPAREN, ParseErrorKind::ExpectParenAfterParameters) {
            Ok(_) => {},
            Err(e) => {
                return Err(e);
            },
        }
        match self.consume(TokenType::LEFTBRACE, ParseErrorKind::ExpectBraceBeforeBody) {
            Ok(_) => {},
            Err(e) => {
                return Err(e);
            },
        }
        match self.block() {
            Ok(body) => Ok(Func { name, body, params }),
            Err(e) => Err(e),
        }
    }

    /// Parses one more method of a class, unless the class body ends here,
    /// and says whether it did.
    fn method_step(&mut self, found: &mut Vec<Func>) -> (r: Result<bool, ParseError>)
        requires
            old(self).wf(),
        ensures
            final(self).wf(),
            final(self).tokens() == old(self).tokens(),
            stepped(
                *old(self),
                *final(self),
                methods_tail(
                    old(self).tokens(),
                    old(self).position(),
                    old(self).next_identity(),
                    funcs_view(old(found)@),
                ),
                methods_tail(
                    old(self).tokens(),
                    final(self).position(),
                    final(self).next_identity(),
                    funcs_view(final(found)@),
                ),
                funcs_view(final(found)@),
                r,
            ),
        decreases remaining(old(self).tokens(), old(self).position()), 29nat,
    {
        reveal(self::methods_rest);
        reveal(self::function);
        reveal(methods_tail);
        if self.is_at_end() || self.check(TokenType::RIGHTBRACE) {
            Ok(false)
        } else {
            match self.function() {
                Ok(f) => {
                    found.push(f);
                    assert(funcs_view(found@) =~= funcs_view(old(found)@).push(f@));
                    Ok(true)
                },
                Err(e) => Err(e),
            }
        }
    }

    fn class_decl(&mut self) -> (r: Result<Stmt, ParseError>)
        requires
            old(self).wf(),
        ensures
            final(self).wf(),
            parsed(
                *old(self),
                *final(self),
                class_decl(old(self).tokens(), old(self).position(), old(self).next_identity()),
                stmt_result(r),
            ),
            r is Ok ==> final(self).position() > old(self).position(),
        decreases remaining(old(self).tokens(), old(self).position()), 25nat,
    {
        reveal(self::class_decl);
        reveal(self::methods_rest);
        let name = match self.consume(TokenType::IDENTIFIER, ParseErrorKind::ExpectClassName) {
            Ok(t) => t,
            Err(e) => {
                return Err(e);
            },
        };
        match self.consume(TokenType::LEFTBRACE, ParseErrorKind::ExpectBraceBeforeClassBody) {
            Ok(_) => {},
            Err(e) => {
                return Err(e);
            },
        }
        let mut found: Vec<Func> = Vec::new();
        assert(funcs_view(found@) =~= Seq::<FuncView>::empty());
        let ghost tokens = self.tokens();
        let ghost start = *self;
        let ghost expected = methods_tail(
            tokens,
            self.position(),
            self.next_identity(),
            funcs_view(found@),
        );
        let mut failure: Option<ParseError> = None;
        let mut more = true;
        while more
            invariant
                self.wf(),
                self.tokens() == tokens,
                tokens == old(self).tokens(),
                start.position() == old(self).position() + 2,
                self.position() >= start.position() || failure is Some,
                looping(
                    start,
                    *self,
                    expected,
                    methods_tail(
                        tokens,
                        self.position(),
                        self.next_identity(),
                        funcs_view(found@),
                    ),
                    funcs_view(found@),
                    more,
                    failure,
                ),
            decreases if more { remaining(tokens, self.position()) + 1 } else { 0nat },
        {
            match self.method_step(&mut found) {
                Ok(again) => {
                    more = again;
                },
                Err(e) => {
                    failure = Some(e);
                    more = false;
                },
            }
        }
        reveal(methods_tail);
        match failure {
            Some(e) => {
                return Err(e);
            },
            None => {},
        }
        match self.consume(TokenType::RIGHTBRACE, ParseErrorKind::ExpectBraceAfterClassBody) {
            Ok(_) => Ok(Stmt::Class(Class { name, methods: found })),
            Err(e) => Err(e),
        }
    }

    fn statement(&mut self) -> (r: Result<Stmt, ParseError>)
        requires
            old(self).wf(),
        ensures
            final(self).wf(),
            parsed(
                *old(self),
                *final(self),
                statement(old(self).tokens(), old(self).position(), old(self).next_identity()),
                stmt_result(r),
            ),
            r is Ok ==> final(self).position() > old(self).position(),
        decreases remaining(old(self).tokens(), old(self).position()), 27nat,
    {
        reveal(self::statement);
        reveal(self::return_stmt);
        reveal(self::block);
        reveal(self::if_stmt);
        reveal(self::while_stmt);
        reveal(self::for_stmt);
        reveal(self::expr_stmt);
        match self.peek_type() {
            TokenType::RETURN => {
                let keyword = self.advance();
                self.return_stmt(keyword)
            },
            TokenType::LEFTBRACE => {
                self.advance();
                match self.block() {
                    Ok(stmts) => Ok(Stmt::Block(Block { stmts })),
                    Err(e) => Err(e),
                }
            },
            TokenType::IF => {
                self.advance();
                self.if_stmt()
            },
            TokenType::WHILE => {
                self.advance();
                self.while_stmt()
            },
            TokenType::FOR => {
                self.advance();
                self.for_stmt()
            },
            _ => self.expr_stmt(),
        }
    }

    fn declaration(&mut self) -> (r: Result<Stmt, ParseError>)
        requires
            old(self).wf(),
        ensures
            final(self).wf(),
            parsed(
                *old(self),
                *final(self),
                declaration(old(self).tokens(), old(self).position(), old(self).next_identity()),
                stmt_result(r),
            ),
            r is Ok ==> final(self).position() > old(self).position(),
        decreases remaining(old(self).tokens(), old(self).position()), 28nat,
    {
        reveal(self::declaration);
        reveal(self::class_decl);
        reveal(self::function);
        reveal(self::var_decl);
        reveal(self::statement);
        match self.peek_type() {
            TokenType::CLASS => {
                self.advance();
                self.class_decl()
            },
            TokenType::FUN => {
                self.advance();
                match self.function() {
                    Ok(f) => Ok(Stmt::Func(f)),
                    Err(e) => Err(e),
                }
            },
            TokenType::VAR => {
                self.advance();
                self.var_decl()
            },
            _ => self.statement(),
        }
    }

    /// Parses one more declaration of the program, unless the file ends
    /// here, and says whether it did.
    fn program_step(&mut self, found: &mut Vec<Stmt>) -> (r: Result<bool, ParseError>)
        requires
            old(self).wf(),
        ensures
            final(self).wf(),
            final(self).tokens() == old(self).tokens(),
            stepped(
                *old(self),
                *final(self),
                program_tail(
                    old(self).tokens(),
                    old(self).position(),
                    old(self).next_identity(),
                    stmts_view(old(found)@),
                ),
                program_tail(
                    old(self).tokens(),
                    final(self).position(),
                    final(self).next_identity(),
                    stmts_view(final(found)@),
                ),
                stmts_view(final(found)@),
                r,
            ),
    {
        reveal(self::program_rest);
        reveal(self::declaration);
        reveal(program_tail);
        if self.is_at_end() {
            Ok(false)
        } else {
            match self.declaration() {
                Ok(d) => {
                    found.push(d);
                    assert(stmts_view(found@) =~= stmts_view(old(found)@).push(d@));
                    Ok(true)
                },
                Err(e) => Err(e),
            }
        }
    }

    /// Parses the rest of the tokens as a program: declarations up to the
    /// end of the file. On success every expression of the result has an
    /// identity of its own; the first syntax error ends the parse.
    pub fn parse(&mut self) -> (r: Result<Vec<Stmt>, ParseError>)
        requires
            old(self).wf(),
        ensures
            final(self).wf(),
            parsed(
                *old(self),
                *final(self),
                program_rest(
                    old(self).tokens(),
                    old(self).position(),
                    old(self).next_identity(),
                    Seq::empty(),
                ),
                stmts_result(r),
            ),
            r matches Ok(stmts) ==> spread(
                stmts_ids(stmts_view(stmts@), stmts@.len()),
                old(self).next_identity(),
                final(self).next_identity(),
            ),
    {
        reveal(self::program_rest);
        let mut found: Vec<Stmt> = Vec::new();
        assert(stmts_view(found@) =~= Seq::<StmtView>::empty());
        let ghost tokens = self.tokens();
        let ghost start = *self;
        let ghost expected = program_tail(
            tokens,
            self.position(),
            self.next_identity(),
            stmts_view(found@),
        );
        let mut failure: Option<ParseError> = None;
        let mut more = true;
        while more
            invariant
                self.wf(),
                self.tokens() == tokens,
                start == *old(self),
                looping(
                    start,
                    *self,
                    expected,
                    program_tail(
                        tokens,
                        self.position(),
                        self.next_identity(),
                        stmts_view(found@),
                    ),
                    stmts_view(found@),
                    more,
                    failure,
                ),
            decreases if more { remaining(tokens, self.position()) + 1 } else { 0nat },
        {
            match self.program_step(&mut found) {
                Ok(again) => {
                    more = again;
                },
                Err(e) => {
                    failure = Some(e);
                    more = false;
                },
            }
        }
        reveal(program_tail);
        proof {
            assert(self.tokens@.len() == self.tokens.len());
            lemma_program_rest(
                old(self).tokens(),
                old(self).position(),
                old(self).next_identity(),
                Seq::empty(),
                old(self).next_identity(),
            );
        }
        match failure {
            Some(e) => Err(e),
            None => Ok(found),
        }
    }
}

} // verus!
