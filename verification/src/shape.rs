//! The shape of parsed programs: what the parser makes of tokens that are
//! spelled as a scanner spells them is a plain program, in which no branch
//! of a conditional and no body of a loop is a declaration, no variable is
//! called `this`, and every `this` is spelled `this`.

use vstd::prelude::*;
use crate::expressions::{Expr, ExprView};
use crate::naming::{all_plain, all_spelled, declares, methods_plain, plain, spelled};
use crate::parser::{
    ParseErrorKind, arguments, arguments_rest, assignment, block, block_rest, call, call_rest,
    class_decl, declaration, expect, expr_stmt, expression, finish_call, for_initializer,
    for_loop, for_stmt, function, if_stmt, infix, infix_node, infix_rest, kind_at, methods_rest,
    next_id, operand, optional_expression, primary, program_rest, remaining, return_stmt,
    statement, token_at, unary, var_decl, while_stmt,
};
use crate::scanner::{Token, TokenType, TokenView, lex_one, lexeme_end, scan_from};
use crate::statements::{Func, FuncView, Stmt, StmtView, funcs_view, stmts_view};

verus! {

/// The token is spelled as a scanner spells it: `this` is spelled `this`,
/// and no name is.
pub open spec fn token_plain(t: Token) -> bool {
    &&& t.token_type == TokenType::THIS ==> t.name() == "this"@
    &&& t.token_type == TokenType::IDENTIFIER ==> t.name() != "this"@
}

/// The tokens are spelled as a scanner spells them.
pub open spec fn tokens_plain(tokens: Seq<Token>) -> bool {
    forall|i: int| 0 <= i < tokens.len() ==> token_plain(#[trigger] tokens[i])
}

/// Every `this` in the expression is spelled `this`.
pub open spec fn view_spelled(e: ExprView) -> bool
    decreases e,
{
    match e {
        ExprView::Literal { .. } => true,
        ExprView::Var { .. } => true,
        ExprView::This { keyword, .. } => keyword.name() == "this"@,
        ExprView::Unary { right, .. } => view_spelled(*right),
        ExprView::Grouping { expr, .. } => view_spelled(*expr),
        ExprView::Assign { value, .. } => view_spelled(*value),
        ExprView::Get { expr, .. } => view_spelled(*expr),
        ExprView::Binary { left, right, .. } => view_spelled(*left) && view_spelled(*right),
        ExprView::Logical { left, right, .. } => view_spelled(*left) && view_spelled(*right),
        ExprView::SetExpr { expr, value, .. } => view_spelled(*expr) && view_spelled(*value),
        ExprView::Call { calle, arguments, .. } => view_spelled(*calle) && views_spelled(
            arguments,
            arguments.len(),
        ),
    }
}

/// Every `this` in the first `n` expressions is spelled `this`.
pub open spec fn views_spelled(es: Seq<ExprView>, n: nat) -> bool
    decreases es, n,
{
    if n == 0 || n > es.len() {
        true
    } else {
        views_spelled(es, (n - 1) as nat) && view_spelled(es[n - 1])
    }
}

/// Whether the first expressions of a list are spelled does not depend on
/// the expressions after them.
pub proof fn lemma_spelled_prefix(longer: Seq<ExprView>, shorter: Seq<ExprView>, n: nat)
    requires
        n <= shorter.len() <= longer.len(),
        forall|i: int| 0 <= i < shorter.len() ==> longer[i] == shorter[i],
    ensures
        views_spelled(longer, n) == views_spelled(shorter, n),
    decreases n,
{
    if n > 0 {
        lemma_spelled_prefix(longer, shorter, (n - 1) as nat);
    }
}

/// One more expression that is spelled keeps a list spelled.
pub proof fn lemma_spelled_push(found: Seq<ExprView>, e: ExprView)
    requires
        views_spelled(found, found.len()),
        view_spelled(e),
    ensures
        views_spelled(found.push(e), found.len() + 1),
{
    lemma_spelled_prefix(found.push(e), found, found.len());
}

/// The token at a place among plain tokens is plain.
pub proof fn lemma_token_at_plain(tokens: Seq<Token>, pos: nat)
    requires
        tokens_plain(tokens),
    ensures
        token_plain(token_at(tokens, pos)),
{
}

/// What [`primary`] parses of plain tokens is spelled.
pub proof fn lemma_primary_spelled(tokens: Seq<Token>, pos: nat, id: u64)
    requires
        tokens_plain(tokens),
    ensures
        primary(tokens, pos, id) matches Ok(step) ==> view_spelled(step.value),
    decreases remaining(tokens, pos), 1nat,
{
    reveal(primary);
    reveal(expression);
    lemma_token_at_plain(tokens, pos);
    if kind_at(tokens, pos) == TokenType::LEFTPAREN {
        lemma_expression_spelled(tokens, pos + 1, id);
    }
}

/// What [`arguments_rest`] parses of plain tokens is spelled.
pub proof fn lemma_arguments_rest_spelled(
    tokens: Seq<Token>,
    pos: nat,
    id: u64,
    found: Seq<ExprView>,
)
    requires
        tokens_plain(tokens),
        views_spelled(found, found.len()),
    ensures
        arguments_rest(tokens, pos, id, found) matches Ok(step) ==> views_spelled(
            step.value,
            step.value.len(),
        ),
    decreases remaining(tokens, pos), 0nat,
{
    reveal(arguments_rest);
    reveal(expression);
    if kind_at(tokens, pos) == TokenType::COMMA {
        lemma_expression_spelled(tokens, pos + 1, id);
        if let Ok(argument) = expression(tokens, pos + 1, id) {
            lemma_spelled_push(found, argument.value);
            lemma_arguments_rest_spelled(
                tokens,
                pos + 1 + argument.used,
                argument.id,
                found.push(argument.value),
            );
        }
    }
}

/// What [`arguments`] parses of plain tokens is spelled.
pub proof fn lemma_arguments_spelled(tokens: Seq<Token>, pos: nat, id: u64)
    requires
        tokens_plain(tokens),
    ensures
        arguments(tokens, pos, id) matches Ok(step) ==> views_spelled(
            step.value,
            step.value.len(),
        ),
    decreases remaining(tokens, pos), 24nat,
{
    reveal(arguments);
    reveal(arguments_rest);
    reveal(expression);
    if kind_at(tokens, pos) != TokenType::RIGHTPAREN {
        lemma_expression_spelled(tokens, pos, id);
        if let Ok(first) = expression(tokens, pos, id) {
            lemma_spelled_push(Seq::empty(), first.value);
            assert(Seq::<ExprView>::empty().push(first.value) == seq![first.value]);
            lemma_arguments_rest_spelled(tokens, pos + first.used, first.id, seq![first.value]);
        }
    }
}

/// What [`finish_call`] parses of plain tokens is spelled.
pub proof fn lemma_finish_call_spelled(tokens: Seq<Token>, pos: nat, id: u64, calle: ExprView)
    requires
        tokens_plain(tokens),
        view_spelled(calle),
    ensures
        finish_call(tokens, pos, id, calle) matches Ok(step) ==> view_spelled(step.value),
    decreases remaining(tokens, pos), 25nat,
{
    reveal(finish_call);
    reveal(arguments);
    lemma_arguments_spelled(tokens, pos, id);
}

/// What [`call_rest`] parses of plain tokens is spelled.
pub proof fn lemma_call_rest_spelled(tokens: Seq<Token>, pos: nat, id: u64, expr: ExprView)
    requires
        tokens_plain(tokens),
        view_spelled(expr),
    ensures
        call_rest(tokens, pos, id, expr) matches Ok(step) ==> view_spelled(step.value),
    decreases remaining(tokens, pos), 0nat,
{
    reveal(call_rest);
    reveal(finish_call);
    if kind_at(tokens, pos) == TokenType::LEFTPAREN {
        lemma_finish_call_spelled(tokens, pos + 1, id, expr);
        if let Ok(made) = finish_call(tokens, pos + 1, id, expr) {
            lemma_call_rest_spelled(tokens, pos + 1 + made.used, made.id, made.value);
        }
    } else if kind_at(tokens, pos) == TokenType::DOT {
        if let Ok(name) = expect(
            tokens,
            pos + 1,
            TokenType::IDENTIFIER,
            ParseErrorKind::ExpectPropertyName,
        ) {
            lemma_call_rest_spelled(
                tokens,
                pos + 2,
                next_id(id),
                ExprView::Get { id, expr: Box::new(expr), name },
            );
        }
    }
}

/// What [`call`] parses of plain tokens is spelled.
pub proof fn lemma_call_spelled(tokens: Seq<Token>, pos: nat, id: u64)
    requires
        tokens_plain(tokens),
    ensures
        call(tokens, pos, id) matches Ok(step) ==> view_spelled(step.value),
    decreases remaining(tokens, pos), 2nat,
{
    reveal(call);
    reveal(call_rest);
    reveal(primary);
    lemma_primary_spelled(tokens, pos, id);
    if let Ok(first) = primary(tokens, pos, id) {
        lemma_call_rest_spelled(tokens, pos + first.used, first.id, first.value);
    }
}

/// What [`unary`] parses of plain tokens is spelled.
pub proof fn lemma_unary_spelled(tokens: Seq<Token>, pos: nat, id: u64)
    requires
        tokens_plain(tokens),
    ensures
        unary(tokens, pos, id) matches Ok(step) ==> view_spelled(step.value),
    decreases remaining(tokens, pos), 3nat,
{
    reveal(unary);
    reveal(call);
    if kind_at(tokens, pos) == TokenType::BANG || kind_at(tokens, pos) == TokenType::MINUS {
        lemma_unary_spelled(tokens, pos + 1, id);
    } else {
        lemma_call_spelled(tokens, pos, id);
    }
}

/// What [`operand`] parses of plain tokens is spelled.
pub proof fn lemma_operand_spelled(tokens: Seq<Token>, pos: nat, id: u64, level: u8)
    requires
        tokens_plain(tokens),
    ensures
        operand(tokens, pos, id, level) matches Ok(step) ==> view_spelled(step.value),
    decreases remaining(tokens, pos), crate::parser::infix_rank(level) - 1,
{
    reveal(operand);
    reveal(unary);
    reveal(infix);
    if level >= crate::parser::FACTOR_LEVEL {
        lemma_unary_spelled(tokens, pos, id);
    } else {
        lemma_infix_spelled(tokens, pos, id, (level + 1) as u8);
    }
}

/// What [`infix_rest`] parses of plain tokens is spelled.
pub proof fn lemma_infix_rest_spelled(
    tokens: Seq<Token>,
    pos: nat,
    id: u64,
    level: u8,
    left: ExprView,
)
    requires
        tokens_plain(tokens),
        view_spelled(left),
    ensures
        infix_rest(tokens, pos, id, level, left) matches Ok(step) ==> view_spelled(step.value),
    decreases remaining(tokens, pos), 0nat,
{
    reveal(infix_rest);
    reveal(operand);
    if crate::parser::operator_of(level, kind_at(tokens, pos)) && kind_at(tokens, pos)
        != TokenType::EOF {
        lemma_operand_spelled(tokens, pos + 1, id, level);
        if let Ok(right) = operand(tokens, pos + 1, id, level) {
            let node = infix_node(level, right.id, left, token_at(tokens, pos), right.value);
            lemma_infix_rest_spelled(tokens, pos + 1 + right.used, next_id(right.id), level, node);
        }
    }
}

/// What [`infix`] parses of plain tokens is spelled.
pub proof fn lemma_infix_spelled(tokens: Seq<Token>, pos: nat, id: u64, level: u8)
    requires
        tokens_plain(tokens),
    ensures
        infix(tokens, pos, id, level) matches Ok(step) ==> view_spelled(step.value),
    decreases remaining(tokens, pos), crate::parser::infix_rank(level),
{
    reveal(infix);
    reveal(infix_rest);
    reveal(operand);
    reveal(unary);
    if level > crate::parser::FACTOR_LEVEL {
        lemma_unary_spelled(tokens, pos, id);
    } else {
        lemma_operand_spelled(tokens, pos, id, level);
        if let Ok(left) = operand(tokens, pos, id, level) {
            lemma_infix_rest_spelled(tokens, pos + left.used, left.id, level, left.value);
        }
    }
}

/// What [`assignment`] parses of plain tokens is spelled.
pub proof fn lemma_assignment_spelled(tokens: Seq<Token>, pos: nat, id: u64)
    requires
        tokens_plain(tokens),
    ensures
        assignment(tokens, pos, id) matches Ok(step) ==> view_spelled(step.value),
    decreases remaining(tokens, pos), 21nat,
{
    reveal(assignment);
    reveal(infix);
    lemma_infix_spelled(tokens, pos, id, crate::parser::OR_LEVEL);
    if let Ok(target) = infix(tokens, pos, id, crate::parser::OR_LEVEL) {
        if kind_at(tokens, pos + target.used) == TokenType::EQUAL {
            lemma_assignment_spelled(tokens, pos + target.used + 1, target.id);
        }
    }
}

/// In every expression that is parsed of plain tokens, `this` is spelled `this`.
pub proof fn lemma_expression_spelled(tokens: Seq<Token>, pos: nat, id: u64)
    requires
        tokens_plain(tokens),
    ensures
        expression(tokens, pos, id) matches Ok(step) ==> view_spelled(step.value),
    decreases remaining(tokens, pos), 22nat,
{
    reveal(expression);
    reveal(assignment);
    lemma_assignment_spelled(tokens, pos, id);
}

/// Whether the statement is a declaration.
pub open spec fn view_declares(s: StmtView) -> bool {
    s is Var || s is Func || s is Class
}

/// The statement is plain: no branch of a conditional and no body of a loop
/// in it is a declaration, no variable in it is called `this`, and in the
/// initializer of a variable every `this` is spelled `this`.
pub open spec fn view_plain(s: StmtView) -> bool
    decreases s, 0nat,
{
    match s {
        StmtView::ExprStmt(_) => true,
        StmtView::Var { token, initializer } => token.name() != "this"@ && match initializer {
            Some(e) => view_spelled(e),
            None => true,
        },
        StmtView::Block { stmts } => views_plain(stmts, stmts.len()),
        StmtView::If { then_block, else_block, .. } => {
            &&& view_plain(*then_block)
            &&& !view_declares(*then_block)
            &&& match else_block {
                Some(e) => view_plain(*e) && !view_declares(*e),
                None => true,
            }
        },
        StmtView::While { body, .. } => view_plain(*body) && !view_declares(*body),
        StmtView::Func(f) => views_plain(f.body, f.body.len()),
        StmtView::Class { methods, .. } => funcs_plain(methods, methods.len()),
        StmtView::Return { .. } => true,
    }
}

/// The first `n` statements are plain.
pub open spec fn views_plain(ss: Seq<StmtView>, n: nat) -> bool
    decreases ss, n,
{
    if n == 0 || n > ss.len() {
        true
    } else {
        views_plain(ss, (n - 1) as nat) && view_plain(ss[n - 1])
    }
}

/// The bodies of the first `n` functions are plain.
pub open spec fn funcs_plain(fs: Seq<FuncView>, n: nat) -> bool
    decreases fs, n,
{
    if n == 0 || n > fs.len() {
        true
    } else {
        funcs_plain(fs, (n - 1) as nat) && views_plain(fs[n - 1].body, fs[n - 1].body.len())
    }
}

/// Whether the first statements of a list are plain does not depend on the
/// statements after them.
pub proof fn lemma_plain_prefix(longer: Seq<StmtView>, shorter: Seq<StmtView>, n: nat)
    requires
        n <= shorter.len() <= longer.len(),
        forall|i: int| 0 <= i < shorter.len() ==> longer[i] == shorter[i],
    ensures
        views_plain(longer, n) == views_plain(shorter, n),
    decreases n,
{
    if n > 0 {
        lemma_plain_prefix(longer, shorter, (n - 1) as nat);
    }
}

/// One more plain statement keeps a list plain.
pub proof fn lemma_plain_push(found: Seq<StmtView>, s: StmtView)
    requires
        views_plain(found, found.len()),
        view_plain(s),
    ensures
        views_plain(found.push(s), found.len() + 1),
{
    lemma_plain_prefix(found.push(s), found, found.len());
}

/// Whether the bodies of the first functions of a list are plain does not
/// depend on the functions after them.
pub proof fn lemma_funcs_prefix(longer: Seq<FuncView>, shorter: Seq<FuncView>, n: nat)
    requires
        n <= shorter.len() <= longer.len(),
        forall|i: int| 0 <= i < shorter.len() ==> longer[i] == shorter[i],
    ensures
        funcs_plain(longer, n) == funcs_plain(shorter, n),
    decreases n,
{
    if n > 0 {
        lemma_funcs_prefix(longer, shorter, (n - 1) as nat);
    }
}

/// One more function with a plain body keeps a list plain.
pub proof fn lemma_funcs_push(found: Seq<FuncView>, f: FuncView)
    requires
        funcs_plain(found, found.len()),
        views_plain(f.body, f.body.len()),
    ensures
        funcs_plain(found.push(f), found.len() + 1),
{
    lemma_funcs_prefix(found.push(f), found, found.len());
}

/// What [`expr_stmt`] parses is plain and no declaration.
pub proof fn lemma_expr_stmt_plain(tokens: Seq<Token>, pos: nat, id: u64)
    ensures
        expr_stmt(tokens, pos, id) matches Ok(step) ==> view_plain(step.value) && !view_declares(
            step.value,
        ),
{
    reveal(expr_stmt);
}

/// What [`var_decl`] parses of plain tokens is plain.
pub proof fn lemma_var_decl_plain(tokens: Seq<Token>, pos: nat, id: u64)
    requires
        tokens_plain(tokens),
    ensures
        var_decl(tokens, pos, id) matches Ok(step) ==> view_plain(step.value),
{
    reveal(var_decl);
    lemma_token_at_plain(tokens, pos);
    if kind_at(tokens, pos) == TokenType::IDENTIFIER && kind_at(tokens, pos + 1)
        == TokenType::EQUAL {
        lemma_expression_spelled(tokens, pos + 2, id);
    }
}

/// What [`return_stmt`] parses is plain and no declaration.
pub proof fn lemma_return_stmt_plain(tokens: Seq<Token>, pos: nat, id: u64, keyword: Token)
    ensures
        return_stmt(tokens, pos, id, keyword) matches Ok(step) ==> view_plain(step.value)
            && !view_declares(step.value),
{
    reveal(return_stmt);
}

/// What [`block_rest`] parses of plain tokens is plain.
pub proof fn lemma_block_rest_plain(tokens: Seq<Token>, pos: nat, id: u64, found: Seq<StmtView>)
    requires
        tokens_plain(tokens),
        views_plain(found, found.len()),
    ensures
        block_rest(tokens, pos, id, found) matches Ok(step) ==> views_plain(
            step.value,
            step.value.len(),
        ),
    decreases remaining(tokens, pos), 30nat,
{
    reveal(block_rest);
    reveal(declaration);
    if !(kind_at(tokens, pos) == TokenType::EOF || kind_at(tokens, pos) == TokenType::RIGHTBRACE) {
        lemma_declaration_plain(tokens, pos, id);
        if let Ok(d) = declaration(tokens, pos, id) {
            if d.used > 0 {
                lemma_plain_push(found, d.value);
                lemma_block_rest_plain(tokens, pos + d.used, d.id, found.push(d.value));
            }
        }
    }
}

/// What [`block`] parses of plain tokens is plain.
pub proof fn lemma_block_plain(tokens: Seq<Token>, pos: nat, id: u64)
    requires
        tokens_plain(tokens),
    ensures
        block(tokens, pos, id) matches Ok(step) ==> views_plain(step.value, step.value.len()),
    decreases remaining(tokens, pos), 31nat,
{
    reveal(block);
    reveal(block_rest);
    lemma_block_rest_plain(tokens, pos, id, Seq::empty());
}

/// What [`if_stmt`] parses of plain tokens is plain and no declaration.
pub proof fn lemma_if_stmt_plain(tokens: Seq<Token>, pos: nat, id: u64)
    requires
        tokens_plain(tokens),
    ensures
        if_stmt(tokens, pos, id) matches Ok(step) ==> view_plain(step.value) && !view_declares(
            step.value,
        ),
    decreases remaining(tokens, pos), 25nat,
{
    reveal(if_stmt);
    reveal(statement);
    if kind_at(tokens, pos) == TokenType::LEFTPAREN {
        if let Ok(c) = expression(tokens, pos + 1, id) {
            if kind_at(tokens, pos + 1 + c.used) == TokenType::RIGHTPAREN {
                lemma_statement_plain(tokens, pos + c.used + 2, c.id);
                if let Ok(then) = statement(tokens, pos + c.used + 2, c.id) {
                    let after = pos + c.used + 2 + then.used;
                    if kind_at(tokens, after) == TokenType::ELSE {
                        lemma_statement_plain(tokens, after + 1, then.id);
                    }
                }
            }
        }
    }
}

/// What [`while_stmt`] parses of plain tokens is plain and no declaration.
pub proof fn lemma_while_stmt_plain(tokens: Seq<Token>, pos: nat, id: u64)
    requires
        tokens_plain(tokens),
    ensures
        while_stmt(tokens, pos, id) matches Ok(step) ==> view_plain(step.value) && !view_declares(
            step.value,
        ),
    decreases remaining(tokens, pos), 25nat,
{
    reveal(while_stmt);
    reveal(statement);
    if kind_at(tokens, pos) == TokenType::LEFTPAREN {
        if let Ok(c) = expression(tokens, pos + 1, id) {
            if kind_at(tokens, pos + 1 + c.used) == TokenType::RIGHTPAREN {
                lemma_statement_plain(tokens, pos + c.used + 2, c.id);
            }
        }
    }
}

/// What [`for_initializer`] parses of plain tokens is plain.
pub proof fn lemma_for_initializer_plain(tokens: Seq<Token>, pos: nat, id: u64)
    requires
        tokens_plain(tokens),
    ensures
        for_initializer(tokens, pos, id) matches Ok(step) ==> match step.value {
            Some(s) => view_plain(s),
            None => true,
        },
{
    reveal(for_initializer);
    if kind_at(tokens, pos) == TokenType::SEMICOLON {
    } else if kind_at(tokens, pos) == TokenType::VAR {
        lemma_var_decl_plain(tokens, pos + 1, id);
    } else {
        lemma_expr_stmt_plain(tokens, pos, id);
    }
}

/// What a `for` statement stands for is plain and no declaration, if its
/// initializer and its body are plain and the body is no declaration.
pub proof fn lemma_for_loop_plain(
    initializer: Option<StmtView>,
    condition: Option<ExprView>,
    increment: Option<ExprView>,
    body: StmtView,
    id: u64,
)
    requires
        initializer matches Some(s) ==> view_plain(s),
        view_plain(body),
        !view_declares(body),
    ensures
        view_plain(for_loop(initializer, condition, increment, body, id)),
        !view_declares(for_loop(initializer, condition, increment, body, id)),
{
    let stepped = match increment {
        Some(i) => StmtView::Block { stmts: seq![body, StmtView::ExprStmt(i)] },
        None => body,
    };
    if let Some(i) = increment {
        let both = seq![body, StmtView::ExprStmt(i)];
        assert(both[0] == body);
        assert(both[1] == StmtView::ExprStmt(i));
        assert(views_plain(both, 0));
        assert(views_plain(both, 1));
        assert(view_plain(both[1]));
        assert(views_plain(both, 2));
    }
    assert(view_plain(stepped));
    let looped = StmtView::While {
        condition: match condition {
            Some(c) => c,
            None => ExprView::Literal { id, value: crate::types::Object::Bool(true) },
        },
        body: Box::new(stepped),
    };
    assert(view_plain(looped));
    if let Some(i) = initializer {
        let both = seq![i, looped];
        assert(both[0] == i);
        assert(both[1] == looped);
        assert(views_plain(both, 0));
        assert(views_plain(both, 1));
        assert(view_plain(both[1]));
        assert(views_plain(both, 2));
    }
}

/// What [`for_stmt`] parses of plain tokens is plain and no declaration.
pub proof fn lemma_for_stmt_plain(tokens: Seq<Token>, pos: nat, id: u64)
    requires
        tokens_plain(tokens),
    ensures
        for_stmt(tokens, pos, id) matches Ok(step) ==> view_plain(step.value) && !view_declares(
            step.value,
        ),
    decreases remaining(tokens, pos), 25nat,
{
    reveal(for_stmt);
    reveal(statement);
    if kind_at(tokens, pos) == TokenType::LEFTPAREN {
        lemma_for_initializer_plain(tokens, pos + 1, id);
        if let Ok(init) = for_initializer(tokens, pos + 1, id) {
            let at_condition = pos + 1 + init.used;
            if let Ok(cond) = optional_expression(tokens, at_condition, init.id, TokenType::SEMICOLON) {
                if kind_at(tokens, at_condition + cond.used) == TokenType::SEMICOLON {
                    let at_increment = at_condition + cond.used + 1;
                    if let Ok(incr) = optional_expression(
                        tokens,
                        at_increment,
                        cond.id,
                        TokenType::RIGHTPAREN,
                    ) {
                        if kind_at(tokens, at_increment + incr.used) == TokenType::RIGHTPAREN {
                            let at_body = at_increment + incr.used + 1;
                            lemma_statement_plain(tokens, at_body, incr.id);
                            if let Ok(body) = statement(tokens, at_body, incr.id) {
                                lemma_for_loop_plain(
                                    init.value,
                                    cond.value,
                                    incr.value,
                                    body.value,
                                    body.id,
                                );
                            }
                        }
                    }
                }
            }
        }
    }
}

/// What [`function`] parses of plain tokens has a plain body.
pub proof fn lemma_function_plain(tokens: Seq<Token>, pos: nat, id: u64)
    requires
        tokens_plain(tokens),
    ensures
        function(tokens, pos, id) matches Ok(step) ==> views_plain(
            step.value.body,
            step.value.body.len(),
        ),
    decreases remaining(tokens, pos), 25nat,
{
    reveal(function);
    reveal(block);
    if kind_at(tokens, pos) == TokenType::IDENTIFIER && kind_at(tokens, pos + 1)
        == TokenType::LEFTPAREN {
        if let Ok((names, used)) = crate::parser::params(tokens, pos + 2) {
            if kind_at(tokens, pos + 2 + used) == TokenType::RIGHTPAREN && kind_at(
                tokens,
                pos + 3 + used,
            ) == TokenType::LEFTBRACE {
                lemma_block_plain(tokens, pos + 4 + used, id);
            }
        }
    }
}

/// What [`methods_rest`] parses of plain tokens has plain bodies.
pub proof fn lemma_methods_rest_plain(
    tokens: Seq<Token>,
    pos: nat,
    id: u64,
    found: Seq<FuncView>,
)
    requires
        tokens_plain(tokens),
        funcs_plain(found, found.len()),
    ensures
        methods_rest(tokens, pos, id, found) matches Ok(step) ==> funcs_plain(
            step.value,
            step.value.len(),
        ),
    decreases remaining(tokens, pos), 30nat,
{
    reveal(methods_rest);
    reveal(function);
    if !(kind_at(tokens, pos) == TokenType::EOF || kind_at(tokens, pos) == TokenType::RIGHTBRACE) {
        lemma_function_plain(tokens, pos, id);
        if let Ok(f) = function(tokens, pos, id) {
            if f.used > 0 {
                lemma_funcs_push(found, f.value);
                lemma_methods_rest_plain(tokens, pos + f.used, f.id, found.push(f.value));
            }
        }
    }
}

/// What [`class_decl`] parses of plain tokens is plain.
pub proof fn lemma_class_decl_plain(tokens: Seq<Token>, pos: nat, id: u64)
    requires
        tokens_plain(tokens),
    ensures
        class_decl(tokens, pos, id) matches Ok(step) ==> view_plain(step.value),
    decreases remaining(tokens, pos), 25nat,
{
    reveal(class_decl);
    reveal(methods_rest);
    if kind_at(tokens, pos) == TokenType::IDENTIFIER && kind_at(tokens, pos + 1)
        == TokenType::LEFTBRACE {
        lemma_methods_rest_plain(tokens, pos + 2, id, Seq::empty());
    }
}

/// What [`statement`] parses of plain tokens is plain and no declaration.
pub proof fn lemma_statement_plain(tokens: Seq<Token>, pos: nat, id: u64)
    requires
        tokens_plain(tokens),
    ensures
        statement(tokens, pos, id) matches Ok(step) ==> view_plain(step.value) && !view_declares(
            step.value,
        ),
    decreases remaining(tokens, pos), 27nat,
{
    reveal(statement);
    reveal(block);
    reveal(if_stmt);
    reveal(while_stmt);
    reveal(for_stmt);
    match kind_at(tokens, pos) {
        TokenType::RETURN => {
            lemma_return_stmt_plain(tokens, pos + 1, id, token_at(tokens, pos));
        },
        TokenType::LEFTBRACE => {
            lemma_block_plain(tokens, pos + 1, id);
        },
        TokenType::IF => {
            lemma_if_stmt_plain(tokens, pos + 1, id);
        },
        TokenType::WHILE => {
            lemma_while_stmt_plain(tokens, pos + 1, id);
        },
        TokenType::FOR => {
            lemma_for_stmt_plain(tokens, pos + 1, id);
        },
        _ => {
            lemma_expr_stmt_plain(tokens, pos, id);
        },
    }
}

/// What [`declaration`] parses of plain tokens is plain.
pub proof fn lemma_declaration_plain(tokens: Seq<Token>, pos: nat, id: u64)
    requires
        tokens_plain(tokens),
    ensures
        declaration(tokens, pos, id) matches Ok(step) ==> view_plain(step.value),
    decreases remaining(tokens, pos), 28nat,
{
    reveal(declaration);
    reveal(class_decl);
    reveal(function);
    reveal(statement);
    match kind_at(tokens, pos) {
        TokenType::CLASS => {
            lemma_class_decl_plain(tokens, pos + 1, id);
        },
        TokenType::FUN => {
            lemma_function_plain(tokens, pos + 1, id);
        },
        TokenType::VAR => {
            lemma_var_decl_plain(tokens, pos + 1, id);
        },
        _ => {
            lemma_statement_plain(tokens, pos, id);
        },
    }
}

/// What [`program_rest`] parses of plain tokens is plain.
pub proof fn lemma_program_rest_plain(
    tokens: Seq<Token>,
    pos: nat,
    id: u64,
    found: Seq<StmtView>,
)
    requires
        tokens_plain(tokens),
        views_plain(found, found.len()),
    ensures
        program_rest(tokens, pos, id, found) matches Ok(step) ==> views_plain(
            step.value,
            step.value.len(),
        ),
    decreases remaining(tokens, pos), 30nat,
{
    reveal(program_rest);
    reveal(declaration);
    if kind_at(tokens, pos) != TokenType::EOF {
        lemma_declaration_plain(tokens, pos, id);
        if let Ok(d) = declaration(tokens, pos, id) {
            if d.used > 0 {
                lemma_plain_push(found, d.value);
                lemma_program_rest_plain(tokens, pos + d.used, d.id, found.push(d.value));
            }
        }
    }
}

/// A program that is parsed of tokens that are spelled as a scanner spells
/// them is plain.
pub proof fn lemma_program_is_plain(tokens: Seq<Token>)
    requires
        tokens_plain(tokens),
    ensures
        program_rest(tokens, 0, 0, Seq::empty()) matches Ok(step) ==> views_plain(
            step.value,
            step.value.len(),
        ),
{
    lemma_program_rest_plain(tokens, 0, 0, Seq::empty());
}

/// Each of the first expressions of a spelled list is spelled.
pub proof fn lemma_views_spelled_each(es: Seq<ExprView>, n: nat, j: int)
    requires
        views_spelled(es, n),
        0 <= j < n <= es.len(),
    ensures
        view_spelled(es[j]),
    decreases n,
{
    if j < n - 1 {
        lemma_views_spelled_each(es, (n - 1) as nat, j);
    }
}

/// Each of the first statements of a plain list is plain.
pub proof fn lemma_views_plain_each(ss: Seq<StmtView>, n: nat, j: int)
    requires
        views_plain(ss, n),
        0 <= j < n <= ss.len(),
    ensures
        view_plain(ss[j]),
    decreases n,
{
    if j < n - 1 {
        lemma_views_plain_each(ss, (n - 1) as nat, j);
    }
}

/// Each of the first functions of a plain list has a plain body.
pub proof fn lemma_funcs_plain_each(fs: Seq<FuncView>, n: nat, j: int)
    requires
        funcs_plain(fs, n),
        0 <= j < n <= fs.len(),
    ensures
        views_plain(fs[j].body, fs[j].body.len()),
    decreases n,
{
    if j < n - 1 {
        lemma_funcs_plain_each(fs, (n - 1) as nat, j);
    }
}

/// An expression is spelled if what it stands for is.
pub proof fn lemma_spelled_tree(e: &Expr)
    requires
        view_spelled(e@),
    ensures
        spelled(e),
    decreases e, 0nat,
{
    match e {
        Expr::Literal(_) => {},
        Expr::Var(_) => {},
        Expr::This(_) => {},
        Expr::Grouping(g) => {
            lemma_spelled_tree(&*g.expr);
        },
        Expr::Unary(u) => {
            lemma_spelled_tree(&*u.right);
        },
        Expr::Get(g) => {
            lemma_spelled_tree(&*g.expr);
        },
        Expr::Assign(a) => {
            lemma_spelled_tree(&*a.value);
        },
        Expr::Binary(b) => {
            lemma_spelled_tree(&*b.left);
            lemma_spelled_tree(&*b.right);
        },
        Expr::Logical(l) => {
            lemma_spelled_tree(&*l.left);
            lemma_spelled_tree(&*l.right);
        },
        Expr::SetExpr(x) => {
            lemma_spelled_tree(&*x.expr);
            lemma_spelled_tree(&*x.value);
        },
        Expr::Call(c) => {
            let views = e@->Call_arguments;
            lemma_spelled_tree(&*c.calle);
            assert forall|j: int| 0 <= j < c.arguments@.len() implies view_spelled(
                (#[trigger] c.arguments@[j])@,
            ) by {
                assert(views[j] == c.arguments@[j]@);
                lemma_views_spelled_each(views, views.len(), j);
            }
            lemma_spelled_trees(c.arguments@, 0);
        },
    }
}

/// The expressions from the `i`th on are spelled if what they stand for is.
pub proof fn lemma_spelled_trees(es: Seq<Expr>, i: nat)
    requires
        forall|j: int| i <= j < es.len() ==> view_spelled((#[trigger] es[j])@),
    ensures
        all_spelled(es, i),
    decreases es, es.len() - i,
{
    if i < es.len() {
        lemma_spelled_tree(&es[i as int]);
        lemma_spelled_trees(es, i + 1);
    }
}

/// A statement is plain, and a declaration or not, as what it stands for is.
pub proof fn lemma_plain_tree(s: &Stmt)
    requires
        view_plain(s@),
    ensures
        plain(s),
        declares(s) is Some == view_declares(s@),
    decreases s, 0nat,
{
    match s {
        Stmt::ExprStmt(_) => {},
        Stmt::Var(v) => {
            if let Some(init) = v.initializer {
                lemma_spelled_tree(&init);
            }
        },
        Stmt::Block(b) => {
            lemma_plain_trees_all(b.stmts@);
        },
        Stmt::If(i) => {
            lemma_plain_tree(&*i.then_block);
            if let Some(e) = i.else_block {
                lemma_plain_tree(&*e);
            }
        },
        Stmt::While(w) => {
            lemma_plain_tree(&*w.body);
        },
        Stmt::Func(f) => {
            assert(s@ == crate::statements::stmt_view(*s));
            assert(s@ == StmtView::Func(crate::statements::func_view(*f)));
            assert(crate::statements::func_view(*f).body == stmts_view(f.body@));
            lemma_plain_trees_all(f.body@);
        },
        Stmt::Class(c) => {
            let views = funcs_view(c.methods@);
            assert forall|j: int| 0 <= j < c.methods@.len() implies views_plain(
                stmts_view((#[trigger] c.methods@[j]).body@),
                c.methods@[j].body@.len(),
            ) by {
                assert(views[j].body == stmts_view(c.methods@[j].body@));
                lemma_funcs_plain_each(views, views.len(), j);
            }
            lemma_plain_methods(c.methods@, 0);
        },
        Stmt::Return(_) => {},
    }
}

/// The statements of a list are plain if what they stand for is.
pub proof fn lemma_plain_trees_all(ss: Seq<Stmt>)
    requires
        views_plain(stmts_view(ss), ss.len()),
    ensures
        all_plain(ss, 0),
    decreases ss, ss.len() + 1,
{
    let views = stmts_view(ss);
    assert forall|j: int| 0 <= j < ss.len() implies view_plain((#[trigger] ss[j])@) by {
        assert(views[j] == ss[j]@);
        lemma_views_plain_each(views, views.len(), j);
    }
    lemma_plain_trees(ss, 0);
}

/// The statements from the `i`th on are plain if what they stand for is.
pub proof fn lemma_plain_trees(ss: Seq<Stmt>, i: nat)
    requires
        forall|j: int| i <= j < ss.len() ==> view_plain((#[trigger] ss[j])@),
    ensures
        all_plain(ss, i),
    decreases ss, ss.len() - i,
{
    if i < ss.len() {
        lemma_plain_tree(&ss[i as int]);
        lemma_plain_trees(ss, i + 1);
    }
}

/// The bodies of the methods from the `i`th on are plain if what they stand for is.
pub proof fn lemma_plain_methods(ms: Seq<Func>, i: nat)
    requires
        forall|j: int|
            i <= j < ms.len() ==> views_plain(
                stmts_view((#[trigger] ms[j]).body@),
                ms[j].body@.len(),
            ),
    ensures
        methods_plain(ms, i),
    decreases ms, ms.len() - i,
{
    if i < ms.len() {
        lemma_plain_trees_all(ms[i as int].body@);
        lemma_plain_methods(ms, i + 1);
    }
}

/// Parsed programs are plain: the statements that stand for what is parsed
/// of tokens that are spelled as a scanner spells them are plain.
pub proof fn lemma_parsed_is_plain(tokens: Seq<Token>, stmts: Seq<Stmt>)
    requires
        tokens_plain(tokens),
        program_rest(tokens, 0, 0, Seq::empty()) matches Ok(step) && step.value == stmts_view(
            stmts,
        ),
    ensures
        all_plain(stmts, 0),
{
    lemma_program_is_plain(tokens);
    lemma_plain_trees_all(stmts);
}

/// What stands for a token is spelled as a scanner spells it: `this` has
/// the text `this`, and a name has a text, which is not `this`.
pub open spec fn spelling_plain(v: TokenView) -> bool {
    &&& v.token_type == TokenType::THIS ==> v.lexeme == Some("this"@)
    &&& v.token_type == TokenType::IDENTIFIER ==> v.lexeme is Some && v.lexeme != Some("this"@)
}

/// Two tokens are of one kind and have one text.
pub open spec fn alike(a: TokenView, b: TokenView) -> bool {
    a.token_type == b.token_type && a.lexeme == b.lexeme
}

/// The token of a lexeme is spelled as a scanner spells it.
pub proof fn lemma_lexeme_plain(source: Seq<char>, pos: int, line: u64)
    requires
        0 <= pos < source.len(),
    ensures
        lex_one(source, pos, line).token matches Some(t) ==> spelling_plain(t),
{
}

/// Every token that is scanned is spelled as a scanner spells it.
pub proof fn lemma_scan_plain(source: Seq<char>, pos: int, line: u64)
    ensures
        forall|i: int|
            0 <= i < scan_from(source, pos, line).tokens.len() ==> spelling_plain(
                #[trigger] scan_from(source, pos, line).tokens[i],
            ),
    decreases source.len() - pos,
{
    if 0 <= pos < source.len() {
        let first = lex_one(source, pos, line);
        let rest = scan_from(source, lexeme_end(source, pos, first), first.line);
        lemma_lexeme_plain(source, pos, line);
        lemma_scan_plain(source, lexeme_end(source, pos, first), first.line);
        let all = scan_from(source, pos, line).tokens;
        assert(all == crate::scanner::optional(first.token) + rest.tokens);
        assert forall|i: int| 0 <= i < all.len() implies spelling_plain(#[trigger] all[i]) by {
            let head = crate::scanner::optional(first.token);
            if i >= head.len() {
                assert(all[i] == rest.tokens[i - head.len()]);
            }
        }
    }
}

/// Scanned tokens are plain: tokens that are, in kind and text, the tokens
/// that are scanned from a source text and the end of the file after them
/// are spelled as a scanner spells them, whatever values they carry.
pub proof fn lemma_scanned_is_plain(tokens: Seq<Token>, source: Seq<char>, line: u64)
    requires
        tokens.len() == scan_from(source, 0, line).tokens.len() + 1,
        forall|i: int|
            0 <= i < tokens.len() - 1 ==> alike(
                (#[trigger] tokens[i])@,
                scan_from(source, 0, line).tokens[i],
            ),
        tokens.last().token_type == TokenType::EOF,
    ensures
        tokens_plain(tokens),
{
    lemma_scan_plain(source, 0, line);
    assert forall|i: int| 0 <= i < tokens.len() implies token_plain(#[trigger] tokens[i]) by {
        if i < tokens.len() - 1 {
            assert(alike(tokens[i]@, scan_from(source, 0, line).tokens[i]));
            assert(spelling_plain(scan_from(source, 0, line).tokens[i]));
        }
    }
}

} // verus!
