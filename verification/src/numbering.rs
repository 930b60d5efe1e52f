//! Expression identities: the parser gives every expression of its result an
//! identity of its own, in the order in which the expressions are completed.

use vstd::prelude::*;
use crate::expressions::ExprView;
use crate::parser::{
    Parsed, arguments, arguments_rest, assignment, call, call_rest, expect,
    expression, finish_call, infix, infix_node, infix_rest, kind_at, next_id, operand, primary,
    remaining, token_at, unary,
};
use crate::parser::{
    block, block_rest, class_decl, declaration, expr_stmt, for_initializer, for_loop, for_stmt,
    function, if_stmt, methods_rest, optional_expression, program_rest, return_stmt, statement,
    var_decl, while_stmt,
};
use crate::scanner::{Token, TokenType};
use crate::statements::{FuncView, StmtView};

verus! {

/// The identities of an expression's nodes, each after those of its operands.
pub open spec fn expr_ids(e: ExprView) -> Seq<u64>
    decreases e,
{
    match e {
        ExprView::Literal { id, .. } => seq![id],
        ExprView::Var { id, .. } => seq![id],
        ExprView::This { id, .. } => seq![id],
        ExprView::Unary { id, right, .. } => expr_ids(*right).push(id),
        ExprView::Grouping { id, expr } => expr_ids(*expr).push(id),
        ExprView::Assign { id, value, .. } => expr_ids(*value).push(id),
        ExprView::Get { id, expr, .. } => expr_ids(*expr).push(id),
        ExprView::Binary { id, left, right, .. } => (expr_ids(*left) + expr_ids(*right)).push(id),
        ExprView::Logical { id, left, right, .. } => (expr_ids(*left) + expr_ids(*right)).push(
            id,
        ),
        ExprView::SetExpr { id, expr, value, .. } => (expr_ids(*expr) + expr_ids(*value)).push(
            id,
        ),
        ExprView::Call { id, calle, arguments, .. } => (expr_ids(*calle) + exprs_ids(
            arguments,
            arguments.len(),
        )).push(id),
    }
}

/// The identities of the nodes of the first `n` expressions, in order.
pub open spec fn exprs_ids(es: Seq<ExprView>, n: nat) -> Seq<u64>
    decreases es, n,
{
    if n == 0 || n > es.len() {
        Seq::empty()
    } else {
        exprs_ids(es, (n - 1) as nat) + expr_ids(es[n - 1])
    }
}

/// The identities are in increasing order and lie from `lo` up to, and not with, `hi`.
pub open spec fn numbered(ids: Seq<u64>, lo: u64, hi: u64) -> bool {
    &&& forall|i: int, j: int| 0 <= i < j < ids.len() ==> ids[i] < ids[j]
    &&& forall|i: int| 0 <= i < ids.len() ==> lo <= #[trigger] ids[i] < hi
}

/// Identities in increasing order are pairwise different.
pub proof fn lemma_numbered_is_distinct(ids: Seq<u64>, lo: u64, hi: u64)
    requires
        numbered(ids, lo, hi),
    ensures
        ids.no_duplicates(),
{
    assert forall|i: int, j: int| 0 <= i < ids.len() && 0 <= j < ids.len() && i != j implies ids[i]
        != ids[j] by {
        if i < j {
            assert(ids[i] < ids[j]);
        } else {
            assert(ids[j] < ids[i]);
        }
    }
}

/// Two runs of identities, the second after the first, make one run.
pub proof fn lemma_numbered_join(a: Seq<u64>, b: Seq<u64>, lo: u64, mid: u64, from: u64, hi: u64)
    requires
        numbered(a, lo, mid),
        numbered(b, from, hi),
        mid <= from,
        lo <= from,
        mid <= hi,
    ensures
        numbered(a + b, lo, hi),
{
    let all = a + b;
    assert forall|i: int, j: int| 0 <= i < j < all.len() implies all[i] < all[j] by {
        if j < a.len() {
            assert(a[i] < a[j]);
        } else if i >= a.len() {
            assert(b[i - a.len()] < b[j - a.len()]);
        } else {
            assert(a[i] < mid);
            assert(from <= b[j - a.len()]);
        }
    }
    assert forall|i: int| 0 <= i < all.len() implies lo <= #[trigger] all[i] < hi by {
        if i < a.len() {
            assert(lo <= a[i] < mid);
        } else {
            assert(from <= b[i - a.len()] < hi);
        }
    }
}

/// A run of identities with one more identity after it is a run.
pub proof fn lemma_numbered_push(a: Seq<u64>, lo: u64, id: u64, hi: u64)
    requires
        numbered(a, lo, id),
        lo <= id < hi,
    ensures
        numbered(a.push(id), lo, hi),
{
    let all = a.push(id);
    assert forall|i: int, j: int| 0 <= i < j < all.len() implies all[i] < all[j] by {
        if j < a.len() {
            assert(a[i] < a[j]);
        } else {
            assert(a[i] < id);
        }
    }
    assert forall|i: int| 0 <= i < all.len() implies lo <= #[trigger] all[i] < hi by {
        if i < a.len() {
            assert(lo <= a[i] < id);
        }
    }
}

/// A run of identities is a run within wider bounds.
pub proof fn lemma_numbered_widen(a: Seq<u64>, lo: u64, hi: u64, lower: u64, higher: u64)
    requires
        numbered(a, lo, hi),
        lower <= lo,
        hi <= higher,
    ensures
        numbered(a, lower, higher),
{
    assert forall|i: int| 0 <= i < a.len() implies lower <= #[trigger] a[i] < higher by {
        assert(lo <= a[i] < hi);
    }
}

/// Where parsing may begin: no more identities are used than tokens are
/// taken, and the tokens can be counted.
pub open spec fn startable(tokens: Seq<Token>, pos: nat, id: u64) -> bool {
    id <= pos <= tokens.len() <= u64::MAX
}

/// What holds of the expression that was parsed from `pos` with the next
/// identity `id`: it stays within the tokens, uses no more identities than
/// it takes tokens, and its nodes are numbered from `id` on in the order in
/// which they are completed.
pub open spec fn well_parsed(tokens: Seq<Token>, pos: nat, id: u64, r: Parsed<ExprView>) -> bool {
    match r {
        Ok(step) => {
            &&& pos + step.used <= tokens.len()
            &&& id <= step.id
            &&& step.id - id <= step.used
            &&& numbered(expr_ids(step.value), id, step.id)
        },
        Err(_) => true,
    }
}

/// What holds of the expressions that were parsed from `pos` with the next
/// identity `id`, after those in `found`.
pub open spec fn well_parsed_list(
    tokens: Seq<Token>,
    pos: nat,
    id: u64,
    lo: u64,
    r: Parsed<Seq<ExprView>>,
) -> bool {
    match r {
        Ok(step) => {
            &&& pos + step.used <= tokens.len()
            &&& id <= step.id
            &&& step.id - id <= step.used
            &&& numbered(exprs_ids(step.value, step.value.len()), lo, step.id)
        },
        Err(_) => true,
    }
}

/// What [`primary`] parses is well numbered.
pub proof fn lemma_primary(tokens: Seq<Token>, pos: nat, id: u64)
    requires
        startable(tokens, pos, id),
    ensures
        well_parsed(tokens, pos, id, primary(tokens, pos, id)),
        primary(tokens, pos, id) matches Ok(step) ==> step.used > 0,
    decreases remaining(tokens, pos), 1nat,
{
    reveal(primary);
    reveal(expression);
    if kind_at(tokens, pos) == crate::scanner::TokenType::LEFTPAREN {
        lemma_expression(tokens, pos + 1, id);
        if let Ok(inner) = expression(tokens, pos + 1, id) {
            lemma_numbered_push(expr_ids(inner.value), id, inner.id, next_id(inner.id));
        }
    }
}

/// What [`arguments_rest`] parses is well numbered.
pub proof fn lemma_arguments_rest(
    tokens: Seq<Token>,
    pos: nat,
    id: u64,
    found: Seq<ExprView>,
    lo: u64,
)
    requires
        startable(tokens, pos, id),
        lo <= id,
        numbered(exprs_ids(found, found.len()), lo, id),
    ensures
        well_parsed_list(tokens, pos, id, lo, arguments_rest(tokens, pos, id, found)),
    decreases remaining(tokens, pos), 0nat,
{
    reveal(arguments_rest);
    reveal(expression);
    if kind_at(tokens, pos) == crate::scanner::TokenType::COMMA {
        lemma_expression(tokens, pos + 1, id);
        if let Ok(argument) = expression(tokens, pos + 1, id) {
            let more = found.push(argument.value);
            assert(exprs_ids(more, more.len()) == exprs_ids(found, found.len()) + expr_ids(
                argument.value,
            )) by {
                assert(more.drop_last() == found);
                lemma_exprs_ids_prefix(more, found, found.len());
            }
            lemma_numbered_join(
                exprs_ids(found, found.len()),
                expr_ids(argument.value),
                lo,
                id,
                id,
                argument.id,
            );
            lemma_arguments_rest(tokens, pos + 1 + argument.used, argument.id, more, lo);
        }
    }
}

/// The identities of the first expressions of a list are those of the same
/// expressions in a shorter list.
pub proof fn lemma_exprs_ids_prefix(longer: Seq<ExprView>, shorter: Seq<ExprView>, n: nat)
    requires
        n <= shorter.len() <= longer.len(),
        forall|i: int| 0 <= i < shorter.len() ==> longer[i] == shorter[i],
    ensures
        exprs_ids(longer, n) == exprs_ids(shorter, n),
    decreases n,
{
    if n > 0 {
        lemma_exprs_ids_prefix(longer, shorter, (n - 1) as nat);
    }
}

/// What [`arguments`] parses is well numbered.
pub proof fn lemma_arguments(tokens: Seq<Token>, pos: nat, id: u64)
    requires
        startable(tokens, pos, id),
    ensures
        well_parsed_list(tokens, pos, id, id, arguments(tokens, pos, id)),
    decreases remaining(tokens, pos), 24nat,
{
    reveal(arguments);
    reveal(arguments_rest);
    reveal(expression);
    if kind_at(tokens, pos) != crate::scanner::TokenType::RIGHTPAREN {
        lemma_expression(tokens, pos, id);
        if let Ok(first) = expression(tokens, pos, id) {
            let found = seq![first.value];
            assert(exprs_ids(found, 1) == expr_ids(first.value)) by {
                assert(exprs_ids(found, 0) == Seq::<u64>::empty());
                assert(Seq::<u64>::empty() + expr_ids(first.value) == expr_ids(first.value));
            }
            lemma_arguments_rest(tokens, pos + first.used, first.id, found, id);
        }
    }
}

/// What [`finish_call`] parses is well numbered.
#[verifier::spinoff_prover]
pub proof fn lemma_finish_call(tokens: Seq<Token>, pos: nat, id: u64, calle: ExprView, lo: u64)
    requires
        startable(tokens, pos, id),
        id < pos,
        lo <= id,
        numbered(expr_ids(calle), lo, id),
    ensures
        finish_call(tokens, pos, id, calle) matches Ok(step) ==> {
            &&& pos + step.used <= tokens.len()
            &&& id <= step.id
            &&& step.id - id <= step.used
            &&& step.id < pos + step.used
            &&& numbered(expr_ids(step.value), lo, step.id)
        },
    decreases remaining(tokens, pos), 25nat,
{
    reveal(finish_call);
    reveal(arguments);
    lemma_arguments(tokens, pos, id);
    if let Ok(args) = arguments(tokens, pos, id) {
        if let Ok(paren) = expect(
            tokens,
            pos + args.used,
            crate::scanner::TokenType::RIGHTPAREN,
            crate::parser::ParseErrorKind::ExpectParenAfterArguments,
        ) {
            let before = expr_ids(calle) + exprs_ids(args.value, args.value.len());
            let node = ExprView::Call {
                id: args.id,
                calle: Box::new(calle),
                paren,
                arguments: args.value,
            };
            assert(expr_ids(node) == before.push(args.id));
            lemma_numbered_join(
                expr_ids(calle),
                exprs_ids(args.value, args.value.len()),
                lo,
                id,
                id,
                args.id,
            );
            lemma_numbered_push(before, lo, args.id, next_id(args.id));
            assert(numbered(expr_ids(node), lo, next_id(args.id)));
        }
    }
}

/// What [`call_rest`] parses is well numbered.
pub proof fn lemma_call_rest(tokens: Seq<Token>, pos: nat, id: u64, expr: ExprView, lo: u64)
    requires
        startable(tokens, pos, id),
        lo <= id,
        numbered(expr_ids(expr), lo, id),
    ensures
        call_rest(tokens, pos, id, expr) matches Ok(step) ==> {
            &&& pos + step.used <= tokens.len()
            &&& id <= step.id
            &&& step.id - id <= step.used
            &&& numbered(expr_ids(step.value), lo, step.id)
        },
    decreases remaining(tokens, pos), 0nat,
{
    reveal(call_rest);
    reveal(finish_call);
    if kind_at(tokens, pos) == crate::scanner::TokenType::LEFTPAREN {
        lemma_finish_call(tokens, pos + 1, id, expr, lo);
        if let Ok(made) = finish_call(tokens, pos + 1, id, expr) {
            lemma_call_rest(tokens, pos + 1 + made.used, made.id, made.value, lo);
        }
    } else if kind_at(tokens, pos) == crate::scanner::TokenType::DOT {
        if let Ok(name) = expect(
            tokens,
            pos + 1,
            crate::scanner::TokenType::IDENTIFIER,
            crate::parser::ParseErrorKind::ExpectPropertyName,
        ) {
            lemma_numbered_push(expr_ids(expr), lo, id, next_id(id));
            lemma_call_rest(
                tokens,
                pos + 2,
                next_id(id),
                ExprView::Get { id, expr: Box::new(expr), name },
                lo,
            );
        }
    }
}

/// What [`call`] parses is well numbered.
pub proof fn lemma_call(tokens: Seq<Token>, pos: nat, id: u64)
    requires
        startable(tokens, pos, id),
    ensures
        well_parsed(tokens, pos, id, call(tokens, pos, id)),
        call(tokens, pos, id) matches Ok(step) ==> step.used > 0,
    decreases remaining(tokens, pos), 2nat,
{
    reveal(call);
    reveal(call_rest);
    reveal(primary);
    lemma_primary(tokens, pos, id);
    if let Ok(first) = primary(tokens, pos, id) {
        lemma_call_rest(tokens, pos + first.used, first.id, first.value, id);
    }
}

/// What [`unary`] parses is well numbered.
pub proof fn lemma_unary(tokens: Seq<Token>, pos: nat, id: u64)
    requires
        startable(tokens, pos, id),
    ensures
        well_parsed(tokens, pos, id, unary(tokens, pos, id)),
        unary(tokens, pos, id) matches Ok(step) ==> step.used > 0,
    decreases remaining(tokens, pos), 3nat,
{
    reveal(unary);
    reveal(call);
    if kind_at(tokens, pos) == crate::scanner::TokenType::BANG || kind_at(tokens, pos)
        == crate::scanner::TokenType::MINUS {
        lemma_unary(tokens, pos + 1, id);
        if let Ok(right) = unary(tokens, pos + 1, id) {
            lemma_numbered_push(expr_ids(right.value), id, right.id, next_id(right.id));
        }
    } else {
        lemma_call(tokens, pos, id);
    }
}

/// What [`operand`] parses is well numbered.
pub proof fn lemma_operand(tokens: Seq<Token>, pos: nat, id: u64, level: u8)
    requires
        startable(tokens, pos, id),
    ensures
        well_parsed(tokens, pos, id, operand(tokens, pos, id, level)),
        operand(tokens, pos, id, level) matches Ok(step) ==> step.used > 0,
    decreases remaining(tokens, pos), crate::parser::infix_rank(level) - 1,
{
    reveal(operand);
    reveal(unary);
    reveal(infix);
    if level >= crate::parser::FACTOR_LEVEL {
        lemma_unary(tokens, pos, id);
    } else {
        lemma_infix(tokens, pos, id, (level + 1) as u8);
    }
}

/// What [`infix_rest`] parses is well numbered.
pub proof fn lemma_infix_rest(
    tokens: Seq<Token>,
    pos: nat,
    id: u64,
    level: u8,
    left: ExprView,
    lo: u64,
)
    requires
        startable(tokens, pos, id),
        lo <= id,
        numbered(expr_ids(left), lo, id),
    ensures
        infix_rest(tokens, pos, id, level, left) matches Ok(step) ==> {
            &&& pos + step.used <= tokens.len()
            &&& id <= step.id
            &&& step.id - id <= step.used
            &&& numbered(expr_ids(step.value), lo, step.id)
        },
    decreases remaining(tokens, pos), 0nat,
{
    reveal(infix_rest);
    reveal(operand);
    if crate::parser::operator_of(level, kind_at(tokens, pos)) && kind_at(tokens, pos)
        != crate::scanner::TokenType::EOF {
        lemma_operand(tokens, pos + 1, id, level);
        if let Ok(right) = operand(tokens, pos + 1, id, level) {
            let node = infix_node(level, right.id, left, token_at(tokens, pos), right.value);
            lemma_numbered_join(expr_ids(left), expr_ids(right.value), lo, id, id, right.id);
            lemma_numbered_push(
                expr_ids(left) + expr_ids(right.value),
                lo,
                right.id,
                next_id(right.id),
            );
            lemma_infix_rest(tokens, pos + 1 + right.used, next_id(right.id), level, node, lo);
        }
    }
}

/// What [`infix`] parses is well numbered.
pub proof fn lemma_infix(tokens: Seq<Token>, pos: nat, id: u64, level: u8)
    requires
        startable(tokens, pos, id),
    ensures
        well_parsed(tokens, pos, id, infix(tokens, pos, id, level)),
        infix(tokens, pos, id, level) matches Ok(step) ==> step.used > 0,
    decreases remaining(tokens, pos), crate::parser::infix_rank(level),
{
    reveal(infix);
    reveal(infix_rest);
    reveal(operand);
    reveal(unary);
    if level > crate::parser::FACTOR_LEVEL {
        lemma_unary(tokens, pos, id);
    } else {
        lemma_operand(tokens, pos, id, level);
        if let Ok(left) = operand(tokens, pos, id, level) {
            lemma_infix_rest(tokens, pos + left.used, left.id, level, left.value, id);
        }
    }
}

/// What [`assignment`] parses is well numbered.
pub proof fn lemma_assignment(tokens: Seq<Token>, pos: nat, id: u64)
    requires
        startable(tokens, pos, id),
    ensures
        well_parsed(tokens, pos, id, assignment(tokens, pos, id)),
        assignment(tokens, pos, id) matches Ok(step) ==> step.used > 0,
    decreases remaining(tokens, pos), 21nat,
{
    reveal(assignment);
    reveal(infix);
    lemma_infix(tokens, pos, id, crate::parser::OR_LEVEL);
    if let Ok(target) = infix(tokens, pos, id, crate::parser::OR_LEVEL) {
        if kind_at(tokens, pos + target.used) == crate::scanner::TokenType::EQUAL {
            lemma_assignment(tokens, pos + target.used + 1, target.id);
            if let Ok(value) = assignment(tokens, pos + target.used + 1, target.id) {
                match target.value {
                    ExprView::Var { id: _, name } => {
                        lemma_numbered_widen(
                            expr_ids(value.value),
                            target.id,
                            value.id,
                            id,
                            value.id,
                        );
                        lemma_numbered_push(expr_ids(value.value), id, value.id, next_id(value.id));
                    },
                    ExprView::Get { id: got, expr, name } => {
                        assert(expr_ids(target.value) == expr_ids(*expr).push(got));
                        assert(numbered(expr_ids(*expr), id, target.id)) by {
                            let whole = expr_ids(target.value);
                            let part = expr_ids(*expr);
                            assert forall|i: int, j: int| 0 <= i < j < part.len() implies part[i]
                                < part[j] by {
                                assert(whole[i] < whole[j]);
                            }
                            assert forall|i: int| 0 <= i < part.len() implies id
                                <= #[trigger] part[i] < target.id by {
                                assert(id <= whole[i] < target.id);
                            }
                        }
                        lemma_numbered_join(
                            expr_ids(*expr),
                            expr_ids(value.value),
                            id,
                            target.id,
                            target.id,
                            value.id,
                        );
                        lemma_numbered_push(
                            expr_ids(*expr) + expr_ids(value.value),
                            id,
                            value.id,
                            next_id(value.id),
                        );
                    },
                    _ => {},
                }
            }
        }
    }
}

/// Every expression that is parsed has its nodes numbered from the next
/// identity on, each node after its operands, so that no two nodes share an
/// identity.
pub proof fn lemma_expression(tokens: Seq<Token>, pos: nat, id: u64)
    requires
        startable(tokens, pos, id),
    ensures
        well_parsed(tokens, pos, id, expression(tokens, pos, id)),
        expression(tokens, pos, id) matches Ok(step) ==> step.used > 0,
    decreases remaining(tokens, pos), 22nat,
{
    reveal(expression);
    reveal(assignment);
    lemma_assignment(tokens, pos, id);
}

/// The identities of the expressions of a statement.
pub open spec fn stmt_ids(s: StmtView) -> Seq<u64>
    decreases s, 0nat,
{
    match s {
        StmtView::ExprStmt(e) => expr_ids(e),
        StmtView::Var { initializer, .. } => match initializer {
            Some(e) => expr_ids(e),
            None => Seq::empty(),
        },
        StmtView::Block { stmts } => stmts_ids(stmts, stmts.len()),
        StmtView::If { condition, then_block, else_block } => expr_ids(condition) + stmt_ids(
            *then_block,
        ) + match else_block {
            Some(e) => stmt_ids(*e),
            None => Seq::empty(),
        },
        StmtView::While { condition, body } => expr_ids(condition) + stmt_ids(*body),
        StmtView::Func(f) => stmts_ids(f.body, f.body.len()),
        StmtView::Class { methods, .. } => funcs_ids(methods, methods.len()),
        StmtView::Return { value, .. } => match value {
            Some(e) => expr_ids(e),
            None => Seq::empty(),
        },
    }
}

/// The identities of the expressions of the first `n` statements.
pub open spec fn stmts_ids(ss: Seq<StmtView>, n: nat) -> Seq<u64>
    decreases ss, n,
{
    if n == 0 || n > ss.len() {
        Seq::empty()
    } else {
        stmts_ids(ss, (n - 1) as nat) + stmt_ids(ss[n - 1])
    }
}

/// The identities of the expressions of the first `n` functions.
pub open spec fn funcs_ids(fs: Seq<FuncView>, n: nat) -> Seq<u64>
    decreases fs, n,
{
    if n == 0 || n > fs.len() {
        Seq::empty()
    } else {
        funcs_ids(fs, (n - 1) as nat) + stmts_ids(fs[n - 1].body, fs[n - 1].body.len())
    }
}

/// The identities are pairwise different and lie from `lo` up to, and not with, `hi`.
pub open spec fn spread(ids: Seq<u64>, lo: u64, hi: u64) -> bool {
    &&& ids.no_duplicates()
    &&& forall|i: int| 0 <= i < ids.len() ==> lo <= #[trigger] ids[i] < hi
}

/// Identities in increasing order are pairwise different.
pub proof fn lemma_numbered_is_spread(ids: Seq<u64>, lo: u64, hi: u64)
    requires
        numbered(ids, lo, hi),
    ensures
        spread(ids, lo, hi),
{
    lemma_numbered_is_distinct(ids, lo, hi);
}

/// Identities from two ranges that do not overlap are pairwise different.
pub proof fn lemma_spread_join(
    a: Seq<u64>,
    b: Seq<u64>,
    a_lo: u64,
    a_hi: u64,
    b_lo: u64,
    b_hi: u64,
    lo: u64,
    hi: u64,
)
    requires
        spread(a, a_lo, a_hi),
        spread(b, b_lo, b_hi),
        a_hi <= b_lo || b_hi <= a_lo,
        lo <= a_lo,
        lo <= b_lo,
        a_hi <= hi,
        b_hi <= hi,
    ensures
        spread(a + b, lo, hi),
{
    let all = a + b;
    assert forall|i: int, j: int| 0 <= i < all.len() && 0 <= j < all.len() && i != j implies all[i]
        != all[j] by {
        if i < a.len() && j < a.len() {
            assert(a[i] != a[j]);
        } else if i >= a.len() && j >= a.len() {
            assert(b[i - a.len()] != b[j - a.len()]);
        } else if i < a.len() {
            assert(a_lo <= a[i] < a_hi);
            assert(b_lo <= b[j - a.len()] < b_hi);
        } else {
            assert(a_lo <= a[j] < a_hi);
            assert(b_lo <= b[i - a.len()] < b_hi);
        }
    }
    assert forall|i: int| 0 <= i < all.len() implies lo <= #[trigger] all[i] < hi by {
        if i < a.len() {
            assert(a_lo <= a[i] < a_hi);
        } else {
            assert(b_lo <= b[i - a.len()] < b_hi);
        }
    }
}

/// Identities that are spread over a range are spread over a wider one.
pub proof fn lemma_spread_widen(a: Seq<u64>, lo: u64, hi: u64, lower: u64, higher: u64)
    requires
        spread(a, lo, hi),
        lower <= lo,
        hi <= higher,
    ensures
        spread(a, lower, higher),
{
    assert forall|i: int| 0 <= i < a.len() implies lower <= #[trigger] a[i] < higher by {
        assert(lo <= a[i] < hi);
    }
}

/// What holds of what was parsed from `pos` with the next identity `id` and
/// holds the identities `ids`: it stays within the tokens, uses no more
/// identities than it takes tokens, and its identities are pairwise
/// different and lie from `lo` up to the next unused one.
pub open spec fn well_spread<V>(
    tokens: Seq<Token>,
    pos: nat,
    id: u64,
    lo: u64,
    r: Parsed<V>,
    ids: spec_fn(V) -> Seq<u64>,
) -> bool {
    match r {
        Ok(step) => {
            &&& pos + step.used <= tokens.len()
            &&& id <= step.id
            &&& step.id - id <= step.used
            &&& spread(ids(step.value), lo, step.id)
        },
        Err(_) => true,
    }
}

/// The identities of a statement.
pub open spec fn of_stmt() -> spec_fn(StmtView) -> Seq<u64> {
    |s: StmtView| stmt_ids(s)
}

/// The identities of a list of statements.
pub open spec fn of_stmts() -> spec_fn(Seq<StmtView>) -> Seq<u64> {
    |ss: Seq<StmtView>| stmts_ids(ss, ss.len())
}

/// The identities of a function.
pub open spec fn of_func() -> spec_fn(FuncView) -> Seq<u64> {
    |f: FuncView| stmts_ids(f.body, f.body.len())
}

/// The identities of a list of functions.
pub open spec fn of_funcs() -> spec_fn(Seq<FuncView>) -> Seq<u64> {
    |fs: Seq<FuncView>| funcs_ids(fs, fs.len())
}

/// The identities of an expression that may be missing.
pub open spec fn of_optional() -> spec_fn(Option<ExprView>) -> Seq<u64> {
    |e: Option<ExprView>|
        match e {
            Some(e) => expr_ids(e),
            None => Seq::empty(),
        }
}

/// The identities of a statement that may be missing.
pub open spec fn of_optional_stmt() -> spec_fn(Option<StmtView>) -> Seq<u64> {
    |s: Option<StmtView>|
        match s {
            Some(s) => stmt_ids(s),
            None => Seq::empty(),
        }
}

/// The identities of the first statements of a list are those of the same
/// statements in a shorter list.
pub proof fn lemma_stmts_ids_prefix(longer: Seq<StmtView>, shorter: Seq<StmtView>, n: nat)
    requires
        n <= shorter.len() <= longer.len(),
        forall|i: int| 0 <= i < shorter.len() ==> longer[i] == shorter[i],
    ensures
        stmts_ids(longer, n) == stmts_ids(shorter, n),
    decreases n,
{
    if n > 0 {
        lemma_stmts_ids_prefix(longer, shorter, (n - 1) as nat);
    }
}

/// The identities of the first functions of a list are those of the same
/// functions in a shorter list.
pub proof fn lemma_funcs_ids_prefix(longer: Seq<FuncView>, shorter: Seq<FuncView>, n: nat)
    requires
        n <= shorter.len() <= longer.len(),
        forall|i: int| 0 <= i < shorter.len() ==> longer[i] == shorter[i],
    ensures
        funcs_ids(longer, n) == funcs_ids(shorter, n),
    decreases n,
{
    if n > 0 {
        lemma_funcs_ids_prefix(longer, shorter, (n - 1) as nat);
    }
}

/// The identities of a list of statements with one more statement at its end.
pub proof fn lemma_stmts_ids_push(found: Seq<StmtView>, s: StmtView)
    ensures
        stmts_ids(found.push(s), found.len() + 1) == stmts_ids(found, found.len()) + stmt_ids(s),
{
    lemma_stmts_ids_prefix(found.push(s), found, found.len());
}

/// The identities of a list of functions with one more function at its end.
pub proof fn lemma_funcs_ids_push(found: Seq<FuncView>, f: FuncView)
    ensures
        funcs_ids(found.push(f), found.len() + 1) == funcs_ids(found, found.len()) + stmts_ids(
            f.body,
            f.body.len(),
        ),
{
    lemma_funcs_ids_prefix(found.push(f), found, found.len());
}

/// What [`expr_stmt`] parses is well numbered.
pub proof fn lemma_expr_stmt(tokens: Seq<Token>, pos: nat, id: u64)
    requires
        startable(tokens, pos, id),
    ensures
        well_spread(tokens, pos, id, id, expr_stmt(tokens, pos, id), of_stmt()),
        expr_stmt(tokens, pos, id) matches Ok(step) ==> step.used > 0,
    decreases remaining(tokens, pos), 25nat,
{
    reveal(expr_stmt);
    reveal(expression);
    lemma_expression(tokens, pos, id);
    if let Ok(e) = expression(tokens, pos, id) {
        lemma_numbered_is_spread(expr_ids(e.value), id, e.id);
    }
}

/// What [`var_decl`] parses is well numbered.
pub proof fn lemma_var_decl(tokens: Seq<Token>, pos: nat, id: u64)
    requires
        startable(tokens, pos, id),
        id < pos || pos < tokens.len(),
    ensures
        well_spread(tokens, pos, id, id, var_decl(tokens, pos, id), of_stmt()),
        var_decl(tokens, pos, id) matches Ok(step) ==> step.used > 0,
    decreases remaining(tokens, pos), 25nat,
{
    reveal(var_decl);
    reveal(expression);
    if kind_at(tokens, pos) == TokenType::IDENTIFIER && kind_at(tokens, pos + 1)
        == TokenType::EQUAL {
        lemma_expression(tokens, pos + 2, id);
        if let Ok(e) = expression(tokens, pos + 2, id) {
            lemma_numbered_is_spread(expr_ids(e.value), id, e.id);
        }
    }
}

/// What [`return_stmt`] parses is well numbered.
pub proof fn lemma_return_stmt(tokens: Seq<Token>, pos: nat, id: u64, keyword: Token)
    requires
        startable(tokens, pos, id),
    ensures
        well_spread(tokens, pos, id, id, return_stmt(tokens, pos, id, keyword), of_stmt()),
        return_stmt(tokens, pos, id, keyword) matches Ok(step) ==> step.used > 0,
    decreases remaining(tokens, pos), 25nat,
{
    reveal(return_stmt);
    reveal(expression);
    if kind_at(tokens, pos) != TokenType::SEMICOLON {
        lemma_expression(tokens, pos, id);
        if let Ok(e) = expression(tokens, pos, id) {
            lemma_numbered_is_spread(expr_ids(e.value), id, e.id);
        }
    }
}

/// What [`block_rest`] parses is well numbered.
pub proof fn lemma_block_rest(
    tokens: Seq<Token>,
    pos: nat,
    id: u64,
    found: Seq<StmtView>,
    lo: u64,
)
    requires
        startable(tokens, pos, id),
        lo <= id,
        spread(stmts_ids(found, found.len()), lo, id),
    ensures
        well_spread(tokens, pos, id, lo, block_rest(tokens, pos, id, found), of_stmts()),
    decreases remaining(tokens, pos), 30nat,
{
    reveal(block_rest);
    reveal(declaration);
    if !(kind_at(tokens, pos) == TokenType::EOF || kind_at(tokens, pos) == TokenType::RIGHTBRACE) {
        lemma_declaration(tokens, pos, id);
        if let Ok(d) = declaration(tokens, pos, id) {
            if d.used > 0 {
                lemma_stmts_ids_push(found, d.value);
                lemma_spread_join(
                    stmts_ids(found, found.len()),
                    stmt_ids(d.value),
                    lo,
                    id,
                    id,
                    d.id,
                    lo,
                    d.id,
                );
                lemma_block_rest(tokens, pos + d.used, d.id, found.push(d.value), lo);
            }
        }
    }
}

/// What [`block`] parses is well numbered.
pub proof fn lemma_block(tokens: Seq<Token>, pos: nat, id: u64)
    requires
        startable(tokens, pos, id),
    ensures
        well_spread(tokens, pos, id, id, block(tokens, pos, id), of_stmts()),
        block(tokens, pos, id) matches Ok(step) ==> step.used > 0,
    decreases remaining(tokens, pos), 31nat,
{
    reveal(block);
    reveal(block_rest);
    lemma_block_rest(tokens, pos, id, Seq::empty(), id);
}

/// What [`if_stmt`] parses is well numbered.
pub proof fn lemma_if_stmt(tokens: Seq<Token>, pos: nat, id: u64)
    requires
        startable(tokens, pos, id),
    ensures
        well_spread(tokens, pos, id, id, if_stmt(tokens, pos, id), of_stmt()),
        if_stmt(tokens, pos, id) matches Ok(step) ==> step.used > 0,
    decreases remaining(tokens, pos), 25nat,
{
    reveal(if_stmt);
    reveal(expression);
    reveal(statement);
    if kind_at(tokens, pos) == TokenType::LEFTPAREN {
        lemma_expression(tokens, pos + 1, id);
        if let Ok(c) = expression(tokens, pos + 1, id) {
            lemma_numbered_is_spread(expr_ids(c.value), id, c.id);
            if kind_at(tokens, pos + 1 + c.used) == TokenType::RIGHTPAREN {
                lemma_statement(tokens, pos + c.used + 2, c.id);
                if let Ok(then) = statement(tokens, pos + c.used + 2, c.id) {
                    let first = expr_ids(c.value) + stmt_ids(then.value);
                    lemma_spread_join(
                        expr_ids(c.value),
                        stmt_ids(then.value),
                        id,
                        c.id,
                        c.id,
                        then.id,
                        id,
                        then.id,
                    );
                    let after = pos + c.used + 2 + then.used;
                    if kind_at(tokens, after) == TokenType::ELSE {
                        lemma_statement(tokens, after + 1, then.id);
                        if let Ok(other) = statement(tokens, after + 1, then.id) {
                            lemma_spread_join(
                                first,
                                stmt_ids(other.value),
                                id,
                                then.id,
                                then.id,
                                other.id,
                                id,
                                other.id,
                            );
                        }
                    } else {
                        assert(first + Seq::<u64>::empty() == first);
                    }
                }
            }
        }
    }
}

/// What [`while_stmt`] parses is well numbered.
pub proof fn lemma_while_stmt(tokens: Seq<Token>, pos: nat, id: u64)
    requires
        startable(tokens, pos, id),
    ensures
        well_spread(tokens, pos, id, id, while_stmt(tokens, pos, id), of_stmt()),
        while_stmt(tokens, pos, id) matches Ok(step) ==> step.used > 0,
    decreases remaining(tokens, pos), 25nat,
{
    reveal(while_stmt);
    reveal(expression);
    reveal(statement);
    if kind_at(tokens, pos) == TokenType::LEFTPAREN {
        lemma_expression(tokens, pos + 1, id);
        if let Ok(c) = expression(tokens, pos + 1, id) {
            lemma_numbered_is_spread(expr_ids(c.value), id, c.id);
            if kind_at(tokens, pos + 1 + c.used) == TokenType::RIGHTPAREN {
                lemma_statement(tokens, pos + c.used + 2, c.id);
                if let Ok(body) = statement(tokens, pos + c.used + 2, c.id) {
                    lemma_spread_join(
                        expr_ids(c.value),
                        stmt_ids(body.value),
                        id,
                        c.id,
                        c.id,
                        body.id,
                        id,
                        body.id,
                    );
                }
            }
        }
    }
}

/// What [`for_initializer`] parses is well numbered.
pub proof fn lemma_for_initializer(tokens: Seq<Token>, pos: nat, id: u64)
    requires
        startable(tokens, pos, id),
        id < pos,
    ensures
        well_spread(
            tokens,
            pos,
            id,
            id,
            for_initializer(tokens, pos, id),
            of_optional_stmt(),
        ),
        for_initializer(tokens, pos, id) matches Ok(step) ==> step.id < pos + step.used,
    decreases remaining(tokens, pos), 26nat,
{
    reveal(for_initializer);
    reveal(var_decl);
    reveal(expr_stmt);
    if kind_at(tokens, pos) == TokenType::SEMICOLON {
    } else if kind_at(tokens, pos) == TokenType::VAR {
        lemma_var_decl(tokens, pos + 1, id);
    } else {
        lemma_expr_stmt(tokens, pos, id);
    }
}

/// What [`optional_expression`] parses is well numbered.
pub proof fn lemma_optional_expression(tokens: Seq<Token>, pos: nat, id: u64, end: TokenType)
    requires
        startable(tokens, pos, id),
    ensures
        well_spread(
            tokens,
            pos,
            id,
            id,
            optional_expression(tokens, pos, id, end),
            of_optional(),
        ),
    decreases remaining(tokens, pos), 26nat,
{
    reveal(optional_expression);
    reveal(expression);
    if kind_at(tokens, pos) != end {
        lemma_expression(tokens, pos, id);
        if let Ok(e) = expression(tokens, pos, id) {
            lemma_numbered_is_spread(expr_ids(e.value), id, e.id);
        }
    }
}

/// The identities of two statements in a row.
pub proof fn lemma_stmts_ids_pair(first: StmtView, second: StmtView)
    ensures
        stmts_ids(seq![first, second], 2) == stmt_ids(first) + stmt_ids(second),
{
    let stmts = seq![first, second];
    assert(stmts_ids(stmts, 0) == Seq::<u64>::empty());
    assert(stmts_ids(stmts, 1) == stmts_ids(stmts, 0) + stmt_ids(stmts[0]));
    assert(Seq::<u64>::empty() + stmt_ids(first) == stmt_ids(first));
    assert(stmts_ids(stmts, 2) == stmts_ids(stmts, 1) + stmt_ids(stmts[1]));
}

/// The identities of the loop that a `for` statement stands for are those of
/// its clauses and its body, and that of the condition `true` where there is
/// no condition.
pub proof fn lemma_for_loop(
    initializer: Option<StmtView>,
    condition: Option<ExprView>,
    increment: Option<ExprView>,
    body: StmtView,
    id: u64,
    lo: u64,
    i1: u64,
    i2: u64,
    i3: u64,
    i4: u64,
)
    requires
        lo <= i1 <= i2 <= i3 <= i4,
        spread(of_optional_stmt()(initializer), lo, i1),
        spread(of_optional()(condition), i1, i2),
        spread(of_optional()(increment), i2, i3),
        spread(stmt_ids(body), i3, i4),
        id == i4,
        condition is None ==> i4 < u64::MAX,
    ensures
        spread(
            stmt_ids(for_loop(initializer, condition, increment, body, id)),
            lo,
            if condition is None {
                next_id(i4)
            } else {
                i4
            },
        ),
{
    let hi = if condition is None {
        next_id(i4)
    } else {
        i4
    };
    let stepped = match increment {
        Some(i) => StmtView::Block { stmts: seq![body, StmtView::ExprStmt(i)] },
        None => body,
    };
    let stepped_ids = stmt_ids(stepped);
    assert(spread(stepped_ids, i2, i4)) by {
        match increment {
            Some(i) => {
                let stmts = seq![body, StmtView::ExprStmt(i)];
                lemma_stmts_ids_pair(body, StmtView::ExprStmt(i));
                assert(stmt_ids(StmtView::ExprStmt(i)) == expr_ids(i));
                assert(stmts_ids(stmts, 2) == stmt_ids(body) + expr_ids(i));
                lemma_spread_join(stmt_ids(body), expr_ids(i), i3, i4, i2, i3, i2, i4);
            },
            None => {
                lemma_spread_widen(stmt_ids(body), i3, i4, i2, i4);
            },
        }
    }
    let cond_ids = match condition {
        Some(c) => expr_ids(c),
        None => seq![id],
    };
    let (c_lo, c_hi) = match condition {
        Some(c) => (i1, i2),
        None => (i4, next_id(i4)),
    };
    assert(spread(cond_ids, c_lo, c_hi));
    let looped = StmtView::While {
        condition: match condition {
            Some(c) => c,
            None => ExprView::Literal { id, value: crate::types::Object::Bool(true) },
        },
        body: Box::new(stepped),
    };
    assert(stmt_ids(looped) == cond_ids + stepped_ids);
    lemma_spread_join(cond_ids, stepped_ids, c_lo, c_hi, i2, i4, i1, hi);
    match initializer {
        Some(i) => {
            let stmts = seq![i, looped];
            lemma_stmts_ids_pair(i, looped);
            lemma_spread_join(stmt_ids(i), stmt_ids(looped), lo, i1, i1, hi, lo, hi);
        },
        None => {
            lemma_spread_widen(stmt_ids(looped), i1, hi, lo, hi);
        },
    }
}

/// What [`for_stmt`] parses is well numbered.
#[verifier::spinoff_prover]
pub proof fn lemma_for_stmt(tokens: Seq<Token>, pos: nat, id: u64)
    requires
        startable(tokens, pos, id),
    ensures
        well_spread(tokens, pos, id, id, for_stmt(tokens, pos, id), of_stmt()),
        for_stmt(tokens, pos, id) matches Ok(step) ==> step.used > 0,
    decreases remaining(tokens, pos), 25nat,
{
    reveal(for_stmt);
    reveal(for_initializer);
    reveal(optional_expression);
    reveal(statement);
    if kind_at(tokens, pos) == TokenType::LEFTPAREN {
        lemma_for_initializer(tokens, pos + 1, id);
        if let Ok(init) = for_initializer(tokens, pos + 1, id) {
            let at_condition = pos + 1 + init.used;
            lemma_optional_expression(tokens, at_condition, init.id, TokenType::SEMICOLON);
            if let Ok(cond) = optional_expression(tokens, at_condition, init.id, TokenType::SEMICOLON) {
                if kind_at(tokens, at_condition + cond.used) == TokenType::SEMICOLON {
                    let at_increment = at_condition + cond.used + 1;
                    lemma_optional_expression(tokens, at_increment, cond.id, TokenType::RIGHTPAREN);
                    if let Ok(incr) = optional_expression(
                        tokens,
                        at_increment,
                        cond.id,
                        TokenType::RIGHTPAREN,
                    ) {
                        if kind_at(tokens, at_increment + incr.used) == TokenType::RIGHTPAREN {
                            let at_body = at_increment + incr.used + 1;
                            lemma_statement(tokens, at_body, incr.id);
                            if let Ok(body) = statement(tokens, at_body, incr.id) {
                                lemma_for_loop(
                                    init.value,
                                    cond.value,
                                    incr.value,
                                    body.value,
                                    body.id,
                                    id,
                                    init.id,
                                    cond.id,
                                    incr.id,
                                    body.id,
                                );
                            }
                        }
                    }
                }
            }
        }
    }
}

/// What [`function`] parses is well numbered.
pub proof fn lemma_function(tokens: Seq<Token>, pos: nat, id: u64)
    requires
        startable(tokens, pos, id),
    ensures
        well_spread(tokens, pos, id, id, function(tokens, pos, id), of_func()),
        function(tokens, pos, id) matches Ok(step) ==> step.used > 0,
    decreases remaining(tokens, pos), 25nat,
{
    reveal(function);
    reveal(block);
    if kind_at(tokens, pos) == TokenType::IDENTIFIER && kind_at(tokens, pos + 1)
        == TokenType::LEFTPAREN {
        if let Ok((names, used)) = crate::parser::params(tokens, pos + 2) {
            if kind_at(tokens, pos + 2 + used) == TokenType::RIGHTPAREN && kind_at(
                tokens,
                pos + 3 + used,
            ) == TokenType::LEFTBRACE {
                lemma_block(tokens, pos + 4 + used, id);
            }
        }
    }
}

/// What [`methods_rest`] parses is well numbered.
pub proof fn lemma_methods_rest(
    tokens: Seq<Token>,
    pos: nat,
    id: u64,
    found: Seq<FuncView>,
    lo: u64,
)
    requires
        startable(tokens, pos, id),
        lo <= id,
        spread(funcs_ids(found, found.len()), lo, id),
    ensures
        well_spread(tokens, pos, id, lo, methods_rest(tokens, pos, id, found), of_funcs()),
    decreases remaining(tokens, pos), 30nat,
{
    reveal(methods_rest);
    reveal(function);
    if !(kind_at(tokens, pos) == TokenType::EOF || kind_at(tokens, pos) == TokenType::RIGHTBRACE) {
        lemma_function(tokens, pos, id);
        if let Ok(f) = function(tokens, pos, id) {
            if f.used > 0 {
                lemma_funcs_ids_push(found, f.value);
                lemma_spread_join(
                    funcs_ids(found, found.len()),
                    stmts_ids(f.value.body, f.value.body.len()),
                    lo,
                    id,
                    id,
                    f.id,
                    lo,
                    f.id,
                );
                lemma_methods_rest(tokens, pos + f.used, f.id, found.push(f.value), lo);
            }
        }
    }
}

/// What [`class_decl`] parses is well numbered.
pub proof fn lemma_class_decl(tokens: Seq<Token>, pos: nat, id: u64)
    requires
        startable(tokens, pos, id),
    ensures
        well_spread(tokens, pos, id, id, class_decl(tokens, pos, id), of_stmt()),
        class_decl(tokens, pos, id) matches Ok(step) ==> step.used > 0,
    decreases remaining(tokens, pos), 25nat,
{
    reveal(class_decl);
    reveal(methods_rest);
    if kind_at(tokens, pos) == TokenType::IDENTIFIER && kind_at(tokens, pos + 1)
        == TokenType::LEFTBRACE {
        lemma_methods_rest(tokens, pos + 2, id, Seq::empty(), id);
    }
}

/// What [`statement`] parses is well numbered.
pub proof fn lemma_statement(tokens: Seq<Token>, pos: nat, id: u64)
    requires
        startable(tokens, pos, id),
    ensures
        well_spread(tokens, pos, id, id, statement(tokens, pos, id), of_stmt()),
        statement(tokens, pos, id) matches Ok(step) ==> step.used > 0,
    decreases remaining(tokens, pos), 27nat,
{
    reveal(statement);
    reveal(return_stmt);
    reveal(block);
    reveal(if_stmt);
    reveal(while_stmt);
    reveal(for_stmt);
    reveal(expr_stmt);
    match kind_at(tokens, pos) {
        TokenType::RETURN => {
            lemma_return_stmt(tokens, pos + 1, id, token_at(tokens, pos));
        },
        TokenType::LEFTBRACE => {
            lemma_block(tokens, pos + 1, id);
        },
        TokenType::IF => {
            lemma_if_stmt(tokens, pos + 1, id);
        },
        TokenType::WHILE => {
            lemma_while_stmt(tokens, pos + 1, id);
        },
        TokenType::FOR => {
            lemma_for_stmt(tokens, pos + 1, id);
        },
        _ => {
            lemma_expr_stmt(tokens, pos, id);
        },
    }
}

/// What [`declaration`] parses is well numbered.
pub proof fn lemma_declaration(tokens: Seq<Token>, pos: nat, id: u64)
    requires
        startable(tokens, pos, id),
    ensures
        well_spread(tokens, pos, id, id, declaration(tokens, pos, id), of_stmt()),
        declaration(tokens, pos, id) matches Ok(step) ==> step.used > 0,
    decreases remaining(tokens, pos), 28nat,
{
    reveal(declaration);
    reveal(class_decl);
    reveal(function);
    reveal(var_decl);
    reveal(statement);
    match kind_at(tokens, pos) {
        TokenType::CLASS => {
            lemma_class_decl(tokens, pos + 1, id);
        },
        TokenType::FUN => {
            lemma_function(tokens, pos + 1, id);
        },
        TokenType::VAR => {
            lemma_var_decl(tokens, pos + 1, id);
        },
        _ => {
            lemma_statement(tokens, pos, id);
        },
    }
}

/// What [`program_rest`] parses is well numbered.
pub proof fn lemma_program_rest(
    tokens: Seq<Token>,
    pos: nat,
    id: u64,
    found: Seq<StmtView>,
    lo: u64,
)
    requires
        startable(tokens, pos, id),
        lo <= id,
        spread(stmts_ids(found, found.len()), lo, id),
    ensures
        well_spread(tokens, pos, id, lo, program_rest(tokens, pos, id, found), of_stmts()),
    decreases remaining(tokens, pos), 30nat,
{
    reveal(program_rest);
    reveal(declaration);
    if kind_at(tokens, pos) != TokenType::EOF {
        lemma_declaration(tokens, pos, id);
        if let Ok(d) = declaration(tokens, pos, id) {
            if d.used > 0 {
                lemma_stmts_ids_push(found, d.value);
                lemma_spread_join(
                    stmts_ids(found, found.len()),
                    stmt_ids(d.value),
                    lo,
                    id,
                    id,
                    d.id,
                    lo,
                    d.id,
                );
                lemma_program_rest(tokens, pos + d.used, d.id, found.push(d.value), lo);
            }
        }
    }
}

/// Expression identity: in a program that is parsed from the start of a
/// list of tokens, no two expressions share an identity.
pub proof fn lemma_program_is_numbered(tokens: Seq<Token>)
    requires
        tokens.len() <= u64::MAX,
    ensures
        program_rest(tokens, 0, 0, Seq::empty()) matches Ok(step) ==> stmts_ids(
            step.value,
            step.value.len(),
        ).no_duplicates(),
{
    lemma_program_rest(tokens, 0, 0, Seq::empty(), 0);
}

} // verus!
