//! What the operators of the language do to values.

use vstd::prelude::*;
use vstd::string::*;
use crate::scanner::TokenType;
use crate::types::{
    Object, ObjectView, num_equal, num_less, num_negated, number_eq, number_lt, number_neg, truthy,
    values_equal,
};

verus! {

/// The arithmetic that the host performs on two doubles.
#[derive(Debug, Clone, Copy, PartialEq, Eq, Structural)]
pub enum ArithOp {
    Add,
    Sub,
    Mul,
    Div,
}

/// What applying an operator to its operands leads to.
pub enum Outcome {
    /// The operator yields this value.
    Value(ObjectView),
    /// The host has to compute `left op right`.
    Ask { op: ArithOp, left: u64, right: u64 },
    /// The operands do not fit the operator: a runtime error with this message.
    Fail(Seq<char>),
}

/// What applying an operator to its operands leads to.
#[derive(Debug)]
pub enum Applied {
    Value(Object),
    Ask { op: ArithOp, left: u64, right: u64 },
    Fail(String),
}

impl View for Applied {
    type V = Outcome;

    open spec fn view(&self) -> Outcome {
        match self {
            Applied::Value(v) => Outcome::Value(v@),
            Applied::Ask { op, left, right } => Outcome::Ask {
                op: *op,
                left: *left,
                right: *right,
            },
            Applied::Fail(m) => Outcome::Fail(m@),
        }
    }
}

/// An arithmetic operator on two operands: the host computes on two numbers,
/// anything else is an error.
pub open spec fn arithmetic_outcome(op: ArithOp, l: ObjectView, r: ObjectView) -> Outcome {
    match (l, r) {
        (ObjectView::Num(a), ObjectView::Num(b)) => Outcome::Ask { op, left: a, right: b },
        _ => Outcome::Fail("operands must be two numbers."@),
    }
}

/// `+` on two operands: the host adds two numbers, two strings are joined,
/// anything else is an error.
pub open spec fn plus_outcome(l: ObjectView, r: ObjectView) -> Outcome {
    match l {
        ObjectView::Num(a) => match r {
            ObjectView::Num(b) => Outcome::Ask { op: ArithOp::Add, left: a, right: b },
            _ => Outcome::Fail("operands must be two numbers."@),
        },
        ObjectView::Str(a) => match r {
            ObjectView::Str(b) => Outcome::Value(ObjectView::Str(a + b)),
            _ => Outcome::Fail("operands must be two strings."@),
        },
        _ => Outcome::Fail("operands must be two numbers or two strings."@),
    }
}

/// What a comparison operator says of two numbers.
pub open spec fn compares(op: TokenType, a: u64, b: u64) -> bool {
    match op {
        TokenType::GREATER => num_less(b, a),
        TokenType::GREATEREQUAL => num_less(b, a) || num_equal(a, b),
        TokenType::LESS => num_less(a, b),
        _ => num_less(a, b) || num_equal(a, b),
    }
}

/// A comparison of two operands: a boolean for two numbers, an error otherwise.
pub open spec fn comparison_outcome(op: TokenType, l: ObjectView, r: ObjectView) -> Outcome {
    match (l, r) {
        (ObjectView::Num(a), ObjectView::Num(b)) => Outcome::Value(
            ObjectView::Bool(compares(op, a, b)),
        ),
        _ => Outcome::Fail("operands must be two numbers."@),
    }
}

/// What a binary operator leads to on two operands.
pub open spec fn binary_outcome(op: TokenType, l: ObjectView, r: ObjectView) -> Outcome {
    match op {
        TokenType::PLUS => plus_outcome(l, r),
        TokenType::MINUS => arithmetic_outcome(ArithOp::Sub, l, r),
        TokenType::STAR => arithmetic_outcome(ArithOp::Mul, l, r),
        TokenType::SLASH => arithmetic_outcome(ArithOp::Div, l, r),
        TokenType::GREATER => comparison_outcome(op, l, r),
        TokenType::GREATEREQUAL => comparison_outcome(op, l, r),
        TokenType::LESS => comparison_outcome(op, l, r),
        TokenType::LESSEQUAL => comparison_outcome(op, l, r),
        TokenType::EQUALEQUAL => Outcome::Value(ObjectView::Bool(values_equal(l, r))),
        TokenType::BANGEQUAL => Outcome::Value(ObjectView::Bool(!values_equal(l, r))),
        _ => Outcome::Fail("Unknown operator."@),
    }
}

/// What a unary operator leads to on its operand: `-` flips the sign of a
/// number and fails on anything else, `!` negates truthiness.
pub open spec fn unary_outcome(op: TokenType, v: ObjectView) -> Outcome {
    match op {
        TokenType::MINUS => match v {
            ObjectView::Num(n) => Outcome::Value(ObjectView::Num(num_negated(n))),
            _ => Outcome::Fail("operands must be numbers."@),
        },
        TokenType::BANG => Outcome::Value(ObjectView::Bool(!truthy(v))),
        _ => Outcome::Fail("Unknown operator."@),
    }
}

/// Whether a logical operator is decided by its left operand alone:
/// `or` by a truthy one, `and` by a falsey one. `None` for any other operator.
pub open spec fn short_circuits(op: TokenType, left: ObjectView) -> Option<bool> {
    match op {
        TokenType::OR => Some(truthy(left)),
        TokenType::AND => Some(!truthy(left)),
        _ => None,
    }
}

fn arithmetic(op: ArithOp, left: &Object, right: &Object) -> (r: Applied)
    ensures
        r@ == arithmetic_outcome(op, left@, right@),
{
    match left {
        Object::Num(l) => match right {
            Object::Num(r) => Applied::Ask { op, left: *l, right: *r },
            _ => Applied::Fail("operands must be two numbers.".to_owned()),
        },
        _ => Applied::Fail("operands must be two numbers.".to_owned()),
    }
}

fn comparison(op: TokenType, left: &Object, right: &Object) -> (r: Applied)
    ensures
        r@ == comparison_outcome(op, left@, right@),
{
    match left {
        Object::Num(l) => match right {
            Object::Num(r) => {
                let result = match op {
                    TokenType::GREATER => number_lt(*r, *l),
                    TokenType::GREATEREQUAL => number_lt(*r, *l) || number_eq(*l, *r),
                    TokenType::LESS => number_lt(*l, *r),
                    _ => number_lt(*l, *r) || number_eq(*l, *r),
                };
                Applied::Value(Object::Bool(result))
            },
            _ => Applied::Fail("operands must be two numbers.".to_owned()),
        },
        _ => Applied::Fail("operands must be two numbers.".to_owned()),
    }
}

/// Applies a binary operator to two operands.
pub fn binary_op(op: TokenType, left: &Object, right: &Object) -> (r: Applied)
    ensures
        r@ == binary_outcome(op, left@, right@),
{
    match op {
        TokenType::MINUS => arithmetic(ArithOp::Sub, left, right),
        TokenType::PLUS => match left {
            Object::Num(l) => match right {
                Object::Num(r) => Applied::Ask { op: ArithOp::Add, left: *l, right: *r },
                _ => Applied::Fail("operands must be two numbers.".to_owned()),
            },
            Object::Str(l) => match right {
                Object::Str(r) => {
                    let mut s = l.clone();
                    s.append(r.as_str());
                    Applied::Value(Object::Str(s))
                },
                _ => Applied::Fail("operands must be two strings.".to_owned()),
            },
            _ => Applied::Fail("operands must be two numbers or two strings.".to_owned()),
        },
        TokenType::STAR => arithmetic(ArithOp::Mul, left, right),
        TokenType::SLASH => arithmetic(ArithOp::Div, left, right),
        TokenType::GREATER => comparison(op, left, right),
        TokenType::LESS => comparison(op, left, right),
        TokenType::GREATEREQUAL => comparison(op, left, right),
        TokenType::LESSEQUAL => comparison(op, left, right),
        TokenType::EQUALEQUAL => Applied::Value(Object::Bool(left.equals(right))),
        TokenType::BANGEQUAL => Applied::Value(Object::Bool(!left.equals(right))),
        _ => Applied::Fail("Unknown operator.".to_owned()),
    }
}

/// Applies a unary operator to its operand.
pub fn unary_op(op: TokenType, right: &Object) -> (r: Applied)
    ensures
        r@ == unary_outcome(op, right@),
{
    match op {
        TokenType::MINUS => match right {
            Object::Num(n) => Applied::Value(Object::Num(number_neg(*n))),
            _ => Applied::Fail("operands must be numbers.".to_owned()),
        },
        TokenType::BANG => Applied::Value(Object::Bool(!right.is_truthy())),
        _ => Applied::Fail("Unknown operator.".to_owned()),
    }
}

/// Decides whether a logical operator is settled by its left operand, so that
/// its right operand is not evaluated.
pub fn logical_op(op: TokenType, left: &Object) -> (r: Option<bool>)
    ensures
        r == short_circuits(op, left@),
{
    match op {
        TokenType::OR => Some(left.is_truthy()),
        TokenType::AND => Some(!left.is_truthy()),
        _ => None,
    }
}

/// The line without one trailing line terminator: `\r\n` or `\n`.
pub open spec fn without_terminator(line: Seq<char>) -> Seq<char> {
    if line.len() >= 2 && line[line.len() - 2] == '\r' && line[line.len() - 1] == '\n' {
        line.take(line.len() - 2)
    } else if line.len() >= 1 && line[line.len() - 1] == '\n' {
        line.take(line.len() - 1)
    } else {
        line
    }
}

/// Strips one trailing line terminator from a line that was read.
pub fn strip_terminator(line: String) -> (r: String)
    ensures
        r@ == without_terminator(line@),
{
    let text = line.as_str();
    let n = text.unicode_len();
    if n >= 2 && text.get_char(n - 2) == '\r' && text.get_char(n - 1) == '\n' {
        let cut = text.substring_char(0, n - 2);
        cut.to_owned()
    } else if n >= 1 && text.get_char(n - 1) == '\n' {
        let cut = text.substring_char(0, n - 1);
        cut.to_owned()
    } else {
        line
    }
}

} // verus!
