use rlox::operators::{binary_op, logical_op, strip_terminator, unary_op, Applied, ArithOp};
use rlox::scanner::TokenType;
use rlox::types::{is_nan, number_eq, number_lt, number_neg, LoxClass, LoxInstance, NativeFunc, Object};
use rlox::table::Table;

fn num(x: f64) -> Object {
    Object::Num(x.to_bits())
}

fn text(s: &str) -> Object {
    Object::Str(s.to_string())
}

fn samples() -> Vec<f64> {
    vec![
        0.0,
        -0.0,
        1.0,
        -1.0,
        0.5,
        -0.5,
        1.5,
        2.0,
        1e300,
        -1e300,
        5e-324,
        -5e-324,
        f64::MIN_POSITIVE,
        f64::MAX,
        f64::MIN,
        f64::INFINITY,
        f64::NEG_INFINITY,
        f64::NAN,
        -f64::NAN,
        f64::EPSILON,
        3.141592653589793,
        -2.718281828459045,
        1e-300,
        123456789.0,
    ]
}

#[test]
fn number_equality_is_that_of_doubles() {
    for a in samples() {
        for b in samples() {
            assert_eq!(number_eq(a.to_bits(), b.to_bits()), a == b, "{} == {}", a, b);
        }
    }
}

#[test]
fn number_order_is_that_of_doubles() {
    for a in samples() {
        for b in samples() {
            assert_eq!(number_lt(a.to_bits(), b.to_bits()), a < b, "{} < {}", a, b);
        }
    }
}

#[test]
fn number_negation_is_that_of_doubles() {
    for a in samples() {
        let negated = f64::from_bits(number_neg(a.to_bits()));
        if a.is_nan() {
            assert!(negated.is_nan());
        } else {
            assert_eq!(negated.to_bits(), (-a).to_bits());
            assert_eq!(negated, -1.0 * a);
        }
    }
}

#[test]
fn nan_is_recognised() {
    for a in samples() {
        assert_eq!(is_nan(a.to_bits()), a.is_nan());
    }
    assert!(is_nan(0x7ff0_0000_0000_0001));
    assert!(is_nan(0xfff8_0000_0000_0000));
    assert!(!is_nan(0x7ff0_0000_0000_0000));
    assert!(!is_nan(0xfff0_0000_0000_0000));
}

#[test]
fn only_nil_and_false_are_falsey() {
    assert!(!Object::Nil.is_truthy());
    assert!(!Object::Bool(false).is_truthy());
    assert!(Object::Bool(true).is_truthy());
    assert!(num(0.0).is_truthy());
    assert!(num(-0.0).is_truthy());
    assert!(num(f64::NAN).is_truthy());
    assert!(text("").is_truthy());
    assert!(text("false").is_truthy());
    assert!(Object::Func(0).is_truthy());
    assert!(Object::NativeFunc(NativeFunc::PRINT).is_truthy());
    assert!(Object::Class(0).is_truthy());
    assert!(Object::ClassInstance(0).is_truthy());
}

fn one_of_each() -> Vec<Object> {
    vec![
        num(1.0),
        text("1"),
        Object::Bool(true),
        Object::Func(1),
        Object::NativeFunc(NativeFunc::INPUT),
        Object::Class(1),
        Object::ClassInstance(1),
        Object::Nil,
    ]
}

#[test]
fn values_of_different_variants_are_unequal() {
    let values = one_of_each();
    for (i, a) in values.iter().enumerate() {
        for (j, b) in values.iter().enumerate() {
            assert_eq!(a.equals(b), i == j, "{:?} == {:?}", a, b);
        }
    }
}

#[test]
fn equality_within_a_variant() {
    assert!(num(2.0).equals(&num(2.0)));
    assert!(!num(2.0).equals(&num(3.0)));
    assert!(num(0.0).equals(&num(-0.0)));
    assert!(!num(f64::NAN).equals(&num(f64::NAN)));
    assert!(text("ab").equals(&text("ab")));
    assert!(!text("ab").equals(&text("abc")));
    assert!(!text("ab").equals(&text("aB")));
    assert!(Object::Bool(false).equals(&Object::Bool(false)));
    assert!(!Object::Bool(false).equals(&Object::Bool(true)));
    assert!(Object::Func(3).equals(&Object::Func(3)));
    assert!(!Object::Func(3).equals(&Object::Func(4)));
    assert!(Object::Class(3).equals(&Object::Class(3)));
    assert!(!Object::Class(3).equals(&Object::Class(4)));
    assert!(Object::ClassInstance(3).equals(&Object::ClassInstance(3)));
    assert!(!Object::ClassInstance(3).equals(&Object::ClassInstance(4)));
    assert!(Object::NativeFunc(NativeFunc::PRINT).equals(&Object::NativeFunc(NativeFunc::PRINT)));
    assert!(!Object::NativeFunc(NativeFunc::PRINT).equals(&Object::NativeFunc(NativeFunc::PRINTLN)));
    assert!(Object::Nil.equals(&Object::Nil));
}

#[test]
fn equality_is_symmetric_and_reflexive_off_nan() {
    let mut values = one_of_each();
    values.extend(samples().into_iter().map(num));
    for a in &values {
        let nan = matches!(a, Object::Num(bits) if is_nan(*bits));
        assert_eq!(a.equals(a), !nan);
        for b in &values {
            assert_eq!(a.equals(b), b.equals(a));
        }
    }
}

#[test]
fn clone_keeps_the_value() {
    for v in one_of_each() {
        assert!(v.clone().equals(&v));
    }
    match text("abc").clone() {
        Object::Str(s) => assert_eq!(s, "abc"),
        _ => panic!("not a string"),
    }
}

fn value(applied: Applied) -> Object {
    match applied {
        Applied::Value(v) => v,
        other => panic!("no value: {:?}", other),
    }
}

fn message(applied: Applied) -> String {
    match applied {
        Applied::Fail(m) => m,
        other => panic!("no failure: {:?}", other),
    }
}

#[test]
fn arithmetic_is_asked_of_the_host() {
    let cases = [
        (TokenType::PLUS, ArithOp::Add),
        (TokenType::MINUS, ArithOp::Sub),
        (TokenType::STAR, ArithOp::Mul),
        (TokenType::SLASH, ArithOp::Div),
    ];
    for (token, expected) in cases {
        match binary_op(token, &num(6.0), &num(3.0)) {
            Applied::Ask { op, left, right } => {
                assert_eq!(op, expected);
                assert_eq!(left, 6.0f64.to_bits());
                assert_eq!(right, 3.0f64.to_bits());
            }
            other => panic!("not asked: {:?}", other),
        }
    }
}

#[test]
fn binary_operators_on_values() {
    assert!(value(binary_op(TokenType::PLUS, &text("ab"), &text("cd"))).equals(&text("abcd")));
    assert!(value(binary_op(TokenType::PLUS, &text(""), &text("x"))).equals(&text("x")));
    let bool_of = |a: Applied| matches!(value(a), Object::Bool(true));
    assert!(bool_of(binary_op(TokenType::LESS, &num(1.0), &num(2.0))));
    assert!(!bool_of(binary_op(TokenType::LESS, &num(2.0), &num(2.0))));
    assert!(bool_of(binary_op(TokenType::LESSEQUAL, &num(2.0), &num(2.0))));
    assert!(!bool_of(binary_op(TokenType::LESSEQUAL, &num(3.0), &num(2.0))));
    assert!(bool_of(binary_op(TokenType::GREATER, &num(3.0), &num(2.0))));
    assert!(!bool_of(binary_op(TokenType::GREATER, &num(2.0), &num(2.0))));
    assert!(bool_of(binary_op(TokenType::GREATEREQUAL, &num(2.0), &num(2.0))));
    assert!(!bool_of(binary_op(TokenType::GREATEREQUAL, &num(1.0), &num(2.0))));
    assert!(!bool_of(binary_op(TokenType::LESSEQUAL, &num(f64::NAN), &num(f64::NAN))));
    assert!(!bool_of(binary_op(TokenType::GREATEREQUAL, &num(f64::NAN), &num(1.0))));
    assert!(bool_of(binary_op(TokenType::EQUALEQUAL, &Object::Nil, &Object::Nil)));
    assert!(!bool_of(binary_op(TokenType::EQUALEQUAL, &Object::Nil, &num(0.0))));
    assert!(bool_of(binary_op(TokenType::BANGEQUAL, &Object::Nil, &num(0.0))));
    assert!(!bool_of(binary_op(TokenType::BANGEQUAL, &text("a"), &text("a"))));
    assert!(bool_of(binary_op(TokenType::BANGEQUAL, &num(f64::NAN), &num(f64::NAN))));
}

#[test]
fn comparisons_agree_with_doubles() {
    let bool_of = |a: Applied| matches!(value(a), Object::Bool(true));
    for a in samples() {
        for b in samples() {
            assert_eq!(bool_of(binary_op(TokenType::LESS, &num(a), &num(b))), a < b);
            assert_eq!(bool_of(binary_op(TokenType::LESSEQUAL, &num(a), &num(b))), a <= b);
            assert_eq!(bool_of(binary_op(TokenType::GREATER, &num(a), &num(b))), a > b);
            assert_eq!(bool_of(binary_op(TokenType::GREATEREQUAL, &num(a), &num(b))), a >= b);
            assert_eq!(bool_of(binary_op(TokenType::EQUALEQUAL, &num(a), &num(b))), a == b);
            assert_eq!(bool_of(binary_op(TokenType::BANGEQUAL, &num(a), &num(b))), a != b);
        }
    }
}

#[test]
fn operators_reject_what_does_not_fit() {
    assert_eq!(message(binary_op(TokenType::PLUS, &num(1.0), &text("a"))), "operands must be two numbers.");
    assert_eq!(message(binary_op(TokenType::PLUS, &text("a"), &num(1.0))), "operands must be two strings.");
    assert_eq!(
        message(binary_op(TokenType::PLUS, &Object::Nil, &Object::Nil)),
        "operands must be two numbers or two strings."
    );
    for op in [TokenType::MINUS, TokenType::STAR, TokenType::SLASH, TokenType::LESS, TokenType::LESSEQUAL,
        TokenType::GREATER, TokenType::GREATEREQUAL]
    {
        assert_eq!(message(binary_op(op, &num(1.0), &Object::Nil)), "operands must be two numbers.");
        assert_eq!(message(binary_op(op, &Object::Bool(true), &num(1.0))), "operands must be two numbers.");
        assert_eq!(message(binary_op(op, &text("a"), &text("b"))), "operands must be two numbers.");
    }
    assert_eq!(message(binary_op(TokenType::COMMA, &num(1.0), &num(1.0))), "Unknown operator.");
    assert_eq!(message(unary_op(TokenType::MINUS, &text("a"))), "operands must be numbers.");
    assert_eq!(message(unary_op(TokenType::PLUS, &num(1.0))), "Unknown operator.");
}

#[test]
fn unary_operators_on_values() {
    assert!(value(unary_op(TokenType::MINUS, &num(2.5))).equals(&num(-2.5)));
    assert!(value(unary_op(TokenType::MINUS, &num(-2.5))).equals(&num(2.5)));
    match value(unary_op(TokenType::MINUS, &num(0.0))) {
        Object::Num(bits) => assert_eq!(bits, (-0.0f64).to_bits()),
        _ => panic!("not a number"),
    }
    assert!(value(unary_op(TokenType::BANG, &Object::Nil)).equals(&Object::Bool(true)));
    assert!(value(unary_op(TokenType::BANG, &num(0.0))).equals(&Object::Bool(false)));
    assert!(value(unary_op(TokenType::BANG, &Object::Bool(false))).equals(&Object::Bool(true)));
}

#[test]
fn logical_operators_decide_on_the_left_operand() {
    assert_eq!(logical_op(TokenType::OR, &Object::Bool(true)), Some(true));
    assert_eq!(logical_op(TokenType::OR, &num(0.0)), Some(true));
    assert_eq!(logical_op(TokenType::OR, &Object::Nil), Some(false));
    assert_eq!(logical_op(TokenType::OR, &Object::Bool(false)), Some(false));
    assert_eq!(logical_op(TokenType::AND, &Object::Bool(true)), Some(false));
    assert_eq!(logical_op(TokenType::AND, &text("")), Some(false));
    assert_eq!(logical_op(TokenType::AND, &Object::Nil), Some(true));
    assert_eq!(logical_op(TokenType::AND, &Object::Bool(false)), Some(true));
    assert_eq!(logical_op(TokenType::PLUS, &Object::Nil), None);
}

#[test]
fn one_line_terminator_is_stripped() {
    assert_eq!(strip_terminator("abc\n".to_string()), "abc");
    assert_eq!(strip_terminator("abc\r\n".to_string()), "abc");
    assert_eq!(strip_terminator("abc".to_string()), "abc");
    assert_eq!(strip_terminator("abc\n\n".to_string()), "abc\n");
    assert_eq!(strip_terminator("abc \n".to_string()), "abc ");
    assert_eq!(strip_terminator("abc\r".to_string()), "abc\r");
    assert_eq!(strip_terminator("\n".to_string()), "");
    assert_eq!(strip_terminator("\r\n".to_string()), "");
    assert_eq!(strip_terminator("".to_string()), "");
    assert_eq!(strip_terminator("é\n".to_string()), "é");
}

#[test]
fn table_binds_and_replaces() {
    let mut table: Table<u32> = Table::new();
    let key = |s: &str| s.to_string();
    assert_eq!(table.get(&key("a")), None);
    assert!(!table.contains_key(&key("a")));
    table.insert(key("a"), 1);
    table.insert(key("b"), 2);
    assert_eq!(table.get(&key("a")), Some(&1));
    assert_eq!(table.get(&key("b")), Some(&2));
    assert_eq!(table.position(&key("b")), Some(1));
    table.insert(key("a"), 3);
    assert_eq!(table.get(&key("a")), Some(&3));
    assert_eq!(table.get(&key("b")), Some(&2));
    assert_eq!(table.entries.len(), 2);
    assert_eq!(table.get(&key("")), None);
    assert_eq!(table.get(&key("A")), None);
    assert!(table.contains_key(&key("b")));
}

#[test]
fn instance_fields() {
    let mut instance = LoxInstance::new(4);
    assert_eq!(instance.klass, 4);
    assert!(instance.get(&"x".to_string()).is_none());
    instance.set("x".to_string(), num(1.0));
    instance.set("y".to_string(), text("why"));
    instance.set("x".to_string(), num(2.0));
    assert!(instance.get(&"x".to_string()).unwrap().equals(&num(2.0)));
    assert!(instance.get(&"y".to_string()).unwrap().equals(&text("why")));
    assert!(instance.get(&"z".to_string()).is_none());
}

#[test]
fn class_without_methods() {
    let class = LoxClass::new("Empty".to_string(), Table::new());
    assert_eq!(class.name, "Empty");
    assert!(class.find_method(&"init".to_string()).is_none());
}
