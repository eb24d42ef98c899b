//! Values of the .tape language: truthiness, display, bytes, operators.

use tape::lang::ast::{BinOp, UnOp};
use tape::lang::value::{apply_binop, apply_unop, index_of, values_equal};
use tape::lang::Value;

#[test]
fn truthiness_of_each_value() {
    assert!(!Value::Nil.truthy());
    assert!(!Value::Bool(false).truthy());
    assert!(Value::Int(-1).truthy());
    assert!(!Value::Int(0).truthy());
    assert!(!Value::Str(String::new()).truthy());
    assert!(Value::Bytes(vec![0]).truthy());
    assert!(!Value::List(vec![]).truthy());
}

#[test]
fn display_and_bytes() {
    let v = Value::List(vec![Value::Int(1), Value::Str("a".into()), Value::List(vec![Value::Nil, Value::Bool(true)])]);
    assert_eq!(v.to_display(), "[1, a, [nil, true]]");
    assert_eq!(v.to_bytes(), b"[1, a, [nil, true]]".to_vec());
    assert_eq!(Value::Bytes(vec![104, 105, 0xff]).to_display(), "hi\u{fffd}");
    assert_eq!(Value::Str("é".into()).to_bytes(), vec![0xc3, 0xa9]);
    assert_eq!(Value::Int(i64::MIN).to_display(), "-9223372036854775808");
}

#[test]
fn operators_follow_rust_integer_rules() {
    let int = |n: i64| Value::Int(n);
    assert!(matches!(apply_binop(BinOp::Div, int(-7), int(2)), Ok(Value::Int(-3))));
    assert!(matches!(apply_binop(BinOp::Mod, int(-7), int(2)), Ok(Value::Int(-1))));
    assert_eq!(apply_binop(BinOp::Div, int(i64::MIN), int(-1)).unwrap_err(), "integer overflow");
    assert_eq!(apply_binop(BinOp::Mul, int(i64::MAX), int(2)).unwrap_err(), "integer overflow");
    assert_eq!(apply_unop(UnOp::Neg, int(i64::MIN)).unwrap_err(), "integer overflow");
    assert!(matches!(apply_unop(UnOp::Not, Value::Str("x".into())), Ok(Value::Bool(false))));
    assert!(matches!(apply_binop(BinOp::Lt, Value::Str("ab".into()), Value::Str("b".into())), Ok(Value::Bool(true))));
    assert!(matches!(apply_binop(BinOp::Ge, Value::Str("ab".into()), Value::Str("a".into())), Ok(Value::Bool(true))));
    assert!(matches!(apply_binop(BinOp::Eq, Value::List(vec![int(1)]), Value::List(vec![int(1)])), Ok(Value::Bool(true))));
    assert!(matches!(apply_binop(BinOp::Neq, int(1), Value::Str("1".into())), Ok(Value::Bool(true))));
    match apply_binop(BinOp::Add, int(2), Value::Str("x".into())) {
        Ok(Value::Str(s)) => assert_eq!(s, "2x"),
        other => panic!("got {:?}", other),
    }
    assert_eq!(apply_binop(BinOp::Add, int(1), Value::Nil).unwrap_err(), "+: unsupported operands");
}

#[test]
fn indexing_and_equality() {
    assert!(matches!(index_of(&Value::Bytes(vec![7, 8]), &Value::Int(1)), Ok(Value::Int(8))));
    assert!(index_of(&Value::Bytes(vec![7, 8]), &Value::Int(-1)).is_err());
    assert!(values_equal(&Value::Bytes(vec![1, 2]), &Value::Bytes(vec![1, 2])));
    assert!(!values_equal(&Value::Bytes(vec![1, 2]), &Value::Str("\u{1}\u{2}".into())));
    let l = Value::List(vec![Value::Int(3)]);
    assert!(values_equal(&l.duplicate(), &l));
}
