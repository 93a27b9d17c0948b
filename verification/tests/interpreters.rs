use snake::diamondback::ast::{Expression, Prim1, Prim2};
use snake::diamondback::interp::{interp_arith, interp_boa, interp_cmp, interp_diamond, interp_log, RuntimeError, SnakeVal};

fn num(n: i64) -> Box<Expression> {
    Box::new(Expression::Integer(n))
}

fn boolean(b: bool) -> Box<Expression> {
    Box::new(Expression::Boolean(b))
}

fn prim2(op: Prim2, a: Box<Expression>, b: Box<Expression>) -> Box<Expression> {
    Box::new(Expression::Prim2(op, a, b))
}

#[test]
fn boa_arithmetic_and_comparisons() {
    // (2 + 3) * 4 - 1 = 19
    let e = prim2(Prim2::Sub, prim2(Prim2::Mul, prim2(Prim2::Add, num(2), num(3)), num(4)), num(1));
    assert_eq!(interp_boa(&e), 19);
    assert_eq!(interp_boa(&prim2(Prim2::LEq, num(3), num(3))), 1);
    assert_eq!(interp_boa(&prim2(Prim2::LT, num(3), num(3))), 0);
    assert_eq!(interp_boa(&prim2(Prim2::GEq, num(2), num(3))), 0);
    assert_eq!(interp_boa(&prim2(Prim2::GT, num(4), num(3))), 1);
}

#[test]
fn boa_booleans_are_numbers() {
    assert_eq!(interp_boa(&Expression::Boolean(true)), 1);
    assert_eq!(interp_boa(&Expression::Boolean(false)), 0);
    // any nonzero number counts as true
    assert_eq!(interp_boa(&Expression::Prim1(Prim1::Not, num(7))), 0);
    assert_eq!(interp_boa(&Expression::Prim1(Prim1::Not, num(0))), 1);
    assert_eq!(interp_boa(&prim2(Prim2::And, num(5), boolean(true))), 1);
    assert_eq!(interp_boa(&prim2(Prim2::Or, num(0), boolean(false))), 0);
    // isint and isbool hold of everything
    assert_eq!(interp_boa(&Expression::Prim1(Prim1::IsInt, boolean(true))), 1);
    assert_eq!(interp_boa(&Expression::Prim1(Prim1::IsBool, num(3))), 1);
}

#[test]
fn boa_conditional_takes_nonzero_as_true() {
    let e = Expression::If(num(2), num(10), num(20));
    assert_eq!(interp_boa(&e), 10);
    let e = Expression::If(num(0), num(10), num(20));
    assert_eq!(interp_boa(&e), 20);
}

#[test]
fn diamond_values() {
    let e = prim2(Prim2::Add, num(40), num(2));
    assert_eq!(interp_diamond(&e), Ok(SnakeVal::Integer(42)));
    let e = prim2(Prim2::Sub, num(40), num(2));
    assert_eq!(interp_diamond(&e), Ok(SnakeVal::Integer(38)));
    let e = prim2(Prim2::Mul, num(-6), num(7));
    assert_eq!(interp_diamond(&e), Ok(SnakeVal::Integer(-42)));
    let e = prim2(Prim2::LT, num(1), num(2));
    assert_eq!(interp_diamond(&e), Ok(SnakeVal::Boolean(true)));
    let e = prim2(Prim2::GEq, num(1), num(2));
    assert_eq!(interp_diamond(&e), Ok(SnakeVal::Boolean(false)));
    let e = prim2(Prim2::Or, boolean(false), boolean(true));
    assert_eq!(interp_diamond(&e), Ok(SnakeVal::Boolean(true)));
    let e = Expression::Prim1(Prim1::IsInt, boolean(true));
    assert_eq!(interp_diamond(&e), Ok(SnakeVal::Boolean(false)));
    let e = Expression::Prim1(Prim1::IsBool, boolean(true));
    assert_eq!(interp_diamond(&e), Ok(SnakeVal::Boolean(true)));
    let e = Expression::If(boolean(false), num(1), num(2));
    assert_eq!(interp_diamond(&e), Ok(SnakeVal::Integer(2)));
}

#[test]
fn diamond_runtime_errors() {
    let e = prim2(Prim2::Add, num(1), boolean(true));
    assert_eq!(interp_diamond(&e), Err(RuntimeError::ArithExpectedInt));
    let e = prim2(Prim2::LEq, boolean(true), num(1));
    assert_eq!(interp_diamond(&e), Err(RuntimeError::CompareExpectedInt));
    let e = prim2(Prim2::And, num(1), boolean(true));
    assert_eq!(interp_diamond(&e), Err(RuntimeError::LogExpectedBool));
    let e = Expression::Prim1(Prim1::Not, num(1));
    assert_eq!(interp_diamond(&e), Err(RuntimeError::LogExpectedBool));
    let e = Expression::If(num(1), num(2), num(3));
    assert_eq!(interp_diamond(&e), Err(RuntimeError::IfExpectedBool));
    // the first error, left to right, is the one reported
    let e = prim2(Prim2::Add, prim2(Prim2::And, num(1), num(2)), Box::new(Expression::If(num(0), num(0), num(0))));
    assert_eq!(interp_diamond(&e), Err(RuntimeError::LogExpectedBool));
}

#[test]
fn diamond_helpers_apply_operation() {
    assert_eq!(interp_arith(&Expression::Integer(9), &Expression::Integer(4), |a, b| a - b), Ok(SnakeVal::Integer(5)));
    assert_eq!(interp_cmp(&Expression::Integer(9), &Expression::Integer(4), |a, b| a > b), Ok(SnakeVal::Boolean(true)));
    assert_eq!(interp_log(&Expression::Boolean(true), &Expression::Boolean(false), |a, b| a && b), Ok(SnakeVal::Boolean(false)));
    assert_eq!(interp_arith(&Expression::Boolean(true), &Expression::Integer(4), |a, b| a - b), Err(RuntimeError::ArithExpectedInt));
}

#[test]
fn boa_agrees_with_diamondback_without_type_tests() {
    // if 1 < 2 then (3 + 4) else 0
    let e = Expression::If(prim2(Prim2::LT, num(1), num(2)), prim2(Prim2::Add, num(3), num(4)), num(0));
    assert_eq!(interp_diamond(&e), Ok(SnakeVal::Integer(7)));
    assert_eq!(interp_boa(&e), 7);
    // (2 <= 1) || !false is true, which Boa reads as 1
    let b = Expression::Prim2(Prim2::Or, prim2(Prim2::LEq, num(2), num(1)), Box::new(Expression::Prim1(Prim1::Not, boolean(false))));
    assert_eq!(interp_diamond(&b), Ok(SnakeVal::Boolean(true)));
    assert_eq!(interp_boa(&b), 1);
}

#[test]
fn comparison_and_logic_helpers_call_the_operator_on_the_operands() {
    assert_eq!(interp_cmp(&Expression::Integer(1), &Expression::Integer(2), |a, b| a < b), Ok(SnakeVal::Boolean(true)));
    assert_eq!(interp_cmp(&Expression::Integer(1), &Expression::Boolean(false), |a, b| a < b), Err(RuntimeError::CompareExpectedInt));
    assert_eq!(interp_log(&Expression::Boolean(false), &Expression::Integer(1), |a, b| a && b), Err(RuntimeError::LogExpectedBool));
    assert_eq!(interp_log(&Expression::Boolean(true), &Expression::Boolean(false), |a, b| a || b), Ok(SnakeVal::Boolean(true)));
}

#[test]
fn diamondback_expressions_clone() {
    let e = Expression::If(boolean(true), num(1), prim2(Prim2::Add, num(2), num(3)));
    let c = e.clone();
    assert_eq!(interp_diamond(&c), interp_diamond(&e));
}
