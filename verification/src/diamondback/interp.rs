//! Interpreters of the expression language.

use vstd::prelude::*;
use super::ast::{Expression, Prim1, Prim2, size};

verus! {

// ------------------------------------------------------------ Boa: coercions

pub open spec fn bool_as_int(b: bool) -> int {
    if b { 1 } else { 0 }
}

pub open spec fn fits_i64(v: int) -> bool {
    i64::MIN <= v <= i64::MAX
}

/// The value of `e` under the Boa semantics, on unbounded integers: booleans
/// are 1 and 0, any nonzero number counts as true, and `isint` and `isbool`
/// hold of everything.
pub open spec fn boa_value(e: Expression) -> int
    decreases e,
{
    match e {
        Expression::Integer(n) => n as int,
        Expression::Boolean(b) => bool_as_int(b),
        Expression::Prim1(Prim1::IsInt, _) => 1,
        Expression::Prim1(Prim1::IsBool, _) => 1,
        Expression::If(c, t, f) => if boa_value(*c) != 0 { boa_value(*t) } else { boa_value(*f) },
        Expression::Prim1(Prim1::Not, a) => bool_as_int(boa_value(*a) == 0),
        Expression::Prim2(op, a, b) => {
            let x = boa_value(*a);
            match op {
                Prim2::Add => x + boa_value(*b),
                Prim2::Sub => x - boa_value(*b),
                Prim2::Mul => x * boa_value(*b),
                Prim2::LEq => bool_as_int(x <= boa_value(*b)),
                Prim2::LT => bool_as_int(x < boa_value(*b)),
                Prim2::GEq => bool_as_int(x >= boa_value(*b)),
                Prim2::GT => bool_as_int(x > boa_value(*b)),
                Prim2::And => bool_as_int(x != 0 && boa_value(*b) != 0),
                Prim2::Or => bool_as_int(x != 0 || boa_value(*b) != 0),
            }
        },
    }
}

/// Every subexpression that the Boa interpreter evaluates has a value that
/// fits in an `i64`. `isint` and `isbool` do not evaluate their argument, a
/// conditional evaluates one branch, and `and` and `or` skip their right
/// operand when the left one decides.
pub open spec fn boa_fits(e: Expression) -> bool
    decreases e,
{
    &&& fits_i64(boa_value(e))
    &&& match e {
        Expression::Integer(_) | Expression::Boolean(_) => true,
        Expression::Prim1(Prim1::Not, a) => boa_fits(*a),
        Expression::Prim1(_, _) => true,
        Expression::If(c, t, f) => boa_fits(*c) && if boa_value(*c) != 0 { boa_fits(*t) } else { boa_fits(*f) },
        Expression::Prim2(Prim2::And, a, b) => boa_fits(*a) && (boa_value(*a) != 0 ==> boa_fits(*b)),
        Expression::Prim2(Prim2::Or, a, b) => boa_fits(*a) && (boa_value(*a) == 0 ==> boa_fits(*b)),
        Expression::Prim2(_, a, b) => boa_fits(*a) && boa_fits(*b),
    }
}

fn bool_to_int(b: bool) -> (n: i64)
    ensures
        n == bool_as_int(b),
{
    if b {
        1
    } else {
        0
    }
}

fn int_to_bool(n: i64) -> (b: bool)
    ensures
        b == (n != 0),
{
    n != 0
}

/// Evaluates `e` under the Boa semantics.
pub fn interp_boa(e: &Expression) -> (r: i64)
    requires
        boa_fits(*e),
    ensures
        r == boa_value(*e),
    decreases e,
{
    match e {
        Expression::Integer(n) => *n,
        Expression::Boolean(b) => {
            if *b {
                1
            } else {
                0
            }
        },
        Expression::Prim1(Prim1::IsInt, _e) => bool_to_int(true),
        Expression::Prim1(Prim1::IsBool, _e) => bool_to_int(true),
        Expression::If(cond, thn, els) => {
            if int_to_bool(interp_boa(cond)) {
                interp_boa(thn)
            } else {
                interp_boa(els)
            }
        },
        Expression::Prim1(Prim1::Not, e) => bool_to_int(!(int_to_bool(interp_boa(e)))),
        Expression::Prim2(Prim2::Add, e1, e2) => interp_boa(e1) + interp_boa(e2),
        Expression::Prim2(Prim2::Sub, e1, e2) => interp_boa(e1) - interp_boa(e2),
        Expression::Prim2(Prim2::Mul, e1, e2) => interp_boa(e1) * interp_boa(e2),
        Expression::Prim2(Prim2::LEq, e1, e2) => bool_to_int(interp_boa(e1) <= interp_boa(e2)),
        Expression::Prim2(Prim2::LT, e1, e2) => bool_to_int(interp_boa(e1) < interp_boa(e2)),
        Expression::Prim2(Prim2::GEq, e1, e2) => bool_to_int(interp_boa(e1) >= interp_boa(e2)),
        Expression::Prim2(Prim2::GT, e1, e2) => bool_to_int(interp_boa(e1) > interp_boa(e2)),
        Expression::Prim2(Prim2::And, e1, e2) => {
            bool_to_int(int_to_bool(interp_boa(e1)) && int_to_bool(interp_boa(e2)))
        },
        Expression::Prim2(Prim2::Or, e1, e2) => {
            bool_to_int(int_to_bool(interp_boa(e1)) || int_to_bool(interp_boa(e2)))
        },
    }
}

// ------------------------------------------------- Diamondback: dynamic typing

#[derive(Debug, PartialEq, Eq, Structural)]
pub enum RuntimeError {
    ArithExpectedInt,
    CompareExpectedInt,
    LogExpectedBool,
    IfExpectedBool,
}

#[derive(Copy, Clone, Debug, PartialEq, Eq, Structural)]
pub enum SnakeVal {
    Integer(i64),
    Boolean(bool),
}

/// A value, its integer taken as an unbounded one.
pub enum Value {
    Int(int),
    Bool(bool),
}

impl View for SnakeVal {
    type V = Value;

    open spec fn view(&self) -> Value {
        match self {
            SnakeVal::Integer(n) => Value::Int(*n as int),
            SnakeVal::Boolean(b) => Value::Bool(*b),
        }
    }
}

/// What a binary primitive gives on two values: arithmetic and comparison
/// need integers, logic needs booleans; both operands are always evaluated.
pub open spec fn apply_prim2(op: Prim2, v1: Value, v2: Value) -> Result<Value, RuntimeError> {
    match op {
        Prim2::Add | Prim2::Sub | Prim2::Mul => match (v1, v2) {
            (Value::Int(a), Value::Int(b)) => Ok(
                Value::Int(
                    match op {
                        Prim2::Add => a + b,
                        Prim2::Sub => a - b,
                        _ => a * b,
                    },
                ),
            ),
            _ => Err(RuntimeError::ArithExpectedInt),
        },
        Prim2::LEq | Prim2::LT | Prim2::GEq | Prim2::GT => match (v1, v2) {
            (Value::Int(a), Value::Int(b)) => Ok(
                Value::Bool(
                    match op {
                        Prim2::LEq => a <= b,
                        Prim2::LT => a < b,
                        Prim2::GEq => a >= b,
                        _ => a > b,
                    },
                ),
            ),
            _ => Err(RuntimeError::CompareExpectedInt),
        },
        Prim2::And | Prim2::Or => match (v1, v2) {
            (Value::Bool(a), Value::Bool(b)) => Ok(Value::Bool(if op is And { a && b } else { a || b })),
            _ => Err(RuntimeError::LogExpectedBool),
        },
    }
}

/// The value of `e` under the Diamondback semantics, or the first runtime
/// error met, evaluating left to right.
pub open spec fn diamond_value(e: Expression) -> Result<Value, RuntimeError>
    decreases e,
{
    match e {
        Expression::Integer(n) => Ok(Value::Int(n as int)),
        Expression::Boolean(b) => Ok(Value::Bool(b)),
        Expression::Prim1(p, a) => match diamond_value(*a) {
            Err(x) => Err(x),
            Ok(v) => match p {
                Prim1::IsInt => Ok(Value::Bool(v is Int)),
                Prim1::IsBool => Ok(Value::Bool(v is Bool)),
                Prim1::Not => match v {
                    Value::Bool(b) => Ok(Value::Bool(!b)),
                    Value::Int(_) => Err(RuntimeError::LogExpectedBool),
                },
            },
        },
        Expression::If(c, t, f) => match diamond_value(*c) {
            Err(x) => Err(x),
            Ok(Value::Bool(b)) => if b { diamond_value(*t) } else { diamond_value(*f) },
            Ok(Value::Int(_)) => Err(RuntimeError::IfExpectedBool),
        },
        Expression::Prim2(op, a, b) => match diamond_value(*a) {
            Err(x) => Err(x),
            Ok(v1) => match diamond_value(*b) {
                Err(x) => Err(x),
                Ok(v2) => apply_prim2(op, v1, v2),
            },
        },
    }
}

/// Every integer that the Diamondback interpreter computes fits in an `i64`.
pub open spec fn diamond_fits(e: Expression) -> bool
    decreases e,
{
    match e {
        Expression::Integer(_) | Expression::Boolean(_) => true,
        Expression::Prim1(_, a) => diamond_fits(*a),
        Expression::If(c, t, f) => {
            &&& diamond_fits(*c)
            &&& diamond_value(*c) == Ok::<Value, RuntimeError>(Value::Bool(true)) ==> diamond_fits(*t)
            &&& diamond_value(*c) == Ok::<Value, RuntimeError>(Value::Bool(false)) ==> diamond_fits(*f)
        },
        Expression::Prim2(_, a, b) => {
            &&& diamond_fits(*a)
            &&& diamond_value(*a) is Ok ==> diamond_fits(*b)
            &&& diamond_value(e) matches Ok(Value::Int(v)) ==> fits_i64(v)
        },
    }
}

/// An integer that the interpreter computes under `diamond_fits` fits in an `i64`.
proof fn lemma_value_fits(e: Expression)
    requires
        diamond_fits(e),
    ensures
        diamond_value(e) matches Ok(Value::Int(v)) ==> fits_i64(v),
    decreases e,
{
    match e {
        Expression::If(c, t, f) => {
            lemma_value_fits(*c);
            if diamond_value(*c) == Ok::<Value, RuntimeError>(Value::Bool(true)) {
                lemma_value_fits(*t);
            }
            if diamond_value(*c) == Ok::<Value, RuntimeError>(Value::Bool(false)) {
                lemma_value_fits(*f);
            }
        },
        _ => {},
    }
}

/// The two integers of two integer values.
pub open spec fn int_operands(v1: Value, v2: Value) -> Option<(i64, i64)> {
    match (v1, v2) {
        (Value::Int(a), Value::Int(b)) => Some((a as i64, b as i64)),
        _ => None,
    }
}

/// The integers that both operands evaluate to, if they do.
pub open spec fn evaluated_int_operands(e1: Expression, e2: Expression) -> Option<(i64, i64)> {
    match (diamond_value(e1), diamond_value(e2)) {
        (Ok(v1), Ok(v2)) => int_operands(v1, v2),
        _ => None,
    }
}

/// A result of the interpreter agrees with a result of the semantics.
pub open spec fn result_matches(r: Result<SnakeVal, RuntimeError>, s: Result<Value, RuntimeError>) -> bool {
    match s {
        Ok(v) => r is Ok && r->Ok_0@ == v,
        Err(x) => r == Err::<SnakeVal, RuntimeError>(x),
    }
}

fn assert_int(v: SnakeVal) -> (r: Option<i64>)
    ensures
        r == match v {
            SnakeVal::Integer(n) => Some(n),
            SnakeVal::Boolean(_) => None::<i64>,
        },
{
    match v {
        SnakeVal::Integer(n) => Some(n),
        SnakeVal::Boolean(_) => None,
    }
}

fn assert_bool(v: SnakeVal) -> (r: Option<bool>)
    ensures
        r == match v {
            SnakeVal::Boolean(b) => Some(b),
            SnakeVal::Integer(_) => None::<bool>,
        },
{
    match v {
        SnakeVal::Boolean(b) => Some(b),
        SnakeVal::Integer(_) => None,
    }
}

/// Evaluates `e1` and `e2` and applies the arithmetic operation `op` to their
/// integers; a boolean operand is an `ArithExpectedInt` error.
pub fn interp_arith(e1: &Expression, e2: &Expression, op: impl Fn(i64, i64) -> i64) -> (r: Result<SnakeVal, RuntimeError>)
    requires
        diamond_fits(*e1),
        diamond_value(*e1) is Ok ==> diamond_fits(*e2),
        forall|a: int, b: int|
            diamond_value(*e1) == Ok::<Value, RuntimeError>(Value::Int(a)) && diamond_value(*e2) == Ok::<Value, RuntimeError>(Value::Int(b))
                ==> call_requires(op, (a as i64, b as i64)),
    ensures
        match (diamond_value(*e1), diamond_value(*e2)) {
            (Err(x), _) => r == Err::<SnakeVal, RuntimeError>(x),
            (Ok(_), Err(x)) => r == Err::<SnakeVal, RuntimeError>(x),
            (Ok(Value::Int(a)), Ok(Value::Int(b))) => r matches Ok(SnakeVal::Integer(n)) && call_ensures(op, (a as i64, b as i64), n),
            _ => r == Err::<SnakeVal, RuntimeError>(RuntimeError::ArithExpectedInt),
        },
    decreases size(*e1) + size(*e2), 2nat,
{
    let v1 = interp_diamond(e1)?;
    let v2 = interp_diamond(e2)?;
    let n1 = match assert_int(v1) {
        Some(n) => n,
        None => return Err(RuntimeError::ArithExpectedInt),
    };
    let n2 = match assert_int(v2) {
        Some(n) => n,
        None => return Err(RuntimeError::ArithExpectedInt),
    };
    Ok(SnakeVal::Integer(op(n1, n2)))
}

/// Evaluates `e1` and `e2` and compares their integers with `op`; a boolean
/// operand is a `CompareExpectedInt` error.
pub fn interp_cmp(e1: &Expression, e2: &Expression, op: impl Fn(i64, i64) -> bool) -> (r: Result<SnakeVal, RuntimeError>)
    requires
        diamond_fits(*e1),
        diamond_value(*e1) is Ok ==> diamond_fits(*e2),
        forall|a: i64, b: i64| evaluated_int_operands(*e1, *e2) == Some((a, b)) ==> call_requires(op, (a, b)),
    ensures
        match (diamond_value(*e1), diamond_value(*e2)) {
            (Err(x), _) => r == Err::<SnakeVal, RuntimeError>(x),
            (Ok(_), Err(x)) => r == Err::<SnakeVal, RuntimeError>(x),
            (Ok(v1), Ok(v2)) => match int_operands(v1, v2) {
                Some(ab) => r matches Ok(SnakeVal::Boolean(c)) && call_ensures(op, ab, c),
                None => r == Err::<SnakeVal, RuntimeError>(RuntimeError::CompareExpectedInt),
            },
        },
    decreases size(*e1) + size(*e2), 2nat,
{
    let v1 = interp_diamond(e1)?;
    let v2 = interp_diamond(e2)?;
    let n1 = match assert_int(v1) {
        Some(n) => n,
        None => return Err(RuntimeError::CompareExpectedInt),
    };
    let n2 = match assert_int(v2) {
        Some(n) => n,
        None => return Err(RuntimeError::CompareExpectedInt),
    };
    Ok(SnakeVal::Boolean(op(n1, n2)))
}

/// Evaluates `e1` and `e2` and combines their booleans with `op`; an integer
/// operand is a `LogExpectedBool` error.
pub fn interp_log(e1: &Expression, e2: &Expression, op: impl Fn(bool, bool) -> bool) -> (r: Result<SnakeVal, RuntimeError>)
    requires
        diamond_fits(*e1),
        diamond_value(*e1) is Ok ==> diamond_fits(*e2),
        forall|a: bool, b: bool|
            diamond_value(*e1) == Ok::<Value, RuntimeError>(Value::Bool(a)) && diamond_value(*e2) == Ok::<Value, RuntimeError>(Value::Bool(b))
                ==> call_requires(op, (a, b)),
    ensures
        match (diamond_value(*e1), diamond_value(*e2)) {
            (Err(x), _) => r == Err::<SnakeVal, RuntimeError>(x),
            (Ok(_), Err(x)) => r == Err::<SnakeVal, RuntimeError>(x),
            (Ok(Value::Bool(a)), Ok(Value::Bool(b))) => r matches Ok(SnakeVal::Boolean(c)) && call_ensures(op, (a, b), c),
            _ => r == Err::<SnakeVal, RuntimeError>(RuntimeError::LogExpectedBool),
        },
    decreases size(*e1) + size(*e2), 2nat,
{
    let v1 = interp_diamond(e1)?;
    let v2 = interp_diamond(e2)?;
    let b1 = match assert_bool(v1) {
        Some(b) => b,
        None => return Err(RuntimeError::LogExpectedBool),
    };
    let b2 = match assert_bool(v2) {
        Some(b) => b,
        None => return Err(RuntimeError::LogExpectedBool),
    };
    Ok(SnakeVal::Boolean(op(b1, b2)))
}

/// Evaluates `e` under the Diamondback semantics.
pub fn interp_diamond(e: &Expression) -> (r: Result<SnakeVal, RuntimeError>)
    requires
        diamond_fits(*e),
    ensures
        result_matches(r, diamond_value(*e)),
    decreases size(*e), 1nat,
{
    proof {
        if let Expression::Prim2(_, e1, e2) = e {
            lemma_value_fits(**e1);
            if diamond_value(**e1) is Ok {
                lemma_value_fits(**e2);
            }
        }
    }
    match e {
        Expression::Integer(n) => Ok(SnakeVal::Integer(*n)),

        Expression::Boolean(b) => Ok(SnakeVal::Boolean(*b)),

        Expression::Prim1(Prim1::IsInt, e) => match interp_diamond(e)? {
            SnakeVal::Integer(_) => Ok(SnakeVal::Boolean(true)),
            SnakeVal::Boolean(_) => Ok(SnakeVal::Boolean(false)),
        },

        Expression::Prim1(Prim1::IsBool, e) => match interp_diamond(e)? {
            SnakeVal::Integer(_) => Ok(SnakeVal::Boolean(false)),
            SnakeVal::Boolean(_) => Ok(SnakeVal::Boolean(true)),
        },

        Expression::If(cond, thn, els) => {
            let b: bool = match assert_bool(interp_diamond(cond)?) {
                Some(b) => b,
                None => return Err(RuntimeError::IfExpectedBool),
            };
            if b {
                interp_diamond(thn)
            } else {
                interp_diamond(els)
            }
        },

        Expression::Prim1(Prim1::Not, e) => {
            let v = interp_diamond(e)?;
            let b = match assert_bool(v) {
                Some(b) => b,
                None => return Err(RuntimeError::LogExpectedBool),
            };
            Ok(SnakeVal::Boolean(!b))
        },

        Expression::Prim2(Prim2::Add, e1, e2) => {
            let v1: SnakeVal = interp_diamond(e1)?;
            let v2: SnakeVal = interp_diamond(e2)?;
            let n1: i64 = match assert_int(v1) {
                Some(n) => n,
                None => return Err(RuntimeError::ArithExpectedInt),
            };
            let n2: i64 = match assert_int(v2) {
                Some(n) => n,
                None => return Err(RuntimeError::ArithExpectedInt),
            };
            Ok(SnakeVal::Integer(n1 + n2))
        },

        Expression::Prim2(Prim2::Sub, e1, e2) => interp_arith(
            e1,
            e2,
            |n1: i64, n2: i64| -> (r: i64) requires fits_i64(n1 - n2) ensures r == n1 - n2 { n1 - n2 },
        ),
        Expression::Prim2(Prim2::Mul, e1, e2) => interp_arith(
            e1,
            e2,
            |n1: i64, n2: i64| -> (r: i64) requires fits_i64(n1 * n2) ensures r == n1 * n2 { n1 * n2 },
        ),
        Expression::Prim2(Prim2::LEq, e1, e2) => interp_cmp(e1, e2, |n1: i64, n2: i64| -> (r: bool) ensures r == (n1 <= n2) { n1 <= n2 }),
        Expression::Prim2(Prim2::LT, e1, e2) => interp_cmp(e1, e2, |n1: i64, n2: i64| -> (r: bool) ensures r == (n1 < n2) { n1 < n2 }),
        Expression::Prim2(Prim2::GEq, e1, e2) => interp_cmp(e1, e2, |n1: i64, n2: i64| -> (r: bool) ensures r == (n1 >= n2) { n1 >= n2 }),
        Expression::Prim2(Prim2::GT, e1, e2) => interp_cmp(e1, e2, |n1: i64, n2: i64| -> (r: bool) ensures r == (n1 > n2) { n1 > n2 }),
        Expression::Prim2(Prim2::And, e1, e2) => interp_log(e1, e2, |b1: bool, b2: bool| -> (r: bool) ensures r == (b1 && b2) { b1 && b2 }),
        Expression::Prim2(Prim2::Or, e1, e2) => interp_log(e1, e2, |b1: bool, b2: bool| -> (r: bool) ensures r == (b1 || b2) { b1 || b2 }),
    }
}

// ------------------------------------------------------------------- laws

/// `e` applies no `isint` or `isbool`, the primitives on which the two
/// semantics differ by design.
pub open spec fn no_type_tests(e: Expression) -> bool
    decreases e,
{
    match e {
        Expression::Integer(_) | Expression::Boolean(_) => true,
        Expression::Prim1(Prim1::Not, a) => no_type_tests(*a),
        Expression::Prim1(_, _) => false,
        Expression::Prim2(_, a, b) => no_type_tests(*a) && no_type_tests(*b),
        Expression::If(c, t, f) => no_type_tests(*c) && no_type_tests(*t) && no_type_tests(*f),
    }
}

/// A value read the Boa way: a boolean is 1 or 0.
pub open spec fn coerced(v: Value) -> int {
    match v {
        Value::Int(n) => n,
        Value::Bool(b) => bool_as_int(b),
    }
}

/// The coercing Boa semantics agrees with Diamondback on every program that
/// Diamondback runs without a type error and that tests no types: Boa's
/// integer is Diamondback's value, a boolean read as 1 or 0.
pub proof fn lemma_boa_agrees_with_diamond(e: Expression)
    requires
        no_type_tests(e),
        diamond_value(e) is Ok,
    ensures
        boa_value(e) == coerced(diamond_value(e)->Ok_0),
    decreases e,
{
    match e {
        Expression::Prim1(_, a) => lemma_boa_agrees_with_diamond(*a),
        Expression::Prim2(_, a, b) => {
            lemma_boa_agrees_with_diamond(*a);
            lemma_boa_agrees_with_diamond(*b);
        },
        Expression::If(c, t, f) => {
            lemma_boa_agrees_with_diamond(*c);
            if diamond_value(*c) == Ok::<Value, RuntimeError>(Value::Bool(true)) {
                lemma_boa_agrees_with_diamond(*t);
            } else {
                lemma_boa_agrees_with_diamond(*f);
            }
        },
        _ => {},
    }
}

/// An integer result.
pub open spec fn int_result(n: int) -> Result<Value, RuntimeError> {
    Ok(Value::Int(n))
}

/// A boolean result.
pub open spec fn bool_result(b: bool) -> Result<Value, RuntimeError> {
    Ok(Value::Bool(b))
}

/// `isint` and `isbool` tell which kind of value their argument evaluates to,
/// and pass on its error.
pub proof fn lemma_diamond_type_tests(a: Expression)
    ensures
        diamond_value(a) matches Ok(Value::Int(_)) ==> diamond_value(Expression::Prim1(Prim1::IsInt, Box::new(a))) == bool_result(true)
            && diamond_value(Expression::Prim1(Prim1::IsBool, Box::new(a))) == bool_result(false),
        diamond_value(a) matches Ok(Value::Bool(_)) ==> diamond_value(Expression::Prim1(Prim1::IsInt, Box::new(a))) == bool_result(false)
            && diamond_value(Expression::Prim1(Prim1::IsBool, Box::new(a))) == bool_result(true),
        diamond_value(a) is Err ==> diamond_value(Expression::Prim1(Prim1::IsInt, Box::new(a))) == diamond_value(a)
            && diamond_value(Expression::Prim1(Prim1::IsBool, Box::new(a))) == diamond_value(a),
{
}

/// `!` negates a boolean, refuses an integer, and passes on an error.
pub proof fn lemma_diamond_not(a: Expression)
    ensures
        diamond_value(a) matches Ok(Value::Bool(b)) ==> diamond_value(Expression::Prim1(Prim1::Not, Box::new(a))) == bool_result(!b),
        diamond_value(a) matches Ok(Value::Int(_)) ==> diamond_value(Expression::Prim1(Prim1::Not, Box::new(a))) == Err::<Value, RuntimeError>(RuntimeError::LogExpectedBool),
        diamond_value(a) is Err ==> diamond_value(Expression::Prim1(Prim1::Not, Box::new(a))) == diamond_value(a),
{
}

/// A binary primitive evaluates its left operand, then its right one, and
/// passes on the first error; on two integers, `+`, `-` and `*` give the sum,
/// the difference and the product, and the comparisons give whether the left
/// one is `<=`, `<`, `>=` or `>` the right one; on two booleans, `&&` and `||`
/// give their conjunction and disjunction, whatever the left one is.
pub proof fn lemma_diamond_binary(op: Prim2, a: Expression, b: Expression)
    ensures
        diamond_value(a) is Err ==> diamond_value(Expression::Prim2(op, Box::new(a), Box::new(b))) == diamond_value(a),
        diamond_value(a) is Ok && diamond_value(b) is Err ==> diamond_value(Expression::Prim2(op, Box::new(a), Box::new(b)))
            == diamond_value(b),
        diamond_value(a) matches Ok(Value::Int(m)) ==> (diamond_value(b) matches Ok(Value::Int(n)) ==> {
            let r = diamond_value(Expression::Prim2(op, Box::new(a), Box::new(b)));
            &&& op is Add ==> r == int_result(m + n)
            &&& op is Sub ==> r == int_result(m - n)
            &&& op is Mul ==> r == int_result(m * n)
            &&& op is LEq ==> r == bool_result(m <= n)
            &&& op is LT ==> r == bool_result(m < n)
            &&& op is GEq ==> r == bool_result(m >= n)
            &&& op is GT ==> r == bool_result(m > n)
            &&& (op is And || op is Or) ==> r == Err::<Value, RuntimeError>(RuntimeError::LogExpectedBool)
        }),
        diamond_value(a) matches Ok(Value::Bool(p)) ==> (diamond_value(b) matches Ok(Value::Bool(q)) ==> {
            let r = diamond_value(Expression::Prim2(op, Box::new(a), Box::new(b)));
            &&& op is And ==> r == bool_result(p && q)
            &&& op is Or ==> r == bool_result(p || q)
            &&& (op is Add || op is Sub || op is Mul) ==> r == Err::<Value, RuntimeError>(RuntimeError::ArithExpectedInt)
            &&& (op is LEq || op is LT || op is GEq || op is GT) ==> r == Err::<Value, RuntimeError>(RuntimeError::CompareExpectedInt)
        }),
        diamond_value(a) is Ok && diamond_value(b) is Ok && (diamond_value(a)->Ok_0 is Int) != (diamond_value(b)->Ok_0 is Int) ==> {
            let r = diamond_value(Expression::Prim2(op, Box::new(a), Box::new(b)));
            &&& (op is Add || op is Sub || op is Mul) ==> r == Err::<Value, RuntimeError>(RuntimeError::ArithExpectedInt)
            &&& (op is LEq || op is LT || op is GEq || op is GT) ==> r == Err::<Value, RuntimeError>(RuntimeError::CompareExpectedInt)
            &&& (op is And || op is Or) ==> r == Err::<Value, RuntimeError>(RuntimeError::LogExpectedBool)
        },
{
}

/// A conditional takes the branch its boolean condition selects, refuses an
/// integer condition, and passes on the condition's error.
pub proof fn lemma_diamond_if(c: Expression, t: Expression, f: Expression)
    ensures
        ({
            let r = diamond_value(Expression::If(Box::new(c), Box::new(t), Box::new(f)));
            &&& diamond_value(c) == bool_result(true) ==> r == diamond_value(t)
            &&& diamond_value(c) == bool_result(false) ==> r == diamond_value(f)
            &&& diamond_value(c) matches Ok(Value::Int(_)) ==> r == Err::<Value, RuntimeError>(RuntimeError::IfExpectedBool)
            &&& diamond_value(c) is Err ==> r == diamond_value(c)
        }),
{
}

/// Boa reads every number as a boolean by whether it is nonzero, and writes
/// booleans as 1 and 0: `&&` is 1 exactly when both operands are nonzero, `||`
/// exactly when one is, `!` exactly when its operand is 0; a comparison is 1
/// exactly when it holds; `+`, `-` and `*` are the sum, the difference and the
/// product; `isint` and `isbool` are 1; a conditional takes its first branch
/// exactly when its condition is nonzero.
pub proof fn lemma_boa_operations(op: Prim2, a: Expression, b: Expression, c: Expression)
    ensures
        ({
            let x = boa_value(a);
            let y = boa_value(b);
            let r = boa_value(Expression::Prim2(op, Box::new(a), Box::new(b)));
            &&& op is And ==> (x != 0 && y != 0 ==> r == 1) && (x == 0 || y == 0 ==> r == 0)
            &&& op is Or ==> (x != 0 || y != 0 ==> r == 1) && (x == 0 && y == 0 ==> r == 0)
            &&& op is LEq ==> (x <= y ==> r == 1) && (x > y ==> r == 0)
            &&& op is LT ==> (x < y ==> r == 1) && (x >= y ==> r == 0)
            &&& op is GEq ==> (x >= y ==> r == 1) && (x < y ==> r == 0)
            &&& op is GT ==> (x > y ==> r == 1) && (x <= y ==> r == 0)
            &&& op is Add ==> r == x + y
            &&& op is Sub ==> r == x - y
            &&& op is Mul ==> r == x * y
        }),
        boa_value(a) == 0 ==> boa_value(Expression::Prim1(Prim1::Not, Box::new(a))) == 1,
        boa_value(a) != 0 ==> boa_value(Expression::Prim1(Prim1::Not, Box::new(a))) == 0,
        boa_value(Expression::Prim1(Prim1::IsInt, Box::new(a))) == 1,
        boa_value(Expression::Prim1(Prim1::IsBool, Box::new(a))) == 1,
        boa_value(Expression::Boolean(true)) == 1 && boa_value(Expression::Boolean(false)) == 0,
        boa_value(c) != 0 ==> boa_value(Expression::If(Box::new(c), Box::new(a), Box::new(b))) == boa_value(a),
        boa_value(c) == 0 ==> boa_value(Expression::If(Box::new(c), Box::new(a), Box::new(b))) == boa_value(b),
{
}

} // verus!
