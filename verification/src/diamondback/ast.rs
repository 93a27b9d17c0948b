use vstd::prelude::*;

verus! {

#[derive(Debug)]
pub enum Expression {
    Integer(i64),
    Boolean(bool),
    Prim1(Prim1, Box<Expression>),
    Prim2(Prim2, Box<Expression>, Box<Expression>),
    If(Box<Expression>, Box<Expression>, Box<Expression>),
}

impl Clone for Expression {
    fn clone(&self) -> (r: Self)
        ensures
            r == *self,
        decreases self,
    {
        match self {
            Expression::Integer(n) => Expression::Integer(*n),
            Expression::Boolean(b) => Expression::Boolean(*b),
            Expression::Prim1(p, a) => Expression::Prim1(*p, Box::new((**a).clone())),
            Expression::Prim2(p, a, b) => Expression::Prim2(*p, Box::new((**a).clone()), Box::new((**b).clone())),
            Expression::If(c, t, f) => Expression::If(
                Box::new((**c).clone()),
                Box::new((**t).clone()),
                Box::new((**f).clone()),
            ),
        }
    }
}

#[derive(Clone, Copy, Debug)]
pub enum Prim1 {
    Not,
    IsBool,
    IsInt,
}

#[derive(Clone, Copy, Debug)]
pub enum Prim2 {
    // Arithmetic
    Add,
    Sub,
    Mul,

    // Comparison
    LEq,
    LT,
    GEq,
    GT,

    // Logical
    And,
    Or,
}

/// The number of nodes of an expression.
pub open spec fn size(e: Expression) -> nat
    decreases e,
{
    match e {
        Expression::Integer(_) | Expression::Boolean(_) => 1,
        Expression::Prim1(_, a) => 1 + size(*a),
        Expression::Prim2(_, a, b) => 1 + size(*a) + size(*b),
        Expression::If(c, t, f) => 1 + size(*c) + size(*t) + size(*f),
    }
}

} // verus!
