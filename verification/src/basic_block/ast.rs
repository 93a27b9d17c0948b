//! Source syntax: a program of one parameter whose body is an expression over
//! numbers, variables, `let` and arithmetic primitives.

use vstd::prelude::*;

verus! {

/// `def main(parameter): body`
#[derive(Clone, Debug)]
pub struct Program {
    pub parameter: String,
    pub body: Expression,
}

#[derive(Debug)]
pub enum Expression {
    Variable(String),
    Number(i64),
    Prim { prim: Prim, args: Vec<Expression> },
    /// `let x = e1 in e2`
    Let(String, Box<Expression>, Box<Expression>),
}

impl Clone for Expression {
    fn clone(&self) -> (r: Self)
        decreases self,
    {
        match self {
            Expression::Variable(x) => Expression::Variable(x.clone()),
            Expression::Number(n) => Expression::Number(*n),
            Expression::Prim { prim, args } => {
                let mut copies: Vec<Expression> = Vec::new();
                let mut i: usize = 0;
                proof {
                    assert forall|j: int| 0 <= j < args.len() implies decreases_to!(*self => #[trigger] args@[j]) by {
                        broadcast use vstd::std_specs::vec::axiom_vec_index_decreases;
                        assert(decreases_to!(*args => args@[j]));
                    }
                }
                while i < args.len()
                    invariant
                        forall|j: int| 0 <= j < args.len() ==> decreases_to!(*self => #[trigger] args@[j]),
                    decreases args.len() - i,
                {
                    copies.push(args[i].clone());
                    i = i + 1;
                }
                Expression::Prim { prim: *prim, args: copies }
            },
            Expression::Let(x, a, b) => Expression::Let(x.clone(), Box::new((**a).clone()), Box::new((**b).clone())),
        }
    }
}

#[derive(Clone, Copy, Debug)]
pub enum Prim {
    // unary
    Add1,
    Sub1,
    // binary
    Add,
    Sub,
    Mul,
}

/// The number of arguments a primitive takes.
pub open spec fn arity(p: Prim) -> nat {
    match p {
        Prim::Add1 | Prim::Sub1 => 1,
        _ => 2,
    }
}

/// Every primitive is applied to as many arguments as it takes.
pub open spec fn well_formed(e: Expression) -> bool
    decreases e,
{
    match e {
        Expression::Prim { prim, args } => {
            &&& args.len() == arity(prim)
            &&& forall|i: int| 0 <= i < args.len() ==> well_formed(#[trigger] args@[i])
        },
        Expression::Let(_, e1, e2) => well_formed(*e1) && well_formed(*e2),
        _ => true,
    }
}

/// The number of nodes of an expression.
pub open spec fn size(e: Expression) -> nat
    decreases e,
{
    match e {
        Expression::Prim { prim, args } => {
            if args.len() == 1 {
                1 + size(args@[0])
            } else if args.len() == 2 {
                1 + size(args@[0]) + size(args@[1])
            } else {
                1
            }
        },
        Expression::Let(_, e1, e2) => 1 + size(*e1) + size(*e2),
        _ => 1,
    }
}

/// The value of `e` when the variables have the values in `env`, computed
/// on unbounded integers.
pub open spec fn eval(env: Map<Seq<char>, int>, e: Expression) -> int
    decreases e,
{
    match e {
        Expression::Variable(x) => env[x@],
        Expression::Number(n) => n as int,
        Expression::Let(x, e1, e2) => eval(env.insert(x@, eval(env, *e1)), *e2),
        Expression::Prim { prim, args } => {
            if args.len() == 1 && arity(prim) == 1 {
                match prim {
                    Prim::Add1 => eval(env, args@[0]) + 1,
                    _ => eval(env, args@[0]) - 1,
                }
            } else if args.len() == 2 && arity(prim) == 2 {
                match prim {
                    Prim::Add => eval(env, args@[0]) + eval(env, args@[1]),
                    Prim::Sub => eval(env, args@[0]) - eval(env, args@[1]),
                    _ => eval(env, args@[0]) * eval(env, args@[1]),
                }
            } else {
                0
            }
        },
    }
}

/// Every variable that `e` reads is bound: in `vars` or by a `let` around it.
pub open spec fn scoped(vars: Set<Seq<char>>, e: Expression) -> bool
    decreases e,
{
    match e {
        Expression::Variable(x) => vars.contains(x@),
        Expression::Number(_) => true,
        Expression::Let(x, e1, e2) => scoped(vars, *e1) && scoped(vars.insert(x@), *e2),
        Expression::Prim { prim, args } => forall|i: int| 0 <= i < args.len() ==> scoped(vars, #[trigger] args@[i]),
    }
}

pub open spec fn fits_i64(v: int) -> bool {
    i64::MIN <= v <= i64::MAX
}

/// The value of `e` and of each of its subexpressions fits in an `i64`.
pub open spec fn no_overflow(env: Map<Seq<char>, int>, e: Expression) -> bool
    decreases e,
{
    &&& fits_i64(eval(env, e))
    &&& match e {
        Expression::Let(x, e1, e2) => no_overflow(env, *e1) && no_overflow(env.insert(x@, eval(env, *e1)), *e2),
        Expression::Prim { prim, args } => forall|i: int| 0 <= i < args.len() ==> no_overflow(env, #[trigger] args@[i]),
        _ => true,
    }
}

/// The names that the `let`s of `e` bind.
pub open spec fn binders(e: Expression) -> Set<Seq<char>>
    decreases e,
{
    match e {
        Expression::Let(x, e1, e2) => binders(*e1).union(binders(*e2)).insert(x@),
        Expression::Prim { prim, args } => {
            if args.len() == 1 {
                binders(args@[0])
            } else if args.len() == 2 {
                binders(args@[0]).union(binders(args@[1]))
            } else {
                Set::empty()
            }
        },
        _ => Set::empty(),
    }
}

/// No two `let`s of `e` bind the same name, so that no binding shadows
/// another and no name is bound twice.
pub open spec fn unique_binders(e: Expression) -> bool
    decreases e,
{
    match e {
        Expression::Let(x, e1, e2) => {
            &&& !binders(*e1).contains(x@)
            &&& !binders(*e2).contains(x@)
            &&& binders(*e1).disjoint(binders(*e2))
            &&& unique_binders(*e1)
            &&& unique_binders(*e2)
        },
        Expression::Prim { prim, args } => {
            if args.len() == 1 {
                unique_binders(args@[0])
            } else if args.len() == 2 {
                &&& binders(args@[0]).disjoint(binders(args@[1]))
                &&& unique_binders(args@[0])
                &&& unique_binders(args@[1])
            } else {
                true
            }
        },
        _ => true,
    }
}

/// The environment in which a program runs on input `x`.
pub open spec fn input_env(p: Program, x: int) -> Map<Seq<char>, int> {
    Map::empty().insert(p.parameter@, x)
}

/// The value of program `p` on input `x`.
pub open spec fn program_value(p: Program, x: int) -> int {
    eval(input_env(p, x), p.body)
}

} // verus!
