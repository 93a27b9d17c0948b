//! Boa with `let`: a program of one parameter, scope checking, and an
//! interpreter over a persistent environment.

use vstd::prelude::*;
use crate::collections::{
    name_set_contains, name_set_contents, name_set_unit, name_set_update, value_map_contents,
    value_map_get, value_map_unit, value_map_update,
};

verus! {

/// `def main(parameter): body`
#[derive(Clone, Debug)]
pub struct Program {
    pub parameter: String,
    pub body: Expression,
}

#[derive(Debug)]
pub enum Expression {
    Variable(String),
    Number(i64),
    Add1(Box<Expression>),
    Sub1(Box<Expression>),
    /// `let x = e1 in e2`
    Let(String, Box<Expression>, Box<Expression>),
}

impl Clone for Expression {
    fn clone(&self) -> (r: Self)
        ensures
            r == *self,
        decreases self,
    {
        match self {
            Expression::Variable(x) => Expression::Variable(x.clone()),
            Expression::Number(n) => Expression::Number(*n),
            Expression::Add1(a) => Expression::Add1(Box::new((**a).clone())),
            Expression::Sub1(a) => Expression::Sub1(Box::new((**a).clone())),
            Expression::Let(x, a, b) => Expression::Let(x.clone(), Box::new((**a).clone()), Box::new((**b).clone())),
        }
    }
}

/// The first variable of `e`, left to right, that is neither in `vars` nor
/// bound by a `let` around it.
pub open spec fn first_free(vars: Set<Seq<char>>, e: Expression) -> Option<Seq<char>>
    decreases e,
{
    match e {
        Expression::Variable(x) => if vars.contains(x@) { None } else { Some(x@) },
        Expression::Number(_) => None,
        Expression::Add1(a) | Expression::Sub1(a) => first_free(vars, *a),
        Expression::Let(x, e1, e2) => match first_free(vars, *e1) {
            Some(y) => Some(y),
            None => first_free(vars.insert(x@), *e2),
        },
    }
}

/// The message for a free occurrence of `x`.
pub open spec fn free_message(x: Seq<char>) -> Seq<char> {
    "Free occurrence of the variable "@ + x
}

/// `Ok(())` if the program has no free variable; otherwise an error that
/// reports the first free occurrence.
pub fn check_scope(p: &Program) -> (r: Result<(), String>)
    ensures
        match first_free(set![p.parameter@], p.body) {
            None => r is Ok,
            Some(x) => r is Err && r->Err_0@ == free_message(x),
        },
{
    let env = name_set_unit(p.parameter.clone());
    assert(name_set_contents(env) =~= set![p.parameter@]);
    check_scope_exp(&p.body, &env)
}

fn check_scope_exp(e: &Expression, env: &im::HashSet<String>) -> (r: Result<(), String>)
    ensures
        match first_free(name_set_contents(*env), *e) {
            None => r is Ok,
            Some(x) => r is Err && r->Err_0@ == free_message(x),
        },
    decreases e,
{
    match e {
        Expression::Variable(x) => {
            if name_set_contains(env, x) {
                Ok(())
            } else {
                let mut m = String::from_str("Free occurrence of the variable ");
                m.append(x.as_str());
                Err(m)
            }
        },
        // let x = e1 in e2
        Expression::Let(x, e1, e2) => {
            check_scope_exp(e1, env)?;
            let env2 = name_set_update(env, x.clone());
            check_scope_exp(e2, &env2)
        },
        Expression::Number(_) => Ok(()),
        Expression::Add1(e) => check_scope_exp(e, env),
        Expression::Sub1(e) => check_scope_exp(e, env),
    }
}

/// The value of `e` when the variables have the values in `env`, on
/// unbounded integers.
pub open spec fn eval(env: Map<Seq<char>, int>, e: Expression) -> int
    decreases e,
{
    match e {
        Expression::Variable(x) => env[x@],
        Expression::Number(n) => n as int,
        Expression::Add1(a) => eval(env, *a) + 1,
        Expression::Sub1(a) => eval(env, *a) - 1,
        Expression::Let(x, e1, e2) => eval(env.insert(x@, eval(env, *e1)), *e2),
    }
}

pub open spec fn fits_i64(v: int) -> bool {
    i64::MIN <= v <= i64::MAX
}

/// The value of `e` and of each of its subexpressions fits in an `i64`.
pub open spec fn no_overflow(env: Map<Seq<char>, int>, e: Expression) -> bool
    decreases e,
{
    &&& fits_i64(eval(env, e))
    &&& match e {
        Expression::Add1(a) | Expression::Sub1(a) => no_overflow(env, *a),
        Expression::Let(x, e1, e2) => no_overflow(env, *e1) && no_overflow(env.insert(x@, eval(env, *e1)), *e2),
        _ => true,
    }
}

/// The integers a map from names to `i64` holds.
pub open spec fn as_int_env(m: Map<Seq<char>, i64>) -> Map<Seq<char>, int> {
    Map::new(|k: Seq<char>| m.contains_key(k), |k: Seq<char>| m[k] as int)
}

/// The value of program `p` on input `x`.
pub open spec fn program_value(p: Program, x: int) -> int {
    eval(Map::empty().insert(p.parameter@, x), p.body)
}

/// Runs program `p` on input `x`; the program must have passed scope checking.
pub fn interpret(p: &Program, x: i64) -> (r: i64)
    requires
        first_free(set![p.parameter@], p.body) is None,
        no_overflow(Map::empty().insert(p.parameter@, x as int), p.body),
    ensures
        r == program_value(*p, x as int),
{
    let env = value_map_unit(p.parameter.clone(), x);
    assert(as_int_env(value_map_contents(env)) =~= Map::empty().insert(p.parameter@, x as int));
    assert(value_map_contents(env).dom() =~= set![p.parameter@]);
    interp_exp(&p.body, &env)
}

fn interp_exp(e: &Expression, env: &im::HashMap<String, i64>) -> (r: i64)
    requires
        first_free(value_map_contents(*env).dom(), *e) is None,
        no_overflow(as_int_env(value_map_contents(*env)), *e),
    ensures
        r == eval(as_int_env(value_map_contents(*env)), *e),
    decreases e,
{
    let ghost m = value_map_contents(*env);
    match e {
        // x
        Expression::Variable(x) => value_map_get(env, x).unwrap(),
        // let x = e1 in e2
        Expression::Let(x, e1, e2) => {
            let v = interp_exp(e1, env);
            let env2 = value_map_update(env, x.clone(), v);
            assert(as_int_env(value_map_contents(env2)) =~= as_int_env(m).insert(x@, v as int));
            assert(value_map_contents(env2).dom() =~= m.dom().insert(x@));
            interp_exp(e2, &env2)
        },
        Expression::Number(n) => *n,
        Expression::Add1(e) => interp_exp(e, env) + 1,
        Expression::Sub1(e) => interp_exp(e, env) - 1,
    }
}

pub fn add1(x: i64) -> (r: i64)
    requires
        x < i64::MAX,
    ensures
        r == x + 1,
{
    x + 1
}

pub fn sub1(x: i64) -> (r: i64)
    requires
        x > i64::MIN,
    ensures
        r == x - 1,
{
    x - 1
}

/// `add1(add1(add1(sub1(x))))`, which is `x + 2`.
pub fn funny(x: i64) -> (r: i64)
    requires
        i64::MIN < x,
        x <= i64::MAX - 2,
    ensures
        r == x + 2,
{
    let z = add1(
        add1(
            {
                let y = sub1(x);
                y
            },
        ),
    );
    add1(z)
}

// ------------------------------------------------------------------- laws

/// `x` occurs free in `e`: read by a variable that no `let` around it binds.
pub open spec fn free_in(e: Expression, x: Seq<char>) -> bool
    decreases e,
{
    match e {
        Expression::Variable(y) => y@ == x,
        Expression::Number(_) => false,
        Expression::Add1(a) | Expression::Sub1(a) => free_in(*a, x),
        Expression::Let(y, e1, e2) => free_in(*e1, x) || (y@ != x && free_in(*e2, x)),
    }
}

/// Scope checking finds exactly the free variables: it reports a variable
/// only when it occurs free and is not given, and it reports none exactly
/// when every variable that occurs free is given.
pub proof fn lemma_scope_check_finds_free_variables(vars: Set<Seq<char>>, e: Expression)
    ensures
        first_free(vars, e) matches Some(x) ==> !vars.contains(x) && free_in(e, x),
        first_free(vars, e) is None ==> forall|x: Seq<char>| #[trigger] free_in(e, x) ==> vars.contains(x),
        (forall|x: Seq<char>| #[trigger] free_in(e, x) ==> vars.contains(x)) ==> first_free(vars, e) is None,
    decreases e,
{
    match e {
        Expression::Add1(a) => {
            lemma_scope_check_finds_free_variables(vars, *a);
            if forall|x: Seq<char>| #[trigger] free_in(e, x) ==> vars.contains(x) {
                assert forall|x: Seq<char>| #[trigger] free_in(*a, x) implies vars.contains(x) by {
                    assert(free_in(e, x));
                }
                assert(first_free(vars, *a) is None);
            }
            assert forall|x: Seq<char>| #![trigger free_in(e, x)] #![trigger free_in(*a, x)] free_in(e, x) == free_in(*a, x) by {}
            if first_free(vars, e) is Some {
                let x = first_free(vars, e)->0;
                assert(free_in(*a, x));
                assert(free_in(e, x));
            }
            if first_free(vars, e) is None {
                assert forall|x: Seq<char>| #[trigger] free_in(e, x) implies vars.contains(x) by {
                    assert(free_in(*a, x));
                }
            }
        },
        Expression::Sub1(a) => {
            lemma_scope_check_finds_free_variables(vars, *a);
            if forall|x: Seq<char>| #[trigger] free_in(e, x) ==> vars.contains(x) {
                assert forall|x: Seq<char>| #[trigger] free_in(*a, x) implies vars.contains(x) by {
                    assert(free_in(e, x));
                }
                assert(first_free(vars, *a) is None);
            }
            assert forall|x: Seq<char>| #![trigger free_in(e, x)] #![trigger free_in(*a, x)] free_in(e, x) == free_in(*a, x) by {}
            if first_free(vars, e) is Some {
                let x = first_free(vars, e)->0;
                assert(free_in(*a, x));
                assert(free_in(e, x));
            }
            if first_free(vars, e) is None {
                assert forall|x: Seq<char>| #[trigger] free_in(e, x) implies vars.contains(x) by {
                    assert(free_in(*a, x));
                }
            }
        },
        Expression::Let(y, e1, e2) => {
            lemma_scope_check_finds_free_variables(vars, *e1);
            lemma_scope_check_finds_free_variables(vars.insert(y@), *e2);
            if first_free(vars, *e1) is None && first_free(vars.insert(y@), *e2) is None {
                assert forall|x: Seq<char>| #[trigger] free_in(e, x) implies vars.contains(x) by {
                    if !free_in(*e1, x) {
                        assert(free_in(*e2, x));
                        assert(vars.insert(y@).contains(x));
                    }
                }
            }
        },
        Expression::Variable(y) => {
            if !vars.contains(y@) {
                assert(free_in(e, y@));
            }
        },
        _ => {},
    }
}

/// The interpreter's arithmetic: `add1` adds one, `sub1` takes one away, a
/// number is itself, a variable is its value, and `let x = e1 in e2` is `e2`
/// with `x` given the value of `e1`, whatever else the environment holds.
pub proof fn lemma_eval_steps(env: Map<Seq<char>, int>, a: Expression, b: Expression, x: String, n: i64)
    ensures
        eval(env, Expression::Add1(Box::new(a))) == eval(env, a) + 1,
        eval(env, Expression::Sub1(Box::new(a))) == eval(env, a) - 1,
        eval(env, Expression::Number(n)) == n,
        eval(env, Expression::Variable(x)) == env[x@],
        eval(env, Expression::Let(x, Box::new(a), Box::new(b))) == eval(env.insert(x@, eval(env, a)), b),
{
}

} // verus!
