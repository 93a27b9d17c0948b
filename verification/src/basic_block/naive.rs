//! The first lowering of the source language, which computes the operands of
//! each addition into names of their own, and the reference interpreter of the
//! source language.

use vstd::prelude::*;
use crate::collections::{value_map_contents, value_map_get, value_map_unit, value_map_update};
use super::ast;
use super::ssa;
use super::ssa::{BlockBody, BlockBodyV, Immediate, ImmediateV, Operation, OperationV};
use super::cps_ddcg::{lemma_numbered_id, numbered, source_name};
use crate::text::push_u64_decimal;

verus! {

/// The integers a map from names to `i64` holds.
pub open spec fn as_int_env(m: Map<Seq<char>, i64>) -> Map<Seq<char>, int> {
    Map::new(|k: Seq<char>| m.contains_key(k), |k: Seq<char>| m[k] as int)
}

/// The value of `e` as the interpreter computes it: a primitive reads its
/// first argument, and its second when it takes two; further arguments are
/// never looked at.
pub open spec fn value(env: Map<Seq<char>, int>, e: ast::Expression) -> int
    decreases e,
{
    match e {
        ast::Expression::Variable(x) => env[x@],
        ast::Expression::Number(n) => n as int,
        ast::Expression::Let(x, e1, e2) => value(env.insert(x@, value(env, *e1)), *e2),
        ast::Expression::Prim { prim, args } => {
            if args.len() >= ast::arity(prim) && args.len() >= 1 {
                let a = value(env, args@[0]);
                match prim {
                    ast::Prim::Add1 => a + 1,
                    ast::Prim::Sub1 => a - 1,
                    ast::Prim::Add => a + value(env, args@[1]),
                    ast::Prim::Sub => a - value(env, args@[1]),
                    ast::Prim::Mul => a * value(env, args@[1]),
                }
            } else {
                0
            }
        },
    }
}

/// The interpreter runs `e` to the end: every variable it reads is bound,
/// every primitive has the arguments it reads, and every value it computes
/// fits in an `i64`.
pub open spec fn runs(env: Map<Seq<char>, int>, e: ast::Expression) -> bool
    decreases e,
{
    &&& ast::fits_i64(value(env, e))
    &&& match e {
        ast::Expression::Variable(x) => env.dom().contains(x@),
        ast::Expression::Number(_) => true,
        ast::Expression::Let(x, e1, e2) => runs(env, *e1) && runs(env.insert(x@, value(env, *e1)), *e2),
        ast::Expression::Prim { prim, args } => {
            &&& args.len() >= ast::arity(prim)
            &&& runs(env, args@[0])
            &&& ast::arity(prim) == 2 ==> runs(env, args@[1])
        },
    }
}

/// Runs program `p` on input `x`.
pub fn interpret(p: &ast::Program, x: i64) -> (r: i64)
    requires
        runs(ast::input_env(*p, x as int), p.body),
    ensures
        r == value(ast::input_env(*p, x as int), p.body),
{
    let env = value_map_unit(p.parameter.clone(), x);
    assert(as_int_env(value_map_contents(env)) =~= ast::input_env(*p, x as int));
    interp_exp(&p.body, &env)
}

fn interp_exp(e: &ast::Expression, env: &im::HashMap<String, i64>) -> (r: i64)
    requires
        runs(as_int_env(value_map_contents(*env)), *e),
    ensures
        r == value(as_int_env(value_map_contents(*env)), *e),
    decreases e,
{
    let ghost m = value_map_contents(*env);
    match e {
        ast::Expression::Variable(x) => value_map_get(env, x).unwrap(),
        ast::Expression::Let(x, e1, e2) => {
            let v = interp_exp(e1, env);
            let env2 = value_map_update(env, x.clone(), v);
            assert(as_int_env(value_map_contents(env2)) =~= as_int_env(m).insert(x@, v as int));
            interp_exp(e2, &env2)
        },
        ast::Expression::Number(n) => *n,
        ast::Expression::Prim { prim, args } => {
            match prim {
                ast::Prim::Add => {
                    let res1 = interp_exp(&args[0], env);
                    let res2 = interp_exp(&args[1], env);
                    res1 + res2
                },
                ast::Prim::Add1 => interp_exp(&args[0], env) + 1,
                ast::Prim::Sub1 => interp_exp(&args[0], env) - 1,
                ast::Prim::Sub => {
                    let res1 = interp_exp(&args[0], env);
                    let res2 = interp_exp(&args[1], env);
                    res1 - res2
                },
                ast::Prim::Mul => {
                    let res1 = interp_exp(&args[0], env);
                    let res2 = interp_exp(&args[1], env);
                    res1 * res2
                },
            }
        },
    }
}

/// On expressions whose primitives have exactly their arguments, the
/// interpreter computes the value of the source semantics.
pub proof fn lemma_value_is_eval(env: Map<Seq<char>, int>, e: ast::Expression)
    requires
        ast::well_formed(e),
    ensures
        value(env, e) == ast::eval(env, e),
    decreases e,
{
    match e {
        ast::Expression::Let(x, e1, e2) => {
            lemma_value_is_eval(env, *e1);
            lemma_value_is_eval(env.insert(x@, value(env, *e1)), *e2);
        },
        ast::Expression::Prim { prim, args } => {
            assert(ast::well_formed(args@[0]));
            lemma_value_is_eval(env, args@[0]);
            if ast::arity(prim) == 2 {
                assert(ast::well_formed(args@[1]));
                lemma_value_is_eval(env, args@[1]);
            }
        },
        _ => {},
    }
}

/// The expressions this lowering handles: numbers, variables and additions of them.
pub open spec fn supported(e: ast::Expression) -> bool
    decreases e,
{
    match e {
        ast::Expression::Variable(_) | ast::Expression::Number(_) => true,
        ast::Expression::Prim { prim: ast::Prim::Add, args } => {
            args.len() == 2 && supported(args@[0]) && supported(args@[1])
        },
        _ => false,
    }
}

/// The number of additions in `e`, each of which takes one number for the
/// names of its operands.
pub open spec fn adds(e: ast::Expression) -> nat
    decreases e,
{
    match e {
        ast::Expression::Prim { prim: ast::Prim::Add, args } => {
            if args.len() == 2 {
                1 + adds(args@[0]) + adds(args@[1])
            } else {
                0
            }
        },
        _ => 0,
    }
}

/// The destination of the left operand of the addition numbered `k`.
pub open spec fn left_name(k: nat) -> Seq<char> {
    numbered("%addArg1"@, k)
}

/// The destination of the right operand of the addition numbered `k`.
pub open spec fn right_name(k: nat) -> Seq<char> {
    numbered("%addArg2"@, k)
}

/// The block that stores the value of `e` into `dest` and then runs `next`.
/// The addition numbered `k` computes its operands into `%addArg1_k` and
/// `%addArg2_k`; the additions of its right operand take the numbers from
/// `k + 1` on, those of its left operand the numbers after them.
pub open spec fn lowered_into(e: ast::Expression, dest: Seq<char>, next: BlockBodyV, k: nat) -> BlockBodyV
    decreases e,
{
    match e {
        ast::Expression::Variable(x) => BlockBodyV::Operation {
            dest,
            op: OperationV::Immediate(ImmediateV::Var(x@)),
            next: Box::new(next),
        },
        ast::Expression::Number(n) => BlockBodyV::Operation {
            dest,
            op: OperationV::Immediate(ImmediateV::Const(n)),
            next: Box::new(next),
        },
        ast::Expression::Prim { prim: ast::Prim::Add, args } => {
            if args.len() == 2 {
                lowered_into(
                    args@[0],
                    left_name(k),
                    lowered_into(
                        args@[1],
                        right_name(k),
                        BlockBodyV::Operation {
                            dest,
                            op: OperationV::Prim(ssa::Prim::Add, ImmediateV::Var(left_name(k)), ImmediateV::Var(right_name(k))),
                            next: Box::new(next),
                        },
                        k + 1,
                    ),
                    k + 1 + adds(args@[1]),
                )
            } else {
                next
            }
        },
        _ => next,
    }
}

/// Lowers `p`: the top-level continuation stores into `result` and returns it.
pub fn lower(p: &ast::Program) -> (res: ssa::Program)
    requires
        supported(p.body),
        adds(p.body) < usize::MAX,
    ensures
        res.param@ == p.parameter@,
        res.entry@ == lowered_into(p.body, "result"@, BlockBodyV::Return(ImmediateV::Var("result"@)), 0),
{
    let dest = String::from_str("result");
    let body = BlockBody::Return(Immediate::Var(dest.clone()));
    let (entry, _) = lower_exp(&p.body, dest, body, 0);
    ssa::Program { param: p.parameter.clone(), entry }
}

/// `{prefix}_{k}`.
fn numbered_name(prefix: &str, k: usize) -> (name: String)
    ensures
        name@ == numbered(prefix@, k as nat),
{
    let mut name = String::from_str(prefix);
    name.append("_");
    push_u64_decimal(&mut name, k as u64);
    name
}

/// Given an expression and a continuation `(dest, body)`, builds the block that
/// assigns the value of the expression to `dest` and then executes `body`; the
/// additions take the numbers from `k` on, and the next unused one comes back.
fn lower_exp(e: &ast::Expression, dest: String, body: BlockBody, k: usize) -> (res: (BlockBody, usize))
    requires
        supported(*e),
        k + adds(*e) <= usize::MAX,
    ensures
        res.0@ == lowered_into(*e, dest@, body@, k as nat),
        res.1 == k + adds(*e),
    decreases e,
{
    match e {
        ast::Expression::Variable(x) => (BlockBody::Operation {
            dest: dest,
            op: Operation::Immediate(Immediate::Var(x.clone())),
            next: Box::new(body),
        }, k),
        ast::Expression::Number(n) => (BlockBody::Operation {
            dest: dest,
            op: Operation::Immediate(Immediate::Const(*n)),
            next: Box::new(body),
        }, k),
        ast::Expression::Prim { prim, args } => {
            let arg1 = &args[0];
            let arg2 = &args[1];
            let tmp1 = numbered_name("%addArg1", k);
            let tmp2 = numbered_name("%addArg2", k);
            let add = BlockBody::Operation {
                op: Operation::Prim(ssa::Prim::Add, Immediate::Var(tmp1.clone()), Immediate::Var(tmp2.clone())),
                dest,
                next: Box::new(body),
            };
            let (right, k2) = lower_exp(arg2, tmp2, add, k + 1);
            lower_exp(arg1, tmp1, right, k2)
        },
        ast::Expression::Let(..) => (body, k),
    }
}

// ------------------------------------------------------------------- laws

/// `v` is one of the operand names of the additions numbered `k..k + m`.
pub open spec fn written(v: Seq<char>, k: nat, m: nat) -> bool {
    exists|j: nat| #![trigger left_name(j)] #![trigger right_name(j)]
        k <= j < k + m && (v == left_name(j) || v == right_name(j))
}

/// The store after the operations that `lowered_into(e, dest, _, k)` runs
/// before its continuation.
pub open spec fn store_after(st: Map<Seq<char>, int>, e: ast::Expression, dest: Seq<char>, k: nat) -> Map<Seq<char>, int>
    decreases e,
{
    match e {
        ast::Expression::Variable(x) => st.insert(dest, st[x@]),
        ast::Expression::Number(n) => st.insert(dest, n as int),
        ast::Expression::Prim { prim: ast::Prim::Add, args } => {
            if args.len() == 2 {
                let s1 = store_after(st, args@[0], left_name(k), k + 1 + adds(args@[1]));
                let s2 = store_after(s1, args@[1], right_name(k), k + 1);
                s2.insert(dest, s2[left_name(k)] + s2[right_name(k)])
            } else {
                st
            }
        },
        _ => st,
    }
}

proof fn lemma_block_after(st: Map<Seq<char>, int>, e: ast::Expression, dest: Seq<char>, next: BlockBodyV, k: nat)
    requires
        supported(e),
    ensures
        ssa::block_value(st, lowered_into(e, dest, next, k)) == ssa::block_value(store_after(st, e, dest, k), next),
    decreases e,
{
    if let ast::Expression::Prim { prim: ast::Prim::Add, args } = e {
        let k1 = k + 1 + adds(args@[1]);
        let s1 = store_after(st, args@[0], left_name(k), k1);
        let last = BlockBodyV::Operation {
            dest,
            op: OperationV::Prim(ssa::Prim::Add, ImmediateV::Var(left_name(k)), ImmediateV::Var(right_name(k))),
            next: Box::new(next),
        };
        lemma_block_after(st, args@[0], left_name(k), lowered_into(args@[1], right_name(k), last, k + 1), k1);
        lemma_block_after(s1, args@[1], right_name(k), last, k + 1);
    }
}

/// Operand names start with `%`, so they are no source names.
proof fn lemma_names_not_source(v: Seq<char>, k: nat, m: nat)
    requires
        source_name(v),
    ensures
        !written(v, k, m),
{
    reveal_strlit("%addArg1");
    reveal_strlit("%addArg2");
    assert forall|j: nat| #![trigger left_name(j)] #![trigger right_name(j)]
        k <= j < k + m implies v != left_name(j) && v != right_name(j) by {
        assert(left_name(j)[0] == '%');
        assert(right_name(j)[0] == '%');
    }
}

/// The two operand names of the addition numbered `k` are distinct, and no
/// other addition uses them.
proof fn lemma_names_apart(k: nat, j: nat)
    ensures
        left_name(k) != right_name(j),
        k != j ==> left_name(k) != left_name(j) && right_name(k) != right_name(j),
{
    reveal_strlit("%addArg1");
    reveal_strlit("%addArg2");
    if left_name(k) == right_name(j) {
        lemma_numbered_id("%addArg1"@, k, "%addArg2"@, j);
        assert("%addArg1"@[7] != "%addArg2"@[7]);
    }
    if k != j && left_name(k) == left_name(j) {
        lemma_numbered_id("%addArg1"@, k, "%addArg1"@, j);
    }
    if k != j && right_name(k) == right_name(j) {
        lemma_numbered_id("%addArg2"@, k, "%addArg2"@, j);
    }
}

proof fn lemma_eval_agree(s: Map<Seq<char>, int>, t: Map<Seq<char>, int>, vars: Set<Seq<char>>, e: ast::Expression)
    requires
        supported(e),
        ast::scoped(vars, e),
        forall|v: Seq<char>| #[trigger] vars.contains(v) ==> s[v] == t[v],
    ensures
        ast::eval(s, e) == ast::eval(t, e),
    decreases e,
{
    if let ast::Expression::Prim { prim: ast::Prim::Add, args } = e {
        assert(ast::scoped(vars, args@[0]) && ast::scoped(vars, args@[1]));
        lemma_eval_agree(s, t, vars, args@[0]);
        lemma_eval_agree(s, t, vars, args@[1]);
    }
}

proof fn lemma_store_after(st: Map<Seq<char>, int>, vars: Set<Seq<char>>, e: ast::Expression, dest: Seq<char>, k: nat)
    requires
        supported(e),
        ast::scoped(vars, e),
        forall|v: Seq<char>| #[trigger] vars.contains(v) ==> st.dom().contains(v) && source_name(v),
    ensures
        store_after(st, e, dest, k).dom().contains(dest),
        forall|v: Seq<char>| st.dom().contains(v) ==> #[trigger] store_after(st, e, dest, k).dom().contains(v),
        store_after(st, e, dest, k)[dest] == ast::eval(st, e),
        forall|v: Seq<char>|
            st.dom().contains(v) && v != dest && !written(v, k, adds(e)) ==> #[trigger] store_after(st, e, dest, k)[v] == st[v],
    decreases e,
{
    if let ast::Expression::Prim { prim: ast::Prim::Add, args } = e {
        let a1 = args@[0];
        let a2 = args@[1];
        let c1 = adds(a1);
        let c2 = adds(a2);
        let k1 = k + 1 + c2;
        let t1 = left_name(k);
        let t2 = right_name(k);
        assert(ast::scoped(vars, a1) && ast::scoped(vars, a2));
        lemma_store_after(st, vars, a1, t1, k1);
        let s1 = store_after(st, a1, t1, k1);
        lemma_store_after(s1, vars, a2, t2, k + 1);
        let s2 = store_after(s1, a2, t2, k + 1);
        // the left operand's value survives the right operand's code
        lemma_names_apart(k, k);
        assert(!written(t1, k + 1, c2)) by {
            if written(t1, k + 1, c2) {
                let j = choose|j: nat| #![trigger left_name(j)] #![trigger right_name(j)]
                    k + 1 <= j < k + 1 + c2 && (t1 == left_name(j) || t1 == right_name(j));
                lemma_names_apart(k, j);
            }
        }
        assert(s2[t1] == s1[t1]);
        // the right operand reads the same variables as before
        assert forall|v: Seq<char>| #[trigger] vars.contains(v) implies s1[v] == st[v] by {
            lemma_names_not_source(v, k1, c1);
            reveal_strlit("%addArg1");
            assert(t1[0] == '%');
        }
        lemma_eval_agree(s1, st, vars, a2);
        assert(ast::eval(st, e) == ast::eval(st, a1) + ast::eval(st, a2));
        // nothing else changes
        assert forall|v: Seq<char>|
            st.dom().contains(v) && v != dest && !written(v, k, adds(e)) implies #[trigger] store_after(st, e, dest, k)[v] == st[v] by {
            assert(v != t1 && v != t2) by {
                if v == t1 || v == t2 {
                    assert(written(v, k, adds(e)) && left_name(k) == t1 && right_name(k) == t2);
                }
            }
            if written(v, k1, c1) {
                let j = choose|j: nat| #![trigger left_name(j)] #![trigger right_name(j)]
                    k1 <= j < k1 + c1 && (v == left_name(j) || v == right_name(j));
                assert(left_name(j) == left_name(j) && right_name(j) == right_name(j));
                assert(written(v, k, adds(e)));
            }
            if written(v, k + 1, c2) {
                let j = choose|j: nat| #![trigger left_name(j)] #![trigger right_name(j)]
                    k + 1 <= j < k + 1 + c2 && (v == left_name(j) || v == right_name(j));
                assert(left_name(j) == left_name(j) && right_name(j) == right_name(j));
                assert(written(v, k, adds(e)));
            }
        }
    }
}

/// The lowering keeps the meaning of every program it handles: on every input,
/// the lowered program returns what the source program computes. The
/// parameter is a source identifier, which never starts with `%`.
pub proof fn lemma_lower_preserves_value(p: ast::Program, x: int)
    requires
        supported(p.body),
        ast::scoped(set![p.parameter@], p.body),
        source_name(p.parameter@),
    ensures
        ssa::program_value(
            p.parameter@,
            lowered_into(p.body, "result"@, BlockBodyV::Return(ImmediateV::Var("result"@)), 0),
            x,
        ) == ast::program_value(p, x),
{
    let st = Map::<Seq<char>, int>::empty().insert(p.parameter@, x);
    assert(st == ast::input_env(p, x));
    lemma_block_after(st, p.body, "result"@, BlockBodyV::Return(ImmediateV::Var("result"@)), 0);
    lemma_store_after(st, set![p.parameter@], p.body, "result"@, 0);
}

} // verus!
