//! The full combination: continuation-passing order, destination-driven code
//! generation and alpha-renaming. The destination policy avoids needless
//! copies of immediates, and the environment makes every reference after a
//! shadowing binding name its correct and unique SSA definition.

use vstd::prelude::*;
use crate::text::{nat_decimal, push_u64_decimal};
use super::ast;
use super::ssa;
use super::ssa::{Immediate, ImmediateV, Instr, Operation, OperationV, chain, code_view, build_block, imm_value, op_value, run, step, lemma_run_append, lemma_run_push, lemma_run_frame, lemma_chain_value, lemma_chain_dests, block_dests};
use super::cps_ddcg::{lemma_numbered_id, lemma_result_not_numbered};
use super::cps::target_prim;
use super::cps_ddcg::{DestinationPolicy, DestinationV, dest_name, numbered, with_immediate};
use super::cps_renaming::rename;
use crate::collections::{name_map_contents, name_map_get, name_map_unit, name_map_update};

verus! {

/// The straight-line code that computes `e` into the destination `d` under the
/// renaming `env`, the immediate that holds its value afterwards, and the next
/// unused temporary number, when temporaries are numbered from `n`. As in
/// `cps_ddcg::flat`, except that `let x = e1 in e2` first takes the name
/// `%x_{id}`, computes `e1` into it in the outer environment, and computes `e2`
/// in the environment where `x` stands for that name.
pub open spec fn flat(env: Map<Seq<char>, Seq<char>>, e: ast::Expression, d: DestinationV, n: nat) -> (Seq<Instr>, ImmediateV, nat)
    decreases e,
{
    match e {
        ast::Expression::Variable(x) => {
            let (c, i) = with_immediate(d, ImmediateV::Var(rename(env, x@)));
            (c, i, n)
        },
        ast::Expression::Number(k) => {
            let (c, i) = with_immediate(d, ImmediateV::Const(k));
            (c, i, n)
        },
        ast::Expression::Let(x, e1, e2) => {
            let renamed = numbered("%"@ + x@, n);
            let (c1, i1, n1) = flat(env, *e1, DestinationV::Required(renamed), n + 1);
            let (c2, i2, n2) = flat(env.insert(x@, renamed), *e2, d, n1);
            (c1 + c2, i2, n2)
        },
        ast::Expression::Prim { prim, args } => {
            if args.len() == 1 && ast::arity(prim) == 1 {
                let u = numbered("%"@ + "u"@, n);
                let (c, i, n1) = flat(env, args@[0], DestinationV::Preferred(u), n + 1);
                (
                    c.push((dest_name(d), OperationV::Prim(target_prim(prim), i, ImmediateV::Const(1)))),
                    ImmediateV::Var(dest_name(d)),
                    n1,
                )
            } else if args.len() == 2 && ast::arity(prim) == 2 {
                let (c1, i1, n1) = flat(env, args@[0], DestinationV::Preferred(numbered("%"@ + "lhs"@, n)), n + 1);
                let (c2, i2, n2) = flat(env, args@[1], DestinationV::Preferred(numbered("%"@ + "rhs"@, n1)), n1 + 1);
                (
                    (c1 + c2).push((dest_name(d), OperationV::Prim(target_prim(prim), i1, i2))),
                    ImmediateV::Var(dest_name(d)),
                    n2,
                )
            } else {
                (Seq::empty(), ImmediateV::Const(0), n)
            }
        },
    }
}

/// The environment a program starts in: the parameter stands for itself.
pub open spec fn initial_env(p: ast::Program) -> Map<Seq<char>, Seq<char>> {
    Map::empty().insert(p.parameter@, p.parameter@)
}

/// The SSA program that `lower` produces for `p`.
pub open spec fn lowered(p: ast::Program) -> ssa::BlockBodyV {
    let (code, result, _) = flat(initial_env(p), p.body, DestinationV::Preferred("%result"@), 0);
    chain(code, ssa::BlockBodyV::Return(result))
}

/// Lowers `program` to SSA, renaming every `let`-bound variable to a unique
/// name. At the top, an operation stores into `%result`, while an immediate is
/// returned directly.
pub fn lower(program: &ast::Program) -> (res: ssa::Program)
    requires
        ast::well_formed(program.body),
        2 * ast::size(program.body) < usize::MAX,
    ensures
        res.param@ == program.parameter@,
        res.entry@ == lowered(*program),
{
    let mut next_name: usize = 0;
    let destination = DestinationPolicy::Preferred(String::from_str("%result"));
    // The parameter is already a definition: the initial environment maps it to itself.
    let env = name_map_unit(program.parameter.clone(), program.parameter.clone());
    let mut code: Vec<(String, Operation)> = Vec::new();
    assert(code_view(code@) =~= Seq::<Instr>::empty());
    let result = lower_exp(&env, &program.body, destination, &mut next_name, &mut code);
    assert(code_view(code@) =~= Seq::<Instr>::empty() + flat(initial_env(*program), program.body, DestinationV::Preferred("%result"@), 0).0);
    ssa::Program { param: program.parameter.clone(), entry: build_block(code, result) }
}

fn continue_with_immediate(destination: DestinationPolicy, immediate: Immediate, code: &mut Vec<(String, Operation)>) -> (imm: Immediate)
    ensures
        code_view(final(code)@) == code_view(old(code)@) + with_immediate(destination@, immediate@).0,
        imm@ == with_immediate(destination@, immediate@).1,
{
    let ghost start = code_view(code@);
    match destination {
        DestinationPolicy::Preferred(_) => {
            assert(code_view(code@) =~= start + Seq::<Instr>::empty());
            immediate
        },
        DestinationPolicy::Required(dest) => {
            let ghost i = immediate@;
            code.push((dest.clone(), Operation::Immediate(immediate)));
            assert(code_view(code@) =~= start + seq![(dest@, OperationV::Immediate(i))]);
            Immediate::Var(dest)
        },
    }
}

fn continue_with_operation(destination: DestinationPolicy, operation: Operation, code: &mut Vec<(String, Operation)>) -> (imm: Immediate)
    ensures
        code_view(final(code)@) == code_view(old(code)@).push((dest_name(destination@), operation@)),
        imm@ == ImmediateV::Var(dest_name(destination@)),
{
    let dest = destination.into_name();
    let ghost before = code@;
    let ghost op = operation@;
    code.push((dest.clone(), operation));
    assert(code_view(code@) =~= code_view(before).push((dest@, op)));
    Immediate::Var(dest)
}

fn lower_exp(
    env: &im::HashMap<String, String>,
    e: &ast::Expression,
    destination: DestinationPolicy,
    next_name: &mut usize,
    code: &mut Vec<(String, Operation)>,
) -> (imm: Immediate)
    requires
        ast::well_formed(*e),
        *old(next_name) + 2 * ast::size(*e) <= usize::MAX,
    ensures
        code_view(final(code)@) == code_view(old(code)@) + flat(name_map_contents(*env), *e, destination@, *old(next_name) as nat).0,
        imm@ == flat(name_map_contents(*env), *e, destination@, *old(next_name) as nat).1,
        *final(next_name) as nat == flat(name_map_contents(*env), *e, destination@, *old(next_name) as nat).2,
        *final(next_name) <= *old(next_name) + 2 * ast::size(*e),
        destination@ is Required ==> imm@ == ImmediateV::Var(dest_name(destination@)),
    decreases ast::size(*e), 0nat,
{
    let ghost n = *next_name as nat;
    let ghost d = destination@;
    let ghost start = code_view(code@);
    match e {
        ast::Expression::Variable(name) => {
            // The SSA name that the source name has in the current scope.
            let renamed = match name_map_get(env, name) {
                Some(r) => r.clone(),
                None => name.clone(),
            };
            continue_with_immediate(destination, Immediate::Var(renamed), code)
        },
        ast::Expression::Number(number) => {
            continue_with_immediate(destination, Immediate::Const(*number), code)
        },
        ast::Expression::Let(name, rhs, body) => {
            // Every `let` gets a unique name; `let` is not recursive, so the
            // right-hand side is lowered in the outer environment and only the
            // body sees the new binding.
            let renamed = fresh_name(name.as_str(), next_name);
            let extended_env = name_map_update(env, name.clone(), renamed.clone());
            let ghost renamed_v = renamed@;
            let bound = lower_exp(env, rhs, DestinationPolicy::Required(renamed), next_name, code);
            assert(bound@ == ImmediateV::Var(renamed_v));
            let result = lower_exp(&extended_env, body, destination, next_name, code);
            assert(code_view(code@) =~= start + flat(name_map_contents(*env), *e, d, n).0);
            result
        },
        ast::Expression::Prim { prim, args } => {
            match prim {
                ast::Prim::Add1 => lower_unary(env, &args[0], ssa::Prim::Add, destination, next_name, code),
                ast::Prim::Sub1 => lower_unary(env, &args[0], ssa::Prim::Sub, destination, next_name, code),
                ast::Prim::Add => lower_binary(env, &args[0], &args[1], ssa::Prim::Add, destination, next_name, code),
                ast::Prim::Sub => lower_binary(env, &args[0], &args[1], ssa::Prim::Sub, destination, next_name, code),
                ast::Prim::Mul => lower_binary(env, &args[0], &args[1], ssa::Prim::Mul, destination, next_name, code),
            }
        },
    }
}

fn lower_unary(
    env: &im::HashMap<String, String>,
    argument: &ast::Expression,
    primitive: ssa::Prim,
    destination: DestinationPolicy,
    next_name: &mut usize,
    code: &mut Vec<(String, Operation)>,
) -> (imm: Immediate)
    requires
        ast::well_formed(*argument),
        *old(next_name) + 2 * ast::size(*argument) + 2 <= usize::MAX,
    ensures
        ({
            let n = *old(next_name) as nat;
            let (c, i, n1) = flat(name_map_contents(*env), *argument, DestinationV::Preferred(numbered("%"@ + "u"@, n)), n + 1);
            &&& code_view(final(code)@) == code_view(old(code)@) + c.push((dest_name(destination@), OperationV::Prim(primitive, i, ImmediateV::Const(1))))
            &&& imm@ == ImmediateV::Var(dest_name(destination@))
            &&& *final(next_name) == n1
        }),
        *final(next_name) <= *old(next_name) + 2 * ast::size(*argument) + 2,
    decreases ast::size(*argument), 1nat,
{
    // An immediate argument is used as it is; only a compound one stores into
    // the temporary prepared for it.
    let ghost start = code_view(code@);
    let u = fresh_name("u", next_name);
    let argument_imm = lower_exp(env, argument, DestinationPolicy::Preferred(u), next_name, code);
    let ghost mid = code_view(code@);
    let operation = Operation::Prim(primitive, argument_imm, Immediate::Const(1));
    let res = continue_with_operation(destination, operation, code);
    res
}

fn lower_binary(
    env: &im::HashMap<String, String>,
    left: &ast::Expression,
    right: &ast::Expression,
    primitive: ssa::Prim,
    destination: DestinationPolicy,
    next_name: &mut usize,
    code: &mut Vec<(String, Operation)>,
) -> (imm: Immediate)
    requires
        ast::well_formed(*left),
        ast::well_formed(*right),
        *old(next_name) + 2 * ast::size(*left) + 2 * ast::size(*right) + 2 <= usize::MAX,
    ensures
        ({
            let n = *old(next_name) as nat;
            let (c1, i1, n1) = flat(name_map_contents(*env), *left, DestinationV::Preferred(numbered("%"@ + "lhs"@, n)), n + 1);
            let (c2, i2, n2) = flat(name_map_contents(*env), *right, DestinationV::Preferred(numbered("%"@ + "rhs"@, n1)), n1 + 1);
            &&& code_view(final(code)@) == code_view(old(code)@) + (c1 + c2).push((dest_name(destination@), OperationV::Prim(primitive, i1, i2)))
            &&& imm@ == ImmediateV::Var(dest_name(destination@))
            &&& *final(next_name) == n2
        }),
        *final(next_name) <= *old(next_name) + 2 * ast::size(*left) + 2 * ast::size(*right) + 2,
    decreases ast::size(*left) + ast::size(*right), 1nat,
{
    // Left to right; an operand's preferred destination may go unused, so the
    // numbering may have gaps.
    let ghost start = code_view(code@);
    let lhs = fresh_name("lhs", next_name);
    let left_imm = lower_exp(env, left, DestinationPolicy::Preferred(lhs), next_name, code);
    let ghost mid = code_view(code@);
    let rhs = fresh_name("rhs", next_name);
    let right_imm = lower_exp(env, right, DestinationPolicy::Preferred(rhs), next_name, code);
    let ghost after = code_view(code@);
    let operation = Operation::Prim(primitive, left_imm, right_imm);
    let res = continue_with_operation(destination, operation, code);
    assert(code_view(code@) =~= start + ((mid.subrange(start.len() as int, mid.len() as int)) + after.subrange(mid.len() as int, after.len() as int)).push((dest_name(destination@), OperationV::Prim(primitive, left_imm@, right_imm@))));
    res
}

/// `%{prefix}_{id}` for the next unused number `id`, which it then marks as
/// used. Source identifiers hold no `%`, so these names stay apart from them,
/// and the shared numbering keeps them all distinct.
pub fn fresh_name(prefix: &str, next_name: &mut usize) -> (name: String)
    requires
        *old(next_name) < usize::MAX,
    ensures
        name@ == numbered("%"@ + prefix@, *old(next_name) as nat),
        *final(next_name) == *old(next_name) + 1,
{
    let id = *next_name;
    *next_name = id + 1;
    let mut name = String::from_str("%");
    name.append(prefix);
    name.append("_");
    push_u64_decimal(&mut name, id as u64);
    name
}

// ------------------------------------------------------------------- laws

/// A name this lowering makes: `%{q}_{k}`.
pub open spec fn made_name(q: Seq<char>, k: nat) -> Seq<char> {
    numbered("%"@ + q, k)
}

/// `v` is the parameter, or a name made with a number below `n`.
pub open spec fn known_before(param: Seq<char>, n: nat, v: Seq<char>) -> bool {
    v == param || exists|q: Seq<char>, k: nat| k < n && v == #[trigger] made_name(q, k)
}

/// No name made with a number from `n` on is `v`.
pub open spec fn fresh_from(n: nat, v: Seq<char>) -> bool {
    forall|q: Seq<char>, k: nat| n <= k ==> v != #[trigger] made_name(q, k)
}

/// `v` is the destination, or a name made with a number in `n..n2`.
pub open spec fn assigned_in(n: nat, n2: nat, d: DestinationV, v: Seq<char>) -> bool {
    v == dest_name(d) || exists|q: Seq<char>, k: nat| n <= k < n2 && v == #[trigger] made_name(q, k)
}

/// A source identifier: it does not start with `%`.
pub open spec fn source_name(v: Seq<char>) -> bool {
    v.len() == 0 || v[0] != '%'
}

pub open spec fn imm_known(param: Seq<char>, n: nat, d: DestinationV, i: ImmediateV) -> bool {
    match i {
        ImmediateV::Const(_) => true,
        ImmediateV::Var(v) => v == dest_name(d) || known_before(param, n, v),
    }
}

proof fn lemma_made_name_apart(param: Seq<char>, q: Seq<char>, k: nat)
    requires
        source_name(param),
    ensures
        param != made_name(q, k),
        made_name(q, k)[0] == '%',
{
    reveal_strlit("%");
    assert(made_name(q, k) == "%"@ + q + "_"@ + crate::text::nat_decimal(k));
    assert(made_name(q, k)[0] == "%"@[0]);
}

proof fn lemma_made_name_injective(q1: Seq<char>, k1: nat, q2: Seq<char>, k2: nat)
    requires
        made_name(q1, k1) == made_name(q2, k2),
    ensures
        k1 == k2,
{
    lemma_numbered_id("%"@ + q1, k1, "%"@ + q2, k2);
}

/// Code that assigns only the destination and names made from `n` on leaves
/// alone every other name known before `n`.
proof fn lemma_frame(st: Map<Seq<char>, int>, c: Seq<Instr>, n: nat, n2: nat, d: DestinationV, param: Seq<char>, v: Seq<char>)
    requires
        forall|j: int| 0 <= j < c.len() ==> assigned_in(n, n2, d, #[trigger] c[j].0),
        known_before(param, n, v),
        v != dest_name(d),
        source_name(param),
    ensures
        run(st, c)[v] == st[v],
{
    assert forall|j: int| 0 <= j < c.len() implies (#[trigger] c[j]).0 != v by {
        assert(assigned_in(n, n2, d, c[j].0));
        if c[j].0 != dest_name(d) {
            let (q, k) = choose|q: Seq<char>, k: nat| n <= k < n2 && c[j].0 == #[trigger] made_name(q, k);
            if v == param {
                lemma_made_name_apart(param, q, k);
            } else {
                let (q2, k2) = choose|q2: Seq<char>, k2: nat| k2 < n && v == #[trigger] made_name(q2, k2);
                if c[j].0 == v {
                    lemma_made_name_injective(q, k, q2, k2);
                }
            }
        }
    }
    lemma_run_frame(st, c, v);
}

/// The code of `e` into destination `d` leaves in its immediate the value of
/// `e`, when every variable in scope is renamed to a name that holds its value
/// and the destination is a name that nothing in scope uses.
proof fn lemma_flat_value(
    env: Map<Seq<char>, Seq<char>>,
    rho: Map<Seq<char>, int>,
    st: Map<Seq<char>, int>,
    param: Seq<char>,
    e: ast::Expression,
    d: DestinationV,
    n: nat,
)
    requires
        ast::well_formed(e),
        ast::scoped(rho.dom(), e),
        env.dom() == rho.dom(),
        forall|x: Seq<char>| #[trigger] rho.contains_key(x) ==> st[env[x]] == rho[x] && known_before(param, n, env[x]) && env[x] != dest_name(d),
        fresh_from(n, dest_name(d)),
        source_name(param),
    ensures
        ({
            let (c, i, n2) = flat(env, e, d, n);
            &&& n <= n2
            &&& imm_value(run(st, c), i) == ast::eval(rho, e)
            &&& imm_known(param, n2, d, i)
            &&& d is Required ==> i == ImmediateV::Var(dest_name(d))
            &&& forall|j: int| 0 <= j < c.len() ==> assigned_in(n, n2, d, #[trigger] c[j].0)
        }),
    decreases e,
{
    match e {
        ast::Expression::Variable(x) => {
            assert(rho.contains_key(x@));
            assert(env.contains_key(x@));
            assert(rename(env, x@) == env[x@]);
            assert(st[env[x@]] == rho[x@]);
            assert(ast::eval(rho, e) == rho[x@]);
            let (c, i, n2) = flat(env, e, d, n);
            if let DestinationV::Required(dst) = d {
                assert(c =~= seq![(dst, OperationV::Immediate(ImmediateV::Var(env[x@])))]);
                assert(c.drop_first() =~= Seq::<Instr>::empty());
                assert(run(st, c) == run(step(st, c[0]), Seq::<Instr>::empty()));
                assert(run(step(st, c[0]), Seq::<Instr>::empty()) == step(st, c[0]));
                assert(c[0].0 == dst);
                assert(step(st, c[0])[dst] == st[env[x@]]);
                assert(i == ImmediateV::Var(dst));
                assert(imm_value(run(st, c), i) == run(st, c)[dst]);
            } else {
                assert(c =~= Seq::<Instr>::empty());
                assert(i == ImmediateV::Var(env[x@]));
                assert(run(st, c) == st);
                assert(imm_value(run(st, c), i) == st[env[x@]]);
            }
        },
        ast::Expression::Number(k) => {
            let (c, i, n2) = flat(env, e, d, n);
            if let DestinationV::Required(dst) = d {
                assert(c =~= seq![(dst, OperationV::Immediate(ImmediateV::Const(k)))]);
                assert(c.drop_first() =~= Seq::<Instr>::empty());
                assert(run(st, c) == run(step(st, c[0]), Seq::<Instr>::empty()));
                assert(run(step(st, c[0]), Seq::<Instr>::empty()) == step(st, c[0]));
                assert(c[0].0 == dst);
                assert(i == ImmediateV::Var(dst));
            } else {
                assert(c =~= Seq::<Instr>::empty());
                assert(run(st, c) == st);
            }
        },
        ast::Expression::Let(x, e1, e2) => {
            let renamed = made_name(x@, n);
            assert(renamed == numbered("%"@ + x@, n));
            let d1 = DestinationV::Required(renamed);
            assert forall|y: Seq<char>| #[trigger] rho.contains_key(y) implies st[env[y]] == rho[y] && known_before(param, n + 1, env[y]) && env[y] != dest_name(d1) by {
                let w = env[y];
                if w == param {
                    lemma_made_name_apart(param, x@, n);
                } else {
                    let (q, k) = choose|q: Seq<char>, k: nat| k < n && w == #[trigger] made_name(q, k);
                    assert(k < n + 1);
                    if w == renamed {
                        lemma_made_name_injective(q, k, x@, n);
                    }
                }
            }
            assert forall|q: Seq<char>, k: nat| n + 1 <= k implies renamed != #[trigger] made_name(q, k) by {
                if renamed == made_name(q, k) {
                    lemma_made_name_injective(x@, n, q, k);
                }
            }
            lemma_flat_value(env, rho, st, param, *e1, d1, n + 1);
            let (c1, i1, n1) = flat(env, *e1, d1, n + 1);
            let st1 = run(st, c1);
            let v1 = ast::eval(rho, *e1);
            let env2 = env.insert(x@, renamed);
            let rho2 = rho.insert(x@, v1);
            assert forall|y: Seq<char>| #[trigger] rho2.contains_key(y) implies st1[env2[y]] == rho2[y] && known_before(param, n1, env2[y]) && env2[y] != dest_name(d) by {
                if y == x@ {
                    assert(n < n1);
                    assert(renamed == made_name(x@, n));
                } else {
                    assert(rho.contains_key(y));
                    let w = env[y];
                    assert(known_before(param, n + 1, w)) by {
                        if w != param {
                            let (q, k) = choose|q: Seq<char>, k: nat| k < n && w == #[trigger] made_name(q, k);
                            assert(k < n + 1);
                        }
                    }
                    assert(w != renamed) by {
                        if w != param {
                            let (q, k) = choose|q: Seq<char>, k: nat| k < n && w == #[trigger] made_name(q, k);
                            if w == renamed {
                                lemma_made_name_injective(q, k, x@, n);
                            }
                        } else {
                            lemma_made_name_apart(param, x@, n);
                        }
                    }
                    lemma_frame(st, c1, n + 1, n1, d1, param, w);
                    if w != param {
                        let (q, k) = choose|q: Seq<char>, k: nat| k < n && w == #[trigger] made_name(q, k);
                        assert(k < n1);
                    }
                }
            }
            assert(env2.dom() =~= rho2.dom());
            assert(rho2.dom() =~= rho.dom().insert(x@));
            lemma_flat_value(env2, rho2, st1, param, *e2, d, n1);
            let (c2, i2, n2) = flat(env2, *e2, d, n1);
            lemma_run_append(st, c1, c2);
            let c = c1 + c2;
            assert forall|j: int| 0 <= j < c.len() implies assigned_in(n, n2, d, #[trigger] c[j].0) by {
                if j < c1.len() {
                    assert(c[j] == c1[j]);
                    assert(assigned_in(n + 1, n1, d1, c1[j].0));
                    if c1[j].0 == renamed {
                        assert(renamed == made_name(x@, n));
                    } else {
                        let (q, k) = choose|q: Seq<char>, k: nat| n + 1 <= k < n1 && c1[j].0 == #[trigger] made_name(q, k);
                        assert(n <= k < n2);
                    }
                } else {
                    assert(c[j] == c2[j - c1.len()]);
                    assert(assigned_in(n1, n2, d, c2[j - c1.len()].0));
                    if c2[j - c1.len()].0 != dest_name(d) {
                        let (q, k) = choose|q: Seq<char>, k: nat| n1 <= k < n2 && c2[j - c1.len()].0 == #[trigger] made_name(q, k);
                        assert(n <= k < n2);
                    }
                }
            }
            if let ImmediateV::Var(v) = i2 {
                if v != dest_name(d) && v != param {
                    let (q, k) = choose|q: Seq<char>, k: nat| k < n2 && v == #[trigger] made_name(q, k);
                }
            }
        },
        ast::Expression::Prim { prim, args } => {
            assert(ast::well_formed(args@[0]) && ast::scoped(rho.dom(), args@[0]));
            let dn = dest_name(d);
            if args.len() == 1 {
                let u = made_name("u"@, n);
                let d1 = DestinationV::Preferred(u);
                assert forall|y: Seq<char>| #[trigger] rho.contains_key(y) implies st[env[y]] == rho[y] && known_before(param, n + 1, env[y]) && env[y] != dest_name(d1) by {
                    let w = env[y];
                    if w == param {
                        lemma_made_name_apart(param, "u"@, n);
                    } else {
                        let (q, k) = choose|q: Seq<char>, k: nat| k < n && w == #[trigger] made_name(q, k);
                        assert(k < n + 1);
                        if w == u {
                            lemma_made_name_injective(q, k, "u"@, n);
                        }
                    }
                }
                assert forall|q: Seq<char>, k: nat| n + 1 <= k implies u != #[trigger] made_name(q, k) by {
                    if u == made_name(q, k) {
                        lemma_made_name_injective("u"@, n, q, k);
                    }
                }
                lemma_flat_value(env, rho, st, param, args@[0], d1, n + 1);
                let (c, i, n1) = flat(env, args@[0], d1, n + 1);
                let ins = (dn, OperationV::Prim(target_prim(prim), i, ImmediateV::Const(1)));
                lemma_run_push(st, c, ins);
                let cc = c.push(ins);
                assert forall|j: int| 0 <= j < cc.len() implies assigned_in(n, n1, d, #[trigger] cc[j].0) by {
                    if j < c.len() {
                        assert(cc[j] == c[j]);
                        assert(assigned_in(n + 1, n1, d1, c[j].0));
                        if c[j].0 == u {
                        } else {
                            let (q, k) = choose|q: Seq<char>, k: nat| n + 1 <= k < n1 && c[j].0 == #[trigger] made_name(q, k);
                            assert(n <= k < n1);
                        }
                    }
                }
            } else {
                assert(ast::well_formed(args@[1]) && ast::scoped(rho.dom(), args@[1]));
                let lhs = made_name("lhs"@, n);
                let d1 = DestinationV::Preferred(lhs);
                assert forall|y: Seq<char>| #[trigger] rho.contains_key(y) implies st[env[y]] == rho[y] && known_before(param, n + 1, env[y]) && env[y] != dest_name(d1) by {
                    let w = env[y];
                    if w == param {
                        lemma_made_name_apart(param, "lhs"@, n);
                    } else {
                        let (q, k) = choose|q: Seq<char>, k: nat| k < n && w == #[trigger] made_name(q, k);
                        assert(k < n + 1);
                        if w == lhs {
                            lemma_made_name_injective(q, k, "lhs"@, n);
                        }
                    }
                }
                assert forall|q: Seq<char>, k: nat| n + 1 <= k implies lhs != #[trigger] made_name(q, k) by {
                    if lhs == made_name(q, k) {
                        lemma_made_name_injective("lhs"@, n, q, k);
                    }
                }
                lemma_flat_value(env, rho, st, param, args@[0], d1, n + 1);
                let (c1, i1, n1) = flat(env, args@[0], d1, n + 1);
                let st1 = run(st, c1);
                let rhs = made_name("rhs"@, n1);
                let d2 = DestinationV::Preferred(rhs);
                assert forall|y: Seq<char>| #[trigger] rho.contains_key(y) implies st1[env[y]] == rho[y] && known_before(param, n1 + 1, env[y]) && env[y] != dest_name(d2) by {
                    let w = env[y];
                    lemma_frame(st, c1, n + 1, n1, d1, param, w);
                    if w == param {
                        lemma_made_name_apart(param, "rhs"@, n1);
                    } else {
                        let (q, k) = choose|q: Seq<char>, k: nat| k < n && w == #[trigger] made_name(q, k);
                        assert(k < n1 + 1);
                        if w == rhs {
                            lemma_made_name_injective(q, k, "rhs"@, n1);
                        }
                    }
                }
                assert forall|q: Seq<char>, k: nat| n1 + 1 <= k implies rhs != #[trigger] made_name(q, k) by {
                    if rhs == made_name(q, k) {
                        lemma_made_name_injective("rhs"@, n1, q, k);
                    }
                }
                lemma_flat_value(env, rho, st1, param, args@[1], d2, n1 + 1);
                let (c2, i2, n2) = flat(env, args@[1], d2, n1 + 1);
                let st12 = run(st1, c2);
                if let ImmediateV::Var(v) = i1 {
                    // The left operand's result survives the right operand's code.
                    assert(known_before(param, n1 + 1, v)) by {
                        if v == lhs {
                            assert(lhs == made_name("lhs"@, n));
                        } else if v != param {
                            let (q, k) = choose|q: Seq<char>, k: nat| k < n1 && v == #[trigger] made_name(q, k);
                            assert(k < n1 + 1);
                        }
                    }
                    assert(v != rhs) by {
                        if v == lhs {
                            if lhs == rhs {
                                lemma_made_name_injective("lhs"@, n, "rhs"@, n1);
                            }
                        } else if v == param {
                            lemma_made_name_apart(param, "rhs"@, n1);
                        } else {
                            let (q, k) = choose|q: Seq<char>, k: nat| k < n1 && v == #[trigger] made_name(q, k);
                            if v == rhs {
                                lemma_made_name_injective(q, k, "rhs"@, n1);
                            }
                        }
                    }
                    lemma_frame(st1, c2, n1 + 1, n2, d2, param, v);
                }
                assert(imm_value(st12, i1) == imm_value(st1, i1));
                let ins = (dn, OperationV::Prim(target_prim(prim), i1, i2));
                lemma_run_append(st, c1, c2);
                lemma_run_push(st, c1 + c2, ins);
                let cc = (c1 + c2).push(ins);
                assert forall|j: int| 0 <= j < cc.len() implies assigned_in(n, n2, d, #[trigger] cc[j].0) by {
                    if j < c1.len() {
                        assert(cc[j] == c1[j]);
                        assert(assigned_in(n + 1, n1, d1, c1[j].0));
                        if c1[j].0 != lhs {
                            let (q, k) = choose|q: Seq<char>, k: nat| n + 1 <= k < n1 && c1[j].0 == #[trigger] made_name(q, k);
                            assert(n <= k < n2);
                        }
                    } else if j < c1.len() + c2.len() {
                        assert(cc[j] == c2[j - c1.len()]);
                        assert(assigned_in(n1 + 1, n2, d2, c2[j - c1.len()].0));
                        if c2[j - c1.len()].0 != rhs {
                            let (q, k) = choose|q: Seq<char>, k: nat| n1 + 1 <= k < n2 && c2[j - c1.len()].0 == #[trigger] made_name(q, k);
                            assert(n <= k < n2);
                        } else {
                            assert(rhs == made_name("rhs"@, n1));
                        }
                    }
                }
            }
        },
    }
}

/// The code of `e` into destination `d` assigns each name at most once: the
/// destination, and names made with numbers from `n` on.
proof fn lemma_flat_distinct(env: Map<Seq<char>, Seq<char>>, e: ast::Expression, d: DestinationV, n: nat)
    requires
        fresh_from(n, dest_name(d)),
    ensures
        ({
            let (c, i, n2) = flat(env, e, d, n);
            &&& n <= n2
            &&& forall|j: int| 0 <= j < c.len() ==> assigned_in(n, n2, d, #[trigger] c[j].0)
            &&& forall|a: int, b: int| 0 <= a < b < c.len() ==> (#[trigger] c[a]).0 != (#[trigger] c[b]).0
        }),
    decreases e,
{
    match e {
        ast::Expression::Let(x, e1, e2) => {
            let renamed = made_name(x@, n);
            let d1 = DestinationV::Required(renamed);
            assert forall|q: Seq<char>, k: nat| n + 1 <= k implies renamed != #[trigger] made_name(q, k) by {
                if renamed == made_name(q, k) {
                    lemma_made_name_injective(x@, n, q, k);
                }
            }
            lemma_flat_distinct(env, *e1, d1, n + 1);
            let (c1, i1, n1) = flat(env, *e1, d1, n + 1);
            let env2 = env.insert(x@, renamed);
            lemma_flat_distinct(env2, *e2, d, n1);
            let (c2, i2, n2) = flat(env2, *e2, d, n1);
            let c = c1 + c2;
            assert forall|j: int| 0 <= j < c.len() implies assigned_in(n, n2, d, #[trigger] c[j].0) by {
                if j < c1.len() {
                    assert(c[j] == c1[j]);
                    assert(assigned_in(n + 1, n1, d1, c1[j].0));
                    if c1[j].0 != renamed {
                        let (q, k) = choose|q: Seq<char>, k: nat| n + 1 <= k < n1 && c1[j].0 == #[trigger] made_name(q, k);
                        assert(n <= k < n2);
                    }
                } else {
                    assert(c[j] == c2[j - c1.len()]);
                    assert(assigned_in(n1, n2, d, c2[j - c1.len()].0));
                    if c2[j - c1.len()].0 != dest_name(d) {
                        let (q, k) = choose|q: Seq<char>, k: nat| n1 <= k < n2 && c2[j - c1.len()].0 == #[trigger] made_name(q, k);
                        assert(n <= k < n2);
                    }
                }
            }
            assert forall|a: int, b: int| 0 <= a < b < c.len() implies (#[trigger] c[a]).0 != (#[trigger] c[b]).0 by {
                if a < c1.len() && b >= c1.len() {
                    let u = c1[a].0;
                    let w = c2[b - c1.len()].0;
                    assert(c[a] == c1[a] && c[b] == c2[b - c1.len()]);
                    assert(assigned_in(n + 1, n1, d1, u));
                    assert(assigned_in(n1, n2, d, w));
                    if u == w {
                        if w == dest_name(d) {
                            if u == renamed {
                            } else {
                                let (q, k) = choose|q: Seq<char>, k: nat| n + 1 <= k < n1 && u == #[trigger] made_name(q, k);
                            }
                        } else {
                            let (q2, k2) = choose|q2: Seq<char>, k2: nat| n1 <= k2 < n2 && w == #[trigger] made_name(q2, k2);
                            if u == renamed {
                                lemma_made_name_injective(x@, n, q2, k2);
                            } else {
                                let (q, k) = choose|q: Seq<char>, k: nat| n + 1 <= k < n1 && u == #[trigger] made_name(q, k);
                                lemma_made_name_injective(q, k, q2, k2);
                            }
                        }
                    }
                } else if a < c1.len() {
                    assert(c[a] == c1[a] && c[b] == c1[b]);
                } else {
                    assert(c[a] == c2[a - c1.len()] && c[b] == c2[b - c1.len()]);
                }
            }
        },
        ast::Expression::Prim { prim, args } => {
            let dn = dest_name(d);
            if args.len() == 1 && ast::arity(prim) == 1 {
                let u = made_name("u"@, n);
                let d1 = DestinationV::Preferred(u);
                assert forall|q: Seq<char>, k: nat| n + 1 <= k implies u != #[trigger] made_name(q, k) by {
                    if u == made_name(q, k) {
                        lemma_made_name_injective("u"@, n, q, k);
                    }
                }
                lemma_flat_distinct(env, args@[0], d1, n + 1);
                let (c, i, n1) = flat(env, args@[0], d1, n + 1);
                let ins = (dn, OperationV::Prim(target_prim(prim), i, ImmediateV::Const(1)));
                let cc = c.push(ins);
                assert forall|j: int| 0 <= j < cc.len() implies assigned_in(n, n1, d, #[trigger] cc[j].0) by {
                    if j < c.len() {
                        assert(cc[j] == c[j]);
                        assert(assigned_in(n + 1, n1, d1, c[j].0));
                        if c[j].0 != u {
                            let (q, k) = choose|q: Seq<char>, k: nat| n + 1 <= k < n1 && c[j].0 == #[trigger] made_name(q, k);
                            assert(n <= k < n1);
                        }
                    }
                }
                assert forall|a: int, b: int| 0 <= a < b < cc.len() implies (#[trigger] cc[a]).0 != (#[trigger] cc[b]).0 by {
                    assert(cc[a] == c[a]);
                    if b == c.len() {
                        assert(assigned_in(n + 1, n1, d1, c[a].0));
                        if c[a].0 != u {
                            let (q, k) = choose|q: Seq<char>, k: nat| n + 1 <= k < n1 && c[a].0 == #[trigger] made_name(q, k);
                        }
                    } else {
                        assert(cc[b] == c[b]);
                    }
                }
            } else if args.len() == 2 && ast::arity(prim) == 2 {
                let lhs = made_name("lhs"@, n);
                let d1 = DestinationV::Preferred(lhs);
                assert forall|q: Seq<char>, k: nat| n + 1 <= k implies lhs != #[trigger] made_name(q, k) by {
                    if lhs == made_name(q, k) {
                        lemma_made_name_injective("lhs"@, n, q, k);
                    }
                }
                lemma_flat_distinct(env, args@[0], d1, n + 1);
                let (c1, i1, n1) = flat(env, args@[0], d1, n + 1);
                let rhs = made_name("rhs"@, n1);
                let d2 = DestinationV::Preferred(rhs);
                assert forall|q: Seq<char>, k: nat| n1 + 1 <= k implies rhs != #[trigger] made_name(q, k) by {
                    if rhs == made_name(q, k) {
                        lemma_made_name_injective("rhs"@, n1, q, k);
                    }
                }
                lemma_flat_distinct(env, args@[1], d2, n1 + 1);
                let (c2, i2, n2) = flat(env, args@[1], d2, n1 + 1);
                let ins = (dn, OperationV::Prim(target_prim(prim), i1, i2));
                let c = c1 + c2;
                let cc = c.push(ins);
                assert forall|j: int| 0 <= j < c.len() implies #[trigger] c[j].0 != dn && (exists|q: Seq<char>, k: nat| n <= k < n2 && c[j].0 == #[trigger] made_name(q, k)) by {
                    if j < c1.len() {
                        assert(c[j] == c1[j]);
                        assert(assigned_in(n + 1, n1, d1, c1[j].0));
                        if c1[j].0 == lhs {
                            assert(lhs == made_name("lhs"@, n));
                        } else {
                            let (q, k) = choose|q: Seq<char>, k: nat| n + 1 <= k < n1 && c1[j].0 == #[trigger] made_name(q, k);
                            assert(n <= k < n2);
                        }
                    } else {
                        assert(c[j] == c2[j - c1.len()]);
                        assert(assigned_in(n1 + 1, n2, d2, c2[j - c1.len()].0));
                        if c2[j - c1.len()].0 == rhs {
                            assert(rhs == made_name("rhs"@, n1));
                        } else {
                            let (q, k) = choose|q: Seq<char>, k: nat| n1 + 1 <= k < n2 && c2[j - c1.len()].0 == #[trigger] made_name(q, k);
                            assert(n <= k < n2);
                        }
                    }
                }
                assert forall|j: int| 0 <= j < cc.len() implies assigned_in(n, n2, d, #[trigger] cc[j].0) by {
                    if j < c.len() {
                        assert(cc[j] == c[j]);
                        let t = c[j].0;
                    }
                }
                assert forall|a: int, b: int| 0 <= a < b < c.len() implies (#[trigger] c[a]).0 != (#[trigger] c[b]).0 by {
                    if a < c1.len() && b >= c1.len() {
                        let u = c1[a].0;
                        let w = c2[b - c1.len()].0;
                        assert(c[a] == c1[a] && c[b] == c2[b - c1.len()]);
                        assert(assigned_in(n + 1, n1, d1, u));
                        assert(assigned_in(n1 + 1, n2, d2, w));
                        if u == w {
                            let (q, k) = if u == lhs {
                                ("lhs"@, n)
                            } else {
                                choose|q: Seq<char>, k: nat| n + 1 <= k < n1 && u == #[trigger] made_name(q, k)
                            };
                            let (q2, k2) = if w == rhs {
                                ("rhs"@, n1)
                            } else {
                                choose|q2: Seq<char>, k2: nat| n1 + 1 <= k2 < n2 && w == #[trigger] made_name(q2, k2)
                            };
                            lemma_made_name_injective(q, k, q2, k2);
                        }
                    } else if a < c1.len() {
                        assert(c[a] == c1[a] && c[b] == c1[b]);
                    } else {
                        assert(c[a] == c2[a - c1.len()] && c[b] == c2[b - c1.len()]);
                    }
                }
                assert forall|a: int, b: int| 0 <= a < b < cc.len() implies (#[trigger] cc[a]).0 != (#[trigger] cc[b]).0 by {
                    assert(cc[a] == c[a]);
                    if b < c.len() {
                        assert(cc[b] == c[b]);
                    } else {
                        let t = c[a].0;
                    }
                }
            }
        },
        _ => {
            let (c, i, n2) = flat(env, e, d, n);
            if c.len() > 0 {
                assert(c.len() == 1);
            }
        },
    }
}

/// The lowered program is in single-assignment form: it assigns every name
/// at most once, and never the parameter, which is a source identifier.
pub proof fn lemma_lower_single_assignment(p: ast::Program)
    requires
        source_name(p.parameter@),
    ensures
        block_dests(lowered(p)).no_duplicates(),
        !block_dests(lowered(p)).contains(p.parameter@),
{
    let d = DestinationV::Preferred("%result"@);
    assert forall|q: Seq<char>, k: nat| 0 <= k implies "%result"@ != #[trigger] made_name(q, k) by {
        lemma_result_not_numbered("%"@ + q, k);
    }
    lemma_flat_distinct(initial_env(p), p.body, d, 0);
    let (code, result, n2) = flat(initial_env(p), p.body, d, 0);
    lemma_chain_dests(code, result);
    let ds = code.map_values(|ins: Instr| ins.0);
    assert forall|i: int, j: int| 0 <= i < ds.len() && 0 <= j < ds.len() && i != j implies ds[i] != ds[j] by {
        if i < j {
            assert(code[i].0 != code[j].0);
        } else {
            assert(code[j].0 != code[i].0);
        }
    }
    reveal_strlit("%result");
    assert forall|i: int| 0 <= i < ds.len() implies ds[i] != p.parameter@ by {
        assert(assigned_in(0, n2, d, code[i].0));
        if code[i].0 == "%result"@ {
            assert("%result"@[0] == '%');
        } else {
            let (q, k) = choose|q: Seq<char>, k: nat| 0 <= k < n2 && code[i].0 == #[trigger] made_name(q, k);
            lemma_made_name_apart(p.parameter@, q, k);
        }
    }
}

/// Lowering keeps the meaning of a program: on every input, the lowered
/// program returns what the source program computes, shadowed variables
/// included. The parameter is a source identifier, which never starts with `%`.
pub proof fn lemma_lower_preserves_value(p: ast::Program, x: int)
    requires
        ast::well_formed(p.body),
        ast::scoped(set![p.parameter@], p.body),
        source_name(p.parameter@),
    ensures
        ssa::program_value(p.parameter@, lowered(p), x) == ast::program_value(p, x),
{
    let env = initial_env(p);
    let rho = ast::input_env(p, x);
    let st = Map::<Seq<char>, int>::empty().insert(p.parameter@, x);
    let d = DestinationV::Preferred("%result"@);
    reveal_strlit("%result");
    assert(rho.dom() =~= set![p.parameter@]);
    assert(env.dom() =~= rho.dom());
    assert(p.parameter@ != "%result"@) by {
        assert("%result"@[0] == '%');
    }
    assert forall|q: Seq<char>, k: nat| 0 <= k implies "%result"@ != #[trigger] made_name(q, k) by {
        lemma_result_not_numbered("%"@ + q, k);
    }
    lemma_flat_value(env, rho, st, p.parameter@, p.body, d, 0);
    let (code, result, _) = flat(env, p.body, d, 0);
    lemma_chain_value(st, code, ssa::BlockBodyV::Return(result));
}

} // verus!
