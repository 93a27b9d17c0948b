//! Lowering in continuation-passing order with alpha-renaming: every `let`
//! binding gets a unique SSA name, and an environment maps each source name to
//! its current SSA name, so lexical scope and shadowing are handled correctly.

use vstd::prelude::*;
use crate::collections::{name_map_contents, name_map_get, name_map_unit, name_map_update};
use crate::text::{lemma_nat_decimal_injective, lemma_prefix_cancel, nat_decimal, push_u64_decimal};
use super::ast;
use super::ssa;
use super::ssa::{Immediate, ImmediateV, Instr, Operation, OperationV, chain, code_view, build_block, imm_value, op_value, run, step, lemma_run_append, lemma_run_push, lemma_run_frame, lemma_chain_value, lemma_chain_dests, block_dests};
use super::cps::{temp_name, target_prim};

verus! {

/// The SSA name of a source name in `env`: its entry, or the name itself
/// where it has none.
pub open spec fn rename(env: Map<Seq<char>, Seq<char>>, x: Seq<char>) -> Seq<char> {
    if env.contains_key(x) {
        env[x]
    } else {
        x
    }
}

/// The straight-line code that computes `e` under the renaming `env`, the
/// immediate that holds its value afterwards, and the next unused temporary
/// number, when temporaries are numbered from `n`. A `let` stores its value
/// into a fresh temporary, which the body sees in place of the bound name.
pub open spec fn flat(env: Map<Seq<char>, Seq<char>>, e: ast::Expression, n: nat) -> (Seq<Instr>, ImmediateV, nat)
    decreases e,
{
    match e {
        ast::Expression::Variable(x) => (Seq::empty(), ImmediateV::Var(rename(env, x@)), n),
        ast::Expression::Number(k) => (Seq::empty(), ImmediateV::Const(k), n),
        ast::Expression::Let(x, e1, e2) => {
            let (c1, i1, n1) = flat(env, *e1, n);
            let (c2, i2, n2) = flat(env.insert(x@, temp_name(n1)), *e2, n1 + 1);
            (c1.push((temp_name(n1), OperationV::Immediate(i1))) + c2, i2, n2)
        },
        ast::Expression::Prim { prim, args } => {
            if args.len() == 1 && ast::arity(prim) == 1 {
                let (c, i, n1) = flat(env, args@[0], n);
                (
                    c.push((temp_name(n1), OperationV::Prim(target_prim(prim), i, ImmediateV::Const(1)))),
                    ImmediateV::Var(temp_name(n1)),
                    n1 + 1,
                )
            } else if args.len() == 2 && ast::arity(prim) == 2 {
                let (c1, i1, n1) = flat(env, args@[0], n);
                let (c2, i2, n2) = flat(env, args@[1], n1);
                (
                    (c1 + c2).push((temp_name(n2), OperationV::Prim(target_prim(prim), i1, i2))),
                    ImmediateV::Var(temp_name(n2)),
                    n2 + 1,
                )
            } else {
                (Seq::empty(), ImmediateV::Const(0), n)
            }
        },
    }
}

/// The environment a program starts in: the parameter stands for itself.
pub open spec fn initial_env(p: ast::Program) -> Map<Seq<char>, Seq<char>> {
    Map::empty().insert(p.parameter@, p.parameter@)
}

/// The SSA program that `lower` produces for `p`.
pub open spec fn lowered(p: ast::Program) -> ssa::BlockBodyV {
    let (code, result, _) = flat(initial_env(p), p.body, 0);
    chain(code, ssa::BlockBodyV::Return(result))
}

/// Lowers `program` to SSA, renaming every `let`-bound variable to a fresh temporary.
pub fn lower(program: &ast::Program) -> (res: ssa::Program)
    requires
        ast::well_formed(program.body),
        ast::size(program.body) < usize::MAX,
    ensures
        res.param@ == program.parameter@,
        res.entry@ == lowered(*program),
{
    let mut next_name: usize = 0;
    // The parameter is already a definition: the initial environment maps it to itself.
    let environment = name_map_unit(program.parameter.clone(), program.parameter.clone());
    let mut code: Vec<(String, Operation)> = Vec::new();
    assert(code_view(code@) =~= Seq::<Instr>::empty());
    let result = lower_exp(&program.body, &environment, &mut next_name, &mut code);
    assert(code_view(code@) =~= Seq::<Instr>::empty() + flat(initial_env(*program), program.body, 0).0);
    ssa::Program { param: program.parameter.clone(), entry: build_block(code, result) }
}

fn lower_exp(
    e: &ast::Expression,
    environment: &im::HashMap<String, String>,
    next_name: &mut usize,
    code: &mut Vec<(String, Operation)>,
) -> (imm: Immediate)
    requires
        ast::well_formed(*e),
        *old(next_name) + ast::size(*e) <= usize::MAX,
    ensures
        code_view(final(code)@) == code_view(old(code)@) + flat(name_map_contents(*environment), *e, *old(next_name) as nat).0,
        imm@ == flat(name_map_contents(*environment), *e, *old(next_name) as nat).1,
        *final(next_name) as nat == flat(name_map_contents(*environment), *e, *old(next_name) as nat).2,
        *final(next_name) <= *old(next_name) + ast::size(*e),
    decreases ast::size(*e), 0nat,
{
    let ghost env = name_map_contents(*environment);
    let ghost n = *next_name as nat;
    let ghost start = code_view(code@);
    match e {
        ast::Expression::Variable(name) => {
            assert(code_view(code@) =~= start + Seq::<Instr>::empty());
            // The SSA name that the source name has in the current scope.
            let renamed = match name_map_get(environment, name) {
                Some(r) => r.clone(),
                None => name.clone(),
            };
            Immediate::Var(renamed)
        },
        ast::Expression::Number(number) => {
            assert(code_view(code@) =~= start + Seq::<Instr>::empty());
            Immediate::Const(*number)
        },
        ast::Expression::Let(name, value, body) => {
            // `let` is not recursive: the right-hand side is lowered before the
            // environment is extended.
            let value = lower_exp(value, environment, next_name, code);
            let destination = fresh_name(next_name);
            let body_environment = name_map_update(environment, name.clone(), destination.clone());
            let ghost mid = code_view(code@);
            code.push((destination, Operation::Immediate(value)));
            assert(code_view(code@) =~= mid.push((temp_name((*next_name - 1) as nat), OperationV::Immediate(value@))));
            let result = lower_exp(body, &body_environment, next_name, code);
            assert(code_view(code@) =~= start + flat(env, *e, n).0);
            result
        },
        ast::Expression::Prim { prim, args } => {
            match prim {
                ast::Prim::Add1 => lower_unary(&args[0], environment, next_name, ssa::Prim::Add, code),
                ast::Prim::Sub1 => lower_unary(&args[0], environment, next_name, ssa::Prim::Sub, code),
                ast::Prim::Add => lower_binary(&args[0], &args[1], environment, next_name, ssa::Prim::Add, code),
                ast::Prim::Sub => lower_binary(&args[0], &args[1], environment, next_name, ssa::Prim::Sub, code),
                ast::Prim::Mul => lower_binary(&args[0], &args[1], environment, next_name, ssa::Prim::Mul, code),
            }
        },
    }
}

fn lower_unary(
    argument: &ast::Expression,
    environment: &im::HashMap<String, String>,
    next_name: &mut usize,
    primitive: ssa::Prim,
    code: &mut Vec<(String, Operation)>,
) -> (imm: Immediate)
    requires
        ast::well_formed(*argument),
        *old(next_name) + ast::size(*argument) < usize::MAX,
    ensures
        ({
            let (c, i, n1) = flat(name_map_contents(*environment), *argument, *old(next_name) as nat);
            &&& code_view(final(code)@) == code_view(old(code)@) + c.push((temp_name(n1), OperationV::Prim(primitive, i, ImmediateV::Const(1))))
            &&& imm@ == ImmediateV::Var(temp_name(n1))
            &&& *final(next_name) == n1 + 1
        }),
        *final(next_name) <= *old(next_name) + ast::size(*argument) + 1,
    decreases ast::size(*argument), 1nat,
{
    let argument = lower_exp(argument, environment, next_name, code);
    emit_primitive(primitive, argument, Immediate::Const(1), next_name, code)
}

fn lower_binary(
    left: &ast::Expression,
    right: &ast::Expression,
    environment: &im::HashMap<String, String>,
    next_name: &mut usize,
    primitive: ssa::Prim,
    code: &mut Vec<(String, Operation)>,
) -> (imm: Immediate)
    requires
        ast::well_formed(*left),
        ast::well_formed(*right),
        *old(next_name) + ast::size(*left) + ast::size(*right) < usize::MAX,
    ensures
        ({
            let env = name_map_contents(*environment);
            let (c1, i1, n1) = flat(env, *left, *old(next_name) as nat);
            let (c2, i2, n2) = flat(env, *right, n1);
            &&& code_view(final(code)@) == code_view(old(code)@) + (c1 + c2).push((temp_name(n2), OperationV::Prim(primitive, i1, i2)))
            &&& imm@ == ImmediateV::Var(temp_name(n2))
            &&& *final(next_name) == n2 + 1
        }),
        *final(next_name) <= *old(next_name) + ast::size(*left) + ast::size(*right) + 1,
    decreases ast::size(*left) + ast::size(*right), 1nat,
{
    // Both operands are lowered in the same outer environment, so a `let`
    // inside the left one does not leak into the right one.
    let ghost env = name_map_contents(*environment);
    let ghost start = code_view(code@);
    let left_imm = lower_exp(left, environment, next_name, code);
    let right_imm = lower_exp(right, environment, next_name, code);
    let res = emit_primitive(primitive, left_imm, right_imm, next_name, code);
    assert(code_view(code@) =~= start + (flat(env, *left, *old(next_name) as nat).0 + flat(env, *right, flat(env, *left, *old(next_name) as nat).2).0).push((temp_name(flat(env, *right, flat(env, *left, *old(next_name) as nat).2).2), OperationV::Prim(primitive, left_imm@, right_imm@))));
    res
}

/// A primitive's result is stored into a unique temporary, which is then
/// handed on as a variable.
fn emit_primitive(primitive: ssa::Prim, left: Immediate, right: Immediate, next_name: &mut usize, code: &mut Vec<(String, Operation)>) -> (imm: Immediate)
    requires
        *old(next_name) < usize::MAX,
    ensures
        code_view(final(code)@) == code_view(old(code)@).push((temp_name(*old(next_name) as nat), OperationV::Prim(primitive, left@, right@))),
        imm@ == ImmediateV::Var(temp_name(*old(next_name) as nat)),
        *final(next_name) == *old(next_name) + 1,
{
    let destination = fresh_name(next_name);
    let ghost before = code@;
    code.push((destination.clone(), Operation::Prim(primitive, left, right)));
    assert(code_view(code@) =~= code_view(before).push((destination@, OperationV::Prim(primitive, left@, right@))));
    Immediate::Var(destination)
}

/// `_cps_{id}` for the next unused number `id`, which it then marks as used.
/// Source identifiers do not start with an underscore, so these names never
/// meet a source name.
pub fn fresh_name(next_name: &mut usize) -> (name: String)
    requires
        *old(next_name) < usize::MAX,
    ensures
        name@ == temp_name(*old(next_name) as nat),
        *final(next_name) == *old(next_name) + 1,
{
    let id = *next_name;
    *next_name = id + 1;
    let mut name = String::from_str("_cps_");
    push_u64_decimal(&mut name, id as u64);
    name
}

// ------------------------------------------------------------------- laws

/// `v` is the name of no temporary.
pub open spec fn not_temp(v: Seq<char>) -> bool {
    forall|k: nat| v != #[trigger] temp_name(k)
}

/// `v` is the parameter or a temporary numbered below `n`.
pub open spec fn defined_before(param: Seq<char>, n: nat, v: Seq<char>) -> bool {
    v == param || exists|k: nat| k < n && v == #[trigger] temp_name(k)
}

pub open spec fn imm_defined_before(param: Seq<char>, n: nat, i: ImmediateV) -> bool {
    match i {
        ImmediateV::Const(_) => true,
        ImmediateV::Var(v) => defined_before(param, n, v),
    }
}

/// Different numbers give different temporaries.
pub proof fn lemma_temp_injective(a: nat, b: nat)
    requires
        temp_name(a) == temp_name(b),
    ensures
        a == b,
{
    lemma_prefix_cancel("_cps_"@, nat_decimal(a), nat_decimal(b));
    lemma_nat_decimal_injective(a, b);
}

/// The code of `e` assigns the temporaries `n`, `n + 1`, ... in order, one
/// per operation.
proof fn lemma_flat_dests(env: Map<Seq<char>, Seq<char>>, e: ast::Expression, n: nat)
    ensures
        ({
            let (c, i, n2) = flat(env, e, n);
            &&& n <= n2
            &&& c.len() == n2 - n
            &&& forall|j: int| 0 <= j < c.len() ==> (#[trigger] c[j]).0 == temp_name((n + j) as nat)
        }),
    decreases e,
{
    match e {
        ast::Expression::Let(x, e1, e2) => {
            let (c1, i1, n1) = flat(env, *e1, n);
            lemma_flat_dests(env, *e1, n);
            lemma_flat_dests(env.insert(x@, temp_name(n1)), *e2, n1 + 1);
            let (c2, i2, n2) = flat(env.insert(x@, temp_name(n1)), *e2, n1 + 1);
            let c = c1.push((temp_name(n1), OperationV::Immediate(i1))) + c2;
            assert forall|j: int| 0 <= j < c.len() implies (#[trigger] c[j]).0 == temp_name((n + j) as nat) by {
                if j < c1.len() {
                    assert(c[j] == c1[j]);
                } else if j > c1.len() {
                    assert(c[j] == c2[j - c1.len() - 1]);
                }
            }
        },
        ast::Expression::Prim { prim, args } => {
            if args.len() == 1 && ast::arity(prim) == 1 {
                lemma_flat_dests(env, args@[0], n);
            } else if args.len() == 2 && ast::arity(prim) == 2 {
                let (c1, i1, n1) = flat(env, args@[0], n);
                lemma_flat_dests(env, args@[0], n);
                lemma_flat_dests(env, args@[1], n1);
                let (c2, i2, n2) = flat(env, args@[1], n1);
                let c = (c1 + c2).push((temp_name(n2), OperationV::Prim(target_prim(prim), i1, i2)));
                assert forall|j: int| 0 <= j < c.len() implies (#[trigger] c[j]).0 == temp_name((n + j) as nat) by {
                    if j < c1.len() {
                        assert(c[j] == c1[j]);
                    } else if j < c1.len() + c2.len() {
                        assert(c[j] == c2[j - c1.len()]);
                    }
                }
            }
        },
        _ => {},
    }
}

/// Running the code of `e` leaves the parameter and the earlier temporaries alone.
proof fn lemma_flat_frame(env: Map<Seq<char>, Seq<char>>, e: ast::Expression, n: nat, param: Seq<char>, st: Map<Seq<char>, int>, v: Seq<char>)
    requires
        not_temp(param),
        defined_before(param, n, v),
    ensures
        run(st, flat(env, e, n).0)[v] == st[v],
{
    let (c, i, n2) = flat(env, e, n);
    lemma_flat_dests(env, e, n);
    assert forall|j: int| 0 <= j < c.len() implies (#[trigger] c[j]).0 != v by {
        if v == param {
            assert(param != temp_name((n + j) as nat));
        } else {
            let k = choose|k: nat| k < n && v == #[trigger] temp_name(k);
            if c[j].0 == v {
                lemma_temp_injective(k, (n + j) as nat);
            }
        }
    }
    lemma_run_frame(st, c, v);
}

/// The code of `e` leaves in its immediate the value of `e`, when every
/// variable in scope is renamed to a name that holds its value.
proof fn lemma_flat_value(
    env: Map<Seq<char>, Seq<char>>,
    rho: Map<Seq<char>, int>,
    st: Map<Seq<char>, int>,
    param: Seq<char>,
    e: ast::Expression,
    n: nat,
)
    requires
        ast::well_formed(e),
        ast::scoped(rho.dom(), e),
        env.dom() == rho.dom(),
        forall|x: Seq<char>| #[trigger] rho.contains_key(x) ==> st[env[x]] == rho[x] && defined_before(param, n, env[x]),
        not_temp(param),
    ensures
        ({
            let (c, i, n2) = flat(env, e, n);
            &&& imm_value(run(st, c), i) == ast::eval(rho, e)
            &&& imm_defined_before(param, n2, i)
        }),
    decreases e,
{
    lemma_flat_dests(env, e, n);
    match e {
        ast::Expression::Variable(x) => {
            assert(rho.contains_key(x@));
        },
        ast::Expression::Number(_) => {},
        ast::Expression::Let(x, e1, e2) => {
            let (c1, i1, n1) = flat(env, *e1, n);
            lemma_flat_value(env, rho, st, param, *e1, n);
            lemma_flat_dests(env, *e1, n);
            let st1 = run(st, c1);
            let v1 = imm_value(st1, i1);
            let ins = (temp_name(n1), OperationV::Immediate(i1));
            let st2 = step(st1, ins);
            let env2 = env.insert(x@, temp_name(n1));
            let rho2 = rho.insert(x@, v1);
            assert forall|y: Seq<char>| #[trigger] rho2.contains_key(y) implies st2[env2[y]] == rho2[y] && defined_before(param, n1 + 1, env2[y]) by {
                if y == x@ {
                    assert(temp_name(n1) == temp_name(n1));
                } else {
                    assert(rho.contains_key(y));
                    let w = env[y];
                    lemma_flat_frame(env, *e1, n, param, st, w);
                    if w == temp_name(n1) {
                        if w == param {
                        } else {
                            let k = choose|k: nat| k < n && w == #[trigger] temp_name(k);
                            lemma_temp_injective(k, n1);
                        }
                    }
                    if w != param {
                        let k = choose|k: nat| k < n && w == #[trigger] temp_name(k);
                        assert(k < n1 + 1);
                    }
                }
            }
            assert(env2.dom() =~= rho2.dom());
            assert(rho2.dom() =~= rho.dom().insert(x@));
            lemma_flat_value(env2, rho2, st2, param, *e2, n1 + 1);
            let (c2, i2, n2) = flat(env2, *e2, n1 + 1);
            lemma_run_append(st, c1.push(ins), c2);
            lemma_run_push(st, c1, ins);
        },
        ast::Expression::Prim { prim, args } => {
            assert(ast::well_formed(args@[0]) && ast::scoped(rho.dom(), args@[0]));
            if args.len() == 1 {
                let (c, i, n1) = flat(env, args@[0], n);
                lemma_flat_value(env, rho, st, param, args@[0], n);
                let ins = (temp_name(n1), OperationV::Prim(target_prim(prim), i, ImmediateV::Const(1)));
                lemma_run_push(st, c, ins);
            } else {
                assert(ast::well_formed(args@[1]) && ast::scoped(rho.dom(), args@[1]));
                let (c1, i1, n1) = flat(env, args@[0], n);
                lemma_flat_value(env, rho, st, param, args@[0], n);
                lemma_flat_dests(env, args@[0], n);
                let st1 = run(st, c1);
                assert forall|y: Seq<char>| #[trigger] rho.contains_key(y) implies st1[env[y]] == rho[y] && defined_before(param, n1, env[y]) by {
                    lemma_flat_frame(env, args@[0], n, param, st, env[y]);
                    if env[y] != param {
                        let k = choose|k: nat| k < n && env[y] == #[trigger] temp_name(k);
                        assert(k < n1);
                    }
                }
                lemma_flat_value(env, rho, st1, param, args@[1], n1);
                let (c2, i2, n2) = flat(env, args@[1], n1);
                let st12 = run(st1, c2);
                if let ImmediateV::Var(v) = i1 {
                    lemma_flat_frame(env, args@[1], n1, param, st1, v);
                }
                assert(imm_value(st12, i1) == imm_value(st1, i1));
                let ins = (temp_name(n2), OperationV::Prim(target_prim(prim), i1, i2));
                lemma_run_append(st, c1, c2);
                lemma_run_push(st, c1 + c2, ins);
            }
        },
    }
}

/// Lowering keeps the meaning of a program: on every input, the lowered
/// program returns what the source program computes, shadowed variables
/// included. The parameter is no temporary's name, as no source identifier
/// starts with an underscore.
pub proof fn lemma_lower_preserves_value(p: ast::Program, x: int)
    requires
        ast::well_formed(p.body),
        ast::scoped(set![p.parameter@], p.body),
        not_temp(p.parameter@),
    ensures
        ssa::program_value(p.parameter@, lowered(p), x) == ast::program_value(p, x),
{
    let env = initial_env(p);
    let rho = ast::input_env(p, x);
    let st = Map::<Seq<char>, int>::empty().insert(p.parameter@, x);
    assert(rho.dom() =~= set![p.parameter@]);
    assert(env.dom() =~= rho.dom());
    lemma_flat_value(env, rho, st, p.parameter@, p.body, 0);
    let (code, result, _) = flat(env, p.body, 0);
    lemma_chain_value(st, code, ssa::BlockBodyV::Return(result));
}

/// The lowered program is in single-assignment form: it assigns every name
/// at most once, and never the parameter.
pub proof fn lemma_lower_single_assignment(p: ast::Program)
    requires
        not_temp(p.parameter@),
    ensures
        block_dests(lowered(p)).no_duplicates(),
        !block_dests(lowered(p)).contains(p.parameter@),
{
    let (code, result, n2) = flat(initial_env(p), p.body, 0);
    lemma_flat_dests(initial_env(p), p.body, 0);
    lemma_chain_dests(code, result);
    let d = code.map_values(|ins: Instr| ins.0);
    assert forall|i: int, j: int| 0 <= i < d.len() && 0 <= j < d.len() && i != j implies d[i] != d[j] by {
        assert(d[i] == temp_name(i as nat));
        assert(d[j] == temp_name(j as nat));
        if d[i] == d[j] {
            lemma_temp_injective(i as nat, j as nat);
        }
    }
    assert forall|i: int| 0 <= i < d.len() implies d[i] != p.parameter@ by {
        assert(d[i] == temp_name(i as nat));
    }
}

pub open spec fn op_defined_before(param: Seq<char>, n: nat, o: OperationV) -> bool {
    match o {
        OperationV::Immediate(i) => imm_defined_before(param, n, i),
        OperationV::Prim(_, a, b) => imm_defined_before(param, n, a) && imm_defined_before(param, n, b),
    }
}

proof fn lemma_defined_mono(param: Seq<char>, n: nat, m: nat, v: Seq<char>)
    requires
        n <= m,
        defined_before(param, n, v),
    ensures
        defined_before(param, m, v),
{
    if v != param {
        let k = choose|k: nat| k < n && v == #[trigger] temp_name(k);
        assert(k < m && v == temp_name(k));
    }
}

proof fn lemma_imm_defined_mono(param: Seq<char>, n: nat, m: nat, i: ImmediateV)
    requires
        n <= m,
        imm_defined_before(param, n, i),
    ensures
        imm_defined_before(param, m, i),
{
    if let ImmediateV::Var(v) = i {
        lemma_defined_mono(param, n, m, v);
    }
}

/// Every operation of the code of `e` reads only the parameter and
/// temporaries numbered before its own, and so does the final immediate.
proof fn lemma_flat_defined(env: Map<Seq<char>, Seq<char>>, e: ast::Expression, n: nat, param: Seq<char>)
    requires
        ast::scoped(env.dom(), e),
        forall|x: Seq<char>| #[trigger] env.contains_key(x) ==> defined_before(param, n, env[x]),
    ensures
        ({
            let (c, i, n2) = flat(env, e, n);
            &&& forall|j: int| 0 <= j < c.len() ==> op_defined_before(param, (n + j) as nat, (#[trigger] c[j]).1)
            &&& imm_defined_before(param, n2, i)
        }),
    decreases e,
{
    lemma_flat_dests(env, e, n);
    match e {
        ast::Expression::Let(x, e1, e2) => {
            let (c1, i1, n1) = flat(env, *e1, n);
            lemma_flat_dests(env, *e1, n);
            lemma_flat_defined(env, *e1, n, param);
            let env2 = env.insert(x@, temp_name(n1));
            assert forall|y: Seq<char>| #[trigger] env2.contains_key(y) implies defined_before(param, n1 + 1, env2[y]) by {
                if y == x@ {
                    assert(n1 < n1 + 1 && env2[y] == temp_name(n1));
                } else {
                    lemma_defined_mono(param, n, n1 + 1, env[y]);
                }
            }
            assert(env2.dom() =~= env.dom().insert(x@));
            lemma_flat_defined(env2, *e2, n1 + 1, param);
            let (c2, i2, n2) = flat(env2, *e2, n1 + 1);
            let c = c1.push((temp_name(n1), OperationV::Immediate(i1))) + c2;
            assert forall|j: int| 0 <= j < c.len() implies op_defined_before(param, (n + j) as nat, (#[trigger] c[j]).1) by {
                if j < c1.len() {
                    assert(c[j] == c1[j]);
                } else if j == c1.len() {
                    assert(c[j] == (temp_name(n1), OperationV::Immediate(i1)));
                } else {
                    assert(c[j] == c2[j - c1.len() - 1]);
                }
            }
        },
        ast::Expression::Prim { prim, args } => {
            if args.len() == 1 && ast::arity(prim) == 1 {
                assert(ast::scoped(env.dom(), args@[0]));
                lemma_flat_dests(env, args@[0], n);
                lemma_flat_defined(env, args@[0], n, param);
                let (c1, i1, n1) = flat(env, args@[0], n);
                let c = c1.push((temp_name(n1), OperationV::Prim(target_prim(prim), i1, ImmediateV::Const(1))));
                assert forall|j: int| 0 <= j < c.len() implies op_defined_before(param, (n + j) as nat, (#[trigger] c[j]).1) by {
                    if j < c1.len() {
                        assert(c[j] == c1[j]);
                    }
                }
                assert(n1 < n1 + 1 && temp_name(n1) == temp_name(n1));
            } else if args.len() == 2 && ast::arity(prim) == 2 {
                assert(ast::scoped(env.dom(), args@[0]) && ast::scoped(env.dom(), args@[1]));
                let (c1, i1, n1) = flat(env, args@[0], n);
                lemma_flat_dests(env, args@[0], n);
                lemma_flat_defined(env, args@[0], n, param);
                assert forall|y: Seq<char>| #[trigger] env.contains_key(y) implies defined_before(param, n1, env[y]) by {
                    lemma_defined_mono(param, n, n1, env[y]);
                }
                lemma_flat_dests(env, args@[1], n1);
                lemma_flat_defined(env, args@[1], n1, param);
                let (c2, i2, n2) = flat(env, args@[1], n1);
                lemma_imm_defined_mono(param, n1, n2, i1);
                let c = (c1 + c2).push((temp_name(n2), OperationV::Prim(target_prim(prim), i1, i2)));
                assert forall|j: int| 0 <= j < c.len() implies op_defined_before(param, (n + j) as nat, (#[trigger] c[j]).1) by {
                    if j < c1.len() {
                        assert(c[j] == c1[j]);
                    } else if j < c1.len() + c2.len() {
                        assert(c[j] == c2[j - c1.len()]);
                    }
                }
                assert(n2 < n2 + 1 && temp_name(n2) == temp_name(n2));
            }
        },
        _ => {},
    }
}

/// The lowered program is the code `_cps_0 = ...`, `_cps_1 = ...`, ... in this
/// order, one temporary per `let` and per primitive, followed by a return; every
/// operation reads only the parameter and the temporaries defined before it,
/// and so does the return.
pub proof fn lemma_lower_defines_before_use(p: ast::Program)
    requires
        ast::scoped(set![p.parameter@], p.body),
    ensures
        ({
            let (code, result, m) = flat(initial_env(p), p.body, 0);
            &&& lowered(p) == ssa::chain(code, ssa::BlockBodyV::Return(result))
            &&& block_dests(lowered(p)) == Seq::new(m, |j: int| temp_name(j as nat))
            &&& forall|j: int| 0 <= j < code.len() ==> op_defined_before(p.parameter@, j as nat, (#[trigger] code[j]).1)
            &&& imm_defined_before(p.parameter@, m, result)
        }),
{
    let env = initial_env(p);
    assert(env.dom() =~= set![p.parameter@]);
    lemma_flat_defined(env, p.body, 0, p.parameter@);
    let (code, result, m) = flat(env, p.body, 0);
    lemma_flat_dests(env, p.body, 0);
    lemma_chain_dests(code, result);
    assert(code.map_values(|ins: Instr| ins.0) =~= Seq::new(m, |j: int| temp_name(j as nat)));
}

} // verus!
