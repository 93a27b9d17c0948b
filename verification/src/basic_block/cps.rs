//! Basic lowering in continuation-passing order: each subexpression hands its
//! immediate result on to the code that follows it. Names bound by `let` are
//! kept as they are, so this lowering assumes that the source program shadows
//! no variable; `cps_renaming` handles shadowing.

use vstd::prelude::*;
use crate::text::{lemma_nat_decimal_injective, lemma_prefix_cancel, nat_decimal, push_u64_decimal};
use super::ast;
use super::ssa;
use super::ssa::{Immediate, ImmediateV, Instr, Operation, OperationV, chain, code_view, build_block, imm_value, run, step, lemma_run_append, lemma_run_push, lemma_run_frame, lemma_chain_value, lemma_chain_dests, block_dests};

verus! {

/// The name of the `id`-th compiler temporary: `_cps_{id}`.
pub open spec fn temp_name(id: nat) -> Seq<char> {
    "_cps_"@ + nat_decimal(id)
}

/// The target primitive of a source primitive: `add1` and `sub1` become
/// `add` and `sub` with the constant 1.
pub open spec fn target_prim(p: ast::Prim) -> ssa::Prim {
    match p {
        ast::Prim::Add1 | ast::Prim::Add => ssa::Prim::Add,
        ast::Prim::Sub1 | ast::Prim::Sub => ssa::Prim::Sub,
        ast::Prim::Mul => ssa::Prim::Mul,
    }
}

/// The straight-line code that computes `e`, the immediate that holds its
/// value afterwards, and the next unused temporary number, when temporaries
/// are numbered from `n`. Operands are computed left to right; each primitive
/// stores into a fresh temporary; `let x = e1 in e2` stores the value of `e1` into `x`.
pub open spec fn flat(e: ast::Expression, n: nat) -> (Seq<Instr>, ImmediateV, nat)
    decreases e,
{
    match e {
        ast::Expression::Variable(x) => (Seq::empty(), ImmediateV::Var(x@), n),
        ast::Expression::Number(k) => (Seq::empty(), ImmediateV::Const(k), n),
        ast::Expression::Let(x, e1, e2) => {
            let (c1, i1, n1) = flat(*e1, n);
            let (c2, i2, n2) = flat(*e2, n1);
            (c1.push((x@, OperationV::Immediate(i1))) + c2, i2, n2)
        },
        ast::Expression::Prim { prim, args } => {
            if args.len() == 1 && ast::arity(prim) == 1 {
                let (c, i, n1) = flat(args@[0], n);
                (
                    c.push((temp_name(n1), OperationV::Prim(target_prim(prim), i, ImmediateV::Const(1)))),
                    ImmediateV::Var(temp_name(n1)),
                    n1 + 1,
                )
            } else if args.len() == 2 && ast::arity(prim) == 2 {
                let (c1, i1, n1) = flat(args@[0], n);
                let (c2, i2, n2) = flat(args@[1], n1);
                (
                    (c1 + c2).push((temp_name(n2), OperationV::Prim(target_prim(prim), i1, i2))),
                    ImmediateV::Var(temp_name(n2)),
                    n2 + 1,
                )
            } else {
                (Seq::empty(), ImmediateV::Const(0), n)
            }
        },
    }
}

/// The SSA program that `lower` produces for `p`.
pub open spec fn lowered(p: ast::Program) -> ssa::BlockBodyV {
    let (code, result, _) = flat(p.body, 0);
    chain(code, ssa::BlockBodyV::Return(result))
}

/// Lowers `program` to SSA; the top-level continuation returns the program's result.
pub fn lower(program: &ast::Program) -> (res: ssa::Program)
    requires
        ast::well_formed(program.body),
        ast::size(program.body) < usize::MAX,
    ensures
        res.param@ == program.parameter@,
        res.entry@ == lowered(*program),
{
    let mut next_name: usize = 0;
    let mut code: Vec<(String, Operation)> = Vec::new();
    assert(code_view(code@) =~= Seq::<Instr>::empty());
    let result = lower_exp(&program.body, &mut next_name, &mut code);
    assert(code_view(code@) =~= Seq::<Instr>::empty() + flat(program.body, 0).0);
    ssa::Program { param: program.parameter.clone(), entry: build_block(code, result) }
}

fn lower_exp(e: &ast::Expression, next_name: &mut usize, code: &mut Vec<(String, Operation)>) -> (imm: Immediate)
    requires
        ast::well_formed(*e),
        *old(next_name) + ast::size(*e) <= usize::MAX,
    ensures
        code_view(final(code)@) == code_view(old(code)@) + flat(*e, *old(next_name) as nat).0,
        imm@ == flat(*e, *old(next_name) as nat).1,
        *final(next_name) as nat == flat(*e, *old(next_name) as nat).2,
        *final(next_name) <= *old(next_name) + ast::size(*e),
    decreases ast::size(*e), 0nat,
{
    let ghost n = *next_name as nat;
    let ghost start = code_view(code@);
    match e {
        ast::Expression::Variable(name) => {
            assert(code_view(code@) =~= start + Seq::<Instr>::empty());
            Immediate::Var(name.clone())
        },
        ast::Expression::Number(number) => {
            assert(code_view(code@) =~= start + Seq::<Instr>::empty());
            Immediate::Const(*number)
        },
        ast::Expression::Let(name, value, body) => {
            let value = lower_exp(value, next_name, code);
            let ghost mid = code_view(code@);
            code.push((name.clone(), Operation::Immediate(value)));
            assert(code_view(code@) =~= mid.push((name@, OperationV::Immediate(value@))));
            let result = lower_exp(body, next_name, code);
            assert(code_view(code@) =~= start + flat(*e, n).0);
            result
        },
        ast::Expression::Prim { prim, args } => {
            match prim {
                ast::Prim::Add1 => lower_unary(&args[0], next_name, ssa::Prim::Add, code),
                ast::Prim::Sub1 => lower_unary(&args[0], next_name, ssa::Prim::Sub, code),
                ast::Prim::Add => lower_binary(&args[0], &args[1], next_name, ssa::Prim::Add, code),
                ast::Prim::Sub => lower_binary(&args[0], &args[1], next_name, ssa::Prim::Sub, code),
                ast::Prim::Mul => lower_binary(&args[0], &args[1], next_name, ssa::Prim::Mul, code),
            }
        },
    }
}

fn lower_unary(argument: &ast::Expression, next_name: &mut usize, primitive: ssa::Prim, code: &mut Vec<(String, Operation)>) -> (imm: Immediate)
    requires
        ast::well_formed(*argument),
        *old(next_name) + ast::size(*argument) < usize::MAX,
    ensures
        ({
            let (c, i, n1) = flat(*argument, *old(next_name) as nat);
            &&& code_view(final(code)@) == code_view(old(code)@) + c.push((temp_name(n1), OperationV::Prim(primitive, i, ImmediateV::Const(1))))
            &&& imm@ == ImmediateV::Var(temp_name(n1))
            &&& *final(next_name) == n1 + 1
        }),
        *final(next_name) <= *old(next_name) + ast::size(*argument) + 1,
    decreases ast::size(*argument), 1nat,
{
    let ghost start = code_view(code@);
    let argument = lower_exp(argument, next_name, code);
    emit_primitive(primitive, argument, Immediate::Const(1), next_name, code)
}

fn lower_binary(left: &ast::Expression, right: &ast::Expression, next_name: &mut usize, primitive: ssa::Prim, code: &mut Vec<(String, Operation)>) -> (imm: Immediate)
    requires
        ast::well_formed(*left),
        ast::well_formed(*right),
        *old(next_name) + ast::size(*left) + ast::size(*right) < usize::MAX,
    ensures
        ({
            let (c1, i1, n1) = flat(*left, *old(next_name) as nat);
            let (c2, i2, n2) = flat(*right, n1);
            &&& code_view(final(code)@) == code_view(old(code)@) + (c1 + c2).push((temp_name(n2), OperationV::Prim(primitive, i1, i2)))
            &&& imm@ == ImmediateV::Var(temp_name(n2))
            &&& *final(next_name) == n2 + 1
        }),
        *final(next_name) <= *old(next_name) + ast::size(*left) + ast::size(*right) + 1,
    decreases ast::size(*left) + ast::size(*right), 1nat,
{
    // Left-to-right: the left operand, then the right one, then the primitive.
    let ghost start = code_view(code@);
    let left_imm = lower_exp(left, next_name, code);
    let right_imm = lower_exp(right, next_name, code);
    let res = emit_primitive(primitive, left_imm, right_imm, next_name, code);
    assert(code_view(code@) =~= start + (flat(*left, *old(next_name) as nat).0 + flat(*right, flat(*left, *old(next_name) as nat).2).0).push((temp_name(flat(*right, flat(*left, *old(next_name) as nat).2).2), OperationV::Prim(primitive, left_imm@, right_imm@))));
    res
}

/// A primitive's result is no immediate: it is stored into a fresh temporary,
/// which is then handed on as a variable.
fn emit_primitive(primitive: ssa::Prim, left: Immediate, right: Immediate, next_name: &mut usize, code: &mut Vec<(String, Operation)>) -> (imm: Immediate)
    requires
        *old(next_name) < usize::MAX,
    ensures
        code_view(final(code)@) == code_view(old(code)@).push((temp_name(*old(next_name) as nat), OperationV::Prim(primitive, left@, right@))),
        imm@ == ImmediateV::Var(temp_name(*old(next_name) as nat)),
        *final(next_name) == *old(next_name) + 1,
{
    let destination = fresh_name(next_name);
    let ghost before = code@;
    code.push((destination.clone(), Operation::Prim(primitive, left, right)));
    assert(code_view(code@) =~= code_view(before).push((destination@, OperationV::Prim(primitive, left@, right@))));
    Immediate::Var(destination)
}

/// `_cps_{id}` for the next unused number `id`, which it then marks as used.
pub fn fresh_name(next_name: &mut usize) -> (name: String)
    requires
        *old(next_name) < usize::MAX,
    ensures
        name@ == temp_name(*old(next_name) as nat),
        *final(next_name) == *old(next_name) + 1,
{
    let id = *next_name;
    *next_name = id + 1;
    let mut name = String::from_str("_cps_");
    push_u64_decimal(&mut name, id as u64);
    name
}

// ------------------------------------------------------------------- laws

/// `v` is the name of no temporary.
pub open spec fn not_temp(v: Seq<char>) -> bool {
    forall|k: nat| v != #[trigger] temp_name(k)
}

/// Different numbers give different temporaries.
pub proof fn lemma_temp_injective(a: nat, b: nat)
    requires
        temp_name(a) == temp_name(b),
    ensures
        a == b,
{
    lemma_prefix_cancel("_cps_"@, nat_decimal(a), nat_decimal(b));
    lemma_nat_decimal_injective(a, b);
}

/// `v` is one of the names in `names`, or a temporary numbered in `n..n2`.
pub open spec fn among(names: Set<Seq<char>>, n: nat, n2: nat, v: Seq<char>) -> bool {
    names.contains(v) || exists|k: nat| n <= k < n2 && v == #[trigger] temp_name(k)
}

pub open spec fn imm_among(names: Set<Seq<char>>, n: nat, n2: nat, i: ImmediateV) -> bool {
    match i {
        ImmediateV::Const(_) => true,
        ImmediateV::Var(v) => among(names, n, n2, v),
    }
}

/// Code that assigns only names of `written` and temporaries from `n` on
/// leaves alone any other name that is no temporary.
proof fn lemma_frame(st: Map<Seq<char>, int>, c: Seq<Instr>, written: Set<Seq<char>>, n: nat, n2: nat, v: Seq<char>)
    requires
        forall|j: int| 0 <= j < c.len() ==> among(written, n, n2, #[trigger] c[j].0),
        !written.contains(v),
        not_temp(v) || exists|k: nat| k < n && v == #[trigger] temp_name(k),
    ensures
        run(st, c)[v] == st[v],
{
    assert forall|j: int| 0 <= j < c.len() implies (#[trigger] c[j]).0 != v by {
        assert(among(written, n, n2, c[j].0));
        if c[j].0 == v && !written.contains(c[j].0) {
            let k = choose|k: nat| n <= k < n2 && c[j].0 == #[trigger] temp_name(k);
            if !not_temp(v) {
                let k2 = choose|k2: nat| k2 < n && v == #[trigger] temp_name(k2);
                lemma_temp_injective(k, k2);
            }
        }
    }
    lemma_run_frame(st, c, v);
}

/// The code of `e` leaves in its immediate the value of `e`, when every
/// variable in scope holds its value, no `let` of `e` rebinds a name in scope
/// or another `let`'s name, and no source name is a temporary's.
proof fn lemma_flat_value(rho: Map<Seq<char>, int>, st: Map<Seq<char>, int>, e: ast::Expression, n: nat)
    requires
        ast::well_formed(e),
        ast::scoped(rho.dom(), e),
        ast::unique_binders(e),
        ast::binders(e).disjoint(rho.dom()),
        forall|x: Seq<char>| #[trigger] rho.contains_key(x) ==> st[x] == rho[x] && not_temp(x),
        forall|b: Seq<char>| #[trigger] ast::binders(e).contains(b) ==> not_temp(b),
    ensures
        ({
            let (c, i, n2) = flat(e, n);
            &&& n <= n2
            &&& imm_value(run(st, c), i) == ast::eval(rho, e)
            &&& imm_among(rho.dom().union(ast::binders(e)), n, n2, i)
            &&& forall|j: int| 0 <= j < c.len() ==> among(ast::binders(e), n, n2, #[trigger] c[j].0)
        }),
    decreases e,
{
    match e {
        ast::Expression::Variable(x) => {
            assert(rho.contains_key(x@));
        },
        ast::Expression::Number(_) => {},
        ast::Expression::Let(x, e1, e2) => {
            let b = ast::binders(e);
            assert forall|v: Seq<char>| #[trigger] ast::binders(*e1).contains(v) implies not_temp(v) by {
                assert(b.contains(v));
            }
            assert forall|v: Seq<char>| #[trigger] ast::binders(*e2).contains(v) implies not_temp(v) by {
                assert(b.contains(v));
            }
            lemma_flat_value(rho, st, *e1, n);
            let (c1, i1, n1) = flat(*e1, n);
            let st1 = run(st, c1);
            let v1 = ast::eval(rho, *e1);
            let ins = (x@, OperationV::Immediate(i1));
            let st2 = step(st1, ins);
            let rho2 = rho.insert(x@, v1);
            assert(!rho.contains_key(x@));
            assert forall|y: Seq<char>| #[trigger] rho2.contains_key(y) implies st2[y] == rho2[y] && not_temp(y) by {
                if y != x@ {
                    assert(rho.contains_key(y));
                    lemma_frame(st, c1, ast::binders(*e1), n, n1, y);
                } else {
                    assert(b.contains(x@));
                }
            }
            assert(rho2.dom() =~= rho.dom().insert(x@));
            assert(ast::binders(*e2).disjoint(rho2.dom()));
            lemma_flat_value(rho2, st2, *e2, n1);
            let (c2, i2, n2) = flat(*e2, n1);
            lemma_run_push(st, c1, ins);
            lemma_run_append(st, c1.push(ins), c2);
            let c = c1.push(ins) + c2;
            assert forall|j: int| 0 <= j < c.len() implies among(b, n, n2, #[trigger] c[j].0) by {
                if j < c1.len() {
                    assert(c[j] == c1[j]);
                    if !ast::binders(*e1).contains(c1[j].0) {
                        let k = choose|k: nat| n <= k < n1 && c1[j].0 == #[trigger] temp_name(k);
                    }
                } else if j > c1.len() {
                    assert(c[j] == c2[j - c1.len() - 1]);
                    if !ast::binders(*e2).contains(c2[j - c1.len() - 1].0) {
                        let k = choose|k: nat| n1 <= k < n2 && c2[j - c1.len() - 1].0 == #[trigger] temp_name(k);
                    }
                }
            }
            if let ImmediateV::Var(v) = i2 {
                if !rho2.dom().union(ast::binders(*e2)).contains(v) {
                    let k = choose|k: nat| n1 <= k < n2 && v == #[trigger] temp_name(k);
                }
            }
        },
        ast::Expression::Prim { prim, args } => {
            assert(ast::well_formed(args@[0]) && ast::scoped(rho.dom(), args@[0]));
            if args.len() == 1 {
                lemma_flat_value(rho, st, args@[0], n);
                let (c, i, n1) = flat(args@[0], n);
                let ins = (temp_name(n1), OperationV::Prim(target_prim(prim), i, ImmediateV::Const(1)));
                lemma_run_push(st, c, ins);
                let cc = c.push(ins);
                assert forall|j: int| 0 <= j < cc.len() implies among(ast::binders(e), n, n1 + 1, #[trigger] cc[j].0) by {
                    if j < c.len() {
                        assert(cc[j] == c[j]);
                        if !ast::binders(args@[0]).contains(c[j].0) {
                            let k = choose|k: nat| n <= k < n1 && c[j].0 == #[trigger] temp_name(k);
                        }
                    }
                }
            } else {
                assert(ast::well_formed(args@[1]) && ast::scoped(rho.dom(), args@[1]));
                let b0 = ast::binders(args@[0]);
                let b1 = ast::binders(args@[1]);
                assert forall|v: Seq<char>| #[trigger] b0.contains(v) implies not_temp(v) by {
                    assert(ast::binders(e).contains(v));
                }
                assert forall|v: Seq<char>| #[trigger] b1.contains(v) implies not_temp(v) by {
                    assert(ast::binders(e).contains(v));
                }
                lemma_flat_value(rho, st, args@[0], n);
                let (c1, i1, n1) = flat(args@[0], n);
                let st1 = run(st, c1);
                assert forall|y: Seq<char>| #[trigger] rho.contains_key(y) implies st1[y] == rho[y] && not_temp(y) by {
                    lemma_frame(st, c1, b0, n, n1, y);
                }
                lemma_flat_value(rho, st1, args@[1], n1);
                let (c2, i2, n2) = flat(args@[1], n1);
                let st12 = run(st1, c2);
                if let ImmediateV::Var(v) = i1 {
                    // The left operand's result survives the right operand's code.
                    if rho.contains_key(v) {
                        lemma_frame(st1, c2, b1, n1, n2, v);
                    } else if b0.contains(v) {
                        assert(!b1.contains(v));
                        lemma_frame(st1, c2, b1, n1, n2, v);
                    } else {
                        let k = choose|k: nat| n <= k < n1 && v == #[trigger] temp_name(k);
                        assert(!b1.contains(v)) by {
                            if b1.contains(v) {
                                assert(not_temp(v));
                            }
                        }
                        lemma_frame(st1, c2, b1, n1, n2, v);
                    }
                }
                assert(imm_value(st12, i1) == imm_value(st1, i1));
                let ins = (temp_name(n2), OperationV::Prim(target_prim(prim), i1, i2));
                lemma_run_append(st, c1, c2);
                lemma_run_push(st, c1 + c2, ins);
                let cc = (c1 + c2).push(ins);
                assert forall|j: int| 0 <= j < cc.len() implies among(ast::binders(e), n, n2 + 1, #[trigger] cc[j].0) by {
                    if j < c1.len() {
                        assert(cc[j] == c1[j]);
                        if !b0.contains(c1[j].0) {
                            let k = choose|k: nat| n <= k < n1 && c1[j].0 == #[trigger] temp_name(k);
                        }
                    } else if j < c1.len() + c2.len() {
                        assert(cc[j] == c2[j - c1.len()]);
                        if !b1.contains(c2[j - c1.len()].0) {
                            let k = choose|k: nat| n1 <= k < n2 && c2[j - c1.len()].0 == #[trigger] temp_name(k);
                        }
                    }
                }
            }
        },
    }
}

/// Two names, each a binder of its own set or a temporary of its own range,
/// differ when the sets and the ranges do not meet.
proof fn lemma_among_apart(s1: Set<Seq<char>>, s2: Set<Seq<char>>, m1: nat, m2: nat, m3: nat, u: Seq<char>, w: Seq<char>)
    requires
        s1.disjoint(s2),
        m1 <= m2 <= m3,
        among(s1, m1, m2, u),
        among(s2, m2, m3, w),
        forall|v: Seq<char>| #[trigger] s1.contains(v) ==> not_temp(v),
        forall|v: Seq<char>| #[trigger] s2.contains(v) ==> not_temp(v),
    ensures
        u != w,
{
    if u == w {
        if s1.contains(u) {
            if !s2.contains(w) {
                let k = choose|k: nat| m2 <= k < m3 && w == #[trigger] temp_name(k);
            }
        } else {
            let k = choose|k: nat| m1 <= k < m2 && u == #[trigger] temp_name(k);
            if !s2.contains(w) {
                let k2 = choose|k2: nat| m2 <= k2 < m3 && w == #[trigger] temp_name(k2);
                lemma_temp_injective(k, k2);
            }
        }
    }
}

/// The code of `e` assigns each name at most once: the names its `let`s bind
/// and the temporaries numbered from `n` on.
proof fn lemma_flat_distinct(e: ast::Expression, n: nat)
    requires
        ast::unique_binders(e),
        forall|b: Seq<char>| #[trigger] ast::binders(e).contains(b) ==> not_temp(b),
    ensures
        ({
            let (c, i, n2) = flat(e, n);
            &&& n <= n2
            &&& forall|j: int| 0 <= j < c.len() ==> among(ast::binders(e), n, n2, #[trigger] c[j].0)
            &&& forall|a: int, b: int| 0 <= a < b < c.len() ==> (#[trigger] c[a]).0 != (#[trigger] c[b]).0
        }),
    decreases e,
{
    match e {
        ast::Expression::Let(x, e1, e2) => {
            let b = ast::binders(e);
            let b1 = ast::binders(*e1);
            let b2 = ast::binders(*e2);
            assert forall|v: Seq<char>| #[trigger] b1.contains(v) implies not_temp(v) by {
                assert(b.contains(v));
            }
            assert forall|v: Seq<char>| #[trigger] b2.contains(v) implies not_temp(v) by {
                assert(b.contains(v));
            }
            assert(b.contains(x@));
            lemma_flat_distinct(*e1, n);
            lemma_flat_distinct(*e2, flat(*e1, n).2);
            let (c1, i1, n1) = flat(*e1, n);
            let (c2, i2, n2) = flat(*e2, n1);
            let ins = (x@, OperationV::Immediate(i1));
            let c = c1.push(ins) + c2;
            assert forall|j: int| 0 <= j < c.len() implies among(b, n, n2, #[trigger] c[j].0) by {
                if j < c1.len() {
                    assert(c[j] == c1[j]);
                    if !b1.contains(c1[j].0) {
                        let k = choose|k: nat| n <= k < n1 && c1[j].0 == #[trigger] temp_name(k);
                    }
                } else if j > c1.len() {
                    assert(c[j] == c2[j - c1.len() - 1]);
                    if !b2.contains(c2[j - c1.len() - 1].0) {
                        let k = choose|k: nat| n1 <= k < n2 && c2[j - c1.len() - 1].0 == #[trigger] temp_name(k);
                    }
                }
            }
            let sx = Set::<Seq<char>>::empty().insert(x@);
            assert forall|a: int, bb: int| 0 <= a < bb < c.len() implies (#[trigger] c[a]).0 != (#[trigger] c[bb]).0 by {
                if a < c1.len() && bb < c1.len() {
                    assert(c[a] == c1[a] && c[bb] == c1[bb]);
                } else if a < c1.len() && bb == c1.len() {
                    assert(c[a] == c1[a] && c[bb] == ins);
                    assert(among(b1, n, n1, c1[a].0));
                    if !b1.contains(c1[a].0) {
                        let k = choose|k: nat| n <= k < n1 && c1[a].0 == #[trigger] temp_name(k);
                    }
                } else if a < c1.len() {
                    assert(c[a] == c1[a] && c[bb] == c2[bb - c1.len() - 1]);
                    lemma_among_apart(b1, b2, n, n1, n2, c1[a].0, c2[bb - c1.len() - 1].0);
                } else if a == c1.len() {
                    assert(c[a] == ins && c[bb] == c2[bb - c1.len() - 1]);
                    assert(among(b2, n1, n2, c2[bb - c1.len() - 1].0));
                    if !b2.contains(c2[bb - c1.len() - 1].0) {
                        let k = choose|k: nat| n1 <= k < n2 && c2[bb - c1.len() - 1].0 == #[trigger] temp_name(k);
                    }
                } else {
                    assert(c[a] == c2[a - c1.len() - 1] && c[bb] == c2[bb - c1.len() - 1]);
                }
            }
        },
        ast::Expression::Prim { prim, args } => {
            if args.len() == 1 && ast::arity(prim) == 1 {
                assert forall|v: Seq<char>| #[trigger] ast::binders(args@[0]).contains(v) implies not_temp(v) by {
                    assert(ast::binders(e).contains(v));
                }
                lemma_flat_distinct(args@[0], n);
                let (c, i, n1) = flat(args@[0], n);
                let ins = (temp_name(n1), OperationV::Prim(target_prim(prim), i, ImmediateV::Const(1)));
                let cc = c.push(ins);
                assert forall|j: int| 0 <= j < cc.len() implies among(ast::binders(e), n, n1 + 1, #[trigger] cc[j].0) by {
                    if j < c.len() {
                        assert(cc[j] == c[j]);
                        if !ast::binders(args@[0]).contains(c[j].0) {
                            let k = choose|k: nat| n <= k < n1 && c[j].0 == #[trigger] temp_name(k);
                        }
                    }
                }
                assert forall|a: int, bb: int| 0 <= a < bb < cc.len() implies (#[trigger] cc[a]).0 != (#[trigger] cc[bb]).0 by {
                    assert(cc[a] == c[a]);
                    if bb < c.len() {
                        assert(cc[bb] == c[bb]);
                    } else {
                        assert(among(ast::binders(args@[0]), n, n1, c[a].0));
                        if !ast::binders(args@[0]).contains(c[a].0) {
                            let k = choose|k: nat| n <= k < n1 && c[a].0 == #[trigger] temp_name(k);
                            if c[a].0 == temp_name(n1) {
                                lemma_temp_injective(k, n1);
                            }
                        }
                    }
                }
            } else if args.len() == 2 && ast::arity(prim) == 2 {
                let b = ast::binders(e);
                let b0 = ast::binders(args@[0]);
                let b1 = ast::binders(args@[1]);
                assert forall|v: Seq<char>| #[trigger] b0.contains(v) implies not_temp(v) by {
                    assert(b.contains(v));
                }
                assert forall|v: Seq<char>| #[trigger] b1.contains(v) implies not_temp(v) by {
                    assert(b.contains(v));
                }
                lemma_flat_distinct(args@[0], n);
                let (c1, i1, n1) = flat(args@[0], n);
                lemma_flat_distinct(args@[1], n1);
                let (c2, i2, n2) = flat(args@[1], n1);
                let ins = (temp_name(n2), OperationV::Prim(target_prim(prim), i1, i2));
                let c = c1 + c2;
                let cc = c.push(ins);
                assert forall|j: int| 0 <= j < c.len() implies among(b, n, n2, #[trigger] c[j].0) by {
                    if j < c1.len() {
                        assert(c[j] == c1[j]);
                        if !b0.contains(c1[j].0) {
                            let k = choose|k: nat| n <= k < n1 && c1[j].0 == #[trigger] temp_name(k);
                        }
                    } else {
                        assert(c[j] == c2[j - c1.len()]);
                        if !b1.contains(c2[j - c1.len()].0) {
                            let k = choose|k: nat| n1 <= k < n2 && c2[j - c1.len()].0 == #[trigger] temp_name(k);
                        }
                    }
                }
                assert forall|j: int| 0 <= j < cc.len() implies among(b, n, n2 + 1, #[trigger] cc[j].0) by {
                    if j < c.len() {
                        assert(cc[j] == c[j]);
                        assert(among(b, n, n2, c[j].0));
                        if !b.contains(c[j].0) {
                            let k = choose|k: nat| n <= k < n2 && c[j].0 == #[trigger] temp_name(k);
                        }
                    }
                }
                assert forall|a: int, bb: int| 0 <= a < bb < c.len() implies (#[trigger] c[a]).0 != (#[trigger] c[bb]).0 by {
                    if a < c1.len() && bb >= c1.len() {
                        assert(c[a] == c1[a] && c[bb] == c2[bb - c1.len()]);
                        lemma_among_apart(b0, b1, n, n1, n2, c1[a].0, c2[bb - c1.len()].0);
                    } else if a < c1.len() {
                        assert(c[a] == c1[a] && c[bb] == c1[bb]);
                    } else {
                        assert(c[a] == c2[a - c1.len()] && c[bb] == c2[bb - c1.len()]);
                    }
                }
                assert forall|a: int, bb: int| 0 <= a < bb < cc.len() implies (#[trigger] cc[a]).0 != (#[trigger] cc[bb]).0 by {
                    assert(cc[a] == c[a]);
                    if bb < c.len() {
                        assert(cc[bb] == c[bb]);
                    } else {
                        assert(among(b, n, n2, c[a].0));
                        if !b.contains(c[a].0) {
                            let k = choose|k: nat| n <= k < n2 && c[a].0 == #[trigger] temp_name(k);
                            if c[a].0 == temp_name(n2) {
                                lemma_temp_injective(k, n2);
                            }
                        }
                    }
                }
            }
        },
        _ => {},
    }
}

/// When the `let`s of a program bind distinct names, none of them the
/// parameter or a temporary's, the lowered program is in single-assignment
/// form: it assigns every name at most once, and never the parameter.
pub proof fn lemma_lower_single_assignment(p: ast::Program)
    requires
        ast::unique_binders(p.body),
        !ast::binders(p.body).contains(p.parameter@),
        not_temp(p.parameter@),
        forall|b: Seq<char>| #[trigger] ast::binders(p.body).contains(b) ==> not_temp(b),
    ensures
        block_dests(lowered(p)).no_duplicates(),
        !block_dests(lowered(p)).contains(p.parameter@),
{
    lemma_flat_distinct(p.body, 0);
    let (code, result, n2) = flat(p.body, 0);
    lemma_chain_dests(code, result);
    let ds = code.map_values(|ins: Instr| ins.0);
    assert forall|i: int, j: int| 0 <= i < ds.len() && 0 <= j < ds.len() && i != j implies ds[i] != ds[j] by {
        if i < j {
            assert(code[i].0 != code[j].0);
        } else {
            assert(code[j].0 != code[i].0);
        }
    }
    assert forall|i: int| 0 <= i < ds.len() implies ds[i] != p.parameter@ by {
        assert(among(ast::binders(p.body), 0, n2, code[i].0));
    }
}

/// Lowering keeps the meaning of a program whose `let`s bind distinct names,
/// none of them the parameter, so that no binding shadows another: on every
/// input, the lowered program returns what the source program computes. No
/// source name is a temporary's, as no source identifier starts with an
/// underscore.
pub proof fn lemma_lower_preserves_value(p: ast::Program, x: int)
    requires
        ast::well_formed(p.body),
        ast::scoped(set![p.parameter@], p.body),
        ast::unique_binders(p.body),
        !ast::binders(p.body).contains(p.parameter@),
        not_temp(p.parameter@),
        forall|b: Seq<char>| #[trigger] ast::binders(p.body).contains(b) ==> not_temp(b),
    ensures
        ssa::program_value(p.parameter@, lowered(p), x) == ast::program_value(p, x),
{
    let rho = ast::input_env(p, x);
    let st = Map::<Seq<char>, int>::empty().insert(p.parameter@, x);
    assert(rho.dom() =~= set![p.parameter@]);
    lemma_flat_value(rho, st, p.body, 0);
    let (code, result, _) = flat(p.body, 0);
    lemma_chain_value(st, code, ssa::BlockBodyV::Return(result));
}

} // verus!
