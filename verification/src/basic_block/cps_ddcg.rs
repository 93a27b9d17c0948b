//! Destination-driven code generation combined with continuation-passing
//! order: a destination policy says where the current expression should put
//! its result, and the code after it receives an immediate. There is no
//! alpha-renaming, so, like the basic lowering, this one assumes that the
//! source program shadows no variable.

use vstd::prelude::*;
use crate::text::{lemma_nat_decimal_injective, nat_decimal, push_u64_decimal};
use crate::numeral::{is_decimal_digit, lemma_nat_decimal_digits};
use super::ast;
use super::ssa;
use super::ssa::{Immediate, ImmediateV, Instr, Operation, OperationV, chain, code_view, build_block, imm_value, run, step, lemma_run_append, lemma_run_push, lemma_run_frame, lemma_chain_value, lemma_chain_dests, block_dests};
use super::cps::target_prim;

verus! {

/// Where an expression puts its result.
pub enum DestinationPolicy {
    /// The result must be stored into this name, as a `let` binding needs even
    /// when its right-hand side is an immediate.
    Required(String),
    /// The result goes into this name only if computing it takes an operation;
    /// an immediate is handed on as it is.
    Preferred(String),
}

/// A destination policy, its name taken by its characters.
pub enum DestinationV {
    Required(Seq<char>),
    Preferred(Seq<char>),
}

impl View for DestinationPolicy {
    type V = DestinationV;

    open spec fn view(&self) -> DestinationV {
        match self {
            DestinationPolicy::Required(d) => DestinationV::Required(d@),
            DestinationPolicy::Preferred(d) => DestinationV::Preferred(d@),
        }
    }
}

/// The name of a destination, whatever its policy.
pub open spec fn dest_name(d: DestinationV) -> Seq<char> {
    match d {
        DestinationV::Required(n) => n,
        DestinationV::Preferred(n) => n,
    }
}

impl DestinationPolicy {
    /// An operation needs a destination, so under either policy it gets the name.
    pub fn into_name(self) -> (name: String)
        ensures
            name@ == dest_name(self@),
    {
        match self {
            DestinationPolicy::Preferred(name) | DestinationPolicy::Required(name) => name,
        }
    }
}

/// `{prefix}_{id}`.
pub open spec fn numbered(prefix: Seq<char>, id: nat) -> Seq<char> {
    prefix + "_"@ + nat_decimal(id)
}

/// The code and the immediate that hand on an immediate under a destination:
/// a preferred destination is bypassed, a required one receives a copy.
pub open spec fn with_immediate(d: DestinationV, i: ImmediateV) -> (Seq<Instr>, ImmediateV) {
    match d {
        DestinationV::Preferred(_) => (Seq::empty(), i),
        DestinationV::Required(x) => (seq![(x, OperationV::Immediate(i))], ImmediateV::Var(x)),
    }
}

/// The straight-line code that computes `e` into the destination `d`, the
/// immediate that holds its value afterwards, and the next unused temporary
/// number, when temporaries are numbered from `n`. A primitive stores into the
/// destination's name; its operands get preferred destinations `%u_{id}`,
/// `%lhs_{id}` and `%rhs_{id}`, numbered when the operand is reached; a `let`
/// computes its right-hand side into the bound name.
pub open spec fn flat(e: ast::Expression, d: DestinationV, n: nat) -> (Seq<Instr>, ImmediateV, nat)
    decreases e,
{
    match e {
        ast::Expression::Variable(x) => {
            let (c, i) = with_immediate(d, ImmediateV::Var(x@));
            (c, i, n)
        },
        ast::Expression::Number(k) => {
            let (c, i) = with_immediate(d, ImmediateV::Const(k));
            (c, i, n)
        },
        ast::Expression::Let(x, e1, e2) => {
            let (c1, i1, n1) = flat(*e1, DestinationV::Required(x@), n);
            let (c2, i2, n2) = flat(*e2, d, n1);
            (c1 + c2, i2, n2)
        },
        ast::Expression::Prim { prim, args } => {
            if args.len() == 1 && ast::arity(prim) == 1 {
                let u = numbered("%u"@, n);
                let (c, i, n1) = flat(args@[0], DestinationV::Preferred(u), n + 1);
                (
                    c.push((dest_name(d), OperationV::Prim(target_prim(prim), i, ImmediateV::Const(1)))),
                    ImmediateV::Var(dest_name(d)),
                    n1,
                )
            } else if args.len() == 2 && ast::arity(prim) == 2 {
                let (c1, i1, n1) = flat(args@[0], DestinationV::Preferred(numbered("%lhs"@, n)), n + 1);
                let (c2, i2, n2) = flat(args@[1], DestinationV::Preferred(numbered("%rhs"@, n1)), n1 + 1);
                (
                    (c1 + c2).push((dest_name(d), OperationV::Prim(target_prim(prim), i1, i2))),
                    ImmediateV::Var(dest_name(d)),
                    n2,
                )
            } else {
                (Seq::empty(), ImmediateV::Const(0), n)
            }
        },
    }
}

/// The SSA program that `lower` produces for `p`.
pub open spec fn lowered(p: ast::Program) -> ssa::BlockBodyV {
    let (code, result, _) = flat(p.body, DestinationV::Preferred("%result"@), 0);
    chain(code, ssa::BlockBodyV::Return(result))
}

/// Lowers `program` to SSA. At the top, an operation stores into `%result`,
/// while an immediate is returned directly, without a copy.
pub fn lower(program: &ast::Program) -> (res: ssa::Program)
    requires
        ast::well_formed(program.body),
        2 * ast::size(program.body) < usize::MAX,
    ensures
        res.param@ == program.parameter@,
        res.entry@ == lowered(*program),
{
    let mut next_name: usize = 0;
    let destination = DestinationPolicy::Preferred(String::from_str("%result"));
    let mut code: Vec<(String, Operation)> = Vec::new();
    assert(code_view(code@) =~= Seq::<Instr>::empty());
    let result = lower_exp(&program.body, destination, &mut next_name, &mut code);
    assert(code_view(code@) =~= Seq::<Instr>::empty() + flat(program.body, DestinationV::Preferred("%result"@), 0).0);
    ssa::Program { param: program.parameter.clone(), entry: build_block(code, result) }
}

fn continue_with_immediate(destination: DestinationPolicy, immediate: Immediate, code: &mut Vec<(String, Operation)>) -> (imm: Immediate)
    ensures
        code_view(final(code)@) == code_view(old(code)@) + with_immediate(destination@, immediate@).0,
        imm@ == with_immediate(destination@, immediate@).1,
{
    let ghost start = code_view(code@);
    match destination {
        DestinationPolicy::Preferred(_) => {
            assert(code_view(code@) =~= start + Seq::<Instr>::empty());
            immediate
        },
        DestinationPolicy::Required(dest) => {
            let ghost i = immediate@;
            code.push((dest.clone(), Operation::Immediate(immediate)));
            assert(code_view(code@) =~= start + seq![(dest@, OperationV::Immediate(i))]);
            Immediate::Var(dest)
        },
    }
}

fn continue_with_operation(destination: DestinationPolicy, operation: Operation, code: &mut Vec<(String, Operation)>) -> (imm: Immediate)
    ensures
        code_view(final(code)@) == code_view(old(code)@).push((dest_name(destination@), operation@)),
        imm@ == ImmediateV::Var(dest_name(destination@)),
{
    let dest = destination.into_name();
    let ghost before = code@;
    let ghost op = operation@;
    code.push((dest.clone(), operation));
    assert(code_view(code@) =~= code_view(before).push((dest@, op)));
    Immediate::Var(dest)
}

pub(crate) fn lower_exp(
    e: &ast::Expression,
    destination: DestinationPolicy,
    next_name: &mut usize,
    code: &mut Vec<(String, Operation)>,
) -> (imm: Immediate)
    requires
        ast::well_formed(*e),
        *old(next_name) + 2 * ast::size(*e) <= usize::MAX,
    ensures
        code_view(final(code)@) == code_view(old(code)@) + flat(*e, destination@, *old(next_name) as nat).0,
        imm@ == flat(*e, destination@, *old(next_name) as nat).1,
        *final(next_name) as nat == flat(*e, destination@, *old(next_name) as nat).2,
        *final(next_name) <= *old(next_name) + 2 * ast::size(*e),
        destination@ is Required ==> imm@ == ImmediateV::Var(dest_name(destination@)),
    decreases ast::size(*e), 0nat,
{
    let ghost n = *next_name as nat;
    let ghost d = destination@;
    let ghost start = code_view(code@);
    match e {
        ast::Expression::Variable(name) => {
            continue_with_immediate(destination, Immediate::Var(name.clone()), code)
        },
        ast::Expression::Number(number) => {
            continue_with_immediate(destination, Immediate::Const(*number), code)
        },
        ast::Expression::Let(name, rhs, body) => {
            // The right-hand side must be bound to the name the source gives it.
            let bound = lower_exp(rhs, DestinationPolicy::Required(name.clone()), next_name, code);
            assert(bound@ == ImmediateV::Var(name@));
            let result = lower_exp(body, destination, next_name, code);
            assert(code_view(code@) =~= start + flat(*e, d, n).0);
            result
        },
        ast::Expression::Prim { prim, args } => {
            match prim {
                ast::Prim::Add1 => lower_unary(&args[0], ssa::Prim::Add, destination, next_name, code),
                ast::Prim::Sub1 => lower_unary(&args[0], ssa::Prim::Sub, destination, next_name, code),
                ast::Prim::Add => lower_binary(&args[0], &args[1], ssa::Prim::Add, destination, next_name, code),
                ast::Prim::Sub => lower_binary(&args[0], &args[1], ssa::Prim::Sub, destination, next_name, code),
                ast::Prim::Mul => lower_binary(&args[0], &args[1], ssa::Prim::Mul, destination, next_name, code),
            }
        },
    }
}

fn lower_unary(
    argument: &ast::Expression,
    primitive: ssa::Prim,
    destination: DestinationPolicy,
    next_name: &mut usize,
    code: &mut Vec<(String, Operation)>,
) -> (imm: Immediate)
    requires
        ast::well_formed(*argument),
        *old(next_name) + 2 * ast::size(*argument) + 2 <= usize::MAX,
    ensures
        ({
            let n = *old(next_name) as nat;
            let (c, i, n1) = flat(*argument, DestinationV::Preferred(numbered("%u"@, n)), n + 1);
            &&& code_view(final(code)@) == code_view(old(code)@) + c.push((dest_name(destination@), OperationV::Prim(primitive, i, ImmediateV::Const(1))))
            &&& imm@ == ImmediateV::Var(dest_name(destination@))
            &&& *final(next_name) == n1
        }),
        *final(next_name) <= *old(next_name) + 2 * ast::size(*argument) + 2,
    decreases ast::size(*argument), 1nat,
{
    // An immediate argument is used as it is; only a compound one stores into
    // the temporary prepared for it.
    let ghost start = code_view(code@);
    let u = fresh_name("%u", next_name);
    let argument_imm = lower_exp(argument, DestinationPolicy::Preferred(u), next_name, code);
    let ghost mid = code_view(code@);
    let operation = Operation::Prim(primitive, argument_imm, Immediate::Const(1));
    let res = continue_with_operation(destination, operation, code);
    res
}

fn lower_binary(
    left: &ast::Expression,
    right: &ast::Expression,
    primitive: ssa::Prim,
    destination: DestinationPolicy,
    next_name: &mut usize,
    code: &mut Vec<(String, Operation)>,
) -> (imm: Immediate)
    requires
        ast::well_formed(*left),
        ast::well_formed(*right),
        *old(next_name) + 2 * ast::size(*left) + 2 * ast::size(*right) + 2 <= usize::MAX,
    ensures
        ({
            let n = *old(next_name) as nat;
            let (c1, i1, n1) = flat(*left, DestinationV::Preferred(numbered("%lhs"@, n)), n + 1);
            let (c2, i2, n2) = flat(*right, DestinationV::Preferred(numbered("%rhs"@, n1)), n1 + 1);
            &&& code_view(final(code)@) == code_view(old(code)@) + (c1 + c2).push((dest_name(destination@), OperationV::Prim(primitive, i1, i2)))
            &&& imm@ == ImmediateV::Var(dest_name(destination@))
            &&& *final(next_name) == n2
        }),
        *final(next_name) <= *old(next_name) + 2 * ast::size(*left) + 2 * ast::size(*right) + 2,
    decreases ast::size(*left) + ast::size(*right), 1nat,
{
    // Left to right; an operand's preferred destination may go unused, so the
    // numbering may have gaps.
    let ghost start = code_view(code@);
    let lhs = fresh_name("%lhs", next_name);
    let left_imm = lower_exp(left, DestinationPolicy::Preferred(lhs), next_name, code);
    let ghost mid = code_view(code@);
    let rhs = fresh_name("%rhs", next_name);
    let right_imm = lower_exp(right, DestinationPolicy::Preferred(rhs), next_name, code);
    let ghost after = code_view(code@);
    let operation = Operation::Prim(primitive, left_imm, right_imm);
    let res = continue_with_operation(destination, operation, code);
    assert(code_view(code@) =~= start + ((mid.subrange(start.len() as int, mid.len() as int)) + after.subrange(mid.len() as int, after.len() as int)).push((dest_name(destination@), OperationV::Prim(primitive, left_imm@, right_imm@))));
    res
}

/// `{prefix}_{id}` for the next unused number `id`, which it then marks as used.
pub fn fresh_name(prefix: &str, next_name: &mut usize) -> (name: String)
    requires
        *old(next_name) < usize::MAX,
    ensures
        name@ == numbered(prefix@, *old(next_name) as nat),
        *final(next_name) == *old(next_name) + 1,
{
    let id = *next_name;
    *next_name = id + 1;
    let mut name = String::from_str(prefix);
    name.append("_");
    push_u64_decimal(&mut name, id as u64);
    name
}

// ------------------------------------------------------------------- laws

/// A numbered name determines its number: the digits after its last `_`.
pub proof fn lemma_numbered_id(q1: Seq<char>, k1: nat, q2: Seq<char>, k2: nat)
    requires
        numbered(q1, k1) == numbered(q2, k2),
    ensures
        k1 == k2,
        q1 == q2,
{
    let s = numbered(q1, k1);
    let d1 = nat_decimal(k1);
    let d2 = nat_decimal(k2);
    lemma_nat_decimal_digits(k1);
    lemma_nat_decimal_digits(k2);
    reveal_strlit("_");
    let n = s.len() as int;
    assert(s == q1 + "_"@ + d1);
    assert(s == q2 + "_"@ + d2);
    if d1.len() < d2.len() {
        let i = n - d1.len() - 1;
        assert(s[i] == '_');
        assert(s[i] == d2[i - (n - d2.len())]);
        assert(is_decimal_digit(d2[i - (n - d2.len())]));
    } else if d2.len() < d1.len() {
        let i = n - d2.len() - 1;
        assert(s[i] == '_');
        assert(s[i] == d1[i - (n - d1.len())]);
        assert(is_decimal_digit(d1[i - (n - d1.len())]));
    } else {
        assert(d1 =~= s.skip(n - d1.len()));
        assert(d2 =~= s.skip(n - d2.len()));
        lemma_nat_decimal_injective(k1, k2);
        assert(q1 =~= s.take(q1.len() as int));
        assert(q2 =~= s.take(q2.len() as int));
    }
}

/// `%result` is no numbered name: it holds no `_`.
pub proof fn lemma_result_not_numbered(q: Seq<char>, k: nat)
    ensures
        "%result"@ != numbered(q, k),
{
    reveal_strlit("%result");
    reveal_strlit("_");
    let s = numbered(q, k);
    let r = "%result"@;
    if r == s {
        assert(s[q.len() as int] == '_');
        assert(r.len() == 7);
        assert(r[0] == '%' && r[1] == 'r' && r[2] == 'e' && r[3] == 's' && r[4] == 'u' && r[5] == 'l' && r[6] == 't');
        assert(r[q.len() as int] != '_');
    }
}

/// A source identifier: it does not start with `%`.
pub open spec fn source_name(v: Seq<char>) -> bool {
    v.len() == 0 || v[0] != '%'
}

/// A name of an operand's destination: `{q}_{k}` for a prefix `q` that starts
/// with `%`, numbered in `n..n2`.
pub open spec fn made_in(n: nat, n2: nat, v: Seq<char>) -> bool {
    exists|q: Seq<char>, k: nat| n <= k < n2 && q.len() > 0 && q[0] == '%' && v == #[trigger] numbered(q, k)
}

/// `v` is one of `names`, the destination's name, or an operand's
/// destination numbered in `n..n2`.
pub open spec fn among(names: Set<Seq<char>>, d: DestinationV, n: nat, n2: nat, v: Seq<char>) -> bool {
    names.contains(v) || v == dest_name(d) || made_in(n, n2, v)
}

pub open spec fn imm_among(names: Set<Seq<char>>, d: DestinationV, n: nat, n2: nat, i: ImmediateV) -> bool {
    match i {
        ImmediateV::Const(_) => true,
        ImmediateV::Var(v) => among(names, d, n, n2, v),
    }
}

/// No operand's destination numbered from `n` on is `v`.
pub open spec fn fresh_from(n: nat, v: Seq<char>) -> bool {
    forall|q: Seq<char>, k: nat| n <= k && q.len() > 0 && q[0] == '%' ==> v != #[trigger] numbered(q, k)
}

proof fn lemma_prefix_name(q: Seq<char>, k: nat)
    requires
        q.len() > 0,
    ensures
        numbered(q, k)[0] == q[0],
{
    assert(numbered(q, k) == q + "_"@ + nat_decimal(k));
}

proof fn lemma_prefixes()
    ensures
        "%u"@.len() > 0 && "%u"@[0] == '%',
        "%lhs"@.len() > 0 && "%lhs"@[0] == '%',
        "%rhs"@.len() > 0 && "%rhs"@[0] == '%',
{
    reveal_strlit("%u");
    reveal_strlit("%lhs");
    reveal_strlit("%rhs");
}

/// Code that assigns only names of `written`, the destination, and operands'
/// destinations from `n` on leaves alone any other source name or earlier
/// operand destination.
proof fn lemma_frame(st: Map<Seq<char>, int>, c: Seq<Instr>, written: Set<Seq<char>>, d: DestinationV, n: nat, n2: nat, v: Seq<char>)
    requires
        forall|j: int| 0 <= j < c.len() ==> among(written, d, n, n2, #[trigger] c[j].0),
        !written.contains(v),
        v != dest_name(d),
        source_name(v) || exists|q: Seq<char>, k: nat| k < n && v == #[trigger] numbered(q, k),
    ensures
        run(st, c)[v] == st[v],
{
    assert forall|j: int| 0 <= j < c.len() implies (#[trigger] c[j]).0 != v by {
        assert(among(written, d, n, n2, c[j].0));
        if c[j].0 == v {
            let (q, k) = choose|q: Seq<char>, k: nat| n <= k < n2 && q.len() > 0 && q[0] == '%' && c[j].0 == #[trigger] numbered(q, k);
            lemma_prefix_name(q, k);
            if !source_name(v) {
                let (q2, k2) = choose|q2: Seq<char>, k2: nat| k2 < n && v == #[trigger] numbered(q2, k2);
                lemma_numbered_id(q, k, q2, k2);
            }
        }
    }
    lemma_run_frame(st, c, v);
}

/// The code of `e` into destination `d` leaves in its immediate the value of
/// `e`, when every variable in scope holds its value, no `let` of `e` rebinds
/// a name in scope or another `let`'s name, and the destination is a name that
/// nothing in scope or in `e` uses.
proof fn lemma_flat_value(rho: Map<Seq<char>, int>, st: Map<Seq<char>, int>, e: ast::Expression, d: DestinationV, n: nat)
    requires
        ast::well_formed(e),
        ast::scoped(rho.dom(), e),
        ast::unique_binders(e),
        ast::binders(e).disjoint(rho.dom()),
        forall|x: Seq<char>| #[trigger] rho.contains_key(x) ==> st[x] == rho[x] && source_name(x),
        forall|b: Seq<char>| #[trigger] ast::binders(e).contains(b) ==> source_name(b),
        !rho.contains_key(dest_name(d)),
        !ast::binders(e).contains(dest_name(d)),
        fresh_from(n, dest_name(d)),
    ensures
        ({
            let (c, i, n2) = flat(e, d, n);
            &&& n <= n2
            &&& imm_value(run(st, c), i) == ast::eval(rho, e)
            &&& imm_among(rho.dom().union(ast::binders(e)), d, n, n2, i)
            &&& d is Required ==> i == ImmediateV::Var(dest_name(d))
            &&& forall|j: int| 0 <= j < c.len() ==> among(ast::binders(e), d, n, n2, #[trigger] c[j].0)
        }),
    decreases e,
{
    lemma_prefixes();
    match e {
        ast::Expression::Variable(x) => {
            assert(rho.contains_key(x@));
            assert(ast::eval(rho, e) == rho[x@]);
            let (c, i, n2) = flat(e, d, n);
            if let DestinationV::Required(dst) = d {
                assert(c.drop_first() =~= Seq::<Instr>::empty());
                assert(run(st, c) == run(step(st, c[0]), Seq::<Instr>::empty()));
                assert(run(step(st, c[0]), Seq::<Instr>::empty()) == step(st, c[0]));
                assert(c[0].0 == dst);
                assert(i == ImmediateV::Var(dst));
            } else {
                assert(run(st, c) == st);
            }
        },
        ast::Expression::Number(k) => {
            let (c, i, n2) = flat(e, d, n);
            if let DestinationV::Required(dst) = d {
                assert(c.drop_first() =~= Seq::<Instr>::empty());
                assert(run(st, c) == run(step(st, c[0]), Seq::<Instr>::empty()));
                assert(run(step(st, c[0]), Seq::<Instr>::empty()) == step(st, c[0]));
                assert(c[0].0 == dst);
                assert(i == ImmediateV::Var(dst));
            } else {
                assert(run(st, c) == st);
            }
        },
        ast::Expression::Let(x, e1, e2) => {
            let b = ast::binders(e);
            let b1 = ast::binders(*e1);
            let b2 = ast::binders(*e2);
            assert forall|v: Seq<char>| #[trigger] b1.contains(v) implies source_name(v) by {
                assert(b.contains(v));
            }
            assert forall|v: Seq<char>| #[trigger] b2.contains(v) implies source_name(v) by {
                assert(b.contains(v));
            }
            assert(b.contains(x@));
            let d1 = DestinationV::Required(x@);
            assert(!rho.contains_key(x@));
            assert forall|q: Seq<char>, k: nat| n <= k && q.len() > 0 && q[0] == '%' implies x@ != #[trigger] numbered(q, k) by {
                lemma_prefix_name(q, k);
            }
            lemma_flat_value(rho, st, *e1, d1, n);
            let (c1, i1, n1) = flat(*e1, d1, n);
            let st1 = run(st, c1);
            let v1 = ast::eval(rho, *e1);
            let rho2 = rho.insert(x@, v1);
            assert forall|y: Seq<char>| #[trigger] rho2.contains_key(y) implies st1[y] == rho2[y] && source_name(y) by {
                if y != x@ {
                    assert(rho.contains_key(y));
                    lemma_frame(st, c1, b1, d1, n, n1, y);
                }
            }
            assert(rho2.dom() =~= rho.dom().insert(x@));
            assert(b2.disjoint(rho2.dom()));
            assert(!rho2.contains_key(dest_name(d)));
            assert(!b2.contains(dest_name(d)));
            assert forall|q: Seq<char>, k: nat| n1 <= k && q.len() > 0 && q[0] == '%' implies dest_name(d) != #[trigger] numbered(q, k) by {
                assert(n <= k);
            }
            lemma_flat_value(rho2, st1, *e2, d, n1);
            let (c2, i2, n2) = flat(*e2, d, n1);
            lemma_run_append(st, c1, c2);
            let c = c1 + c2;
            assert forall|j: int| 0 <= j < c.len() implies among(b, d, n, n2, #[trigger] c[j].0) by {
                if j < c1.len() {
                    assert(c[j] == c1[j]);
                    assert(among(b1, d1, n, n1, c1[j].0));
                    if made_in(n, n1, c1[j].0) {
                        let (q, k) = choose|q: Seq<char>, k: nat| n <= k < n1 && q.len() > 0 && q[0] == '%' && c1[j].0 == #[trigger] numbered(q, k);
                        assert(n <= k < n2);
                    }
                } else {
                    assert(c[j] == c2[j - c1.len()]);
                    assert(among(b2, d, n1, n2, c2[j - c1.len()].0));
                    if made_in(n1, n2, c2[j - c1.len()].0) {
                        let (q, k) = choose|q: Seq<char>, k: nat| n1 <= k < n2 && q.len() > 0 && q[0] == '%' && c2[j - c1.len()].0 == #[trigger] numbered(q, k);
                        assert(n <= k < n2);
                    }
                }
            }
            if let ImmediateV::Var(v) = i2 {
                if made_in(n1, n2, v) {
                    let (q, k) = choose|q: Seq<char>, k: nat| n1 <= k < n2 && q.len() > 0 && q[0] == '%' && v == #[trigger] numbered(q, k);
                    assert(n <= k < n2);
                }
            }
        },
        ast::Expression::Prim { prim, args } => {
            assert(ast::well_formed(args@[0]) && ast::scoped(rho.dom(), args@[0]));
            let dn = dest_name(d);
            let b = ast::binders(e);
            let b0 = ast::binders(args@[0]);
            assert forall|v: Seq<char>| #[trigger] b0.contains(v) implies source_name(v) by {
                assert(b.contains(v));
            }
            if args.len() == 1 {
                let u = numbered("%u"@, n);
                let d1 = DestinationV::Preferred(u);
                lemma_prefix_name("%u"@, n);
                assert(!rho.contains_key(u));
                assert(!b0.contains(u));
                assert forall|q: Seq<char>, k: nat| n + 1 <= k && q.len() > 0 && q[0] == '%' implies u != #[trigger] numbered(q, k) by {
                    if u == numbered(q, k) {
                        lemma_numbered_id("%u"@, n, q, k);
                    }
                }
                lemma_flat_value(rho, st, args@[0], d1, n + 1);
                let (c, i, n1) = flat(args@[0], d1, n + 1);
                let ins = (dn, OperationV::Prim(target_prim(prim), i, ImmediateV::Const(1)));
                lemma_run_push(st, c, ins);
                let cc = c.push(ins);
                assert forall|j: int| 0 <= j < cc.len() implies among(b, d, n, n1, #[trigger] cc[j].0) by {
                    if j < c.len() {
                        assert(cc[j] == c[j]);
                        assert(among(b0, d1, n + 1, n1, c[j].0));
                        if c[j].0 == u {
                            assert(u == numbered("%u"@, n));
                        } else if made_in(n + 1, n1, c[j].0) {
                            let (q, k) = choose|q: Seq<char>, k: nat| n + 1 <= k < n1 && q.len() > 0 && q[0] == '%' && c[j].0 == #[trigger] numbered(q, k);
                            assert(n <= k < n1);
                        }
                    }
                }
            } else {
                assert(ast::well_formed(args@[1]) && ast::scoped(rho.dom(), args@[1]));
                let b1 = ast::binders(args@[1]);
                assert forall|v: Seq<char>| #[trigger] b1.contains(v) implies source_name(v) by {
                    assert(b.contains(v));
                }
                let lhs = numbered("%lhs"@, n);
                let d1 = DestinationV::Preferred(lhs);
                lemma_prefix_name("%lhs"@, n);
                assert(!rho.contains_key(lhs));
                assert(!b0.contains(lhs));
                assert forall|q: Seq<char>, k: nat| n + 1 <= k && q.len() > 0 && q[0] == '%' implies lhs != #[trigger] numbered(q, k) by {
                    if lhs == numbered(q, k) {
                        lemma_numbered_id("%lhs"@, n, q, k);
                    }
                }
                lemma_flat_value(rho, st, args@[0], d1, n + 1);
                let (c1, i1, n1) = flat(args@[0], d1, n + 1);
                let st1 = run(st, c1);
                assert forall|y: Seq<char>| #[trigger] rho.contains_key(y) implies st1[y] == rho[y] && source_name(y) by {
                    lemma_frame(st, c1, b0, d1, n + 1, n1, y);
                }
                let rhs = numbered("%rhs"@, n1);
                let d2 = DestinationV::Preferred(rhs);
                lemma_prefix_name("%rhs"@, n1);
                assert(!rho.contains_key(rhs));
                assert(!b1.contains(rhs));
                assert forall|q: Seq<char>, k: nat| n1 + 1 <= k && q.len() > 0 && q[0] == '%' implies rhs != #[trigger] numbered(q, k) by {
                    if rhs == numbered(q, k) {
                        lemma_numbered_id("%rhs"@, n1, q, k);
                    }
                }
                lemma_flat_value(rho, st1, args@[1], d2, n1 + 1);
                let (c2, i2, n2) = flat(args@[1], d2, n1 + 1);
                let st12 = run(st1, c2);
                if let ImmediateV::Var(v) = i1 {
                    // The left operand's result survives the right operand's code.
                    assert(among(rho.dom().union(b0), d1, n + 1, n1, v));
                    assert(!b1.contains(v)) by {
                        if b1.contains(v) && made_in(n + 1, n1, v) {
                            let (q, k) = choose|q: Seq<char>, k: nat| n + 1 <= k < n1 && q.len() > 0 && q[0] == '%' && v == #[trigger] numbered(q, k);
                            lemma_prefix_name(q, k);
                        }
                    }
                    assert(v != rhs) by {
                        if v == lhs {
                            if lhs == rhs {
                                lemma_numbered_id("%lhs"@, n, "%rhs"@, n1);
                            }
                        } else if made_in(n + 1, n1, v) {
                            let (q, k) = choose|q: Seq<char>, k: nat| n + 1 <= k < n1 && q.len() > 0 && q[0] == '%' && v == #[trigger] numbered(q, k);
                            if v == rhs {
                                lemma_numbered_id(q, k, "%rhs"@, n1);
                            }
                        }
                    }
                    if v == lhs {
                        lemma_frame(st1, c2, b1, d2, n1 + 1, n2, v);
                    } else if made_in(n + 1, n1, v) {
                        let (q, k) = choose|q: Seq<char>, k: nat| n + 1 <= k < n1 && q.len() > 0 && q[0] == '%' && v == #[trigger] numbered(q, k);
                        assert(k < n1 + 1);
                        lemma_frame(st1, c2, b1, d2, n1 + 1, n2, v);
                    } else {
                        lemma_frame(st1, c2, b1, d2, n1 + 1, n2, v);
                    }
                }
                assert(imm_value(st12, i1) == imm_value(st1, i1));
                let ins = (dn, OperationV::Prim(target_prim(prim), i1, i2));
                lemma_run_append(st, c1, c2);
                lemma_run_push(st, c1 + c2, ins);
                let cc = (c1 + c2).push(ins);
                assert forall|j: int| 0 <= j < cc.len() implies among(b, d, n, n2, #[trigger] cc[j].0) by {
                    if j < c1.len() {
                        assert(cc[j] == c1[j]);
                        assert(among(b0, d1, n + 1, n1, c1[j].0));
                        if c1[j].0 == lhs {
                            assert(lhs == numbered("%lhs"@, n));
                        } else if made_in(n + 1, n1, c1[j].0) {
                            let (q, k) = choose|q: Seq<char>, k: nat| n + 1 <= k < n1 && q.len() > 0 && q[0] == '%' && c1[j].0 == #[trigger] numbered(q, k);
                            assert(n <= k < n2);
                        }
                    } else if j < c1.len() + c2.len() {
                        assert(cc[j] == c2[j - c1.len()]);
                        assert(among(b1, d2, n1 + 1, n2, c2[j - c1.len()].0));
                        if c2[j - c1.len()].0 == rhs {
                            assert(rhs == numbered("%rhs"@, n1));
                        } else if made_in(n1 + 1, n2, c2[j - c1.len()].0) {
                            let (q, k) = choose|q: Seq<char>, k: nat| n1 + 1 <= k < n2 && q.len() > 0 && q[0] == '%' && c2[j - c1.len()].0 == #[trigger] numbered(q, k);
                            assert(n <= k < n2);
                        }
                    }
                }
                if let ImmediateV::Var(v) = i1 {}
            }
        },
    }
}

/// Two names assigned by pieces of code differ when each is a binder of its
/// own set, its own destination, or an operand's destination of its own
/// range, and none of these meet.
proof fn lemma_among_apart(
    s1: Set<Seq<char>>, d1: DestinationV, m1: nat, m2: nat,
    s2: Set<Seq<char>>, d2: DestinationV, m3: nat, m4: nat,
    u: Seq<char>, w: Seq<char>,
)
    requires
        among(s1, d1, m1, m2, u),
        among(s2, d2, m3, m4, w),
        m2 <= m3,
        s1.disjoint(s2),
        forall|v: Seq<char>| #[trigger] s1.contains(v) ==> source_name(v),
        forall|v: Seq<char>| #[trigger] s2.contains(v) ==> source_name(v),
        !s2.contains(dest_name(d1)),
        !s1.contains(dest_name(d2)),
        dest_name(d1) != dest_name(d2),
        fresh_from(m3, dest_name(d1)),
        !made_in(m1, m2, dest_name(d2)),
        source_name(dest_name(d1)) || made_in(m1, m2, dest_name(d1)) || fresh_from(m1, dest_name(d1)),
        source_name(dest_name(d2)) || made_in(m3, m4, dest_name(d2)) || fresh_from(m3, dest_name(d2)),
    ensures
        u != w,
{
    if u == w {
        if made_in(m1, m2, u) {
            let (q, k) = choose|q: Seq<char>, k: nat| m1 <= k < m2 && q.len() > 0 && q[0] == '%' && u == #[trigger] numbered(q, k);
            lemma_prefix_name(q, k);
            if made_in(m3, m4, w) {
                let (q2, k2) = choose|q2: Seq<char>, k2: nat| m3 <= k2 < m4 && q2.len() > 0 && q2[0] == '%' && w == #[trigger] numbered(q2, k2);
                lemma_numbered_id(q, k, q2, k2);
            }
        } else if made_in(m3, m4, w) {
            let (q2, k2) = choose|q2: Seq<char>, k2: nat| m3 <= k2 < m4 && q2.len() > 0 && q2[0] == '%' && w == #[trigger] numbered(q2, k2);
            lemma_prefix_name(q2, k2);
        }
    }
}

/// The code of `e` into destination `d` assigns each name at most once: the
/// names its `let`s bind, the destination, and operands' destinations
/// numbered from `n` on.
proof fn lemma_flat_distinct(e: ast::Expression, d: DestinationV, n: nat)
    requires
        ast::unique_binders(e),
        forall|b: Seq<char>| #[trigger] ast::binders(e).contains(b) ==> source_name(b),
        !ast::binders(e).contains(dest_name(d)),
        fresh_from(n, dest_name(d)),
    ensures
        ({
            let (c, i, n2) = flat(e, d, n);
            &&& n <= n2
            &&& forall|j: int| 0 <= j < c.len() ==> among(ast::binders(e), d, n, n2, #[trigger] c[j].0)
            &&& forall|a: int, b: int| 0 <= a < b < c.len() ==> (#[trigger] c[a]).0 != (#[trigger] c[b]).0
        }),
    decreases e,
{
    lemma_prefixes();
    match e {
        ast::Expression::Let(x, e1, e2) => {
            let b = ast::binders(e);
            let b1 = ast::binders(*e1);
            let b2 = ast::binders(*e2);
            assert forall|v: Seq<char>| #[trigger] b1.contains(v) implies source_name(v) by {
                assert(b.contains(v));
            }
            assert forall|v: Seq<char>| #[trigger] b2.contains(v) implies source_name(v) by {
                assert(b.contains(v));
            }
            assert(b.contains(x@));
            let d1 = DestinationV::Required(x@);
            assert forall|q: Seq<char>, k: nat| n <= k && q.len() > 0 && q[0] == '%' implies x@ != #[trigger] numbered(q, k) by {
                lemma_prefix_name(q, k);
            }
            lemma_flat_distinct(*e1, d1, n);
            let (c1, i1, n1) = flat(*e1, d1, n);
            assert forall|q: Seq<char>, k: nat| n1 <= k && q.len() > 0 && q[0] == '%' implies dest_name(d) != #[trigger] numbered(q, k) by {
                assert(n <= k);
            }
            lemma_flat_distinct(*e2, d, n1);
            let (c2, i2, n2) = flat(*e2, d, n1);
            let c = c1 + c2;
            assert(!made_in(n, n1, dest_name(d))) by {
                if made_in(n, n1, dest_name(d)) {
                    let (q, k) = choose|q: Seq<char>, k: nat| n <= k < n1 && q.len() > 0 && q[0] == '%' && dest_name(d) == #[trigger] numbered(q, k);
                }
            }
            assert forall|q: Seq<char>, k: nat| n1 <= k && q.len() > 0 && q[0] == '%' implies x@ != #[trigger] numbered(q, k) by {
                lemma_prefix_name(q, k);
            }
            assert forall|j: int| 0 <= j < c.len() implies among(b, d, n, n2, #[trigger] c[j].0) by {
                if j < c1.len() {
                    assert(c[j] == c1[j]);
                    assert(among(b1, d1, n, n1, c1[j].0));
                    if made_in(n, n1, c1[j].0) {
                        let (q, k) = choose|q: Seq<char>, k: nat| n <= k < n1 && q.len() > 0 && q[0] == '%' && c1[j].0 == #[trigger] numbered(q, k);
                        assert(n <= k < n2);
                    }
                } else {
                    assert(c[j] == c2[j - c1.len()]);
                    assert(among(b2, d, n1, n2, c2[j - c1.len()].0));
                    if made_in(n1, n2, c2[j - c1.len()].0) {
                        let (q, k) = choose|q: Seq<char>, k: nat| n1 <= k < n2 && q.len() > 0 && q[0] == '%' && c2[j - c1.len()].0 == #[trigger] numbered(q, k);
                        assert(n <= k < n2);
                    }
                }
            }
            assert forall|a: int, bb: int| 0 <= a < bb < c.len() implies (#[trigger] c[a]).0 != (#[trigger] c[bb]).0 by {
                if a < c1.len() && bb >= c1.len() {
                    assert(c[a] == c1[a] && c[bb] == c2[bb - c1.len()]);
                    lemma_among_apart(b1, d1, n, n1, b2, d, n1, n2, c1[a].0, c2[bb - c1.len()].0);
                } else if a < c1.len() {
                    assert(c[a] == c1[a] && c[bb] == c1[bb]);
                } else {
                    assert(c[a] == c2[a - c1.len()] && c[bb] == c2[bb - c1.len()]);
                }
            }
        },
        ast::Expression::Prim { prim, args } => {
            let dn = dest_name(d);
            let b = ast::binders(e);
            if args.len() == 1 && ast::arity(prim) == 1 {
                let b0 = ast::binders(args@[0]);
                assert forall|v: Seq<char>| #[trigger] b0.contains(v) implies source_name(v) by {
                    assert(b.contains(v));
                }
                let u = numbered("%u"@, n);
                let d1 = DestinationV::Preferred(u);
                lemma_prefix_name("%u"@, n);
                assert(!b0.contains(u));
                assert forall|q: Seq<char>, k: nat| n + 1 <= k && q.len() > 0 && q[0] == '%' implies u != #[trigger] numbered(q, k) by {
                    if u == numbered(q, k) {
                        lemma_numbered_id("%u"@, n, q, k);
                    }
                }
                lemma_flat_distinct(args@[0], d1, n + 1);
                let (c, i, n1) = flat(args@[0], d1, n + 1);
                let ins = (dn, OperationV::Prim(target_prim(prim), i, ImmediateV::Const(1)));
                let cc = c.push(ins);
                assert forall|j: int| 0 <= j < c.len() implies (#[trigger] c[j]).0 != dn && among(b, d, n, n1, c[j].0) by {
                    assert(among(b0, d1, n + 1, n1, c[j].0));
                    if c[j].0 == u {
                        assert(u == numbered("%u"@, n));
                    } else if made_in(n + 1, n1, c[j].0) {
                        let (q, k) = choose|q: Seq<char>, k: nat| n + 1 <= k < n1 && q.len() > 0 && q[0] == '%' && c[j].0 == #[trigger] numbered(q, k);
                        assert(n <= k < n1);
                    }
                }
                assert forall|j: int| 0 <= j < cc.len() implies among(b, d, n, n1, #[trigger] cc[j].0) by {
                    if j < c.len() {
                        assert(cc[j] == c[j]);
                    }
                }
                assert forall|a: int, bb: int| 0 <= a < bb < cc.len() implies (#[trigger] cc[a]).0 != (#[trigger] cc[bb]).0 by {
                    assert(cc[a] == c[a]);
                    if bb < c.len() {
                        assert(cc[bb] == c[bb]);
                    }
                }
            } else if args.len() == 2 && ast::arity(prim) == 2 {
                let b0 = ast::binders(args@[0]);
                let b1 = ast::binders(args@[1]);
                assert forall|v: Seq<char>| #[trigger] b0.contains(v) implies source_name(v) by {
                    assert(b.contains(v));
                }
                assert forall|v: Seq<char>| #[trigger] b1.contains(v) implies source_name(v) by {
                    assert(b.contains(v));
                }
                let lhs = numbered("%lhs"@, n);
                let d1 = DestinationV::Preferred(lhs);
                lemma_prefix_name("%lhs"@, n);
                assert(!b0.contains(lhs) && !b1.contains(lhs));
                assert forall|q: Seq<char>, k: nat| n + 1 <= k && q.len() > 0 && q[0] == '%' implies lhs != #[trigger] numbered(q, k) by {
                    if lhs == numbered(q, k) {
                        lemma_numbered_id("%lhs"@, n, q, k);
                    }
                }
                lemma_flat_distinct(args@[0], d1, n + 1);
                let (c1, i1, n1) = flat(args@[0], d1, n + 1);
                let rhs = numbered("%rhs"@, n1);
                let d2 = DestinationV::Preferred(rhs);
                lemma_prefix_name("%rhs"@, n1);
                assert(!b1.contains(rhs) && !b0.contains(rhs));
                assert forall|q: Seq<char>, k: nat| n1 + 1 <= k && q.len() > 0 && q[0] == '%' implies rhs != #[trigger] numbered(q, k) by {
                    if rhs == numbered(q, k) {
                        lemma_numbered_id("%rhs"@, n1, q, k);
                    }
                }
                lemma_flat_distinct(args@[1], d2, n1 + 1);
                let (c2, i2, n2) = flat(args@[1], d2, n1 + 1);
                assert(lhs != rhs) by {
                    if lhs == rhs {
                        lemma_numbered_id("%lhs"@, n, "%rhs"@, n1);
                    }
                }
                assert(!made_in(n + 1, n1, rhs)) by {
                    if made_in(n + 1, n1, rhs) {
                        let (q, k) = choose|q: Seq<char>, k: nat| n + 1 <= k < n1 && q.len() > 0 && q[0] == '%' && rhs == #[trigger] numbered(q, k);
                        lemma_numbered_id(q, k, "%rhs"@, n1);
                    }
                }
                assert forall|q: Seq<char>, k: nat| n1 + 1 <= k && q.len() > 0 && q[0] == '%' implies lhs != #[trigger] numbered(q, k) by {
                    if lhs == numbered(q, k) {
                        lemma_numbered_id("%lhs"@, n, q, k);
                    }
                }
                let ins = (dn, OperationV::Prim(target_prim(prim), i1, i2));
                let c = c1 + c2;
                let cc = c.push(ins);
                assert forall|j: int| 0 <= j < c.len() implies (#[trigger] c[j]).0 != dn && among(b, d, n, n2, c[j].0) by {
                    if j < c1.len() {
                        assert(c[j] == c1[j]);
                        assert(among(b0, d1, n + 1, n1, c1[j].0));
                        if c1[j].0 == lhs {
                            assert(lhs == numbered("%lhs"@, n));
                        } else if made_in(n + 1, n1, c1[j].0) {
                            let (q, k) = choose|q: Seq<char>, k: nat| n + 1 <= k < n1 && q.len() > 0 && q[0] == '%' && c1[j].0 == #[trigger] numbered(q, k);
                            assert(n <= k < n2);
                        }
                    } else {
                        assert(c[j] == c2[j - c1.len()]);
                        assert(among(b1, d2, n1 + 1, n2, c2[j - c1.len()].0));
                        if c2[j - c1.len()].0 == rhs {
                            assert(rhs == numbered("%rhs"@, n1));
                        } else if made_in(n1 + 1, n2, c2[j - c1.len()].0) {
                            let (q, k) = choose|q: Seq<char>, k: nat| n1 + 1 <= k < n2 && q.len() > 0 && q[0] == '%' && c2[j - c1.len()].0 == #[trigger] numbered(q, k);
                            assert(n <= k < n2);
                        }
                    }
                }
                assert forall|j: int| 0 <= j < cc.len() implies among(b, d, n, n2, #[trigger] cc[j].0) by {
                    if j < c.len() {
                        assert(cc[j] == c[j]);
                    }
                }
                assert forall|a: int, bb: int| 0 <= a < bb < c.len() implies (#[trigger] c[a]).0 != (#[trigger] c[bb]).0 by {
                    if a < c1.len() && bb >= c1.len() {
                        assert(c[a] == c1[a] && c[bb] == c2[bb - c1.len()]);
                        lemma_among_apart(b0, d1, n + 1, n1, b1, d2, n1 + 1, n2, c1[a].0, c2[bb - c1.len()].0);
                    } else if a < c1.len() {
                        assert(c[a] == c1[a] && c[bb] == c1[bb]);
                    } else {
                        assert(c[a] == c2[a - c1.len()] && c[bb] == c2[bb - c1.len()]);
                    }
                }
                assert forall|a: int, bb: int| 0 <= a < bb < cc.len() implies (#[trigger] cc[a]).0 != (#[trigger] cc[bb]).0 by {
                    assert(cc[a] == c[a]);
                    if bb < c.len() {
                        assert(cc[bb] == c[bb]);
                    }
                }
            }
        },
        _ => {
            let (c, i, n2) = flat(e, d, n);
            if c.len() > 0 {
                assert(c.len() == 1);
            }
        },
    }
}

/// When the `let`s of a program bind distinct names, none of them the
/// parameter, the lowered program is in single-assignment form: it assigns
/// every name at most once, and never the parameter. Source identifiers never
/// start with `%`.
pub proof fn lemma_lower_single_assignment(p: ast::Program)
    requires
        ast::unique_binders(p.body),
        !ast::binders(p.body).contains(p.parameter@),
        source_name(p.parameter@),
        forall|b: Seq<char>| #[trigger] ast::binders(p.body).contains(b) ==> source_name(b),
    ensures
        block_dests(lowered(p)).no_duplicates(),
        !block_dests(lowered(p)).contains(p.parameter@),
{
    let d = DestinationV::Preferred("%result"@);
    reveal_strlit("%result");
    assert("%result"@[0] == '%');
    assert(!ast::binders(p.body).contains("%result"@));
    assert forall|q: Seq<char>, k: nat| 0 <= k && q.len() > 0 && q[0] == '%' implies "%result"@ != #[trigger] numbered(q, k) by {
        lemma_result_not_numbered(q, k);
    }
    lemma_flat_distinct(p.body, d, 0);
    let (code, result, n2) = flat(p.body, d, 0);
    lemma_chain_dests(code, result);
    let ds = code.map_values(|ins: Instr| ins.0);
    assert forall|i: int, j: int| 0 <= i < ds.len() && 0 <= j < ds.len() && i != j implies ds[i] != ds[j] by {
        if i < j {
            assert(code[i].0 != code[j].0);
        } else {
            assert(code[j].0 != code[i].0);
        }
    }
    assert forall|i: int| 0 <= i < ds.len() implies ds[i] != p.parameter@ by {
        assert(among(ast::binders(p.body), d, 0, n2, code[i].0));
        if made_in(0, n2, code[i].0) {
            let (q, k) = choose|q: Seq<char>, k: nat| 0 <= k < n2 && q.len() > 0 && q[0] == '%' && code[i].0 == #[trigger] numbered(q, k);
            lemma_prefix_name(q, k);
        }
    }
}

/// Lowering keeps the meaning of a program whose `let`s bind distinct names,
/// none of them the parameter, so that no binding shadows another: on every
/// input, the lowered program returns what the source program computes.
/// Source identifiers never start with `%`.
pub proof fn lemma_lower_preserves_value(p: ast::Program, x: int)
    requires
        ast::well_formed(p.body),
        ast::scoped(set![p.parameter@], p.body),
        ast::unique_binders(p.body),
        !ast::binders(p.body).contains(p.parameter@),
        source_name(p.parameter@),
        forall|b: Seq<char>| #[trigger] ast::binders(p.body).contains(b) ==> source_name(b),
    ensures
        ssa::program_value(p.parameter@, lowered(p), x) == ast::program_value(p, x),
{
    let rho = ast::input_env(p, x);
    let st = Map::<Seq<char>, int>::empty().insert(p.parameter@, x);
    let d = DestinationV::Preferred("%result"@);
    reveal_strlit("%result");
    assert(rho.dom() =~= set![p.parameter@]);
    assert("%result"@[0] == '%');
    assert(!rho.contains_key("%result"@));
    assert(!ast::binders(p.body).contains("%result"@));
    assert forall|q: Seq<char>, k: nat| 0 <= k && q.len() > 0 && q[0] == '%' implies "%result"@ != #[trigger] numbered(q, k) by {
        lemma_result_not_numbered(q, k);
    }
    lemma_flat_value(rho, st, p.body, d, 0);
    let (code, result, _) = flat(p.body, d, 0);
    lemma_chain_value(st, code, ssa::BlockBodyV::Return(result));
}

/// A required destination receives the value of its expression before the code
/// that follows runs: the code of `e` under `Required(dst)` hands on `dst`
/// itself, leaves the value of `e` in it, and the block made of that code and
/// then `next` runs `next` in the store that the code leaves. This holds when the
/// variables' values agree, the `let`s bind distinct source names apart from the
/// environment's, and `dst` is a source name apart from both.
pub proof fn lemma_required_destination(
    rho: Map<Seq<char>, int>,
    st: Map<Seq<char>, int>,
    e: ast::Expression,
    dst: Seq<char>,
    n: nat,
    next: ssa::BlockBodyV,
)
    requires
        ast::well_formed(e),
        ast::scoped(rho.dom(), e),
        ast::unique_binders(e),
        ast::binders(e).disjoint(rho.dom()),
        forall|x: Seq<char>| #[trigger] rho.contains_key(x) ==> st[x] == rho[x] && source_name(x),
        forall|b: Seq<char>| #[trigger] ast::binders(e).contains(b) ==> source_name(b),
        source_name(dst),
        !rho.contains_key(dst),
        !ast::binders(e).contains(dst),
    ensures
        ({
            let (c, i, _) = flat(e, DestinationV::Required(dst), n);
            &&& i == ImmediateV::Var(dst)
            &&& run(st, c)[dst] == ast::eval(rho, e)
            &&& ssa::block_value(st, chain(c, next)) == ssa::block_value(run(st, c), next)
        }),
{
    assert forall|q: Seq<char>, k: nat| n <= k && q.len() > 0 && q[0] == '%' implies dst != #[trigger] numbered(q, k) by {
        lemma_prefix_name(q, k);
    }
    lemma_flat_value(rho, st, e, DestinationV::Required(dst), n);
    let (c, i, _) = flat(e, DestinationV::Required(dst), n);
    lemma_chain_value(st, c, next);
}

proof fn lemma_required_hands_on(e: ast::Expression, dst: Seq<char>, n: nat)
    requires
        ast::well_formed(e),
    ensures
        flat(e, DestinationV::Required(dst), n).1 == ImmediateV::Var(dst),
    decreases e,
{
    if let ast::Expression::Let(x, e1, e2) = e {
        let n1 = flat(*e1, DestinationV::Required(x@), n).2;
        lemma_required_hands_on(*e2, dst, n1);
    }
}

/// Lowering with a continuation and lowering into a destination agree: under
/// a required destination `dst`, the code of `e` followed by what the
/// continuation `k` makes of the immediate it is handed is the code of `e`
/// followed by `k` applied to `dst` itself, for every `k`.
pub proof fn lemma_continuation_meets_destination(
    e: ast::Expression,
    dst: Seq<char>,
    n: nat,
    k: spec_fn(ImmediateV) -> ssa::BlockBodyV,
)
    requires
        ast::well_formed(e),
    ensures
        ({
            let (c, i, _) = flat(e, DestinationV::Required(dst), n);
            chain(c, k(i)) == chain(c, k(ImmediateV::Var(dst)))
        }),
{
    lemma_required_hands_on(e, dst, n);
}

} // verus!
