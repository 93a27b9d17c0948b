//! Target syntax: a program of one parameter whose entry block is a chain of
//! operations, each stored into a destination, ending in a return.

use vstd::prelude::*;

verus! {

/// A program has a single input parameter, and a block of straight-line code to execute.
#[derive(Debug, PartialEq, Eq)]
pub struct Program {
    pub param: String,
    pub entry: BlockBody,
}

#[derive(Debug, PartialEq, Eq)]
pub enum BlockBody {
    Return(Immediate),
    Operation { dest: String, op: Operation, next: Box<BlockBody> },
}

#[derive(Clone, Debug, PartialEq, Eq)]
pub enum Operation {
    Immediate(Immediate),
    Prim(Prim, Immediate, Immediate),
}

#[derive(Clone, Copy, Debug, PartialEq, Eq)]
pub enum Prim {
    // binary
    Add,
    Sub,
    Mul,
}

#[derive(Clone, Debug, PartialEq, Eq)]
pub enum Immediate {
    Const(i64),
    Var(String),
}

/// An immediate, with a variable taken by its characters.
pub enum ImmediateV {
    Const(i64),
    Var(Seq<char>),
}

/// An operation, with its variables taken by their characters.
pub enum OperationV {
    Immediate(ImmediateV),
    Prim(Prim, ImmediateV, ImmediateV),
}

/// A block, with its names taken by their characters.
pub enum BlockBodyV {
    Return(ImmediateV),
    Operation { dest: Seq<char>, op: OperationV, next: Box<BlockBodyV> },
}

/// One operation of straight-line code and the name that it defines.
pub type Instr = (Seq<char>, OperationV);

impl View for Immediate {
    type V = ImmediateV;

    open spec fn view(&self) -> ImmediateV {
        match self {
            Immediate::Const(n) => ImmediateV::Const(*n),
            Immediate::Var(x) => ImmediateV::Var(x@),
        }
    }
}

impl View for Operation {
    type V = OperationV;

    open spec fn view(&self) -> OperationV {
        match self {
            Operation::Immediate(i) => OperationV::Immediate(i@),
            Operation::Prim(p, a, b) => OperationV::Prim(*p, a@, b@),
        }
    }
}

/// The view of a block.
pub open spec fn body_view(b: BlockBody) -> BlockBodyV
    decreases b,
{
    match b {
        BlockBody::Return(i) => BlockBodyV::Return(i@),
        BlockBody::Operation { dest, op, next } => BlockBodyV::Operation {
            dest: dest@,
            op: op@,
            next: Box::new(body_view(*next)),
        },
    }
}

impl View for BlockBody {
    type V = BlockBodyV;

    open spec fn view(&self) -> BlockBodyV {
        body_view(*self)
    }
}

/// The block that runs `code` in order and then goes on as `tail`.
pub open spec fn chain(code: Seq<Instr>, tail: BlockBodyV) -> BlockBodyV
    decreases code.len(),
{
    if code.len() == 0 {
        tail
    } else {
        BlockBodyV::Operation {
            dest: code[0].0,
            op: code[0].1,
            next: Box::new(chain(code.drop_first(), tail)),
        }
    }
}

/// The code that a vector of named operations holds.
pub open spec fn code_view(v: Seq<(String, Operation)>) -> Seq<Instr> {
    v.map_values(|p: (String, Operation)| (p.0@, p.1@))
}

/// Builds the block that runs `code` in order and then returns `result`.
pub fn build_block(code: Vec<(String, Operation)>, result: Immediate) -> (b: BlockBody)
    ensures
        b@ == chain(code_view(code@), BlockBodyV::Return(result@)),
{
    let mut code = code;
    let ghost all = code_view(code@);
    let mut body = BlockBody::Return(result);
    assert(all.skip(all.len() as int) =~= Seq::<Instr>::empty());
    assert(all.take(all.len() as int) =~= all);
    while code.len() > 0
        invariant
            code@.len() <= all.len(),
            code_view(code@) == all.take(code@.len() as int),
            body@ == chain(all.skip(code@.len() as int), BlockBodyV::Return(result@)),
        decreases code.len(),
    {
        let ghost k = code@.len() as int;
        let ghost before = code@;
        let (dest, op) = code.pop().unwrap();
        proof {
            assert(code_view(before)[k - 1] == all.take(k)[k - 1]);
            assert(all[k - 1] == (dest@, op@));
            assert(all.skip(k - 1).drop_first() =~= all.skip(k));
            assert(all.skip(k - 1)[0] == all[k - 1]);
            assert(code_view(code@) =~= all.take(code@.len() as int));
        }
        body = BlockBody::Operation { dest, op, next: Box::new(body) };
    }
    assert(all.skip(0) =~= all);
    body
}

// ------------------------------------------------------------------ meaning

/// The value of an immediate in a store of variables.
pub open spec fn imm_value(st: Map<Seq<char>, int>, i: ImmediateV) -> int {
    match i {
        ImmediateV::Const(c) => c as int,
        ImmediateV::Var(v) => st[v],
    }
}

/// The value an operation computes, on unbounded integers.
pub open spec fn op_value(st: Map<Seq<char>, int>, o: OperationV) -> int {
    match o {
        OperationV::Immediate(i) => imm_value(st, i),
        OperationV::Prim(Prim::Add, a, b) => imm_value(st, a) + imm_value(st, b),
        OperationV::Prim(Prim::Sub, a, b) => imm_value(st, a) - imm_value(st, b),
        OperationV::Prim(Prim::Mul, a, b) => imm_value(st, a) * imm_value(st, b),
    }
}

/// The store after one operation.
pub open spec fn step(st: Map<Seq<char>, int>, ins: Instr) -> Map<Seq<char>, int> {
    st.insert(ins.0, op_value(st, ins.1))
}

/// The store after running `code` in order.
pub open spec fn run(st: Map<Seq<char>, int>, code: Seq<Instr>) -> Map<Seq<char>, int>
    decreases code.len(),
{
    if code.len() == 0 {
        st
    } else {
        run(step(st, code[0]), code.drop_first())
    }
}

/// The value a block returns when it starts in store `st`.
pub open spec fn block_value(st: Map<Seq<char>, int>, b: BlockBodyV) -> int
    decreases b,
{
    match b {
        BlockBodyV::Return(i) => imm_value(st, i),
        BlockBodyV::Operation { dest, op, next } => block_value(st.insert(dest, op_value(st, op)), *next),
    }
}

/// The value a program returns on input `x`.
pub open spec fn program_value(param: Seq<char>, entry: BlockBodyV, x: int) -> int {
    block_value(Map::empty().insert(param, x), entry)
}

/// The names a block assigns, in order.
pub open spec fn block_dests(b: BlockBodyV) -> Seq<Seq<char>>
    decreases b,
{
    match b {
        BlockBodyV::Return(_) => Seq::empty(),
        BlockBodyV::Operation { dest, op, next } => seq![dest] + block_dests(*next),
    }
}

/// Running two pieces of code one after the other.
pub proof fn lemma_run_append(st: Map<Seq<char>, int>, a: Seq<Instr>, b: Seq<Instr>)
    ensures
        run(st, a + b) == run(run(st, a), b),
    decreases a.len(),
{
    if a.len() == 0 {
        assert(a + b =~= b);
    } else {
        assert((a + b).drop_first() =~= a.drop_first() + b);
        lemma_run_append(step(st, a[0]), a.drop_first(), b);
    }
}

/// Running code and then one more operation.
pub proof fn lemma_run_push(st: Map<Seq<char>, int>, a: Seq<Instr>, ins: Instr)
    ensures
        run(st, a.push(ins)) == step(run(st, a), ins),
{
    assert(a.push(ins) =~= a + seq![ins]);
    lemma_run_append(st, a, seq![ins]);
    let s1 = run(st, a);
    assert(seq![ins].drop_first() =~= Seq::<Instr>::empty());
    assert(seq![ins][0] == ins);
    assert(run(step(s1, ins), Seq::<Instr>::empty()) == step(s1, ins));
}

/// Code leaves alone every name it does not assign.
pub proof fn lemma_run_frame(st: Map<Seq<char>, int>, code: Seq<Instr>, v: Seq<char>)
    requires
        forall|j: int| 0 <= j < code.len() ==> (#[trigger] code[j]).0 != v,
    ensures
        run(st, code)[v] == st[v],
    decreases code.len(),
{
    if code.len() > 0 {
        assert(code[0].0 != v);
        assert forall|j: int| 0 <= j < code.drop_first().len() implies (#[trigger] code.drop_first()[j]).0 != v by {
            assert(code.drop_first()[j] == code[j + 1]);
        }
        lemma_run_frame(step(st, code[0]), code.drop_first(), v);
    }
}

/// A block built from code returns what its tail returns after the code ran.
pub proof fn lemma_chain_value(st: Map<Seq<char>, int>, code: Seq<Instr>, tail: BlockBodyV)
    ensures
        block_value(st, chain(code, tail)) == block_value(run(st, code), tail),
    decreases code.len(),
{
    if code.len() > 0 {
        lemma_chain_value(step(st, code[0]), code.drop_first(), tail);
    }
}

/// A block built from code assigns the names the code assigns.
pub proof fn lemma_chain_dests(code: Seq<Instr>, i: ImmediateV)
    ensures
        block_dests(chain(code, BlockBodyV::Return(i))) == code.map_values(|ins: Instr| ins.0),
    decreases code.len(),
{
    if code.len() > 0 {
        lemma_chain_dests(code.drop_first(), i);
        assert(code.map_values(|ins: Instr| ins.0) =~= seq![code[0].0] + code.drop_first().map_values(|ins: Instr| ins.0));
    } else {
        assert(code.map_values(|ins: Instr| ins.0) =~= Seq::<Seq<char>>::empty());
    }
}

} // verus!
