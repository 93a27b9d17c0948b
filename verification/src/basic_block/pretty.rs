//! Text rendering of SSA programs, one operation per line:
//!
//! ```text
//! entry(x):
//!   %result = add x 1
//!   ret %result
//! ```

use vstd::prelude::*;
use crate::text::{int_decimal, push_i64_decimal};
use crate::numeral::{lemma_parse_rendering, parse_i64_spec, IntErrorKind};
use super::ssa::{imm_value, op_value, BlockBody, BlockBodyV, Immediate, ImmediateV, Operation, OperationV, Prim, Program};

verus! {

pub open spec fn immediate_text(i: ImmediateV) -> Seq<char> {
    match i {
        ImmediateV::Const(c) => int_decimal(c as int),
        ImmediateV::Var(v) => v,
    }
}

pub open spec fn prim_text(p: Prim) -> Seq<char> {
    match p {
        Prim::Add => "add"@,
        Prim::Sub => "sub"@,
        Prim::Mul => "mul"@,
    }
}

pub open spec fn operation_text(o: OperationV) -> Seq<char> {
    match o {
        OperationV::Immediate(i) => immediate_text(i),
        OperationV::Prim(p, a, b) => prim_text(p) + " "@ + immediate_text(a) + " "@ + immediate_text(b),
    }
}

/// `n` levels of indentation, two spaces each.
pub open spec fn indent_text(n: nat) -> Seq<char>
    decreases n,
{
    if n == 0 {
        Seq::empty()
    } else {
        indent_text((n - 1) as nat) + "  "@
    }
}

/// Each line of the block, indented by `n` levels: `dest = op` for an
/// operation, `ret imm` for the return.
pub open spec fn block_text(n: nat, b: BlockBodyV) -> Seq<char>
    decreases b,
{
    match b {
        BlockBodyV::Return(i) => indent_text(n) + "ret "@ + immediate_text(i),
        BlockBodyV::Operation { dest, op, next } => indent_text(n) + dest + " = "@ + operation_text(op) + "\n"@
            + block_text(n, *next),
    }
}

/// `entry(param):` and then the entry block, one level in.
pub open spec fn program_text(param: Seq<char>, entry: BlockBodyV) -> Seq<char> {
    "entry("@ + param + "):\n"@ + block_text(1, entry)
}

impl Immediate {
    pub fn render(&self, out: &mut String)
        ensures
            final(out)@ == old(out)@ + immediate_text(self@),
    {
        match self {
            Immediate::Const(c) => push_i64_decimal(out, *c),
            Immediate::Var(v) => out.append(v.as_str()),
        }
    }
}

impl Prim {
    pub fn render(&self, out: &mut String)
        ensures
            final(out)@ == old(out)@ + prim_text(*self),
    {
        match self {
            Prim::Add => out.append("add"),
            Prim::Sub => out.append("sub"),
            Prim::Mul => out.append("mul"),
        }
    }
}

impl Operation {
    pub fn render(&self, out: &mut String)
        ensures
            final(out)@ == old(out)@ + operation_text(self@),
    {
        match self {
            Operation::Immediate(imm) => imm.render(out),
            Operation::Prim(prim, imm1, imm2) => {
                let ghost start = out@;
                prim.render(out);
                out.append(" ");
                imm1.render(out);
                out.append(" ");
                imm2.render(out);
                assert(out@ =~= start + operation_text(self@));
            },
        }
    }
}

fn render_indent(n: usize, out: &mut String)
    ensures
        final(out)@ == old(out)@ + indent_text(n as nat),
{
    let ghost start = out@;
    let mut i: usize = 0;
    assert(out@ =~= start + indent_text(0));
    while i < n
        invariant
            i <= n,
            out@ == start + indent_text(i as nat),
        decreases n - i,
    {
        out.append("  ");
        i = i + 1;
        assert(out@ =~= start + indent_text(i as nat));
    }
}

impl BlockBody {
    /// Renders every line of the block, indented by `indent` levels.
    pub fn render(&self, indent: usize, out: &mut String)
        ensures
            final(out)@ == old(out)@ + block_text(indent as nat, self@),
        decreases self,
    {
        let ghost start = out@;
        render_indent(indent, out);
        match self {
            BlockBody::Return(imm) => {
                out.append("ret ");
                imm.render(out);
                assert(out@ =~= start + block_text(indent as nat, self@));
            },
            BlockBody::Operation { dest, op, next } => {
                out.append(dest.as_str());
                out.append(" = ");
                op.render(out);
                out.append("\n");
                let ghost before_next = out@;
                next.render(indent, out);
                assert(out@ =~= start + block_text(indent as nat, self@));
            },
        }
    }
}

impl Program {
    /// The text of the program, as `Display` shows it.
    pub fn to_text(&self) -> (s: String)
        ensures
            s@ == program_text(self.param@, self.entry@),
    {
        let mut out = String::from_str("entry(");
        out.append(self.param.as_str());
        out.append("):\n");
        self.entry.render(1, &mut out);
        assert(out@ =~= program_text(self.param@, self.entry@));
        out
    }
}

// ------------------------------------------------------------------- laws

/// The printed mnemonic of a primitive names what it computes: every
/// primitive prints as `add`, `sub` or `mul`, and an operation printed with
/// `add` computes the sum of its operands, with `sub` their difference, with
/// `mul` their product. So different primitives print differently.
pub proof fn lemma_mnemonics_mean_primitives(p: Prim, q: Prim, st: Map<Seq<char>, int>, a: ImmediateV, b: ImmediateV)
    ensures
        prim_text(p) == "add"@ || prim_text(p) == "sub"@ || prim_text(p) == "mul"@,
        prim_text(p) == "add"@ ==> op_value(st, OperationV::Prim(p, a, b)) == imm_value(st, a) + imm_value(st, b),
        prim_text(p) == "sub"@ ==> op_value(st, OperationV::Prim(p, a, b)) == imm_value(st, a) - imm_value(st, b),
        prim_text(p) == "mul"@ ==> op_value(st, OperationV::Prim(p, a, b)) == imm_value(st, a) * imm_value(st, b),
        prim_text(p) == prim_text(q) ==> p == q,
{
    reveal_strlit("add");
    reveal_strlit("sub");
    reveal_strlit("mul");
    assert("add"@[0] != "sub"@[0] && "add"@[0] != "mul"@[0] && "sub"@[0] != "mul"@[0]);
}

/// A constant prints as the decimal text that reads back to it.
pub proof fn lemma_constant_reads_back(c: i64)
    ensures
        parse_i64_spec(immediate_text(ImmediateV::Const(c))) == Ok::<int, IntErrorKind>(c as int),
{
    lemma_parse_rendering(c);
}

} // verus!
