//! Adder with an input: the expression may read the program's argument,
//! which the compiled code finds in `rdi`.

use vstd::prelude::*;
use crate::text::{int_decimal, push_i64_decimal};
use crate::assembly::{line_effect, lemma_read_operand, lemma_other_prefix, lemma_rendering_start, lemma_one_rendering};

verus! {

#[derive(Debug)]
pub enum Expression {
    Variable(),
    Number(i64),
    Add1(Box<Expression>),
    Sub1(Box<Expression>),
}

/// The value of an expression on input `x`, on unbounded integers.
pub open spec fn value(e: Expression, x: int) -> int
    decreases e,
{
    match e {
        Expression::Variable() => x,
        Expression::Number(n) => n as int,
        Expression::Add1(a) => value(*a, x) + 1,
        Expression::Sub1(a) => value(*a, x) - 1,
    }
}

pub open spec fn fits_i64(v: int) -> bool {
    i64::MIN <= v <= i64::MAX
}

/// On input `x`, the value of `e` and of every subexpression fits in an `i64`.
pub open spec fn no_overflow(e: Expression, x: int) -> bool
    decreases e,
{
    fits_i64(value(e, x)) && match e {
        Expression::Variable() | Expression::Number(_) => true,
        Expression::Add1(a) | Expression::Sub1(a) => no_overflow(*a, x),
    }
}

/// Evaluates `e` on input `x`.
pub fn interpret(e: &Expression, x: i64) -> (r: i64)
    requires
        no_overflow(*e, x as int),
    ensures
        r == value(*e, x as int),
    decreases e,
{
    match e {
        Expression::Variable() => x,
        Expression::Number(n) => *n,
        Expression::Add1(arg) => interpret(arg, x) + 1,
        Expression::Sub1(arg) => interpret(arg, x) - 1,
    }
}

/// The instructions the compilers emit, over `rax` and the input in `rdi`.
pub enum Instr {
    /// `mov rax, rdi`
    MovInput,
    /// `mov rax, n`
    MovConst(i64),
    /// `add rax, 1`
    AddOne,
    /// `sub rax, 1`
    SubOne,
    /// `add rax, n`
    AddConst(i64),
}

/// The value of `rax` after running `code` with the input `rdi`.
pub open spec fn run(rdi: int, code: Seq<Instr>) -> int
    decreases code.len(),
{
    if code.len() == 0 {
        0
    } else {
        let r = match code.last() {
            Instr::MovInput => rdi,
            Instr::MovConst(n) => n as int,
            Instr::AddOne => run(rdi, code.drop_last()) + 1,
            Instr::SubOne => run(rdi, code.drop_last()) - 1,
            Instr::AddConst(n) => run(rdi, code.drop_last()) + n,
        };
        r
    }
}

pub open spec fn instr_line(i: Instr) -> Seq<char> {
    match i {
        Instr::MovInput => "mov rax, rdi\n"@,
        Instr::MovConst(n) => "mov rax, "@ + int_decimal(n as int) + "\n"@,
        Instr::AddOne => "add rax, 1\n"@,
        Instr::SubOne => "sub rax, 1\n"@,
        Instr::AddConst(n) => "add rax, "@ + int_decimal(n as int) + "\n"@,
    }
}

pub open spec fn lines(code: Seq<Instr>) -> Seq<char>
    decreases code.len(),
{
    if code.len() == 0 {
        Seq::empty()
    } else {
        lines(code.drop_last()) + instr_line(code.last())
    }
}

/// The instructions that leave the value of `e` in `rax`.
pub open spec fn instrs(e: Expression) -> Seq<Instr>
    decreases e,
{
    match e {
        Expression::Variable() => seq![Instr::MovInput],
        Expression::Number(n) => seq![Instr::MovConst(n)],
        Expression::Add1(a) => instrs(*a).push(Instr::AddOne),
        Expression::Sub1(a) => instrs(*a).push(Instr::SubOne),
    }
}

pub open spec fn header() -> Seq<char> {
    "        section .text\n        global start_here\n    start_here:\n"@
}

/// The text the compiler prints for `e`.
pub open spec fn compiled_text(e: Expression) -> Seq<char> {
    header() + lines(instrs(e)) + "ret\n"@
}

/// Compiles `e`: the text the compiler prints.
pub fn compile(e: &Expression) -> (s: String)
    ensures
        s@ == compiled_text(*e),
{
    let mut s = String::from_str("        section .text\n        global start_here\n    start_here:\n");
    compile_rec(e, &mut s);
    s.append("ret\n");
    s
}

fn compile_rec(e: &Expression, out: &mut String)
    ensures
        final(out)@ == old(out)@ + lines(instrs(*e)),
    decreases e,
{
    let ghost start = out@;
    match e {
        Expression::Variable() => {
            out.append("mov rax, rdi\n");
            assert(instrs(*e).drop_last() =~= Seq::<Instr>::empty());
            assert(lines(Seq::<Instr>::empty()) == Seq::<char>::empty());
            assert(out@ =~= start + lines(instrs(*e)));
        },
        Expression::Number(n) => {
            out.append("mov rax, ");
            push_i64_decimal(out, *n);
            out.append("\n");
            assert(instrs(*e).drop_last() =~= Seq::<Instr>::empty());
            assert(lines(Seq::<Instr>::empty()) == Seq::<char>::empty());
            assert(out@ =~= start + lines(instrs(*e)));
        },
        Expression::Add1(arg) => {
            compile_rec(arg, out);
            out.append("add rax, 1\n");
            assert(instrs(*e).drop_last() =~= instrs(**arg));
        },
        Expression::Sub1(arg) => {
            compile_rec(arg, out);
            out.append("sub rax, 1\n");
            assert(instrs(*e).drop_last() =~= instrs(**arg));
        },
    }
}

/// What the optimizing compiler finds an expression to be: a constant, or the
/// input plus a constant.
pub enum Optimized {
    Constant,
    InputPlus,
}

/// Whether `e` reads the input.
pub open spec fn reads_input(e: Expression) -> bool
    decreases e,
{
    match e {
        Expression::Variable() => true,
        Expression::Number(_) => false,
        Expression::Add1(a) | Expression::Sub1(a) => reads_input(*a),
    }
}

/// The constant of `e`: its value when it reads no input, what it adds to the
/// input when it does.
pub open spec fn offset(e: Expression) -> int
    decreases e,
{
    match e {
        Expression::Variable() => 0,
        Expression::Number(n) => n as int,
        Expression::Add1(a) => offset(*a) + 1,
        Expression::Sub1(a) => offset(*a) - 1,
    }
}

/// The constant of every subexpression fits in an `i64`.
pub open spec fn offsets_fit(e: Expression) -> bool
    decreases e,
{
    fits_i64(offset(e)) && match e {
        Expression::Variable() | Expression::Number(_) => true,
        Expression::Add1(a) | Expression::Sub1(a) => offsets_fit(*a),
    }
}

fn ocompile_help(e: &Expression) -> (r: (Optimized, i64))
    requires
        offsets_fit(*e),
    ensures
        (r.0 is InputPlus) == reads_input(*e),
        r.1 == offset(*e),
    decreases e,
{
    match e {
        Expression::Variable() => (Optimized::InputPlus, 0),
        Expression::Number(n) => (Optimized::Constant, *n),
        Expression::Add1(arg) => {
            let (flag, n) = ocompile_help(arg);
            (flag, n + 1)
        },
        Expression::Sub1(arg) => {
            let (flag, n) = ocompile_help(arg);
            (flag, n - 1)
        },
    }
}

/// The instructions of the optimizing compiler: a constant is loaded; the
/// input plus a constant is the input, with the constant added unless it is 0.
pub open spec fn optimized_instrs(e: Expression) -> Seq<Instr> {
    if reads_input(e) {
        if offset(e) == 0 {
            seq![Instr::MovInput]
        } else {
            seq![Instr::MovInput, Instr::AddConst(offset(e) as i64)]
        }
    } else {
        seq![Instr::MovConst(offset(e) as i64)]
    }
}

/// The text the optimizing compiler prints for `e`.
pub open spec fn optimized_text(e: Expression) -> Seq<char> {
    header() + lines(optimized_instrs(e)) + "ret\n"@
}

/// Compiles `e` after folding its constants.
pub fn optimized_compile(e: &Expression) -> (s: String)
    requires
        offsets_fit(*e),
    ensures
        s@ == optimized_text(*e),
{
    let mut s = String::from_str("        section .text\n        global start_here\n    start_here:\n");
    let ghost start = s@;
    let (flag, n) = ocompile_help(e);
    let ghost code = optimized_instrs(*e);
    match flag {
        Optimized::Constant => {
            s.append("mov rax, ");
            push_i64_decimal(&mut s, n);
            s.append("\n");
            assert(code =~= seq![Instr::MovConst(n)]);
            assert(code.drop_last() =~= Seq::<Instr>::empty());
            assert(lines(Seq::<Instr>::empty()) == Seq::<char>::empty());
            assert(lines(code) =~= instr_line(Instr::MovConst(n)));
        },
        Optimized::InputPlus => {
            s.append("mov rax, rdi\n");
            if n != 0 {
                s.append("add rax, ");
                push_i64_decimal(&mut s, n);
                s.append("\n");
                assert(code =~= seq![Instr::MovInput, Instr::AddConst(n)]);
                assert(code.drop_last() =~= seq![Instr::MovInput]);
                assert(seq![Instr::MovInput].drop_last() =~= Seq::<Instr>::empty());
                assert(lines(Seq::<Instr>::empty()) == Seq::<char>::empty());
                assert(lines(seq![Instr::MovInput]) =~= instr_line(Instr::MovInput));
                assert(lines(code) =~= instr_line(Instr::MovInput) + instr_line(Instr::AddConst(n)));
            } else {
                assert(code =~= seq![Instr::MovInput]);
                assert(code.drop_last() =~= Seq::<Instr>::empty());
                assert(lines(Seq::<Instr>::empty()) == Seq::<char>::empty());
                assert(lines(code) =~= instr_line(Instr::MovInput));
            }
        },
    }
    assert(s@ =~= start + lines(code));
    s.append("ret\n");
    s
}

/// The compiled code computes what the interpreter computes: on every input
/// in `rdi`, the instructions of `e` leave the value of `e` in `rax`.
pub proof fn lemma_compile_computes_value(e: Expression, x: int)
    ensures
        run(x, instrs(e)) == value(e, x),
    decreases e,
{
    match e {
        Expression::Add1(a) | Expression::Sub1(a) => {
            lemma_compile_computes_value(*a, x);
            assert(instrs(e).drop_last() =~= instrs(*a));
        },
        _ => {},
    }
}

/// Constant folding is sound: an expression that reads no input is its
/// constant, and one that does is the input plus its constant.
pub proof fn lemma_offset_meaning(e: Expression, x: int)
    ensures
        value(e, x) == if reads_input(e) { x + offset(e) } else { offset(e) },
    decreases e,
{
    match e {
        Expression::Add1(a) | Expression::Sub1(a) => lemma_offset_meaning(*a, x),
        _ => {},
    }
}

/// The optimized code computes what the interpreter computes, on every input.
pub proof fn lemma_optimized_computes_value(e: Expression, x: int)
    requires
        offsets_fit(e),
    ensures
        run(x, optimized_instrs(e)) == value(e, x),
{
    lemma_offset_meaning(e, x);
    let code = optimized_instrs(e);
    if reads_input(e) && offset(e) != 0 {
        assert(code.drop_last() =~= seq![Instr::MovInput]);
        assert(seq![Instr::MovInput].drop_last() =~= Seq::<Instr>::empty());
        assert(run(x, seq![Instr::MovInput]) == x);
        assert(code.last() == Instr::AddConst(offset(e) as i64));
    } else {
        assert(code.drop_last() =~= Seq::<Instr>::empty());
    }
}

/// The text of every line the compilers print, read as x86, does what its
/// instruction does: from any `rax` that earlier code leaves, with the input in
/// `rdi`, the line leaves the value that running the instruction gives.
pub proof fn lemma_line_means_instr(code: Seq<Instr>, i: Instr, rdi: int)
    ensures
        line_effect(instr_line(i), rdi, run(rdi, code)) == Some(run(rdi, code.push(i))),
{
    reveal_strlit("mov rax, rdi\n");
    reveal_strlit("mov rax, ");
    reveal_strlit("add rax, ");
    reveal_strlit("sub rax, ");
    reveal_strlit("add rax, 1\n");
    reveal_strlit("sub rax, 1\n");
    reveal_strlit("\n");
    let l = instr_line(i);
    assert(code.push(i).drop_last() =~= code);
    match i {
        Instr::MovInput => {},
        Instr::MovConst(n) => {
            lemma_rendering_start(n as int);
            assert(l[9] == int_decimal(n as int)[0]);
            assert(l != "mov rax, rdi\n"@ ) by {
                assert("mov rax, rdi\n"@[9] == 'r');
            }
            lemma_read_operand("mov rax, "@, n);
        },
        Instr::AddOne => {
            lemma_one_rendering();
            assert(l =~= "add rax, "@ + int_decimal(1) + "\n"@);
            lemma_other_prefix(l, "mov rax, "@);
            lemma_read_operand("add rax, "@, 1);
        },
        Instr::SubOne => {
            lemma_one_rendering();
            assert(l =~= "sub rax, "@ + int_decimal(1) + "\n"@);
            lemma_other_prefix(l, "mov rax, "@);
            lemma_other_prefix(l, "add rax, "@);
            lemma_read_operand("sub rax, "@, 1);
        },
        Instr::AddConst(n) => {
            lemma_rendering_start(n as int);
            lemma_other_prefix(l, "mov rax, "@);
            lemma_read_operand("add rax, "@, n);
        },
    }
}

} // verus!
