//! Adder: numbers with `add1` and `sub1`, an interpreter, and compilers to
//! x86-64 assembly that leaves the value in `rax`.

use vstd::prelude::*;
use crate::text::{int_decimal, push_i64_decimal};
use crate::assembly::{line_effect, lemma_read_operand, lemma_other_prefix, lemma_rendering_start, lemma_one_rendering};

verus! {

#[derive(Debug)]
pub enum Expression {
    Number(i64),
    Add1(Box<Expression>),
    Sub1(Box<Expression>),
}

/// The value of an expression, on unbounded integers.
pub open spec fn value(e: Expression) -> int
    decreases e,
{
    match e {
        Expression::Number(n) => n as int,
        Expression::Add1(a) => value(*a) + 1,
        Expression::Sub1(a) => value(*a) - 1,
    }
}

pub open spec fn fits_i64(v: int) -> bool {
    i64::MIN <= v <= i64::MAX
}

/// The value of `e` and of every subexpression fits in an `i64`.
pub open spec fn no_overflow(e: Expression) -> bool
    decreases e,
{
    fits_i64(value(e)) && match e {
        Expression::Number(_) => true,
        Expression::Add1(a) | Expression::Sub1(a) => no_overflow(*a),
    }
}

/// Evaluates `e`.
pub fn interpret(e: &Expression) -> (r: i64)
    requires
        no_overflow(*e),
    ensures
        r == value(*e),
    decreases e,
{
    match e {
        Expression::Number(n) => *n,
        Expression::Add1(e) => interpret(e) + 1,
        Expression::Sub1(e) => interpret(e) - 1,
    }
}

/// The instructions the compilers emit, over the register `rax`.
pub enum Instr {
    /// `mov rax, n`
    MovConst(i64),
    /// `add rax, 1`
    AddOne,
    /// `sub rax, 1`
    SubOne,
}

/// The instructions that leave the value of `e` in `rax`: the number, then
/// each `add1` and `sub1` from the innermost out.
pub open spec fn instrs(e: Expression) -> Seq<Instr>
    decreases e,
{
    match e {
        Expression::Number(n) => seq![Instr::MovConst(n)],
        Expression::Add1(a) => instrs(*a).push(Instr::AddOne),
        Expression::Sub1(a) => instrs(*a).push(Instr::SubOne),
    }
}

/// The value of `rax` after running `code` from `rax`, on unbounded integers.
pub open spec fn run(rax: int, code: Seq<Instr>) -> int
    decreases code.len(),
{
    if code.len() == 0 {
        rax
    } else {
        let r = match code.last() {
            Instr::MovConst(n) => n as int,
            Instr::AddOne => run(rax, code.drop_last()) + 1,
            Instr::SubOne => run(rax, code.drop_last()) - 1,
        };
        r
    }
}

/// One line of assembly, with its line break.
pub open spec fn instr_line(i: Instr) -> Seq<char> {
    match i {
        Instr::MovConst(n) => "mov rax, "@ + int_decimal(n as int) + "\n"@,
        Instr::AddOne => "add rax, 1\n"@,
        Instr::SubOne => "sub rax, 1\n"@,
    }
}

pub open spec fn lines(code: Seq<Instr>) -> Seq<char>
    decreases code.len(),
{
    if code.len() == 0 {
        Seq::empty()
    } else {
        lines(code.drop_last()) + instr_line(code.last())
    }
}

/// The text the compiler prints for `e`.
pub open spec fn compiled_text(e: Expression) -> Seq<char> {
    "        section .text\n        global start_here\nstart_here:\n"@ + lines(instrs(e)) + "ret\n"@
}

/// Compiles `e` to x86 code that places its value in `rax`: the text the
/// compiler prints.
pub fn compile(e: &Expression) -> (s: String)
    ensures
        s@ == compiled_text(*e),
{
    let mut s = String::from_str("        section .text\n        global start_here\nstart_here:\n");
    compiler_helper(e, &mut s);
    s.append("ret\n");
    s
}

fn compiler_helper(e: &Expression, out: &mut String)
    ensures
        final(out)@ == old(out)@ + lines(instrs(*e)),
    decreases e,
{
    match e {
        Expression::Number(n) => {
            let ghost start = out@;
            out.append("mov rax, ");
            push_i64_decimal(out, *n);
            out.append("\n");
            assert(instrs(*e).drop_last() =~= Seq::<Instr>::empty());
            assert(lines(Seq::<Instr>::empty()) == Seq::<char>::empty());
            assert(lines(instrs(*e)) =~= instr_line(Instr::MovConst(*n)));
            assert(out@ =~= start + lines(instrs(*e)));
        },
        Expression::Add1(a) => {
            compiler_helper(a, out);
            out.append("add rax, 1\n");
            assert(instrs(*e).drop_last() =~= instrs(**a));
        },
        Expression::Sub1(a) => {
            compiler_helper(a, out);
            out.append("sub rax, 1\n");
            assert(instrs(*e).drop_last() =~= instrs(**a));
        },
    }
}

/// The text the optimizing compiler prints for `e`.
pub open spec fn optimized_text(e: Expression) -> Seq<char> {
    "        section .text\n        global start_here\nstart_here:\n    mov rax, "@ + int_decimal(value(e))
        + "\n    ret\n"@
}

/// Compiles `e` to one instruction that loads its value, computed now.
pub fn optimized_compile(e: &Expression) -> (s: String)
    requires
        no_overflow(*e),
    ensures
        s@ == optimized_text(*e),
{
    let mut s = String::from_str("        section .text\n        global start_here\nstart_here:\n    mov rax, ");
    push_i64_decimal(&mut s, interpret(e));
    s.append("\n    ret\n");
    s
}

/// The compiled code computes what the interpreter computes: running the
/// instructions of `e`, from any `rax`, leaves the value of `e` in `rax`.
pub proof fn lemma_compile_computes_value(e: Expression, rax: int)
    ensures
        run(rax, instrs(e)) == value(e),
    decreases e,
{
    match e {
        Expression::Number(n) => {},
        Expression::Add1(a) => {
            lemma_compile_computes_value(*a, rax);
            assert(instrs(e).drop_last() =~= instrs(*a));
        },
        Expression::Sub1(a) => {
            lemma_compile_computes_value(*a, rax);
            assert(instrs(e).drop_last() =~= instrs(*a));
        },
    }
}

/// The text of every line the compiler prints, read as x86, does what its
/// instruction does: from the `rax` that earlier code leaves, the line leaves
/// the value that running the instruction gives.
pub proof fn lemma_line_means_instr(code: Seq<Instr>, i: Instr, rax: int, rdi: int)
    ensures
        line_effect(instr_line(i), rdi, run(rax, code)) == Some(run(rax, code.push(i))),
{
    reveal_strlit("mov rax, rdi\n");
    reveal_strlit("mov rax, ");
    reveal_strlit("add rax, ");
    reveal_strlit("sub rax, ");
    reveal_strlit("add rax, 1\n");
    reveal_strlit("sub rax, 1\n");
    reveal_strlit("\n");
    let l = instr_line(i);
    assert(code.push(i).drop_last() =~= code);
    match i {
        Instr::MovConst(n) => {
            lemma_rendering_start(n as int);
            assert(l[9] == int_decimal(n as int)[0]);
            assert(l != "mov rax, rdi\n"@ ) by {
                assert("mov rax, rdi\n"@[9] == 'r');
            }
            lemma_read_operand("mov rax, "@, n);
        },
        Instr::AddOne => {
            lemma_one_rendering();
            assert(l =~= "add rax, "@ + int_decimal(1) + "\n"@);
            lemma_other_prefix(l, "mov rax, "@);
            lemma_read_operand("add rax, "@, 1);
        },
        Instr::SubOne => {
            lemma_one_rendering();
            assert(l =~= "sub rax, "@ + int_decimal(1) + "\n"@);
            lemma_other_prefix(l, "mov rax, "@);
            lemma_other_prefix(l, "add rax, "@);
            lemma_read_operand("sub rax, "@, 1);
        },
    }
}

/// The optimizing compiler's program is its header, one line that loads the
/// value of `e` into `rax` whatever `rax` and `rdi` held, and the return.
pub proof fn lemma_optimized_line_loads_value(e: Expression, rax: int, rdi: int)
    requires
        no_overflow(e),
    ensures
        ({
            let t = optimized_text(e);
            let head = "        section .text\n        global start_here\nstart_here:\n"@;
            let tail = "    ret\n"@;
            &&& t.len() >= head.len() + tail.len()
            &&& t.take(head.len() as int) == head
            &&& t.skip(t.len() - tail.len()) == tail
            &&& line_effect(t.subrange(head.len() as int, t.len() - tail.len()), rdi, rax) == Some(value(e))
        }),
{
    reveal_strlit("        section .text\n        global start_here\nstart_here:\n    mov rax, ");
    reveal_strlit("        section .text\n        global start_here\nstart_here:\n");
    reveal_strlit("\n    ret\n");
    reveal_strlit("    ret\n");
    reveal_strlit("    mov rax, ");
    reveal_strlit("   mov rax, ");
    reveal_strlit("  mov rax, ");
    reveal_strlit(" mov rax, ");
    reveal_strlit("mov rax, ");
    reveal_strlit("mov rax, rdi\n");
    reveal_strlit("\n");
    let v = value(e) as i64;
    let d = int_decimal(value(e));
    let t = optimized_text(e);
    let head = "        section .text\n        global start_here\nstart_here:\n"@;
    let tail = "    ret\n"@;
    let line = "    mov rax, "@ + d + "\n"@;
    assert(t =~= head + line + tail);
    assert(t.take(head.len() as int) =~= head);
    assert(t.skip(t.len() - tail.len()) =~= tail);
    assert(t.subrange(head.len() as int, t.len() - tail.len()) =~= line);
    let l = "mov rax, "@ + d + "\n"@;
    assert(crate::numeral::trim_start(line) == l) by {
        reveal_with_fuel(crate::numeral::trim_start, 6);
        assert(l[0] == 'm');
        assert(line.drop_first() =~= "   mov rax, "@ + d + "\n"@);
        assert(line.drop_first().drop_first() =~= "  mov rax, "@ + d + "\n"@);
        assert(line.drop_first().drop_first().drop_first() =~= " mov rax, "@ + d + "\n"@);
        assert(line.drop_first().drop_first().drop_first().drop_first() =~= l);
    }
    lemma_rendering_start(value(e));
    assert(l[9] == d[0]);
    assert(l != "mov rax, rdi\n"@) by {
        assert("mov rax, rdi\n"@[9] == 'r');
    }
    lemma_read_operand("mov rax, "@, v);
}

} // verus!
