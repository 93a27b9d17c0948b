//! Neonate: a program is one integer, compiled to assembly that returns it.

use vstd::prelude::*;
use crate::numeral::{int_error_message, int_error_text, parse_i64_spec, parse_trimmed_i64, trim};
use crate::text::{int_decimal, push_i64_decimal};
use crate::numeral::all_whitespace;
use crate::assembly::{line_effect, lemma_read_indented_mov};

verus! {

/// A Neonate program is the number it returns.
pub type Ast = i64;

/// The number the text writes, once trimmed, or the message of the error.
pub fn parse(input: &str) -> (r: Result<Ast, String>)
    ensures
        match parse_i64_spec(trim(input@)) {
            Ok(v) => r == Ok::<i64, String>(v as i64),
            Err(k) => r is Err && r->Err_0@ == int_error_text(k),
        },
{
    match parse_trimmed_i64(input) {
        Ok(input) => Ok(input),
        Err(e) => Err(int_error_message(e)),
    }
}

/// The assembly of a program that returns `n`.
pub open spec fn assembly_text(n: int) -> Seq<char> {
    "section .text\n    global start_here\nstart_here:\n    mov rax, "@ + int_decimal(n) + "\n    ret"@
}

/// Compiles the program `n` to assembly whose `start_here` returns `n` in `rax`.
pub fn compile(n: Ast) -> (s: String)
    ensures
        s@ == assembly_text(n as int),
{
    let mut s = String::from_str("section .text\n    global start_here\nstart_here:\n    mov rax, ");
    push_i64_decimal(&mut s, n);
    s.append("\n    ret");
    s
}

/// The listing the second Neonate compiler prints for `n`.
pub open spec fn listing_text(n: int) -> Seq<char> {
    "        section .text\n        global start_here\nstart_here:\n        mov rax, "@ + int_decimal(n)
        + "\n        ret"@
}

/// The listing the second Neonate compiler prints: the same program, indented.
pub fn compile_listing(n: Ast) -> (s: String)
    ensures
        s@ == listing_text(n as int),
{
    let mut s = String::from_str("        section .text\n        global start_here\nstart_here:\n        mov rax, ");
    push_i64_decimal(&mut s, n);
    s.append("\n        ret");
    s
}

/// The program `compile` prints is its header, one line that loads `n` into
/// `rax` whatever `rax` and `rdi` held, and the return; so is the listing.
pub proof fn lemma_program_loads_number(n: i64, rax: int, rdi: int)
    ensures
        ({
            let t = assembly_text(n as int);
            let head = "section .text\n    global start_here\nstart_here:\n"@;
            let tail = "    ret"@;
            &&& t.len() >= head.len() + tail.len()
            &&& t.take(head.len() as int) == head
            &&& t.skip(t.len() - tail.len()) == tail
            &&& line_effect(t.subrange(head.len() as int, t.len() - tail.len()), rdi, rax) == Some(n as int)
        }),
        ({
            let t = listing_text(n as int);
            let head = "        section .text\n        global start_here\nstart_here:\n"@;
            let tail = "        ret"@;
            &&& t.len() >= head.len() + tail.len()
            &&& t.take(head.len() as int) == head
            &&& t.skip(t.len() - tail.len()) == tail
            &&& line_effect(t.subrange(head.len() as int, t.len() - tail.len()), rdi, rax) == Some(n as int)
        }),
{
    reveal_strlit("section .text\n    global start_here\nstart_here:\n    mov rax, ");
    reveal_strlit("section .text\n    global start_here\nstart_here:\n");
    reveal_strlit("\n    ret");
    reveal_strlit("    ret");
    reveal_strlit("        section .text\n        global start_here\nstart_here:\n        mov rax, ");
    reveal_strlit("        section .text\n        global start_here\nstart_here:\n");
    reveal_strlit("\n        ret");
    reveal_strlit("        ret");
    reveal_strlit("    ");
    reveal_strlit("        ");
    reveal_strlit("mov rax, ");
    reveal_strlit("\n");
    let d = int_decimal(n as int);
    let w4 = "    "@;
    let w8 = "        "@;
    assert(all_whitespace(w4));
    assert(all_whitespace(w8));
    let t = assembly_text(n as int);
    let head = "section .text\n    global start_here\nstart_here:\n"@;
    let tail = "    ret"@;
    let line = w4 + "mov rax, "@ + d + "\n"@;
    assert(t =~= head + line + tail);
    assert(t.take(head.len() as int) =~= head);
    assert(t.skip(t.len() - tail.len()) =~= tail);
    assert(t.subrange(head.len() as int, t.len() - tail.len()) =~= line);
    lemma_read_indented_mov(w4, n, rdi, rax);
    let t2 = listing_text(n as int);
    let head2 = "        section .text\n        global start_here\nstart_here:\n"@;
    let tail2 = "        ret"@;
    let line2 = w8 + "mov rax, "@ + d + "\n"@;
    assert(t2 =~= head2 + line2 + tail2);
    assert(t2.take(head2.len() as int) =~= head2);
    assert(t2.skip(t2.len() - tail2.len()) =~= tail2);
    assert(t2.subrange(head2.len() as int, t2.len() - tail2.len()) =~= line2);
    lemma_read_indented_mov(w8, n, rdi, rax);
}

} // verus!
