//! How a line of the x86 that the compilers print acts on `rax`, read from
//! its text: the mnemonic, the register `rdi` or a decimal operand.

use vstd::prelude::*;
use crate::numeral::{all_whitespace, lemma_nat_decimal_ends, lemma_parse_rendering, lemma_trim_start_padded, parse_i64_spec, trim_start};
use crate::text::{int_decimal, nat_decimal};

verus! {

/// The number that `line` writes after `prefix` and before its final line
/// break, if it is `prefix`, a decimal integer and `\n`.
pub open spec fn operand_of(line: Seq<char>, prefix: Seq<char>) -> Option<int> {
    if line.len() > prefix.len() && line.take(prefix.len() as int) == prefix && line.last() == '\n' {
        match parse_i64_spec(line.subrange(prefix.len() as int, line.len() - 1)) {
            Ok(v) => Some(v),
            Err(_) => None,
        }
    } else {
        None
    }
}

/// The value of `rax` after the line, indentation aside, runs from `rax` with
/// the input in `rdi`: `mov rax, rdi`, `mov rax, n`, `add rax, n` and
/// `sub rax, n`; `None` for any other text.
pub open spec fn line_effect(line: Seq<char>, rdi: int, rax: int) -> Option<int> {
    let l = trim_start(line);
    if l == "mov rax, rdi\n"@ {
        Some(rdi)
    } else if operand_of(l, "mov rax, "@) is Some {
        operand_of(l, "mov rax, "@)
    } else if operand_of(l, "add rax, "@) is Some {
        Some(rax + operand_of(l, "add rax, "@)->0)
    } else if operand_of(l, "sub rax, "@) is Some {
        Some(rax - operand_of(l, "sub rax, "@)->0)
    } else {
        None
    }
}

/// `prefix`, the rendering of `n` and a line break read as `prefix` and `n`.
pub proof fn lemma_read_operand(prefix: Seq<char>, n: i64)
    ensures
        operand_of(prefix + int_decimal(n as int) + "\n"@, prefix) == Some(n as int),
{
    reveal_strlit("\n");
    let d = int_decimal(n as int);
    let l = prefix + d + "\n"@;
    if n < 0 {
        lemma_nat_decimal_ends((-n) as nat);
    } else {
        lemma_nat_decimal_ends(n as nat);
    }
    assert(d.len() >= 1);
    assert(l.take(prefix.len() as int) =~= prefix);
    assert(l.subrange(prefix.len() as int, l.len() - 1) =~= d);
    lemma_parse_rendering(n);
}

/// A line whose first character differs from that of `prefix` does not start
/// with `prefix`.
pub proof fn lemma_other_prefix(line: Seq<char>, prefix: Seq<char>)
    requires
        line.len() > 0,
        prefix.len() > 0,
        line[0] != prefix[0],
    ensures
        operand_of(line, prefix) is None,
{
    if line.len() > prefix.len() {
        assert(line.take(prefix.len() as int)[0] == line[0]);
    }
}

/// A rendering of an integer starts with a digit or `-`.
pub proof fn lemma_rendering_start(n: int)
    ensures
        int_decimal(n).len() > 0,
        int_decimal(n)[0] == '-' || ('0' <= int_decimal(n)[0] && int_decimal(n)[0] <= '9'),
{
    if n < 0 {
        lemma_nat_decimal_ends((-n) as nat);
    } else {
        lemma_nat_decimal_ends(n as nat);
    }
}

/// `1` is the rendering of one.
pub proof fn lemma_one_rendering()
    ensures
        "1"@ == int_decimal(1),
{
    reveal_strlit("1");
    assert(nat_decimal(1) =~= seq!['1']);
}

/// An indented `mov rax, n` line loads `n`, whatever `rax` and `rdi` held.
pub proof fn lemma_read_indented_mov(indent: Seq<char>, n: i64, rdi: int, rax: int)
    requires
        all_whitespace(indent),
    ensures
        line_effect(indent + "mov rax, "@ + int_decimal(n as int) + "\n"@, rdi, rax) == Some(n as int),
{
    reveal_strlit("mov rax, ");
    reveal_strlit("mov rax, rdi\n");
    reveal_strlit("\n");
    let d = int_decimal(n as int);
    let l = "mov rax, "@ + d + "\n"@;
    assert(indent + "mov rax, "@ + d + "\n"@ =~= indent + l);
    lemma_trim_start_padded(indent, l);
    lemma_rendering_start(n as int);
    assert(l[9] == d[0]);
    assert(l != "mov rax, rdi\n"@) by {
        assert("mov rax, rdi\n"@[9] == 'r');
    }
    lemma_read_operand("mov rax, "@, n);
}

} // verus!
