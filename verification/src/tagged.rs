//! The tagged encoding of snake values in a 64-bit word: an integer `n` is
//! `n << 1` (low bit 0), `true` is `0b101` and `false` is `0b001`.

use vstd::prelude::*;
use crate::numeral::{lemma_nat_decimal_ends, lemma_parse_rendering, parse_i64, parse_i64_spec, str_equals};
use crate::text::{int_decimal, push_i64_decimal};

verus! {

/// A snake value as the compiled code passes it: a tagged 64-bit word.
#[derive(PartialEq, Eq, Copy, Clone, Debug, Structural)]
pub struct SnakeVal(pub u64);

/// The tag bit of integers.
pub const INT_TAG: u64 = 0x00_00_00_00_00_00_00_01;

/// The word of `true`.
pub const SNAKE_TRU: u64 = 0b101;

/// The word of `false`.
pub const SNAKE_FLS: u64 = 0b001;

/// The integer whose two's complement bits are those of `x`.
pub open spec fn signed_value(x: u64) -> int {
    if x < 0x8000_0000_0000_0000 {
        x as int
    } else {
        x as int - 0x1_0000_0000_0000_0000
    }
}

/// The word whose two's complement reading is `x`.
pub open spec fn unsigned_value(x: i64) -> int {
    if x >= 0 {
        x as int
    } else {
        x as int + 0x1_0000_0000_0000_0000
    }
}

/// Reinterprets the bytes of an unsigned number as a signed number.
pub fn unsigned_to_signed(x: u64) -> (r: i64)
    ensures
        r == signed_value(x),
{
    if x <= 0x7fff_ffff_ffff_ffff {
        x as i64
    } else {
        -((u64::MAX - x) as i64) - 1
    }
}

/// Reinterprets the bytes of a signed number as an unsigned number.
pub fn signed_to_unsigned(x: i64) -> (r: u64)
    ensures
        r == unsigned_value(x),
{
    if x >= 0 {
        x as u64
    } else {
        u64::MAX - ((-(x + 1)) as u64)
    }
}

/// How a word shows as a snake value: an even word is the integer half its
/// signed reading, `0b101` is `true`, `0b001` is `false`, anything else is invalid.
pub open spec fn snake_text(x: u64) -> Seq<char> {
    if x % 2 == 0 {
        int_decimal(signed_value(x) / 2)
    } else if x == 5 {
        "true"@
    } else if x == 1 {
        "false"@
    } else {
        "INVALID_SNAKE_VALUE"@
    }
}

/// Shows `x` as a snake value.
pub fn sprint_snake_val(x: SnakeVal) -> (s: String)
    ensures
        s@ == snake_text(x.0),
{
    let w = x.0;
    assert((w & 1u64 == 0u64) == (w % 2 == 0)) by (bit_vector);
    if w & INT_TAG == 0 {
        // it's a signed 63-bit integer
        let v = unsigned_to_signed(x.0);
        let mut s = String::new();
        push_i64_decimal(&mut s, v / 2);
        s
    } else if x.0 == SNAKE_TRU {
        String::from_str("true")
    } else if x.0 == SNAKE_FLS {
        String::from_str("false")
    } else {
        String::from_str("INVALID_SNAKE_VALUE")
    }
}

/// The word of the integer `n`: `n << 1`, in two's complement.
pub open spec fn int_word(n: int) -> int {
    (2 * n) % 0x1_0000_0000_0000_0000
}

/// The text is `true`, `false` or a decimal `i64`.
pub open spec fn is_snake_text(s: Seq<char>) -> bool {
    s == "true"@ || s == "false"@ || parse_i64_spec(s) is Ok
}

/// The word of the snake value the text writes.
pub open spec fn parsed_word(s: Seq<char>) -> int {
    if s == "true"@ {
        5
    } else if s == "false"@ {
        1
    } else {
        int_word(parse_i64_spec(s)->Ok_0)
    }
}

/// Reads a snake value: `true`, `false` or a decimal integer.
pub fn parse_snake_val(s: &str) -> (r: SnakeVal)
    requires
        is_snake_text(s@),
    ensures
        r.0 == parsed_word(s@),
{
    if str_equals(s, "true") {
        SnakeVal(SNAKE_TRU)
    } else if str_equals(s, "false") {
        SnakeVal(SNAKE_FLS)
    } else {
        match parse_i64(s) {
            Ok(n) => {
                let w = signed_to_unsigned(n);
                let r = w.wrapping_shl(1);
                assert(r == (2 * w) % 0x1_0000_0000_0000_0000) by (bit_vector)
                    requires r == w.wrapping_shl(1);
                assert((2 * unsigned_value(n)) % 0x1_0000_0000_0000_0000 == (2 * n) % 0x1_0000_0000_0000_0000);
                SnakeVal(r)
            },
            Err(_) => SnakeVal(0),
        }
    }
}

/// Error codes that compiled code reports.
pub const ARITH_ERROR: u64 = 0;

pub const COMPARE_ERROR: u64 = 1;

pub const LOGIC_ERROR: u64 = 2;

/// The message for an error code of compiled code.
pub open spec fn error_text(err_code: u64) -> Seq<char> {
    if err_code == 0 {
        "arithmetic operation expected integer input(s)"@
    } else if err_code == 1 {
        "comparison operation expected integer input(s)"@
    } else if err_code == 2 {
        "logical operation expected boolean input(s)"@
    } else {
        "BUG IN COMPILER: invalid error code "@ + int_decimal(err_code as int)
    }
}

/// The message to report for an error code of compiled code.
pub fn snake_error_message(err_code: u64) -> (m: String)
    ensures
        m@ == error_text(err_code),
{
    if err_code == ARITH_ERROR {
        String::from_str("arithmetic operation expected integer input(s)")
    } else if err_code == COMPARE_ERROR {
        String::from_str("comparison operation expected integer input(s)")
    } else if err_code == LOGIC_ERROR {
        String::from_str("logical operation expected boolean input(s)")
    } else {
        let mut m = String::from_str("BUG IN COMPILER: invalid error code ");
        crate::text::push_u64_decimal(&mut m, err_code);
        m
    }
}

// ------------------------------------------------------------------- laws

/// Reinterpreting the bytes twice gives back what was reinterpreted.
pub proof fn lemma_reinterpret_round_trip(x: i64, w: u64)
    ensures
        signed_value(unsigned_value(x) as u64) == x,
        unsigned_value(signed_value(w) as i64) == w,
{
}

/// A value read from text shows as that text again: `true`, `false`, and
/// every integer of 63 bits, whose word keeps it whole.
pub proof fn lemma_text_round_trip(n: i64)
    requires
        -0x4000_0000_0000_0000 <= n < 0x4000_0000_0000_0000,
    ensures
        snake_text(parsed_word("true"@) as u64) == "true"@,
        snake_text(parsed_word("false"@) as u64) == "false"@,
        snake_text(parsed_word(int_decimal(n as int)) as u64) == int_decimal(n as int),
{
    let t = int_decimal(n as int);
    lemma_parse_rendering(n);
    reveal_strlit("true");
    reveal_strlit("false");
    if n < 0 {
        lemma_nat_decimal_ends((-n) as nat);
        assert(t[0] == '-');
    } else {
        lemma_nat_decimal_ends(n as nat);
    }
    assert(t != "true"@ && t != "false"@) by {
        assert("true"@[0] == 't');
        assert("false"@[0] == 'f');
    }
    let w = parsed_word(t);
    assert(w == int_word(n as int));
    if n >= 0 {
        assert(w == 2 * n);
    } else {
        assert(w == 2 * n + 0x1_0000_0000_0000_0000);
    }
}

} // verus!
