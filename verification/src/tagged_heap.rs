//! The tagged encoding extended with heap-allocated arrays: a word whose two
//! low bits are `11` is the address of an array with those bits set. An array
//! is its size followed by its elements, one word each, in a bump-allocated heap.

use vstd::prelude::*;
use crate::tagged::{SnakeVal, INT_TAG, SNAKE_FLS, SNAKE_TRU, int_word, signed_value, unsigned_to_signed};
use crate::text::{int_decimal, nat_decimal, push_char, push_i64_decimal, push_u64_decimal};

verus! {

/// The two tag bits of arrays.
pub const FULL_TAG: u64 = 0b11;

/// The number of words of the heap.
pub const HEAP_SIZE: u64 = 100000;

pub open spec fn hex_char(d: nat) -> char {
    if d < 10 {
        (48 + d) as char
    } else {
        (87 + d) as char
    }
}

/// The last `k` hexadecimal digits of `n`, most significant first, lower case.
pub open spec fn hex_digits(n: nat, k: nat) -> Seq<char>
    decreases k,
{
    if k == 0 {
        Seq::empty()
    } else {
        hex_digits(n / 16, (k - 1) as nat).push(hex_char(n % 16))
    }
}

fn push_hex_digits(out: &mut String, n: u64, k: u64)
    ensures
        final(out)@ == old(out)@ + hex_digits(n as nat, k as nat),
    decreases k,
{
    if k > 0 {
        push_hex_digits(out, n / 16, k - 1);
        let d = n % 16;
        let c: char = if d < 10 {
            ((48 + d) as u8) as char
        } else {
            ((87 + d) as u8) as char
        };
        push_char(out, c);
    }
}

/// Whether a word is the tagged address of an array.
pub open spec fn is_array_word(x: u64) -> bool {
    x % 2 == 1 && x % 4 == 3
}

/// How a word shows as a snake value, when an array at it holds `len`
/// elements: integers and booleans as in `tagged`, and an array as its
/// untagged address, in 16 hexadecimal digits, and its length.
pub open spec fn snake_text(x: u64, len: u64) -> Seq<char> {
    if x % 2 == 0 {
        int_decimal(signed_value(x) / 2)
    } else if x % 4 == 3 {
        "Array(addr=0x"@ + hex_digits((x - 3) as nat, 16) + ", len="@ + nat_decimal(len as nat) + ")"@
    } else if x == 5 {
        "true"@
    } else if x == 1 {
        "false"@
    } else {
        "INVALID_SnakeValUE"@
    }
}

/// The untagged address of an array value.
pub fn array_address(x: SnakeVal) -> (addr: u64)
    requires
        is_array_word(x.0),
    ensures
        addr == x.0 - 3,
{
    let w = x.0;
    assert(w % 4 == 3 ==> w ^ 3u64 == (w - 3) as u64) by (bit_vector);
    w ^ FULL_TAG
}

/// Whether `x` is an array, whose size the caller reads at `array_address(x)`.
pub fn is_array(x: SnakeVal) -> (r: bool)
    ensures
        r == is_array_word(x.0),
{
    let w = x.0;
    assert((w & 1u64 == 0u64) == (w % 2 == 0)) by (bit_vector);
    assert((w & 3u64 == 3u64) == (w % 4 == 3)) by (bit_vector);
    w & INT_TAG != 0 && w & FULL_TAG == FULL_TAG
}

/// Shows `x` as a snake value; an array shows `array_len`, the size stored at
/// its address.
pub fn sprint_snake_val(x: SnakeVal, array_len: u64) -> (s: String)
    ensures
        s@ == snake_text(x.0, array_len),
{
    let w = x.0;
    assert((w & 1u64 == 0u64) == (w % 2 == 0)) by (bit_vector);
    assert((w & 3u64 == 3u64) == (w % 4 == 3)) by (bit_vector);
    if w & INT_TAG == 0 {
        // it's a signed 63-bit integer
        let v = unsigned_to_signed(w);
        let mut s = String::new();
        push_i64_decimal(&mut s, v / 2);
        s
    } else if w & FULL_TAG == FULL_TAG {
        // value is a tagged pointer
        let untagged = array_address(x);
        let mut s = String::from_str("Array(addr=0x");
        push_hex_digits(&mut s, untagged, 16);
        s.append(", len=");
        push_u64_decimal(&mut s, array_len);
        s.append(")");
        s
    } else if w == SNAKE_TRU {
        String::from_str("true")
    } else if w == SNAKE_FLS {
        String::from_str("false")
    } else {
        String::from_str("INVALID_SnakeValUE")
    }
}

/// A bump allocator over the heap: byte addresses of its start and of the
/// next free word.
pub struct Heap {
    pub start: u64,
    pub next: u64,
}

/// Why an allocation failed.
#[derive(Debug, PartialEq, Eq, Structural)]
pub enum AllocError {
    OutOfMemory,
}

/// The heap's start must leave the two tag bits of its addresses free.
pub fn heap_misaligned(start: u64) -> (r: bool)
    ensures
        r == (start % 4 != 0),
{
    assert((start & 3u64 == 0u64) == (start % 4 == 0)) by (bit_vector);
    start & FULL_TAG != 0
}

impl Heap {
    /// A heap of `HEAP_SIZE` words from `start`.
    pub fn new(start: u64) -> (h: Heap)
        ensures
            h.start == start,
            h.next == start,
    {
        Heap { start, next: start }
    }

    /// Allocates an array of `size` words: its address, tagged, where the
    /// caller stores `size` and then `size` zeros; or `OutOfMemory` when the
    /// array with its size word would reach the end of the heap.
    pub fn new_array(&mut self, size: u64) -> (r: Result<SnakeVal, AllocError>)
        requires
            old(self).next + 8 * (size + 1) <= u64::MAX,
            old(self).start + 8 * HEAP_SIZE <= u64::MAX,
        ensures
            final(self).start == old(self).start,
            old(self).next + 8 * (size + 1) >= old(self).start + 8 * HEAP_SIZE ==> r == Err::<SnakeVal, AllocError>(AllocError::OutOfMemory) && final(self).next == old(self).next,
            old(self).next + 8 * (size + 1) < old(self).start + 8 * HEAP_SIZE ==> r == Ok::<SnakeVal, AllocError>(SnakeVal(old(self).next | 3)) && final(self).next == old(self).next + 8 * (size + 1),
    {
        let arr_ptr = self.next;
        if arr_ptr + 8 * (size + 1) >= self.start + 8 * HEAP_SIZE {
            return Err(AllocError::OutOfMemory);
        }
        self.next = arr_ptr + 8 * (size + 1);
        Ok(SnakeVal(arr_ptr | FULL_TAG))
    }
}

/// Tagging an aligned address gives an array value, whose untagged address
/// is that address again.
pub proof fn lemma_array_tag_round_trip(addr: u64)
    requires
        addr % 4 == 0,
    ensures
        is_array_word(addr | 3),
        (addr | 3) - 3 == addr,
{
    assert(addr % 4 == 0 ==> (addr | 3u64) % 4 == 3 && (addr | 3u64) % 2 == 1 && (addr | 3u64) - 3 == addr) by (bit_vector);
}

/// The heap stays aligned: from an aligned start, every array is allocated
/// at an address whose tag bits are free.
pub proof fn lemma_allocation_aligned(start: u64, next: u64, size: u64)
    requires
        start % 4 == 0,
        (next - start) % 8 == 0,
        start <= next,
    ensures
        next % 4 == 0,
        ((next + 8 * (size + 1)) - start) % 8 == 0,
{
}

/// An integer shows as the signed number it tags: for every integer of 63
/// bits, the word that holds it (twice it, in two's complement) shows as its
/// decimal rendering, whatever array length is passed; `true` and `false`
/// show as their names.
pub proof fn lemma_integer_text(n: int, len: u64)
    requires
        -0x4000_0000_0000_0000 <= n < 0x4000_0000_0000_0000,
    ensures
        snake_text(int_word(n) as u64, len) == int_decimal(n),
        snake_text(5, len) == "true"@,
        snake_text(1, len) == "false"@,
{
    let w = int_word(n);
    if n >= 0 {
        assert(w == 2 * n);
    } else {
        assert(w == 2 * n + 0x1_0000_0000_0000_0000);
    }
    assert(signed_value(w as u64) == 2 * n);
}

/// The value of a hexadecimal digit, `0`-`9` and `a`-`f`.
pub open spec fn hex_digit_value(c: char) -> int {
    if '0' <= c && c <= '9' {
        c as int - 48
    } else if 'a' <= c && c <= 'f' {
        c as int - 87
    } else {
        -1
    }
}

/// The number that a text of hexadecimal digits writes, most significant first.
pub open spec fn hex_value(s: Seq<char>) -> int
    decreases s.len(),
{
    if s.len() == 0 {
        0
    } else {
        hex_value(s.drop_last()) * 16 + hex_digit_value(s.last())
    }
}

pub open spec fn pow16(k: nat) -> nat
    decreases k,
{
    if k == 0 {
        1
    } else {
        16 * pow16((k - 1) as nat)
    }
}

proof fn lemma_hex_reads_back(n: nat, k: nat)
    requires
        n < pow16(k),
    ensures
        hex_digits(n, k).len() == k,
        hex_value(hex_digits(n, k)) == n,
        forall|j: int| 0 <= j < k ==> 0 <= #[trigger] hex_digit_value(hex_digits(n, k)[j]) < 16,
    decreases k,
{
    if k > 0 {
        let p = pow16((k - 1) as nat);
        assert(n / 16 < p) by (nonlinear_arith)
            requires
                n < 16 * p,
        ;
        lemma_hex_reads_back(n / 16, (k - 1) as nat);
        let h = hex_digits(n, k);
        assert(h.drop_last() =~= hex_digits(n / 16, (k - 1) as nat));
        assert(hex_digit_value(hex_char(n % 16)) == n % 16);
        assert forall|j: int| 0 <= j < k implies 0 <= #[trigger] hex_digit_value(h[j]) < 16 by {
            if j < k - 1 {
                assert(h[j] == hex_digits(n / 16, (k - 1) as nat)[j]);
            }
        }
    }
}

/// An array shows its untagged address in 16 hexadecimal digits that read
/// back to that address, and then its length: for every aligned address, the
/// text of the tagged word is `Array(addr=0x`, the 16 digits, `, len=`, the
/// decimal length and `)`.
pub proof fn lemma_array_text(addr: u64, len: u64)
    requires
        addr % 4 == 0,
    ensures
        ({
            let t = snake_text(addr | 3, len);
            &&& t.len() == 36 + nat_decimal(len as nat).len()
            &&& t.take(13) == "Array(addr=0x"@
            &&& hex_value(t.subrange(13, 29)) == addr
            &&& forall|j: int| 13 <= j < 29 ==> 0 <= #[trigger] hex_digit_value(t[j]) < 16
            &&& t.skip(29) == ", len="@ + nat_decimal(len as nat) + ")"@
        }),
{
    reveal_strlit("Array(addr=0x");
    reveal_strlit(", len=");
    reveal_strlit(")");
    lemma_array_tag_round_trip(addr);
    assert(pow16(16) == 0x1_0000_0000_0000_0000) by {
        reveal_with_fuel(pow16, 17);
    }
    lemma_hex_reads_back(addr as nat, 16);
    let h = hex_digits(addr as nat, 16);
    let rest = ", len="@ + nat_decimal(len as nat) + ")"@;
    let t = snake_text(addr | 3, len);
    assert(t =~= "Array(addr=0x"@ + h + rest);
    assert(t.take(13) =~= "Array(addr=0x"@);
    assert(t.subrange(13, 29) =~= h);
    assert(t.skip(29) =~= rest);
    assert forall|j: int| 13 <= j < 29 implies 0 <= #[trigger] hex_digit_value(t[j]) < 16 by {
        assert(t[j] == h[j - 13]);
    }
}

} // verus!
