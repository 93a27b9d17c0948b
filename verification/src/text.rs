//! Decimal rendering of integers and building of strings.

use vstd::prelude::*;

verus! {

/// The character of a decimal digit.
pub open spec fn digit_char(d: nat) -> char {
    (48 + d) as char
}

/// The decimal digits of a natural number, most significant first, without leading zeros.
pub open spec fn nat_decimal(n: nat) -> Seq<char>
    decreases n,
{
    if n < 10 {
        seq![digit_char(n)]
    } else {
        nat_decimal(n / 10).push(digit_char(n % 10))
    }
}

/// The decimal rendering of an integer, with a leading `-` when it is negative.
pub open spec fn int_decimal(i: int) -> Seq<char> {
    if i < 0 {
        seq!['-'] + nat_decimal((-i) as nat)
    } else {
        nat_decimal(i as nat)
    }
}

/// A rendering has at least one digit, and two or more from 10 on.
pub proof fn lemma_nat_decimal_len(n: nat)
    ensures
        nat_decimal(n).len() >= 1,
        n >= 10 ==> nat_decimal(n).len() >= 2,
    decreases n,
{
    if n >= 10 {
        lemma_nat_decimal_len(n / 10);
    }
}

/// Different numbers have different renderings.
pub proof fn lemma_nat_decimal_injective(a: nat, b: nat)
    requires
        nat_decimal(a) == nat_decimal(b),
    ensures
        a == b,
    decreases a,
{
    lemma_nat_decimal_len(a);
    lemma_nat_decimal_len(b);
    if a < 10 && b < 10 {
        assert(nat_decimal(a)[0] == digit_char(a));
        assert(nat_decimal(b)[0] == digit_char(b));
        assert((digit_char(a) as int) == 48 + a);
        assert((digit_char(b) as int) == 48 + b);
    } else if a >= 10 && b >= 10 {
        let da = nat_decimal(a);
        let db = nat_decimal(b);
        assert(da.drop_last() =~= nat_decimal(a / 10));
        assert(db.drop_last() =~= nat_decimal(b / 10));
        lemma_nat_decimal_injective(a / 10, b / 10);
        assert(da.last() == digit_char(a % 10));
        assert(db.last() == digit_char(b % 10));
        assert((digit_char(a % 10) as int) == 48 + a % 10);
        assert((digit_char(b % 10) as int) == 48 + b % 10);
    }
}

/// A common prefix can be taken off both sides of an equation.
pub proof fn lemma_prefix_cancel(p: Seq<char>, a: Seq<char>, b: Seq<char>)
    requires
        p + a == p + b,
    ensures
        a == b,
{
    assert(a =~= (p + a).skip(p.len() as int));
    assert(b =~= (p + b).skip(p.len() as int));
}

/// `String::push`: appends one character.
#[verifier::external_body]
pub(crate) fn push_char(s: &mut String, c: char)
    ensures
        final(s)@ == old(s)@.push(c),
{
    s.push(c);
}

fn digit(d: u64) -> (c: char)
    requires
        d < 10,
    ensures
        c == digit_char(d as nat),
{
    let b: u8 = 48u8 + (d as u8);
    b as char
}

/// Appends the decimal digits of `n`.
pub fn push_u64_decimal(s: &mut String, n: u64)
    ensures
        final(s)@ == old(s)@ + nat_decimal(n as nat),
    decreases n,
{
    if n >= 10 {
        push_u64_decimal(s, n / 10);
    }
    push_char(s, digit(n % 10));
    proof {
        if n >= 10 {
            assert(nat_decimal(n as nat) == nat_decimal((n / 10) as nat).push(digit_char((n % 10) as nat)));
        }
    }
}

/// Appends the decimal rendering of `n`.
pub fn push_i64_decimal(s: &mut String, n: i64)
    ensures
        final(s)@ == old(s)@ + int_decimal(n as int),
{
    if n < 0 {
        push_char(s, '-');
        let m: u64 = if n == i64::MIN {
            9223372036854775808u64
        } else {
            (-n) as u64
        };
        push_u64_decimal(s, m);
        assert(final(s)@ == old(s)@ + int_decimal(n as int));
    } else {
        push_u64_decimal(s, n as u64);
    }
}

} // verus!
