//! Reading decimal integers from text, as `str::trim` and `i64::from_str`
//! (`str::parse::<i64>`) do, and comparing text.

use vstd::prelude::*;
use crate::text::{digit_char, int_decimal, nat_decimal};

verus! {

/// The characters that `char::is_whitespace` accepts: those of Unicode's
/// `White_Space` property.
pub open spec fn is_whitespace(c: char) -> bool {
    let u = c as u32;
    ||| (0x09 <= u && u <= 0x0d)
    ||| u == 0x20
    ||| u == 0x85
    ||| u == 0xa0
    ||| u == 0x1680
    ||| (0x2000 <= u && u <= 0x200a)
    ||| u == 0x2028
    ||| u == 0x2029
    ||| u == 0x202f
    ||| u == 0x205f
    ||| u == 0x3000
}

fn is_whitespace_char(c: char) -> (r: bool)
    ensures
        r == is_whitespace(c),
{
    let u = c as u32;
    (0x09 <= u && u <= 0x0d) || u == 0x20 || u == 0x85 || u == 0xa0 || u == 0x1680 || (0x2000 <= u && u
        <= 0x200a) || u == 0x2028 || u == 0x2029 || u == 0x202f || u == 0x205f || u == 0x3000
}

pub open spec fn trim_start(s: Seq<char>) -> Seq<char>
    decreases s.len(),
{
    if s.len() > 0 && is_whitespace(s[0]) {
        trim_start(s.drop_first())
    } else {
        s
    }
}

pub open spec fn trim_end(s: Seq<char>) -> Seq<char>
    decreases s.len(),
{
    if s.len() > 0 && is_whitespace(s.last()) {
        trim_end(s.drop_last())
    } else {
        s
    }
}

/// `s` without its leading and trailing whitespace.
pub open spec fn trim(s: Seq<char>) -> Seq<char> {
    trim_end(trim_start(s))
}

/// The bounds `lo..hi` of the characters of `s` that are left once leading and
/// trailing whitespace is trimmed.
pub fn trim_bounds(s: &str) -> (r: (usize, usize))
    ensures
        r.0 <= r.1 <= s@.len(),
        s@.subrange(r.0 as int, r.1 as int) == trim(s@),
{
    let len = s.unicode_len();
    let mut lo: usize = 0;
    assert(s@.skip(0) =~= s@);
    while lo < len && is_whitespace_char(s.get_char(lo))
        invariant
            len == s@.len(),
            lo <= len,
            trim_start(s@) == trim_start(s@.skip(lo as int)),
        decreases len - lo,
    {
        assert(s@.skip(lo as int).drop_first() =~= s@.skip(lo + 1));
        lo = lo + 1;
    }
    let ghost t = s@.skip(lo as int);
    assert(trim_start(t) == t);
    let mut hi: usize = len;
    assert(t.take(t.len() as int) =~= t);
    while hi > lo && is_whitespace_char(s.get_char(hi - 1))
        invariant
            len == s@.len(),
            lo <= hi <= len,
            t == s@.skip(lo as int),
            trim_end(t) == trim_end(t.take(hi - lo)),
        decreases hi,
    {
        assert(t.take(hi - lo).drop_last() =~= t.take(hi - 1 - lo));
        assert(t.take(hi - lo).last() == s@[hi - 1]);
        hi = hi - 1;
    }
    assert(t.take(hi - lo) =~= s@.subrange(lo as int, hi as int));
    (lo, hi)
}

/// Why a text is no `i64`, as `core::num::IntErrorKind` tells it.
#[derive(Clone, Copy, Debug, PartialEq, Eq, Structural)]
pub enum IntErrorKind {
    Empty,
    InvalidDigit,
    PosOverflow,
    NegOverflow,
}

pub open spec fn is_decimal_digit(c: char) -> bool {
    '0' <= c && c <= '9'
}

pub open spec fn fits_i64(v: int) -> bool {
    i64::MIN <= v <= i64::MAX
}

/// Reads the digits of `d` after the value `acc` read so far, from the left,
/// adding each digit for a positive number and subtracting it for a negative
/// one; the first character that is no digit, or the first digit that takes
/// the value out of the `i64` range, is the error.
pub open spec fn scan_digits(d: Seq<char>, acc: int, negative: bool) -> Result<int, IntErrorKind>
    decreases d.len(),
{
    if d.len() == 0 {
        Ok(acc)
    } else if !is_decimal_digit(d[0]) {
        Err(IntErrorKind::InvalidDigit)
    } else {
        let digit = (d[0] as int) - 48;
        let next = if negative { acc * 10 - digit } else { acc * 10 + digit };
        if !fits_i64(next) {
            Err(if negative { IntErrorKind::NegOverflow } else { IntErrorKind::PosOverflow })
        } else {
            scan_digits(d.drop_first(), next, negative)
        }
    }
}

/// The `i64` that `t` writes in decimal, with an optional sign, or why it writes none.
pub open spec fn parse_i64_spec(t: Seq<char>) -> Result<int, IntErrorKind> {
    if t.len() == 0 {
        Err(IntErrorKind::Empty)
    } else if (t[0] == '+' || t[0] == '-') && t.len() == 1 {
        Err(IntErrorKind::InvalidDigit)
    } else if t[0] == '+' {
        scan_digits(t.drop_first(), 0, false)
    } else if t[0] == '-' {
        scan_digits(t.drop_first(), 0, true)
    } else {
        scan_digits(t, 0, false)
    }
}

/// How `ParseIntError` shows itself.
pub open spec fn int_error_text(k: IntErrorKind) -> Seq<char> {
    match k {
        IntErrorKind::Empty => "cannot parse integer from empty string"@,
        IntErrorKind::InvalidDigit => "invalid digit found in string"@,
        IntErrorKind::PosOverflow => "number too large to fit in target type"@,
        IntErrorKind::NegOverflow => "number too small to fit in target type"@,
    }
}

/// Reads the `i64` that characters `lo..hi` of `s` write in decimal.
pub fn parse_i64_range(s: &str, lo: usize, hi: usize) -> (r: Result<i64, IntErrorKind>)
    requires
        lo <= hi <= s@.len(),
    ensures
        match parse_i64_spec(s@.subrange(lo as int, hi as int)) {
            Ok(v) => r == Ok::<i64, IntErrorKind>(v as i64) && fits_i64(v),
            Err(k) => r == Err::<i64, IntErrorKind>(k),
        },
{
    let ghost t = s@.subrange(lo as int, hi as int);
    if lo == hi {
        return Err(IntErrorKind::Empty);
    }
    let first = s.get_char(lo);
    assert(t[0] == first);
    if (first == '+' || first == '-') && hi - lo == 1 {
        return Err(IntErrorKind::InvalidDigit);
    }
    let negative = first == '-';
    let mut i: usize = if first == '+' || first == '-' { lo + 1 } else { lo };
    assert(s@.subrange(i as int, hi as int) =~= if first == '+' || first == '-' { t.drop_first() } else { t });
    let mut acc: i64 = 0;
    while i < hi
        invariant
            lo <= i <= hi <= s@.len(),
            t == s@.subrange(lo as int, hi as int),
            negative == (t[0] == '-'),
            parse_i64_spec(t) == scan_digits(s@.subrange(i as int, hi as int), acc as int, negative),
        decreases hi - i,
    {
        let c = s.get_char(i);
        let ghost d = s@.subrange(i as int, hi as int);
        assert(d[0] == c);
        assert(d.drop_first() =~= s@.subrange(i + 1, hi as int));
        if !('0' <= c && c <= '9') {
            return Err(IntErrorKind::InvalidDigit);
        }
        let digit = (c as u32 - 48) as i128;
        let next: i128 = if negative { (acc as i128) * 10 - digit } else { (acc as i128) * 10 + digit };
        if next < i64::MIN as i128 || next > i64::MAX as i128 {
            return Err(if negative { IntErrorKind::NegOverflow } else { IntErrorKind::PosOverflow });
        }
        acc = next as i64;
        i = i + 1;
    }
    assert(s@.subrange(hi as int, hi as int) =~= Seq::<char>::empty());
    Ok(acc)
}

/// `s.trim().parse::<i64>()`.
pub fn parse_trimmed_i64(s: &str) -> (r: Result<i64, IntErrorKind>)
    ensures
        match parse_i64_spec(trim(s@)) {
            Ok(v) => r == Ok::<i64, IntErrorKind>(v as i64) && fits_i64(v),
            Err(k) => r == Err::<i64, IntErrorKind>(k),
        },
{
    let (lo, hi) = trim_bounds(s);
    parse_i64_range(s, lo, hi)
}

/// `s.parse::<i64>()`.
pub fn parse_i64(s: &str) -> (r: Result<i64, IntErrorKind>)
    ensures
        match parse_i64_spec(s@) {
            Ok(v) => r == Ok::<i64, IntErrorKind>(v as i64) && fits_i64(v),
            Err(k) => r == Err::<i64, IntErrorKind>(k),
        },
{
    let len = s.unicode_len();
    assert(s@.subrange(0, len as int) =~= s@);
    parse_i64_range(s, 0, len)
}

/// Reads the digits of `d` after the value `acc` read so far into a `u64`;
/// the first character that is no digit, or the first digit that takes the
/// value past `u64::MAX`, is the error.
pub open spec fn scan_digits_u64(d: Seq<char>, acc: int) -> Result<int, IntErrorKind>
    decreases d.len(),
{
    if d.len() == 0 {
        Ok(acc)
    } else if !is_decimal_digit(d[0]) {
        Err(IntErrorKind::InvalidDigit)
    } else {
        let next = acc * 10 + ((d[0] as int) - 48);
        if next > u64::MAX {
            Err(IntErrorKind::PosOverflow)
        } else {
            scan_digits_u64(d.drop_first(), next)
        }
    }
}

/// The `u64` that `t` writes in decimal, with an optional `+`, or why it
/// writes none; a `-` is no digit of an unsigned number.
pub open spec fn parse_u64_spec(t: Seq<char>) -> Result<int, IntErrorKind> {
    if t.len() == 0 {
        Err(IntErrorKind::Empty)
    } else if (t[0] == '+' || t[0] == '-') && t.len() == 1 {
        Err(IntErrorKind::InvalidDigit)
    } else if t[0] == '+' {
        scan_digits_u64(t.drop_first(), 0)
    } else {
        scan_digits_u64(t, 0)
    }
}

/// `s.parse::<u64>()`.
pub fn parse_u64(s: &str) -> (r: Result<u64, IntErrorKind>)
    ensures
        match parse_u64_spec(s@) {
            Ok(v) => r == Ok::<u64, IntErrorKind>(v as u64) && 0 <= v <= u64::MAX,
            Err(k) => r == Err::<u64, IntErrorKind>(k),
        },
{
    let len = s.unicode_len();
    if len == 0 {
        return Err(IntErrorKind::Empty);
    }
    let first = s.get_char(0);
    if (first == '+' || first == '-') && len == 1 {
        return Err(IntErrorKind::InvalidDigit);
    }
    let mut i: usize = if first == '+' { 1 } else { 0 };
    assert(s@.subrange(i as int, len as int) =~= if first == '+' { s@.drop_first() } else { s@ });
    let mut acc: u64 = 0;
    while i < len
        invariant
            i <= len == s@.len(),
            len > 0,
            first == s@[0],
            parse_u64_spec(s@) == scan_digits_u64(s@.subrange(i as int, len as int), acc as int),
        decreases len - i,
    {
        let c = s.get_char(i);
        let ghost d = s@.subrange(i as int, len as int);
        assert(d[0] == c);
        assert(d.drop_first() =~= s@.subrange(i + 1, len as int));
        if !('0' <= c && c <= '9') {
            return Err(IntErrorKind::InvalidDigit);
        }
        let next: u128 = (acc as u128) * 10 + ((c as u32 - 48) as u128);
        if next > u64::MAX as u128 {
            return Err(IntErrorKind::PosOverflow);
        }
        acc = next as u64;
        i = i + 1;
    }
    assert(s@.subrange(len as int, len as int) =~= Seq::<char>::empty());
    Ok(acc)
}

/// The message of a `ParseIntError` of kind `k`.
pub fn int_error_message(k: IntErrorKind) -> (m: String)
    ensures
        m@ == int_error_text(k),
{
    match k {
        IntErrorKind::Empty => String::from_str("cannot parse integer from empty string"),
        IntErrorKind::InvalidDigit => String::from_str("invalid digit found in string"),
        IntErrorKind::PosOverflow => String::from_str("number too large to fit in target type"),
        IntErrorKind::NegOverflow => String::from_str("number too small to fit in target type"),
    }
}

/// Whether two texts hold the same characters.
pub fn str_equals(a: &str, b: &str) -> (r: bool)
    ensures
        r == (a@ == b@),
{
    let n = a.unicode_len();
    if n != b.unicode_len() {
        return false;
    }
    let mut i: usize = 0;
    while i < n
        invariant
            n == a@.len() == b@.len(),
            i <= n,
            a@.take(i as int) == b@.take(i as int),
        decreases n - i,
    {
        if a.get_char(i) != b.get_char(i) {
            return false;
        }
        assert(a@.take(i + 1) =~= a@.take(i as int).push(a@[i as int]));
        assert(b@.take(i + 1) =~= b@.take(i as int).push(b@[i as int]));
        i = i + 1;
    }
    assert(a@.take(n as int) =~= a@);
    assert(b@.take(n as int) =~= b@);
    true
}

// ------------------------------------------------------------------- laws

/// Reading two pieces of digits one after the other.
proof fn lemma_scan_append(a: Seq<char>, b: Seq<char>, acc: int, negative: bool)
    ensures
        scan_digits(a + b, acc, negative) == match scan_digits(a, acc, negative) {
            Ok(v) => scan_digits(b, v, negative),
            Err(k) => Err(k),
        },
    decreases a.len(),
{
    if a.len() == 0 {
        assert(a + b =~= b);
    } else {
        assert((a + b)[0] == a[0]);
        assert((a + b).drop_first() =~= a.drop_first() + b);
        if is_decimal_digit(a[0]) {
            let digit = (a[0] as int) - 48;
            let next = if negative { acc * 10 - digit } else { acc * 10 + digit };
            lemma_scan_append(a.drop_first(), b, next, negative);
        }
    }
}

proof fn lemma_digit_char(d: nat)
    requires
        d < 10,
    ensures
        (digit_char(d) as int) == 48 + d,
        is_decimal_digit(digit_char(d)),
        !is_whitespace(digit_char(d)),
        digit_char(d) != '+' && digit_char(d) != '-',
{
}

/// The decimal rendering of `m` reads back as `m`, or as `-m` after a minus sign.
proof fn lemma_scan_decimal(m: nat, negative: bool)
    requires
        if negative { m <= 0x8000_0000_0000_0000 } else { m <= 0x7fff_ffff_ffff_ffff },
    ensures
        scan_digits(nat_decimal(m), 0, negative) == Ok::<int, IntErrorKind>(if negative { -m } else { m as int }),
    decreases m,
{
    if m < 10 {
        lemma_digit_char(m);
        let d = nat_decimal(m);
        assert(d =~= seq![digit_char(m)]);
        assert(d.drop_first() =~= Seq::<char>::empty());
        assert(scan_digits(Seq::<char>::empty(), if negative { -m } else { m as int }, negative) == Ok::<int, IntErrorKind>(if negative { -m } else { m as int }));
    } else {
        assert(m == 10 * (m / 10) + m % 10) by (nonlinear_arith);
        lemma_scan_decimal(m / 10, negative);
        let c = digit_char(m % 10);
        lemma_digit_char(m % 10);
        assert(nat_decimal(m) =~= nat_decimal(m / 10) + seq![c]);
        lemma_scan_append(nat_decimal(m / 10), seq![c], 0, negative);
        assert(seq![c].drop_first() =~= Seq::<char>::empty());
        assert(seq![c][0] == c);
        let v: int = if negative { -(m / 10) } else { (m / 10) as int };
        assert(scan_digits(Seq::<char>::empty(), if negative { -m } else { m as int }, negative) == Ok::<int, IntErrorKind>(if negative { -m } else { m as int }));
        assert(scan_digits(seq![c], v, negative) == Ok::<int, IntErrorKind>(if negative { -m } else { m as int }));
    }
}

/// Every character of a rendering is a digit.
pub proof fn lemma_nat_decimal_digits(n: nat)
    ensures
        forall|j: int| 0 <= j < nat_decimal(n).len() ==> is_decimal_digit(#[trigger] nat_decimal(n)[j]),
    decreases n,
{
    if n < 10 {
        lemma_digit_char(n);
    } else {
        lemma_nat_decimal_digits(n / 10);
        lemma_digit_char(n % 10);
        let d = nat_decimal(n);
        assert forall|j: int| 0 <= j < d.len() implies is_decimal_digit(#[trigger] d[j]) by {
            if j < d.len() - 1 {
                assert(d[j] == nat_decimal(n / 10)[j]);
            }
        }
    }
}

/// The first and the last character of a rendering are digits.
pub proof fn lemma_nat_decimal_ends(n: nat)
    ensures
        nat_decimal(n).len() >= 1,
        is_decimal_digit(nat_decimal(n)[0]),
        is_decimal_digit(nat_decimal(n).last()),
        !is_whitespace(nat_decimal(n)[0]),
        !is_whitespace(nat_decimal(n).last()),
        nat_decimal(n)[0] != '+' && nat_decimal(n)[0] != '-',
    decreases n,
{
    if n < 10 {
        lemma_digit_char(n);
    } else {
        lemma_nat_decimal_ends(n / 10);
        lemma_digit_char(n % 10);
    }
}

/// Reading back the decimal rendering of an `i64`, trimmed or not, gives the number.
pub proof fn lemma_parse_rendering(n: i64)
    ensures
        parse_i64_spec(int_decimal(n as int)) == Ok::<int, IntErrorKind>(n as int),
        trim(int_decimal(n as int)) == int_decimal(n as int),
{
    let t = int_decimal(n as int);
    if n < 0 {
        let m = (-n) as nat;
        lemma_nat_decimal_ends(m);
        lemma_scan_decimal(m, true);
        assert(t.drop_first() =~= nat_decimal(m));
        assert(t[0] == '-');
        assert(t.last() == nat_decimal(m).last());
    } else {
        lemma_nat_decimal_ends(n as nat);
        lemma_scan_decimal(n as nat, false);
    }
    assert(trim_start(t) == t);
    assert(trim_end(t) == t);
}

/// Text made of whitespace only.
pub open spec fn all_whitespace(w: Seq<char>) -> bool {
    forall|j: int| 0 <= j < w.len() ==> is_whitespace(#[trigger] w[j])
}

pub proof fn lemma_trim_start_padded(w: Seq<char>, t: Seq<char>)
    requires
        all_whitespace(w),
        t.len() > 0,
        !is_whitespace(t[0]),
    ensures
        trim_start(w + t) == t,
    decreases w.len(),
{
    if w.len() > 0 {
        assert((w + t).drop_first() =~= w.drop_first() + t);
        lemma_trim_start_padded(w.drop_first(), t);
    } else {
        assert(w + t =~= t);
    }
}

proof fn lemma_trim_end_padded(t: Seq<char>, w: Seq<char>)
    requires
        all_whitespace(w),
        t.len() > 0,
        !is_whitespace(t.last()),
    ensures
        trim_end(t + w) == t,
    decreases w.len(),
{
    if w.len() > 0 {
        assert((t + w).drop_last() =~= t + w.drop_last());
        assert(is_whitespace(w[w.len() - 1]));
        lemma_trim_end_padded(t, w.drop_last());
    } else {
        assert(t + w =~= t);
    }
}

/// Trimming takes off exactly the whitespace around a text that neither starts
/// nor ends with whitespace.
pub proof fn lemma_trim_padded(w1: Seq<char>, t: Seq<char>, w2: Seq<char>)
    requires
        all_whitespace(w1),
        all_whitespace(w2),
        t.len() > 0,
        !is_whitespace(t[0]),
        !is_whitespace(t.last()),
    ensures
        trim(w1 + t + w2) == t,
{
    assert(w1 + t + w2 =~= w1 + (t + w2));
    lemma_trim_start_padded(w1, t + w2);
    lemma_trim_end_padded(t, w2);
}

/// Reading back the decimal rendering of an `i64` with whitespace around it,
/// once trimmed, gives the number.
pub proof fn lemma_parse_padded_rendering(w1: Seq<char>, n: i64, w2: Seq<char>)
    requires
        all_whitespace(w1),
        all_whitespace(w2),
    ensures
        parse_i64_spec(trim(w1 + int_decimal(n as int) + w2)) == Ok::<int, IntErrorKind>(n as int),
{
    let t = int_decimal(n as int);
    lemma_parse_rendering(n);
    if n < 0 {
        lemma_nat_decimal_ends((-n) as nat);
        assert(t.last() == nat_decimal((-n) as nat).last());
        assert(t[0] == '-');
    } else {
        lemma_nat_decimal_ends(n as nat);
    }
    lemma_trim_padded(w1, t, w2);
}

/// A leading `+` changes nothing: `+` and the rendering of a number that is
/// not negative read as that number; a lone sign or an empty text is no number.
pub proof fn lemma_parse_plus_sign(n: i64)
    requires
        n >= 0,
    ensures
        parse_i64_spec(seq!['+'] + int_decimal(n as int)) == Ok::<int, IntErrorKind>(n as int),
        parse_i64_spec(seq!['+']) == Err::<int, IntErrorKind>(IntErrorKind::InvalidDigit),
        parse_i64_spec(seq!['-']) == Err::<int, IntErrorKind>(IntErrorKind::InvalidDigit),
        parse_i64_spec(Seq::<char>::empty()) == Err::<int, IntErrorKind>(IntErrorKind::Empty),
{
    lemma_nat_decimal_ends(n as nat);
    lemma_scan_decimal(n as nat, false);
    assert((seq!['+'] + int_decimal(n as int)).drop_first() =~= int_decimal(n as int));
}

} // verus!
