//! The lexer's law: it reads tokens back from their text.

use vstd::prelude::*;
use crate::text::nat_decimal;
use crate::numeral::{is_decimal_digit, lemma_nat_decimal_digits, lemma_nat_decimal_ends};
use crate::ll1::{Token, digit_run, digits_value, is_digit, lex_spec};

verus! {

/// The source text of a token whose number, if any, is not negative.
pub open spec fn token_source(t: Token) -> Seq<char> {
    match t {
        Token::Num(n) => nat_decimal(n as nat),
        Token::Plus => seq!['+'],
        Token::LParen => seq!['('],
        Token::RParen => seq![')'],
    }
}

/// Tokens written out, each followed by a space.
pub open spec fn spaced_source(t: Seq<Token>) -> Seq<char>
    decreases t.len(),
{
    if t.len() == 0 {
        Seq::empty()
    } else {
        token_source(t[0]) + seq![' '] + spaced_source(t.drop_first())
    }
}

proof fn lemma_digits_value_rendering(n: nat)
    ensures
        digits_value(nat_decimal(n)) == n,
    decreases n,
{
    let d = nat_decimal(n);
    assert(d.last() == crate::text::digit_char(n % 10));
    assert((crate::text::digit_char(n % 10) as int) == 48 + n % 10);
    if n >= 10 {
        lemma_digits_value_rendering(n / 10);
        assert(d.drop_last() =~= nat_decimal(n / 10));
    } else {
        assert(d.drop_last() =~= Seq::<char>::empty());
        assert(digits_value(Seq::<char>::empty()) == 0);
    }
}

proof fn lemma_digit_run_of(d: Seq<char>, rest: Seq<char>)
    requires
        forall|j: int| 0 <= j < d.len() ==> is_digit(#[trigger] d[j]),
        rest.len() > 0,
        !is_digit(rest[0]),
    ensures
        digit_run(d + rest) == d.len(),
    decreases d.len(),
{
    if d.len() > 0 {
        assert((d + rest).drop_first() =~= d.drop_first() + rest);
        assert(is_digit(d[0]));
        lemma_digit_run_of(d.drop_first(), rest);
    } else {
        assert(d + rest =~= rest);
    }
}

/// The lexer reads back any tokens from their text: writing each token, a
/// number in decimal, followed by a space, and lexing the result gives the
/// same tokens, for every sequence of tokens whose numbers are not negative.
pub proof fn lemma_lex_reads_back(t: Seq<Token>)
    requires
        forall|j: int| 0 <= j < t.len() ==> (#[trigger] t[j] matches Token::Num(n) ==> n >= 0),
    ensures
        lex_spec(spaced_source(t)) == Some(t),
    decreases t.len(),
{
    if t.len() == 0 {
        assert(t =~= Seq::<Token>::empty());
    } else {
        let tail = t.drop_first();
        assert forall|j: int| 0 <= j < tail.len() implies (#[trigger] tail[j] matches Token::Num(n) ==> n >= 0) by {
            assert(tail[j] == t[j + 1]);
        }
        lemma_lex_reads_back(tail);
        let r = spaced_source(tail);
        let sp = seq![' '] + r;
        let s = spaced_source(t);
        assert(sp.drop_first() =~= r);
        assert(lex_spec(sp) == lex_spec(r));
        match t[0] {
            Token::Num(n) => {
                let d = nat_decimal(n as nat);
                lemma_nat_decimal_ends(n as nat);
                lemma_nat_decimal_digits(n as nat);
                assert forall|j: int| 0 <= j < d.len() implies is_digit(#[trigger] d[j]) by {
                    assert(is_decimal_digit(d[j]));
                }
                assert(s =~= d + sp);
                lemma_digit_run_of(d, sp);
                assert(s.take(d.len() as int) =~= d);
                assert(s.skip(d.len() as int) =~= sp);
                lemma_digits_value_rendering(n as nat);
                assert(seq![Token::Num(n)] + tail =~= t);
            },
            _ => {
                assert(s =~= token_source(t[0]) + sp);
                assert(s.drop_first() =~= sp);
                assert(seq![t[0]] + tail =~= t);
            },
        }
    }
}

} // verus!
