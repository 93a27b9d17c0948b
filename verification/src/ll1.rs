//! A hand-written lexer and an LL(1) recursive-descent parser for sums of
//! numbers with parentheses. The grammar:
//!
//! ```text
//! T  -> S $
//! S  -> E S'
//! S' -> ε | + S
//! E  -> num | ( S )
//! ```
//!
//! so `+` associates to the right: `1 + 2 + 3` is `1 + (2 + 3)`.

use vstd::prelude::*;
use crate::text::{int_decimal, push_i64_decimal};

verus! {

#[derive(Debug, PartialEq, Eq, Structural)]
pub enum Token {
    Num(i64),
    Plus,
    LParen,
    RParen,
}

#[derive(Debug, PartialEq, Eq)]
pub enum Ast {
    Num(i64),
    Plus(Box<Ast>, Box<Ast>),
}

// ---------------------------------------------------------------- lexing

/// Characters skipped between tokens.
pub open spec fn is_space(c: char) -> bool {
    c == ' ' || c == '\t' || c == '\n' || c == '\r'
}

pub open spec fn is_digit(c: char) -> bool {
    '0' <= c && c <= '9'
}

/// The number of digits at the start of `s`.
pub open spec fn digit_run(s: Seq<char>) -> nat
    decreases s.len(),
{
    if s.len() > 0 && is_digit(s[0]) {
        1 + digit_run(s.drop_first())
    } else {
        0
    }
}

/// The number that a sequence of digits writes in decimal.
pub open spec fn digits_value(d: Seq<char>) -> nat
    decreases d.len(),
{
    if d.len() == 0 {
        0
    } else {
        10 * digits_value(d.drop_last()) + ((d.last() as int) - ('0' as int)) as nat
    }
}

/// The tokens of `s`, or `None` where it holds a character that starts no
/// token or a number too large for an `i64`. Whitespace is skipped, and a
/// number is the longest run of digits.
pub open spec fn lex_spec(s: Seq<char>) -> Option<Seq<Token>>
    decreases s.len(),
{
    if s.len() == 0 {
        Some(Seq::empty())
    } else if is_space(s[0]) {
        lex_spec(s.drop_first())
    } else if s[0] == '+' || s[0] == '(' || s[0] == ')' {
        match lex_spec(s.drop_first()) {
            Some(rest) => Some(
                seq![if s[0] == '+' { Token::Plus } else if s[0] == '(' { Token::LParen } else { Token::RParen }]
                    + rest,
            ),
            None => None,
        }
    } else if is_digit(s[0]) {
        let k = digit_run(s);
        let v = digits_value(s.take(k as int));
        if v > i64::MAX || k == 0 || k > s.len() {
            None
        } else {
            match lex_spec(s.skip(k as int)) {
                Some(rest) => Some(seq![Token::Num(v as i64)] + rest),
                None => None,
            }
        }
    } else {
        None
    }
}

proof fn lemma_digit_run_bound(s: Seq<char>)
    ensures
        digit_run(s) <= s.len(),
        forall|j: int| 0 <= j < digit_run(s) ==> is_digit(#[trigger] s[j]),
        digit_run(s) < s.len() ==> !is_digit(s[digit_run(s) as int]),
    decreases s.len(),
{
    if s.len() > 0 && is_digit(s[0]) {
        lemma_digit_run_bound(s.drop_first());
        assert forall|j: int| 0 <= j < digit_run(s) implies is_digit(#[trigger] s[j]) by {
            if j > 0 {
                assert(s[j] == s.drop_first()[j - 1]);
            }
        }
    }
}

/// Reads the longest run of digits of `chars` from position `start`, and gives its end
/// and its value, or `None` as the value when it does not fit in an `i64`.
fn lex_number(input: &str, start: usize, len: usize) -> (res: (usize, Option<i64>))
    requires
        len == input@.len(),
        start < len,
        is_digit(input@[start as int]),
    ensures
        res.0 == start + digit_run(input@.skip(start as int)),
        res.1 is Some <==> digits_value(input@.subrange(start as int, res.0 as int)) <= i64::MAX,
        res.1 is Some ==> res.1.unwrap() == digits_value(input@.subrange(start as int, res.0 as int)),
{
    let ghost s = input@.skip(start as int);
    proof {
        lemma_digit_run_bound(s);
    }
    let mut i = start;
    let mut value: i64 = 0;
    let mut overflow = false;
    while i < len && is_digit_char(input.get_char(i))
        invariant
            len == input@.len(),
            start <= i <= start + digit_run(s),
            digit_run(s) <= s.len(),
            s == input@.skip(start as int),
            forall|j: int| 0 <= j < digit_run(s) ==> is_digit(#[trigger] s[j]),
            digit_run(s) < s.len() ==> !is_digit(s[digit_run(s) as int]),
            overflow <==> digits_value(input@.subrange(start as int, i as int)) > i64::MAX,
            !overflow ==> value == digits_value(input@.subrange(start as int, i as int)),
        decreases len - i,
    {
        let c = input.get_char(i);
        let d = (c as u32 - 48) as i64;
        let ghost before = input@.subrange(start as int, i as int);
        assert(input@.subrange(start as int, i + 1).drop_last() =~= before);
        assert(input@.subrange(start as int, i + 1).last() == c);
        if !overflow {
            if value > (i64::MAX - d) / 10 {
                overflow = true;
            } else {
                value = value * 10 + d;
            }
        }
        i = i + 1;
        assert(s[i - 1 - start] == input@[i - 1]);
    }
    proof {
        if i < start + digit_run(s) {
            assert(s[i - start] == input@[i as int]);
        }
    }
    if overflow {
        (i, None)
    } else {
        (i, Some(value))
    }
}

fn is_digit_char(c: char) -> (r: bool)
    ensures
        r == is_digit(c),
{
    '0' <= c && c <= '9'
}

/// The tokens of `input`; an error where it holds a character that starts no
/// token or a number too large for an `i64`.
pub fn lex(input: &str) -> (res: Result<Vec<Token>, ()>)
    ensures
        match lex_spec(input@) {
            Some(toks) => res is Ok && res.unwrap()@ == toks,
            None => res is Err,
        },
{
    let len = input.unicode_len();
    let mut i: usize = 0;
    let mut rev: Vec<Token> = Vec::new();
    proof {
        assert(input@.skip(0) =~= input@);
        match lex_spec(input@) {
            Some(rest) => {
                assert(rev@ + rest =~= rest);
            },
            None => {},
        }
    }
    // Tokens are found from the front; they are collected in order.
    while i < len
        invariant
            len == input@.len(),
            i <= len,
            lex_spec(input@) == match lex_spec(input@.skip(i as int)) {
                Some(rest) => Some(rev@ + rest),
                None => None::<Seq<Token>>,
            },
        decreases len - i,
    {
        let ghost s = input@.skip(i as int);
        let c = input.get_char(i);
        assert(s[0] == c);
        if c == ' ' || c == '\t' || c == '\n' || c == '\r' {
            assert(s.drop_first() =~= input@.skip(i + 1));
            i = i + 1;
        } else if c == '+' || c == '(' || c == ')' {
            let t = if c == '+' {
                Token::Plus
            } else if c == '(' {
                Token::LParen
            } else {
                Token::RParen
            };
            assert(s.drop_first() =~= input@.skip(i + 1));
            let ghost old_rev = rev@;
            rev.push(t);
            proof {
                match lex_spec(input@.skip(i + 1)) {
                    Some(rest) => {
                        assert(old_rev + (seq![t] + rest) =~= rev@ + rest);
                    },
                    None => {},
                }
            }
            i = i + 1;
        } else if is_digit_char(c) {
            let (end, value) = lex_number(input, i, len);
            proof {
                lemma_digit_run_bound(s);
                assert(s.len() > 0);
                assert(s.take(digit_run(s) as int) =~= input@.subrange(i as int, end as int));
                assert(s.skip(digit_run(s) as int) =~= input@.skip(end as int));
            }
            match value {
                Some(v) => {
                    let ghost old_rev = rev@;
                    rev.push(Token::Num(v));
                    proof {
                        match lex_spec(input@.skip(end as int)) {
                            Some(rest) => {
                                assert(old_rev + (seq![Token::Num(v)] + rest) =~= rev@ + rest);
                            },
                            None => {},
                        }
                    }
                    i = end;
                },
                None => {
                    return Err(());
                },
            }
        } else {
            return Err(());
        }
    }
    assert(input@.skip(len as int) =~= Seq::<char>::empty());
    assert(rev@ + Seq::<Token>::empty() =~= rev@);
    Ok(rev)
}

// ---------------------------------------------------------------- parsing

/// How `{:?}` shows a token.
pub open spec fn token_text(t: Token) -> Seq<char> {
    match t {
        Token::Num(n) => "Num("@ + int_decimal(n as int) + ")"@,
        Token::Plus => "Plus"@,
        Token::LParen => "LParen"@,
        Token::RParen => "RParen"@,
    }
}

/// The result of a parsing step: the tree and the position after it, or the error.
pub type Step = Result<(Ast, nat), Seq<char>>;

pub open spec fn starts_e(t: Seq<Token>, pos: nat) -> bool {
    pos < t.len() && (t[pos as int] is Num || t[pos as int] is LParen)
}

/// `E -> num | ( S )`, from position `pos`.
pub open spec fn parse_e_spec(t: Seq<Token>, pos: nat) -> Step
    decreases t.len() - pos, 1nat,
{
    if pos < t.len() && t[pos as int] is Num {
        Ok((Ast::Num(t[pos as int]->Num_0), pos + 1))
    } else if pos < t.len() && t[pos as int] is LParen {
        match parse_s_spec(t, pos + 1) {
            Ok((a, p)) => {
                if p < t.len() && t[p as int] == Token::RParen {
                    Ok((a, p + 1))
                } else if p < t.len() {
                    Err("expected "@ + token_text(Token::RParen) + ", found "@ + token_text(t[p as int]))
                } else {
                    Err("expected "@ + token_text(Token::RParen) + ", got EOF"@)
                }
            },
            Err(m) => Err(m),
        }
    } else {
        Err("expected '(' or number"@)
    }
}

/// `S -> E S'`, from position `pos`.
pub open spec fn parse_s_spec(t: Seq<Token>, pos: nat) -> Step
    decreases t.len() - pos, 2nat,
{
    if starts_e(t, pos) {
        match parse_e_spec(t, pos) {
            Ok((prefix, p)) => {
                if pos < p <= t.len() {
                    parse_s_prime_spec(t, p, prefix)
                } else {
                    Err(Seq::empty())
                }
            },
            Err(m) => Err(m),
        }
    } else {
        Err("expected '(' or number"@)
    }
}

/// `S' -> ε | + S`, from position `pos`, after `prefix`.
pub open spec fn parse_s_prime_spec(t: Seq<Token>, pos: nat, prefix: Ast) -> Step
    decreases t.len() - pos, 0nat,
{
    if pos < t.len() && t[pos as int] == Token::Plus {
        match parse_s_spec(t, pos + 1) {
            Ok((suffix, p)) => Ok((Ast::Plus(Box::new(prefix), Box::new(suffix)), p)),
            Err(m) => Err(m),
        }
    } else if pos >= t.len() || t[pos as int] == Token::RParen {
        Ok((prefix, pos))
    } else {
        Err("expected '+', ')' or EOF"@)
    }
}

/// `T -> S $`, from position `pos`: the tree of the rest of the tokens, or
/// the first error met.
pub open spec fn parse_t_spec(t: Seq<Token>, pos: nat) -> Result<Ast, Seq<char>> {
    if starts_e(t, pos) {
        match parse_s_spec(t, pos) {
            Ok((a, p)) => {
                if p >= t.len() {
                    Ok(a)
                } else {
                    Err("expected EOF, found "@ + token_text(t[p as int]))
                }
            },
            Err(m) => Err(m),
        }
    } else {
        Err("expected '(' or number"@)
    }
}

/// The tree of the whole token sequence, or the first error met.
pub open spec fn parse_spec(t: Seq<Token>) -> Result<Ast, Seq<char>> {
    parse_t_spec(t, 0)
}

/// A parsing step `res` that left the parser at `pos` agrees with `spec`.
pub open spec fn step_matches(res: Result<Ast, String>, pos: usize, spec: Step) -> bool {
    match spec {
        Ok((a, p)) => res == Ok::<Ast, String>(a) && pos == p,
        Err(m) => res is Err && res->Err_0@ == m,
    }
}

/// How `{:?}` shows the lookahead at `pos`: `Some(token)` or `None`.
pub open spec fn lookahead_text(t: Seq<Token>, pos: nat) -> Seq<char> {
    if pos < t.len() {
        "Some("@ + token_text(t[pos as int]) + ")"@
    } else {
        "None"@
    }
}

/// The trace line of entering a state.
pub open spec fn state_line(name: Seq<char>, t: Seq<Token>, pos: nat) -> Seq<char> {
    "State: "@ + name + "\t\tLookahead: "@ + lookahead_text(t, pos) + "\n"@
}

/// The trace line of consuming a token.
pub open spec fn consuming_line(c: Token) -> Seq<char> {
    match c {
        Token::Num(n) => "consuming num("@ + int_decimal(n as int) + ")\n"@,
        _ => "consuming "@ + token_text(c) + "\n"@,
    }
}

/// The trace that `E` writes from `pos`: its state, the transition it takes,
/// the tokens it consumes and what the states it enters write, up to the end
/// or the first error.
pub open spec fn trace_e(t: Seq<Token>, pos: nat) -> Seq<char>
    decreases t.len() - pos, 1nat,
{
    state_line("E "@, t, pos) + if pos < t.len() && t[pos as int] is Num {
        "Transition E ⟼ num\n"@ + consuming_line(t[pos as int])
    } else if pos < t.len() && t[pos as int] is LParen {
        "Transition E ⟼ ( S )\n"@ + consuming_line(Token::LParen) + trace_s(t, pos + 1) + match parse_s_spec(t, pos + 1) {
            Ok((_, p)) => if p < t.len() && t[p as int] == Token::RParen {
                consuming_line(Token::RParen)
            } else {
                Seq::empty()
            },
            Err(_) => Seq::empty(),
        }
    } else {
        Seq::empty()
    }
}

/// The trace that `S` writes from `pos`.
pub open spec fn trace_s(t: Seq<Token>, pos: nat) -> Seq<char>
    decreases t.len() - pos, 2nat,
{
    state_line("S "@, t, pos) + if starts_e(t, pos) {
        "Transition S  ⟼ E S'\n"@ + trace_e(t, pos) + match parse_e_spec(t, pos) {
            Ok((_, p)) => if pos < p <= t.len() {
                trace_s_prime(t, p)
            } else {
                Seq::empty()
            },
            Err(_) => Seq::empty(),
        }
    } else {
        Seq::empty()
    }
}

/// The trace that `S'` writes from `pos`.
pub open spec fn trace_s_prime(t: Seq<Token>, pos: nat) -> Seq<char>
    decreases t.len() - pos, 0nat,
{
    state_line("S'"@, t, pos) + if pos < t.len() && t[pos as int] == Token::Plus {
        "Transition S’ ⟼ + S\n"@ + consuming_line(Token::Plus) + trace_s(t, pos + 1)
    } else if pos >= t.len() || t[pos as int] == Token::RParen {
        "Transition S’ ⟼ ε\n"@
    } else {
        Seq::empty()
    }
}

/// The trace that `T` writes from `pos`.
pub open spec fn trace_t(t: Seq<Token>, pos: nat) -> Seq<char> {
    state_line("T "@, t, pos) + if starts_e(t, pos) {
        "Transition T ⟼ S $\n"@ + trace_s(t, pos) + match parse_s_spec(t, pos) {
            Ok((_, p)) => if p >= t.len() {
                "consuming EOF\n"@
            } else {
                Seq::empty()
            },
            Err(_) => Seq::empty(),
        }
    } else {
        Seq::empty()
    }
}

impl Token {
    /// The text `{:?}` writes for the token.
    pub fn debug_text(&self) -> (s: String)
        ensures
            s@ == token_text(*self),
    {
        match self {
            Token::Num(n) => {
                let mut s = String::from_str("Num(");
                push_i64_decimal(&mut s, *n);
                s.append(")");
                s
            },
            Token::Plus => String::from_str("Plus"),
            Token::LParen => String::from_str("LParen"),
            Token::RParen => String::from_str("RParen"),
        }
    }
}

/// The parser: the tokens, the position of the next one to consume, and the
/// trace of the states it has entered, the transitions it has taken and the
/// tokens it has consumed, one line each.
pub struct ParserState<'t> {
    pub toks: &'t [Token],
    pub pos: usize,
    pub trace: String,
}

impl<'t> ParserState<'t> {
    /// A parser at the first of `toks`, with an empty trace.
    pub fn new(toks: &'t [Token]) -> (ps: Self)
        ensures
            ps.toks == toks,
            ps.pos == 0,
            ps.trace@ == Seq::<char>::empty(),
    {
        ParserState { toks, pos: 0, trace: String::new() }
    }

    fn peek(&self) -> (r: Option<&'t Token>)
        ensures
            r is Some <==> self.pos < self.toks@.len(),
            r is Some ==> *r.unwrap() == self.toks@[self.pos as int],
    {
        if self.pos < self.toks.len() {
            Some(&self.toks[self.pos])
        } else {
            None
        }
    }

    fn next(&mut self) -> (r: Option<&'t Token>)
        ensures
            final(self).toks == old(self).toks,
            final(self).trace == old(self).trace,
            r is Some <==> old(self).pos < old(self).toks@.len(),
            r is Some ==> *r.unwrap() == old(self).toks@[old(self).pos as int] && final(self).pos == old(self).pos + 1,
            r is None ==> final(self).pos == old(self).pos,
    {
        if self.pos < self.toks.len() {
            let t = &self.toks[self.pos];
            self.pos = self.pos + 1;
            Some(t)
        } else {
            None
        }
    }

    /// Appends `line` to the trace.
    fn note(&mut self, line: &str)
        ensures
            final(self).toks == old(self).toks,
            final(self).pos == old(self).pos,
            final(self).trace@ == old(self).trace@ + line@,
    {
        self.trace.append(line);
    }

    /// Appends the line of entering the state `name`.
    fn enter(&mut self, name: &str)
        ensures
            final(self).toks == old(self).toks,
            final(self).pos == old(self).pos,
            final(self).trace@ == old(self).trace@ + state_line(name@, old(self).toks@, old(self).pos as nat),
    {
        let ghost start = self.trace@;
        let la = if self.pos < self.toks.len() {
            let mut l = String::from_str("Some(");
            l.append(self.toks[self.pos].debug_text().as_str());
            l.append(")");
            l
        } else {
            String::from_str("None")
        };
        self.trace.append("State: ");
        self.trace.append(name);
        self.trace.append("\t\tLookahead: ");
        self.trace.append(la.as_str());
        self.trace.append("\n");
        assert(self.trace@ =~= start + state_line(name@, self.toks@, self.pos as nat));
    }

    /// Consumes the end of the input.
    pub fn parse_eof(&mut self) -> (res: Result<(), String>)
        ensures
            final(self).toks == old(self).toks,
            res is Ok <==> old(self).pos >= old(self).toks@.len(),
            final(self).pos == if old(self).pos < old(self).toks@.len() { old(self).pos + 1 } else { old(self).pos as int },
            res is Err ==> res->Err_0@ == "expected EOF, found "@ + token_text(old(self).toks@[old(self).pos as int]),
            final(self).trace@ == old(self).trace@ + if old(self).pos >= old(self).toks@.len() {
                "consuming EOF\n"@
            } else {
                Seq::empty()
            },
    {
        match self.next() {
            None => {
                self.note("consuming EOF\n");
                Ok(())
            },
            Some(c) => {
                let mut m = String::from_str("expected EOF, found ");
                m.append(c.debug_text().as_str());
                assert(self.trace@ =~= old(self).trace@ + Seq::<char>::empty());
                Err(m)
            },
        }
    }

    /// Consumes a number.
    pub fn parse_num(&mut self) -> (res: Result<i64, String>)
        ensures
            final(self).toks == old(self).toks,
            res is Ok <==> old(self).pos < old(self).toks@.len() && old(self).toks@[old(self).pos as int] is Num,
            res is Ok ==> res->Ok_0 == old(self).toks@[old(self).pos as int]->Num_0,
            final(self).pos == if old(self).pos < old(self).toks@.len() { old(self).pos + 1 } else { old(self).pos as int },
            res is Err ==> res->Err_0@ == "expected num"@,
            final(self).trace@ == old(self).trace@ + if res is Ok {
                consuming_line(old(self).toks@[old(self).pos as int])
            } else {
                Seq::empty()
            },
    {
        match self.next() {
            Some(Token::Num(n)) => {
                let ghost start = self.trace@;
                self.trace.append("consuming num(");
                push_i64_decimal(&mut self.trace, *n);
                self.trace.append(")\n");
                assert(self.trace@ =~= start + consuming_line(Token::Num(*n)));
                Ok(*n)
            },
            _ => {
                assert(self.trace@ =~= old(self).trace@ + Seq::<char>::empty());
                Err(String::from_str("expected num"))
            },
        }
    }

    /// Consumes the token `c`.
    pub fn parse_tok(&mut self, c: Token) -> (res: Result<(), String>)
        ensures
            final(self).toks == old(self).toks,
            res is Ok <==> old(self).pos < old(self).toks@.len() && old(self).toks@[old(self).pos as int] == c,
            final(self).pos == if old(self).pos < old(self).toks@.len() { old(self).pos + 1 } else { old(self).pos as int },
            res is Err ==> res->Err_0@ == if old(self).pos < old(self).toks@.len() {
                "expected "@ + token_text(c) + ", found "@ + token_text(old(self).toks@[old(self).pos as int])
            } else {
                "expected "@ + token_text(c) + ", got EOF"@
            },
            final(self).trace@ == old(self).trace@ + if res is Ok {
                "consuming "@ + token_text(c) + "\n"@
            } else {
                Seq::empty()
            },
    {
        match self.next() {
            None => {
                let mut m = String::from_str("expected ");
                m.append(c.debug_text().as_str());
                m.append(", got EOF");
                assert(self.trace@ =~= old(self).trace@ + Seq::<char>::empty());
                Err(m)
            },
            Some(d) => {
                if c == *d {
                    let ghost start = self.trace@;
                    self.trace.append("consuming ");
                    self.trace.append(c.debug_text().as_str());
                    self.trace.append("\n");
                    assert(self.trace@ =~= start + ("consuming "@ + token_text(c) + "\n"@));
                    Ok(())
                } else {
                    let mut m = String::from_str("expected ");
                    m.append(c.debug_text().as_str());
                    m.append(", found ");
                    m.append(d.debug_text().as_str());
                    assert(self.trace@ =~= old(self).trace@ + Seq::<char>::empty());
                    Err(m)
                }
            },
        }
    }

    /// `T`: on a number or `(`, goes on to `S $`.
    pub fn parse_t(&mut self) -> (res: Result<Ast, String>)
        requires
            old(self).pos <= old(self).toks@.len(),
        ensures
            final(self).toks == old(self).toks,
            res is Ok ==> final(self).pos == final(self).toks@.len(),
            match parse_t_spec(old(self).toks@, old(self).pos as nat) {
                Ok(a) => res == Ok::<Ast, String>(a),
                Err(m) => res is Err && res->Err_0@ == m,
            },
            final(self).trace@ == old(self).trace@ + trace_t(old(self).toks@, old(self).pos as nat),
    {
        let ghost t = self.toks@;
        let ghost pos = self.pos as nat;
        let ghost start = self.trace@;
        self.enter("T ");
        let ghost s1 = self.trace@;
        match self.peek() {
            Some(Token::Num(_)) | Some(Token::LParen) => {
                self.note("Transition T ⟼ S $\n");
                let ghost s2 = self.trace@;
                let r = self.parse_s();
                let ghost s3 = self.trace@;
                match r {
                    Err(m) => {
                        assert(self.trace@ =~= start + trace_t(t, pos));
                        return Err(m);
                    },
                    Ok(ans) => {
                        let e = self.parse_eof();
                        assert(self.trace@ =~= start + trace_t(t, pos));
                        match e {
                            Err(m) => Err(m),
                            Ok(_) => Ok(ans),
                        }
                    },
                }
            },
            _ => {
                assert(self.trace@ =~= start + trace_t(t, pos));
                Err(String::from_str("expected '(' or number"))
            },
        }
    }

    /// `S`: on a number or `(`, goes on to `E S'`.
    pub fn parse_s(&mut self) -> (res: Result<Ast, String>)
        requires
            old(self).pos <= old(self).toks@.len(),
        ensures
            final(self).toks == old(self).toks,
            final(self).pos <= final(self).toks@.len(),
            step_matches(res, final(self).pos, parse_s_spec(old(self).toks@, old(self).pos as nat)),
            res is Ok ==> final(self).pos > old(self).pos,
            final(self).trace@ == old(self).trace@ + trace_s(old(self).toks@, old(self).pos as nat),
        decreases old(self).toks@.len() - old(self).pos, 2nat,
    {
        let ghost t = self.toks@;
        let ghost pos = self.pos as nat;
        let ghost start = self.trace@;
        self.enter("S ");
        match self.peek() {
            Some(Token::Num(_)) | Some(Token::LParen) => {
                self.note("Transition S  ⟼ E S'\n");
                match self.parse_e() {
                    Err(m) => {
                        assert(self.trace@ =~= start + trace_s(t, pos));
                        Err(m)
                    },
                    Ok(prefix) => {
                        let r = self.parse_s_prime(prefix);
                        assert(self.trace@ =~= start + trace_s(t, pos));
                        r
                    },
                }
            },
            _ => {
                assert(self.trace@ =~= start + trace_s(t, pos));
                Err(String::from_str("expected '(' or number"))
            },
        }
    }

    /// `S'`: on `+`, goes on to `+ S`; on `)` or the end, to nothing.
    pub fn parse_s_prime(&mut self, prefix: Ast) -> (res: Result<Ast, String>)
        requires
            old(self).pos <= old(self).toks@.len(),
        ensures
            final(self).toks == old(self).toks,
            final(self).pos <= final(self).toks@.len(),
            step_matches(res, final(self).pos, parse_s_prime_spec(old(self).toks@, old(self).pos as nat, prefix)),
            res is Ok ==> final(self).pos >= old(self).pos,
            final(self).trace@ == old(self).trace@ + trace_s_prime(old(self).toks@, old(self).pos as nat),
        decreases old(self).toks@.len() - old(self).pos, 0nat,
    {
        let ghost t = self.toks@;
        let ghost pos = self.pos as nat;
        let ghost start = self.trace@;
        self.enter("S'");
        match self.peek() {
            Some(Token::Plus) => {
                self.note("Transition S’ ⟼ + S\n");
                match self.parse_tok(Token::Plus) {
                    Err(m) => {
                        return Err(m);
                    },
                    Ok(_) => {},
                }
                match self.parse_s() {
                    Err(m) => {
                        assert(self.trace@ =~= start + trace_s_prime(t, pos));
                        Err(m)
                    },
                    Ok(suffix) => {
                        assert(self.trace@ =~= start + trace_s_prime(t, pos));
                        Ok(Ast::Plus(Box::new(prefix), Box::new(suffix)))
                    },
                }
            },
            Some(Token::RParen) | None => {
                self.note("Transition S’ ⟼ ε\n");
                assert(self.trace@ =~= start + trace_s_prime(t, pos));
                Ok(prefix)
            },
            _ => {
                assert(self.trace@ =~= start + trace_s_prime(t, pos));
                Err(String::from_str("expected '+', ')' or EOF"))
            },
        }
    }

    /// `E`: on a number, consumes it; on `(`, goes on to `( S )`.
    pub fn parse_e(&mut self) -> (res: Result<Ast, String>)
        requires
            old(self).pos <= old(self).toks@.len(),
        ensures
            final(self).toks == old(self).toks,
            final(self).pos <= final(self).toks@.len(),
            step_matches(res, final(self).pos, parse_e_spec(old(self).toks@, old(self).pos as nat)),
            res is Ok ==> final(self).pos > old(self).pos,
            final(self).trace@ == old(self).trace@ + trace_e(old(self).toks@, old(self).pos as nat),
        decreases old(self).toks@.len() - old(self).pos, 1nat,
    {
        let ghost t = self.toks@;
        let ghost pos = self.pos as nat;
        let ghost start = self.trace@;
        self.enter("E ");
        match self.peek() {
            Some(Token::Num(_)) => {
                self.note("Transition E ⟼ num\n");
                let n = self.parse_num();
                assert(self.trace@ =~= start + trace_e(t, pos));
                match n {
                    Ok(n) => Ok(Ast::Num(n)),
                    Err(m) => Err(m),
                }
            },
            Some(Token::LParen) => {
                self.note("Transition E ⟼ ( S )\n");
                match self.parse_tok(Token::LParen) {
                    Err(m) => {
                        return Err(m);
                    },
                    Ok(_) => {},
                }
                match self.parse_s() {
                    Err(m) => {
                        assert(self.trace@ =~= start + trace_e(t, pos));
                        Err(m)
                    },
                    Ok(res) => {
                        let c = self.parse_tok(Token::RParen);
                        assert(self.trace@ =~= start + trace_e(t, pos));
                        match c {
                            Err(m) => Err(m),
                            Ok(_) => Ok(res),
                        }
                    },
                }
            },
            _ => {
                assert(self.trace@ =~= start + trace_e(t, pos));
                Err(String::from_str("expected '(' or number"))
            },
        }
    }
}

/// Parses the whole token sequence.
pub fn parse(toks: &[Token]) -> (res: Result<Ast, String>)
    ensures
        match parse_spec(toks@) {
            Ok(a) => res == Ok::<Ast, String>(a),
            Err(m) => res is Err && res->Err_0@ == m,
        },
{
    let mut ps = ParserState::new(toks);
    ps.parse_t()
}

/// Parses the whole token sequence, and gives the trace of the parse with it.
pub fn parse_traced(toks: &[Token]) -> (res: (Result<Ast, String>, String))
    ensures
        match parse_spec(toks@) {
            Ok(a) => res.0 == Ok::<Ast, String>(a),
            Err(m) => res.0 is Err && res.0->Err_0@ == m,
        },
        res.1@ == trace_t(toks@, 0),
{
    let mut ps = ParserState::new(toks);
    let r = ps.parse_t();
    assert(ps.trace@ =~= trace_t(toks@, 0));
    (r, ps.trace)
}

// ------------------------------------------------------------------- laws

/// The tokens that write `a` with as few parentheses as the grammar allows:
/// `+` groups to the right, so only a sum on the left of `+` is parenthesized.
pub open spec fn print_tokens(a: Ast) -> Seq<Token>
    decreases a,
{
    match a {
        Ast::Num(n) => seq![Token::Num(n)],
        Ast::Plus(l, r) => {
            let left = match *l {
                Ast::Num(n) => seq![Token::Num(n)],
                Ast::Plus(_, _) => seq![Token::LParen] + print_tokens(*l) + seq![Token::RParen],
            };
            left + seq![Token::Plus] + print_tokens(*r)
        },
    }
}

/// Position `p` is the end of the input or a closing parenthesis.
pub open spec fn at_follow(t: Seq<Token>, p: nat) -> bool {
    p >= t.len() || t[p as int] == Token::RParen
}

proof fn lemma_print_nonempty(a: Ast)
    ensures
        print_tokens(a).len() >= 1,
    decreases a,
{
    if let Ast::Plus(l, r) = a {
        lemma_print_nonempty(*r);
    }
}

/// From a position where `a` is written, followed by the end or `)`, `S`
/// reads back `a` and stops after it.
proof fn lemma_parse_printed(t: Seq<Token>, pos: nat, a: Ast)
    requires
        pos + print_tokens(a).len() <= t.len(),
        t.subrange(pos as int, (pos + print_tokens(a).len()) as int) == print_tokens(a),
        at_follow(t, (pos + print_tokens(a).len()) as nat),
    ensures
        parse_s_spec(t, pos) == Ok::<(Ast, nat), Seq<char>>((a, (pos + print_tokens(a).len()) as nat)),
    decreases a,
{
    let pa = print_tokens(a);
    assert(t[pos as int] == pa[0]);
    match a {
        Ast::Num(n) => {
            assert(parse_e_spec(t, pos) == Ok::<(Ast, nat), Seq<char>>((Ast::Num(n), pos + 1)));
        },
        Ast::Plus(l, r) => {
            let pl = print_tokens(*l);
            let pr = print_tokens(*r);
            lemma_print_nonempty(*l);
            lemma_print_nonempty(*r);
            let left = match *l {
                Ast::Num(n) => seq![Token::Num(n)],
                Ast::Plus(_, _) => seq![Token::LParen] + pl + seq![Token::RParen],
            };
            let k = left.len();
            assert(pa == left + seq![Token::Plus] + pr);
            assert(t[(pos + k) as int] == pa[k as int]);
            assert(pa[k as int] == Token::Plus);
            assert(t.subrange((pos + k + 1) as int, (pos + pa.len()) as int) =~= pa.subrange((k + 1) as int, pa.len() as int));
            assert(pa.subrange((k + 1) as int, pa.len() as int) =~= pr);
            match *l {
                Ast::Num(m) => {
                    assert(pa[0] == Token::Num(m));
                    assert(parse_e_spec(t, pos) == Ok::<(Ast, nat), Seq<char>>((*l, (pos + k) as nat)));
                },
                Ast::Plus(_, _) => {
                    assert(pa[0] == Token::LParen);
                    assert(t.subrange((pos + 1) as int, (pos + 1 + pl.len()) as int) =~= pa.subrange(1, (1 + pl.len()) as int));
                    assert(pa.subrange(1, (1 + pl.len()) as int) =~= pl);
                    assert(t[(pos + 1 + pl.len()) as int] == pa[(1 + pl.len()) as int]);
                    assert(pa[(1 + pl.len()) as int] == Token::RParen);
                    lemma_parse_printed(t, (pos + 1) as nat, *l);
                    assert(parse_e_spec(t, pos) == Ok::<(Ast, nat), Seq<char>>((*l, (pos + k) as nat)));
                },
            }
            lemma_parse_printed(t, (pos + k + 1) as nat, *r);
            assert(parse_s_prime_spec(t, (pos + k) as nat, *l) == Ok::<(Ast, nat), Seq<char>>((a, (pos + pa.len()) as nat)));
        },
    }
}

/// Parsing gives back every tree from the tokens that write it: the parser
/// accepts the printed form of each tree, and reads `+` as grouping to the right.
pub proof fn lemma_parse_print_round_trip(a: Ast)
    ensures
        parse_spec(print_tokens(a)) == Ok::<Ast, Seq<char>>(a),
{
    let t = print_tokens(a);
    lemma_print_nonempty(a);
    assert(t.subrange(0, t.len() as int) =~= t);
    lemma_parse_printed(t, 0, a);
    match a {
        Ast::Num(_) => {},
        Ast::Plus(l, r) => {
            match *l {
                Ast::Num(_) => {},
                Ast::Plus(_, _) => {},
            }
        },
    }
}

} // verus!
