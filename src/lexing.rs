//! The lexical grammar as mathematics: what one pull of the tokenizer
//! yields from a given point of the input, and the whole result sequence.
use crate::classify::{alphanumeric, digit, digits_value, letter, line_end, whitespace};
use crate::token::Lexed;
use vstd::prelude::*;

verus! {

/// The character classes that a token's run is made of.
pub enum CharClass {
    Digit,
    Alphanumeric,
    Whitespace,
}

pub open spec fn in_class(c: char, class: CharClass) -> bool {
    match class {
        CharClass::Digit => digit(c),
        CharClass::Alphanumeric => alphanumeric(c),
        CharClass::Whitespace => whitespace(c),
    }
}

/// The index of the first character at or after `i` that is not in `class`
/// (or the length of `s`).
pub open spec fn run_end(s: Seq<char>, i: int, class: CharClass) -> int
    decreases s.len() - i,
{
    if 0 <= i < s.len() && in_class(s[i], class) {
        run_end(s, i + 1, class)
    } else {
        i
    }
}

/// The (line, column) reached after consuming `consumed`, both counted from
/// zero: each character moves the column on by one, and a line terminator
/// moves to column zero of the next line instead.
pub open spec fn position(consumed: Seq<char>) -> (nat, nat)
    decreases consumed.len(),
{
    if consumed.len() == 0 {
        (0, 0)
    } else {
        let (line, column) = position(consumed.drop_last());
        if line_end(consumed.last()) {
            (line + 1, 0)
        } else {
            (line, column + 1)
        }
    }
}

/// The position after the first `n` characters of `s`.
pub open spec fn position_at(s: Seq<char>, n: int) -> (nat, nat) {
    position(s.take(n))
}

/// A lookahead on which a numeric token is complete.
pub open spec fn ends_number(s: Seq<char>, j: int) -> bool {
    j >= s.len() || whitespace(s[j]) || s[j] == ','
}

/// A lookahead on which an identifier is complete.
pub open spec fn ends_identifier(s: Seq<char>, j: int) -> bool {
    j >= s.len() || whitespace(s[j])
}

/// The error for the unexpected lookahead character at index `j`.
pub open spec fn parse_error_at(s: Seq<char>, j: int) -> Lexed {
    Lexed::ParseError { line: position_at(s, j).0, column: position_at(s, j).1, character: s[j] }
}

/// The error for the literal `s[i..j]`, which its type cannot hold.
pub open spec fn cast_error_at(s: Seq<char>, i: int, j: int) -> Lexed {
    Lexed::CastError {
        line: position_at(s, j).0,
        column: position_at(s, j).1,
        text: s.subrange(i, j),
    }
}

/// Where the digits of a numeric literal starting at `i` begin.
pub open spec fn digits_start(s: Seq<char>, i: int) -> int {
    if s[i] == '-' {
        i + 1
    } else {
        i
    }
}

pub open spec fn signed(negative: bool, magnitude: nat) -> int {
    if negative {
        -magnitude
    } else {
        magnitude as int
    }
}

/// The integer literal `s[i..j]`: an optional minus sign and digits, whose
/// value must fit in an `i32`.
pub open spec fn int_outcome(s: Seq<char>, i: int, j: int) -> Lexed {
    let digits = s.subrange(digits_start(s, i), j);
    let v = signed(s[i] == '-', digits_value(digits));
    if digits.len() > 0 && i32::MIN <= v <= i32::MAX {
        Lexed::Int(v)
    } else {
        cast_error_at(s, i, j)
    }
}

/// The decimal literal `s[i..k]` with its point at index `j`: it needs a
/// digit on at least one side of the point.
pub open spec fn float_outcome(s: Seq<char>, i: int, j: int, k: int) -> Lexed {
    let whole = s.subrange(digits_start(s, i), j);
    let fraction = s.subrange(j + 1, k);
    if whole.len() + fraction.len() > 0 {
        Lexed::Float { negative: s[i] == '-', whole, fraction }
    } else {
        cast_error_at(s, i, k)
    }
}

/// A numeric token starting at `i`, with the index where lexing stops.
pub open spec fn lex_number(s: Seq<char>, i: int) -> (Lexed, int) {
    let j = run_end(s, i + 1, CharClass::Digit);
    if j < s.len() && s[j] == '.' {
        let k = run_end(s, j + 1, CharClass::Digit);
        if ends_number(s, k) {
            (float_outcome(s, i, j, k), k)
        } else {
            (parse_error_at(s, k), k)
        }
    } else if ends_number(s, j) {
        (int_outcome(s, i, j), j)
    } else {
        (parse_error_at(s, j), j)
    }
}

/// An identifier starting at `i`, with the index where lexing stops.
pub open spec fn lex_identifier(s: Seq<char>, i: int) -> (Lexed, int) {
    let j = run_end(s, i + 1, CharClass::Alphanumeric);
    if ends_identifier(s, j) {
        (Lexed::Identifier(s.subrange(i, j)), j)
    } else {
        (parse_error_at(s, j), j)
    }
}

/// One pull from index `i`: the result and the index where the next pull
/// starts, or `None` where the sequence ends.
pub open spec fn step(s: Seq<char>, i: int) -> Option<(Lexed, int)> {
    if i < 0 || i >= s.len() {
        None
    } else if s[i] == '-' || digit(s[i]) {
        Some(lex_number(s, i))
    } else if letter(s[i]) {
        Some(lex_identifier(s, i))
    } else if whitespace(s[i]) {
        Some((Lexed::WhiteSpace, run_end(s, i + 1, CharClass::Whitespace)))
    } else if s[i] == ',' {
        Some((Lexed::Comma, i + 1))
    } else {
        None
    }
}

/// Every result that pulls from index `i` on yield, in order.
pub open spec fn lex(s: Seq<char>, i: int) -> Seq<Lexed>
    decreases s.len() - i,
{
    match step(s, i) {
        None => seq![],
        Some((t, n)) => if i < n <= s.len() {
            seq![t] + lex(s, n)
        } else {
            seq![t]
        },
    }
}

/// All results for the input `s`.
pub open spec fn lex_all(s: Seq<char>) -> Seq<Lexed> {
    lex(s, 0)
}

pub proof fn lemma_run_end_bounds(s: Seq<char>, i: int, class: CharClass)
    requires
        0 <= i <= s.len(),
    ensures
        i <= run_end(s, i, class) <= s.len(),
    decreases s.len() - i,
{
    if i < s.len() && in_class(s[i], class) {
        lemma_run_end_bounds(s, i + 1, class);
    }
}

/// `run_end` stops exactly at `k` when everything from `i` up to `k` is in
/// the class and `k` is not.
pub proof fn lemma_run_end_at(s: Seq<char>, i: int, k: int, class: CharClass)
    requires
        0 <= i <= k <= s.len(),
        forall|m: int| i <= m < k ==> in_class(#[trigger] s[m], class),
        k == s.len() || !in_class(s[k], class),
    ensures
        run_end(s, i, class) == k,
    decreases k - i,
{
    if i < k {
        lemma_run_end_at(s, i + 1, k, class);
    }
}

/// Each pull that yields a result consumes at least one character.
pub proof fn lemma_step_advances(s: Seq<char>, i: int)
    ensures
        step(s, i) matches Some((t, n)) ==> i < n <= s.len(),
{
    if 0 <= i < s.len() {
        lemma_run_end_bounds(s, i + 1, CharClass::Digit);
        lemma_run_end_bounds(s, i + 1, CharClass::Alphanumeric);
        lemma_run_end_bounds(s, i + 1, CharClass::Whitespace);
        let j = run_end(s, i + 1, CharClass::Digit);
        if j < s.len() {
            lemma_run_end_bounds(s, j + 1, CharClass::Digit);
        }
    }
}

/// The counters never exceed the number of characters consumed.
pub proof fn lemma_position_bound(p: Seq<char>)
    ensures
        position(p).0 + position(p).1 <= p.len(),
    decreases p.len(),
{
    if p.len() > 0 {
        lemma_position_bound(p.drop_last());
    }
}

} // verus!
