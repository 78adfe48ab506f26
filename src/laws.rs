//! Properties of the whole result sequence, proved from the grammar.
use crate::classify::{alphanumeric, chars_of, digit, digits_value, whitespace};
use crate::lexing::{in_class, lemma_run_end_at, lex, lex_all, step, CharClass};
use crate::token::{outcome, Lexed, NextToken};
use vstd::prelude::*;

verus! {

/// Digit runs joined by single commas.
pub open spec fn comma_join(runs: Seq<Seq<char>>) -> Seq<char>
    decreases runs.len(),
{
    if runs.len() == 0 {
        seq![]
    } else if runs.len() == 1 {
        runs[0]
    } else {
        runs[0] + seq![','] + comma_join(runs.drop_first())
    }
}

/// One `Int` per run, with a `Comma` between each two.
pub open spec fn ints_with_commas(runs: Seq<Seq<char>>) -> Seq<Lexed>
    decreases runs.len(),
{
    if runs.len() == 0 {
        seq![]
    } else if runs.len() == 1 {
        seq![Lexed::Int(digits_value(runs[0]) as int)]
    } else {
        seq![Lexed::Int(digits_value(runs[0]) as int), Lexed::Comma] + ints_with_commas(
            runs.drop_first(),
        )
    }
}

pub open spec fn digit_run(r: Seq<char>) -> bool {
    r.len() > 0 && forall|m: int| 0 <= m < r.len() ==> digit(#[trigger] r[m])
}

proof fn lemma_comma_runs_from(s: Seq<char>, i: int, runs: Seq<Seq<char>>)
    requires
        0 <= i <= s.len(),
        runs.len() > 0,
        forall|k: int| 0 <= k < runs.len() ==> digit_run(#[trigger] runs[k]),
        forall|k: int| 0 <= k < runs.len() ==> digits_value(#[trigger] runs[k]) <= i32::MAX,
        s.subrange(i, s.len() as int) == comma_join(runs),
    ensures
        lex(s, i) == ints_with_commas(runs),
    decreases runs.len(),
{
    let r = runs[0];
    let j = i + r.len();
    let c = comma_join(runs);
    let rest = runs.drop_first();
    if runs.len() > 1 {
        assert(c == r + seq![','] + comma_join(rest));
        assert(c.len() == r.len() + 1 + comma_join(rest).len());
    }
    assert(j <= s.len());
    assert forall|m: int| i <= m < j implies s[m] == r[m - i] by {
        assert(s[m] == s.subrange(i, s.len() as int)[m - i]);
    }
    assert(digit(s[i]));
    assert forall|m: int| i + 1 <= m < j implies in_class(#[trigger] s[m], CharClass::Digit) by {
        assert(s[m] == r[m - i]);
    }
    if runs.len() > 1 {
        assert(s[j] == s.subrange(i, s.len() as int)[j - i]);
        assert(s[j] == ',');
    } else {
        assert(j == s.len());
    }
    lemma_run_end_at(s, i + 1, j, CharClass::Digit);
    assert(s.subrange(i, j) =~= r);
    assert(step(s, i) == Some((Lexed::Int(digits_value(r) as int), j)));
    if runs.len() > 1 {
        assert(step(s, j) == Some((Lexed::Comma, j + 1)));
        assert forall|k: int| 0 <= k < rest.len() implies digit_run(#[trigger] rest[k]) by {
            assert(rest[k] == runs[k + 1]);
        }
        assert forall|k: int| 0 <= k < rest.len() implies digits_value(#[trigger] rest[k])
            <= i32::MAX by {
            assert(rest[k] == runs[k + 1]);
        }
        let tail = comma_join(rest);
        assert forall|m: int| 0 <= m < tail.len() implies s[j + 1 + m] == tail[m] by {
            assert(s[j + 1 + m] == s.subrange(i, s.len() as int)[j + 1 + m - i]);
            assert(c[r.len() + 1 + m] == tail[m]);
        }
        assert(s.subrange(j + 1, s.len() as int) =~= tail);
        lemma_comma_runs_from(s, j + 1, rest);
        assert(lex(s, j) == seq![Lexed::Comma] + lex(s, j + 1));
        assert(lex(s, i) =~= ints_with_commas(runs));
    } else {
        assert(lex(s, j) == Seq::<Lexed>::empty());
        assert(lex(s, i) =~= ints_with_commas(runs));
    }
}

/// Digit runs separated by single commas lex to one `Int` per run, carrying
/// the run's value, with a `Comma` between each two (for runs whose value
/// fits an `i32`).
pub proof fn lemma_comma_separated_ints(runs: Seq<Seq<char>>)
    requires
        runs.len() > 0,
        forall|k: int| 0 <= k < runs.len() ==> digit_run(#[trigger] runs[k]),
        forall|k: int| 0 <= k < runs.len() ==> digits_value(#[trigger] runs[k]) <= i32::MAX,
    ensures
        lex_all(comma_join(runs)) == ints_with_commas(runs),
{
    let s = comma_join(runs);
    assert(s.subrange(0, s.len() as int) =~= s);
    lemma_comma_runs_from(s, 0, runs);
}

/// The text of a decimal literal: an optional minus sign, digits, a point,
/// digits.
pub open spec fn decimal_text(negative: bool, whole: Seq<char>, fraction: Seq<char>) -> Seq<char> {
    (if negative {
        seq!['-']
    } else {
        Seq::<char>::empty()
    }) + whole + seq!['.'] + fraction
}

/// A decimal literal lexes to a single `Float` that keeps its sign and both
/// digit runs, so its value is the signed digits over a power of ten.
pub proof fn lemma_decimal_literal(negative: bool, whole: Seq<char>, fraction: Seq<char>)
    requires
        digit_run(whole),
        digit_run(fraction),
    ensures
        lex_all(decimal_text(negative, whole, fraction)) == seq![
            Lexed::Float { negative, whole, fraction },
        ],
{
    let s = decimal_text(negative, whole, fraction);
    let p: int = if negative {
        1
    } else {
        0
    };
    let j = p + whole.len();
    assert forall|m: int| p <= m < j implies s[m] == whole[m - p] by {}
    assert(s[j] == '.');
    assert forall|m: int| j + 1 <= m < s.len() implies s[m] == fraction[m - j - 1] by {}
    assert forall|m: int| 1 <= m < j implies in_class(#[trigger] s[m], CharClass::Digit) by {
        assert(s[m] == whole[m - p]);
    }
    assert forall|m: int| j + 1 <= m < s.len() implies in_class(#[trigger] s[m], CharClass::Digit) by {
        assert(s[m] == fraction[m - j - 1]);
    }
    assert(s[0] == '-' || digit(s[0])) by {
        if !negative {
            assert(s[0] == whole[0]);
        }
    }
    lemma_run_end_at(s, 1, j, CharClass::Digit);
    lemma_run_end_at(s, j + 1, s.len() as int, CharClass::Digit);
    assert(s.subrange(p, j) =~= whole);
    assert(s.subrange(j + 1, s.len() as int) =~= fraction);
    assert(lex(s, s.len() as int) == Seq::<Lexed>::empty());
    assert(lex(s, 0) =~= seq![Lexed::Float { negative, whole, fraction }]);
}

/// Input made only of whitespace, of any length from one on, lexes to
/// exactly one `WhiteSpace` token.
pub proof fn lemma_whitespace_collapses(s: Seq<char>)
    requires
        s.len() >= 1,
        forall|m: int| 0 <= m < s.len() ==> whitespace(#[trigger] s[m]),
    ensures
        lex_all(s) == seq![Lexed::WhiteSpace],
{
    assert forall|m: int| 1 <= m < s.len() implies in_class(#[trigger] s[m], CharClass::Whitespace) by {}
    lemma_run_end_at(s, 1, s.len() as int, CharClass::Whitespace);
    assert(!digit(s[0]) && s[0] != '-' && !alphanumeric(s[0])) by {
        assert(whitespace(s[0]));
    }
    assert(lex(s, s.len() as int) == Seq::<Lexed>::empty());
    assert(lex(s, 0) =~= seq![Lexed::WhiteSpace]);
}

/// Input whose first character can start no token lexes to nothing, with no
/// error.
pub proof fn lemma_unstartable_input_is_empty(s: Seq<char>)
    requires
        s.len() > 0,
        !(s[0] == '-' || alphanumeric(s[0]) || whitespace(s[0]) || s[0] == ','),
    ensures
        lex_all(s) == Seq::<Lexed>::empty(),
{
}

/// No pull yields `ReadFailure`: every character that lexing consumes has
/// been seen as lookahead first.
pub proof fn lemma_no_read_failure(s: Seq<char>, i: int)
    ensures
        step(s, i) matches Some((t, n)) ==> !(t is ReadFailure),
{
}

/// Lexing the same source twice, each time from a fresh tokenizer, yields
/// the same results.
pub proof fn lemma_relex_identical(source: Seq<u8>, first: Seq<NextToken>, second: Seq<NextToken>)
    requires
        first.map_values(|x: NextToken| outcome(x)) == lex_all(chars_of(source)),
        second.map_values(|x: NextToken| outcome(x)) == lex_all(chars_of(source)),
    ensures
        first.map_values(|x: NextToken| outcome(x)) == second.map_values(|x: NextToken| outcome(x)),
{
}

} // verus!
