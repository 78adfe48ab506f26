use crate::chars::Chars;
use crate::classify::{
    chars_of, digit, digit_value, digits_value, is_alphanumeric, is_digit, is_end_of_line,
    is_whitespace, to_digit,
};
use crate::lexing::{
    digits_start, float_outcome, int_outcome, lemma_position_bound, lemma_run_end_bounds,
    lemma_step_advances, lex, lex_all, lex_identifier, lex_number, position, position_at, run_end,
    step, CharClass,
};
use crate::token::{error_view, outcome, Decimal, Lexed, NextToken, Token, TokenError};
use vstd::prelude::*;

verus! {

/// One past the largest magnitude that an `i32` literal can have.
pub const MAGNITUDE_CAP: u64 = 2147483649;

/// Relies on String::push: the character is appended at the end.
#[verifier::external_body]
fn push_char(s: &mut String, c: char)
    ensures
        final(s)@ == old(s)@.push(c),
{
    s.push(c)
}

/// The magnitude of a digit run, capped where it can no longer fit an `i32`.
pub open spec fn capped(digits: Seq<char>) -> nat {
    if digits_value(digits) < MAGNITUDE_CAP {
        digits_value(digits)
    } else {
        MAGNITUDE_CAP as nat
    }
}

/// Turns a byte source into results, one token or error per pull.
pub struct Tokenizer {
    chars: Chars,
    line_num: usize,
    column_num: usize,
}

impl Tokenizer {
    /// The whole input, as characters.
    pub closed spec fn text(&self) -> Seq<char> {
        self.chars.text()
    }

    /// How many characters have been consumed.
    pub closed spec fn consumed(&self) -> nat {
        self.chars.consumed()
    }

    /// The (line, column) counters.
    pub closed spec fn counters(&self) -> (nat, nat) {
        (self.line_num as nat, self.column_num as nat)
    }

    pub closed spec fn wf(&self) -> bool {
        &&& self.chars.wf()
        &&& self.consumed() <= self.text().len()
        &&& self.counters() == position(self.text().take(self.consumed() as int))
    }

    pub fn from_reader(reader: Vec<u8>) -> (t: Tokenizer)
        ensures
            t.wf(),
            t.text() == chars_of(reader@),
            t.consumed() == 0,
    {
        let t = Tokenizer { chars: Chars::new(reader), line_num: 0, column_num: 0 };
        proof {
            assert(t.text().take(0) =~= Seq::<char>::empty());
        }
        t
    }

    /// The zero-based line of the next character.
    pub fn line_num(&self) -> (r: usize)
        requires
            self.wf(),
        ensures
            r == position_at(self.text(), self.consumed() as int).0,
    {
        self.line_num
    }

    /// The zero-based column of the next character.
    pub fn column_num(&self) -> (r: usize)
        requires
            self.wf(),
        ensures
            r == position_at(self.text(), self.consumed() as int).1,
    {
        self.column_num
    }

    /// Consumes one character and moves the counters past it.
    fn advance(&mut self) -> (r: Option<char>)
        requires
            old(self).wf(),
        ensures
            final(self).wf(),
            final(self).text() == old(self).text(),
            old(self).consumed() < old(self).text().len() ==> r == Some(
                old(self).text()[old(self).consumed() as int],
            ) && final(self).consumed() == old(self).consumed() + 1,
            old(self).consumed() >= old(self).text().len() ==> r is None && final(self).consumed()
                == old(self).consumed(),
    {
        let ghost s = self.text();
        let ghost n = self.consumed() as int;
        let r = self.chars.next();
        match r {
            None => None,
            Some(c) => {
                proof {
                    self.chars.lemma_len_fits();
                    lemma_position_bound(s.take(n));
                    assert(s.take(n + 1).drop_last() =~= s.take(n));
                }
                if is_end_of_line(c) {
                    self.line_num = self.line_num + 1;
                    self.column_num = 0;
                } else {
                    self.column_num = self.column_num + 1;
                }
                Some(c)
            },
        }
    }

    fn new_parse_error(&self, character: char) -> (e: TokenError)
        requires
            self.wf(),
        ensures
            error_view(e) == (Lexed::ParseError {
                line: position_at(self.text(), self.consumed() as int).0,
                column: position_at(self.text(), self.consumed() as int).1,
                character,
            }),
    {
        TokenError::Parse { line_num: self.line_num, column_num: self.column_num, character }
    }

    fn new_cast_error(&self, string: String) -> (e: TokenError)
        requires
            self.wf(),
        ensures
            error_view(e) == (Lexed::CastError {
                line: position_at(self.text(), self.consumed() as int).0,
                column: position_at(self.text(), self.consumed() as int).1,
                text: string@,
            }),
    {
        TokenError::Cast { line_num: self.line_num, column_num: self.column_num, string }
    }

    fn cast_int(
        &self,
        Ghost(start): Ghost<int>,
        negative: bool,
        has_digits: bool,
        magnitude: u64,
        text: String,
    ) -> (r: NextToken)
        requires
            self.wf(),
            0 <= start < self.consumed(),
            text@ == self.text().subrange(start, self.consumed() as int),
            negative == (self.text()[start] == '-'),
            has_digits == (digits_start(self.text(), start) < self.consumed()),
            magnitude == capped(
                self.text().subrange(digits_start(self.text(), start), self.consumed() as int),
            ),
        ensures
            outcome(r) == int_outcome(self.text(), start, self.consumed() as int),
    {
        if !has_digits {
            Err(self.new_cast_error(text))
        } else if negative {
            if magnitude <= 2147483648 {
                Ok(Token::Int((0i64 - magnitude as i64) as i32))
            } else {
                Err(self.new_cast_error(text))
            }
        } else {
            if magnitude <= 2147483647 {
                Ok(Token::Int(magnitude as i32))
            } else {
                Err(self.new_cast_error(text))
            }
        }
    }

    fn cast_float(
        &self,
        Ghost(start): Ghost<int>,
        Ghost(dot): Ghost<int>,
        negative: bool,
        has_digits: bool,
        whole: String,
        fraction: String,
        text: String,
    ) -> (r: NextToken)
        requires
            self.wf(),
            0 <= start < dot < self.consumed(),
            text@ == self.text().subrange(start, self.consumed() as int),
            whole@ == self.text().subrange(digits_start(self.text(), start), dot),
            fraction@ == self.text().subrange(dot + 1, self.consumed() as int),
            negative == (self.text()[start] == '-'),
            has_digits == (whole@.len() + fraction@.len() > 0),
        ensures
            outcome(r) == float_outcome(self.text(), start, dot, self.consumed() as int),
    {
        if has_digits {
            Ok(Token::Float(Decimal { negative, whole, fraction }))
        } else {
            Err(self.new_cast_error(text))
        }
    }

    /// Lexes the digits after a decimal point.
    fn tokenize_decimal(
        &mut self,
        Ghost(start): Ghost<int>,
        Ghost(dot): Ghost<int>,
        negative: bool,
        has_whole: bool,
        whole: String,
        text: String,
    ) -> (r: NextToken)
        requires
            old(self).wf(),
            0 <= start < dot < old(self).text().len(),
            old(self).text()[dot] == '.',
            dot == run_end(old(self).text(), start + 1, CharClass::Digit),
            old(self).consumed() == dot + 1,
            text@ == old(self).text().subrange(start, dot + 1),
            whole@ == old(self).text().subrange(digits_start(old(self).text(), start), dot),
            negative == (old(self).text()[start] == '-'),
            has_whole == (whole@.len() > 0),
        ensures
            final(self).wf(),
            final(self).text() == old(self).text(),
            (outcome(r), final(self).consumed() as int) == lex_number(old(self).text(), start),
    {
        let ghost s = self.text();
        let mut text = text;
        let mut fraction = String::new();
        let mut has_fraction = false;
        proof {
            lemma_run_end_bounds(s, dot + 1, CharClass::Digit);
        }
        loop
            invariant
                self.wf(),
                self.text() == s,
                s == old(self).text(),
                0 <= start < dot < s.len(),
                s[dot] == '.',
                dot == run_end(s, start + 1, CharClass::Digit),
                whole@ == s.subrange(digits_start(s, start), dot),
                negative == (s[start] == '-'),
                has_whole == (whole@.len() > 0),
                dot + 1 <= self.consumed() <= s.len(),
                text@ == s.subrange(start, self.consumed() as int),
                fraction@ == s.subrange(dot + 1, self.consumed() as int),
                has_fraction == (fraction@.len() > 0),
                run_end(s, self.consumed() as int, CharClass::Digit) == run_end(
                    s,
                    dot + 1,
                    CharClass::Digit,
                ),
            decreases s.len() - self.consumed(),
        {
            let ghost n = self.consumed() as int;
            match self.chars.peek() {
                None => {
                    return self.cast_float(
                        Ghost(start),
                        Ghost(dot),
                        negative,
                        has_whole || has_fraction,
                        whole,
                        fraction,
                        text,
                    );
                },
                Some(c) => {
                    if is_digit(c) {
                        if self.advance().is_none() {
                            return Err(TokenError::Read);
                        }
                        push_char(&mut text, c);
                        push_char(&mut fraction, c);
                        has_fraction = true;
                        proof {
                            assert(s.subrange(start, n + 1) =~= s.subrange(start, n).push(c));
                            assert(s.subrange(dot + 1, n + 1) =~= s.subrange(dot + 1, n).push(c));
                        }
                    } else if is_whitespace(c) || c == ',' {
                        return self.cast_float(
                            Ghost(start),
                            Ghost(dot),
                            negative,
                            has_whole || has_fraction,
                            whole,
                            fraction,
                            text,
                        );
                    } else {
                        return Err(self.new_parse_error(c));
                    }
                },
            }
        }
    }

    /// Lexes an integer, or the whole part of a decimal, whose first
    /// character `c` has just been consumed.
    fn tokenize_num(&mut self, Ghost(start): Ghost<int>, c: char) -> (r: NextToken)
        requires
            old(self).wf(),
            0 <= start < old(self).text().len(),
            c == old(self).text()[start],
            c == '-' || digit(c),
            old(self).consumed() == start + 1,
        ensures
            final(self).wf(),
            final(self).text() == old(self).text(),
            (outcome(r), final(self).consumed() as int) == lex_number(old(self).text(), start),
    {
        let ghost s = self.text();
        let ghost ds = digits_start(s, start);
        let negative = c == '-';
        let mut text = String::new();
        let mut whole = String::new();
        let mut has_digits = false;
        let mut magnitude: u64 = 0;
        push_char(&mut text, c);
        proof {
            assert(s.subrange(start, start + 1) =~= seq![c]);
            assert(s.subrange(ds, ds) =~= Seq::<char>::empty());
            lemma_run_end_bounds(s, start + 1, CharClass::Digit);
        }
        if !negative {
            push_char(&mut whole, c);
            has_digits = true;
            magnitude = to_digit(c);
            proof {
                let w = s.subrange(ds, start + 1);
                assert(w =~= seq![c]);
                assert(w.drop_last() =~= Seq::<char>::empty());
                assert(digits_value(w.drop_last()) == 0);
                assert(w.last() == c);
                assert(digits_value(w) == digit_value(c));
            }
        }
        loop
            invariant
                self.wf(),
                self.text() == s,
                s == old(self).text(),
                0 <= start < s.len(),
                start + 1 <= self.consumed() <= s.len(),
                ds == digits_start(s, start),
                ds <= self.consumed(),
                negative == (s[start] == '-'),
                text@ == s.subrange(start, self.consumed() as int),
                whole@ == s.subrange(ds, self.consumed() as int),
                has_digits == (ds < self.consumed()),
                magnitude == capped(whole@),
                run_end(s, self.consumed() as int, CharClass::Digit) == run_end(
                    s,
                    start + 1,
                    CharClass::Digit,
                ),
            decreases s.len() - self.consumed(),
        {
            let ghost n = self.consumed() as int;
            match self.chars.peek() {
                None => {
                    return self.cast_int(Ghost(start), negative, has_digits, magnitude, text);
                },
                Some(c) => {
                    if is_digit(c) {
                        if self.advance().is_none() {
                            return Err(TokenError::Read);
                        }
                        let ghost w = whole@;
                        push_char(&mut text, c);
                        push_char(&mut whole, c);
                        has_digits = true;
                        let d = to_digit(c);
                        proof {
                            assert(s.subrange(start, n + 1) =~= s.subrange(start, n).push(c));
                            assert(s.subrange(ds, n + 1) =~= w.push(c));
                            assert(w.push(c).drop_last() =~= w);
                        }
                        if magnitude < MAGNITUDE_CAP {
                            let m = magnitude * 10 + d;
                            magnitude = if m < MAGNITUDE_CAP {
                                m
                            } else {
                                MAGNITUDE_CAP
                            };
                        }
                    } else if c == '.' {
                        if self.advance().is_none() {
                            return Err(TokenError::Read);
                        }
                        push_char(&mut text, c);
                        proof {
                            assert(s.subrange(start, n + 1) =~= s.subrange(start, n).push(c));
                        }
                        return self.tokenize_decimal(
                            Ghost(start),
                            Ghost(n),
                            negative,
                            has_digits,
                            whole,
                            text,
                        );
                    } else if is_whitespace(c) || c == ',' {
                        return self.cast_int(Ghost(start), negative, has_digits, magnitude, text);
                    } else {
                        return Err(self.new_parse_error(c));
                    }
                },
            }
        }
    }

    /// Lexes an identifier whose first character `c` has just been consumed.
    fn tokenize_identifier(&mut self, Ghost(start): Ghost<int>, c: char) -> (r: NextToken)
        requires
            old(self).wf(),
            0 <= start < old(self).text().len(),
            c == old(self).text()[start],
            old(self).consumed() == start + 1,
        ensures
            final(self).wf(),
            final(self).text() == old(self).text(),
            (outcome(r), final(self).consumed() as int) == lex_identifier(old(self).text(), start),
    {
        let ghost s = self.text();
        let mut text = String::new();
        push_char(&mut text, c);
        proof {
            assert(s.subrange(start, start + 1) =~= seq![c]);
        }
        loop
            invariant
                self.wf(),
                self.text() == s,
                s == old(self).text(),
                0 <= start < s.len(),
                start + 1 <= self.consumed() <= s.len(),
                text@ == s.subrange(start, self.consumed() as int),
                run_end(s, self.consumed() as int, CharClass::Alphanumeric) == run_end(
                    s,
                    start + 1,
                    CharClass::Alphanumeric,
                ),
            decreases s.len() - self.consumed(),
        {
            let ghost n = self.consumed() as int;
            match self.chars.peek() {
                None => {
                    return Ok(Token::Identifier(text));
                },
                Some(c) => {
                    if is_alphanumeric(c) {
                        if self.advance().is_none() {
                            return Err(TokenError::Read);
                        }
                        push_char(&mut text, c);
                        proof {
                            assert(s.subrange(start, n + 1) =~= s.subrange(start, n).push(c));
                        }
                    } else if is_whitespace(c) {
                        return Ok(Token::Identifier(text));
                    } else {
                        return Err(self.new_parse_error(c));
                    }
                },
            }
        }
    }

    /// Lexes a run of whitespace whose first character has just been
    /// consumed, into a single token.
    fn tokenize_whitespace(&mut self, Ghost(start): Ghost<int>) -> (r: NextToken)
        requires
            old(self).wf(),
            0 <= start < old(self).text().len(),
            old(self).consumed() == start + 1,
        ensures
            final(self).wf(),
            final(self).text() == old(self).text(),
            outcome(r) == Lexed::WhiteSpace,
            final(self).consumed() == run_end(old(self).text(), start + 1, CharClass::Whitespace),
    {
        let ghost s = self.text();
        loop
            invariant
                self.wf(),
                self.text() == s,
                s == old(self).text(),
                start + 1 <= self.consumed() <= s.len(),
                run_end(s, self.consumed() as int, CharClass::Whitespace) == run_end(
                    s,
                    start + 1,
                    CharClass::Whitespace,
                ),
            decreases s.len() - self.consumed(),
        {
            match self.chars.peek() {
                None => {
                    return Ok(Token::WhiteSpace);
                },
                Some(c) => {
                    if is_whitespace(c) {
                        if self.advance().is_none() {
                            return Err(TokenError::Read);
                        }
                    } else {
                        return Ok(Token::WhiteSpace);
                    }
                },
            }
        }
    }

    /// The token for the punctuation character `c`, just consumed.
    fn tokenize_punctuation(&self, c: char) -> (r: NextToken)
        requires
            self.wf(),
        ensures
            c == ',' ==> outcome(r) == Lexed::Comma,
            c != ',' ==> outcome(r) == (Lexed::ParseError {
                line: position_at(self.text(), self.consumed() as int).0,
                column: position_at(self.text(), self.consumed() as int).1,
                character: c,
            }),
    {
        if c == ',' {
            Ok(Token::Comma)
        } else {
            Err(self.new_parse_error(c))
        }
    }

    /// The next token or error; `None` once the input is exhausted or the
    /// lookahead cannot start a token.
    pub fn next(&mut self) -> (r: Option<NextToken>)
        requires
            old(self).wf(),
        ensures
            final(self).wf(),
            final(self).text() == old(self).text(),
            match step(old(self).text(), old(self).consumed() as int) {
                None => r is None && final(self).consumed() == old(self).consumed(),
                Some((t, n)) => (r matches Some(x) && outcome(x) == t) && final(self).consumed()
                    == n,
            },
    {
        let ghost start = self.consumed() as int;
        match self.chars.peek() {
            None => None,
            Some(c) => {
                if c == '-' || is_digit(c) {
                    if self.advance().is_none() {
                        return Some(Err(TokenError::Read));
                    }
                    Some(self.tokenize_num(Ghost(start), c))
                } else if is_alphanumeric(c) {
                    if self.advance().is_none() {
                        return Some(Err(TokenError::Read));
                    }
                    Some(self.tokenize_identifier(Ghost(start), c))
                } else if is_whitespace(c) {
                    if self.advance().is_none() {
                        return Some(Err(TokenError::Read));
                    }
                    Some(self.tokenize_whitespace(Ghost(start)))
                } else if c == ',' {
                    if self.advance().is_none() {
                        return Some(Err(TokenError::Read));
                    }
                    Some(self.tokenize_punctuation(c))
                } else {
                    None
                }
            },
        }
    }
    /// Pulls every remaining result, in order, until the sequence ends.
    pub fn collect_all(&mut self) -> (r: Vec<NextToken>)
        requires
            old(self).wf(),
        ensures
            final(self).wf(),
            final(self).text() == old(self).text(),
            r@.map_values(|x: NextToken| outcome(x)) == lex(
                old(self).text(),
                old(self).consumed() as int,
            ),
    {
        let ghost s = self.text();
        let ghost begin = self.consumed() as int;
        let mut results: Vec<NextToken> = Vec::new();
        loop
            invariant
                self.wf(),
                self.text() == s,
                s == old(self).text(),
                begin == old(self).consumed(),
                self.consumed() <= s.len(),
                results@.map_values(|x: NextToken| outcome(x)) + lex(s, self.consumed() as int)
                    == lex(s, begin),
            decreases s.len() - self.consumed(),
        {
            let ghost n = self.consumed() as int;
            proof {
                lemma_step_advances(s, n);
            }
            match self.next() {
                None => {
                    proof {
                        assert(results@.map_values(|x: NextToken| outcome(x)) + lex(s, n)
                            =~= results@.map_values(|x: NextToken| outcome(x)));
                    }
                    return results;
                },
                Some(x) => {
                    let ghost before = results@;
                    results.push(x);
                    proof {
                        let m = self.consumed() as int;
                        assert(lex(s, n) == seq![outcome(x)] + lex(s, m));
                        assert(results@.map_values(|y: NextToken| outcome(y)) =~= before.map_values(
                            |y: NextToken| outcome(y),
                        ).push(outcome(x)));
                        assert(before.map_values(|y: NextToken| outcome(y)) + lex(s, n)
                            =~= results@.map_values(|y: NextToken| outcome(y)) + lex(s, m));
                    }
                },
            }
        }
    }
}

/// Lexes a whole byte source from the start.
pub fn tokenize(source: Vec<u8>) -> (r: Vec<NextToken>)
    ensures
        r@.map_values(|x: NextToken| outcome(x)) == lex_all(chars_of(source@)),
{
    let mut t = Tokenizer::from_reader(source);
    t.collect_all()
}

} // verus!
