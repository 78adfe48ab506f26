use crate::classify::digits_value;
use vstd::prelude::*;

verus! {

/// A decimal literal as written: a sign, the digits before the point and
/// the digits after it. Its value is `numerator() / denominator()`. In a
/// literal that the tokenizer yields, at least one digit run is non-empty.
#[derive(Debug, Clone, PartialEq)]
pub struct Decimal {
    pub negative: bool,
    pub whole: String,
    pub fraction: String,
}

impl Decimal {
    /// The numerator of the literal's value over `denominator()`.
    pub open spec fn numerator(&self) -> int {
        let m = digits_value(self.whole@ + self.fraction@) as int;
        if self.negative {
            -m
        } else {
            m
        }
    }

    /// Ten to the number of fractional digits.
    pub open spec fn denominator(&self) -> nat {
        vstd::arithmetic::power::pow(10, self.fraction@.len()) as nat
    }
}

#[derive(Debug, Clone, PartialEq)]
pub enum Token {
    Identifier(String),
    Float(Decimal),
    Int(i32),
    Comma,
    WhiteSpace,
}

/// Why a token could not be produced. Positions are zero-based.
#[derive(Debug, Clone, PartialEq)]
pub enum TokenError {
    /// The source could not supply a character that lexing required. The
    /// tokenizer holds its whole source and consumes only characters it has
    /// peeked, so it never yields this variant (see `lemma_no_read_failure`).
    Read,
    /// An unexpected character, seen as lookahead at the given position.
    Parse { line_num: usize, column_num: usize, character: char },
    /// A complete numeric literal whose value the numeric type cannot hold.
    Cast { line_num: usize, column_num: usize, string: String },
}

pub type NextToken = Result<Token, TokenError>;

/// What one pull of the tokenizer yields, as a mathematical value.
pub enum Lexed {
    Identifier(Seq<char>),
    Float { negative: bool, whole: Seq<char>, fraction: Seq<char> },
    Int(int),
    Comma,
    WhiteSpace,
    ReadFailure,
    ParseError { line: nat, column: nat, character: char },
    CastError { line: nat, column: nat, text: Seq<char> },
}

pub open spec fn token_view(t: Token) -> Lexed {
    match t {
        Token::Identifier(s) => Lexed::Identifier(s@),
        Token::Float(d) => Lexed::Float { negative: d.negative, whole: d.whole@, fraction: d.fraction@ },
        Token::Int(v) => Lexed::Int(v as int),
        Token::Comma => Lexed::Comma,
        Token::WhiteSpace => Lexed::WhiteSpace,
    }
}

pub open spec fn error_view(e: TokenError) -> Lexed {
    match e {
        TokenError::Read => Lexed::ReadFailure,
        TokenError::Parse { line_num, column_num, character } => Lexed::ParseError {
            line: line_num as nat,
            column: column_num as nat,
            character,
        },
        TokenError::Cast { line_num, column_num, string } => Lexed::CastError {
            line: line_num as nat,
            column: column_num as nat,
            text: string@,
        },
    }
}

/// The mathematical value of one result of the tokenizer.
pub open spec fn outcome(r: NextToken) -> Lexed {
    match r {
        Ok(t) => token_view(t),
        Err(e) => error_view(e),
    }
}

} // verus!
