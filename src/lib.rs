use vstd::prelude::*;

pub mod chars;
pub mod classify;
pub mod laws;
pub mod lexing;
pub mod loading;
pub mod token;
pub mod tokenizer;

pub use chars::Chars;
pub use loading::FileError;
pub use token::{Decimal, NextToken, Token, TokenError};
pub use tokenizer::{tokenize, Tokenizer};

verus! {

} // verus!
