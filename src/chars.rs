use crate::classify::{byte_char, chars_of, to_char};
use vstd::prelude::*;

verus! {

/// A single-pass stream of characters over a byte source, one character per
/// byte, with one character of lookahead.
pub struct Chars {
    source: Vec<u8>,
    next: usize,
}

impl Chars {
    /// Every character of the source, consumed or not.
    pub closed spec fn text(&self) -> Seq<char> {
        chars_of(self.source@)
    }

    /// How many characters have been consumed.
    pub closed spec fn consumed(&self) -> nat {
        self.next as nat
    }

    pub closed spec fn wf(&self) -> bool {
        self.next <= self.source@.len() && self.source@.len() <= usize::MAX
    }

    pub proof fn lemma_len_fits(&self)
        requires
            self.wf(),
        ensures
            self.text().len() <= usize::MAX,
    {
    }

    /// The characters not yet consumed.
    pub open spec fn rest(&self) -> Seq<char> {
        self.text().subrange(self.consumed() as int, self.text().len() as int)
    }

    pub fn new(r: Vec<u8>) -> (c: Chars)
        ensures
            c.wf(),
            c.text() == chars_of(r@),
            c.consumed() == 0,
    {
        // Reading the length records that it fits in a usize.
        let _length = r.len();
        Chars { source: r, next: 0 }
    }

    /// The next character, without consuming it; `None` once exhausted.
    pub fn peek(&self) -> (r: Option<char>)
        requires
            self.wf(),
        ensures
            self.consumed() < self.text().len() ==> r == Some(self.text()[self.consumed() as int]),
            self.consumed() >= self.text().len() ==> r is None,
    {
        if self.next < self.source.len() {
            Some(to_char(self.source[self.next]))
        } else {
            None
        }
    }

    /// Consumes and returns the next character; `None` once exhausted.
    pub fn next(&mut self) -> (r: Option<char>)
        requires
            old(self).wf(),
        ensures
            final(self).wf(),
            final(self).text() == old(self).text(),
            old(self).consumed() < old(self).text().len() ==> r == Some(
                old(self).text()[old(self).consumed() as int],
            ) && final(self).consumed() == old(self).consumed() + 1,
            old(self).consumed() >= old(self).text().len() ==> r is None && final(self).consumed()
                == old(self).consumed(),
    {
        if self.next < self.source.len() {
            let c = to_char(self.source[self.next]);
            self.next = self.next + 1;
            Some(c)
        } else {
            None
        }
    }
}

} // verus!
