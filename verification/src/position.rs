//! Where a word stands in the input.

use vstd::prelude::*;

verus! {

/// A 1-based count of physical lines.
#[derive(Clone, Copy, Debug, PartialEq, Eq, Structural)]
pub struct Line(pub usize);

/// A 1-based count of words within one line.
#[derive(Clone, Copy, Debug, PartialEq, Eq, Structural)]
pub struct Word(pub usize);

/// The position of a word: its line, and its place among the words of that line.
#[derive(Clone, Copy, Debug, PartialEq, Eq, Structural)]
pub struct Cursor(pub Line, pub Word);

impl Cursor {
    /// The line number as a mathematical integer.
    pub open spec fn line(self) -> nat {
        self.0.0 as nat
    }

    /// The word index as a mathematical integer.
    pub open spec fn index(self) -> nat {
        self.1.0 as nat
    }
}

/// Whether a word at `next` may be handed out directly after one at `prev`
/// (or first of all, where `prev` is `None`): it is either the next word of
/// the same line, or the first word of a later line.
pub open spec fn follows(prev: Option<Cursor>, next: Cursor) -> bool {
    &&& next.line() >= 1
    &&& next.index() >= 1
    &&& match prev {
        None => next.index() == 1,
        Some(p) => (next.line() == p.line() && next.index() == p.index() + 1) || (next.line()
            > p.line() && next.index() == 1),
    }
}

} // verus!
