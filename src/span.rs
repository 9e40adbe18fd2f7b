//! Half-open ranges of character offsets into a source text.
use vstd::prelude::*;

verus! {

/// The half-open range `[start, end)` of characters that a token or an error covers.
#[derive(Clone, Copy, Debug, PartialEq, Eq, Structural)]
pub struct Span {
    /// The offset of the first character.
    pub start: usize,
    /// The offset just past the last character.
    pub end: usize,
}

impl Span {
    /// The span that stands for "end of file" where no position is known.
    pub fn eof() -> (r: Span)
        ensures
            r.start == 0,
            r.end == 0,
    {
        Span { start: 0, end: 0 }
    }

    /// A span from a range of offsets.
    pub fn new(range: std::ops::Range<usize>) -> (r: Span)
        ensures
            r.start == range.start,
            r.end == range.end,
    {
        Span { start: range.start, end: range.end }
    }
}

} // verus!
