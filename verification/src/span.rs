use vstd::prelude::*;

verus! {

/// Source location spanning a range of characters in an SDIF document.
///
/// Lines and columns are 1-based. `end_col` is exclusive (one past the last
/// character).
#[derive(Debug, Clone, Copy, PartialEq, Eq, Structural)]
pub struct Span {
    pub start_line: u32,
    pub start_col: u32,
    pub end_line: u32,
    pub end_col: u32,
}

impl Span {
    /// The set of positions `(line, col)` covered by the span.
    pub open spec fn covers(self, line: int, col: int) -> bool {
        &&& self.start_line <= line <= self.end_line
        &&& line == self.start_line ==> col >= self.start_col
        &&& line == self.end_line ==> col < self.end_col
    }

    /// Create a span from explicit start and end positions.
    pub fn new(start_line: u32, start_col: u32, end_line: u32, end_col: u32) -> (s: Self)
        ensures
            s == (Span { start_line, start_col, end_line, end_col }),
    {
        Span { start_line, start_col, end_line, end_col }
    }

    /// Convenience constructor for a span that sits on a single line.
    pub fn single_line(line: u32, start_col: u32, end_col: u32) -> (s: Self)
        ensures
            s == (Span { start_line: line, start_col, end_line: line, end_col }),
    {
        Span { start_line: line, start_col, end_line: line, end_col }
    }

    /// Returns true if (line, col) falls within this span (1-based, end_col exclusive).
    pub fn contains(&self, line: u32, col: u32) -> (b: bool)
        ensures
            b == self.covers(line as int, col as int),
    {
        if line < self.start_line || line > self.end_line {
            return false;
        }
        if line == self.start_line && col < self.start_col {
            return false;
        }
        if line == self.end_line && col >= self.end_col {
            return false;
        }
        true
    }
}

} // verus!
