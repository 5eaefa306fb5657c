use vstd::prelude::*;

verus! {

/// A position in source text: line and column, both counted from 1.
#[derive(Clone, Copy, Debug, PartialEq, Eq, PartialOrd, Ord)]
pub struct Location {
    pub line: usize,
    pub column: usize,
}

/// Line number (from 1) after reading the characters `p`.
pub open spec fn line_after(p: Seq<char>) -> nat
    decreases p.len(),
{
    if p.len() == 0 {
        1
    } else if p.last() == '\n' {
        line_after(p.drop_last()) + 1
    } else {
        line_after(p.drop_last())
    }
}

/// Column number (from 1) after reading the characters `p`.
pub open spec fn column_after(p: Seq<char>) -> nat
    decreases p.len(),
{
    if p.len() == 0 {
        1
    } else if p.last() == '\n' {
        1
    } else {
        column_after(p.drop_last()) + 1
    }
}

/// The location reached after reading the characters `p` from the start of a text.
pub open spec fn location_after(p: Seq<char>) -> Location {
    Location { line: line_after(p) as usize, column: column_after(p) as usize }
}

/// Neither counter exceeds one more than the number of characters read.
pub proof fn lemma_location_bounds(p: Seq<char>)
    ensures
        1 <= line_after(p) <= p.len() + 1,
        1 <= column_after(p) <= p.len() + 1,
    decreases p.len(),
{
    if p.len() > 0 {
        lemma_location_bounds(p.drop_last());
    }
}

impl Location {
    /// Moves to the first column of the next line.
    pub fn next_line(&mut self)
        requires
            old(self).line < usize::MAX,
        ensures
            final(self).line == old(self).line + 1,
            final(self).column == 1,
    {
        self.line += 1;
        self.column = 1;
    }

    /// Moves one column to the right.
    pub fn next_column(&mut self)
        requires
            old(self).column < usize::MAX,
        ensures
            final(self).line == old(self).line,
            final(self).column == old(self).column + 1,
    {
        self.column += 1;
    }
}

impl Default for Location {
    /// The start of a text: line 1, column 1.
    fn default() -> (l: Self)
        ensures
            l == (Location { line: 1, column: 1 }),
    {
        Location { line: 1, column: 1 }
    }
}

} // verus!
