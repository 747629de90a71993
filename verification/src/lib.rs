pub mod broadcast;
pub mod ports;
pub mod token;

use vstd::prelude::*;

verus! {

/// Identifier for an open document. Identifiers are at least 1, so that a
/// "no document" sentinel can never collide with a real identifier.
#[derive(Clone, Copy, PartialEq, Eq, Structural, PartialOrd, Ord, Hash, Debug)]
pub struct DocumentId(usize);

impl DocumentId {
    /// The numeric value of this identifier.
    pub closed spec fn value(self) -> usize {
        self.0
    }

    /// A valid identifier is never zero.
    pub closed spec fn wf(self) -> bool {
        self.0 >= 1
    }

    pub fn new(n: usize) -> (r: DocumentId)
        requires
            n >= 1,
        ensures
            r.value() == n,
            r.wf(),
    {
        DocumentId(n)
    }

    pub fn get(self) -> (n: usize)
        ensures
            n == self.value(),
    {
        self.0
    }
}

impl Default for DocumentId {
    /// The default identifier is the first valid one.
    fn default() -> (r: DocumentId)
        ensures
            r.value() == 1,
            r.wf(),
    {
        DocumentId(1)
    }
}

/// Vertical alignment of the cursor line within a viewport.
pub enum Align {
    Top,
    Center,
    Bottom,
}

/// The row, counted from the viewport's top edge, at which the cursor line is
/// placed for a given alignment. The last usable row of a viewport of height
/// `h` is `h - 1`; a zero-height viewport pins every alignment to row 0.
pub open spec fn spec_relative_row(height: u16, align: Align) -> int {
    let last: int = if height == 0 {
        0
    } else {
        height as int - 1
    };
    match align {
        Align::Top => 0,
        Align::Center => last / 2,
        Align::Bottom => last,
    }
}

pub fn relative_row(height: u16, align: Align) -> (row: u16)
    ensures
        row as int == spec_relative_row(height, align),
{
    let last: u16 = if height == 0 {
        0
    } else {
        height - 1
    };
    match align {
        Align::Top => 0,
        Align::Center => last / 2,
        Align::Bottom => last,
    }
}

} // verus!
