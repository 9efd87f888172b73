//! Page numbers of an open document.

use vstd::prelude::*;

verus! {

/// A page of a document, by its index from 0.
#[derive(Debug, Clone, Copy, PartialEq, Eq, Structural)]
pub struct PageNo {
    pub idx: u32,
}

impl PageNo {
    /// The page at an index from 0.
    pub fn from_index(index: u32) -> (p: PageNo)
        ensures
            p.idx == index,
    {
        PageNo { idx: index }
    }

    /// The index of the page, from 0.
    pub fn index(self) -> (i: u32)
        ensures
            i == self.idx,
    {
        self.idx
    }
}

} // verus!
