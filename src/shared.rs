use vstd::prelude::*;

verus! {

/// The index of a row of a flag table.
#[derive(Debug, Clone, Copy, PartialEq, Eq, Structural, PartialOrd, Ord, Hash)]
pub struct FlagIndex {
    index: u16,
}

impl FlagIndex {
    pub closed spec fn spec_index(self) -> nat {
        self.index as nat
    }

    pub fn new(index: u16) -> (r: Self)
        ensures
            r.spec_index() == index,
    {
        Self { index }
    }

    pub fn index(self) -> (r: usize)
        ensures
            r == self.spec_index(),
    {
        self.index as usize
    }
}

/// A group's bit count and its row in the flag table.
#[derive(Debug, Clone, Copy, PartialEq, Eq, Structural, PartialOrd, Ord, Hash)]
pub struct FlagGroupInfo {
    /// The bit count.
    pub bits: u32,
    /// The index in the flag table.
    pub index: u16,
}

} // verus!
