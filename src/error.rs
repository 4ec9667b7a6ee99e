use vstd::prelude::*;

verus! {

/// Everything that can go wrong while compiling a flag specification or
/// indexing a bitmask.
///
/// Declaration sites are positions in the pre-order walk of the
/// declaration tree (0 = the first declared item).
#[derive(Debug, PartialEq, Eq)]
pub enum FlagError {
    /// A name was declared twice: where it was first declared, and where again.
    DuplicateIdentifier { name: String, first: usize, repeat: usize },
    /// A declared name is one of the names kept for the layout constants.
    ReservedIdentifier { name: String, at: usize },
    /// A declaration carries a conditional-compilation annotation.
    ForbiddenAnnotation { name: String, at: usize },
    /// More flags (single and group together) were declared than the limit allows.
    TooManyFlags { singles: usize, groups: usize },
    /// A group adds or removes a name that nothing declares.
    UnknownIdentifier { name: String, group: String },
    /// Groups that reference each other in a cycle, in the order of the cycle.
    CyclicGroupReference { names: Vec<String> },
    /// A bit index at or past the number of flags.
    OutOfRange { index: u32, bit_count: u32 },
}

} // verus!
