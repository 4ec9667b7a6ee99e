use vstd::prelude::*;

verus! {

/// Implemented only inside this crate, so that the word-type marker below
/// cannot be extended.
pub trait Sealed {}

impl Sealed for u8 {}

impl Sealed for u16 {}

impl Sealed for u32 {}

impl Sealed for u64 {}

impl Sealed for u128 {}

} // verus!
