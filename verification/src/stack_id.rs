//! Identifiers of stacks.

use vstd::prelude::*;

verus! {

/// Names one stack of branches: the 128 bits of a universally unique identifier.
#[derive(Debug, PartialEq, Eq, Clone, Copy, Hash, Structural)]
pub struct StackId(pub u128);

impl StackId {
    /// The identifier with the given bits.
    pub fn from_u128(bits: u128) -> (id: StackId)
        ensures
            id == StackId(bits),
    {
        StackId(bits)
    }

    /// The bits of the identifier.
    pub fn as_u128(&self) -> (bits: u128)
        ensures
            bits == self.0,
    {
        self.0
    }
}

} // verus!
