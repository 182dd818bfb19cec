use vstd::prelude::*;

verus! {

/// The page may be read.
pub const READ: usize = 1;
/// The page may be written.
pub const WRITE: usize = 2;
/// The page may be executed.
pub const EXECUTE: usize = 4;
/// The page is accessible from user mode.
pub const USER: usize = 8;
/// The page is device memory.
pub const DEVICE: usize = 16;
/// The page is uncached.
pub const UNCACHED: usize = 32;

/// Permission and attribute flags of a mapping, as a bit set.
#[derive(Clone, Copy, Debug, PartialEq, Eq, Structural)]
pub struct MappingFlags {
    pub bits: usize,
}

impl MappingFlags {
    /// True when every bit of `other` is set in `self`.
    pub open spec fn spec_contains(self, other: MappingFlags) -> bool {
        self.bits & other.bits == other.bits
    }

    /// True when no bit is set.
    pub open spec fn spec_is_empty(self) -> bool {
        self.bits == 0
    }

    /// The empty set of flags.
    pub fn empty() -> (r: MappingFlags)
        ensures
            r.bits == 0,
    {
        MappingFlags { bits: 0 }
    }

    /// Flags with exactly the given bits.
    pub fn from_bits(bits: usize) -> (r: MappingFlags)
        ensures
            r.bits == bits,
    {
        MappingFlags { bits }
    }

    /// The bits of this set.
    pub fn bits(&self) -> (r: usize)
        ensures
            r == self.bits,
    {
        self.bits
    }

    /// Whether every flag of `other` is also in `self`.
    pub fn contains(&self, other: MappingFlags) -> (r: bool)
        ensures
            r == self.spec_contains(other),
    {
        self.bits & other.bits == other.bits
    }

    /// Whether no flag is set.
    pub fn is_empty(&self) -> (r: bool)
        ensures
            r == self.spec_is_empty(),
    {
        self.bits == 0
    }

    /// The flags that are in either set.
    pub fn union(&self, other: MappingFlags) -> (r: MappingFlags)
        ensures
            r.bits == self.bits | other.bits,
    {
        MappingFlags { bits: self.bits | other.bits }
    }
}

} // verus!
