use vstd::prelude::*;

verus! {

/// Size of a base page and of a frame, in bytes.
pub const PAGE_SIZE_4K: usize = 0x1000;

/// Whether `x` is a multiple of the base page size.
pub open spec fn aligned_4k(x: int) -> bool {
    x % 0x1000 == 0
}

/// Whether `x` is a multiple of the base page size.
pub fn is_aligned_4k(x: usize) -> (r: bool)
    ensures
        r == aligned_4k(x as int),
{
    x % PAGE_SIZE_4K == 0
}

/// Guest virtual address.
#[derive(Clone, Copy, Debug, PartialEq, Eq, Structural)]
pub struct GuestVirtAddr(pub usize);

impl GuestVirtAddr {
    /// The address with the given numeric value.
    pub fn from_usize(a: usize) -> (r: GuestVirtAddr)
        ensures
            r.0 == a,
    {
        GuestVirtAddr(a)
    }

    /// The numeric value of the address.
    pub fn as_usize(self) -> (r: usize)
        ensures
            r == self.0,
    {
        self.0
    }

    /// Whether the address lies on a base-page boundary.
    pub fn is_aligned_4k(self) -> (r: bool)
        ensures
            r == aligned_4k(self.0 as int),
    {
        self.0 % PAGE_SIZE_4K == 0
    }
}

/// Guest physical address.
#[derive(Clone, Copy, Debug, PartialEq, Eq, PartialOrd, Ord, Structural)]
pub struct GuestPhysAddr(pub usize);

impl GuestPhysAddr {
    /// The address with the given numeric value.
    pub fn from_usize(a: usize) -> (r: GuestPhysAddr)
        ensures
            r.0 == a,
    {
        GuestPhysAddr(a)
    }

    /// The numeric value of the address.
    pub fn as_usize(self) -> (r: usize)
        ensures
            r == self.0,
    {
        self.0
    }

    /// Whether the address lies on a base-page boundary.
    pub fn is_aligned_4k(self) -> (r: bool)
        ensures
            r == aligned_4k(self.0 as int),
    {
        self.0 % PAGE_SIZE_4K == 0
    }
}

/// Host virtual address.
#[derive(Clone, Copy, Debug, PartialEq, Eq, Structural)]
pub struct HostVirtAddr(pub usize);

impl HostVirtAddr {
    /// The address with the given numeric value.
    pub fn from_usize(a: usize) -> (r: HostVirtAddr)
        ensures
            r.0 == a,
    {
        HostVirtAddr(a)
    }

    /// The numeric value of the address.
    pub fn as_usize(self) -> (r: usize)
        ensures
            r == self.0,
    {
        self.0
    }

    /// Whether the address lies on a base-page boundary.
    pub fn is_aligned_4k(self) -> (r: bool)
        ensures
            r == aligned_4k(self.0 as int),
    {
        self.0 % PAGE_SIZE_4K == 0
    }
}

/// Host physical address.
#[derive(Clone, Copy, Debug, PartialEq, Eq, Structural)]
pub struct HostPhysAddr(pub usize);

impl HostPhysAddr {
    /// The address with the given numeric value.
    pub fn from_usize(a: usize) -> (r: HostPhysAddr)
        ensures
            r.0 == a,
    {
        HostPhysAddr(a)
    }

    /// The numeric value of the address.
    pub fn as_usize(self) -> (r: usize)
        ensures
            r == self.0,
    {
        self.0
    }

    /// Whether the address lies on a base-page boundary.
    pub fn is_aligned_4k(self) -> (r: bool)
        ensures
            r == aligned_4k(self.0 as int),
    {
        self.0 % PAGE_SIZE_4K == 0
    }
}

/// Half-open range `[start, end)` of guest physical addresses.
#[derive(Clone, Copy, Debug, PartialEq, Eq, Structural)]
pub struct GuestPhysAddrRange {
    pub start: GuestPhysAddr,
    pub end: GuestPhysAddr,
}

impl GuestPhysAddrRange {
    /// The range is well formed: it does not end before it starts.
    pub open spec fn wf(self) -> bool {
        self.start.0 <= self.end.0
    }

    /// Whether `a` lies in the range.
    pub open spec fn spec_contains(self, a: int) -> bool {
        self.start.0 <= a < self.end.0
    }

    /// Whether the `size` bytes from `start` lie in the range.
    pub open spec fn spec_contains_start_size(self, start: int, size: int) -> bool {
        self.start.0 <= start && start + size <= self.end.0
    }

    /// The range `[start, start + size)`.
    pub fn from_start_size(start: GuestPhysAddr, size: usize) -> (r: GuestPhysAddrRange)
        requires
            start.0 + size <= usize::MAX,
        ensures
            r.start == start,
            r.end.0 == start.0 + size,
            r.wf(),
    {
        GuestPhysAddrRange { start, end: GuestPhysAddr(start.0 + size) }
    }

    /// The number of bytes in the range.
    pub fn size(&self) -> (r: usize)
        requires
            self.wf(),
        ensures
            r == self.end.0 - self.start.0,
    {
        self.end.0 - self.start.0
    }

    /// Whether `a` lies in the range.
    pub fn contains(&self, a: GuestPhysAddr) -> (r: bool)
        ensures
            r == self.spec_contains(a.0 as int),
    {
        self.start.0 <= a.0 && a.0 < self.end.0
    }

    /// Whether `other` lies entirely inside this range.
    pub fn contains_range(&self, other: GuestPhysAddrRange) -> (r: bool)
        ensures
            r == (self.start.0 <= other.start.0 && other.end.0 <= self.end.0),
    {
        self.start.0 <= other.start.0 && other.end.0 <= self.end.0
    }

    /// Whether `[start, start + size)` lies entirely inside this range; a
    /// region that would run past the end of the address type never does.
    pub fn contains_start_size(&self, start: GuestPhysAddr, size: usize) -> (r: bool)
        requires
            self.wf(),
        ensures
            r == self.spec_contains_start_size(start.0 as int, size as int),
    {
        self.start.0 <= start.0 && start.0 <= self.end.0 && size <= self.end.0 - start.0
    }
}

} // verus!
