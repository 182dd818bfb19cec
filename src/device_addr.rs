use vstd::prelude::*;

use crate::addr::{GuestPhysAddr, GuestPhysAddrRange};

verus! {

/// A system register address.
#[derive(Clone, Copy, Debug, PartialEq, Eq, PartialOrd, Ord, Structural)]
pub struct SysRegAddr(pub usize);

/// An I/O port number.
#[derive(Clone, Copy, Debug, PartialEq, Eq, PartialOrd, Ord, Structural)]
pub struct Port(pub u16);

/// An address-like type that can be used to access devices.
pub trait DeviceAddr: Copy + Eq + Ord + core::fmt::Debug {}

impl DeviceAddr for GuestPhysAddr {}

impl DeviceAddr for SysRegAddr {}

impl DeviceAddr for Port {}

/// A range of device addresses. It may be contiguous or not.
pub trait DeviceAddrRange {
    /// The address type of the range.
    type Addr: DeviceAddr;

    /// Whether `addr` belongs to the range.
    spec fn spec_contains(&self, addr: Self::Addr) -> bool;

    /// Returns whether the address range contains the given address.
    fn contains(&self, addr: Self::Addr) -> (r: bool)
        ensures
            r == self.spec_contains(addr),
    ;
}

impl DeviceAddrRange for GuestPhysAddrRange {
    type Addr = GuestPhysAddr;

    open spec fn spec_contains(&self, addr: GuestPhysAddr) -> bool {
        GuestPhysAddrRange::spec_contains(*self, addr.0 as int)
    }

    fn contains(&self, addr: GuestPhysAddr) -> (r: bool) {
        GuestPhysAddrRange::contains(self, addr)
    }
}

/// An inclusive range of system register addresses: unlike
/// [`GuestPhysAddrRange`], it contains both of its ends.
#[derive(Clone, Copy, Debug, PartialEq, Eq, PartialOrd, Ord, Structural)]
pub struct SysRegAddrRange {
    /// The first address of the range.
    pub start: SysRegAddr,
    /// The last address of the range.
    pub end: SysRegAddr,
}

impl SysRegAddrRange {
    /// Creates a new [`SysRegAddrRange`] instance.
    pub fn new(start: SysRegAddr, end: SysRegAddr) -> (r: Self)
        ensures
            r.start == start,
            r.end == end,
    {
        Self { start, end }
    }
}

impl DeviceAddrRange for SysRegAddrRange {
    type Addr = SysRegAddr;

    open spec fn spec_contains(&self, addr: SysRegAddr) -> bool {
        self.start.0 <= addr.0 <= self.end.0
    }

    fn contains(&self, addr: SysRegAddr) -> (r: bool) {
        addr.0 >= self.start.0 && addr.0 <= self.end.0
    }
}

/// An inclusive range of port numbers: unlike [`GuestPhysAddrRange`], it
/// contains both of its ends.
#[derive(Clone, Copy, Debug, PartialEq, Eq, Structural)]
pub struct PortRange {
    /// The first port of the range.
    pub start: Port,
    /// The last port of the range.
    pub end: Port,
}

impl PortRange {
    /// Creates a new [`PortRange`] instance.
    pub fn new(start: Port, end: Port) -> (r: Self)
        ensures
            r.start == start,
            r.end == end,
    {
        Self { start, end }
    }
}

impl DeviceAddrRange for PortRange {
    type Addr = Port;

    open spec fn spec_contains(&self, addr: Port) -> bool {
        self.start.0 <= addr.0 <= self.end.0
    }

    fn contains(&self, addr: Port) -> (r: bool) {
        addr.0 >= self.start.0 && addr.0 <= self.end.0
    }
}

} // verus!
