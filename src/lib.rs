//! Guest physical address-space management for a hypervisor.
//!
//! The crate tracks which guest-physical regions of a virtual machine are
//! mapped, how each region is backed (a linear window onto host memory or
//! frames taken from the host allocator, eagerly or on demand), and keeps the
//! nested translation table that maps guest-physical pages to host frames.
use vstd::prelude::*;

pub mod addr;
pub mod address_space;
pub mod area;
pub mod backend;
pub mod device_addr;
pub mod errors;
pub mod flags;
pub mod hal;
pub mod npt;

use crate::addr::GuestPhysAddr;
use crate::flags::MappingFlags;

verus! {

/// Information about a nested page fault, as reported by a vCPU exit.
#[derive(Clone, Copy, Debug)]
pub struct NestedPageFaultInfo {
    /// Access type that caused the nested page fault.
    pub access_flags: MappingFlags,
    /// Guest physical address that caused the nested page fault.
    pub fault_guest_paddr: GuestPhysAddr,
}

} // verus!
