use vstd::prelude::*;

use crate::addr::{HostPhysAddr, HostVirtAddr};

verus! {

/// Memory services that the embedding hypervisor supplies: host frame
/// allocation and the conversion between host physical and virtual addresses.
pub trait AxMmHal {
    /// Allocates a frame and returns its host physical address, or `None`
    /// when no frame is left.
    fn alloc_frame() -> Option<HostPhysAddr>;

    /// Gives a frame back to the allocator.
    fn dealloc_frame(paddr: HostPhysAddr);

    /// Converts a host physical address to a host virtual address.
    fn phys_to_virt(paddr: HostPhysAddr) -> HostVirtAddr;

    /// Converts a host virtual address to a host physical address.
    fn virt_to_phys(vaddr: HostVirtAddr) -> HostPhysAddr;
}

} // verus!
