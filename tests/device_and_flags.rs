use axaddrspace::addr::{is_aligned_4k, GuestPhysAddr, GuestPhysAddrRange};
use axaddrspace::device_addr::{DeviceAddrRange, Port, PortRange, SysRegAddr, SysRegAddrRange};
use axaddrspace::errors::{mapping_err_to_ax_err, AxError, MappingError};
use axaddrspace::flags::{MappingFlags, EXECUTE, READ, WRITE};
use axaddrspace::NestedPageFaultInfo;

#[test]
fn sysreg_range_is_inclusive() {
    let r = SysRegAddrRange::new(SysRegAddr(0x10), SysRegAddr(0x20));
    assert_eq!(r.start, SysRegAddr(0x10));
    assert!(r.contains(SysRegAddr(0x10)));
    assert!(r.contains(SysRegAddr(0x20)));
    assert!(!r.contains(SysRegAddr(0x21)));
    assert!(!r.contains(SysRegAddr(0xf)));
}

#[test]
fn port_range_is_inclusive() {
    let r = PortRange::new(Port(0x3f8), Port(0x3ff));
    assert_eq!(r.end, Port(0x3ff));
    assert!(r.contains(Port(0x3f8)));
    assert!(r.contains(Port(0x3ff)));
    assert!(!r.contains(Port(0x400)));
}

#[test]
fn guest_range_is_half_open() {
    let r = GuestPhysAddrRange::from_start_size(GuestPhysAddr(0x1000), 0x1000);
    assert!(DeviceAddrRange::contains(&r, GuestPhysAddr(0x1fff)));
    assert!(!DeviceAddrRange::contains(&r, GuestPhysAddr(0x2000)));
    assert_eq!(r.size(), 0x1000);
    assert!(r.contains_range(GuestPhysAddrRange::from_start_size(GuestPhysAddr(0x1800), 0x800)));
    assert!(!r.contains_range(GuestPhysAddrRange::from_start_size(GuestPhysAddr(0x1800), 0x801)));
}

#[test]
fn flags_and_alignment() {
    let rw = MappingFlags::from_bits(READ | WRITE);
    assert!(rw.contains(MappingFlags::from_bits(READ)));
    assert!(!rw.contains(MappingFlags::from_bits(EXECUTE)));
    assert!(rw.contains(MappingFlags::empty()));
    assert!(MappingFlags::empty().is_empty());
    assert_eq!(rw.union(MappingFlags::from_bits(EXECUTE)).bits(), READ | WRITE | EXECUTE);
    assert!(is_aligned_4k(0x3000));
    assert!(!is_aligned_4k(0x3001));
    assert!(GuestPhysAddr(0x2000).is_aligned_4k());
}

#[test]
fn error_conversion() {
    assert_eq!(mapping_err_to_ax_err(MappingError::InvalidParam), AxError::InvalidInput);
    assert_eq!(mapping_err_to_ax_err(MappingError::AlreadyExists), AxError::AlreadyExists);
    assert_eq!(mapping_err_to_ax_err(MappingError::BadState), AxError::BadState);
}

#[test]
fn fault_info_holds_its_fields() {
    let info = NestedPageFaultInfo {
        access_flags: MappingFlags::from_bits(WRITE),
        fault_guest_paddr: GuestPhysAddr(0x1234),
    };
    assert_eq!(info.fault_guest_paddr.as_usize(), 0x1234);
    assert_eq!(info.access_flags.bits(), WRITE);
}
