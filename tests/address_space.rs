use std::sync::{Mutex, MutexGuard};

use axaddrspace::addr::{GuestPhysAddr, HostPhysAddr, HostVirtAddr};
use axaddrspace::address_space::AddrSpace;
use axaddrspace::errors::AxError;
use axaddrspace::flags::{MappingFlags, EXECUTE, READ, WRITE};
use axaddrspace::hal::AxMmHal;

struct FrameLog {
    next: usize,
    limit: usize,
    allocated: Vec<usize>,
    freed: Vec<usize>,
}

static LOG: Mutex<FrameLog> = Mutex::new(FrameLog {
    next: 0x8000_0000,
    limit: usize::MAX,
    allocated: Vec::new(),
    freed: Vec::new(),
});

static SERIAL: Mutex<()> = Mutex::new(());

fn log() -> MutexGuard<'static, FrameLog> {
    LOG.lock().unwrap_or_else(|e| e.into_inner())
}

/// Runs one test at a time against a fresh frame log.
fn start() -> MutexGuard<'static, ()> {
    let g = SERIAL.lock().unwrap_or_else(|e| e.into_inner());
    let mut l = log();
    l.next = 0x8000_0000;
    l.limit = usize::MAX;
    l.allocated.clear();
    l.freed.clear();
    g
}

struct TestHal;

impl AxMmHal for TestHal {
    fn alloc_frame() -> Option<HostPhysAddr> {
        let mut l = log();
        if l.allocated.len() >= l.limit {
            return None;
        }
        let f = l.next;
        l.next += 0x1000;
        l.allocated.push(f);
        Some(HostPhysAddr(f))
    }

    fn dealloc_frame(paddr: HostPhysAddr) {
        log().freed.push(paddr.0);
    }

    fn phys_to_virt(paddr: HostPhysAddr) -> HostVirtAddr {
        HostVirtAddr(paddr.0)
    }

    fn virt_to_phys(vaddr: HostVirtAddr) -> HostPhysAddr {
        HostPhysAddr(vaddr.0)
    }
}

fn allocated() -> Vec<usize> {
    log().allocated.clone()
}

fn freed() -> Vec<usize> {
    log().freed.clone()
}

fn set_frame_limit(n: usize) {
    log().limit = n;
}

fn rw() -> MappingFlags {
    MappingFlags::from_bits(READ | WRITE)
}

fn space() -> AddrSpace<TestHal> {
    AddrSpace::<TestHal>::new_empty(GuestPhysAddr(0), 0x10_0000).unwrap()
}

#[test]
fn new_empty_bounds() {
    let _serial = start();
    let s = AddrSpace::<TestHal>::new_empty(GuestPhysAddr(0x4000_0000), 0x20_0000).unwrap();
    assert_eq!(s.base(), GuestPhysAddr(0x4000_0000));
    assert_eq!(s.end(), GuestPhysAddr(0x4020_0000));
    assert_eq!(s.size(), 0x20_0000);
    assert_eq!(s.page_table_root(), HostPhysAddr(allocated()[0]));
    assert!(s.contains_range(GuestPhysAddr(0x4000_0000), 0x20_0000));
    assert!(!s.contains_range(GuestPhysAddr(0x4000_0000), 0x20_0001));
    assert!(!s.contains_range(GuestPhysAddr(0x3fff_f000), 0x1000));
    assert!(!s.contains_range(GuestPhysAddr(0x4010_0000), usize::MAX));
}

#[test]
fn new_empty_without_frames() {
    let _serial = start();
    set_frame_limit(0);
    let r = AddrSpace::<TestHal>::new_empty(GuestPhysAddr(0), 0x1000);
    assert_eq!(r.err(), Some(AxError::NoMemory));
}

#[test]
fn map_linear_translates_every_page() {
    let _serial = start();
    let mut s = space();
    assert_eq!(s.map_linear(GuestPhysAddr(0x2000), HostPhysAddr(0x9000_0000), 0x4000, rw()), Ok(()));
    for off in (0..0x4000).step_by(0x1000) {
        assert_eq!(s.translate(GuestPhysAddr(0x2000 + off)), Some(HostPhysAddr(0x9000_0000 + off)));
    }
    assert_eq!(s.translate(GuestPhysAddr(0x2abc)), Some(HostPhysAddr(0x9000_0abc)));
    assert_eq!(s.translate(GuestPhysAddr(0x1fff)), None);
    assert_eq!(s.translate(GuestPhysAddr(0x6000)), None);
}

#[test]
fn map_linear_host_below_guest() {
    let _serial = start();
    let mut s = space();
    assert_eq!(s.map_linear(GuestPhysAddr(0x8000), HostPhysAddr(0x1000), 0x2000, rw()), Ok(()));
    assert_eq!(s.translate(GuestPhysAddr(0x9010)), Some(HostPhysAddr(0x2010)));
}

#[test]
fn map_alloc_populate_gives_distinct_frames() {
    let _serial = start();
    let mut s = space();
    assert_eq!(s.map_alloc(GuestPhysAddr(0x10000), 0x4000, rw(), true), Ok(()));
    let mut seen = Vec::new();
    for off in (0..0x4000).step_by(0x1000) {
        let pa = s.translate(GuestPhysAddr(0x10000 + off)).unwrap();
        assert!(allocated().contains(&pa.0));
        assert!(!seen.contains(&pa.0));
        seen.push(pa.0);
    }
    assert_eq!(s.unmap(GuestPhysAddr(0x10000), 0x4000), Ok(()));
    let mut f = freed();
    f.sort();
    seen.sort();
    assert_eq!(f, seen);
    assert_eq!(s.translate(GuestPhysAddr(0x10000)), None);
}

#[test]
fn map_alloc_populate_out_of_frames() {
    let _serial = start();
    let mut s = space();
    set_frame_limit(3);
    assert_eq!(s.map_alloc(GuestPhysAddr(0x10000), 0x4000, rw(), true), Err(AxError::NoMemory));
    assert!(s.translate(GuestPhysAddr(0x10000)).is_some());
    assert!(s.translate(GuestPhysAddr(0x11000)).is_some());
    assert_eq!(s.translate(GuestPhysAddr(0x12000)), None);
    assert_eq!(s.unmap(GuestPhysAddr(0x10000), 0x4000), Ok(()));
    assert_eq!(freed().len(), 2);
}

#[test]
fn clear_twice_and_unmap_after_clear() {
    let _serial = start();
    let mut s = space();
    assert_eq!(s.map_alloc(GuestPhysAddr(0x1000), 0x2000, rw(), true), Ok(()));
    assert_eq!(s.map_linear(GuestPhysAddr(0x8000), HostPhysAddr(0x4000_0000), 0x1000, rw()), Ok(()));
    s.clear();
    assert_eq!(freed().len(), 2);
    assert_eq!(s.translate(GuestPhysAddr(0x1000)), None);
    assert_eq!(s.translate(GuestPhysAddr(0x8000)), None);
    s.clear();
    assert_eq!(s.unmap(GuestPhysAddr(0x1000), 0x2000), Ok(()));
    assert_eq!(freed().len(), 2);
    assert_eq!(s.map_alloc(GuestPhysAddr(0x1000), 0x2000, rw(), false), Ok(()));
}

#[test]
fn overlap_rejected() {
    let _serial = start();
    let mut s = space();
    assert_eq!(s.map_linear(GuestPhysAddr(0x4000), HostPhysAddr(0x7000_0000), 0x4000, rw()), Ok(()));
    assert_eq!(
        s.map_alloc(GuestPhysAddr(0x7000), 0x2000, rw(), true),
        Err(AxError::AlreadyExists)
    );
    assert_eq!(
        s.map_linear(GuestPhysAddr(0x2000), HostPhysAddr(0x1000), 0x3000, rw()),
        Err(AxError::AlreadyExists)
    );
    assert!(allocated().len() == 1);
    assert_eq!(s.translate(GuestPhysAddr(0x7000)), Some(HostPhysAddr(0x7000_3000)));
    assert_eq!(s.map_alloc(GuestPhysAddr(0x8000), 0x1000, rw(), true), Ok(()));
}

#[test]
fn lazy_fault_round_trip() {
    let _serial = start();
    let mut s = space();
    let ro = MappingFlags::from_bits(READ);
    assert_eq!(s.map_alloc(GuestPhysAddr(0x20000), 0x3000, ro, false), Ok(()));
    assert_eq!(s.translate(GuestPhysAddr(0x21000)), None);
    assert!(s.handle_page_fault(GuestPhysAddr(0x21234), MappingFlags::from_bits(READ)));
    let frame = *allocated().last().unwrap();
    assert_eq!(s.translate(GuestPhysAddr(0x21234)), Some(HostPhysAddr(frame + 0x234)));
    assert_eq!(s.translate(GuestPhysAddr(0x20000)), None);
    assert!(!s.handle_page_fault(GuestPhysAddr(0x22000), MappingFlags::from_bits(WRITE)));
    assert!(!s.handle_page_fault(GuestPhysAddr(0x21000), MappingFlags::from_bits(READ | WRITE)));
    assert_eq!(s.translate(GuestPhysAddr(0x22000)), None);
}

#[test]
fn faults_that_are_not_lazy() {
    let _serial = start();
    let mut s = space();
    assert_eq!(s.map_linear(GuestPhysAddr(0x1000), HostPhysAddr(0x1000), 0x1000, rw()), Ok(()));
    assert_eq!(s.map_alloc(GuestPhysAddr(0x4000), 0x1000, rw(), true), Ok(()));
    assert!(!s.handle_page_fault(GuestPhysAddr(0x1000), MappingFlags::from_bits(READ)));
    assert!(!s.handle_page_fault(GuestPhysAddr(0x4000), MappingFlags::from_bits(READ)));
    assert!(!s.handle_page_fault(GuestPhysAddr(0x9000), MappingFlags::from_bits(READ)));
    assert!(!s.handle_page_fault(GuestPhysAddr(0x20_0000), MappingFlags::from_bits(READ)));
}

#[test]
fn lazy_fault_without_frames() {
    let _serial = start();
    let mut s = space();
    assert_eq!(s.map_alloc(GuestPhysAddr(0x3000), 0x1000, rw(), false), Ok(()));
    set_frame_limit(allocated().len());
    assert!(!s.handle_page_fault(GuestPhysAddr(0x3000), MappingFlags::from_bits(READ)));
    assert_eq!(s.translate(GuestPhysAddr(0x3000)), None);
}

#[test]
fn out_of_range_rejected() {
    let _serial = start();
    let mut s = AddrSpace::<TestHal>::new_empty(GuestPhysAddr(0x10_0000), 0x10_0000).unwrap();
    assert_eq!(
        s.map_linear(GuestPhysAddr(0xf_f000), HostPhysAddr(0), 0x2000, rw()),
        Err(AxError::InvalidInput)
    );
    assert_eq!(s.map_alloc(GuestPhysAddr(0x1f_f000), 0x2000, rw(), true), Err(AxError::InvalidInput));
    assert_eq!(s.unmap(GuestPhysAddr(0x20_0000), 0x1000), Err(AxError::InvalidInput));
    assert_eq!(s.translate(GuestPhysAddr(0x1000)), None);
    assert!(s.translated_byte_buffer(GuestPhysAddr(0x20_0000), 1).is_none());
    assert_eq!(allocated().len(), 1);
}

#[test]
fn misaligned_or_empty_rejected() {
    let _serial = start();
    let mut s = space();
    let f = rw();
    assert_eq!(s.map_linear(GuestPhysAddr(0x1001), HostPhysAddr(0), 0x1000, f), Err(AxError::InvalidInput));
    assert_eq!(s.map_linear(GuestPhysAddr(0x1000), HostPhysAddr(8), 0x1000, f), Err(AxError::InvalidInput));
    assert_eq!(s.map_linear(GuestPhysAddr(0x1000), HostPhysAddr(0), 0x800, f), Err(AxError::InvalidInput));
    assert_eq!(s.map_alloc(GuestPhysAddr(0x1000), 0x1800, f, true), Err(AxError::InvalidInput));
    assert_eq!(s.map_alloc(GuestPhysAddr(0x1000), 0, f, true), Err(AxError::InvalidInput));
    assert_eq!(s.unmap(GuestPhysAddr(0x1800), 0x1000), Err(AxError::InvalidInput));
    assert_eq!(s.unmap(GuestPhysAddr(0x1000), 0), Ok(()));
}

#[test]
fn unmap_splits_an_area() {
    let _serial = start();
    let mut s = space();
    assert_eq!(s.map_alloc(GuestPhysAddr(0x1000), 0x4000, rw(), true), Ok(()));
    let frames = allocated();
    assert_eq!(s.unmap(GuestPhysAddr(0x2000), 0x2000), Ok(()));
    assert_eq!(freed(), vec![frames[2], frames[3]]);
    assert_eq!(s.translate(GuestPhysAddr(0x1000)), Some(HostPhysAddr(frames[1])));
    assert_eq!(s.translate(GuestPhysAddr(0x2000)), None);
    assert_eq!(s.translate(GuestPhysAddr(0x4000)), Some(HostPhysAddr(frames[4])));
    assert_eq!(s.translate_and_get_limit(GuestPhysAddr(0x4000)), Some((HostPhysAddr(frames[4]), 0x1000)));
    assert_eq!(s.map_linear(GuestPhysAddr(0x2000), HostPhysAddr(0x5000_0000), 0x2000, rw()), Ok(()));
    assert_eq!(s.unmap(GuestPhysAddr(0x0), 0x10000), Ok(()));
    assert_eq!(freed().len(), 4);
    assert_eq!(s.translate(GuestPhysAddr(0x3000)), None);
}

#[test]
fn translate_and_get_limit_reports_area_size() {
    let _serial = start();
    let mut s = space();
    assert_eq!(s.map_linear(GuestPhysAddr(0x3000), HostPhysAddr(0x6000_0000), 0x5000, rw()), Ok(()));
    assert_eq!(
        s.translate_and_get_limit(GuestPhysAddr(0x4010)),
        Some((HostPhysAddr(0x6000_1010), 0x5000))
    );
    assert_eq!(s.translate_and_get_limit(GuestPhysAddr(0x2000)), None);
    assert_eq!(s.translate_and_get_limit(GuestPhysAddr(0x20_0000)), None);
}

#[test]
fn byte_buffer_crosses_two_pages() {
    let _serial = start();
    let mut s = space();
    assert_eq!(s.map_alloc(GuestPhysAddr(0x1000), 0x2000, rw(), true), Ok(()));
    let frames = allocated();
    let v = s.translated_byte_buffer(GuestPhysAddr(0x1f00), 0x200).unwrap();
    assert_eq!(v, vec![(HostPhysAddr(frames[1] + 0xf00), 0x100), (HostPhysAddr(frames[2]), 0x100)]);
    let total: usize = v.iter().map(|x| x.1).sum();
    assert_eq!(total, 0x200);
    assert_eq!(s.translate(GuestPhysAddr(0x2000)), Some(v[1].0));
    assert!(s.translated_byte_buffer(GuestPhysAddr(0x1f00), 0x1101).is_none());
    assert!(s.translated_byte_buffer(GuestPhysAddr(0x5000), 1).is_none());
}

#[test]
fn byte_buffer_on_unpopulated_page() {
    let _serial = start();
    let mut s = space();
    assert_eq!(s.map_alloc(GuestPhysAddr(0x1000), 0x2000, rw(), false), Ok(()));
    assert!(s.handle_page_fault(GuestPhysAddr(0x1000), MappingFlags::from_bits(WRITE)));
    assert_eq!(s.translated_byte_buffer(GuestPhysAddr(0x1000), 0x1000).unwrap().len(), 1);
    assert!(s.translated_byte_buffer(GuestPhysAddr(0x1800), 0x1000).is_none());
}

#[test]
fn example_scenario() {
    let _serial = start();
    let mut s = AddrSpace::<TestHal>::new_empty(GuestPhysAddr(0x0), 0x10_0000).unwrap();
    let before = allocated().len();
    assert_eq!(s.map_alloc(GuestPhysAddr(0x1000), 0x2000, rw(), false), Ok(()));
    assert_eq!(allocated().len(), before);
    assert!(s.handle_page_fault(GuestPhysAddr(0x1500), MappingFlags::from_bits(READ)));
    assert_eq!(allocated().len(), before + 1);
    let frame = *allocated().last().unwrap();
    assert_eq!(s.translate(GuestPhysAddr(0x1500)), Some(HostPhysAddr(frame + 0x500)));
    let v = s.translated_byte_buffer(GuestPhysAddr(0x1500), 1).unwrap();
    assert_eq!(v, vec![(HostPhysAddr(frame + 0x500), 1)]);
    assert_eq!(s.unmap(GuestPhysAddr(0x1000), 0x2000), Ok(()));
    assert_eq!(freed(), vec![frame]);
}

#[test]
fn page_table_reference_matches_space() {
    let _serial = start();
    let mut s = space();
    let f = MappingFlags::from_bits(READ | EXECUTE);
    assert_eq!(s.map_linear(GuestPhysAddr(0x1000), HostPhysAddr(0x3000), 0x1000, f), Ok(()));
    let pt = s.page_table();
    assert_eq!(pt.level(), 4);
    assert_eq!(pt.translate(GuestPhysAddr(0x1008)), Some(HostPhysAddr(0x3008)));
    assert_eq!(pt.root_paddr(), s.page_table_root());
}

#[test]
fn linear_window_beyond_host_reach() {
    let _serial = start();
    let mut s = space();
    let far = HostPhysAddr(0x10_0000_0000_0000);
    assert_eq!(s.map_linear(GuestPhysAddr(0x1000), far, 0x1000, rw()), Err(AxError::InvalidInput));
    let edge = HostPhysAddr(0xf_ffff_ffff_f000);
    assert_eq!(s.map_linear(GuestPhysAddr(0x1000), edge, 0x2000, rw()), Err(AxError::InvalidInput));
    assert_eq!(s.translate(GuestPhysAddr(0x1000)), None);
    assert_eq!(s.map_linear(GuestPhysAddr(0x1000), edge, 0x1000, rw()), Ok(()));
    assert_eq!(s.translate(GuestPhysAddr(0x1004)), Some(HostPhysAddr(0xf_ffff_ffff_f004)));
}

#[test]
fn empty_flags_still_translate() {
    let _serial = start();
    let mut s = space();
    let none = MappingFlags::empty();
    assert_eq!(s.map_linear(GuestPhysAddr(0x1000), HostPhysAddr(0x7000), 0x1000, none), Ok(()));
    assert_eq!(s.translate(GuestPhysAddr(0x1010)), Some(HostPhysAddr(0x7010)));
    assert_eq!(s.map_alloc(GuestPhysAddr(0x4000), 0x1000, none, true), Ok(()));
    assert!(s.translate(GuestPhysAddr(0x4000)).is_some());
    assert_eq!(s.unmap(GuestPhysAddr(0x1000), 0x4000), Ok(()));
    assert_eq!(s.translate(GuestPhysAddr(0x1010)), None);
}

#[test]
fn range_beyond_table_reach_rejected() {
    let _serial = start();
    let mut s = AddrSpace::<TestHal>::new_empty(GuestPhysAddr(0xffff_ffff_0000), 0x2_0000).unwrap();
    assert_eq!(
        s.map_alloc(GuestPhysAddr(0xffff_ffff_f000), 0x2000, rw(), false),
        Err(AxError::InvalidInput)
    );
    assert_eq!(s.map_alloc(GuestPhysAddr(0xffff_ffff_0000), 0x1000, rw(), false), Ok(()));
}

#[test]
fn fault_resolution_takes_given_frame() {
    let _serial = start();
    let mut s = space();
    assert_eq!(s.map_alloc(GuestPhysAddr(0x6000), 0x2000, rw(), false), Ok(()));
    let read = MappingFlags::from_bits(READ);
    assert!(s.fault_needs_frame(GuestPhysAddr(0x6010), read));
    assert!(!s.fault_needs_frame(GuestPhysAddr(0x9000), read));
    assert!(!s.fault_needs_frame(GuestPhysAddr(0x6010), MappingFlags::from_bits(EXECUTE)));
    assert!(!s.resolve_fault(GuestPhysAddr(0x6010), read, None));
    assert_eq!(s.translate(GuestPhysAddr(0x6010)), None);
    assert!(s.resolve_fault(GuestPhysAddr(0x6010), read, Some(HostPhysAddr(0x33_3000))));
    assert_eq!(s.translate(GuestPhysAddr(0x6010)), Some(HostPhysAddr(0x33_3010)));
    assert!(!s.resolve_fault(GuestPhysAddr(0x9000), read, Some(HostPhysAddr(0x34_0000))));
}
