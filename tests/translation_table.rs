use axaddrspace::backend::{map_given_frame, remap_given_frame};
use axaddrspace::addr::{GuestPhysAddr, HostPhysAddr, HostVirtAddr};
use axaddrspace::errors::{AxError, MappingError};
use axaddrspace::flags::{MappingFlags, READ, WRITE};
use axaddrspace::hal::AxMmHal;
use axaddrspace::npt::{NestedPageTable, PageSize, PagingError, RegionTarget};

struct RootHal;

impl AxMmHal for RootHal {
    fn alloc_frame() -> Option<HostPhysAddr> {
        Some(HostPhysAddr(0x7000))
    }

    fn dealloc_frame(_paddr: HostPhysAddr) {}

    fn phys_to_virt(paddr: HostPhysAddr) -> HostVirtAddr {
        HostVirtAddr(paddr.0)
    }

    fn virt_to_phys(vaddr: HostVirtAddr) -> HostPhysAddr {
        HostPhysAddr(vaddr.0)
    }
}

fn rw() -> MappingFlags {
    MappingFlags::from_bits(READ | WRITE)
}

#[test]
fn table_levels() {
    assert_eq!(NestedPageTable::new::<RootHal>(3).unwrap().level(), 3);
    let pt = NestedPageTable::new::<RootHal>(4).unwrap();
    assert_eq!(pt.level(), 4);
    assert_eq!(pt.root_paddr(), HostPhysAddr(0x7000));
    assert_eq!(NestedPageTable::new::<RootHal>(5).err(), Some(AxError::InvalidInput));
    assert_eq!(NestedPageTable::new::<RootHal>(2).err(), Some(AxError::InvalidInput));
}

#[test]
fn table_map_query_unmap() {
    let mut pt = NestedPageTable::new::<RootHal>(4).unwrap();
    assert_eq!(pt.map(GuestPhysAddr(0x5000), HostPhysAddr(0x9000), PageSize::Size4K, rw()), Ok(()));
    assert_eq!(pt.query(GuestPhysAddr(0x5123)), Ok((HostPhysAddr(0x9123), rw(), PageSize::Size4K)));
    assert_eq!(pt.query(GuestPhysAddr(0x6000)), Err(PagingError::NotMapped));
    assert_eq!(
        pt.map(GuestPhysAddr(0x5000), HostPhysAddr(0xa000), PageSize::Size4K, rw()),
        Err(MappingError::BadState)
    );
    assert_eq!(
        pt.map(GuestPhysAddr(0x6800), HostPhysAddr(0xa000), PageSize::Size4K, rw()),
        Err(MappingError::BadState)
    );
    assert_eq!(pt.unmap(GuestPhysAddr(0x5fff)), Ok((HostPhysAddr(0x9000), PageSize::Size4K)));
    assert_eq!(pt.translate(GuestPhysAddr(0x5000)), None);
    assert_eq!(pt.unmap(GuestPhysAddr(0x5000)), Err(MappingError::BadState));
}

#[test]
fn table_huge_leaf() {
    let mut pt = NestedPageTable::new::<RootHal>(4).unwrap();
    assert_eq!(
        pt.map(GuestPhysAddr(0x20_0000), HostPhysAddr(0x4000_0000), PageSize::Size2M, rw()),
        Ok(())
    );
    assert_eq!(pt.translate(GuestPhysAddr(0x3f_fff0)), Some(HostPhysAddr(0x401f_fff0)));
    assert_eq!(
        pt.map(GuestPhysAddr(0x30_0000), HostPhysAddr(0x1000), PageSize::Size4K, rw()),
        Err(MappingError::BadState)
    );
    assert_eq!(
        pt.map(GuestPhysAddr(0x40_1000), HostPhysAddr(0x20_0000), PageSize::Size2M, rw()),
        Err(MappingError::BadState)
    );
    assert!(PageSize::Size2M.is_huge());
    assert!(!PageSize::Size4K.is_huge());
    assert_eq!(PageSize::Size1G.bytes(), 0x4000_0000);
    assert_eq!(pt.unmap_region(GuestPhysAddr(0x20_0000), 0x20_0000, true), Ok(()));
    assert_eq!(pt.translate(GuestPhysAddr(0x20_0000)), None);
}

#[test]
fn table_level_bounds() {
    let mut pt3 = NestedPageTable::new::<RootHal>(3).unwrap();
    let mut pt4 = NestedPageTable::new::<RootHal>(4).unwrap();
    let va = GuestPhysAddr(0x80_0000_0000);
    assert_eq!(pt3.map(va, HostPhysAddr(0x1000), PageSize::Size4K, rw()), Err(MappingError::BadState));
    assert_eq!(pt4.map(va, HostPhysAddr(0x1000), PageSize::Size4K, rw()), Ok(()));
}

#[test]
fn table_region_map_and_unmap() {
    let mut pt = NestedPageTable::new::<RootHal>(4).unwrap();
    let t = RegionTarget::Linear { pa_va_offset: 0x1000 };
    assert_eq!(pt.map_region(GuestPhysAddr(0x10000), t, 0x3000, rw(), true, true), Ok(()));
    assert_eq!(pt.translate(GuestPhysAddr(0x12345)), Some(HostPhysAddr(0x11345)));
    assert_eq!(
        pt.map_region(GuestPhysAddr(0x12000), t, 0x2000, rw(), false, false),
        Err(MappingError::BadState)
    );
    assert_eq!(
        pt.map_region(GuestPhysAddr(0x20000), RegionTarget::Empty, 0x1000, MappingFlags::empty(), false, false),
        Ok(())
    );
    assert_eq!(pt.translate(GuestPhysAddr(0x20000)), None);
    assert_eq!(pt.unmap_region(GuestPhysAddr(0x10000), 0x3000, true), Ok(()));
    assert_eq!(pt.translate(GuestPhysAddr(0x10000)), None);
    assert_eq!(pt.unmap_region(GuestPhysAddr(0x10000), 0x1000, true), Err(MappingError::BadState));
}

#[test]
fn table_remap_and_protect() {
    let mut pt = NestedPageTable::new::<RootHal>(4).unwrap();
    assert_eq!(
        pt.map_region(GuestPhysAddr(0x3000), RegionTarget::Empty, 0x2000, MappingFlags::empty(), false, false),
        Ok(())
    );
    assert!(pt.remap(GuestPhysAddr(0x3abc), HostPhysAddr(0x8_8123), rw()));
    assert_eq!(pt.translate(GuestPhysAddr(0x3abc)), Some(HostPhysAddr(0x8_8abc)));
    assert!(!pt.remap(GuestPhysAddr(0x9000), HostPhysAddr(0x8_8000), rw()));
    let ro = MappingFlags::from_bits(READ);
    assert!(pt.protect_region(GuestPhysAddr(0x3000), 0x2000, ro, false));
    assert_eq!(pt.query(GuestPhysAddr(0x3000)), Ok((HostPhysAddr(0x8_8000), ro, PageSize::Size4K)));
    assert_eq!(pt.query(GuestPhysAddr(0x4000)), Err(PagingError::NotMapped));
}

#[test]
fn table_protect_reaches_straddling_leaf() {
    let mut pt = NestedPageTable::new::<RootHal>(4).unwrap();
    assert_eq!(
        pt.map(GuestPhysAddr(0x20_0000), HostPhysAddr(0x4000_0000), PageSize::Size2M, rw()),
        Ok(())
    );
    let ro = MappingFlags::from_bits(READ);
    assert!(pt.protect_region(GuestPhysAddr(0x20_0000), 0x1000, ro, true));
    assert_eq!(
        pt.query(GuestPhysAddr(0x30_0000)),
        Ok((HostPhysAddr(0x4010_0000), ro, PageSize::Size2M))
    );
}

#[test]
fn table_empty_flags_translate() {
    let mut pt = NestedPageTable::new::<RootHal>(3).unwrap();
    let none = MappingFlags::empty();
    assert_eq!(pt.map(GuestPhysAddr(0x5000), HostPhysAddr(0x9000), PageSize::Size4K, none), Ok(()));
    assert_eq!(pt.query(GuestPhysAddr(0x5008)), Ok((HostPhysAddr(0x9008), none, PageSize::Size4K)));
    assert_eq!(pt.unmap_region(GuestPhysAddr(0x6000), 0x1000, false), Err(MappingError::BadState));
    assert_eq!(pt.unmap_region(GuestPhysAddr(0x5000), 0x1000, false), Ok(()));
}

#[test]
fn given_frame_steps() {
    let mut pt = NestedPageTable::new::<RootHal>(4).unwrap();
    assert!(!map_given_frame(&mut pt, GuestPhysAddr(0x1000), None, rw()));
    assert!(map_given_frame(&mut pt, GuestPhysAddr(0x1000), Some(HostPhysAddr(0x5000)), rw()));
    assert_eq!(pt.translate(GuestPhysAddr(0x1001)), Some(HostPhysAddr(0x5001)));
    assert!(!map_given_frame(&mut pt, GuestPhysAddr(0x1000), Some(HostPhysAddr(0x6000)), rw()));
    assert!(remap_given_frame(&mut pt, GuestPhysAddr(0x1000), Some(HostPhysAddr(0x6000)), rw()));
    assert_eq!(pt.translate(GuestPhysAddr(0x1001)), Some(HostPhysAddr(0x6001)));
    assert!(!remap_given_frame(&mut pt, GuestPhysAddr(0x3000), Some(HostPhysAddr(0x6000)), rw()));
    assert!(!remap_given_frame(&mut pt, GuestPhysAddr(0x1000), None, rw()));
}
