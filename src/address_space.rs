use core::marker::PhantomData;

use vstd::arithmetic::div_mod::lemma_fundamental_div_mod;
use vstd::prelude::*;

use crate::addr::{aligned_4k, is_aligned_4k, GuestPhysAddr, GuestPhysAddrRange, HostPhysAddr};
use crate::area::{
    any_overlap, area_contains, areas_wf, cleared_areas, covered, cut_all, owed_all, owed_cleared,
    untouched_beyond, areas_within, areas_frames, area_frames, top_4k, area_owed, area_overlaps, lemma_cut_all_covers, lemma_cut_all_within, lemma_insert_within, MemoryArea, MemorySet,
};
use crate::backend::{new_frames, taken_frames, frame_of, page_frames, frame_pa, remap_given_frame, small_leaves};
use crate::npt::{align_down, agree_at, disjoint, leaves_from, region_free, PageSize, entries_wf, entry_end, has_leaf, leaf, va_limit, PADDR_LIMIT};
use crate::backend::{map_post, Backend};
use crate::errors::{mapping_err_to_ax_err, AxError, AxResult, MappingError};
use crate::flags::MappingFlags;
use crate::hal::AxMmHal;
use crate::npt::{
    covers, leaf_index, lemma_leaf_unique, lemma_region_query, lemma_remap_leaf, region_entries,
    remap_ok, remapped_leaf, translate_spec, NestedPageTable, PtEntry, RegionTarget,
};

verus! {

/// The area of `s` that holds `va` (meaningful where `covered(s, va)`).
pub open spec fn area_at(s: Seq<MemoryArea>, va: int) -> MemoryArea {
    s[choose|i: int| 0 <= i < s.len() && area_contains(#[trigger] s[i], va)]
}

proof fn lemma_area_unique(s: Seq<MemoryArea>, i: int, va: int)
    requires
        areas_wf(s),
        0 <= i < s.len(),
        area_contains(s[i], va),
    ensures
        covered(s, va),
        area_at(s, va) == s[i],
{
    assert(area_contains(s[i], va));
    let j = choose|j: int| 0 <= j < s.len() && area_contains(#[trigger] s[j], va);
    if j < i {
        assert(s[j].spec_end() <= s[i].spec_start());
    } else if i < j {
        assert(s[i].spec_end() <= s[j].spec_start());
    }
}

/// Whether a mapping request for `[start, start + size)` passes the checks
/// made before anything changes: inside the space and page aligned.
pub open spec fn request_ok(range: GuestPhysAddrRange, start: int, size: int) -> bool {
    &&& range.spec_contains_start_size(start, size)
    &&& aligned_4k(start)
    &&& aligned_4k(size)
}

/// The guest physical address space of a virtual machine: its bounds, its
/// memory areas and its nested translation table. `H` supplies host frames.
///
/// The space owns every frame that its areas took from `H`; [`AddrSpace::clear`]
/// is the path that gives them back, and its owner calls it before letting
/// the space go.
pub struct AddrSpace<H: AxMmHal> {
    gpa_range: GuestPhysAddrRange,
    areas: MemorySet,
    pt: NestedPageTable,
    released: Ghost<Seq<HostPhysAddr>>,
    taken: Ghost<Seq<HostPhysAddr>>,
    _hal: PhantomData<H>,
}

impl<H: AxMmHal> AddrSpace<H> {
    /// The bounds of the space.
    pub closed spec fn range(&self) -> GuestPhysAddrRange {
        self.gpa_range
    }

    /// The areas of the space, in address order.
    pub closed spec fn areas(&self) -> Seq<MemoryArea> {
        self.areas@
    }

    /// The leaves of the translation table.
    pub closed spec fn table(&self) -> Seq<PtEntry> {
        self.pt@
    }

    /// The number of levels of the translation table.
    pub closed spec fn level(&self) -> int {
        self.pt.spec_level()
    }

    /// The root frame of the translation table.
    pub closed spec fn root(&self) -> HostPhysAddr {
        self.pt.spec_root()
    }

    /// The frames that the space has given back to `H` as it unmapped
    /// their pages, in the order it gave them back.
    pub closed spec fn released(&self) -> Seq<HostPhysAddr> {
        self.released@
    }

    pub closed spec fn wf(&self) -> bool {
        &&& self.gpa_range.wf()
        &&& self.areas.wf()
        &&& self.pt.wf()
        &&& areas_within(self.areas@, self.gpa_range.start.0 as int, self.gpa_range.end.0 as int)
        &&& leaves_in_areas(self.areas@, self.pt@)
    }

    /// A well-formed space keeps its areas sorted, disjoint, page aligned
    /// and inside its bounds, and its table well formed.
    pub proof fn lemma_wf_facts(&self)
        requires
            self.wf(),
        ensures
            self.range().wf(),
            areas_wf(self.areas()),
            areas_within(self.areas(), self.range().start.0 as int, self.range().end.0 as int),
            entries_wf(self.table(), self.level()),
            self.level() == 3 || self.level() == 4,
            leaves_in_areas(self.areas(), self.table()),
    {
    }

    /// The host physical address that the space gives for `gpa`.
    pub open spec fn translate_view(&self, gpa: int) -> Option<int> {
        if self.range().spec_contains(gpa) {
            translate_spec(self.table(), gpa)
        } else {
            None
        }
    }

    /// `other` holds the same areas and table as `self`.
    pub open spec fn unchanged(&self, other: &Self) -> bool {
        &&& other.range() == self.range()
        &&& other.areas() == self.areas()
        &&& other.table() == self.table()
        &&& other.level() == self.level()
        &&& other.root() == self.root()
    }

    /// The bounds, level and root of `other` are those of `self`.
    pub open spec fn same_frame(&self, other: &Self) -> bool {
        &&& other.range() == self.range()
        &&& other.level() == self.level()
        &&& other.root() == self.root()
    }

    /// The frames that the space has taken from `H` and mapped into guest
    /// pages, in the order it took them.
    pub closed spec fn taken(&self) -> Seq<HostPhysAddr> {
        self.taken@
    }

    /// `other` has taken the same frames as `self`.
    pub open spec fn same_taken(&self, other: &Self) -> bool {
        other.taken() == self.taken()
    }

    /// `other` has given back the same frames as `self`.
    pub open spec fn same_released(&self, other: &Self) -> bool {
        other.released() == self.released()
    }

    /// Returns the address space base.
    pub fn base(&self) -> (r: GuestPhysAddr)
        ensures
            r == self.range().start,
    {
        self.gpa_range.start
    }

    /// Returns the address space end.
    pub fn end(&self) -> (r: GuestPhysAddr)
        ensures
            r == self.range().end,
    {
        self.gpa_range.end
    }

    /// Returns the address space size.
    pub fn size(&self) -> (r: usize)
        requires
            self.wf(),
        ensures
            r == self.range().end.0 - self.range().start.0,
    {
        self.gpa_range.size()
    }

    /// Returns the reference to the inner page table.
    pub fn page_table(&self) -> (r: &NestedPageTable)
        requires
            self.wf(),
        ensures
            r.wf(),
            r@ == self.table(),
            r.spec_level() == self.level(),
            r.spec_root() == self.root(),
    {
        &self.pt
    }

    /// Returns the root physical address of the inner page table.
    pub fn page_table_root(&self) -> (r: HostPhysAddr)
        ensures
            r == self.root(),
    {
        self.pt.root_paddr()
    }

    /// Whether the translation table can map `[start, start + size)`.
    fn within_reach(&self, start: GuestPhysAddr, size: usize) -> (r: bool)
        requires
            self.wf(),
            start.0 + size <= usize::MAX,
        ensures
            r == (start.0 + size <= va_limit(self.level())),
    {
        let limit: u64 = if self.pt.level() == 3 {
            0x80_0000_0000
        } else {
            0x1_0000_0000_0000
        };
        (start.0 + size) as u64 <= limit
    }

    /// Checks if the address space contains the given address range.
    pub fn contains_range(&self, start: GuestPhysAddr, size: usize) -> (r: bool)
        requires
            self.wf(),
        ensures
            r == self.range().spec_contains_start_size(start.0 as int, size as int),
    {
        self.gpa_range.contains_start_size(start, size)
    }

    /// Creates a new empty address space over `[base, base + size)`, with a
    /// four-level translation table whose root frame comes from `H`.
    pub fn new_empty(base: GuestPhysAddr, size: usize) -> (r: AxResult<Self>)
        requires
            base.0 + size <= usize::MAX,
        ensures
            match r {
                Ok(s) => {
                    &&& s.wf()
                    &&& s.range().start == base
                    &&& s.range().end.0 == base.0 + size
                    &&& s.areas() == Seq::<MemoryArea>::empty()
                    &&& s.table() == Seq::<PtEntry>::empty()
                    &&& s.level() == 4
                    &&& s.released() == Seq::<HostPhysAddr>::empty()
                    &&& s.taken() == Seq::<HostPhysAddr>::empty()
                },
                Err(e) => e == AxError::NoMemory,
            },
    {
        let pt = match NestedPageTable::new::<H>(4) {
            Ok(pt) => pt,
            Err(_) => {
                return Err(AxError::NoMemory);
            },
        };
        Ok(
            AddrSpace {
                gpa_range: GuestPhysAddrRange::from_start_size(base, size),
                areas: MemorySet::new(),
                pt,
                released: Ghost(Seq::empty()),
                taken: Ghost(Seq::empty()),
                _hal: PhantomData,
            },
        )
    }

    /// Adds a new linear mapping: guest page `start_vaddr + k` is host page
    /// `start_paddr + k`, for `size` bytes, with `flags`.
    ///
    /// Fails with `InvalidInput`, changing nothing, where the range is not
    /// inside the space or beyond the table's reach, an address or the size
    /// is not page aligned, the host window reaches past what the host can
    /// address, or the size is zero; with `AlreadyExists`, changing nothing,
    /// where it overlaps an area. Otherwise the area is added and every page
    /// of it mapped, and the result is `Ok`.
    pub fn map_linear(
        &mut self,
        start_vaddr: GuestPhysAddr,
        start_paddr: HostPhysAddr,
        size: usize,
        flags: MappingFlags,
    ) -> (r: AxResult)
        requires
            old(self).wf(),
        ensures
            final(self).wf(),
            old(self).same_frame(final(self)),
            old(self).same_released(final(self)),
            old(self).same_taken(final(self)),
            map_linear_post(*old(self), *final(self), start_vaddr, start_paddr, size, flags, r),
    {
        if !self.contains_range(start_vaddr, size) {
            return Err(AxError::InvalidInput);
        }
        if !start_vaddr.is_aligned_4k() || !start_paddr.is_aligned_4k() || !is_aligned_4k(size) {
            return Err(AxError::InvalidInput);
        }
        if !self.within_reach(start_vaddr, size) {
            return Err(AxError::InvalidInput);
        }
        if start_paddr.0 as u64 > PADDR_LIMIT || size as u64 > PADDR_LIMIT - start_paddr.0 as u64
            || size > usize::MAX - start_paddr.0 {
            return Err(AxError::InvalidInput);
        }
        let offset = start_vaddr.as_usize().wrapping_sub(start_paddr.as_usize());
        let area = MemoryArea::new(start_vaddr, size, flags, Backend::new_linear(offset));
        let ghost s0 = self.areas@;
        let ghost a0 = self.areas@;
        let ghost t0 = self.pt@;
        proof {
            if area.spec_start() < area.spec_end() && !any_overlap(
                a0,
                area.spec_start(),
                area.spec_end(),
            ) {
                lemma_free_outside_areas(a0, t0, self.pt.spec_level(), area.spec_start(), area.spec_end());
            }
        }
        let res = self.areas.map::<H>(area, &mut self.pt, &mut self.taken);
        proof {
            lemma_map_keeps_leaves(a0, self.areas@, t0, self.pt@, area);
        }
        proof {
            if exists|idx: int| 0 <= idx <= s0.len() && self.areas@ == s0.insert(idx, area) {
                let idx = choose|idx: int| 0 <= idx <= s0.len() && self.areas@ == s0.insert(idx, area);
                lemma_insert_within(
                    s0,
                    idx,
                    area,
                    self.gpa_range.start.0 as int,
                    self.gpa_range.end.0 as int,
                );
            }
        }
        match res {
            Ok(_) => Ok(()),
            Err(e) => Err(mapping_err_to_ax_err(e)),
        }
    }

    /// Adds a new allocation mapping of `size` bytes from `start` with
    /// `flags`: frames from `H` back it, all at once when `populate` holds,
    /// else one by one as the guest faults on its pages.
    ///
    /// Fails with `InvalidInput` or `AlreadyExists` as
    /// [`AddrSpace::map_linear`] does, changing nothing. Otherwise the area
    /// is added. A lazy area then always succeeds, its pages reserved. An
    /// eager one fails with `NoMemory` where `H` runs out of frames; the
    /// pages mapped until then stay, for the caller to unmap.
    pub fn map_alloc(&mut self, start: GuestPhysAddr, size: usize, flags: MappingFlags, populate: bool) -> (r:
        AxResult)
        requires
            old(self).wf(),
        ensures
            final(self).wf(),
            old(self).same_frame(final(self)),
            old(self).same_released(final(self)),
            final(self).taken() == old(self).taken() + taken_frames(
                Backend::Alloc { populate },
                old(self).table(),
                final(self).table(),
            ),
            map_alloc_post(*old(self), *final(self), start, size, flags, populate, r),
    {
        if !self.contains_range(start, size) {
            return Err(AxError::InvalidInput);
        }
        if !start.is_aligned_4k() || !is_aligned_4k(size) {
            return Err(AxError::InvalidInput);
        }
        if !self.within_reach(start, size) {
            return Err(AxError::InvalidInput);
        }
        let area = MemoryArea::new(start, size, flags, Backend::new_alloc(populate));
        let ghost s0 = self.areas@;
        let ghost a0 = self.areas@;
        let ghost t0 = self.pt@;
        proof {
            if area.spec_start() < area.spec_end() && !any_overlap(
                a0,
                area.spec_start(),
                area.spec_end(),
            ) {
                lemma_free_outside_areas(a0, t0, self.pt.spec_level(), area.spec_start(), area.spec_end());
            }
        }
        let res = self.areas.map::<H>(area, &mut self.pt, &mut self.taken);
        proof {
            lemma_map_keeps_leaves(a0, self.areas@, t0, self.pt@, area);
        }
        proof {
            if exists|idx: int| 0 <= idx <= s0.len() && self.areas@ == s0.insert(idx, area) {
                let idx = choose|idx: int| 0 <= idx <= s0.len() && self.areas@ == s0.insert(idx, area);
                lemma_insert_within(
                    s0,
                    idx,
                    area,
                    self.gpa_range.start.0 as int,
                    self.gpa_range.end.0 as int,
                );
            }
        }
        match res {
            Ok(_) => Ok(()),
            Err(MappingError::BadState) => Err(AxError::NoMemory),
            Err(e) => Err(mapping_err_to_ax_err(e)),
        }
    }

    /// Removes the mappings in `[start, start + size)`, splitting the areas
    /// that reach outside it.
    ///
    /// Fails with `InvalidInput`, changing nothing, where the range is not
    /// inside the space or not page aligned. Otherwise the areas are cut as
    /// described at [`MemorySet::unmap`], every page of the range loses its
    /// leaf (allocated areas give their frames back to `H`), and the result
    /// is `Ok`.
    pub fn unmap(&mut self, start: GuestPhysAddr, size: usize) -> (r: AxResult)
        requires
            old(self).wf(),
        ensures
            final(self).wf(),
            old(self).same_frame(final(self)),
            unmap_post(*old(self), *final(self), start, size, r),
            size == 0 ==> old(self).same_released(final(self)),
            old(self).same_taken(final(self)),
            request_ok(old(self).range(), start.0 as int, size as int) && size > 0 ==> final(self).released()
                == old(self).released() + areas_frames(
                old(self).areas(),
                old(self).table(),
                start.0 as int,
                start.0 + size,
            ),
            !request_ok(old(self).range(), start.0 as int, size as int) ==> old(self).same_released(
                final(self),
            ),
    {
        if !self.contains_range(start, size) {
            return Err(AxError::InvalidInput);
        }
        if !start.is_aligned_4k() || !is_aligned_4k(size) {
            return Err(AxError::InvalidInput);
        }
        let ghost s0 = self.areas@;
        let ghost t0 = self.pt@;
        proof {
            lemma_all_owed(s0, t0, start.0 as int, start.0 + size);
        }
        let res = self.areas.unmap::<H>(start, size, &mut self.pt, &mut self.released);
        proof {
            if size > 0 {
                lemma_unmap_keeps_leaves(s0, t0, self.pt@, start.0, (start.0 + size) as usize);
                lemma_cut_all_within(
                    s0,
                    start.0,
                    (start.0 + size) as usize,
                    self.gpa_range.start.0 as int,
                    self.gpa_range.end.0 as int,
                );
            }
        }
        match res {
            Ok(_) => Ok(()),
            Err(e) => Err(mapping_err_to_ax_err(e)),
        }
    }

    /// Removes all mappings in the address space, releasing the frames of
    /// allocated areas. It never fails, and leaves no translation behind.
    pub fn clear(&mut self)
        requires
            old(self).wf(),
        ensures
            final(self).wf(),
            old(self).same_frame(final(self)),
            final(self).areas() == Seq::<MemoryArea>::empty(),
            old(self).areas().len() == 0 ==> final(self).table() == old(self).table(),
            forall|i: int, va: int|
                0 <= i < old(self).areas().len() && #[trigger] area_contains(old(self).areas()[i], va)
                    && small_leaves(old(self).table(),
                    old(self).areas()[i].spec_start(),
                    old(self).areas()[i].spec_end(),
                ) ==> !has_leaf(final(self).table(), va),
            forall|va: int|
                !covered(old(self).areas(), va) ==> #[trigger] agree_at(
                    final(self).table(),
                    old(self).table(),
                    va,
                ),
            forall|va: int| !#[trigger] has_leaf(final(self).table(), va),
            old(self).same_taken(final(self)),
            final(self).released() == old(self).released() + areas_frames(
                old(self).areas(),
                old(self).table(),
                0,
                top_4k(),
            ),
    {
        let ghost a0 = self.areas@;
        let ghost t0 = self.pt@;
        proof {
            lemma_all_owed(a0, t0, 0, top_4k());
        }
        self.areas.clear::<H>(&mut self.pt, &mut self.released);
        proof {
            lemma_clear_empties(a0, t0, self.pt@);
        }
    }

    /// Handles a nested page fault at `gpa` caused by an access of type
    /// `access_flags`. Returns true where it was resolved (a page of a lazy
    /// area was populated), false where it is a real fault: `gpa` outside
    /// the space or in no area, an access that the area's flags do not
    /// allow, a backend that does not populate lazily, or no frame left.
    pub fn handle_page_fault(&mut self, gpa: GuestPhysAddr, access_flags: MappingFlags) -> (r: bool)
        requires
            old(self).wf(),
        ensures
            final(self).wf(),
            old(self).same_frame(final(self)),
            final(self).areas() == old(self).areas(),
            old(self).same_released(final(self)),
            !r ==> old(self).same_taken(final(self)),
            r ==> final(self).taken().drop_last() == old(self).taken() && final(self).taken().len()
                == old(self).taken().len() + 1,
            fault_post(*old(self), *final(self), gpa, access_flags, r),
    {
        if !self.fault_needs_frame(gpa, access_flags) {
            return false;
        }
        let got = H::alloc_frame();
        let ok = self.resolve_fault(gpa, access_flags, got);
        if !ok {
            match got {
                Some(f) => {
                    H::dealloc_frame(f);
                },
                None => {},
            }
        }
        ok
    }

    /// Whether a fault at `gpa` by an access of type `access_flags` falls in
    /// a lazily populated area of the space whose flags allow the access:
    /// the only faults that a new frame can resolve.
    pub fn fault_needs_frame(&self, gpa: GuestPhysAddr, access_flags: MappingFlags) -> (r: bool)
        requires
            self.wf(),
        ensures
            r == lazy_fault(self.range(), self.areas(), gpa.0 as int, access_flags),
    {
        if !self.gpa_range.contains(gpa) {
            return false;
        }
        match self.areas.find(gpa) {
            Some(area) => {
                proof {
                    let i = choose|i: int|
                        0 <= i < self.areas@.len() && self.areas@[i] == *area && area_contains(
                            *area,
                            gpa.0 as int,
                        );
                    lemma_area_unique(self.areas@, i, gpa.0 as int);
                }
                area.flags().contains(access_flags) && match *area.backend() {
                    Backend::Alloc { populate } => !populate,
                    Backend::Linear { .. } => false,
                }
            },
            None => false,
        }
    }

    /// Resolves a fault at `gpa` by an access of type `access_flags` with
    /// the frame that the host allocator handed out, if any: the reserved
    /// leaf of the page is pointed at the frame, with the area's flags.
    /// Returns true exactly where the fault falls in a lazily populated area
    /// that allows the access, a frame was handed out, and the table can
    /// take it; otherwise nothing changes, and the caller gives the frame
    /// back.
    pub fn resolve_fault(
        &mut self,
        gpa: GuestPhysAddr,
        access_flags: MappingFlags,
        frame: Option<HostPhysAddr>,
    ) -> (r: bool)
        requires
            old(self).wf(),
        ensures
            final(self).wf(),
            old(self).same_frame(final(self)),
            final(self).areas() == old(self).areas(),
            old(self).same_released(final(self)),
            !r ==> old(self).same_taken(final(self)),
            r ==> final(self).taken() == old(self).taken().push(frame->0),
            r == (lazy_fault(old(self).range(), old(self).areas(), gpa.0 as int, access_flags)
                && frame is Some && remap_ok(old(self).table(), gpa.0 as int, frame_pa(frame) as int)),
            r ==> final(self).table() == old(self).table().update(
                leaf_index(old(self).table(), gpa.0 as int),
                remapped_leaf(
                    old(self).table(),
                    gpa.0 as int,
                    frame_pa(frame) as int,
                    area_at(old(self).areas(), gpa.0 as int).flags,
                ),
            ),
            !r ==> old(self).unchanged(final(self)),
    {
        if !self.gpa_range.contains(gpa) {
            return false;
        }
        match self.areas.find(gpa) {
            Some(area) => {
                proof {
                    let i = choose|i: int|
                        0 <= i < self.areas@.len() && self.areas@[i] == *area && area_contains(
                            *area,
                            gpa.0 as int,
                        );
                    lemma_area_unique(self.areas@, i, gpa.0 as int);
                }
                let orig_flags = area.flags();
                if !orig_flags.contains(access_flags) {
                    return false;
                }
                match *area.backend() {
                    Backend::Alloc { populate } => {
                        if populate {
                            return false;
                        }
                    },
                    Backend::Linear { .. } => {
                        return false;
                    },
                }
                let ghost t0 = self.pt@;
                let ok = remap_given_frame(&mut self.pt, gpa, frame, orig_flags);
                if ok {
                    self.taken = Ghost(self.taken@.push(frame->0));
                }
                proof {
                    if ok {
                        lemma_remap_keeps_leaves(
                            self.areas@,
                            t0,
                            self.pt.spec_level(),
                            gpa.0 as int,
                            frame_pa(frame) as int,
                            orig_flags,
                        );
                    }
                }
                ok
            },
            None => false,
        }
    }

    /// Translates the given `GuestPhysAddr` into `HostPhysAddr`.
    ///
    /// Returns `None` if the address is out of range or not mapped.
    pub fn translate(&self, gpa: GuestPhysAddr) -> (r: Option<HostPhysAddr>)
        requires
            self.wf(),
        ensures
            match self.translate_view(gpa.0 as int) {
                Some(pa) => r == Some(HostPhysAddr(pa as usize)),
                None => r is None,
            },
    {
        if !self.gpa_range.contains(gpa) {
            return None;
        }
        self.pt.translate(gpa)
    }

    /// Translates the given `GuestPhysAddr` into `HostPhysAddr`, and returns
    /// the size of the memory area that holds it.
    ///
    /// Returns `None` if the address is out of range, in no area, or not
    /// mapped.
    pub fn translate_and_get_limit(&self, gpa: GuestPhysAddr) -> (r: Option<(HostPhysAddr, usize)>)
        requires
            self.wf(),
        ensures
            r is Some <==> (self.translate_view(gpa.0 as int) is Some && covered(
                self.areas(),
                gpa.0 as int,
            )),
            match r {
                Some((pa, sz)) => {
                    &&& pa.0 == self.translate_view(gpa.0 as int)->0
                    &&& sz == area_at(self.areas(), gpa.0 as int).spec_end() - area_at(
                        self.areas(),
                        gpa.0 as int,
                    ).spec_start()
                },
                None => true,
            },
    {
        if !self.gpa_range.contains(gpa) {
            return None;
        }
        match self.areas.find(gpa) {
            Some(area) => {
                proof {
                    let i = choose|i: int|
                        0 <= i < self.areas@.len() && self.areas@[i] == *area && area_contains(
                            *area,
                            gpa.0 as int,
                        );
                    lemma_area_unique(self.areas@, i, gpa.0 as int);
                }
                match self.pt.translate(gpa) {
                    Some(pa) => Some((pa, area.size())),
                    None => None,
                }
            },
            None => None,
        }
    }

    /// Whether the `len` bytes from `gpa` can be handed out as host memory:
    /// `gpa` is in the space and in an area that holds all of them, and
    /// every one of them is mapped.
    pub open spec fn buffer_ok(&self, gpa: int, len: int) -> bool {
        &&& self.range().spec_contains(gpa)
        &&& covered(self.areas(), gpa)
        &&& len <= area_at(self.areas(), gpa).spec_end() - gpa
        &&& forall|va: int| gpa <= va < gpa + len ==> #[trigger] translate_spec(self.table(), va) is Some
    }

    /// Splits the `len` guest bytes from `gpa` into runs of host memory, one
    /// per leaf of the table that they cross: each run is its host physical
    /// start and its length, in guest order.
    ///
    /// Returns `None` if `gpa` is out of range or in no area, if the bytes
    /// run past the end of that area, or if one of them is not mapped.
    #[verifier::rlimit(100)]
    pub fn translated_byte_buffer(&self, gpa: GuestPhysAddr, len: usize) -> (r: Option<
        Vec<(HostPhysAddr, usize)>,
    >)
        requires
            self.wf(),
        ensures
            r is Some <==> self.buffer_ok(gpa.0 as int, len as int),
            r is Some ==> self.range().start.0 <= gpa.0 && gpa.0 + len <= self.range().end.0,
            match r {
                Some(v) => segments_ok(v@, self.table(), gpa.0 as int, len as int),
                None => true,
            },
    {
        if !self.gpa_range.contains(gpa) {
            return None;
        }
        let area = match self.areas.find(gpa) {
            Some(area) => area,
            None => {
                return None;
            },
        };
        proof {
            let i = choose|i: int|
                0 <= i < self.areas@.len() && self.areas@[i] == *area && area_contains(
                    *area,
                    gpa.0 as int,
                );
            lemma_area_unique(self.areas@, i, gpa.0 as int);
        }
        if len > area.va_range.end.0 - gpa.0 {
            return None;
        }
        let end = gpa.0 + len;
        let ghost t = self.pt@;
        let ghost level = self.pt.spec_level();
        let mut v: Vec<(HostPhysAddr, usize)> = Vec::new();
        let mut cur = gpa.0;
        while cur < end
            invariant
                self.wf(),
                t == self.pt@,
                level == self.pt.spec_level(),
                end == gpa.0 + len,
                gpa.0 <= cur <= end,
                seg_total(v@) == cur - gpa.0,
                forall|va: int| gpa.0 <= va < cur ==> #[trigger] translate_spec(t, va) is Some,
                forall|k: int|
                    0 <= k < v@.len() ==> seg_maps(
                        #[trigger] v@[k],
                        t,
                        gpa.0 + seg_total(v@.take(k)),
                        end as int,
                    ),
            decreases end - cur,
        {
            let e = match self.pt.query_leaf(GuestPhysAddr(cur)) {
                Some(e) => e,
                None => {
                    assert(translate_spec(t, cur as int) is None);
                    return None;
                },
            };
            let leaf_end = e.vaddr + e.size.bytes();
            let seg_end = if leaf_end < end {
                leaf_end
            } else {
                end
            };
            let pa = HostPhysAddr(e.paddr + (cur - e.vaddr));
            let ghost before = v@;
            let ghost i = leaf_index(t, cur as int);
            v.push((pa, seg_end - cur));
            proof {
                lemma_seg_push(before, (pa, (seg_end - cur) as usize));
                assert(v@ == before.push((pa, (seg_end - cur) as usize)));
                assert(v@.take(before.len() as int) == before.take(before.len() as int));
                assert(before.take(before.len() as int) =~= before);
                assert forall|va: int| cur <= va < seg_end implies #[trigger] translate_spec(t, va)
                    == Some(seg_pa((pa, (seg_end - cur) as usize)) + (va - cur)) by {
                    assert(covers(t[i], va));
                    lemma_leaf_unique(t, level, i, va);
                }
                assert forall|va: int| gpa.0 <= va < seg_end implies #[trigger] translate_spec(
                    t,
                    va,
                ) is Some by {
                    if va >= cur {
                        assert(covers(t[i], va));
                        lemma_leaf_unique(t, level, i, va);
                    }
                }
                assert forall|k: int| 0 <= k < v@.len() implies seg_maps(
                    #[trigger] v@[k],
                    t,
                    gpa.0 + seg_total(v@.take(k)),
                    end as int,
                ) by {
                    if k < before.len() {
                        assert(v@[k] == before[k]);
                        assert(v@.take(k) == before.take(k));
                    } else {
                        assert(k == before.len());
                        assert(v@.take(k) == before);
                    }
                }
            }
            cur = seg_end;
        }
        Some(v)
    }
}

/// Total length of the segments `v`.
pub open spec fn seg_total(v: Seq<(HostPhysAddr, usize)>) -> int
    decreases v.len(),
{
    if v.len() == 0 {
        0
    } else {
        seg_total(v.drop_last()) + v.last().1
    }
}

/// The segments `v` tile the `len` bytes from `gpa` in order: each is non
/// empty and its bytes are the host bytes that the table `t` gives for the
/// guest bytes it stands for.
pub open spec fn segments_ok(v: Seq<(HostPhysAddr, usize)>, t: Seq<PtEntry>, gpa: int, len: int) -> bool {
    &&& seg_total(v) == len
    &&& forall|k: int| 0 <= k < v.len() ==> seg_maps(
        #[trigger] v[k],
        t,
        gpa + seg_total(v.take(k)),
        gpa + len,
    )
}

/// Host physical start of a segment.
pub open spec fn seg_pa(x: (HostPhysAddr, usize)) -> int {
    let (pa, _) = x;
    pa.0 as int
}

/// The segment `x` is non empty, holds the host bytes that the table `t`
/// gives for the guest bytes from `lo`, and runs to the end of the leaf that
/// covers `lo` or to `end`, whichever comes first.
pub open spec fn seg_maps(x: (HostPhysAddr, usize), t: Seq<PtEntry>, lo: int, end: int) -> bool {
    &&& x.1 > 0
    &&& has_leaf(t, lo)
    &&& lo + x.1 == if entry_end(leaf(t, lo)) < end {
        entry_end(leaf(t, lo))
    } else {
        end
    }
    &&& forall|va: int|
        lo <= va < lo + x.1 ==> #[trigger] translate_spec(t, va) == Some(seg_pa(x) + (va - lo))
}

proof fn lemma_seg_push(v: Seq<(HostPhysAddr, usize)>, x: (HostPhysAddr, usize))
    ensures
        seg_total(v.push(x)) == seg_total(v) + x.1,
        forall|k: int| 0 <= k <= v.len() ==> #[trigger] v.push(x).take(k) == v.take(k),
{
    assert(v.push(x).drop_last() =~= v);
    assert forall|k: int| 0 <= k <= v.len() implies #[trigger] v.push(x).take(k) == v.take(k) by {
        assert(v.push(x).take(k) =~= v.take(k));
    }
}

/// The host window `[hpa, hpa + size)` lies within what the host can
/// address.
pub open spec fn host_window_ok(hpa: int, size: int) -> bool {
    hpa + size <= PADDR_LIMIT && hpa + size <= usize::MAX
}

/// Every leaf of the table lies in an area and is a base page.
pub open spec fn leaves_in_areas(s: Seq<MemoryArea>, t: Seq<PtEntry>) -> bool {
    forall|va: int| #[trigger]
        has_leaf(t, va) ==> covered(s, va) && leaf(t, va).size == PageSize::Size4K
}

/// Mapping an area keeps every leaf in an area: the new leaves lie in the
/// new area, which joined the set unless the table is unchanged.
proof fn lemma_map_keeps_leaves(
    a0: Seq<MemoryArea>,
    a1: Seq<MemoryArea>,
    t0: Seq<PtEntry>,
    t1: Seq<PtEntry>,
    area: MemoryArea,
)
    requires
        leaves_in_areas(a0, t0),
        leaves_from(t0, t1, area.spec_start(), area.spec_end()),
        (a1 == a0 && t1 == t0) || exists|idx: int| 0 <= idx <= a0.len() && a1 == a0.insert(idx, area),
    ensures
        leaves_in_areas(a1, t1),
{
    if !(a1 == a0 && t1 == t0) {
        let idx = choose|idx: int| 0 <= idx <= a0.len() && a1 == a0.insert(idx, area);
        assert forall|va: int| #[trigger] has_leaf(t1, va) implies covered(a1, va) && leaf(t1, va).size
            == PageSize::Size4K by {
            if has_leaf(t0, va) && leaf(t1, va) == leaf(t0, va) {
                let k = choose|k: int| 0 <= k < a0.len() && area_contains(#[trigger] a0[k], va);
                if k < idx {
                    assert(a1[k] == a0[k]);
                } else {
                    assert(a1[k + 1] == a0[k]);
                }
            } else {
                assert(a1[idx] == area);
            }
        }
    }
}

/// No leaf meets a range that no area meets.
proof fn lemma_free_outside_areas(
    s: Seq<MemoryArea>,
    t: Seq<PtEntry>,
    level: int,
    start: int,
    end: int,
)
    requires
        leaves_in_areas(s, t),
        entries_wf(t, level),
        !any_overlap(s, start, end),
        start < end,
    ensures
        region_free(t, start, end),
{
    assert forall|i: int| 0 <= i < t.len() implies disjoint(#[trigger] t[i], start, end) by {
        if !disjoint(t[i], start, end) {
            let va = if t[i].vaddr < start { start } else { t[i].vaddr as int };
            assert(covers(t[i], va));
            assert(has_leaf(t, va));
            let k = choose|k: int| 0 <= k < s.len() && area_contains(#[trigger] s[k], va);
            assert(area_overlaps(s[k], start, end));
            assert(!area_overlaps(s[k], start, end));
        }
    }
}

/// Every area can release its part of any range from a table whose leaves
/// are all base pages.
proof fn lemma_all_owed(s: Seq<MemoryArea>, t: Seq<PtEntry>, start: int, end: int)
    requires
        leaves_in_areas(s, t),
    ensures
        owed_all(s, t, start, end),
        forall|i: int| 0 <= i < s.len() ==> area_owed(#[trigger] s[i], t, start, end),
        forall|lo: int, hi: int| #[trigger] small_leaves(t, lo, hi),
{
    assert forall|lo: int, hi: int| #[trigger] small_leaves(t, lo, hi) by {
        assert forall|va: int| lo <= va < hi && has_leaf(t, va) implies #[trigger] leaf(t, va).size
            == PageSize::Size4K by {}
    }
}

/// Unmapping keeps every leaf in an area.
proof fn lemma_unmap_keeps_leaves(
    a0: Seq<MemoryArea>,
    t0: Seq<PtEntry>,
    t1: Seq<PtEntry>,
    start: usize,
    end: usize,
)
    requires
        leaves_in_areas(a0, t0),
        untouched_beyond(a0, t0, t1, start as int, end as int),
        owed_cleared(a0, a0.len() as int, t0, t1, start as int, end as int),
    ensures
        leaves_in_areas(cut_all(a0, start, end), t1),
{
    lemma_all_owed(a0, t0, start as int, end as int);
    assert forall|va: int| #[trigger] has_leaf(t1, va) implies covered(cut_all(a0, start, end), va)
        && leaf(t1, va).size == PageSize::Size4K by {
        if start <= va < end && covered(a0, va) {
            let k = choose|k: int| 0 <= k < a0.len() && area_contains(#[trigger] a0[k], va);
            assert(area_owed(a0[k], t0, start as int, end as int));
        } else {
            assert(agree_at(t1, t0, va));
            lemma_cut_all_covers(a0, start, end, va);
        }
    }
}

/// Clearing every area leaves no leaf at all.
proof fn lemma_clear_empties(a0: Seq<MemoryArea>, t0: Seq<PtEntry>, t1: Seq<PtEntry>)
    requires
        leaves_in_areas(a0, t0),
        forall|i: int, va: int|
            0 <= i < a0.len() && #[trigger] area_contains(a0[i], va) && small_leaves(
                t0,
                a0[i].spec_start(),
                a0[i].spec_end(),
            ) ==> !has_leaf(t1, va),
        forall|va: int| !covered(a0, va) ==> #[trigger] agree_at(t1, t0, va),
    ensures
        forall|va: int| !#[trigger] has_leaf(t1, va),
{
    lemma_all_owed(a0, t0, 0, 0);
    assert forall|va: int| !#[trigger] has_leaf(t1, va) by {
        if covered(a0, va) {
            let k = choose|k: int| 0 <= k < a0.len() && area_contains(#[trigger] a0[k], va);
            assert(small_leaves(t0, a0[k].spec_start(), a0[k].spec_end()));
        } else {
            assert(agree_at(t1, t0, va));
        }
    }
}

/// Pointing a leaf at another frame keeps every leaf in an area.
proof fn lemma_remap_keeps_leaves(
    s: Seq<MemoryArea>,
    t0: Seq<PtEntry>,
    level: int,
    gpa: int,
    frame: int,
    flags: MappingFlags,
)
    requires
        leaves_in_areas(s, t0),
        entries_wf(t0, level),
        has_leaf(t0, gpa),
        entries_wf(t0.update(leaf_index(t0, gpa), remapped_leaf(t0, gpa, frame, flags)), level),
    ensures
        leaves_in_areas(s, t0.update(leaf_index(t0, gpa), remapped_leaf(t0, gpa, frame, flags))),
{
    let i = leaf_index(t0, gpa);
    let t1 = t0.update(i, remapped_leaf(t0, gpa, frame, flags));
    assert forall|va: int| #[trigger] has_leaf(t1, va) implies covered(s, va) && leaf(t1, va).size
        == PageSize::Size4K by {
        let k = leaf_index(t1, va);
        lemma_leaf_unique(t1, level, k, va);
        assert(covers(t0[k], va));
        lemma_leaf_unique(t0, level, k, va);
    }
}

/// What `map_linear` promises, for each of its outcomes.
pub open spec fn map_linear_post<H: AxMmHal>(
    s0: AddrSpace<H>,
    s1: AddrSpace<H>,
    start: GuestPhysAddr,
    hpa: HostPhysAddr,
    size: usize,
    flags: MappingFlags,
    r: AxResult,
) -> bool {
    let ok = request_ok(s0.range(), start.0 as int, size as int) && aligned_4k(hpa.0 as int)
        && host_window_ok(hpa.0 as int, size as int) && start.0 + size <= va_limit(s0.level());
    let area = MemoryArea {
        va_range: GuestPhysAddrRange { start, end: GuestPhysAddr((start.0 + size) as usize) },
        flags,
        backend: Backend::Linear { pa_va_offset: start.0.wrapping_sub(hpa.0) },
    };
    &&& !ok ==> r == Err::<(), AxError>(AxError::InvalidInput) && s0.unchanged(&s1)
    &&& ok && size == 0 ==> r == Err::<(), AxError>(AxError::InvalidInput) && s0.unchanged(&s1)
    &&& ok && size > 0 && any_overlap(s0.areas(), start.0 as int, start.0 + size) ==> r == Err::<
        (),
        AxError,
    >(AxError::AlreadyExists) && s0.unchanged(&s1)
    &&& ok && size > 0 && !any_overlap(s0.areas(), start.0 as int, start.0 + size) ==> {
        &&& r is Ok || r == Err::<(), AxError>(AxError::BadState)
        &&& s0.wf() ==> r is Ok
        &&& exists|idx: int| 0 <= idx <= s0.areas().len() && s1.areas() == s0.areas().insert(idx, area)
        &&& map_post(area.backend, start.0, size, flags, s0.table(), s0.level(), s1.table(), r is Ok)
    }
}

/// What `map_alloc` promises, for each of its outcomes.
pub open spec fn map_alloc_post<H: AxMmHal>(
    s0: AddrSpace<H>,
    s1: AddrSpace<H>,
    start: GuestPhysAddr,
    size: usize,
    flags: MappingFlags,
    populate: bool,
    r: AxResult,
) -> bool {
    let ok = request_ok(s0.range(), start.0 as int, size as int) && start.0 + size <= va_limit(
        s0.level(),
    );
    let area = MemoryArea {
        va_range: GuestPhysAddrRange { start, end: GuestPhysAddr((start.0 + size) as usize) },
        flags,
        backend: Backend::Alloc { populate },
    };
    &&& !ok ==> r == Err::<(), AxError>(AxError::InvalidInput) && s0.unchanged(&s1)
    &&& ok && size == 0 ==> r == Err::<(), AxError>(AxError::InvalidInput) && s0.unchanged(&s1)
    &&& ok && size > 0 && any_overlap(s0.areas(), start.0 as int, start.0 + size) ==> r == Err::<
        (),
        AxError,
    >(AxError::AlreadyExists) && s0.unchanged(&s1)
    &&& ok && size > 0 && !any_overlap(s0.areas(), start.0 as int, start.0 + size) ==> {
        &&& r is Ok || r == Err::<(), AxError>(AxError::NoMemory)
        &&& s0.wf() && !populate ==> r is Ok
        &&& exists|idx: int| 0 <= idx <= s0.areas().len() && s1.areas() == s0.areas().insert(idx, area)
        &&& map_post(area.backend, start.0, size, flags, s0.table(), s0.level(), s1.table(), r is Ok)
    }
}

/// What `unmap` promises, for each of its outcomes.
pub open spec fn unmap_post<H: AxMmHal>(
    s0: AddrSpace<H>,
    s1: AddrSpace<H>,
    start: GuestPhysAddr,
    size: usize,
    r: AxResult,
) -> bool {
    let ok = request_ok(s0.range(), start.0 as int, size as int);
    &&& !ok ==> r == Err::<(), AxError>(AxError::InvalidInput) && s0.unchanged(&s1)
    &&& ok && size == 0 ==> r is Ok && s0.unchanged(&s1)
    &&& ok && s0.areas().len() == 0 ==> r is Ok && s1.table() == s0.table()
    &&& ok && s0.wf() ==> r is Ok
    &&& ok && size > 0 ==> {
        &&& s1.areas() == cut_all(s0.areas(), start.0, (start.0 + size) as usize)
        &&& r is Ok || r == Err::<(), AxError>(AxError::BadState)
        &&& r is Ok ==> cleared_areas(
            s0.areas(),
            s0.table(),
            s1.table(),
            start.0 as int,
            start.0 + size,
        )
        &&& owed_all(s0.areas(), s0.table(), start.0 as int, start.0 + size) ==> r is Ok
        &&& untouched_beyond(s0.areas(), s0.table(), s1.table(), start.0 as int, start.0 + size)
        &&& owed_cleared(
            s0.areas(),
            s0.areas().len() as int,
            s0.table(),
            s1.table(),
            start.0 as int,
            start.0 + size,
        )
    }
}

/// A fault at `gpa` by an access of type `access` falls in a lazily
/// populated area inside `range` whose flags allow the access.
pub open spec fn lazy_fault(range: GuestPhysAddrRange, s: Seq<MemoryArea>, gpa: int, access: MappingFlags) -> bool {
    &&& range.spec_contains(gpa)
    &&& covered(s, gpa)
    &&& area_at(s, gpa).flags.spec_contains(access)
    &&& area_at(s, gpa).backend == (Backend::Alloc { populate: false })
}

/// What `handle_page_fault` promises, for each of its outcomes.
pub open spec fn fault_post<H: AxMmHal>(
    s0: AddrSpace<H>,
    s1: AddrSpace<H>,
    gpa: GuestPhysAddr,
    access: MappingFlags,
    r: bool,
) -> bool {
    let handled_here = s0.range().spec_contains(gpa.0 as int) && covered(s0.areas(), gpa.0 as int)
        && area_at(s0.areas(), gpa.0 as int).flags.spec_contains(access) && area_at(
        s0.areas(),
        gpa.0 as int,
    ).backend == (Backend::Alloc { populate: false });
    &&& !handled_here ==> !r
    &&& !r ==> s0.unchanged(&s1)
    &&& r ==> exists|frame: int|
        remap_ok(s0.table(), gpa.0 as int, frame) && s1.table() == s0.table().update(
            leaf_index(s0.table(), gpa.0 as int),
            remapped_leaf(s0.table(), gpa.0 as int, frame, area_at(s0.areas(), gpa.0 as int).flags),
        )
}

/// A linear mapping that succeeded translates every byte of its range to
/// the host address at the same offset from `hpa`.
pub proof fn lemma_map_linear_translate<H: AxMmHal>(
    s0: AddrSpace<H>,
    s1: AddrSpace<H>,
    start: GuestPhysAddr,
    hpa: HostPhysAddr,
    size: usize,
    flags: MappingFlags,
    va: int,
)
    requires
        s0.wf(),
        s1.wf(),
        s0.same_frame(&s1),
        map_linear_post(s0, s1, start, hpa, size, flags, Ok(())),
        start.0 <= va < start.0 + size,
    ensures
        s1.translate_view(va) == Some(hpa.0 + (va - start.0)),
{
    let t = RegionTarget::Linear { pa_va_offset: start.0.wrapping_sub(hpa.0) };
    let n = (size / 0x1000) as int;
    lemma_fundamental_div_mod(size as int, 0x1000);
    lemma_fundamental_div_mod(va - start.0, 0x1000);
    assert(s1.table() == s0.table() + region_entries(t, start.0, n, flags));
    lemma_region_query(s0.table(), s1.level(), t, start.0, n, flags, va);
}

/// An eager allocation mapping that succeeded maps every byte of its range.
pub proof fn lemma_map_alloc_populated<H: AxMmHal>(
    s0: AddrSpace<H>,
    s1: AddrSpace<H>,
    start: GuestPhysAddr,
    size: usize,
    flags: MappingFlags,
    va: int,
)
    requires
        s0.wf(),
        s1.wf(),
        s0.same_frame(&s1),
        map_alloc_post(s0, s1, start, size, flags, true, Ok(())),
        start.0 <= va < start.0 + size,
    ensures
        s1.translate_view(va) is Some,
{
    let k = (va - start.0) / 0x1000;
    lemma_fundamental_div_mod(va - start.0, 0x1000);
    lemma_fundamental_div_mod(size as int, 0x1000);
    let i = s0.table().len() + k;
    assert(s1.table()[i].vaddr == start.0 + k * 0x1000);
    assert(covers(s1.table()[i], va));
    lemma_leaf_unique(s1.table(), s1.level(), i, va);
}

/// A lazy allocation mapping that succeeded leaves every byte of its range
/// untranslated until the guest faults on it.
pub proof fn lemma_map_alloc_lazy_unmapped<H: AxMmHal>(
    s0: AddrSpace<H>,
    s1: AddrSpace<H>,
    start: GuestPhysAddr,
    size: usize,
    flags: MappingFlags,
    va: int,
)
    requires
        s0.wf(),
        s1.wf(),
        s0.same_frame(&s1),
        map_alloc_post(s0, s1, start, size, flags, false, Ok(())),
        start.0 <= va < start.0 + size,
    ensures
        s1.translate_view(va) is None,
{
    let n = (size / 0x1000) as int;
    lemma_fundamental_div_mod(size as int, 0x1000);
    let z = MappingFlags { bits: 0 };
    assert(s1.table() == s0.table() + region_entries(RegionTarget::Empty, start.0, n, z));
    lemma_region_query(s0.table(), s1.level(), RegionTarget::Empty, start.0, n, z, va);
}

/// A fault that was handled leaves the faulting byte translated.
pub proof fn lemma_fault_then_translate<H: AxMmHal>(
    s0: AddrSpace<H>,
    s1: AddrSpace<H>,
    gpa: GuestPhysAddr,
    access: MappingFlags,
)
    requires
        s0.wf(),
        s1.wf(),
        s0.same_frame(&s1),
        fault_post(s0, s1, gpa, access, true),
    ensures
        s1.translate_view(gpa.0 as int) is Some,
{
    let frame = choose|frame: int|
        remap_ok(s0.table(), gpa.0 as int, frame) && s1.table() == s0.table().update(
            leaf_index(s0.table(), gpa.0 as int),
            remapped_leaf(s0.table(), gpa.0 as int, frame, area_at(s0.areas(), gpa.0 as int).flags),
        );
    lemma_remap_leaf(
        s0.table(),
        s1.level(),
        gpa.0 as int,
        frame,
        area_at(s0.areas(), gpa.0 as int).flags,
    );
}

/// A fault whose access the flags of its area do not allow is a real fault:
/// it is not handled and nothing changes.
pub proof fn lemma_fault_access_denied<H: AxMmHal>(
    s0: AddrSpace<H>,
    s1: AddrSpace<H>,
    gpa: GuestPhysAddr,
    access: MappingFlags,
    r: bool,
)
    requires
        fault_post(s0, s1, gpa, access, r),
        !area_at(s0.areas(), gpa.0 as int).flags.spec_contains(access),
    ensures
        !r,
        s0.unchanged(&s1),
{
}

/// A mapping request that overlaps an existing area is refused with
/// `AlreadyExists`, and the space is unchanged.
pub proof fn lemma_overlap_rejected<H: AxMmHal>(
    s0: AddrSpace<H>,
    s1: AddrSpace<H>,
    s2: AddrSpace<H>,
    start: GuestPhysAddr,
    hpa: HostPhysAddr,
    size: usize,
    flags: MappingFlags,
    populate: bool,
    r1: AxResult,
    r2: AxResult,
)
    requires
        map_linear_post(s0, s1, start, hpa, size, flags, r1),
        map_alloc_post(s0, s2, start, size, flags, populate, r2),
        request_ok(s0.range(), start.0 as int, size as int),
        aligned_4k(hpa.0 as int),
        host_window_ok(hpa.0 as int, size as int),
        start.0 + size <= va_limit(s0.level()),
        size > 0,
        any_overlap(s0.areas(), start.0 as int, start.0 + size),
    ensures
        r1 == Err::<(), AxError>(AxError::AlreadyExists),
        s0.unchanged(&s1),
        r2 == Err::<(), AxError>(AxError::AlreadyExists),
        s0.unchanged(&s2),
{
}

/// A mapping or unmapping request that reaches outside the space is refused
/// with `InvalidInput`, and the space is unchanged; so is a fault there,
/// and nothing there translates.
pub proof fn lemma_out_of_range_rejected<H: AxMmHal>(
    s0: AddrSpace<H>,
    s1: AddrSpace<H>,
    s2: AddrSpace<H>,
    s3: AddrSpace<H>,
    start: GuestPhysAddr,
    hpa: HostPhysAddr,
    size: usize,
    flags: MappingFlags,
    populate: bool,
    r1: AxResult,
    r2: AxResult,
    r3: AxResult,
)
    requires
        map_linear_post(s0, s1, start, hpa, size, flags, r1),
        map_alloc_post(s0, s2, start, size, flags, populate, r2),
        unmap_post(s0, s3, start, size, r3),
        !s0.range().spec_contains_start_size(start.0 as int, size as int),
    ensures
        r1 == Err::<(), AxError>(AxError::InvalidInput),
        s0.unchanged(&s1),
        r2 == Err::<(), AxError>(AxError::InvalidInput),
        s0.unchanged(&s2),
        r3 == Err::<(), AxError>(AxError::InvalidInput),
        s0.unchanged(&s3),
        !s0.range().spec_contains(start.0 as int) ==> s0.translate_view(start.0 as int) is None,
{
}

/// The frames of the pages `start + j * 0x1000`, for `j < m`, when only page
/// `p` holds a translating leaf, with frame `x`.
proof fn lemma_page_frames_single(t: Seq<PtEntry>, start: int, n: nat, m: nat, p: int, x: HostPhysAddr)
    requires
        m <= n,
        0 <= p < n,
        forall|j: int|
            0 <= j < n ==> #[trigger] frame_of(t, start + j * 0x1000) == if j == p {
                seq![x]
            } else {
                Seq::<HostPhysAddr>::empty()
            },
    ensures
        page_frames(t, start, m) == if m > p {
            seq![x]
        } else {
            Seq::<HostPhysAddr>::empty()
        },
    decreases m,
{
    if m > 0 {
        lemma_page_frames_single(t, start, n, (m - 1) as nat, p, x);
        let j = m - 1;
        assert(frame_of(t, start + j * 0x1000) == if j == p {
            seq![x]
        } else {
            Seq::<HostPhysAddr>::empty()
        });
        if m - 1 > p {
            assert(seq![x] + Seq::<HostPhysAddr>::empty() =~= seq![x]);
        } else if m - 1 == p {
            assert(Seq::<HostPhysAddr>::empty() + seq![x] =~= seq![x]);
        } else {
            assert(Seq::<HostPhysAddr>::empty() + Seq::<HostPhysAddr>::empty() =~= Seq::<
                HostPhysAddr,
            >::empty());
        }
    }
}

/// On a fresh space, a lazy area in which one fault was resolved with
/// `frame` gives back exactly that frame, once, when the area is unmapped.
pub proof fn lemma_lazy_fault_unmap_releases_frame<H: AxMmHal>(
    s0: AddrSpace<H>,
    s1: AddrSpace<H>,
    s2: AddrSpace<H>,
    s3: AddrSpace<H>,
    start: GuestPhysAddr,
    size: usize,
    flags: MappingFlags,
    gpa: GuestPhysAddr,
    frame: int,
)
    requires
        s0.wf(),
        s1.wf(),
        s2.wf(),
        s0.same_frame(&s1),
        s1.same_frame(&s2),
        s0.areas() == Seq::<MemoryArea>::empty(),
        s0.table() == Seq::<PtEntry>::empty(),
        map_alloc_post(s0, s1, start, size, flags, false, Ok(())),
        s2.areas() == s1.areas(),
        remap_ok(s1.table(), gpa.0 as int, frame),
        s2.table() == s1.table().update(
            leaf_index(s1.table(), gpa.0 as int),
            remapped_leaf(s1.table(), gpa.0 as int, frame, area_at(s1.areas(), gpa.0 as int).flags),
        ),
        start.0 <= gpa.0 < start.0 + size,
        s3.released() == s2.released() + areas_frames(
            s2.areas(),
            s2.table(),
            start.0 as int,
            start.0 + size,
        ),
    ensures
        s3.released() == s2.released().push(HostPhysAddr(align_down(frame, 0x1000) as usize)),
{
    let n = (size / 0x1000) as nat;
    lemma_fundamental_div_mod(size as int, 0x1000);
    let z = MappingFlags { bits: 0 };
    let area = MemoryArea {
        va_range: GuestPhysAddrRange { start, end: GuestPhysAddr((start.0 + size) as usize) },
        flags,
        backend: Backend::Alloc { populate: false },
    };
    assert(!any_overlap(s0.areas(), start.0 as int, start.0 + size));
    let idx0 = choose|idx: int|
        0 <= idx <= s0.areas().len() && s1.areas() == s0.areas().insert(idx, area);
    assert(s1.areas() =~= seq![area]);
    let t0 = s0.table();
    let t1 = s1.table();
    let t2 = s2.table();
    assert(t1 == t0 + region_entries(RegionTarget::Empty, start.0, n as int, z));
    let level = s1.level();
    let g = gpa.0 as int;
    lemma_region_query(t0, level, RegionTarget::Empty, start.0, n as int, z, g);
    let p = (g - start.0) / 0x1000;
    lemma_fundamental_div_mod(g - start.0, 0x1000);
    let idx = leaf_index(t1, g);
    let pa = HostPhysAddr(align_down(frame, 0x1000) as usize);
    assert forall|j: int| 0 <= j < n implies #[trigger] frame_of(t2, start.0 + j * 0x1000) == if j
        == p {
        seq![pa]
    } else {
        Seq::<HostPhysAddr>::empty()
    } by {
        let va = start.0 + j * 0x1000;
        assert((va - start.0) / 0x1000 == j) by {
            lemma_fundamental_div_mod(va - start.0, 0x1000);
        }
        lemma_region_query(t0, level, RegionTarget::Empty, start.0, n as int, z, va);
        if j == p {
            assert(covers(t2[idx], va));
            lemma_leaf_unique(t2, level, idx, va);
        } else {
            let k = leaf_index(t1, va);
            assert(covers(t1[k], va));
            assert(k != idx);
            assert(t2[k] == t1[k]);
            lemma_leaf_unique(t2, level, k, va);
        }
    }
    lemma_page_frames_single(t2, start.0 as int, n, n, p, pa);
    let sa = s2.areas();
    assert(sa.len() == 1 && sa[0] == area);
    assert(sa.drop_last() =~= Seq::<MemoryArea>::empty());
    assert(sa.last() == area);
    assert(areas_frames(sa.drop_last(), t2, start.0 as int, start.0 + size) == Seq::<
        HostPhysAddr,
    >::empty());
    assert(area.spec_start() == start.0 && area.spec_end() == start.0 + size);
    assert(area_frames(area, t2, start.0 as int, start.0 + size) == page_frames(
        t2,
        start.0 as int,
        n,
    ));
    assert(areas_frames(sa, t2, start.0 as int, start.0 + size) == Seq::<HostPhysAddr>::empty()
        + seq![pa]);
    assert(Seq::<HostPhysAddr>::empty() + seq![pa] =~= seq![pa]);
    assert(s2.released() + seq![pa] =~= s2.released().push(pa));
}

/// The frames of the pages `start + j * 0x1000`, for `j < m`, when page `j`
/// holds a translating leaf with frame `f[j]` for every `j < n`.
proof fn lemma_page_frames_all(t: Seq<PtEntry>, start: int, n: nat, m: nat, f: Seq<HostPhysAddr>)
    requires
        m <= n,
        f.len() == n,
        forall|j: int| 0 <= j < n ==> #[trigger] frame_of(t, start + j * 0x1000) == seq![f[j]],
    ensures
        page_frames(t, start, m) == f.take(m as int),
    decreases m,
{
    if m > 0 {
        lemma_page_frames_all(t, start, n, (m - 1) as nat, f);
        let j = m - 1;
        assert(frame_of(t, start + j * 0x1000) == seq![f[j]]);
        assert(f.take((m - 1) as int) + seq![f[j]] =~= f.take(m as int));
    }
}

/// On a fresh space, an eager allocation mapping that succeeded maps page
/// `k` of its range to the `k`-th frame it took from `H`, and an immediate
/// unmap of the range gives back exactly those frames, once each, in order.
pub proof fn lemma_populate_then_unmap<H: AxMmHal>(
    s0: AddrSpace<H>,
    s1: AddrSpace<H>,
    s2: AddrSpace<H>,
    start: GuestPhysAddr,
    size: usize,
    flags: MappingFlags,
)
    requires
        s0.wf(),
        s1.wf(),
        s0.same_frame(&s1),
        s0.areas() == Seq::<MemoryArea>::empty(),
        s0.table() == Seq::<PtEntry>::empty(),
        map_alloc_post(s0, s1, start, size, flags, true, Ok(())),
        s1.taken() == s0.taken() + taken_frames(Backend::Alloc { populate: true }, s0.table(), s1.table()),
        s2.released() == s1.released() + areas_frames(
            s1.areas(),
            s1.table(),
            start.0 as int,
            start.0 + size,
        ),
    ensures
        ({
            let f = s1.taken().subrange(s0.taken().len() as int, s1.taken().len() as int);
            &&& f.len() == size / 0x1000
            &&& forall|k: int|
                0 <= k < size / 0x1000 ==> #[trigger] s1.translate_view(start.0 + k * 0x1000)
                    == Some(f[k].0 as int)
            &&& s2.released() == s1.released() + f
        }),
{
    let n = (size / 0x1000) as nat;
    lemma_fundamental_div_mod(size as int, 0x1000);
    let area = MemoryArea {
        va_range: GuestPhysAddrRange { start, end: GuestPhysAddr((start.0 + size) as usize) },
        flags,
        backend: Backend::Alloc { populate: true },
    };
    assert(!any_overlap(s0.areas(), start.0 as int, start.0 + size));
    let t0 = s0.table();
    let t1 = s1.table();
    let level = s1.level();
    let f = s1.taken().subrange(s0.taken().len() as int, s1.taken().len() as int);
    assert(f =~= new_frames(t0, t1));
    assert(t1.len() == n);
    assert forall|j: int| 0 <= j < n implies #[trigger] frame_of(t1, start.0 + j * 0x1000) == seq![
        f[j],
    ] by {
        let va = start.0 + j * 0x1000;
        assert(t1[t0.len() + j].vaddr == va);
        assert(covers(t1[j], va));
        lemma_leaf_unique(t1, level, j, va);
    }
    assert forall|k: int| 0 <= k < size / 0x1000 implies #[trigger] s1.translate_view(
        start.0 + k * 0x1000,
    ) == Some(f[k].0 as int) by {
        let va = start.0 + k * 0x1000;
        assert(t1[t0.len() + k].vaddr == va);
        assert(covers(t1[k], va));
        lemma_leaf_unique(t1, level, k, va);
    }
    lemma_page_frames_all(t1, start.0 as int, n, n, f);
    assert(f.take(n as int) =~= f);
    let idx0 = choose|idx: int|
        0 <= idx <= s0.areas().len() && s1.areas() == s0.areas().insert(idx, area);
    let sa = s1.areas();
    assert(sa =~= seq![area]);
    assert(sa.drop_last() =~= Seq::<MemoryArea>::empty());
    assert(sa.last() == area);
    assert(areas_frames(sa.drop_last(), t1, start.0 as int, start.0 + size) == Seq::<
        HostPhysAddr,
    >::empty());
    assert(area_frames(area, t1, start.0 as int, start.0 + size) == page_frames(
        t1,
        start.0 as int,
        n,
    ));
    assert(Seq::<HostPhysAddr>::empty() + f =~= f);
}

/// Clearing an address space that was just cleared changes nothing and
/// gives no frame back, and an unmap inside the space after a clear
/// succeeds, leaves the table as it is and gives no frame back: no frame
/// is released twice.
pub proof fn lemma_clear_idempotent<H: AxMmHal>(
    s0: AddrSpace<H>,
    s1: AddrSpace<H>,
    s2: AddrSpace<H>,
    s3: AddrSpace<H>,
    start: GuestPhysAddr,
    size: usize,
    r3: AxResult,
)
    requires
        s0.same_frame(&s1),
        s1.areas() == Seq::<MemoryArea>::empty(),
        s1.same_frame(&s2),
        s2.areas() == Seq::<MemoryArea>::empty(),
        s1.areas().len() == 0 ==> s2.table() == s1.table(),
        s2.released() == s1.released() + areas_frames(s1.areas(), s1.table(), 0, top_4k()),
        unmap_post(s1, s3, start, size, r3),
        size == 0 ==> s1.same_released(&s3),
        size > 0 ==> s3.released() == s1.released() + areas_frames(
            s1.areas(),
            s1.table(),
            start.0 as int,
            start.0 + size,
        ),
        request_ok(s1.range(), start.0 as int, size as int),
    ensures
        s1.unchanged(&s2),
        s2.released() == s1.released(),
        r3 is Ok,
        s3.table() == s1.table(),
        s3.areas() == s1.areas(),
        s3.released() == s1.released(),
{
    assert(s1.released() + Seq::<HostPhysAddr>::empty() =~= s1.released());
    if size > 0 {
        assert(cut_all(s1.areas(), start.0, (start.0 + size) as usize) =~= Seq::<MemoryArea>::empty());
    }
}

} // verus!
