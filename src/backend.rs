use vstd::arithmetic::div_mod::lemma_fundamental_div_mod;
use vstd::prelude::*;

use crate::addr::{aligned_4k, GuestPhysAddr, HostPhysAddr, PAGE_SIZE_4K};
use crate::flags::MappingFlags;
use crate::hal::AxMmHal;
use crate::npt::{
    map_ok,
    leaves_from, lemma_append_leaves,
    agree_at, entries_wf,
    leaf, lemma_leaf_unique, tiled, covers, has_leaf, lemma_leaf_aligned, lemma_remove, leaf_index, map_region_ok, region_entries, remap_ok, remapped_leaf,
    NestedPageTable, PageSize, PtEntry, RegionTarget,
};

verus! {

/// How the pages of a memory area are backed by host memory.
#[derive(Clone, Copy, Debug, PartialEq, Eq, Structural)]
pub enum Backend {
    /// Guest page `va` is the host frame at `va - pa_va_offset`, mapped
    /// entirely when the area is created.
    Linear {
        /// Guest physical minus host physical address, modulo the word size.
        pa_va_offset: usize,
    },
    /// Each guest page has a frame of its own from the host allocator:
    /// all at once when `populate` holds, else on the first fault.
    Alloc {
        /// Whether frames are allocated when the area is created.
        populate: bool,
    },
}

/// The table target of a region backed by `b` (lazy areas reserve pages).
pub open spec fn backend_target(b: Backend) -> RegionTarget {
    match b {
        Backend::Linear { pa_va_offset } => RegionTarget::Linear { pa_va_offset },
        Backend::Alloc { .. } => RegionTarget::Empty,
    }
}

/// The flags that the pages of an area backed by `b` get when it is created.
pub open spec fn backend_map_flags(b: Backend, flags: MappingFlags) -> MappingFlags {
    match b {
        Backend::Linear { .. } => flags,
        Backend::Alloc { .. } => MappingFlags { bits: 0 },
    }
}

/// The table is unchanged in everything but its leaves.
pub open spec fn same_table(a: NestedPageTable, b: NestedPageTable) -> bool {
    a.spec_level() == b.spec_level() && a.spec_root() == b.spec_root()
}

/// `t` holds `s` followed by `n` base pages from `start` with `flags`, each
/// with a frame of its own.
pub open spec fn populated(
    s: Seq<PtEntry>,
    t: Seq<PtEntry>,
    start: int,
    n: int,
    flags: MappingFlags,
) -> bool {
    &&& t.len() == s.len() + n
    &&& t.subrange(0, s.len() as int) == s
    &&& forall|k: int|
        0 <= k < n ==> {
            &&& (#[trigger] t[s.len() + k]).vaddr == start + k * 0x1000
            &&& t[s.len() + k].flags == flags
            &&& t[s.len() + k].size == PageSize::Size4K
            &&& t[s.len() + k].valid
        }
}

/// `t` has no leaf in `[start, end)` and the same leaves as `s` elsewhere.
pub open spec fn cleared(s: Seq<PtEntry>, t: Seq<PtEntry>, start: int, end: int) -> bool {
    &&& forall|va: int| start <= va < end ==> !#[trigger] has_leaf(t, va)
    &&& untouched_outside(s, t, start, end)
}

/// Every byte outside `[start, end)` has the same leaf in `t` as in `s`.
pub open spec fn untouched_outside(s: Seq<PtEntry>, t: Seq<PtEntry>, start: int, end: int) -> bool {
    forall|va: int| !(start <= va < end) ==> #[trigger] agree_at(t, s, va)
}

/// One base page of an allocated area's unmap, from `before` to `after`,
/// keeps the loop's facts: the pages done have no leaf, the rest of the
/// table is as it was, and every leaf met so far was a base page.
proof fn lemma_alloc_unmap_step(
    s: Seq<PtEntry>,
    before: Seq<PtEntry>,
    after: Seq<PtEntry>,
    level: int,
    start: int,
    addr: int,
)
    requires
        entries_wf(before, level),
        start <= addr,
        aligned_4k(addr),
        forall|va: int| start <= va < addr ==> !#[trigger] has_leaf(before, va),
        forall|va: int| !(start <= va < addr) ==> #[trigger] agree_at(before, s, va),
        forall|va: int|
            start <= va < addr && has_leaf(s, va) ==> #[trigger] leaf(s, va).size == PageSize::Size4K,
        has_leaf(before, addr) ==> leaf(before, addr).size == PageSize::Size4K && after
            == before.remove(leaf_index(before, addr)),
        !has_leaf(before, addr) ==> after == before,
    ensures
        entries_wf(after, level),
        forall|va: int| start <= va < addr + 0x1000 ==> !#[trigger] has_leaf(after, va),
        forall|va: int| !(start <= va < addr + 0x1000) ==> #[trigger] agree_at(after, s, va),
        forall|va: int|
            start <= va < addr + 0x1000 && has_leaf(s, va) ==> #[trigger] leaf(s, va).size
                == PageSize::Size4K,
{
    if has_leaf(before, addr) {
        let i = leaf_index(before, addr);
        lemma_leaf_aligned(before, level, i);
        lemma_remove(before, level, i);
        assert(before[i].vaddr == addr);
        assert forall|va: int| start <= va < addr + 0x1000 implies !#[trigger] has_leaf(after, va) by {
            if !covers(before[i], va) {
                assert(agree_at(after, before, va));
            }
        }
        assert forall|va: int| !(start <= va < addr + 0x1000) implies #[trigger] agree_at(
            after,
            s,
            va,
        ) by {
            assert(!covers(before[i], va));
            assert(agree_at(after, before, va));
            assert(agree_at(before, s, va));
        }
        assert forall|va: int|
            start <= va < addr + 0x1000 && has_leaf(s, va) implies #[trigger] leaf(s, va).size
            == PageSize::Size4K by {
            if va >= addr {
                assert(agree_at(before, s, va));
                lemma_leaf_unique(before, level, i, va);
            }
        }
    } else {
        assert forall|va: int| addr <= va < addr + 0x1000 implies !#[trigger] has_leaf(before, va) by {
            if has_leaf(before, va) {
                let j = leaf_index(before, va);
                lemma_leaf_aligned(before, level, j);
                assert(covers(before[j], addr));
            }
        }
        assert forall|va: int|
            start <= va < addr + 0x1000 && has_leaf(s, va) implies #[trigger] leaf(s, va).size
            == PageSize::Size4K by {
            if va >= addr {
                assert(agree_at(before, s, va));
            }
        }
        assert forall|va: int| !(start <= va < addr + 0x1000) implies #[trigger] agree_at(
            after,
            s,
            va,
        ) by {
            assert(agree_at(before, s, va));
        }
    }
}

/// What a backend's `map` of `[start, start + size)` leaves in the table:
/// `t0` before, `t1` after, `ok` its result.
pub open spec fn map_post(
    b: Backend,
    start: usize,
    size: usize,
    flags: MappingFlags,
    t0: Seq<PtEntry>,
    level: int,
    t1: Seq<PtEntry>,
    ok: bool,
) -> bool {
    match b {
        Backend::Alloc { populate: true } => {
            &&& ok ==> aligned_4k(size as int) && populated(
                t0,
                t1,
                start as int,
                (size / 0x1000) as int,
                flags,
            )
            &&& !ok ==> exists|k: int|
                0 <= k <= size / 0x1000 && #[trigger] populated(t0, t1, start as int, k, flags)
        },
        _ => {
            &&& ok == map_region_ok(t0, level, start, size, backend_target(b))
            &&& ok ==> t1 == t0 + region_entries(
                backend_target(b),
                start,
                (size / 0x1000) as int,
                backend_map_flags(b, flags),
            )
            &&& !ok ==> t1 == t0
        },
    }
}

/// The frames of the leaves that `t` holds beyond the first `s.len()`, in
/// order.
pub open spec fn new_frames(s: Seq<PtEntry>, t: Seq<PtEntry>) -> Seq<HostPhysAddr> {
    Seq::new((t.len() - s.len()) as nat, |j: int| HostPhysAddr(t[s.len() + j].paddr))
}

/// The frames that a map of an area backed by `b` takes from the host
/// allocator and keeps, going from table `s` to table `t`.
pub open spec fn taken_frames(b: Backend, s: Seq<PtEntry>, t: Seq<PtEntry>) -> Seq<HostPhysAddr> {
    if b == (Backend::Alloc { populate: true }) {
        new_frames(s, t)
    } else {
        Seq::empty()
    }
}

/// The frame of the leaf at `va`, if a translating leaf covers it.
pub open spec fn frame_of(t: Seq<PtEntry>, va: int) -> Seq<HostPhysAddr> {
    if has_leaf(t, va) && leaf(t, va).valid {
        seq![HostPhysAddr(leaf(t, va).paddr)]
    } else {
        Seq::empty()
    }
}

/// The frames of the translating leaves at the first `n` base pages from
/// `start`, in address order.
pub open spec fn page_frames(t: Seq<PtEntry>, start: int, n: nat) -> Seq<HostPhysAddr>
    decreases n,
{
    if n == 0 {
        Seq::empty()
    } else {
        page_frames(t, start, (n - 1) as nat) + frame_of(t, start + (n - 1) * 0x1000)
    }
}

/// The frames that unmapping `[start, start + size)` from an area backed by
/// `b` gives back to the host allocator: those of an allocated area.
pub open spec fn backend_frames(b: Backend, t: Seq<PtEntry>, start: int, size: int) -> Seq<
    HostPhysAddr,
> {
    match b {
        Backend::Alloc { .. } => page_frames(t, start, (size / 0x1000) as nat),
        Backend::Linear { .. } => Seq::empty(),
    }
}

/// Two tables that agree on the first `n` base pages from `start` hold the
/// same frames there.
pub proof fn lemma_page_frames_agree(t1: Seq<PtEntry>, t0: Seq<PtEntry>, start: int, n: nat)
    requires
        forall|va: int| start <= va < start + n * 0x1000 ==> #[trigger] agree_at(t1, t0, va),
    ensures
        page_frames(t1, start, n) == page_frames(t0, start, n),
    decreases n,
{
    if n > 0 {
        lemma_page_frames_agree(t1, t0, start, (n - 1) as nat);
        assert(agree_at(t1, t0, start + (n - 1) * 0x1000));
    }
}

/// Every leaf that `s` has in `[start, end)` is a base page.
pub open spec fn small_leaves(s: Seq<PtEntry>, start: int, end: int) -> bool {
    forall|va: int|
        start <= va < end && has_leaf(s, va) ==> #[trigger] leaf(s, va).size == PageSize::Size4K
}


/// The address of the frame handed out, if any.
pub open spec fn frame_pa(frame: Option<HostPhysAddr>) -> usize {
    match frame {
        Some(f) => f.0,
        None => 0,
    }
}

/// The base page at `addr`, mapped with `flags` to the frame at `pa`.
pub open spec fn frame_leaf(addr: usize, pa: usize, flags: MappingFlags) -> PtEntry {
    PtEntry { vaddr: addr, paddr: pa, flags, size: PageSize::Size4K, valid: true }
}

/// Maps the base page at `addr` with `flags` to the frame that the host
/// allocator handed out, if it handed one out. Succeeds exactly where there
/// is a frame and the table can take the page; otherwise nothing changes,
/// and the caller gives the frame back.
pub fn map_given_frame(
    pt: &mut NestedPageTable,
    addr: GuestPhysAddr,
    frame: Option<HostPhysAddr>,
    flags: MappingFlags,
) -> (r: bool)
    requires
        old(pt).wf(),
    ensures
        final(pt).wf(),
        same_table(*final(pt), *old(pt)),
        r == (frame is Some && map_ok(
            old(pt)@,
            old(pt).spec_level(),
            frame_leaf(addr.0, frame_pa(frame), flags),
        )),
        r ==> final(pt)@ == old(pt)@.push(frame_leaf(addr.0, frame_pa(frame), flags)),
        !r ==> final(pt)@ == old(pt)@,
{
    match frame {
        Some(f) => pt.map(addr, f, PageSize::Size4K, flags).is_ok(),
        None => false,
    }
}

/// Points the reserved leaf that covers `gpa` at the frame that the host
/// allocator handed out, if it handed one out, with `flags`. Succeeds
/// exactly where there is a frame and the table can take it; otherwise
/// nothing changes, and the caller gives the frame back.
pub fn remap_given_frame(
    pt: &mut NestedPageTable,
    gpa: GuestPhysAddr,
    frame: Option<HostPhysAddr>,
    flags: MappingFlags,
) -> (r: bool)
    requires
        old(pt).wf(),
    ensures
        final(pt).wf(),
        same_table(*final(pt), *old(pt)),
        r == (frame is Some && remap_ok(old(pt)@, gpa.0 as int, frame_pa(frame) as int)),
        r ==> final(pt)@ == old(pt)@.update(
            leaf_index(old(pt)@, gpa.0 as int),
            remapped_leaf(old(pt)@, gpa.0 as int, frame_pa(frame) as int, flags),
        ),
        !r ==> final(pt)@ == old(pt)@,
{
    match frame {
        Some(f) => pt.remap(gpa, f, flags),
        None => false,
    }
}

impl Backend {
    /// Creates a new linear mapping backend.
    pub fn new_linear(pa_va_offset: usize) -> (r: Self)
        ensures
            r == (Backend::Linear { pa_va_offset }),
    {
        Backend::Linear { pa_va_offset }
    }

    /// Creates a new allocation mapping backend.
    pub fn new_alloc(populate: bool) -> (r: Self)
        ensures
            r == (Backend::Alloc { populate }),
    {
        Backend::Alloc { populate }
    }

    /// Maps `[start, start + size)` with `flags` into `pt`.
    ///
    /// A linear area maps every page to its host frame, and a lazy area
    /// reserves every page: both succeed exactly where the table can map
    /// the region, and change nothing otherwise. An eager area takes one
    /// frame per page from the host allocator and maps it; it stops with
    /// false at the first frame it cannot get or map, keeping the pages
    /// mapped until then.
    pub fn map<H: AxMmHal>(
        &self,
        start: GuestPhysAddr,
        size: usize,
        flags: MappingFlags,
        pt: &mut NestedPageTable,
        taken: &mut Ghost<Seq<HostPhysAddr>>,
    ) -> (r: bool)
        requires
            old(pt).wf(),
            start.0 + size <= usize::MAX,
        ensures
            final(pt).wf(),
            same_table(*final(pt), *old(pt)),
            map_post(*self, start.0, size, flags, old(pt)@, old(pt).spec_level(), final(pt)@, r),
            leaves_from(old(pt)@, final(pt)@, start.0 as int, start.0 + size),
            final(taken)@ == old(taken)@ + taken_frames(*self, old(pt)@, final(pt)@),
    {
        let ghost tk0 = taken@;
        let r = match *self {
            Backend::Linear { pa_va_offset } => self.map_linear(start, size, flags, pt, pa_va_offset),
            Backend::Alloc { populate } => self.map_alloc::<H>(start, size, flags, pt, populate, taken),
        };
        proof {
            if *self != (Backend::Alloc { populate: true }) {
                assert(tk0 + Seq::<HostPhysAddr>::empty() =~= tk0);
            }
        }
        proof {
            let t0 = old(pt)@;
            let t1 = pt@;
            let level = pt.spec_level();
            let n = (size / 0x1000) as int;
            lemma_fundamental_div_mod(size as int, 0x1000);
            if self == (Backend::Alloc { populate: true }) {
                let k = if r {
                    n
                } else {
                    choose|k: int| 0 <= k <= size / 0x1000 && #[trigger] populated(t0, t1, start.0 as int, k, flags)
                };
                assert(populated(t0, t1, start.0 as int, k, flags));
                let extra = t1.subrange(t0.len() as int, t1.len() as int);
                assert(t1 =~= t0 + extra);
                assert forall|j: int| 0 <= j < extra.len() implies (#[trigger] extra[j]).size
                    == PageSize::Size4K && start.0 <= extra[j].vaddr && extra[j].vaddr + 0x1000
                    <= start.0 + size by {
                    assert(extra[j] == t1[t0.len() + j]);
                }
                lemma_append_leaves(t0, extra, level, start.0 as int, start.0 + size);
            } else if r {
                let extra = region_entries(
                    backend_target(*self),
                    start.0,
                    n,
                    backend_map_flags(*self, flags),
                );
                assert forall|j: int| 0 <= j < extra.len() implies (#[trigger] extra[j]).size
                    == PageSize::Size4K && start.0 <= extra[j].vaddr && extra[j].vaddr + 0x1000
                    <= start.0 + size by {}
                lemma_append_leaves(t0, extra, level, start.0 as int, start.0 + size);
            }
        }
        r
    }

    /// Removes the mappings of `[start, start + size)` from `pt`. An
    /// allocated area gives the frame of each mapped page back to the host
    /// allocator and skips pages that were never faulted in; it fails at a
    /// huge leaf, which such an area never installs. On success the range
    /// holds no leaf and the rest of the table is unchanged.
    pub fn unmap<H: AxMmHal>(
        &self,
        start: GuestPhysAddr,
        size: usize,
        pt: &mut NestedPageTable,
        freed: &mut Ghost<Seq<HostPhysAddr>>,
    ) -> (r: bool)
        requires
            old(pt).wf(),
            start.0 + size <= usize::MAX,
            aligned_4k(start.0 as int),
            aligned_4k(size as int),
        ensures
            final(pt).wf(),
            same_table(*final(pt), *old(pt)),
            untouched_outside(old(pt)@, final(pt)@, start.0 as int, start.0 + size),
            r ==> cleared(old(pt)@, final(pt)@, start.0 as int, start.0 + size),
            r == small_leaves(old(pt)@, start.0 as int, start.0 + size),
            r ==> final(freed)@ == old(freed)@ + backend_frames(
                *self,
                old(pt)@,
                start.0 as int,
                size as int,
            ),
    {
        match *self {
            Backend::Linear { pa_va_offset } => self.unmap_linear::<H>(
                start,
                size,
                pt,
                pa_va_offset,
                freed,
            ),
            Backend::Alloc { populate } => self.unmap_alloc::<H>(start, size, pt, populate, freed),
        }
    }

    /// Resolves a fault at `gpa` in an area declared with `orig_flags`.
    /// Only a lazy allocated area resolves faults: it takes a frame from the
    /// host allocator and points the reserved leaf at it. Every other
    /// backend returns false and leaves the table unchanged.
    pub fn handle_page_fault<H: AxMmHal>(
        &self,
        gpa: GuestPhysAddr,
        orig_flags: MappingFlags,
        pt: &mut NestedPageTable,
    ) -> (r: bool)
        requires
            old(pt).wf(),
        ensures
            final(pt).wf(),
            same_table(*final(pt), *old(pt)),
            self != (Backend::Alloc { populate: false }) ==> !r,
            !r ==> final(pt)@ == old(pt)@,
            r ==> exists|frame: int|
                remap_ok(old(pt)@, gpa.0 as int, frame) && final(pt)@ == old(pt)@.update(
                    leaf_index(old(pt)@, gpa.0 as int),
                    remapped_leaf(old(pt)@, gpa.0 as int, frame, orig_flags),
                ),
    {
        match *self {
            Backend::Linear { .. } => false,
            Backend::Alloc { populate } => self.handle_page_fault_alloc::<H>(
                gpa,
                orig_flags,
                pt,
                populate,
            ),
        }
    }

    fn map_linear(
        &self,
        start: GuestPhysAddr,
        size: usize,
        flags: MappingFlags,
        pt: &mut NestedPageTable,
        pa_va_offset: usize,
    ) -> (r: bool)
        requires
            old(pt).wf(),
            start.0 + size <= usize::MAX,
        ensures
            final(pt).wf(),
            same_table(*final(pt), *old(pt)),
            r == map_region_ok(
                old(pt)@,
                old(pt).spec_level(),
                start.0,
                size,
                RegionTarget::Linear { pa_va_offset },
            ),
            r ==> final(pt)@ == old(pt)@ + region_entries(
                RegionTarget::Linear { pa_va_offset },
                start.0,
                (size / 0x1000) as int,
                flags,
            ),
            !r ==> final(pt)@ == old(pt)@,
    {
        pt.map_region(start, RegionTarget::Linear { pa_va_offset }, size, flags, true, true).is_ok()
    }

    fn unmap_linear<H: AxMmHal>(
        &self,
        start: GuestPhysAddr,
        size: usize,
        pt: &mut NestedPageTable,
        _pa_va_offset: usize,
        freed: &mut Ghost<Seq<HostPhysAddr>>,
    ) -> (r: bool)
        requires
            old(pt).wf(),
            start.0 + size <= usize::MAX,
            aligned_4k(start.0 as int),
            aligned_4k(size as int),
        ensures
            final(pt).wf(),
            same_table(*final(pt), *old(pt)),
            untouched_outside(old(pt)@, final(pt)@, start.0 as int, start.0 + size),
            r ==> cleared(old(pt)@, final(pt)@, start.0 as int, start.0 + size),
            r == small_leaves(old(pt)@, start.0 as int, start.0 + size),
            r ==> final(freed)@ == old(freed)@,
    {
        Self::unmap_pages::<H>(start, size, pt, false, freed)
    }

    fn map_alloc<H: AxMmHal>(
        &self,
        start: GuestPhysAddr,
        size: usize,
        flags: MappingFlags,
        pt: &mut NestedPageTable,
        populate: bool,
        taken: &mut Ghost<Seq<HostPhysAddr>>,
    ) -> (r: bool)
        requires
            old(pt).wf(),
            start.0 + size <= usize::MAX,
        ensures
            final(pt).wf(),
            same_table(*final(pt), *old(pt)),
            populate ==> final(taken)@ == old(taken)@ + new_frames(old(pt)@, final(pt)@),
            !populate ==> final(taken)@ == old(taken)@,
            if populate {
                &&& r ==> aligned_4k(size as int) && populated(
                    old(pt)@,
                    final(pt)@,
                    start.0 as int,
                    (size / 0x1000) as int,
                    flags,
                )
                &&& !r ==> exists|k: int|
                    0 <= k <= size / 0x1000 && #[trigger] populated(
                        old(pt)@,
                        final(pt)@,
                        start.0 as int,
                        k,
                        flags,
                    )
            } else {
                &&& r == map_region_ok(
                    old(pt)@,
                    old(pt).spec_level(),
                    start.0,
                    size,
                    RegionTarget::Empty,
                )
                &&& r ==> final(pt)@ == old(pt)@ + region_entries(
                    RegionTarget::Empty,
                    start.0,
                    (size / 0x1000) as int,
                    MappingFlags { bits: 0 },
                )
                &&& !r ==> final(pt)@ == old(pt)@
            },
    {
        if populate {
            if size % PAGE_SIZE_4K != 0 {
                assert(pt@.subrange(0, pt@.len() as int) =~= pt@);
                assert(populated(pt@, pt@, start.0 as int, 0, flags));
                assert(old(taken)@ + new_frames(pt@, pt@) =~= old(taken)@);
                return false;
            }
            let end = start.0 + size;
            let mut addr = start.0;
            let ghost s = pt@;
            let ghost mut k: int = 0;
            assert(pt@.subrange(0, s.len() as int) =~= s);
            assert(old(taken)@ + new_frames(s, pt@) =~= old(taken)@);
            while addr < end
                invariant
                    taken@ == old(taken)@ + new_frames(s, pt@),
                    populate,
                    pt.wf(),
                    same_table(*pt, *old(pt)),
                    s == old(pt)@,
                    aligned_4k(size as int),
                    end == start.0 + size,
                    addr == start.0 + k * 0x1000,
                    0 <= k,
                    addr <= end,
                    populated(s, pt@, start.0 as int, k, flags),
                decreases end - addr,
            {
                proof {
                    lemma_fundamental_div_mod(size as int, 0x1000);
                    assert(k <= size / 0x1000);
                }
                let got = H::alloc_frame();
                let ghost before = pt@;
                let ghost tk = taken@;
                if !map_given_frame(pt, GuestPhysAddr(addr), got, flags) {
                    match got {
                        Some(f) => {
                            H::dealloc_frame(f);
                        },
                        None => {},
                    }
                    assert(populated(s, pt@, start.0 as int, k, flags));
                    return false;
                }
                *taken = Ghost(taken@.push(HostPhysAddr(frame_pa(got))));
                proof {
                    assert(new_frames(s, pt@) =~= new_frames(s, before).push(
                        HostPhysAddr(frame_pa(got)),
                    ));
                    assert(taken@ =~= old(taken)@ + new_frames(s, pt@));
                    assert(pt@ == before.push(pt@[before.len() as int]));
                    assert(pt@.subrange(0, s.len() as int) == s) by {
                        assert(before.subrange(0, s.len() as int) == s);
                        assert forall|j: int| 0 <= j < s.len() implies pt@[j] == s[j] by {
                            assert(pt@[j] == before[j]);
                            assert(before.subrange(0, s.len() as int)[j] == before[j]);
                        }
                        assert(pt@.subrange(0, s.len() as int) =~= s);
                    }
                    assert forall|j: int| 0 <= j < k + 1 implies {
                        &&& (#[trigger] pt@[s.len() + j]).vaddr == start.0 + j * 0x1000
                        &&& pt@[s.len() + j].flags == flags
                        &&& pt@[s.len() + j].size == PageSize::Size4K
                        &&& pt@[s.len() + j].valid
                    } by {
                        if j < k {
                            assert(pt@[s.len() + j] == before[s.len() + j]);
                        }
                    }
                    k = k + 1;
                }
                proof {
                    assert((end - addr) % 0x1000 == 0) by {
                        assert(end - addr == size - k * 0x1000 + 0x1000);
                    }
                }
                addr = addr + PAGE_SIZE_4K;
            }
            proof {
                assert(k == size / 0x1000);
            }
            true
        } else {
            pt.map_region(start, RegionTarget::Empty, size, MappingFlags::empty(), false, false).is_ok()
        }
    }

    fn unmap_alloc<H: AxMmHal>(
        &self,
        start: GuestPhysAddr,
        size: usize,
        pt: &mut NestedPageTable,
        _populate: bool,
        freed: &mut Ghost<Seq<HostPhysAddr>>,
    ) -> (r: bool)
        requires
            old(pt).wf(),
            start.0 + size <= usize::MAX,
            aligned_4k(start.0 as int),
            aligned_4k(size as int),
        ensures
            final(pt).wf(),
            same_table(*final(pt), *old(pt)),
            untouched_outside(old(pt)@, final(pt)@, start.0 as int, start.0 + size),
            r ==> cleared(old(pt)@, final(pt)@, start.0 as int, start.0 + size),
            r == small_leaves(old(pt)@, start.0 as int, start.0 + size),
            r ==> final(freed)@ == old(freed)@ + page_frames(
                old(pt)@,
                start.0 as int,
                (size / 0x1000) as nat,
            ),
    {
        Self::unmap_pages::<H>(start, size, pt, true, freed)
    }

    /// Removes the leaf of each base page of `[start, start + size)`, giving
    /// its frame back to `H` where `release` holds; pages without a leaf are
    /// skipped, and a huge leaf stops the walk with false.
    #[verifier::rlimit(100)]
    fn unmap_pages<H: AxMmHal>(
        start: GuestPhysAddr,
        size: usize,
        pt: &mut NestedPageTable,
        release: bool,
        freed: &mut Ghost<Seq<HostPhysAddr>>,
    ) -> (r: bool)
        requires
            old(pt).wf(),
            start.0 + size <= usize::MAX,
            aligned_4k(start.0 as int),
            aligned_4k(size as int),
        ensures
            final(pt).wf(),
            same_table(*final(pt), *old(pt)),
            untouched_outside(old(pt)@, final(pt)@, start.0 as int, start.0 + size),
            r ==> cleared(old(pt)@, final(pt)@, start.0 as int, start.0 + size),
            r == small_leaves(old(pt)@, start.0 as int, start.0 + size),
            r ==> final(freed)@ == old(freed)@ + if release {
                page_frames(old(pt)@, start.0 as int, (size / 0x1000) as nat)
            } else {
                Seq::empty()
            },
    {
        let end = start.0 + size;
        let mut addr = start.0;
        let ghost mut k: nat = 0;
        proof {
            assert(old(freed)@ + Seq::<HostPhysAddr>::empty() =~= old(freed)@);
        }
        while addr < end
            invariant
                addr == start.0 + k * 0x1000,
                freed@ == old(freed)@ + if release {
                    page_frames(old(pt)@, start.0 as int, k)
                } else {
                    Seq::empty()
                },
                pt.wf(),
                same_table(*pt, *old(pt)),
                end == start.0 + size,
                start.0 <= addr <= end,
                aligned_4k(addr as int),
                aligned_4k(end as int),
                forall|va: int| start.0 <= va < addr ==> !#[trigger] has_leaf(pt@, va),
                forall|va: int| !(start.0 <= va < addr) ==> #[trigger] agree_at(pt@, old(pt)@, va),
                forall|va: int|
                    start.0 <= va < addr && has_leaf(old(pt)@, va) ==> #[trigger] leaf(
                        old(pt)@,
                        va,
                    ).size == PageSize::Size4K,
            decreases end - addr,
        {
            let ghost before = pt@;
            proof {
                assert(agree_at(pt@, old(pt)@, addr as int));
            }
            match pt.find_leaf(GuestPhysAddr(addr)) {
                Some(e) => {
                    if e.size.is_huge() {
                        return false;
                    }
                },
                None => {},
            }
            let ghost prev = freed@;
            match pt.unmap(GuestPhysAddr(addr)) {
                Ok((frame, _)) => {
                    if release {
                        H::dealloc_frame(frame);
                        *freed = Ghost(freed@.push(frame));
                    }
                },
                Err(_) => {},
            }
            proof {
                let fr = frame_of(old(pt)@, start.0 + k * 0x1000);
                let pf = page_frames(old(pt)@, start.0 as int, k);
                assert(agree_at(before, old(pt)@, addr as int));
                assert(page_frames(old(pt)@, start.0 as int, k + 1) == pf + fr);
                if release {
                    if has_leaf(before, addr as int) && before[leaf_index(before, addr as int)].valid {
                        assert(fr == seq![HostPhysAddr(leaf(before, addr as int).paddr)]);
                    } else {
                        assert(fr =~= Seq::<HostPhysAddr>::empty());
                    }
                    assert(freed@ =~= prev + fr);
                    assert((old(freed)@ + pf) + fr =~= old(freed)@ + (pf + fr));
                } else {
                    assert(freed@ == prev);
                }
                k = k + 1;
            }
            proof {
                lemma_alloc_unmap_step(
                    old(pt)@,
                    before,
                    pt@,
                    pt.spec_level(),
                    start.0 as int,
                    addr as int,
                );
            }
            addr = addr + PAGE_SIZE_4K;
        }
        proof {
            lemma_fundamental_div_mod(size as int, 0x1000);
            assert(k == size / 0x1000);
        }
        true
    }

    fn handle_page_fault_alloc<H: AxMmHal>(
        &self,
        gpa: GuestPhysAddr,
        orig_flags: MappingFlags,
        pt: &mut NestedPageTable,
        populate: bool,
    ) -> (r: bool)
        requires
            old(pt).wf(),
        ensures
            final(pt).wf(),
            same_table(*final(pt), *old(pt)),
            populate ==> !r,
            !r ==> final(pt)@ == old(pt)@,
            r ==> exists|frame: int|
                remap_ok(old(pt)@, gpa.0 as int, frame) && final(pt)@ == old(pt)@.update(
                    leaf_index(old(pt)@, gpa.0 as int),
                    remapped_leaf(old(pt)@, gpa.0 as int, frame, orig_flags),
                ),
    {
        if populate {
            false
        } else {
            let got = H::alloc_frame();
            let ok = remap_given_frame(pt, gpa, got, orig_flags);
            if !ok {
                match got {
                    Some(f) => {
                        H::dealloc_frame(f);
                    },
                    None => {},
                }
            }
            ok
        }
    }
}

} // verus!
