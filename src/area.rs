use vstd::arithmetic::div_mod::lemma_fundamental_div_mod;
use vstd::prelude::*;

use crate::addr::{aligned_4k, GuestPhysAddr, GuestPhysAddrRange, HostPhysAddr, PAGE_SIZE_4K};
use crate::backend::{taken_frames, backend_frames, lemma_page_frames_agree, cleared, map_post, same_table, small_leaves, untouched_outside, Backend};
use crate::errors::MappingError;
use crate::flags::MappingFlags;
use crate::hal::AxMmHal;
use crate::npt::{leaves_from, agree_at, has_leaf, leaf, tiled, NestedPageTable, PageSize, PtEntry};

verus! {

/// One contiguous mapped region: its range, its flags and its backend.
#[derive(Clone, Copy, Debug, PartialEq, Eq, Structural)]
pub struct MemoryArea {
    pub va_range: GuestPhysAddrRange,
    pub flags: MappingFlags,
    pub backend: Backend,
}

impl MemoryArea {
    pub open spec fn spec_start(self) -> int {
        self.va_range.start.0 as int
    }

    pub open spec fn spec_end(self) -> int {
        self.va_range.end.0 as int
    }

    /// Creates the area `[start, start + size)`.
    pub fn new(start: GuestPhysAddr, size: usize, flags: MappingFlags, backend: Backend) -> (r:
        MemoryArea)
        requires
            start.0 + size <= usize::MAX,
        ensures
            r.spec_start() == start.0,
            r.spec_end() == start.0 + size,
            r.flags == flags,
            r.backend == backend,
    {
        MemoryArea { va_range: GuestPhysAddrRange::from_start_size(start, size), flags, backend }
    }

    /// First address of the area.
    pub fn start(&self) -> (r: GuestPhysAddr)
        ensures
            r == self.va_range.start,
    {
        self.va_range.start
    }

    /// First address past the area.
    pub fn end(&self) -> (r: GuestPhysAddr)
        ensures
            r == self.va_range.end,
    {
        self.va_range.end
    }

    /// Number of bytes of the area.
    pub fn size(&self) -> (r: usize)
        requires
            self.va_range.wf(),
        ensures
            r == self.spec_end() - self.spec_start(),
    {
        self.va_range.end.0 - self.va_range.start.0
    }

    /// Flags of the area.
    pub fn flags(&self) -> (r: MappingFlags)
        ensures
            r == self.flags,
    {
        self.flags
    }

    /// Backend of the area.
    pub fn backend(&self) -> (r: &Backend)
        ensures
            *r == self.backend,
    {
        &self.backend
    }
}

/// The area holds `va`.
pub open spec fn area_contains(a: MemoryArea, va: int) -> bool {
    a.spec_start() <= va < a.spec_end()
}

/// The area shares a byte with `[start, end)`.
pub open spec fn area_overlaps(a: MemoryArea, start: int, end: int) -> bool {
    a.spec_start() < end && start < a.spec_end()
}

/// Some area of `s` holds `va`.
pub open spec fn covered(s: Seq<MemoryArea>, va: int) -> bool {
    exists|i: int| 0 <= i < s.len() && area_contains(#[trigger] s[i], va)
}

/// Some area of `s` shares a byte with `[start, end)`.
pub open spec fn any_overlap(s: Seq<MemoryArea>, start: int, end: int) -> bool {
    exists|i: int| 0 <= i < s.len() && area_overlaps(#[trigger] s[i], start, end)
}

/// Areas are non-empty, page aligned, and sorted without overlap.
pub open spec fn areas_wf(s: Seq<MemoryArea>) -> bool {
    &&& forall|i: int|
        0 <= i < s.len() ==> {
            &&& (#[trigger] s[i]).spec_start() < s[i].spec_end()
            &&& aligned_4k(s[i].spec_start())
            &&& aligned_4k(s[i].spec_end())
        }
    &&& forall|i: int, j: int|
        0 <= i < j < s.len() ==> (#[trigger] s[i]).spec_end() <= (#[trigger] s[j]).spec_start()
}

/// The area `a` with its range replaced by `[start, end)`.
pub open spec fn piece(a: MemoryArea, start: usize, end: usize) -> MemoryArea {
    MemoryArea {
        va_range: GuestPhysAddrRange { start: GuestPhysAddr(start), end: GuestPhysAddr(end) },
        ..a
    }
}

/// What remains of `a` once `[start, end)` is taken out of it.
pub open spec fn cut(a: MemoryArea, start: usize, end: usize) -> Seq<MemoryArea> {
    if !area_overlaps(a, start as int, end as int) {
        seq![a]
    } else {
        (if a.spec_start() < start {
            seq![piece(a, a.va_range.start.0, start)]
        } else {
            Seq::empty()
        }) + (if end < a.spec_end() {
            seq![piece(a, end, a.va_range.end.0)]
        } else {
            Seq::empty()
        })
    }
}

/// What remains of the areas `s` once `[start, end)` is taken out.
pub open spec fn cut_all(s: Seq<MemoryArea>, start: usize, end: usize) -> Seq<MemoryArea>
    decreases s.len(),
{
    if s.len() == 0 {
        Seq::empty()
    } else {
        cut_all(s.drop_last(), start, end) + cut(s.last(), start, end)
    }
}

/// The table `t1` has no leaf at a byte of `[start, end)` that an area of
/// `s` holds.
pub open spec fn cleared_areas(
    s: Seq<MemoryArea>,
    t0: Seq<PtEntry>,
    t1: Seq<PtEntry>,
    start: int,
    end: int,
) -> bool {
    forall|va: int| start <= va < end && covered(s, va) ==> !#[trigger] has_leaf(t1, va)
}

/// An area that does not overlap `[start, end)` adds no byte of it.
proof fn lemma_take_cover(s: Seq<MemoryArea>, i: int, start: int, end: int)
    requires
        0 <= i < s.len(),
        !area_overlaps(s[i], start, end),
    ensures
        forall|va: int|
            start <= va < end ==> #[trigger] covered(s.take(i + 1), va) == covered(s.take(i), va),
{
    assert forall|va: int| start <= va < end implies #[trigger] covered(s.take(i + 1), va) == covered(
        s.take(i),
        va,
    ) by {
        if covered(s.take(i + 1), va) {
            let k = choose|k: int| 0 <= k < s.take(i + 1).len() && area_contains(
                #[trigger] s.take(i + 1)[k],
                va,
            );
            assert(k != i);
            assert(s.take(i)[k] == s[k]);
        }
        if covered(s.take(i), va) {
            let k = choose|k: int| 0 <= k < s.take(i).len() && area_contains(
                #[trigger] s.take(i)[k],
                va,
            );
            assert(s.take(i + 1)[k] == s[k]);
        }
    }
}


/// The backend of `a` can release the part of `a` that lies in `[start, end)`
/// from the table `t`: every leaf there is a base page.
pub open spec fn area_owed(a: MemoryArea, t: Seq<PtEntry>, start: int, end: int) -> bool {
    small_leaves(t,
        if a.spec_start() < start {
            start
        } else {
            a.spec_start()
        },
        if a.spec_end() < end {
            a.spec_end()
        } else {
            end
        },
    )
}

/// Every area of `s` that meets `[start, end)` can release its part of it.
pub open spec fn owed_all(s: Seq<MemoryArea>, t: Seq<PtEntry>, start: int, end: int) -> bool {
    forall|i: int|
        0 <= i < s.len() && area_overlaps(s[i], start, end) ==> area_owed(#[trigger] s[i], t, start, end)
}

/// `t` keeps the leaves of `t0` at every byte except those of `[start, end)`
/// that an area of `s` holds.
pub open spec fn untouched_beyond(
    s: Seq<MemoryArea>,
    t0: Seq<PtEntry>,
    t: Seq<PtEntry>,
    start: int,
    end: int,
) -> bool {
    forall|va: int| !(start <= va < end && covered(s, va)) ==> #[trigger] agree_at(t, t0, va)
}

/// `t` has no leaf at a byte of `[start, end)` held by one of the first `n`
/// areas of `s` whose backend could release its part from `t0`.
pub open spec fn owed_cleared(
    s: Seq<MemoryArea>,
    n: int,
    t0: Seq<PtEntry>,
    t: Seq<PtEntry>,
    start: int,
    end: int,
) -> bool {
    forall|k: int, va: int|
        0 <= k < n && #[trigger] area_contains(s[k], va) && start <= va < end && area_owed(
            s[k],
            t0,
            start,
            end,
        ) ==> !has_leaf(t, va)
}

/// A range whose leaves are all base pages in `t0` has only base pages in
/// any table that agrees with `t0` on it.
proof fn lemma_owed_transfer(t0: Seq<PtEntry>, t1: Seq<PtEntry>, lo: int, hi: int)
    requires
        forall|va: int| lo <= va < hi ==> #[trigger] agree_at(t1, t0, va),
        small_leaves(t0, lo, hi),
    ensures
        small_leaves(t1, lo, hi),
{
    assert forall|va: int| lo <= va < hi && has_leaf(t1, va) implies #[trigger] leaf(t1, va).size
        == PageSize::Size4K by {
        assert(agree_at(t1, t0, va));
    }
}

/// The unmap of the part `[lo, hi)` of area `i`, from `t1` to `t2`, keeps
/// the facts on the areas processed so far, and succeeds where the area
/// could release its part from the original table `t0`.
proof fn lemma_unmap_area_step(
    s: Seq<MemoryArea>,
    i: int,
    t0: Seq<PtEntry>,
    t1: Seq<PtEntry>,
    t2: Seq<PtEntry>,
    start: int,
    end: int,
    lo: int,
    hi: int,
    res: bool,
    ok: bool,
)
    requires
        ok ==> cleared_areas(s.take(i), t0, t1, start, end),
        areas_wf(s),
        0 <= i < s.len(),
        area_overlaps(s[i], start, end),
        lo == if s[i].spec_start() < start { start } else { s[i].spec_start() },
        hi == if s[i].spec_end() < end { s[i].spec_end() } else { end },
        untouched_beyond(s.take(i), t0, t1, start, end),
        owed_cleared(s, i, t0, t1, start, end),
        untouched_outside(t1, t2, lo, hi),
        res ==> forall|va: int| lo <= va < hi ==> !#[trigger] has_leaf(t2, va),
        small_leaves(t1, lo, hi) ==> res,
    ensures
        untouched_beyond(s.take(i + 1), t0, t2, start, end),
        owed_cleared(s, i + 1, t0, t2, start, end),
        area_owed(s[i], t0, start, end) ==> res,
        forall|va: int| lo <= va < hi ==> #[trigger] agree_at(t1, t0, va),
        ok && res ==> cleared_areas(s.take(i + 1), t0, t2, start, end),
{
    assert forall|va: int| lo <= va < hi implies #[trigger] agree_at(t1, t0, va) by {
        if covered(s.take(i), va) {
            let k = choose|k: int| 0 <= k < s.take(i).len() && area_contains(#[trigger] s.take(i)[k], va);
            assert(s.take(i)[k] == s[k]);
            assert(s[k].spec_end() <= s[i].spec_start());
        }
    }
    if area_owed(s[i], t0, start, end) {
        lemma_owed_transfer(t0, t1, lo, hi);
    }
    assert forall|va: int| !(start <= va < end && covered(s.take(i + 1), va)) implies #[trigger] agree_at(
        t2,
        t0,
        va,
    ) by {
        if lo <= va < hi {
            assert(area_contains(s.take(i + 1)[i], va));
        }
        if covered(s.take(i), va) {
            let k = choose|k: int| 0 <= k < s.take(i).len() && area_contains(#[trigger] s.take(i)[k], va);
            assert(area_contains(s.take(i + 1)[k], va));
        }
        assert(agree_at(t2, t1, va));
        assert(agree_at(t1, t0, va));
    }
    assert forall|k: int, va: int|
        0 <= k < i + 1 && #[trigger] area_contains(s[k], va) && start <= va < end && area_owed(
            s[k],
            t0,
            start,
            end,
        ) implies !has_leaf(t2, va) by {
        if k < i {
            assert(s[k].spec_end() <= s[i].spec_start());
            assert(!has_leaf(t1, va));
            assert(agree_at(t2, t1, va));
        }
    }
    if ok && res {
        assert forall|va: int| start <= va < end && covered(s.take(i + 1), va) implies !#[trigger] has_leaf(
            t2,
            va,
        ) by {
            if !(lo <= va < hi) {
                let k = choose|k: int|
                    0 <= k < s.take(i + 1).len() && area_contains(#[trigger] s.take(i + 1)[k], va);
                assert(k != i);
                assert(area_contains(s.take(i)[k], va));
                assert(agree_at(t2, t1, va));
            }
        }
    }
}

/// Passing over area `i`, which does not meet `[start, end)`, keeps the
/// facts on the areas processed so far.
proof fn lemma_skip_area_step(
    s: Seq<MemoryArea>,
    i: int,
    t0: Seq<PtEntry>,
    t1: Seq<PtEntry>,
    start: int,
    end: int,
    ok: bool,
)
    requires
        ok ==> cleared_areas(s.take(i), t0, t1, start, end),
        0 <= i < s.len(),
        !area_overlaps(s[i], start, end),
        untouched_beyond(s.take(i), t0, t1, start, end),
        owed_cleared(s, i, t0, t1, start, end),
    ensures
        untouched_beyond(s.take(i + 1), t0, t1, start, end),
        owed_cleared(s, i + 1, t0, t1, start, end),
        ok ==> cleared_areas(s.take(i + 1), t0, t1, start, end),
{
    lemma_take_cover(s, i, start, end);
    assert forall|va: int| !(start <= va < end && covered(s.take(i + 1), va)) implies #[trigger] agree_at(
        t1,
        t0,
        va,
    ) by {
        if start <= va < end {
            assert(covered(s.take(i + 1), va) == covered(s.take(i), va));
        }
    }
}

/// Every area of `s` lies inside `[lo, hi)`.
pub open spec fn areas_within(s: Seq<MemoryArea>, lo: int, hi: int) -> bool {
    forall|i: int| 0 <= i < s.len() ==> lo <= (#[trigger] s[i]).spec_start() && s[i].spec_end() <= hi
}

/// Cutting a range out of areas that lie inside `[lo, hi)` leaves areas that
/// lie inside it too.
pub proof fn lemma_cut_all_within(s: Seq<MemoryArea>, start: usize, end: usize, lo: int, hi: int)
    requires
        areas_within(s, lo, hi),
        areas_wf(s),
    ensures
        areas_within(cut_all(s, start, end), lo, hi),
    decreases s.len(),
{
    if s.len() > 0 {
        let p = s.drop_last();
        assert(areas_wf(p)) by {
            assert forall|i: int, j: int| 0 <= i < j < p.len() implies (#[trigger] p[i]).spec_end()
                <= (#[trigger] p[j]).spec_start() by {
                assert(p[i] == s[i] && p[j] == s[j]);
            }
            assert forall|i: int| 0 <= i < p.len() implies {
                &&& (#[trigger] p[i]).spec_start() < p[i].spec_end()
                &&& aligned_4k(p[i].spec_start())
                &&& aligned_4k(p[i].spec_end())
            } by {
                assert(p[i] == s[i]);
            }
        }
        assert(areas_within(p, lo, hi)) by {
            assert forall|i: int| 0 <= i < p.len() implies lo <= (#[trigger] p[i]).spec_start()
                && p[i].spec_end() <= hi by {
                assert(p[i] == s[i]);
            }
        }
        lemma_cut_all_within(p, start, end, lo, hi);
        let c = cut_all(p, start, end);
        let a = s.last();
        assert(a == s[s.len() - 1]);
        assert(a.spec_start() < a.spec_end());
        let d = cut(a, start, end);
        assert forall|j: int| 0 <= j < d.len() implies lo <= (#[trigger] d[j]).spec_start()
            && d[j].spec_end() <= hi by {}
        assert forall|j: int| 0 <= j < (c + d).len() implies lo <= (#[trigger] (c + d)[j]).spec_start()
            && (c + d)[j].spec_end() <= hi by {
            if j < c.len() {
                assert((c + d)[j] == c[j]);
            } else {
                assert((c + d)[j] == d[j - c.len()]);
            }
        }
    }
}

/// Inserting an area that lies inside `[lo, hi)` keeps all areas inside it.
pub proof fn lemma_insert_within(s: Seq<MemoryArea>, idx: int, a: MemoryArea, lo: int, hi: int)
    requires
        areas_within(s, lo, hi),
        0 <= idx <= s.len(),
        lo <= a.spec_start(),
        a.spec_end() <= hi,
    ensures
        areas_within(s.insert(idx, a), lo, hi),
{
    assert forall|i: int| 0 <= i < s.insert(idx, a).len() implies lo <= (#[trigger] s.insert(
        idx,
        a,
    )[i]).spec_start() && s.insert(idx, a)[i].spec_end() <= hi by {
        if i < idx {
            assert(s.insert(idx, a)[i] == s[i]);
        } else if i > idx {
            assert(s.insert(idx, a)[i] == s[i - 1]);
        }
    }
}

/// A byte that an area holds outside `[start, end)` is still held by an
/// area once that range is cut out.
pub proof fn lemma_cut_all_covers(s: Seq<MemoryArea>, start: usize, end: usize, va: int)
    requires
        covered(s, va),
        !(start <= va < end),
    ensures
        covered(cut_all(s, start, end), va),
    decreases s.len(),
{
    let p = s.drop_last();
    let a = s.last();
    let c = cut_all(p, start, end);
    let d = cut(a, start, end);
    assert(cut_all(s, start, end) == c + d);
    if area_contains(a, va) {
        let j: int = if !area_overlaps(a, start as int, end as int) {
            0
        } else if va < start {
            0
        } else if a.spec_start() < start {
            1
        } else {
            0
        };
        assert(area_contains(d[j], va));
        assert((c + d)[c.len() + j] == d[j]);
    } else {
        let k = choose|k: int| 0 <= k < s.len() && area_contains(#[trigger] s[k], va);
        assert(k != s.len() - 1);
        assert(area_contains(p[k], va));
        lemma_cut_all_covers(p, start, end, va);
        let m = choose|m: int| 0 <= m < c.len() && area_contains(#[trigger] c[m], va);
        assert((c + d)[m] == c[m]);
    }
}

/// The frames that taking `[start, end)` out of area `a` gives back to the
/// host allocator, reading the leaves from `t`.
pub open spec fn area_frames(a: MemoryArea, t: Seq<PtEntry>, start: int, end: int) -> Seq<HostPhysAddr> {
    if area_overlaps(a, start, end) {
        let lo = if a.spec_start() < start { start } else { a.spec_start() };
        let hi = if a.spec_end() < end { a.spec_end() } else { end };
        backend_frames(a.backend, t, lo, hi - lo)
    } else {
        Seq::empty()
    }
}

/// The frames that taking `[start, end)` out of the areas `s` gives back to
/// the host allocator, area by area in address order.
pub open spec fn areas_frames(s: Seq<MemoryArea>, t: Seq<PtEntry>, start: int, end: int) -> Seq<
    HostPhysAddr,
>
    decreases s.len(),
{
    if s.len() == 0 {
        Seq::empty()
    } else {
        areas_frames(s.drop_last(), t, start, end) + area_frames(s.last(), t, start, end)
    }
}

/// The highest base-page boundary of the address word.
pub open spec fn top_4k() -> int {
    usize::MAX - usize::MAX % 0x1000
}

/// An ordered set of non-overlapping memory areas.
pub struct MemorySet {
    areas: Vec<MemoryArea>,
}

impl View for MemorySet {
    type V = Seq<MemoryArea>;

    closed spec fn view(&self) -> Seq<MemoryArea> {
        self.areas@
    }
}

impl MemorySet {
    pub open spec fn wf(&self) -> bool {
        areas_wf(self@)
    }

    /// Creates an empty set.
    pub fn new() -> (r: MemorySet)
        ensures
            r@ == Seq::<MemoryArea>::empty(),
            r.wf(),
    {
        MemorySet { areas: Vec::new() }
    }

    /// Number of areas.
    pub fn len(&self) -> (r: usize)
        ensures
            r == self@.len(),
    {
        self.areas.len()
    }

    /// Whether the set has no area.
    pub fn is_empty(&self) -> (r: bool)
        ensures
            r == (self@.len() == 0),
    {
        self.areas.len() == 0
    }

    /// Whether some area shares a byte with `range`.
    pub fn overlaps(&self, range: GuestPhysAddrRange) -> (r: bool)
        ensures
            r == any_overlap(self@, range.start.0 as int, range.end.0 as int),
    {
        let n = self.areas.len();
        let mut i: usize = 0;
        while i < n
            invariant
                n == self@.len(),
                i <= n,
                forall|k: int|
                    0 <= k < i ==> !area_overlaps(
                        #[trigger] self@[k],
                        range.start.0 as int,
                        range.end.0 as int,
                    ),
            decreases n - i,
        {
            let a = &self.areas[i];
            if a.va_range.start.0 < range.end.0 && range.start.0 < a.va_range.end.0 {
                assert(area_overlaps(self@[i as int], range.start.0 as int, range.end.0 as int));
                return true;
            }
            i += 1;
        }
        false
    }

    /// The area that holds `va`, if any.
    pub fn find(&self, va: GuestPhysAddr) -> (r: Option<&MemoryArea>)
        ensures
            match r {
                Some(a) => exists|i: int|
                    0 <= i < self@.len() && self@[i] == *a && area_contains(*a, va.0 as int),
                None => !covered(self@, va.0 as int),
            },
    {
        let n = self.areas.len();
        let mut i: usize = 0;
        while i < n
            invariant
                n == self@.len(),
                i <= n,
                forall|k: int| 0 <= k < i ==> !area_contains(#[trigger] self@[k], va.0 as int),
            decreases n - i,
        {
            let a = &self.areas[i];
            if a.va_range.start.0 <= va.0 && va.0 < a.va_range.end.0 {
                assert(self@[i as int] == *a);
                return Some(a);
            }
            i += 1;
        }
        None
    }
    /// Adds `area` and maps it into `pt` through its backend. An empty area
    /// is refused with `InvalidParam` and one that overlaps an area of the
    /// set with `AlreadyExists`, both before anything changes. Otherwise
    /// the area joins the set whatever its backend reports, so that a later
    /// unmap releases what was mapped; a backend failure is `BadState`.
    pub fn map<H: AxMmHal>(
        &mut self,
        area: MemoryArea,
        pt: &mut NestedPageTable,
        taken: &mut Ghost<Seq<HostPhysAddr>>,
    ) -> (r: Result<(), MappingError>)
        requires
            old(self).wf(),
            old(pt).wf(),
            area.va_range.wf(),
            aligned_4k(area.spec_start()),
            aligned_4k(area.spec_end()),
        ensures
            final(self).wf(),
            final(pt).wf(),
            same_table(*final(pt), *old(pt)),
            area.spec_start() == area.spec_end() ==> r == Err::<(), MappingError>(
                MappingError::InvalidParam,
            ) && final(self)@ == old(self)@ && final(pt)@ == old(pt)@,
            area.spec_start() < area.spec_end() && any_overlap(
                old(self)@,
                area.spec_start(),
                area.spec_end(),
            ) ==> r == Err::<(), MappingError>(MappingError::AlreadyExists) && final(self)@ == old(
                self,
            )@ && final(pt)@ == old(pt)@,
            area.spec_start() < area.spec_end() && !any_overlap(
                old(self)@,
                area.spec_start(),
                area.spec_end(),
            ) ==> {
                &&& r is Ok || r == Err::<(), MappingError>(MappingError::BadState)
                &&& exists|idx: int|
                    0 <= idx <= old(self)@.len() && final(self)@ == old(self)@.insert(idx, area)
                &&& map_post(
                    area.backend,
                    area.va_range.start.0,
                    (area.spec_end() - area.spec_start()) as usize,
                    area.flags,
                    old(pt)@,
                    old(pt).spec_level(),
                    final(pt)@,
                    r is Ok,
                )
            },
            leaves_from(old(pt)@, final(pt)@, area.spec_start(), area.spec_end()),
            final(taken)@ == old(taken)@ + taken_frames(area.backend, old(pt)@, final(pt)@),
    {
        proof {
            assert(old(taken)@ + taken_frames(area.backend, pt@, pt@) =~= old(taken)@);
        }
        if area.va_range.start.0 == area.va_range.end.0 {
            return Err(MappingError::InvalidParam);
        }
        if self.overlaps(area.va_range) {
            return Err(MappingError::AlreadyExists);
        }
        let size = area.va_range.end.0 - area.va_range.start.0;
        let ok = area.backend.map::<H>(area.va_range.start, size, area.flags, pt, taken);
        let n = self.areas.len();
        let mut idx: usize = 0;
        while idx < n && self.areas[idx].va_range.start.0 < area.va_range.end.0
            invariant
                n == self@.len(),
                idx <= n,
                self@ == old(self)@,
                forall|k: int| 0 <= k < idx ==> (#[trigger] self@[k]).spec_end() <= area.spec_start(),
                !any_overlap(self@, area.spec_start(), area.spec_end()),
            decreases n - idx,
        {
            assert(!area_overlaps(self@[idx as int], area.spec_start(), area.spec_end()));
            idx += 1;
        }
        let ghost s = self@;
        self.areas.insert(idx, area);
        proof {
            let t = self@;
            assert(t == s.insert(idx as int, area));
            assert forall|p: int, q: int| 0 <= p < q < t.len() implies (#[trigger] t[p]).spec_end()
                <= (#[trigger] t[q]).spec_start() by {
                if q < idx {
                } else if q == idx {
                } else if p < idx {
                    assert(t[q] == s[q - 1]);
                    assert(s[idx as int].spec_start() >= area.spec_end());
                    if q - 1 > idx {
                        assert(s[idx as int].spec_end() <= s[q - 1].spec_start());
                    }
                } else if p == idx {
                    assert(t[q] == s[q - 1]);
                    assert(s[idx as int].spec_start() >= area.spec_end());
                    if q - 1 > idx {
                        assert(s[idx as int].spec_end() <= s[q - 1].spec_start());
                    }
                } else {
                    assert(t[p] == s[p - 1] && t[q] == s[q - 1]);
                }
            }
            assert forall|p: int| 0 <= p < t.len() implies {
                &&& (#[trigger] t[p]).spec_start() < t[p].spec_end()
                &&& aligned_4k(t[p].spec_start())
                &&& aligned_4k(t[p].spec_end())
            } by {
                if p > idx {
                    assert(t[p] == s[p - 1]);
                }
            }
        }
        if ok {
            Ok(())
        } else {
            Err(MappingError::BadState)
        }
    }

    /// Takes `[start, start + size)` out of every area: an area inside the
    /// range leaves the set, one that straddles a bound keeps the part
    /// outside, and one that holds the whole range is split in two. The
    /// backend of each area releases the part taken out. The set always
    /// ends as described; where a backend fails the result is `BadState`.
    /// On success no byte of the range that an area held keeps a leaf, and
    /// leaves outside the range are untouched.
    #[verifier::rlimit(100)]
    pub fn unmap<H: AxMmHal>(
        &mut self,
        start: GuestPhysAddr,
        size: usize,
        pt: &mut NestedPageTable,
        freed: &mut Ghost<Seq<HostPhysAddr>>,
    ) -> (r: Result<(), MappingError>)
        requires
            old(self).wf(),
            old(pt).wf(),
            start.0 + size <= usize::MAX,
            aligned_4k(start.0 as int),
            aligned_4k(size as int),
        ensures
            final(self).wf(),
            final(pt).wf(),
            same_table(*final(pt), *old(pt)),
            size == 0 ==> r is Ok && final(self)@ == old(self)@ && final(pt)@ == old(pt)@,
            size > 0 ==> final(self)@ == cut_all(old(self)@, start.0, (start.0 + size) as usize),
            r is Ok || r == Err::<(), MappingError>(MappingError::BadState),
            r is Ok ==> cleared_areas(old(self)@, old(pt)@, final(pt)@, start.0 as int, start.0 + size),
            old(self)@.len() == 0 ==> r is Ok && final(pt)@ == old(pt)@,
            owed_all(old(self)@, old(pt)@, start.0 as int, start.0 + size) ==> r is Ok,
            size == 0 ==> final(freed)@ == old(freed)@,
            size > 0 && r is Ok ==> final(freed)@ == old(freed)@ + areas_frames(
                old(self)@,
                old(pt)@,
                start.0 as int,
                start.0 + size,
            ),
            untouched_beyond(old(self)@, old(pt)@, final(pt)@, start.0 as int, start.0 + size),
            owed_cleared(
                old(self)@,
                old(self)@.len() as int,
                old(pt)@,
                final(pt)@,
                start.0 as int,
                start.0 + size,
            ),
    {
        if size == 0 {
            return Ok(());
        }
        let end = start.0 + size;
        let n = self.areas.len();
        proof {
            assert(old(self)@.take(0) =~= Seq::<MemoryArea>::empty());
            assert(old(freed)@ + Seq::<HostPhysAddr>::empty() =~= old(freed)@);
        }
        let mut kept: Vec<MemoryArea> = Vec::new();
        let mut ok = true;
        let mut i: usize = 0;
        let ghost old_s = self@;
        while i < n
            invariant
                n == old_s.len(),
                old_s == old(self)@,
                self@ == old_s,
                areas_wf(old_s),
                i <= n,
                end == start.0 + size,
                size > 0,
                aligned_4k(start.0 as int),
                aligned_4k(end as int),
                kept@ == cut_all(old_s.take(i as int), start.0, end),
                areas_wf(kept@),
                forall|p: int, j: int|
                    0 <= p < kept@.len() && i <= j < n ==> (#[trigger] kept@[p]).spec_end() <= (
                    #[trigger] old_s[j]).spec_start(),
                pt.wf(),
                same_table(*pt, *old(pt)),
                ok ==> cleared_areas(old_s.take(i as int), old(pt)@, pt@, start.0 as int, end as int),
                n == 0 ==> ok && pt@ == old(pt)@,
                owed_all(old_s, old(pt)@, start.0 as int, end as int) ==> ok,
                ok ==> freed@ == old(freed)@ + areas_frames(
                    old_s.take(i as int),
                    old(pt)@,
                    start.0 as int,
                    end as int,
                ),
                untouched_beyond(old_s.take(i as int), old(pt)@, pt@, start.0 as int, end as int),
                owed_cleared(old_s, i as int, old(pt)@, pt@, start.0 as int, end as int),
            decreases n - i,
        {
            let a = self.areas[i];
            let ghost before_pt = pt@;
            let ghost before_kept = kept@;
            assert(old_s.take(i + 1).drop_last() =~= old_s.take(i as int));
            assert(old_s.take(i + 1).last() == a);
            if a.va_range.end.0 <= start.0 || end <= a.va_range.start.0 {
                kept.push(a);
                proof {
                    if ok {
                        let t0 = old(pt)@;
                        let pf = areas_frames(old_s.take(i as int), t0, start.0 as int, end as int);
                        assert(area_frames(a, t0, start.0 as int, end as int) =~= Seq::<
                            HostPhysAddr,
                        >::empty());
                        assert(areas_frames(old_s.take(i + 1), t0, start.0 as int, end as int) =~= pf);
                    }
                    assert(kept@ =~= before_kept + cut(a, start.0, end));
                    assert forall|p: int, q: int| 0 <= p < q < kept@.len() implies (
                    #[trigger] kept@[p]).spec_end() <= (#[trigger] kept@[q]).spec_start() by {
                        if q == before_kept.len() {
                            assert(before_kept[p].spec_end() <= old_s[i as int].spec_start());
                        }
                    }
                    lemma_take_cover(old_s, i as int, start.0 as int, end as int);
                    lemma_skip_area_step(old_s, i as int, old(pt)@, pt@, start.0 as int, end as int, ok);
                }
            } else {
                let lo = if a.va_range.start.0 < start.0 {
                    start.0
                } else {
                    a.va_range.start.0
                };
                let hi = if a.va_range.end.0 < end {
                    a.va_range.end.0
                } else {
                    end
                };
                let ghost prev = freed@;
                let res = a.backend.unmap::<H>(GuestPhysAddr(lo), hi - lo, pt, freed);
                proof {
                    assert(old_s[i as int] == a);
                    lemma_unmap_area_step(
                        old_s,
                        i as int,
                        old(pt)@,
                        before_pt,
                        pt@,
                        start.0 as int,
                        end as int,
                        lo as int,
                        hi as int,
                        res,
                        ok,
                    );
                    if ok && res {
                        let t0 = old(pt)@;
                        let nn = ((hi - lo) / 0x1000) as nat;
                        lemma_fundamental_div_mod((hi - lo) as int, 0x1000);
                        assert(aligned_4k(a.spec_start()) && aligned_4k(a.spec_end()));
                        assert(nn * 0x1000 == hi - lo);
                        lemma_page_frames_agree(before_pt, t0, lo as int, nn);
                        let pf = areas_frames(old_s.take(i as int), t0, start.0 as int, end as int);
                        let af = area_frames(a, t0, start.0 as int, end as int);
                        assert(af == backend_frames(a.backend, before_pt, lo as int, (hi - lo) as int));
                        assert(areas_frames(old_s.take(i + 1), t0, start.0 as int, end as int) == pf
                            + af);
                        assert(freed@ =~= old(freed)@ + (pf + af));
                    }
                }
                ok = ok && res;
                if a.va_range.start.0 < start.0 {
                    kept.push(
                        MemoryArea {
                            va_range: GuestPhysAddrRange { start: a.va_range.start, end: start },
                            ..a
                        },
                    );
                }
                if end < a.va_range.end.0 {
                    kept.push(
                        MemoryArea {
                            va_range: GuestPhysAddrRange { start: GuestPhysAddr(end), end: a.va_range.end },
                            ..a
                        },
                    );
                }
                proof {
                    assert(kept@ =~= before_kept + cut(a, start.0, end));
                    assert(old_s[i as int] == a);
                    assert forall|p: int, q: int| 0 <= p < q < kept@.len() implies (
                    #[trigger] kept@[p]).spec_end() <= (#[trigger] kept@[q]).spec_start() by {
                        if q >= before_kept.len() && p < before_kept.len() {
                            assert(before_kept[p].spec_end() <= old_s[i as int].spec_start());
                        }
                    }
                    assert forall|p: int, j: int|
                        0 <= p < kept@.len() && i + 1 <= j < n implies (
                        #[trigger] kept@[p]).spec_end() <= (#[trigger] old_s[j]).spec_start() by {
                        assert(old_s[i as int].spec_end() <= old_s[j].spec_start());
                        if p < before_kept.len() {
                            assert(before_kept[p].spec_end() <= old_s[j].spec_start());
                        }
                    }
                }
            }
            i += 1;
        }
        assert(old_s.take(n as int) =~= old_s);
        self.areas = kept;
        if ok {
            Ok(())
        } else {
            Err(MappingError::BadState)
        }
    }

    /// Unmaps every area through its backend and empties the set. It never
    /// fails: a backend that cannot release its part is passed over, since
    /// there is nothing left to do about it on this path. Every byte of an
    /// area whose backend could release it is left without a leaf, and the
    /// leaves outside all areas are kept.
    pub fn clear<H: AxMmHal>(&mut self, pt: &mut NestedPageTable, freed: &mut Ghost<Seq<HostPhysAddr>>)
        requires
            old(self).wf(),
            old(pt).wf(),
        ensures
            final(self)@ == Seq::<MemoryArea>::empty(),
            final(self).wf(),
            final(pt).wf(),
            same_table(*final(pt), *old(pt)),
            old(self)@.len() == 0 ==> final(pt)@ == old(pt)@,
            forall|i: int, va: int|
                0 <= i < old(self)@.len() && #[trigger] area_contains(old(self)@[i], va)
                    && small_leaves(old(pt)@,
                    old(self)@[i].spec_start(),
                    old(self)@[i].spec_end(),
                ) ==> !has_leaf(final(pt)@, va),
            forall|va: int| !covered(old(self)@, va) ==> #[trigger] agree_at(final(pt)@, old(pt)@, va),
            owed_all(old(self)@, old(pt)@, 0, top_4k()) ==> final(freed)@ == old(freed)@
                + areas_frames(old(self)@, old(pt)@, 0, top_4k()),
    {
        let top = usize::MAX - usize::MAX % PAGE_SIZE_4K;
        proof {
            crate::npt::lemma_align_down(usize::MAX as int, 0x1000);
            lemma_fundamental_div_mod(usize::MAX as int, 0x1000);
            assert forall|i: int| 0 <= i < self@.len() implies (#[trigger] self@[i]).spec_end()
                <= top by {
                let e = self@[i].spec_end();
                assert(aligned_4k(e));
                lemma_fundamental_div_mod(e, 0x1000);
                assert(e <= top) by (nonlinear_arith)
                    requires
                        e == 0x1000 * (e / 0x1000),
                        usize::MAX == 0x1000 * (usize::MAX / 0x1000) + usize::MAX % 0x1000,
                        top == usize::MAX - usize::MAX % 0x1000,
                        e <= usize::MAX,
                        0 <= usize::MAX % 0x1000 < 0x1000,
                ;
            }
        }
        let _ = self.unmap::<H>(GuestPhysAddr(0), top, pt, freed);
        proof {
            let s = old(self)@;
            assert forall|i: int, va: int|
                0 <= i < s.len() && #[trigger] area_contains(s[i], va) && small_leaves(old(pt)@,
                    s[i].spec_start(),
                    s[i].spec_end(),
                ) implies !has_leaf(pt@, va) by {
                assert(s[i].spec_end() <= top);
                assert(area_owed(s[i], old(pt)@, 0, top as int));
            }
            assert forall|va: int| !covered(s, va) implies #[trigger] agree_at(pt@, old(pt)@, va) by {}
        }
        self.areas = Vec::new();
    }
}

} // verus!
