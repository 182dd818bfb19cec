use vstd::arithmetic::div_mod::{lemma_fundamental_div_mod, lemma_mod_multiples_basic};
use vstd::prelude::*;

use crate::addr::{aligned_4k, GuestPhysAddr, HostPhysAddr, PAGE_SIZE_4K};
use crate::errors::{AxError, MappingError};
use crate::flags::MappingFlags;
use crate::hal::AxMmHal;

verus! {

/// Host physical addresses stay below this bound (52 address bits).
pub const PADDR_LIMIT: u64 = 0x10_0000_0000_0000;

/// First guest physical address that a table of `level` levels cannot map:
/// 39 address bits for three levels, 48 for four.
pub open spec fn va_limit(level: int) -> int {
    if level == 3 {
        0x80_0000_0000
    } else {
        0x1_0000_0000_0000
    }
}

/// Size of a leaf translation.
#[derive(Clone, Copy, Debug, PartialEq, Eq, Structural)]
pub enum PageSize {
    /// A 4 KiB page.
    Size4K,
    /// A 2 MiB page.
    Size2M,
    /// A 1 GiB page.
    Size1G,
}

impl PageSize {
    pub open spec fn spec_bytes(self) -> int {
        match self {
            PageSize::Size4K => 0x1000,
            PageSize::Size2M => 0x20_0000,
            PageSize::Size1G => 0x4000_0000,
        }
    }

    /// Number of bytes covered by a leaf of this size.
    pub fn bytes(self) -> (r: usize)
        ensures
            r == self.spec_bytes(),
    {
        match self {
            PageSize::Size4K => 0x1000,
            PageSize::Size2M => 0x20_0000,
            PageSize::Size1G => 0x4000_0000,
        }
    }

    /// Whether the size is larger than a base page.
    pub fn is_huge(self) -> (r: bool)
        ensures
            r == (self != PageSize::Size4K),
    {
        match self {
            PageSize::Size4K => false,
            _ => true,
        }
    }
}

/// One leaf of the table: `size` bytes from `vaddr` translate to the bytes
/// from `paddr`, with `flags`. A leaf that is not `valid` only reserves its
/// range for a later remap: it translates nothing.
#[derive(Clone, Copy, Debug, PartialEq, Eq, Structural)]
pub struct PtEntry {
    pub vaddr: usize,
    pub paddr: usize,
    pub flags: MappingFlags,
    pub size: PageSize,
    pub valid: bool,
}

pub open spec fn entry_end(e: PtEntry) -> int {
    e.vaddr + e.size.spec_bytes()
}

pub open spec fn covers(e: PtEntry, va: int) -> bool {
    e.vaddr <= va < entry_end(e)
}

/// The leaf shares no byte with `[start, end)`.
pub open spec fn disjoint(e: PtEntry, start: int, end: int) -> bool {
    entry_end(e) <= start || end <= e.vaddr
}

/// The leaf translates (it is not a mere reservation).
pub open spec fn present(e: PtEntry) -> bool {
    e.valid
}

pub open spec fn entry_valid(e: PtEntry, level: int) -> bool {
    &&& (e.vaddr as int) % e.size.spec_bytes() == 0
    &&& (e.paddr as int) % e.size.spec_bytes() == 0
    &&& entry_end(e) <= va_limit(level)
    &&& entry_end(e) <= usize::MAX
    &&& e.paddr + e.size.spec_bytes() <= PADDR_LIMIT
    &&& e.paddr + e.size.spec_bytes() <= usize::MAX
}

/// Every leaf is valid and no two leaves overlap.
pub open spec fn entries_wf(s: Seq<PtEntry>, level: int) -> bool {
    &&& forall|i: int| 0 <= i < s.len() ==> entry_valid(#[trigger] s[i], level)
    &&& forall|i: int, j: int|
        0 <= i < s.len() && 0 <= j < s.len() && i != j ==> disjoint(
            #[trigger] s[i],
            s[j].vaddr as int,
            entry_end(#[trigger] s[j]),
        )
}

/// Some leaf covers `va`.
pub open spec fn has_leaf(s: Seq<PtEntry>, va: int) -> bool {
    exists|i: int| 0 <= i < s.len() && covers(#[trigger] s[i], va)
}

pub open spec fn leaf_index(s: Seq<PtEntry>, va: int) -> int {
    choose|i: int| 0 <= i < s.len() && covers(#[trigger] s[i], va)
}

/// The leaf that covers `va` (meaningful where `has_leaf(s, va)`).
pub open spec fn leaf(s: Seq<PtEntry>, va: int) -> PtEntry {
    s[leaf_index(s, va)]
}

/// No leaf shares a byte with `[start, end)`.
pub open spec fn region_free(s: Seq<PtEntry>, start: int, end: int) -> bool {
    forall|i: int| 0 <= i < s.len() ==> disjoint(#[trigger] s[i], start, end)
}

/// What the table answers for `va`: the host physical address of that byte,
/// the leaf's flags and size; `None` where no present leaf covers it.
pub open spec fn query_spec(s: Seq<PtEntry>, va: int) -> Option<(int, MappingFlags, PageSize)> {
    if has_leaf(s, va) && present(leaf(s, va)) {
        let e = leaf(s, va);
        Some((e.paddr + (va - e.vaddr), e.flags, e.size))
    } else {
        None
    }
}

/// The host physical address that the table gives for `va`.
pub open spec fn translate_spec(s: Seq<PtEntry>, va: int) -> Option<int> {
    match query_spec(s, va) {
        Some(t) => Some(t.0),
        None => None,
    }
}

/// Where a region mapping sends each page.
#[derive(Clone, Copy, Debug, PartialEq, Eq, Structural)]
pub enum RegionTarget {
    /// Page `va` goes to `va - pa_va_offset` (modulo the word size).
    Linear { pa_va_offset: usize },
    /// Every page is reserved with no target (address zero).
    Empty,
}

/// Host physical address of the page at `va` under `t`.
pub open spec fn target_pa(t: RegionTarget, va: usize) -> int {
    match t {
        RegionTarget::Linear { pa_va_offset } => va.wrapping_sub(pa_va_offset) as int,
        RegionTarget::Empty => 0,
    }
}

/// The `k`-th base page of a region mapping that starts at `start`.
pub open spec fn region_entry(
    t: RegionTarget,
    start: usize,
    k: int,
    flags: MappingFlags,
) -> PtEntry {
    PtEntry {
        vaddr: (start + k * 0x1000) as usize,
        paddr: match t {
            RegionTarget::Linear { .. } => (target_pa(t, start) + k * 0x1000) as usize,
            RegionTarget::Empty => 0,
        },
        flags,
        size: PageSize::Size4K,
        valid: t is Linear,
    }
}

/// The leaves that a region mapping of `n` base pages adds.
pub open spec fn region_entries(
    t: RegionTarget,
    start: usize,
    n: int,
    flags: MappingFlags,
) -> Seq<PtEntry> {
    Seq::new(n as nat, |k: int| region_entry(t, start, k, flags))
}

/// Every page of `[start, start + size)` gets a valid host address under `t`.
pub open spec fn target_ok(t: RegionTarget, start: usize, size: int) -> bool {
    match t {
        RegionTarget::Linear { .. } => {
            &&& aligned_4k(target_pa(t, start))
            &&& target_pa(t, start) + size <= PADDR_LIMIT
            &&& target_pa(t, start) + size <= usize::MAX
        },
        RegionTarget::Empty => true,
    }
}

/// Conditions under which a region mapping succeeds.
pub open spec fn map_region_ok(
    s: Seq<PtEntry>,
    level: int,
    start: usize,
    size: usize,
    t: RegionTarget,
) -> bool {
    &&& aligned_4k(start as int)
    &&& aligned_4k(size as int)
    &&& start + size <= va_limit(level)
    &&& region_free(s, start as int, start + size)
    &&& target_ok(t, start, size as int)
}

/// Whether a new leaf `e` can be installed.
pub open spec fn map_ok(s: Seq<PtEntry>, level: int, e: PtEntry) -> bool {
    entry_valid(e, level) && region_free(s, e.vaddr as int, entry_end(e))
}

/// `pa` rounded down to a multiple of `b`.
pub open spec fn align_down(pa: int, b: int) -> int {
    pa - pa % b
}

/// Whether the leaf covering `va` can be pointed at the frame holding `pa`.
pub open spec fn remap_ok(s: Seq<PtEntry>, va: int, pa: int) -> bool {
    &&& has_leaf(s, va)
    &&& align_down(pa, leaf(s, va).size.spec_bytes()) + leaf(s, va).size.spec_bytes()
        <= PADDR_LIMIT
    &&& align_down(pa, leaf(s, va).size.spec_bytes()) + leaf(s, va).size.spec_bytes()
        <= usize::MAX
}

/// The leaf covering `va` after it is pointed at the frame holding `pa`.
pub open spec fn remapped_leaf(s: Seq<PtEntry>, va: int, pa: int, flags: MappingFlags) -> PtEntry {
    PtEntry {
        paddr: align_down(pa, leaf(s, va).size.spec_bytes()) as usize,
        flags,
        valid: true,
        ..leaf(s, va)
    }
}

/// The leaf shares a byte with `[start, end)` and translates.
pub open spec fn protected_by(e: PtEntry, start: int, end: int) -> bool {
    !disjoint(e, start, end) && present(e)
}

/// The leaves of `s` tile `[start, end)`: every byte has a leaf, and every
/// leaf that reaches into the range lies inside it.
pub open spec fn tiled(s: Seq<PtEntry>, start: int, end: int) -> bool {
    forall|va: int|
        start <= va < end ==> #[trigger] has_leaf(s, va) && start <= leaf(s, va).vaddr && entry_end(
            leaf(s, va),
        ) <= end
}

/// `t` gives `va` the same leaf as `s`, or none where `s` has none.
pub open spec fn agree_at(t: Seq<PtEntry>, s: Seq<PtEntry>, va: int) -> bool {
    &&& has_leaf(t, va) == has_leaf(s, va)
    &&& has_leaf(s, va) ==> leaf(t, va) == leaf(s, va)
}

/// Every leaf of `t` is either the leaf `s` had at that byte, or a base
/// page inside `[lo, hi)`.
pub open spec fn leaves_from(s: Seq<PtEntry>, t: Seq<PtEntry>, lo: int, hi: int) -> bool {
    forall|va: int| #[trigger]
        has_leaf(t, va) ==> (has_leaf(s, va) && leaf(t, va) == leaf(s, va)) || (lo <= va < hi && leaf(
            t,
            va,
        ).size == PageSize::Size4K)
}

/// The error a failed lookup reports.
#[derive(Clone, Copy, Debug, PartialEq, Eq, Structural)]
pub enum PagingError {
    /// No present leaf covers the address.
    NotMapped,
}

/// The nested (second-stage) translation table of a guest, from guest
/// physical to host physical addresses, with three or four levels.
pub struct NestedPageTable {
    level: usize,
    root: HostPhysAddr,
    entries: Vec<PtEntry>,
}

impl View for NestedPageTable {
    type V = Seq<PtEntry>;

    closed spec fn view(&self) -> Seq<PtEntry> {
        self.entries@
    }
}

pub proof fn lemma_leaf_unique(s: Seq<PtEntry>, level: int, i: int, va: int)
    requires
        entries_wf(s, level),
        0 <= i < s.len(),
        covers(s[i], va),
    ensures
        has_leaf(s, va),
        leaf_index(s, va) == i,
{
    assert(covers(s[i], va));
    let j = leaf_index(s, va);
    if j != i {
        assert(disjoint(s[j], s[i].vaddr as int, entry_end(s[i])));
    }
}

/// Removing the leaf that covers `va` leaves `va` and the rest of that
/// leaf's range uncovered, and uncovers nothing else.
pub proof fn lemma_remove(s: Seq<PtEntry>, level: int, i: int)
    requires
        entries_wf(s, level),
        0 <= i < s.len(),
    ensures
        entries_wf(s.remove(i), level),
        forall|va: int| covers(s[i], va) ==> !has_leaf(#[trigger] s.remove(i), va),
        forall|va: int| !covers(s[i], va) ==> has_leaf(s, va) == has_leaf(#[trigger] s.remove(i), va),
        forall|va: int| !covers(s[i], va) ==> #[trigger] agree_at(s.remove(i), s, va),
        forall|a: int, b: int| region_free(s, a, b) ==> #[trigger] region_free(s.remove(i), a, b),
{
    let r = s.remove(i);
    s.remove_ensures(i);
    assert forall|a: int, b: int| region_free(s, a, b) implies #[trigger] region_free(r, a, b) by {
        assert forall|k: int| 0 <= k < r.len() implies disjoint(#[trigger] r[k], a, b) by {
            if k < i {
                assert(disjoint(s[k], a, b));
            } else {
                assert(disjoint(s[k + 1], a, b));
            }
        }
    }
    assert forall|p: int| 0 <= p < r.len() implies entry_valid(#[trigger] r[p], level) by {
        if p < i {
            assert(entry_valid(s[p], level));
        } else {
            assert(entry_valid(s[p + 1], level));
        }
    }
    assert forall|p: int, q: int| 0 <= p < r.len() && 0 <= q < r.len() && p != q implies disjoint(
        #[trigger] r[p],
        r[q].vaddr as int,
        entry_end(#[trigger] r[q]),
    ) by {
        let pp = if p < i { p } else { p + 1 };
        let qq = if q < i { q } else { q + 1 };
        assert(disjoint(s[pp], s[qq].vaddr as int, entry_end(s[qq])));
    }
    assert forall|va: int| covers(s[i], va) implies !has_leaf(#[trigger] s.remove(i), va) by {
        if has_leaf(r, va) {
            let k = choose|k: int| 0 <= k < r.len() && covers(#[trigger] r[k], va);
            let kk = if k < i { k } else { k + 1 };
            assert(r[k] == s[kk]);
            assert(disjoint(s[kk], s[i].vaddr as int, entry_end(s[i])));
        }
    }
    assert forall|va: int| !covers(s[i], va) implies has_leaf(s, va) == has_leaf(
        #[trigger] s.remove(i),
        va,
    ) by {
        if has_leaf(s, va) {
            let k = choose|k: int| 0 <= k < s.len() && covers(#[trigger] s[k], va);
            if k < i {
                assert(covers(r[k], va));
            } else {
                assert(k != i);
                assert(covers(r[k - 1], va));
            }
        }
        if has_leaf(r, va) {
            let k = choose|k: int| 0 <= k < r.len() && covers(#[trigger] r[k], va);
            let kk = if k < i { k } else { k + 1 };
            assert(covers(s[kk], va));
        }
    }
    assert forall|va: int| !covers(s[i], va) implies #[trigger] agree_at(s.remove(i), s, va) by {
        assert(has_leaf(s, va) == has_leaf(r, va));
        if has_leaf(s, va) {
            let k = leaf_index(s, va);
            assert(covers(s[k], va));
            assert(k != i);
            let kk = if k < i { k } else { k - 1 };
            assert(r[kk] == s[k]);
            lemma_leaf_unique(r, level, kk, va);
        }
    }
}

proof fn lemma_push(s: Seq<PtEntry>, level: int, e: PtEntry)
    requires
        entries_wf(s, level),
        map_ok(s, level, e),
    ensures
        entries_wf(s.push(e), level),
        forall|va: int| #[trigger]
            has_leaf(s.push(e), va) == (has_leaf(s, va) || covers(e, va)),
        forall|va: int|
            !covers(e, va) && has_leaf(s, va) ==> #[trigger] leaf(s.push(e), va) == leaf(s, va),
        forall|va: int| covers(e, va) ==> #[trigger] leaf(s.push(e), va) == e,
        forall|a: int, b: int|
            region_free(s, a, b) && disjoint(e, a, b) ==> #[trigger] region_free(s.push(e), a, b),
{
    let t = s.push(e);
    assert forall|p: int, q: int| 0 <= p < t.len() && 0 <= q < t.len() && p != q implies disjoint(
        #[trigger] t[p],
        t[q].vaddr as int,
        entry_end(#[trigger] t[q]),
    ) by {
        if p == s.len() {
            assert(disjoint(s[q], e.vaddr as int, entry_end(e)));
        } else if q == s.len() {
            assert(disjoint(s[p], e.vaddr as int, entry_end(e)));
        } else {
            assert(disjoint(s[p], s[q].vaddr as int, entry_end(s[q])));
        }
    }
    assert(forall|p: int| 0 <= p < t.len() ==> entry_valid(#[trigger] t[p], level));
    assert forall|va: int| #[trigger] has_leaf(t, va) == (has_leaf(s, va) || covers(e, va)) by {
        if has_leaf(s, va) {
            let k = choose|k: int| 0 <= k < s.len() && covers(#[trigger] s[k], va);
            assert(covers(t[k], va));
        }
        if covers(e, va) {
            assert(covers(t[s.len() as int], va));
        }
        if has_leaf(t, va) && !covers(e, va) {
            let k = choose|k: int| 0 <= k < t.len() && covers(#[trigger] t[k], va);
            assert(covers(s[k], va));
        }
    }
    assert forall|va: int| !covers(e, va) && has_leaf(s, va) implies #[trigger] leaf(t, va) == leaf(
        s,
        va,
    ) by {
        let k = leaf_index(s, va);
        assert(covers(t[k], va));
        lemma_leaf_unique(t, level, k, va);
    }
    assert forall|va: int| covers(e, va) implies #[trigger] leaf(t, va) == e by {
        lemma_leaf_unique(t, level, s.len() as int, va);
    }
}

/// Rounding down to a multiple of a positive `b` gives a multiple of `b` no
/// larger than `pa`.
pub proof fn lemma_align_down(pa: int, b: int)
    requires
        pa >= 0,
        b > 0,
    ensures
        align_down(pa, b) % b == 0,
        0 <= align_down(pa, b) <= pa,
{
    lemma_fundamental_div_mod(pa, b);
    lemma_mod_multiples_basic(pa / b, b);
    assert(align_down(pa, b) == (pa / b) * b) by (nonlinear_arith)
        requires
            pa == b * (pa / b) + pa % b,
    ;
}

/// After a region mapping, every byte of the region translates to its
/// target with the region's flags.
pub proof fn lemma_region_query(
    s: Seq<PtEntry>,
    level: int,
    t: RegionTarget,
    start: usize,
    n: int,
    flags: MappingFlags,
    va: int,
)
    requires
        entries_wf(s + region_entries(t, start, n, flags), level),
        n >= 0,
        start <= va < start + n * 0x1000,
        start + n * 0x1000 <= usize::MAX,
    ensures
        has_leaf(s + region_entries(t, start, n, flags), va),
        leaf(s + region_entries(t, start, n, flags), va) == region_entry(
            t,
            start,
            (va - start) / 0x1000,
            flags,
        ),
        query_spec(s + region_entries(t, start, n, flags), va) == (if t is Linear {
            Some(
                (
                    region_entry(t, start, (va - start) / 0x1000, flags).paddr + (va - start)
                        % 0x1000,
                    flags,
                    PageSize::Size4K,
                ),
            )
        } else {
            None
        }),
{
    let u = s + region_entries(t, start, n, flags);
    let k = (va - start) / 0x1000;
    lemma_fundamental_div_mod(va - start, 0x1000);
    assert(0 <= k < n);
    let idx = s.len() + k;
    assert(u[idx] == region_entry(t, start, k, flags));
    assert(start + k * 0x1000 <= va < start + k * 0x1000 + 0x1000);
    assert(covers(u[idx], va));
    lemma_leaf_unique(u, level, idx, va);
}

/// Every leaf starts and ends on a base-page boundary.
pub proof fn lemma_leaf_aligned(s: Seq<PtEntry>, level: int, i: int)
    requires
        entries_wf(s, level),
        0 <= i < s.len(),
    ensures
        s[i].vaddr % 0x1000 == 0,
        entry_end(s[i]) % 0x1000 == 0,
{
    let e = s[i];
    let b = e.size.spec_bytes();
    assert(entry_valid(e, level));
    let m = b / 0x1000;
    assert(b == 0x1000 * m);
    let q = (e.vaddr as int) / b;
    lemma_fundamental_div_mod(e.vaddr as int, b);
    assert(e.vaddr == 0x1000 * (m * q)) by (nonlinear_arith)
        requires
            e.vaddr == b * q + (e.vaddr as int) % b,
            (e.vaddr as int) % b == 0,
            b == 0x1000 * m,
    ;
    lemma_mod_multiples_basic(m * q, 0x1000);
    assert((0x1000 * (m * q)) % 0x1000 == 0) by (nonlinear_arith)
        requires
            ((m * q) * 0x1000) % 0x1000 == 0,
    ;
}

/// Appending base pages that lie inside `[lo, hi)` gives each byte either
/// the leaf it had, or a base page inside `[lo, hi)`.
pub proof fn lemma_append_leaves(
    s: Seq<PtEntry>,
    extra: Seq<PtEntry>,
    level: int,
    lo: int,
    hi: int,
)
    requires
        entries_wf(s, level),
        entries_wf(s + extra, level),
        forall|k: int|
            0 <= k < extra.len() ==> (#[trigger] extra[k]).size == PageSize::Size4K && lo
                <= extra[k].vaddr && extra[k].vaddr + 0x1000 <= hi,
    ensures
        leaves_from(s, s + extra, lo, hi),
{
    let u = s + extra;
    assert forall|va: int| #[trigger] has_leaf(u, va) implies (has_leaf(s, va) && leaf(u, va) == leaf(
        s,
        va,
    )) || (lo <= va < hi && leaf(u, va).size == PageSize::Size4K) by {
        let k = leaf_index(u, va);
        lemma_leaf_unique(u, level, k, va);
        if k < s.len() {
            assert(u[k] == s[k]);
            lemma_leaf_unique(s, level, k, va);
        } else {
            assert(u[k] == extra[k - s.len()]);
        }
    }
}

/// After a remap, `va` is covered by the remapped leaf.
pub proof fn lemma_remap_leaf(s: Seq<PtEntry>, level: int, va: int, pa: int, flags: MappingFlags)
    requires
        has_leaf(s, va),
        entries_wf(s.update(leaf_index(s, va), remapped_leaf(s, va, pa, flags)), level),
    ensures
        has_leaf(s.update(leaf_index(s, va), remapped_leaf(s, va, pa, flags)), va),
        leaf(s.update(leaf_index(s, va), remapped_leaf(s, va, pa, flags)), va) == remapped_leaf(
            s,
            va,
            pa,
            flags,
        ),
{
    let i = leaf_index(s, va);
    let t = s.update(i, remapped_leaf(s, va, pa, flags));
    assert(covers(t[i], va));
    lemma_leaf_unique(t, level, i, va);
}

impl NestedPageTable {
    /// Number of levels of the table.
    pub closed spec fn spec_level(&self) -> int {
        self.level as int
    }

    /// Host physical address of the root frame.
    pub closed spec fn spec_root(&self) -> HostPhysAddr {
        self.root
    }

    /// The table has three or four levels and well-formed leaves.
    pub open spec fn wf(&self) -> bool {
        &&& (self.spec_level() == 3 || self.spec_level() == 4)
        &&& entries_wf(self@, self.spec_level())
    }

    /// Creates an empty table of `level` levels, taking its root frame from
    /// the host allocator.
    pub fn new<H: AxMmHal>(level: usize) -> (r: Result<Self, AxError>)
        ensures
            match r {
                Ok(pt) => {
                    &&& level == 3 || level == 4
                    &&& pt.wf()
                    &&& pt.spec_level() == level
                    &&& pt@ == Seq::<PtEntry>::empty()
                },
                Err(e) => (e == AxError::InvalidInput && level != 3 && level != 4) || (e
                    == AxError::NoMemory && (level == 3 || level == 4)),
            },
    {
        if level != 3 && level != 4 {
            return Err(AxError::InvalidInput);
        }
        match H::alloc_frame() {
            Some(root) => Ok(NestedPageTable { level, root, entries: Vec::new() }),
            None => Err(AxError::NoMemory),
        }
    }

    /// Number of levels of the table.
    pub fn level(&self) -> (r: usize)
        ensures
            r == self.spec_level(),
    {
        self.level
    }

    /// Host physical address of the root frame, the value of the hardware
    /// translation-root register.
    pub fn root_paddr(&self) -> (r: HostPhysAddr)
        ensures
            r == self.spec_root(),
    {
        self.root
    }

    /// Upper bound of the guest physical addresses that the table maps.
    fn va_limit(&self) -> (r: u64)
        requires
            self.wf(),
        ensures
            r == va_limit(self.spec_level()),
    {
        if self.level == 3 {
            0x80_0000_0000
        } else {
            0x1_0000_0000_0000
        }
    }

    /// Index of the leaf that covers `va`.
    fn find(&self, va: usize) -> (r: Option<usize>)
        requires
            self.wf(),
        ensures
            match r {
                Some(i) => i < self@.len() && i == leaf_index(self@, va as int) && has_leaf(
                    self@,
                    va as int,
                ),
                None => !has_leaf(self@, va as int),
            },
    {
        let n = self.entries.len();
        let mut i: usize = 0;
        while i < n
            invariant
                n == self@.len(),
                i <= n,
                self.wf(),
                forall|k: int| 0 <= k < i ==> !covers(#[trigger] self@[k], va as int),
            decreases n - i,
        {
            let e = self.entries[i];
            assert(entry_valid(self@[i as int], self.spec_level()));
            if e.vaddr <= va && va - e.vaddr < e.size.bytes() {
                proof {
                    lemma_leaf_unique(self@, self.spec_level(), i as int, va as int);
                }
                return Some(i);
            }
            i += 1;
        }
        None
    }

    /// Whether no leaf shares a byte with `[start, end)`.
    fn region_is_free(&self, start: usize, end: usize) -> (r: bool)
        requires
            self.wf(),
        ensures
            r == region_free(self@, start as int, end as int),
    {
        let n = self.entries.len();
        let mut i: usize = 0;
        while i < n
            invariant
                n == self@.len(),
                i <= n,
                self.wf(),
                forall|k: int| 0 <= k < i ==> disjoint(#[trigger] self@[k], start as int, end as int),
            decreases n - i,
        {
            let e = self.entries[i];
            assert(entry_valid(self@[i as int], self.spec_level()));
            if !(e.vaddr + e.size.bytes() <= start || end <= e.vaddr) {
                return false;
            }
            i += 1;
        }
        true
    }

    /// Installs one leaf: `size` bytes from `vaddr` translate to `paddr` with
    /// `flags`. Fails with `BadState`, changing nothing, where an address is
    /// not aligned to `size`, lies beyond what the table or the host can
    /// address, or where the range overlaps an installed leaf.
    pub fn map(
        &mut self,
        vaddr: GuestPhysAddr,
        paddr: HostPhysAddr,
        size: PageSize,
        flags: MappingFlags,
    ) -> (r: Result<(), MappingError>)
        requires
            old(self).wf(),
        ensures
            final(self).wf(),
            final(self).spec_level() == old(self).spec_level(),
            final(self).spec_root() == old(self).spec_root(),
            ({
                let e = PtEntry { vaddr: vaddr.0, paddr: paddr.0, flags, size, valid: true };
                match r {
                    Ok(_) => map_ok(old(self)@, old(self).spec_level(), e) && final(self)@ == old(
                        self,
                    )@.push(e),
                    Err(err) => err == MappingError::BadState && !map_ok(
                        old(self)@,
                        old(self).spec_level(),
                        e,
                    ) && final(self)@ == old(self)@,
                }
            }),
    {
        let b = size.bytes();
        let limit = self.va_limit();
        if vaddr.0 % b != 0 || paddr.0 % b != 0 || vaddr.0 as u64 > limit || b as u64 > limit
            - vaddr.0 as u64 || b > usize::MAX - vaddr.0 || paddr.0 as u64 > PADDR_LIMIT || b as u64
            > PADDR_LIMIT - paddr.0 as u64 || b > usize::MAX - paddr.0 {
            return Err(MappingError::BadState);
        }
        if !self.region_is_free(vaddr.0, vaddr.0 + b) {
            return Err(MappingError::BadState);
        }
        let e = PtEntry { vaddr: vaddr.0, paddr: paddr.0, flags, size, valid: true };
        proof {
            lemma_push(self@, self.spec_level(), e);
        }
        self.entries.push(e);
        Ok(())
    }

    /// Removes the leaf that covers `vaddr` and returns its host physical
    /// address and size. A reserved leaf is removed too, but reported as
    /// `BadState`, as is an address with no leaf.
    pub fn unmap(&mut self, vaddr: GuestPhysAddr) -> (r: Result<(HostPhysAddr, PageSize), MappingError>)
        requires
            old(self).wf(),
        ensures
            final(self).wf(),
            final(self).spec_level() == old(self).spec_level(),
            final(self).spec_root() == old(self).spec_root(),
            has_leaf(old(self)@, vaddr.0 as int) ==> final(self)@ == old(self)@.remove(
                leaf_index(old(self)@, vaddr.0 as int),
            ),
            !has_leaf(old(self)@, vaddr.0 as int) ==> final(self)@ == old(self)@,
            match r {
                Ok((pa, sz)) => {
                    &&& has_leaf(old(self)@, vaddr.0 as int)
                    &&& present(leaf(old(self)@, vaddr.0 as int))
                    &&& pa.0 == leaf(old(self)@, vaddr.0 as int).paddr
                    &&& sz == leaf(old(self)@, vaddr.0 as int).size
                },
                Err(e) => e == MappingError::BadState && !(has_leaf(old(self)@, vaddr.0 as int)
                    && present(leaf(old(self)@, vaddr.0 as int))),
            },
    {
        match self.find(vaddr.0) {
            None => Err(MappingError::BadState),
            Some(i) => {
                proof {
                    lemma_remove(self@, self.spec_level(), i as int);
                }
                let e = self.entries.remove(i);
                if !e.valid {
                    Err(MappingError::BadState)
                } else {
                    Ok((HostPhysAddr(e.paddr), e.size))
                }
            },
        }
    }

    /// Maps `size` bytes from `vaddr` with base pages, page `va` going to
    /// the host address that `target` gives for it, all with `flags`.
    ///
    /// Succeeds exactly where `vaddr` and `size` are page multiples, the
    /// region is within the table's reach and free of leaves, and every
    /// target is a valid host address; on failure nothing changes. The table
    /// keeps no translation cache, and always installs base pages, so
    /// `allow_huge` and `flush_tlb_by_page` leave the result unchanged.
    pub fn map_region(
        &mut self,
        vaddr: GuestPhysAddr,
        target: RegionTarget,
        size: usize,
        flags: MappingFlags,
        allow_huge: bool,
        flush_tlb_by_page: bool,
    ) -> (r: Result<(), MappingError>)
        requires
            old(self).wf(),
            vaddr.0 + size <= usize::MAX,
        ensures
            final(self).wf(),
            final(self).spec_level() == old(self).spec_level(),
            final(self).spec_root() == old(self).spec_root(),
            r is Ok == map_region_ok(old(self)@, old(self).spec_level(), vaddr.0, size, target),
            r is Ok ==> final(self)@ == old(self)@ + region_entries(
                target,
                vaddr.0,
                (size / 0x1000) as int,
                flags,
            ),
            r is Err ==> r == Err::<(), MappingError>(MappingError::BadState) && final(self)@ == old(
                self,
            )@,
    {
        let limit = self.va_limit();
        if vaddr.0 % PAGE_SIZE_4K != 0 || size % PAGE_SIZE_4K != 0 || vaddr.0 as u64 > limit
            || size as u64 > limit - vaddr.0 as u64 {
            return Err(MappingError::BadState);
        }
        let end = vaddr.0 + size;
        if !self.region_is_free(vaddr.0, end) {
            return Err(MappingError::BadState);
        }
        let base_pa: usize = match target {
            RegionTarget::Linear { pa_va_offset } => vaddr.0.wrapping_sub(pa_va_offset),
            RegionTarget::Empty => 0,
        };
        match target {
            RegionTarget::Linear { .. } => {
                if base_pa % PAGE_SIZE_4K != 0 || base_pa as u64 > PADDR_LIMIT || size as u64
                    > PADDR_LIMIT - base_pa as u64 || size > usize::MAX - base_pa {
                    return Err(MappingError::BadState);
                }
            },
            RegionTarget::Empty => {},
        }
        let ghost old_s = self@;
        let ghost n = size / 0x1000;
        proof {
            lemma_fundamental_div_mod(size as int, 0x1000);
        }
        let mut k: usize = 0;
        let mut va: usize = vaddr.0;
        let mut pa: usize = base_pa;
        while va < end
            invariant
                self.wf(),
                self.spec_level() == old(self).spec_level(),
                self.spec_root() == old(self).spec_root(),
                old_s == old(self)@,
                map_region_ok(old_s, self.spec_level(), vaddr.0, size, target),
                end == vaddr.0 + size,
                size == n * 0x1000,
                k <= n,
                va == vaddr.0 + k * 0x1000,
                pa == match target {
                    RegionTarget::Linear { .. } => base_pa + k * 0x1000,
                    RegionTarget::Empty => 0,
                },
                base_pa == target_pa(target, vaddr.0),
                self@ == old_s + region_entries(target, vaddr.0, k as int, flags),
                region_free(self@, va as int, end as int),
            decreases end - va,
        {
            let valid = match target {
                RegionTarget::Linear { .. } => true,
                RegionTarget::Empty => false,
            };
            let e = PtEntry { vaddr: va, paddr: pa, flags, size: PageSize::Size4K, valid };
            assert(e == region_entry(target, vaddr.0, k as int, flags));
            proof {
                assert(map_ok(self@, self.spec_level(), e));
                lemma_push(self@, self.spec_level(), e);
                assert(self@.push(e) == old_s + region_entries(
                    target,
                    vaddr.0,
                    k + 1,
                    flags,
                ));
            }
            self.entries.push(e);
            va = va + PAGE_SIZE_4K;
            match target {
                RegionTarget::Linear { .. } => {
                    pa = pa + PAGE_SIZE_4K;
                },
                RegionTarget::Empty => {},
            }
            k = k + 1;
            proof {
                assert(region_free(self@, va as int, end as int));
            }
        }
        Ok(())
    }
    /// The leaf that covers `va`, reserved or not, if any.
    pub fn find_leaf(&self, va: GuestPhysAddr) -> (r: Option<PtEntry>)
        requires
            self.wf(),
        ensures
            r == (if has_leaf(self@, va.0 as int) {
                Some(leaf(self@, va.0 as int))
            } else {
                None
            }),
    {
        match self.find(va.0) {
            Some(i) => Some(self.entries[i]),
            None => None,
        }
    }

    /// The present leaf that covers `va`, if any.
    pub fn query_leaf(&self, va: GuestPhysAddr) -> (r: Option<PtEntry>)
        requires
            self.wf(),
        ensures
            r == (if has_leaf(self@, va.0 as int) && present(leaf(self@, va.0 as int)) {
                Some(leaf(self@, va.0 as int))
            } else {
                None
            }),
            r is Some ==> entry_valid(r->0, self.spec_level()),
    {
        match self.find(va.0) {
            Some(i) => {
                let e = self.entries[i];
                assert(entry_valid(self@[i as int], self.spec_level()));
                if !e.valid {
                    None
                } else {
                    Some(e)
                }
            },
            None => None,
        }
    }

    /// Looks up `vaddr`: the host physical address of that byte, the flags
    /// and the size of the leaf; `NotMapped` where no present leaf covers it.
    pub fn query(&self, vaddr: GuestPhysAddr) -> (r: Result<
        (HostPhysAddr, MappingFlags, PageSize),
        PagingError,
    >)
        requires
            self.wf(),
        ensures
            match query_spec(self@, vaddr.0 as int) {
                Some((pa, f, sz)) => r == Ok::<_, PagingError>((HostPhysAddr(pa as usize), f, sz)),
                None => r == Err::<(HostPhysAddr, MappingFlags, PageSize), _>(
                    PagingError::NotMapped,
                ),
            },
    {
        match self.query_leaf(vaddr) {
            Some(e) => Ok((HostPhysAddr(e.paddr + (vaddr.0 - e.vaddr)), e.flags, e.size)),
            None => Err(PagingError::NotMapped),
        }
    }

    /// Translates `vaddr` to the host physical address of that byte.
    pub fn translate(&self, vaddr: GuestPhysAddr) -> (r: Option<HostPhysAddr>)
        requires
            self.wf(),
        ensures
            match translate_spec(self@, vaddr.0 as int) {
                Some(pa) => r == Some(HostPhysAddr(pa as usize)),
                None => r is None,
            },
    {
        match self.query(vaddr) {
            Ok((pa, _, _)) => Some(pa),
            Err(_) => None,
        }
    }

    /// Points the leaf that covers `vaddr` (reserved or not) at the frame
    /// holding `paddr`, rounded down to the leaf's size, with `flags`.
    /// Returns false, changing nothing, where no leaf covers `vaddr` or the
    /// frame lies beyond what the host can address.
    pub fn remap(&mut self, vaddr: GuestPhysAddr, paddr: HostPhysAddr, flags: MappingFlags) -> (r:
        bool)
        requires
            old(self).wf(),
        ensures
            final(self).wf(),
            final(self).spec_level() == old(self).spec_level(),
            final(self).spec_root() == old(self).spec_root(),
            r == remap_ok(old(self)@, vaddr.0 as int, paddr.0 as int),
            r ==> final(self)@ == old(self)@.update(
                leaf_index(old(self)@, vaddr.0 as int),
                remapped_leaf(old(self)@, vaddr.0 as int, paddr.0 as int, flags),
            ),
            !r ==> final(self)@ == old(self)@,
    {
        match self.find(vaddr.0) {
            None => false,
            Some(i) => {
                let e = self.entries[i];
                let b = e.size.bytes();
                let pa = paddr.0 - paddr.0 % b;
                proof {
                    lemma_align_down(paddr.0 as int, b as int);
                }
                if pa as u64 > PADDR_LIMIT || b as u64 > PADDR_LIMIT - pa as u64 || b > usize::MAX
                    - pa {
                    return false;
                }
                let ne = PtEntry { paddr: pa, flags, valid: true, ..e };
                let ghost s = self@;
                let ghost level = self.spec_level();
                self.entries.set(i, ne);
                proof {
                    assert(entry_valid(s[i as int], level));
                    assert forall|p: int, q: int|
                        0 <= p < self@.len() && 0 <= q < self@.len() && p != q implies disjoint(
                        #[trigger] self@[p],
                        self@[q].vaddr as int,
                        entry_end(#[trigger] self@[q]),
                    ) by {
                        assert(disjoint(s[p], s[q].vaddr as int, entry_end(s[q])));
                    }
                    assert(forall|p: int|
                        0 <= p < self@.len() ==> entry_valid(#[trigger] self@[p], level));
                }
                true
            },
        }
    }

    /// Removes the leaves that tile `[start, start + size)`, walking from
    /// `start` one leaf at a time. Fails with `BadState` at a byte that no
    /// leaf covers or at a leaf that reaches outside the range; the leaves
    /// removed until then stay removed. Leaves outside the range are kept.
    pub fn unmap_region(&mut self, start: GuestPhysAddr, size: usize, flush: bool) -> (r: Result<
        (),
        MappingError,
    >)
        requires
            old(self).wf(),
            start.0 + size <= usize::MAX,
        ensures
            final(self).wf(),
            final(self).spec_level() == old(self).spec_level(),
            final(self).spec_root() == old(self).spec_root(),
            forall|va: int|
                !(start.0 <= va < start.0 + size) ==> #[trigger] agree_at(
                    final(self)@,
                    old(self)@,
                    va,
                ),
            r is Ok ==> forall|va: int|
                start.0 <= va < start.0 + size ==> !#[trigger] has_leaf(final(self)@, va),
            r is Err ==> r == Err::<(), MappingError>(MappingError::BadState),
            tiled(old(self)@, start.0 as int, start.0 + size) ==> r is Ok,
    {
        let end = start.0 + size;
        let mut cur = start.0;
        while cur < end
            invariant
                self.wf(),
                self.spec_level() == old(self).spec_level(),
                self.spec_root() == old(self).spec_root(),
                end == start.0 + size,
                start.0 <= cur <= end,
                forall|va: int| start.0 <= va < cur ==> !#[trigger] has_leaf(self@, va),
                forall|va: int| !(start.0 <= va < cur) ==> #[trigger] agree_at(self@, old(self)@, va),
            decreases end - cur,
        {
            match self.find(cur) {
                None => {
                    assert(agree_at(self@, old(self)@, cur as int));
                    return Err(MappingError::BadState);
                },
                Some(i) => {
                    let e = self.entries[i];
                    assert(entry_valid(self@[i as int], self.spec_level()));
                    assert(agree_at(self@, old(self)@, cur as int));
                    let e_end = e.vaddr + e.size.bytes();
                    if e.vaddr < start.0 || e_end > end {
                        return Err(MappingError::BadState);
                    }
                    let ghost s = self@;
                    let ghost prev = cur;
                    proof {
                        lemma_remove(s, self.spec_level(), i as int);
                    }
                    self.entries.remove(i);
                    cur = e_end;
                    proof {
                        assert(self@ == s.remove(i as int));
                        assert forall|va: int| start.0 <= va < cur implies !#[trigger] has_leaf(
                            self@,
                            va,
                        ) by {
                            if !covers(s[i as int], va) {
                                assert(va < prev);
                                assert(!has_leaf(s, va));
                            }
                        }
                        assert forall|va: int| !(start.0 <= va < cur) implies #[trigger] agree_at(
                            self@,
                            old(self)@,
                            va,
                        ) by {
                            assert(!covers(s[i as int], va));
                            assert(agree_at(self@, s, va));
                            assert(agree_at(s, old(self)@, va));
                        }
                    }
                },
            }
        }
        Ok(())
    }

    /// Gives `new_flags` to every translating leaf that shares a byte with
    /// `[start, start + size)`, a huge leaf that reaches outside included;
    /// the other leaves and every target stay as they are. Always succeeds. The table keeps no translation cache, so
    /// `flush` leaves the result unchanged.
    pub fn protect_region(
        &mut self,
        start: GuestPhysAddr,
        size: usize,
        new_flags: MappingFlags,
        flush: bool,
    ) -> (r: bool)
        requires
            old(self).wf(),
            start.0 + size <= usize::MAX,
        ensures
            r,
            final(self).wf(),
            final(self).spec_level() == old(self).spec_level(),
            final(self).spec_root() == old(self).spec_root(),
            final(self)@.len() == old(self)@.len(),
            forall|i: int|
                0 <= i < old(self)@.len() ==> #[trigger] final(self)@[i] == if protected_by(
                    old(self)@[i],
                    start.0 as int,
                    start.0 + size,
                ) {
                    PtEntry { flags: new_flags, ..old(self)@[i] }
                } else {
                    old(self)@[i]
                },
    {
        let end = start.0 + size;
        let n = self.entries.len();
        let mut i: usize = 0;
        while i < n
            invariant
                n == self@.len(),
                n == old(self)@.len(),
                i <= n,
                end == start.0 + size,
                self.spec_level() == old(self).spec_level(),
                self.spec_root() == old(self).spec_root(),
                old(self).wf(),
                forall|k: int|
                    0 <= k < i ==> #[trigger] self@[k] == if protected_by(
                        old(self)@[k],
                        start.0 as int,
                        end as int,
                    ) {
                        PtEntry { flags: new_flags, ..old(self)@[k] }
                    } else {
                        old(self)@[k]
                    },
                forall|k: int| i <= k < n ==> #[trigger] self@[k] == old(self)@[k],
            decreases n - i,
        {
            let e = self.entries[i];
            assert(entry_valid(old(self)@[i as int], old(self).spec_level()));
            if !(e.vaddr + e.size.bytes() <= start.0 || end <= e.vaddr) && e.valid {
                self.entries.set(i, PtEntry { flags: new_flags, ..e });
            }
            i += 1;
        }
        proof {
            let s = old(self)@;
            let level = self.spec_level();
            assert forall|p: int, q: int|
                0 <= p < self@.len() && 0 <= q < self@.len() && p != q implies disjoint(
                #[trigger] self@[p],
                self@[q].vaddr as int,
                entry_end(#[trigger] self@[q]),
            ) by {
                assert(disjoint(s[p], s[q].vaddr as int, entry_end(s[q])));
            }
            assert forall|p: int| 0 <= p < self@.len() implies entry_valid(
                #[trigger] self@[p],
                level,
            ) by {
                assert(entry_valid(s[p], level));
            }
        }
        true
    }
}

} // verus!
