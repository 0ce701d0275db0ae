use crate::boot::arch::paging::MAX_PHYS_ADDR;
use crate::boot::phys::{PhysMem, mem_zeroed};
use crate::mem::{MemoryRegion, region_end, regions_overlap};
use vstd::prelude::*;

verus! {

/// What the firmware says a region of physical memory holds.
#[derive(Debug, Clone, Copy, PartialEq, Eq)]
pub enum BootMemoryRegionType {
    Reclaimable,
    ACPIReclaimable,
    Free,
    MemoryMappedIO,
    Reserved,
}

/// A region of physical memory with its type, as handed over by the boot stub.
#[derive(Debug, Clone, Copy)]
pub struct BootMappedRegion {
    pub region_type: BootMemoryRegionType,
    pub region: MemoryRegion,
}

impl BootMappedRegion {
    pub fn new(region_type: BootMemoryRegionType, region: MemoryRegion) -> (r: Self)
        ensures
            r.region_type == region_type,
            r.region == region,
    {
        Self { region_type, region }
    }
}

/// The memory map handed over by the boot stub.
pub struct MemoryMap {
    regions: Vec<BootMappedRegion>,
}

impl View for MemoryMap {
    type V = Seq<BootMappedRegion>;

    closed spec fn view(&self) -> Seq<BootMappedRegion> {
        self.regions@
    }
}

impl MemoryMap {
    pub fn new(regions: Vec<BootMappedRegion>) -> (m: Self)
        ensures
            m@ == regions@,
    {
        Self { regions }
    }

    pub fn as_slice(&self) -> (s: &[BootMappedRegion])
        ensures
            s@ == self@,
    {
        self.regions.as_slice()
    }
}

/// Bookkeeping for one free region: pages `[top, base + npages * 4096)` are
/// still to be handed out, pages `[base, top)` were handed out already.
/// The page before `base` holds this bookkeeping in the running kernel.
#[derive(Debug, Clone, Copy)]
pub struct BumpRegionMeta {
    pub base: usize,
    pub top: usize,
    pub npages: usize,
}

/// One past the last byte of the pages a region manages.
pub open spec fn meta_end(r: BumpRegionMeta) -> int {
    r.base + r.npages * 4096
}

/// The region still has a page to hand out.
pub open spec fn meta_usable(r: BumpRegionMeta) -> bool {
    r.top < meta_end(r)
}

/// The region's fields are consistent and its pages lie in the address space.
pub open spec fn meta_valid(r: BumpRegionMeta) -> bool {
    &&& 0 < r.base <= r.top <= meta_end(r) <= usize::MAX
    &&& (r.top - r.base) % 4096 == 0
}

/// `p` is one of the pages the region has still to hand out.
pub open spec fn meta_holds(r: BumpRegionMeta, p: usize) -> bool {
    &&& r.top <= p < meta_end(r)
    &&& (p - r.base) % 4096 == 0
}

/// The region after handing out its next page.
pub open spec fn meta_advanced(r: BumpRegionMeta) -> BumpRegionMeta {
    BumpRegionMeta { top: (r.top + 4096) as usize, ..r }
}

/// Number of pages the region has still to hand out.
pub open spec fn meta_free(r: BumpRegionMeta) -> nat {
    ((meta_end(r) - r.top) / 4096) as nat
}

/// Number of pages all regions have still to hand out.
pub open spec fn free_pages(s: Seq<BumpRegionMeta>) -> nat
    decreases s.len(),
{
    if s.len() == 0 {
        0
    } else {
        free_pages(s.drop_last()) + meta_free(s.last())
    }
}

/// Index of the first region from `i` on that has a page left, or the length if none has.
pub open spec fn first_usable_from(s: Seq<BumpRegionMeta>, i: int) -> int
    decreases s.len() - i,
{
    if i >= s.len() {
        s.len() as int
    } else if meta_usable(s[i]) {
        i
    } else {
        first_usable_from(s, i + 1)
    }
}

/// A free region of the map that the allocator takes over: its first page
/// holds the bookkeeping, so it needs at least two pages.
pub open spec fn region_kept(r: BootMappedRegion) -> bool {
    r.region_type == BootMemoryRegionType::Free && r.region.base != 0 && r.region.npages >= 2
}

/// The bookkeeping that the allocator keeps for a free region of the map.
pub open spec fn region_meta(r: BootMappedRegion) -> BumpRegionMeta {
    BumpRegionMeta {
        base: (r.region.base + 4096) as usize,
        top: (r.region.base + 4096) as usize,
        npages: (r.region.npages - 1) as usize,
    }
}

/// The regions of the allocator built from a memory map, in map order.
pub open spec fn init_regions(s: Seq<BootMappedRegion>) -> Seq<BumpRegionMeta>
    decreases s.len(),
{
    if s.len() == 0 {
        Seq::empty()
    } else if region_kept(s.last()) {
        init_regions(s.drop_last()).push(region_meta(s.last()))
    } else {
        init_regions(s.drop_last())
    }
}

/// Every free region that the allocator takes over lies inside the address space.
pub open spec fn map_in_address_space(s: Seq<BootMappedRegion>) -> bool {
    forall|i: int|
        0 <= i < s.len() && region_kept(#[trigger] s[i]) ==> s[i].region.base + s[i].region.npages
            * 4096 <= usize::MAX
}

/// A bump allocator over the free regions of the memory map, used before the
/// kernel has a real allocator. It hands out each region's pages in order,
/// taking from the first region that still has one.
pub struct EarlyBootAllocator {
    head: Vec<BumpRegionMeta>,
}

impl View for EarlyBootAllocator {
    type V = Seq<BumpRegionMeta>;

    closed spec fn view(&self) -> Seq<BumpRegionMeta> {
        self.head@
    }
}

impl EarlyBootAllocator {
    /// Every region is consistent.
    pub open spec fn valid(&self) -> bool {
        forall|i: int| 0 <= i < self@.len() ==> meta_valid(#[trigger] self@[i])
    }

    /// The regions are consistent, page aligned, below `MAX_PHYS_ADDR`, and
    /// pairwise disjoint, so that no page is handed out twice.
    pub open spec fn sound(&self) -> bool {
        seq_sound(self@)
    }

    /// Every page still to be handed out lies below `MAX_PHYS_ADDR`, so that
    /// an entry can reference it.
    pub open spec fn addressable(&self) -> bool {
        forall|i: int| 0 <= i < self@.len() ==> meta_end(#[trigger] self@[i]) <= MAX_PHYS_ADDR
    }

    /// The pages still to be handed out.
    pub open spec fn avail(&self) -> Set<usize> {
        seq_avail(self@)
    }

    /// Number of pages still to be handed out.
    pub open spec fn free_count(&self) -> nat {
        free_pages(self@)
    }
}

impl EarlyBootAllocator {
    /// Takes over the free regions of the memory map that have at least two pages.
    pub fn init(map: &MemoryMap) -> (a: Self)
        requires
            map_in_address_space(map@),
        ensures
            a@ == init_regions(map@),
            a.valid(),
            map_regions_fit(map@) ==> a.sound(),
    {
        let regions = map.as_slice();
        let mut head: Vec<BumpRegionMeta> = Vec::new();
        let mut i: usize = 0;
        while i < regions.len()
            invariant
                0 <= i <= regions@.len(),
                regions@ == map@,
                map_in_address_space(map@),
                head@ == init_regions(map@.take(i as int)),
                forall|k: int| 0 <= k < head@.len() ==> meta_valid(#[trigger] head@[k]),
            decreases regions.len() - i,
        {
            let r = regions[i];
            let free = match r.region_type {
                BootMemoryRegionType::Free => true,
                _ => false,
            };
            proof {
                assert(map@.take(i + 1).drop_last() =~= map@.take(i as int));
                assert(map@.take(i + 1).last() == map@[i as int]);
            }
            if free && r.region.base != 0 && r.region.npages >= 2 {
                proof {
                    assert(region_kept(map@[i as int]));
                }
                // The first page holds the bookkeeping; the pages after it are handed out.
                let base = r.region.base + 4096;
                head.push(BumpRegionMeta { base, top: base, npages: r.region.npages - 1 });
            }
            i += 1;
        }
        proof {
            assert(map@.take(regions@.len() as int) =~= map@);
        }
        proof {
            if map_regions_fit(map@) {
                lemma_init_sound(map@);
            }
        }
        EarlyBootAllocator { head }
    }

    /// Index of the first region that still has a page to hand out.
    fn get_usable_region_meta(&self) -> (r: Option<usize>)
        requires
            self.valid(),
        ensures
            r is Some <==> first_usable_from(self@, 0) < self@.len(),
            r matches Some(i) ==> i as int == first_usable_from(self@, 0),
    {
        let mut i: usize = 0;
        while i < self.head.len()
            invariant
                0 <= i <= self@.len(),
                self.valid(),
                first_usable_from(self@, 0) == first_usable_from(self@, i as int),
            decreases self@.len() - i,
        {
            let r = self.head[i];
            let first_inval_page = r.base + r.npages * 4096;
            if r.top < first_inval_page {
                return Some(i);
            }
            i += 1;
        }
        None
    }
}

/// The first region from `i` on that has a page left lies between `i` and the end,
/// and no region before it has one.
pub proof fn lemma_first_usable(s: Seq<BumpRegionMeta>, i: int)
    requires
        0 <= i <= s.len(),
    ensures
        i <= first_usable_from(s, i) <= s.len(),
        forall|j: int| i <= j < first_usable_from(s, i) ==> !meta_usable(#[trigger] s[j]),
        first_usable_from(s, i) < s.len() ==> meta_usable(s[first_usable_from(s, i)]),
    decreases s.len() - i,
{
    if i < s.len() {
        lemma_first_usable(s, i + 1);
    }
}

proof fn lemma_free_pages_update(s: Seq<BumpRegionMeta>, i: int, r: BumpRegionMeta)
    requires
        0 <= i < s.len(),
    ensures
        free_pages(s.update(i, r)) == free_pages(s) - meta_free(s[i]) + meta_free(r),
    decreases s.len(),
{
    if i == s.len() - 1 {
        assert(s.update(i, r).drop_last() =~= s.drop_last());
    } else {
        lemma_free_pages_update(s.drop_last(), i, r);
        assert(s.update(i, r).drop_last() =~= s.drop_last().update(i, r));
    }
}

proof fn lemma_meta_free(r: BumpRegionMeta)
    requires
        meta_valid(r),
    ensures
        meta_free(r) == 0 <==> !meta_usable(r),
        meta_usable(r) ==> r.top + 4096 <= meta_end(r) && meta_free(meta_advanced(r)) == meta_free(
            r,
        ) - 1 && meta_valid(meta_advanced(r)),
{
    assert((meta_end(r) - r.base) % 4096 == 0);
    assert((meta_end(r) - r.top) % 4096 == 0);
}

proof fn lemma_free_pages_zero(s: Seq<BumpRegionMeta>)
    requires
        forall|i: int| 0 <= i < s.len() ==> meta_valid(#[trigger] s[i]),
    ensures
        free_pages(s) == 0 <==> forall|j: int| 0 <= j < s.len() ==> !meta_usable(#[trigger] s[j]),
    decreases s.len(),
{
    if s.len() > 0 {
        lemma_free_pages_zero(s.drop_last());
        lemma_meta_free(s.last());
        if free_pages(s) == 0 {
            assert forall|j: int| 0 <= j < s.len() implies !meta_usable(#[trigger] s[j]) by {
                if j < s.len() - 1 {
                    assert(s[j] == s.drop_last()[j]);
                }
            }
        }
        if forall|j: int| 0 <= j < s.len() ==> !meta_usable(#[trigger] s[j]) {
            assert forall|j: int| 0 <= j < s.drop_last().len() implies !meta_usable(
                #[trigger] s.drop_last()[j],
            ) by {
                assert(s.drop_last()[j] == s[j]);
            }
        }
    }
}

/// The pages still to be handed out by a sequence of regions.
pub open spec fn seq_avail(s: Seq<BumpRegionMeta>) -> Set<usize> {
    Set::new(|p: usize| exists|i: int| 0 <= i < s.len() && meta_holds(#[trigger] s[i], p))
}

/// Regions that are consistent, page aligned, below `MAX_PHYS_ADDR`, and pairwise disjoint.
pub open spec fn seq_sound(s: Seq<BumpRegionMeta>) -> bool {
    &&& forall|i: int| 0 <= i < s.len() ==> meta_valid(#[trigger] s[i])
    &&& forall|i: int|
        0 <= i < s.len() ==> (#[trigger] s[i]).base % 4096 == 0 && meta_end(s[i]) <= MAX_PHYS_ADDR
    &&& forall|i: int, j: int|
        0 <= i < s.len() && 0 <= j < s.len() && i != j ==> meta_end(#[trigger] s[i]) <= (
        #[trigger] s[j]).base || meta_end(s[j]) <= s[i].base
}

/// Handing out the next page of a usable region of a sound sequence keeps it
/// sound and removes exactly that page from the pages still to be handed out.
proof fn lemma_take_page(s: Seq<BumpRegionMeta>, i: int)
    requires
        seq_sound(s),
        0 <= i < s.len(),
        meta_usable(s[i]),
    ensures
        seq_sound(s.update(i, meta_advanced(s[i]))),
        seq_avail(s).contains(s[i].top),
        seq_avail(s.update(i, meta_advanced(s[i]))) == seq_avail(s).remove(s[i].top),
        s[i].top % 4096 == 0,
        s[i].top + 4096 <= MAX_PHYS_ADDR,
{
    let t = s.update(i, meta_advanced(s[i]));
    let page = s[i].top;
    lemma_meta_free(s[i]);
    assert(meta_holds(s[i], page));
    assert forall|j: int| 0 <= j < t.len() implies meta_valid(#[trigger] t[j]) && t[j].base % 4096
        == 0 && meta_end(t[j]) <= MAX_PHYS_ADDR by {
        assert(j != i ==> t[j] == s[j]);
    }
    assert forall|j: int, k: int|
        0 <= j < t.len() && 0 <= k < t.len() && j != k implies meta_end(#[trigger] t[j]) <= (
        #[trigger] t[k]).base || meta_end(t[k]) <= t[j].base by {
        assert(meta_end(t[j]) == meta_end(s[j]) && t[j].base == s[j].base);
        assert(meta_end(t[k]) == meta_end(s[k]) && t[k].base == s[k].base);
    }
    assert forall|p: usize| seq_avail(t).contains(p) implies seq_avail(s).remove(page).contains(p) by {
        let j = choose|j: int| 0 <= j < t.len() && meta_holds(#[trigger] t[j], p);
        if j != i {
            assert(t[j] == s[j]);
            assert(meta_end(s[j]) <= s[i].base || meta_end(s[i]) <= s[j].base);
        }
        assert(meta_holds(s[j], p));
    }
    assert forall|p: usize| seq_avail(s).remove(page).contains(p) implies seq_avail(t).contains(p) by {
        let j = choose|j: int| 0 <= j < s.len() && meta_holds(#[trigger] s[j], p);
        if j == i {
            assert((p - s[j].base) % 4096 == 0);
            assert((page - s[j].base) % 4096 == 0);
        } else {
            assert(t[j] == s[j]);
        }
        assert(meta_holds(t[j], p));
    }
    assert(seq_avail(t) =~= seq_avail(s).remove(page));
}

impl EarlyBootAllocator {
    /// Hands out the next page of the first region that still has one, or 0
    /// when every region is used up.
    pub fn get_page(&mut self) -> (page: usize)
        requires
            old(self).valid(),
        ensures
            ({
                let i = first_usable_from(old(self)@, 0);
                &&& i == old(self)@.len() ==> page == 0 && final(self)@ == old(self)@
                &&& i < old(self)@.len() ==> page == old(self)@[i].top && final(self)@ == old(
                    self,
                )@.update(i, meta_advanced(old(self)@[i]))
            }),
            page == next_page(old(self)@),
            final(self)@ == after_next_page(old(self)@),
            final(self).valid(),
            page == 0 ==> final(self)@ == old(self)@,
            old(self).addressable() ==> final(self).addressable() && page < MAX_PHYS_ADDR,
            page == 0 <==> old(self).free_count() == 0,
            page != 0 ==> final(self).free_count() == old(self).free_count() - 1,
            old(self).sound() ==> final(self).sound(),
            old(self).sound() && page != 0 ==> {
                &&& old(self).avail().contains(page)
                &&& final(self).avail() == old(self).avail().remove(page)
                &&& page % 4096 == 0
                &&& page + 4096 <= MAX_PHYS_ADDR
            },
    {
        proof {
            lemma_first_usable(self@, 0);
            lemma_free_pages_zero(self@);
        }
        match self.get_usable_region_meta() {
            None => 0,
            Some(i) => {
                let ghost s = self@;
                let mut r = self.head[i];
                proof {
                    assert(i as int == first_usable_from(s, 0));
                    assert(meta_usable(s[i as int]));
                    assert(r == s[i as int]);
                    lemma_meta_free(r);
                    lemma_free_pages_update(s, i as int, meta_advanced(r));
                    if old(self).sound() {
                        lemma_take_page(s, i as int);
                    }
                }
                let page = r.top;
                r.top = r.top + 4096;
                self.head.set(i, r);
                proof {
                    assert(self@ =~= s.update(i as int, meta_advanced(s[i as int])));
                    assert forall|j: int| 0 <= j < self@.len() implies meta_valid(#[trigger] self@[j])
                        && meta_end(self@[j]) == meta_end(s[j]) by {
                        assert(j != i ==> self@[j] == s[j]);
                    }
                }
                page
            },
        }
    }

    /// Hands out a page as `get_page` does and fills it with zeros.
    pub fn get_page_zeroed(&mut self, mem: &mut PhysMem) -> (page: usize)
        requires
            old(self).valid(),
        ensures
            ({
                let i = first_usable_from(old(self)@, 0);
                &&& i == old(self)@.len() ==> page == 0 && final(self)@ == old(self)@
                &&& i < old(self)@.len() ==> page == old(self)@[i].top && final(self)@ == old(
                    self,
                )@.update(i, meta_advanced(old(self)@[i]))
            }),
            final(self).valid(),
            page == 0 ==> final(self)@ == old(self)@,
            old(self).addressable() ==> final(self).addressable() && page < MAX_PHYS_ADDR,
            page == 0 <==> old(self).free_count() == 0,
            page != 0 ==> final(self).free_count() == old(self).free_count() - 1,
            old(self).sound() ==> final(self).sound(),
            old(self).sound() && page != 0 ==> {
                &&& old(self).avail().contains(page)
                &&& final(self).avail() == old(self).avail().remove(page)
                &&& page % 4096 == 0
                &&& page + 4096 <= MAX_PHYS_ADDR
            },
            page != 0 ==> mem_zeroed(*old(mem), *final(mem), page),
            page == 0 ==> *final(mem) == *old(mem),
    {
        let page = self.get_page();
        if page != 0 {
            mem.zero_page(page);
        }
        page
    }
}


impl EarlyBootAllocator {
    /// Whether `p` is one of the pages still to be handed out.
    pub fn holds(&self, p: usize) -> (b: bool)
        requires
            self.valid(),
        ensures
            b == self.avail().contains(p),
    {
        let mut i: usize = 0;
        while i < self.head.len()
            invariant
                0 <= i <= self@.len(),
                self.valid(),
                forall|j: int| 0 <= j < i ==> !meta_holds(#[trigger] self@[j], p),
            decreases self@.len() - i,
        {
            let r = self.head[i];
            assert(meta_valid(self@[i as int]));
            if r.top <= p && p < r.base + r.npages * 4096 && (p - r.base) % 4096 == 0 {
                assert(meta_holds(self@[i as int], p));
                return true;
            }
            i += 1;
        }
        false
    }

    /// Whether the regions are sound: page aligned, below `MAX_PHYS_ADDR` and
    /// pairwise disjoint.
    pub fn is_sound(&self) -> (b: bool)
        requires
            self.valid(),
        ensures
            b == self.sound(),
    {
        let n = self.head.len();
        let mut i: usize = 0;
        while i < n
            invariant
                0 <= i <= n,
                n == self@.len(),
                self.valid(),
                forall|k: int|
                    0 <= k < i ==> (#[trigger] self@[k]).base % 4096 == 0 && meta_end(self@[k]) <= MAX_PHYS_ADDR,
                forall|k: int, j: int|
                    0 <= k < i && 0 <= j < n && k != j ==> meta_end(#[trigger] self@[k]) <= (
                    #[trigger] self@[j]).base || meta_end(self@[j]) <= self@[k].base,
            decreases n - i,
        {
            let r = self.head[i];
            assert(meta_valid(self@[i as int]));
            let end = r.base + r.npages * 4096;
            if r.base % 4096 != 0 || end as u64 > MAX_PHYS_ADDR {
                return false;
            }
            let mut j: usize = 0;
            while j < n
                invariant
                    0 <= i < n,
                    0 <= j <= n,
                    n == self@.len(),
                    self.valid(),
                    r == self@[i as int],
                    end == meta_end(r),
                    forall|l: int|
                        0 <= l < j && l != i ==> meta_end(r) <= (#[trigger] self@[l]).base || meta_end(self@[l])
                            <= r.base,
                decreases n - j,
            {
                let q = self.head[j];
                assert(meta_valid(self@[j as int]));
                if j != i && !(end <= q.base || q.base + q.npages * 4096 <= r.base) {
                    return false;
                }
                j += 1;
            }
            i += 1;
        }
        true
    }

    /// Number of pages still to be handed out, or `usize::MAX` if there are more.
    pub fn free_page_count(&self) -> (n: usize)
        requires
            self.valid(),
        ensures
            n == if self.free_count() <= usize::MAX {
                self.free_count()
            } else {
                usize::MAX as nat
            },
    {
        let mut sum: usize = 0;
        let mut i: usize = 0;
        while i < self.head.len()
            invariant
                0 <= i <= self@.len(),
                self.valid(),
                sum == if free_pages(self@.take(i as int)) <= usize::MAX {
                    free_pages(self@.take(i as int))
                } else {
                    usize::MAX as nat
                },
            decreases self@.len() - i,
        {
            let r = self.head[i];
            assert(meta_valid(self@[i as int]));
            proof {
                assert(self@.take(i + 1).drop_last() =~= self@.take(i as int));
                assert(self@.take(i + 1).last() == self@[i as int]);
            }
            let free = (r.base + r.npages * 4096 - r.top) / 4096;
            sum = sum.saturating_add(free);
            i += 1;
        }
        proof {
            assert(self@.take(self@.len() as int) =~= self@);
        }
        sum
    }
}


/// The page a allocator with regions `s` hands out next: the next page of
/// the first region that still has one, or 0 when every region is used up.
pub open spec fn next_page(s: Seq<BumpRegionMeta>) -> usize {
    let i = first_usable_from(s, 0);
    if 0 <= i < s.len() {
        s[i].top
    } else {
        0
    }
}

/// The regions once `next_page(s)` was handed out.
pub open spec fn after_next_page(s: Seq<BumpRegionMeta>) -> Seq<BumpRegionMeta> {
    let i = first_usable_from(s, 0);
    if 0 <= i < s.len() {
        s.update(i, meta_advanced(s[i]))
    } else {
        s
    }
}

/// The next `k` pages an allocator with regions `s` hands out, in order.
pub open spec fn handed_out(s: Seq<BumpRegionMeta>, k: nat) -> Seq<usize>
    decreases k,
{
    if k == 0 {
        Seq::empty()
    } else {
        seq![next_page(s)] + handed_out(after_next_page(s), (k - 1) as nat)
    }
}

/// A sound allocator never hands out a page twice: of the next `k` pages it
/// hands out, each one that is not 0 is among the pages it has still to hand
/// out now, and differs from every other one.
pub proof fn lemma_no_page_twice(s: Seq<BumpRegionMeta>, k: nat)
    requires
        seq_sound(s),
    ensures
        handed_out(s, k).len() == k,
        forall|i: int|
            0 <= i < k && #[trigger] handed_out(s, k)[i] != 0 ==> seq_avail(s).contains(handed_out(s, k)[i]),
        forall|i: int, j: int|
            0 <= i < j < k && handed_out(s, k)[i] != 0 ==> #[trigger] handed_out(s, k)[i] != #[trigger] handed_out(
                s,
                k,
            )[j],
    decreases k,
{
    if k > 0 {
        let p = next_page(s);
        let t = after_next_page(s);
        let h = handed_out(t, (k - 1) as nat);
        let f = first_usable_from(s, 0);
        lemma_first_usable(s, 0);
        if f < s.len() {
            lemma_take_page(s, f);
        }
        lemma_no_page_twice(t, (k - 1) as nat);
        assert(handed_out(s, k) =~= seq![p] + h);
        assert forall|i: int| 0 <= i < k && #[trigger] handed_out(s, k)[i] != 0 implies seq_avail(s).contains(
            handed_out(s, k)[i],
        ) by {
            if i > 0 {
                assert(handed_out(s, k)[i] == h[i - 1]);
            }
        }
        assert forall|i: int, j: int|
            0 <= i < j < k && handed_out(s, k)[i] != 0 implies #[trigger] handed_out(s, k)[i]
            != #[trigger] handed_out(s, k)[j] by {
            assert(handed_out(s, k)[j] == h[j - 1]);
            if i > 0 {
                assert(handed_out(s, k)[i] == h[i - 1]);
            } else if h[j - 1] != 0 {
                assert(seq_avail(t).contains(h[j - 1]));
            }
        }
    }
}


/// The free regions of the map that the allocator takes over are page
/// aligned, end at or below `MAX_PHYS_ADDR`, and do not overlap, as the
/// firmware's memory map guarantees.
pub open spec fn map_regions_fit(s: Seq<BootMappedRegion>) -> bool {
    &&& forall|i: int|
        0 <= i < s.len() && region_kept(#[trigger] s[i]) ==> s[i].region.base % 4096 == 0 && region_end(
            s[i].region,
        ) <= MAX_PHYS_ADDR
    &&& forall|i: int, j: int|
        0 <= i < s.len() && 0 <= j < s.len() && i != j && region_kept(#[trigger] s[i]) && region_kept(
            #[trigger] s[j],
        ) ==> !regions_overlap(s[i].region, s[j].region)
}

/// `m` is the bookkeeping of a free region of `s` that the allocator takes over.
spec fn kept_meta(s: Seq<BootMappedRegion>, m: BumpRegionMeta) -> bool {
    exists|j: int| 0 <= j < s.len() && region_kept(s[j]) && m == #[trigger] region_meta(s[j])
}

/// Each region of the allocator that `init` builds from `s` is the
/// bookkeeping of a free region of `s` that it takes over.
proof fn lemma_init_origin(s: Seq<BootMappedRegion>)
    ensures
        forall|k: int| 0 <= k < init_regions(s).len() ==> kept_meta(s, #[trigger] init_regions(s)[k]),
    decreases s.len(),
{
    if s.len() > 0 {
        let t = s.drop_last();
        lemma_init_origin(t);
        let p = init_regions(t);
        assert forall|k: int| 0 <= k < init_regions(s).len() implies kept_meta(s, #[trigger] init_regions(s)[k]) by {
            if k < p.len() {
                assert(init_regions(s)[k] == p[k]);
                assert(kept_meta(t, p[k]));
                let j = choose|j: int| 0 <= j < t.len() && region_kept(t[j]) && p[k] == #[trigger] region_meta(t[j]);
                assert(t[j] == s[j]);
                assert(region_meta(s[j]) == p[k]);
            } else {
                assert(init_regions(s)[k] == region_meta(s[s.len() - 1]));
            }
        }
    }
}

/// The allocator that `init` builds from a memory map whose free regions
/// fit is sound: it never hands out a page twice, and every page it hands
/// out can be referenced by a page-table entry.
pub proof fn lemma_init_sound(s: Seq<BootMappedRegion>)
    requires
        map_in_address_space(s),
        map_regions_fit(s),
    ensures
        seq_sound(init_regions(s)),
    decreases s.len(),
{
    if s.len() > 0 {
        let t = s.drop_last();
        let l = s.last();
        assert forall|i: int| 0 <= i < t.len() implies #[trigger] t[i] == s[i] by {}
        assert(map_in_address_space(t)) by {
            assert forall|i: int| 0 <= i < t.len() && region_kept(#[trigger] t[i]) implies t[i].region.base
                + t[i].region.npages * 4096 <= usize::MAX by {
                assert(t[i] == s[i]);
            }
        }
        assert(map_regions_fit(t)) by {
            assert forall|i: int| 0 <= i < t.len() && region_kept(#[trigger] t[i]) implies t[i].region.base
                % 4096 == 0 && region_end(t[i].region) <= MAX_PHYS_ADDR by {
                assert(t[i] == s[i]);
            }
            assert forall|i: int, j: int|
                0 <= i < t.len() && 0 <= j < t.len() && i != j && region_kept(#[trigger] t[i]) && region_kept(
                    #[trigger] t[j],
                ) implies !regions_overlap(t[i].region, t[j].region) by {
                assert(t[i] == s[i] && t[j] == s[j]);
            }
        }
        lemma_init_sound(t);
        lemma_init_origin(t);
        let p = init_regions(t);
        if region_kept(l) {
            let n = s.len() - 1;
            assert(s[n] == l);
            let m = region_meta(l);
            let q = p.push(m);
            assert(init_regions(s) == q);
            assert(meta_end(m) == region_end(l.region));
            assert(m.base % 4096 == 0);
            assert forall|k: int| 0 <= k < p.len() implies meta_end(#[trigger] q[k]) <= m.base || meta_end(m)
                <= q[k].base by {
                assert(q[k] == p[k]);
                assert(kept_meta(t, p[k]));
                let j = choose|j: int| 0 <= j < t.len() && region_kept(t[j]) && p[k] == #[trigger] region_meta(t[j]);
                assert(t[j] == s[j]);
                assert(!regions_overlap(s[j].region, s[n].region));
                assert(meta_end(p[k]) == region_end(s[j].region));
            }
            assert forall|i: int, j: int|
                0 <= i < q.len() && 0 <= j < q.len() && i != j implies meta_end(#[trigger] q[i]) <= (
                #[trigger] q[j]).base || meta_end(q[j]) <= q[i].base by {
                if i < p.len() && j < p.len() {
                    assert(q[i] == p[i] && q[j] == p[j]);
                }
            }
            assert forall|i: int| 0 <= i < q.len() implies meta_valid(#[trigger] q[i]) && q[i].base % 4096
                == 0 && meta_end(q[i]) <= MAX_PHYS_ADDR by {
                if i < p.len() {
                    assert(q[i] == p[i]);
                }
            }
        } else {
            assert(init_regions(s) == p);
        }
    }
}


/// The allocator that `init` builds from a memory map whose free regions fit
/// never hands out a page twice: of the first `k` pages it hands out, each one
/// that is not 0 lies in a free region of the map past its first page, and
/// differs from every other one.
pub proof fn lemma_init_pages_distinct(s: Seq<BootMappedRegion>, k: nat)
    requires
        map_in_address_space(s),
        map_regions_fit(s),
    ensures
        handed_out(init_regions(s), k).len() == k,
        forall|i: int|
            0 <= i < k && #[trigger] handed_out(init_regions(s), k)[i] != 0 ==> seq_avail(init_regions(s)).contains(
                handed_out(init_regions(s), k)[i],
            ),
        forall|i: int, j: int|
            0 <= i < j < k && handed_out(init_regions(s), k)[i] != 0 ==> #[trigger] handed_out(init_regions(s), k)[i]
                != #[trigger] handed_out(init_regions(s), k)[j],
{
    lemma_init_sound(s);
    lemma_no_page_twice(init_regions(s), k);
}


/// Pages that the free regions of a map give the allocator: each free
/// region it takes over gives all its pages but the first.
pub open spec fn kept_pages(s: Seq<BootMappedRegion>) -> nat
    decreases s.len(),
{
    if s.len() == 0 {
        0
    } else if region_kept(s.last()) {
        kept_pages(s.drop_last()) + (s.last().region.npages - 1) as nat
    } else {
        kept_pages(s.drop_last())
    }
}

/// The allocator that `init` builds has exactly the pages the map's free
/// regions give it.
pub proof fn lemma_init_free_count(s: Seq<BootMappedRegion>)
    ensures
        free_pages(init_regions(s)) == kept_pages(s),
    decreases s.len(),
{
    if s.len() > 0 {
        lemma_init_free_count(s.drop_last());
        if region_kept(s.last()) {
            let m = region_meta(s.last());
            let p = init_regions(s.drop_last());
            assert(init_regions(s) == p.push(m));
            assert(p.push(m).drop_last() =~= p);
            assert((meta_end(m) - m.top) / 4096 == (s.last().region.npages - 1) as int) by (nonlinear_arith)
                requires
                    meta_end(m) - m.top == m.npages * 4096,
                    m.npages == s.last().region.npages - 1,
            ;
        }
    }
}

/// Of the next `k` pages an allocator hands out, the ones that are not 0 are
/// exactly the first `free_pages(s)`.
pub proof fn lemma_handed_out_count(s: Seq<BumpRegionMeta>, k: nat)
    requires
        forall|i: int| 0 <= i < s.len() ==> meta_valid(#[trigger] s[i]),
    ensures
        handed_out(s, k).len() == k,
        forall|i: int| 0 <= i < k ==> (#[trigger] handed_out(s, k)[i] != 0 <==> i < free_pages(s)),
    decreases k,
{
    if k > 0 {
        let f = first_usable_from(s, 0);
        let t = after_next_page(s);
        lemma_first_usable(s, 0);
        lemma_free_pages_zero(s);
        if f < s.len() {
            lemma_meta_free(s[f]);
            lemma_free_pages_update(s, f, meta_advanced(s[f]));
            assert forall|i: int| 0 <= i < t.len() implies meta_valid(#[trigger] t[i]) by {
                assert(i != f ==> t[i] == s[i]);
            }
            assert(next_page(s) != 0);
        } else {
            assert(t == s);
        }
        lemma_handed_out_count(t, (k - 1) as nat);
        let h = handed_out(t, (k - 1) as nat);
        assert(handed_out(s, k) =~= seq![next_page(s)] + h);
        assert forall|i: int| 0 <= i < k implies (#[trigger] handed_out(s, k)[i] != 0 <==> i < free_pages(s)) by {
            if i > 0 {
                assert(handed_out(s, k)[i] == h[i - 1]);
            }
        }
    }
}

/// Within a region the pages come one after the other: a page handed out
/// that is not the last of its region is followed by the page after it.
pub proof fn lemma_handed_out_consecutive(s: Seq<BumpRegionMeta>, k: nat)
    requires
        seq_sound(s),
    ensures
        forall|i: int, j: int|
            0 <= i < k - 1 && 0 <= j < s.len() && #[trigger] handed_out(s, k)[i] != 0 && (#[trigger] s[j]).base
                <= handed_out(s, k)[i] && handed_out(s, k)[i] + 4096 < meta_end(s[j]) ==> handed_out(s, k)[i + 1]
                == handed_out(s, k)[i] + 4096,
    decreases k,
{
    lemma_no_page_twice(s, k);
    if k > 1 {
        let f = first_usable_from(s, 0);
        let t = after_next_page(s);
        lemma_first_usable(s, 0);
        let p = next_page(s);
        if f < s.len() {
            lemma_take_page(s, f);
            lemma_meta_free(s[f]);
            assert(t == s.update(f, meta_advanced(s[f])));
        } else {
            assert(t == s);
        }
        lemma_handed_out_consecutive(t, (k - 1) as nat);
        lemma_no_page_twice(t, (k - 1) as nat);
        let h = handed_out(t, (k - 1) as nat);
        assert(handed_out(s, k) =~= seq![p] + h);
        assert forall|i: int, j: int|
            0 <= i < k - 1 && 0 <= j < s.len() && #[trigger] handed_out(s, k)[i] != 0 && (#[trigger] s[j]).base
                <= handed_out(s, k)[i] && handed_out(s, k)[i] + 4096 < meta_end(s[j]) implies handed_out(s, k)[i + 1]
                == handed_out(s, k)[i] + 4096 by {
            assert(handed_out(s, k)[i + 1] == h[i]);
            assert(t[j].base == s[j].base && meta_end(t[j]) == meta_end(s[j]));
            if i == 0 {
                assert(p == s[f].top);
                assert(meta_holds(s[f], p));
                if j != f {
                    assert(meta_end(s[j]) <= s[f].base || meta_end(s[f]) <= s[j].base);
                }
                assert(j == f);
                lemma_first_usable(t, 0);
                assert(meta_usable(t[f]));
                assert forall|l: int| 0 <= l < f implies !meta_usable(#[trigger] t[l]) by {
                    assert(t[l] == s[l]);
                }
                lemma_first_usable_is(t, f);
                assert(h[0] == next_page(t));
            } else {
                assert(handed_out(s, k)[i] == h[i - 1]);
            }
        }
    }
}

/// A usable region with no usable region before it is the first usable one.
proof fn lemma_first_usable_is(s: Seq<BumpRegionMeta>, f: int)
    requires
        0 <= f < s.len(),
        meta_usable(s[f]),
        forall|l: int| 0 <= l < f ==> !meta_usable(#[trigger] s[l]),
    ensures
        first_usable_from(s, 0) == f,
{
    lemma_first_usable(s, 0);
    let g = first_usable_from(s, 0);
    if g < f {
        assert(!meta_usable(s[g]));
    }
}


/// Each free region of the map that the allocator takes over has its
/// bookkeeping among the allocator's regions.
proof fn lemma_init_contains(s: Seq<BootMappedRegion>, j: int)
    requires
        0 <= j < s.len(),
        region_kept(s[j]),
    ensures
        exists|k: int| 0 <= k < init_regions(s).len() && #[trigger] init_regions(s)[k] == region_meta(s[j]),
    decreases s.len(),
{
    let t = s.drop_last();
    if j == s.len() - 1 {
        assert(init_regions(s) == init_regions(t).push(region_meta(s[j])));
        assert(init_regions(s)[init_regions(t).len() as int] == region_meta(s[j]));
    } else {
        assert(t[j] == s[j]);
        lemma_init_contains(t, j);
        let k = choose|k: int| 0 <= k < init_regions(t).len() && #[trigger] init_regions(t)[k] == region_meta(t[j]);
        if region_kept(s.last()) {
            assert(init_regions(s) == init_regions(t).push(region_meta(s.last())));
        }
        assert(init_regions(s)[k] == init_regions(t)[k]);
    }
}

/// The pages that successive `get_page` calls on the allocator `init` builds
/// hand out (`handed_out` of its regions): exactly the first
/// `kept_pages(s)` are not 0, and within a free region of the map each page
/// but its last is followed by the page after it.
pub proof fn lemma_init_pages_order(s: Seq<BootMappedRegion>, k: nat)
    requires
        map_in_address_space(s),
        map_regions_fit(s),
    ensures
        handed_out(init_regions(s), k).len() == k,
        forall|i: int| 0 <= i < k ==> (#[trigger] handed_out(init_regions(s), k)[i] != 0 <==> i < kept_pages(s)),
        forall|i: int, j: int|
            0 <= i < k - 1 && 0 <= j < s.len() && region_kept(#[trigger] s[j]) && #[trigger] handed_out(
                init_regions(s),
                k,
            )[i] != 0 && s[j].region.base < handed_out(init_regions(s), k)[i] && handed_out(init_regions(s), k)[i]
                + 4096 < region_end(s[j].region) ==> handed_out(init_regions(s), k)[i + 1] == handed_out(
                init_regions(s),
                k,
            )[i] + 4096,
{
    let r = init_regions(s);
    lemma_init_sound(s);
    lemma_init_free_count(s);
    lemma_handed_out_count(r, k);
    lemma_handed_out_consecutive(r, k);
    lemma_no_page_twice(r, k);
    assert forall|i: int, j: int|
        0 <= i < k - 1 && 0 <= j < s.len() && region_kept(#[trigger] s[j]) && #[trigger] handed_out(r, k)[i] != 0
            && s[j].region.base < handed_out(r, k)[i] && handed_out(r, k)[i] + 4096 < region_end(s[j].region)
            implies handed_out(r, k)[i + 1] == handed_out(r, k)[i] + 4096 by {
        let p = handed_out(r, k)[i];
        lemma_init_contains(s, j);
        let q = choose|q: int| 0 <= q < r.len() && #[trigger] r[q] == region_meta(s[j]);
        assert(seq_avail(r).contains(p));
        let q2 = choose|q2: int| 0 <= q2 < r.len() && meta_holds(#[trigger] r[q2], p);
        assert(meta_end(r[q]) == region_end(s[j].region));
        if q2 != q {
            assert(meta_end(r[q2]) <= r[q].base || meta_end(r[q]) <= r[q2].base);
        }
        assert(r[q].base <= p);
    }
}


/// Every region that `init` builds from a map whose free regions lie in the
/// address space is consistent.
pub proof fn lemma_init_valid(s: Seq<BootMappedRegion>)
    requires
        map_in_address_space(s),
    ensures
        forall|k: int| 0 <= k < init_regions(s).len() ==> meta_valid(#[trigger] init_regions(s)[k]),
{
    lemma_init_origin(s);
    assert forall|k: int| 0 <= k < init_regions(s).len() implies meta_valid(#[trigger] init_regions(s)[k]) by {
        assert(kept_meta(s, init_regions(s)[k]));
        let j = choose|j: int| 0 <= j < s.len() && region_kept(s[j]) && init_regions(s)[k] == #[trigger] region_meta(s[j]);
        assert(s[j].region.base + s[j].region.npages * 4096 <= usize::MAX);
    }
}

/// Every page an allocator hands out lies among the pages one of its regions manages.
pub proof fn lemma_handed_out_in_regions(s: Seq<BumpRegionMeta>, k: nat)
    requires
        forall|i: int| 0 <= i < s.len() ==> meta_valid(#[trigger] s[i]),
    ensures
        handed_out(s, k).len() == k,
        forall|i: int|
            0 <= i < k && #[trigger] handed_out(s, k)[i] != 0 ==> exists|q: int|
                0 <= q < s.len() && (#[trigger] s[q]).base <= handed_out(s, k)[i] && handed_out(s, k)[i] + 4096
                    <= meta_end(s[q]),
    decreases k,
{
    if k > 0 {
        let f = first_usable_from(s, 0);
        let t = after_next_page(s);
        lemma_first_usable(s, 0);
        if f < s.len() {
            lemma_meta_free(s[f]);
            assert forall|i: int| 0 <= i < t.len() implies meta_valid(#[trigger] t[i]) by {
                assert(i != f ==> t[i] == s[i]);
            }
        } else {
            assert(t == s);
        }
        lemma_handed_out_in_regions(t, (k - 1) as nat);
        let h = handed_out(t, (k - 1) as nat);
        assert(handed_out(s, k) =~= seq![next_page(s)] + h);
        assert forall|i: int|
            0 <= i < k && #[trigger] handed_out(s, k)[i] != 0 implies exists|q: int|
                0 <= q < s.len() && (#[trigger] s[q]).base <= handed_out(s, k)[i] && handed_out(s, k)[i] + 4096
                    <= meta_end(s[q]) by {
            if i == 0 {
                assert(s[f].base <= s[f].top);
            } else {
                assert(handed_out(s, k)[i] == h[i - 1]);
                let q = choose|q: int|
                    0 <= q < t.len() && (#[trigger] t[q]).base <= h[i - 1] && h[i - 1] + 4096 <= meta_end(t[q]);
                assert(t[q].base == s[q].base && meta_end(t[q]) == meta_end(s[q]));
            }
        }
    }
}

/// The allocator `init` builds hands out only pages of the map's free
/// regions, never a region's first page (it holds the bookkeeping), and
/// nothing from a region of any other type: of the pages successive
/// `get_page` calls return, each that is not 0 lies, whole, inside a region
/// of the map whose type is `Free`, past its first page.
pub proof fn lemma_init_pages_free(s: Seq<BootMappedRegion>, k: nat)
    requires
        map_in_address_space(s),
    ensures
        handed_out(init_regions(s), k).len() == k,
        forall|i: int|
            0 <= i < k && #[trigger] handed_out(init_regions(s), k)[i] != 0 ==> exists|j: int|
                0 <= j < s.len() && (#[trigger] s[j]).region_type == BootMemoryRegionType::Free && s[j].region.base
                    + 4096 <= handed_out(init_regions(s), k)[i] && handed_out(init_regions(s), k)[i] + 4096
                    <= s[j].region.base + s[j].region.npages * 4096,
{
    let r = init_regions(s);
    lemma_init_valid(s);
    lemma_init_origin(s);
    lemma_handed_out_in_regions(r, k);
    assert forall|i: int|
        0 <= i < k && #[trigger] handed_out(r, k)[i] != 0 implies exists|j: int|
            0 <= j < s.len() && (#[trigger] s[j]).region_type == BootMemoryRegionType::Free && s[j].region.base
                + 4096 <= handed_out(r, k)[i] && handed_out(r, k)[i] + 4096 <= s[j].region.base + s[j].region.npages
                * 4096 by {
        let p = handed_out(r, k)[i];
        let q = choose|q: int| 0 <= q < r.len() && (#[trigger] r[q]).base <= p && p + 4096 <= meta_end(r[q]);
        assert(kept_meta(s, r[q]));
        let j = choose|j: int| 0 <= j < s.len() && region_kept(s[j]) && r[q] == #[trigger] region_meta(s[j]);
        assert(s[j].region.base + s[j].region.npages * 4096 <= usize::MAX);
        assert(s[j].region_type == BootMemoryRegionType::Free);
    }
}


/// Regions are used up in order: a page handed out after another comes from
/// the same region or a later one.
pub proof fn lemma_handed_out_region_order(s: Seq<BumpRegionMeta>, k: nat)
    requires
        seq_sound(s),
    ensures
        forall|i: int, l: int, q1: int, q2: int|
            0 <= i < l < k && 0 <= q1 < s.len() && 0 <= q2 < s.len() && #[trigger] handed_out(s, k)[i] != 0
                && #[trigger] handed_out(s, k)[l] != 0 && (#[trigger] s[q1]).base <= handed_out(s, k)[i] < meta_end(
                s[q1],
            ) && (#[trigger] s[q2]).base <= handed_out(s, k)[l] < meta_end(s[q2]) ==> q1 <= q2,
    decreases k,
{
    lemma_no_page_twice(s, k);
    if k > 1 {
        let f = first_usable_from(s, 0);
        let t = after_next_page(s);
        lemma_first_usable(s, 0);
        let p = next_page(s);
        if f < s.len() {
            lemma_take_page(s, f);
            lemma_meta_free(s[f]);
            assert(t == s.update(f, meta_advanced(s[f])));
        } else {
            assert(t == s);
        }
        lemma_handed_out_region_order(t, (k - 1) as nat);
        lemma_no_page_twice(t, (k - 1) as nat);
        let h = handed_out(t, (k - 1) as nat);
        assert(handed_out(s, k) =~= seq![p] + h);
        assert forall|i: int, l: int, q1: int, q2: int|
            0 <= i < l < k && 0 <= q1 < s.len() && 0 <= q2 < s.len() && #[trigger] handed_out(s, k)[i] != 0
                && #[trigger] handed_out(s, k)[l] != 0 && (#[trigger] s[q1]).base <= handed_out(s, k)[i] < meta_end(
                s[q1],
            ) && (#[trigger] s[q2]).base <= handed_out(s, k)[l] < meta_end(s[q2]) implies q1 <= q2 by {
            assert(handed_out(s, k)[l] == h[l - 1]);
            assert(t[q1].base == s[q1].base && meta_end(t[q1]) == meta_end(s[q1]));
            assert(t[q2].base == s[q2].base && meta_end(t[q2]) == meta_end(s[q2]));
            if i == 0 {
                assert(p == s[f].top);
                if q1 != f {
                    assert(meta_end(s[q1]) <= s[f].base || meta_end(s[f]) <= s[q1].base);
                }
                let pl = h[l - 1];
                assert(seq_avail(t).contains(pl));
                let q3 = choose|q3: int| 0 <= q3 < t.len() && meta_holds(#[trigger] t[q3], pl);
                if q3 != q2 {
                    assert(meta_end(t[q3]) <= t[q2].base || meta_end(t[q2]) <= t[q3].base);
                }
                if q3 < f {
                    assert(t[q3] == s[q3]);
                    assert(!meta_usable(s[q3]));
                }
            } else {
                assert(handed_out(s, k)[i] == h[i - 1]);
            }
        }
    }
}

} // verus!
