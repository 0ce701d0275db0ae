use vstd::prelude::*;

verus! {

/// log2 of the size of a page.
pub const PAGE_OFFSET: usize = 12;

/// Mask of the offset bits inside a page.
pub const PAGE_MASK: usize = 0xfff;

/// Size of a page in bytes.
pub const PAGE_SIZE: usize = 4096;

/// One page of physical memory.
pub struct Page(pub [u8; 4096]);

/// A run of `npages` consecutive pages starting at address `base`.
#[derive(Debug, Clone, Copy)]
pub struct MemoryRegion {
    pub base: usize,
    pub npages: usize,
}

/// One past the last byte of the region, as a mathematical integer.
pub open spec fn region_end(r: MemoryRegion) -> int {
    r.base + r.npages * 4096
}

/// Two regions overlap when some byte belongs to both of them.
pub open spec fn regions_overlap(a: MemoryRegion, b: MemoryRegion) -> bool {
    &&& a.npages > 0
    &&& b.npages > 0
    &&& a.base < region_end(b)
    &&& b.base < region_end(a)
}

/// Overlapping is symmetric, and a region with at least one page overlaps itself.
pub proof fn lemma_overlap_symmetric(a: MemoryRegion, b: MemoryRegion)
    ensures
        regions_overlap(a, b) == regions_overlap(b, a),
        a.npages > 0 ==> regions_overlap(a, a),
{
}

impl MemoryRegion {
    pub fn new(base: usize, npages: usize) -> (r: Self)
        ensures
            r.base == base,
            r.npages == npages,
    {
        Self { base, npages }
    }

    /// Move the base page of a memory region to a new location, keeping size information.
    pub fn rebased(self, base: usize) -> (r: Self)
        ensures
            r.base == base,
            r.npages == self.npages,
    {
        let mut r = self;
        r.base = base;
        r
    }

    /// An iterator over the addresses of the pages of the region.
    pub fn iter(&self) -> (it: PageIter)
        ensures
            it.current() == self.base,
            it.remaining() == self.npages,
    {
        PageIter { base: self.base, npages: self.npages }
    }

    /// Returns whether two regions overlap in any way or not.
    pub fn overlaps(self, other: Self) -> (b: bool)
        ensures
            b == regions_overlap(self, other),
    {
        let a_end: u128 = self.base as u128 + self.npages as u128 * 4096;
        let b_end: u128 = other.base as u128 + other.npages as u128 * 4096;
        self.npages > 0 && other.npages > 0 && (self.base as u128) < b_end
            && (other.base as u128) < a_end
    }
}

/// What `PageIter::next` does to an iterator at page `cur` with `rem` pages
/// left: the page it yields, and where the iterator is left.
pub open spec fn iter_step(cur: usize, rem: nat) -> (Option<usize>, usize, nat) {
    if rem == 0 {
        (None, cur, 0)
    } else {
        (Some(cur), cur.wrapping_add(4096), (rem - 1) as nat)
    }
}

/// What `k` calls of `PageIter::next` yield, from an iterator at page `cur`
/// with `rem` pages left.
pub open spec fn iter_run(cur: usize, rem: nat, k: nat) -> Seq<Option<usize>>
    decreases k,
{
    if k == 0 {
        Seq::empty()
    } else {
        let (p, c, r) = iter_step(cur, rem);
        seq![p] + iter_run(c, r, (k - 1) as nat)
    }
}

/// The iterator of a region that lies in the address space yields its pages
/// in order, `base`, `base + 4096`, and so on, one per page, and then `None`
/// on every call.
pub proof fn lemma_iter_run(base: usize, n: nat, k: nat)
    requires
        base + n * 4096 <= usize::MAX + 1,
    ensures
        iter_run(base, n, k).len() == k,
        forall|i: int|
            0 <= i < k ==> #[trigger] iter_run(base, n, k)[i] == if i < n {
                Some((base + i * 4096) as usize)
            } else {
                None
            },
    decreases k,
{
    if k > 0 {
        let (p, c, r) = iter_step(base, n);
        let rest = iter_run(c, r, (k - 1) as nat);
        assert(iter_run(base, n, k) == seq![p] + rest);
        if n == 0 {
            lemma_iter_run(base, 0, (k - 1) as nat);
            assert forall|i: int| 0 <= i < k implies #[trigger] iter_run(base, n, k)[i] == if i < n {
                Some((base + i * 4096) as usize)
            } else {
                None
            } by {
                if i > 0 {
                    assert(iter_run(base, n, k)[i] == rest[i - 1]);
                }
            }
        } else if n == 1 {
            lemma_iter_run(c, 0, (k - 1) as nat);
            assert forall|i: int| 0 <= i < k implies #[trigger] iter_run(base, n, k)[i] == if i < n {
                Some((base + i * 4096) as usize)
            } else {
                None
            } by {
                if i > 0 {
                    assert(iter_run(base, n, k)[i] == rest[i - 1]);
                }
            }
        } else {
            assert(base + 4096 <= usize::MAX);
            assert(c == base + 4096);
            lemma_iter_run(c, (n - 1) as nat, (k - 1) as nat);
            assert forall|i: int| 0 <= i < k implies #[trigger] iter_run(base, n, k)[i] == if i < n {
                Some((base + i * 4096) as usize)
            } else {
                None
            } by {
                if i > 0 {
                    assert(iter_run(base, n, k)[i] == rest[i - 1]);
                    assert(c + (i - 1) * 4096 == base + i * 4096);
                }
            }
        }
    }
}

/// Yields the address of each page of a region, in increasing order.
pub struct PageIter {
    base: usize,
    npages: usize,
}

impl PageIter {
    /// Address of the next page to be yielded.
    pub closed spec fn current(&self) -> usize {
        self.base
    }

    /// Number of pages still to be yielded.
    pub closed spec fn remaining(&self) -> nat {
        self.npages as nat
    }

    /// Yields the next page address, or `None` once the region is exhausted.
    pub fn next(&mut self) -> (p: Option<usize>)
        ensures
            old(self).remaining() == 0 ==> p is None && *final(self) == *old(self),
            old(self).remaining() > 0 ==> {
                &&& p == Some(old(self).current())
                &&& final(self).remaining() == old(self).remaining() - 1
                &&& final(self).current() == old(self).current().wrapping_add(4096)
            },
            (p, final(self).current(), final(self).remaining()) == iter_step(
                old(self).current(),
                old(self).remaining(),
            ),
    {
        if self.npages > 0 {
            let p = self.base;
            self.base = self.base.wrapping_add(4096);
            self.npages = self.npages - 1;
            Some(p)
        } else {
            None
        }
    }
}

} // verus!
