use std::collections::HashMap;
use vstd::prelude::*;
use vstd::std_specs::iter::IteratorSpec;

verus! {

broadcast use {vstd::std_specs::hash::group_hash_axioms, vstd::array::group_array_axioms};

/// The physical memory that the page-table code reads and writes, seen as
/// 4 KiB pages of 512 eight-byte entries, addressed by the page's physical
/// address. A page that was never written reads as all zeros.
pub struct PhysMem {
    pages: HashMap<usize, [u64; 512]>,
}

/// `m2` is `m1` with entry `i` of page `t` set to `v`.
pub open spec fn mem_written(m1: PhysMem, m2: PhysMem, t: usize, i: int, v: u64) -> bool {
    forall|t2: usize, i2: int|
        #[trigger] m2.entry(t2, i2) == if t2 == t && i2 == i {
            v
        } else {
            m1.entry(t2, i2)
        }
}

/// `m2` is `m1` with page `t` filled with zeros.
pub open spec fn mem_zeroed(m1: PhysMem, m2: PhysMem, t: usize) -> bool {
    forall|t2: usize, i2: int|
        #[trigger] m2.entry(t2, i2) == if t2 == t && 0 <= i2 < 512 {
            0
        } else {
            m1.entry(t2, i2)
        }
}

impl PhysMem {

    /// Entry `i` of the page at address `t`.
    pub closed spec fn entry(&self, t: usize, i: int) -> u64 {
        if self.pages@.contains_key(t) && 0 <= i < 512 {
            self.pages@[t]@[i]
        } else {
            0
        }
    }

    /// Entries outside a page's 512 slots read as zero.
    pub proof fn lemma_entry_outside(&self, t: usize, i: int)
        requires
            !(0 <= i < 512),
        ensures
            self.entry(t, i) == 0,
    {
    }

    /// A memory in which every entry reads as zero.
    pub fn new() -> (m: Self)
        ensures
            forall|t: usize, i: int| m.entry(t, i) == 0,
    {
        PhysMem { pages: HashMap::new() }
    }

    /// Reads entry `i` of the page at `t`.
    pub fn read(&self, t: usize, i: usize) -> (v: u64)
        requires
            i < 512,
        ensures
            v == self.entry(t, i as int),
    {
        match self.pages.get(&t) {
            Some(page) => page[i],
            None => 0,
        }
    }

    /// Writes `v` into entry `i` of the page at `t`; every other entry is unchanged.
    pub fn write(&mut self, t: usize, i: usize, v: u64)
        requires
            i < 512,
        ensures
            mem_written(*old(self), *final(self), t, i as int, v),
    {
        let mut page = match self.pages.remove(&t) {
            Some(p) => p,
            None => [0u64; 512],
        };
        page[i] = v;
        self.pages.insert(t, page);
    }

    /// The pages that were ever written or zeroed; every other page reads as zeros.
    pub closed spec fn written(&self) -> Set<usize> {
        self.pages@.dom()
    }

    /// A page outside `written` reads as zeros.
    pub proof fn lemma_unwritten(&self, t: usize, i: int)
        requires
            !self.written().contains(t),
        ensures
            self.entry(t, i) == 0,
    {
    }

    /// The addresses of the pages in `written`, each once, in no particular order.
    pub fn page_addrs(&self) -> (r: Vec<usize>)
        ensures
            r@.to_set() == self.written(),
            r@.no_duplicates(),
    {
        let mut r: Vec<usize> = Vec::new();
        for t in it: self.pages.keys()
            invariant
                r@ == it.seq().take(it.index() as int).unref(),
                it.seq() == vstd::std_specs::hash::spec_keys_iter(&self.pages).remaining(),
        {
            r.push(*t);
        }
        proof {
            assert(r@ =~= vstd::std_specs::hash::spec_keys_iter(&self.pages).remaining().unref());
        }
        r
    }

    /// Fills the page at `t` with zeros; every other page is unchanged.
    pub fn zero_page(&mut self, t: usize)
        ensures
            mem_zeroed(*old(self), *final(self), t),
    {
        self.pages.insert(t, [0u64; 512]);
    }
}

} // verus!
