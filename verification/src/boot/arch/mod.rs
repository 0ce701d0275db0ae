use crate::boot::mem::EarlyBootAllocator;
use crate::mem::MemoryRegion;
use vstd::prelude::*;

pub mod paging;

verus! {

/// What the kernel gets once it runs in the higher half: its page map, where
/// its image is mapped, and the early allocator.
pub struct ArchEntry {
    pub map: paging::PageMap,
    pub kernel_region: MemoryRegion,
    pub alloc: EarlyBootAllocator,
}

} // verus!
