use vstd::prelude::*;

pub mod arch;
pub mod efi;
pub mod mem;
pub mod phys;

verus! {

/// What the boot stub hands the kernel: the memory map and where the kernel image lies.
pub struct BootData {
    pub map: mem::MemoryMap,
    pub kernel_region: crate::mem::MemoryRegion,
}

impl BootData {
    pub fn new(map: mem::MemoryMap, kernel_region: crate::mem::MemoryRegion) -> (r: Self)
        ensures
            r.map@ == map@,
            r.kernel_region == kernel_region,
    {
        BootData { map, kernel_region }
    }
}

} // verus!
