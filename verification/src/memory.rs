use crate::boot::efi::{
    efi_acpi_reclaim_memory, efi_conventional_memory, efi_loader_code, efi_loader_data,
    efi_memory_mapped_io,
};
use vstd::prelude::*;

verus! {

/// What a region of physical memory holds.
#[derive(Debug, Clone, Copy, PartialEq, Eq)]
pub enum MemoryRegionType {
    Reclaimable,
    ACPIReclaimable,
    Free,
    MemoryMappedIO,
    Reserved,
}

/// A region of physical memory: `len` pages from address `base`.
#[derive(Debug, Clone, Copy)]
pub struct MemoryRegion {
    pub region_type: MemoryRegionType,
    pub base: usize,
    pub len: usize,
}

impl MemoryRegion {
    pub fn new(region_type: MemoryRegionType, base: usize, len: usize) -> (r: Self)
        ensures
            r.region_type == region_type,
            r.base == base,
            r.len == len,
    {
        Self { region_type, base, len }
    }
}

/// A memory map: a list of regions.
pub struct MemoryMap {
    regions: Vec<MemoryRegion>,
}

impl View for MemoryMap {
    type V = Seq<MemoryRegion>;

    closed spec fn view(&self) -> Seq<MemoryRegion> {
        self.regions@
    }
}

impl MemoryMap {
    pub fn new(regions: Vec<MemoryRegion>) -> (m: Self)
        ensures
            m@ == regions@,
    {
        Self { regions }
    }

    pub fn as_slice(&self) -> (s: &[MemoryRegion])
        ensures
            s@ == self@,
    {
        self.regions.as_slice()
    }
}

/// What this memory map makes of a UEFI memory type: memory the loader used
/// can be reclaimed, ACPI tables can be reclaimed once read, conventional
/// memory is free, MMIO stays MMIO, the rest is reserved.
pub open spec fn spec_region_type(efi_type: u32) -> MemoryRegionType {
    if efi_type == 1 || efi_type == 2 {
        MemoryRegionType::Reclaimable
    } else if efi_type == 9 {
        MemoryRegionType::ACPIReclaimable
    } else if efi_type == 7 {
        MemoryRegionType::Free
    } else if efi_type == 11 {
        MemoryRegionType::MemoryMappedIO
    } else {
        MemoryRegionType::Reserved
    }
}

/// The kind of region this memory map makes of a UEFI memory type.
pub fn region_type(efi_type: u32) -> (t: MemoryRegionType)
    ensures
        t == spec_region_type(efi_type),
        t == MemoryRegionType::Reclaimable <==> efi_type == 1 || efi_type == 2,
        t == MemoryRegionType::ACPIReclaimable <==> efi_type == 9,
        t == MemoryRegionType::Free <==> efi_type == 7,
        t == MemoryRegionType::MemoryMappedIO <==> efi_type == 11,
        t == MemoryRegionType::Reserved <==> !(efi_type == 1 || efi_type == 2 || efi_type == 7 || efi_type == 9
            || efi_type == 11),
{
    if efi_type == efi_loader_code() || efi_type == efi_loader_data() {
        MemoryRegionType::Reclaimable
    } else if efi_type == efi_acpi_reclaim_memory() {
        MemoryRegionType::ACPIReclaimable
    } else if efi_type == efi_conventional_memory() {
        MemoryRegionType::Free
    } else if efi_type == efi_memory_mapped_io() {
        MemoryRegionType::MemoryMappedIO
    } else {
        MemoryRegionType::Reserved
    }
}

/// How this memory map sorts UEFI memory types (numbered as in the UEFI
/// specification): loader code and data (1, 2) are reclaimable, only ACPI
/// reclaim memory (9) is ACPI-reclaimable (ACPI NVS memory, 10, is kept),
/// only conventional memory (7) is free, only memory-mapped I/O (11) is
/// MMIO, and every other type, boot-services memory included, is reserved.
pub proof fn lemma_region_type_classes(efi_type: u32)
    ensures
        spec_region_type(efi_type) == MemoryRegionType::Reclaimable <==> efi_type == 1 || efi_type == 2,
        spec_region_type(efi_type) == MemoryRegionType::ACPIReclaimable <==> efi_type == 9,
        spec_region_type(efi_type) == MemoryRegionType::Free <==> efi_type == 7,
        spec_region_type(efi_type) == MemoryRegionType::MemoryMappedIO <==> efi_type == 11,
        spec_region_type(efi_type) == MemoryRegionType::Reserved <==> !(efi_type == 1 || efi_type == 2
            || efi_type == 7 || efi_type == 9 || efi_type == 11),
{
}

} // verus!

