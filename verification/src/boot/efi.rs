use crate::boot::mem::{BootMappedRegion, BootMemoryRegionType};
use crate::mem::{MemoryRegion, PAGE_SIZE};
use vstd::prelude::*;

verus! {

/// The memory type `EfiLoaderCode`: r-efi's `LOADER_CODE`, which is 1.
#[verifier::external_body]
pub(crate) fn efi_loader_code() -> (t: u32)
    ensures
        t == 1,
{
    r_efi::efi::LOADER_CODE
}

/// The memory type `EfiLoaderData`: r-efi's `LOADER_DATA`, which is 2.
#[verifier::external_body]
pub(crate) fn efi_loader_data() -> (t: u32)
    ensures
        t == 2,
{
    r_efi::efi::LOADER_DATA
}

/// The memory type `EfiBootServicesCode`: r-efi's `BOOT_SERVICES_CODE`, which is 3.
#[verifier::external_body]
pub(crate) fn efi_boot_services_code() -> (t: u32)
    ensures
        t == 3,
{
    r_efi::efi::BOOT_SERVICES_CODE
}

/// The memory type `EfiBootServicesData`: r-efi's `BOOT_SERVICES_DATA`, which is 4.
#[verifier::external_body]
pub(crate) fn efi_boot_services_data() -> (t: u32)
    ensures
        t == 4,
{
    r_efi::efi::BOOT_SERVICES_DATA
}

/// The memory type `EfiConventionalMemory`: r-efi's `CONVENTIONAL_MEMORY`, which is 7.
#[verifier::external_body]
pub(crate) fn efi_conventional_memory() -> (t: u32)
    ensures
        t == 7,
{
    r_efi::efi::CONVENTIONAL_MEMORY
}

/// The memory type `EfiACPIReclaimMemory`: r-efi's `ACPI_RECLAIM_MEMORY`, which is 9.
#[verifier::external_body]
pub(crate) fn efi_acpi_reclaim_memory() -> (t: u32)
    ensures
        t == 9,
{
    r_efi::efi::ACPI_RECLAIM_MEMORY
}

/// The memory type `EfiMemoryMappedIO`: r-efi's `MEMORY_MAPPED_IO`, which is 11.
#[verifier::external_body]
pub(crate) fn efi_memory_mapped_io() -> (t: u32)
    ensures
        t == 11,
{
    r_efi::efi::MEMORY_MAPPED_IO
}

/// What the kernel makes of a UEFI memory type: memory the loader and the
/// boot services used can be reclaimed, ACPI tables can be reclaimed once
/// read, conventional memory is free, MMIO stays MMIO, the rest is reserved.
pub open spec fn spec_boot_region_type(efi_type: u32) -> BootMemoryRegionType {
    if efi_type == 1 || efi_type == 2 || efi_type == 3 || efi_type == 4 {
        BootMemoryRegionType::Reclaimable
    } else if efi_type == 9 {
        BootMemoryRegionType::ACPIReclaimable
    } else if efi_type == 7 {
        BootMemoryRegionType::Free
    } else if efi_type == 11 {
        BootMemoryRegionType::MemoryMappedIO
    } else {
        BootMemoryRegionType::Reserved
    }
}

/// The kind of region the kernel makes of a UEFI memory type.
pub fn boot_region_type(efi_type: u32) -> (t: BootMemoryRegionType)
    ensures
        t == spec_boot_region_type(efi_type),
        t == BootMemoryRegionType::Reclaimable <==> 1 <= efi_type <= 4,
        t == BootMemoryRegionType::ACPIReclaimable <==> efi_type == 9,
        t == BootMemoryRegionType::Free <==> efi_type == 7,
        t == BootMemoryRegionType::MemoryMappedIO <==> efi_type == 11,
        t == BootMemoryRegionType::Reserved <==> !(1 <= efi_type <= 4 || efi_type == 7 || efi_type == 9
            || efi_type == 11),
{
    if efi_type == efi_boot_services_code() || efi_type == efi_boot_services_data() || efi_type
        == efi_loader_code() || efi_type == efi_loader_data() {
        BootMemoryRegionType::Reclaimable
    } else if efi_type == efi_acpi_reclaim_memory() {
        BootMemoryRegionType::ACPIReclaimable
    } else if efi_type == efi_conventional_memory() {
        BootMemoryRegionType::Free
    } else if efi_type == efi_memory_mapped_io() {
        BootMemoryRegionType::MemoryMappedIO
    } else {
        BootMemoryRegionType::Reserved
    }
}

/// What the kernel reads of a UEFI memory descriptor.
#[derive(Debug, Clone, Copy)]
pub struct EfiMemoryDescriptor {
    pub ty: u32,
    pub physical_start: u64,
    pub number_of_pages: u64,
}

/// The kernel's region for one UEFI memory descriptor.
pub open spec fn spec_boot_region(d: EfiMemoryDescriptor) -> BootMappedRegion {
    BootMappedRegion {
        region_type: spec_boot_region_type(d.ty),
        region: MemoryRegion { base: d.physical_start as usize, npages: d.number_of_pages as usize },
    }
}

/// The kernel's memory map for the firmware's: one region per descriptor, in order.
pub fn create_memory_map_for_kernel(descs: &[EfiMemoryDescriptor]) -> (map: Vec<BootMappedRegion>)
    ensures
        map@.len() == descs@.len(),
        forall|i: int| 0 <= i < descs@.len() ==> #[trigger] map@[i] == spec_boot_region(descs@[i]),
{
    let mut map: Vec<BootMappedRegion> = Vec::new();
    let mut i: usize = 0;
    while i < descs.len()
        invariant
            0 <= i <= descs@.len(),
            map@.len() == i,
            forall|j: int| 0 <= j < i ==> #[trigger] map@[j] == spec_boot_region(descs@[j]),
        decreases descs@.len() - i,
    {
        let d = descs[i];
        let rtype = boot_region_type(d.ty);
        map.push(
            BootMappedRegion::new(
                rtype,
                MemoryRegion::new(d.physical_start as usize, d.number_of_pages as usize),
            ),
        );
        i += 1;
    }
    map
}

/// The region of the loaded kernel image: from its base, its size rounded up to whole pages.
pub fn image_region(image_base: usize, image_size: u64) -> (r: MemoryRegion)
    ensures
        r.base == image_base,
        r.npages == ((image_size as usize) + 4095) / 4096,
{
    let size = image_size as usize;
    let npages = size / PAGE_SIZE + if size % PAGE_SIZE != 0 {
        1
    } else {
        0
    };
    MemoryRegion::new(image_base, npages)
}

/// The number of whole descriptors in a memory map of `map_size` bytes, and their size.
pub fn descriptor_count(map_size: usize, desc_size: usize) -> (r: (usize, usize))
    requires
        desc_size > 0,
    ensures
        r.0 == map_size / desc_size,
        r.1 == desc_size,
{
    (map_size / desc_size, desc_size)
}

/// Size of the buffer to allocate before fetching the memory map, when the
/// firmware reported `nentries` descriptors of `entry_size` bytes: room for
/// eight more descriptors (allocating the buffer may split regions), in bytes
/// and in whole pages.
pub fn memory_map_buffer(nentries: usize, entry_size: usize) -> (r: (usize, usize))
    requires
        nentries + 8 <= usize::MAX,
        (nentries + 8) * entry_size + 4096 <= usize::MAX,
    ensures
        r.0 == (nentries + 8) * entry_size,
        r.1 == ((nentries + 8) * entry_size + 4095) / 4096,
{
    let nentries = nentries + 8;
    let nbytes = nentries * entry_size;
    let npages = (nbytes + PAGE_SIZE - 1) / PAGE_SIZE;
    (nbytes, npages)
}

/// How many times the loader asks the firmware to exit its boot services.
pub const EXIT_ATTEMPTS: usize = 2;

/// What `ExitBootServices` answered.
#[derive(Debug, Clone, Copy, PartialEq, Eq, Structural)]
pub enum ExitStatus {
    Success,
    InvalidParameter,
    Other,
}

/// What the loader does next.
#[derive(Debug, Clone, Copy, PartialEq, Eq, Structural)]
pub enum ExitStep {
    /// Boot services are gone: enter the kernel.
    EnterKernel,
    /// The memory map changed meanwhile: free the buffer and fetch it again.
    Retry,
    /// Every attempt was refused: report it and return to the firmware.
    GiveUp,
    /// The firmware answered something it may not: stop.
    Abort,
}

/// The loader's decision after the answer `status` to attempt `attempt`
/// (counted from 0): enter the kernel on success, try again on an invalid
/// parameter (the map key is stale) while attempts are left, give up after
/// the last one, and abort on any other answer.
pub fn exit_step(status: ExitStatus, attempt: usize) -> (r: ExitStep)
    requires
        attempt < EXIT_ATTEMPTS,
    ensures
        status == ExitStatus::Success ==> r == ExitStep::EnterKernel,
        status == ExitStatus::InvalidParameter && attempt + 1 < EXIT_ATTEMPTS ==> r == ExitStep::Retry,
        status == ExitStatus::InvalidParameter && attempt + 1 == EXIT_ATTEMPTS ==> r == ExitStep::GiveUp,
        status == ExitStatus::Other ==> r == ExitStep::Abort,
{
    match status {
        ExitStatus::Success => ExitStep::EnterKernel,
        ExitStatus::InvalidParameter => {
            if attempt + 1 < EXIT_ATTEMPTS {
                ExitStep::Retry
            } else {
                ExitStep::GiveUp
            }
        },
        ExitStatus::Other => ExitStep::Abort,
    }
}


/// How the kernel sorts UEFI memory types (numbered as in the UEFI
/// specification): loader and boot-services code and data (1 to 4) are
/// reclaimable, only ACPI reclaim memory (9) is ACPI-reclaimable (ACPI NVS
/// memory, 10, is kept), only conventional memory (7) is free, only
/// memory-mapped I/O (11) is MMIO, and every other type is reserved.
pub proof fn lemma_boot_region_type_classes(efi_type: u32)
    ensures
        spec_boot_region_type(efi_type) == BootMemoryRegionType::Reclaimable <==> 1 <= efi_type <= 4,
        spec_boot_region_type(efi_type) == BootMemoryRegionType::ACPIReclaimable <==> efi_type == 9,
        spec_boot_region_type(efi_type) == BootMemoryRegionType::Free <==> efi_type == 7,
        spec_boot_region_type(efi_type) == BootMemoryRegionType::MemoryMappedIO <==> efi_type == 11,
        spec_boot_region_type(efi_type) == BootMemoryRegionType::Reserved <==> !(1 <= efi_type <= 4
            || efi_type == 7 || efi_type == 9 || efi_type == 11),
{
}

} // verus!

