use uefi_kernel::boot::efi::{
    boot_region_type, create_memory_map_for_kernel, descriptor_count, image_region,
    memory_map_buffer, exit_step, EfiMemoryDescriptor, ExitStatus, ExitStep, EXIT_ATTEMPTS,
};
use uefi_kernel::boot::mem::{BootMappedRegion, BootMemoryRegionType, EarlyBootAllocator, MemoryMap};
use uefi_kernel::boot::phys::PhysMem;
use uefi_kernel::boot::BootData;
use uefi_kernel::mem::MemoryRegion;

fn region(t: BootMemoryRegionType, base: usize, npages: usize) -> BootMappedRegion {
    BootMappedRegion::new(t, MemoryRegion::new(base, npages))
}

#[test]
fn boot_mapped_region_new() {
    let r = region(BootMemoryRegionType::Free, 0x1000, 2);
    assert_eq!(r.region_type, BootMemoryRegionType::Free);
    assert_eq!(r.region.base, 0x1000);
    assert_eq!(r.region.npages, 2);
}

#[test]
fn boot_memory_map_and_boot_data() {
    let map = MemoryMap::new(vec![region(BootMemoryRegionType::Reserved, 0, 1)]);
    assert_eq!(map.as_slice().len(), 1);
    let data = BootData::new(map, MemoryRegion::new(0x20_0000, 5));
    assert_eq!(data.kernel_region.npages, 5);
    assert_eq!(data.map.as_slice()[0].region_type, BootMemoryRegionType::Reserved);
}

#[test]
fn allocator_hands_out_free_pages_in_order() {
    let map = MemoryMap::new(vec![
        region(BootMemoryRegionType::Reserved, 0x1000, 8),
        region(BootMemoryRegionType::Free, 0x10000, 3),
        region(BootMemoryRegionType::Free, 0x20000, 2),
    ]);
    let mut a = EarlyBootAllocator::init(&map);
    // The first page of each free region holds the allocator's bookkeeping.
    assert_eq!(a.get_page(), 0x11000);
    assert_eq!(a.get_page(), 0x12000);
    assert_eq!(a.get_page(), 0x21000);
    assert_eq!(a.get_page(), 0);
    assert_eq!(a.get_page(), 0);
}

#[test]
fn allocator_skips_small_and_null_regions() {
    let map = MemoryMap::new(vec![
        region(BootMemoryRegionType::Free, 0x0, 8),
        region(BootMemoryRegionType::Free, 0x10000, 1),
        region(BootMemoryRegionType::Reclaimable, 0x30000, 4),
        region(BootMemoryRegionType::Free, 0x40000, 2),
    ]);
    let mut a = EarlyBootAllocator::init(&map);
    assert_eq!(a.get_page(), 0x41000);
    assert_eq!(a.get_page(), 0);
}

#[test]
fn allocator_without_free_memory() {
    let map = MemoryMap::new(vec![]);
    let mut a = EarlyBootAllocator::init(&map);
    assert_eq!(a.get_page(), 0);
}

#[test]
fn zeroed_pages_are_zero() {
    let map = MemoryMap::new(vec![region(BootMemoryRegionType::Free, 0x10000, 2)]);
    let mut a = EarlyBootAllocator::init(&map);
    let mut mem = PhysMem::new();
    mem.write(0x11000, 5, 0xdead_beef);
    mem.write(0x12000, 5, 0x1234);
    let p = a.get_page_zeroed(&mut mem);
    assert_eq!(p, 0x11000);
    assert_eq!(mem.read(0x11000, 5), 0);
    assert_eq!(mem.read(0x12000, 5), 0x1234);
    assert_eq!(a.get_page_zeroed(&mut mem), 0);
    assert_eq!(mem.read(0x12000, 5), 0x1234);
}

#[test]
fn phys_mem_reads_what_was_written() {
    let mut mem = PhysMem::new();
    assert_eq!(mem.read(0x5000, 3), 0);
    mem.write(0x5000, 3, 42);
    mem.write(0x5000, 4, 43);
    mem.write(0x6000, 3, 44);
    assert_eq!(mem.read(0x5000, 3), 42);
    assert_eq!(mem.read(0x5000, 4), 43);
    assert_eq!(mem.read(0x6000, 3), 44);
    mem.zero_page(0x5000);
    assert_eq!(mem.read(0x5000, 3), 0);
    assert_eq!(mem.read(0x5000, 4), 0);
    assert_eq!(mem.read(0x6000, 3), 44);
}

#[test]
fn boot_region_types_of_efi_types() {
    assert_eq!(boot_region_type(1), BootMemoryRegionType::Reclaimable);
    assert_eq!(boot_region_type(2), BootMemoryRegionType::Reclaimable);
    assert_eq!(boot_region_type(3), BootMemoryRegionType::Reclaimable);
    assert_eq!(boot_region_type(4), BootMemoryRegionType::Reclaimable);
    assert_eq!(boot_region_type(7), BootMemoryRegionType::Free);
    assert_eq!(boot_region_type(9), BootMemoryRegionType::ACPIReclaimable);
    assert_eq!(boot_region_type(11), BootMemoryRegionType::MemoryMappedIO);
    assert_eq!(boot_region_type(0), BootMemoryRegionType::Reserved);
    assert_eq!(boot_region_type(5), BootMemoryRegionType::Reserved);
    assert_eq!(boot_region_type(10), BootMemoryRegionType::Reserved);
}

#[test]
fn kernel_memory_map_from_descriptors() {
    let descs = [
        EfiMemoryDescriptor { ty: 7, physical_start: 0x10_0000, number_of_pages: 16 },
        EfiMemoryDescriptor { ty: 2, physical_start: 0x20_0000, number_of_pages: 3 },
        EfiMemoryDescriptor { ty: 6, physical_start: 0x30_0000, number_of_pages: 1 },
    ];
    let map = create_memory_map_for_kernel(&descs);
    assert_eq!(map.len(), 3);
    assert_eq!(map[0].region_type, BootMemoryRegionType::Free);
    assert_eq!(map[0].region.base, 0x10_0000);
    assert_eq!(map[0].region.npages, 16);
    assert_eq!(map[1].region_type, BootMemoryRegionType::Reclaimable);
    assert_eq!(map[2].region_type, BootMemoryRegionType::Reserved);
    assert_eq!(map[2].region.base, 0x30_0000);
}

#[test]
fn image_region_rounds_up_to_pages() {
    let r = image_region(0x40_0000, 4097);
    assert_eq!(r.base, 0x40_0000);
    assert_eq!(r.npages, 2);
    assert_eq!(image_region(0x40_0000, 4096).npages, 1);
    assert_eq!(image_region(0x40_0000, 0).npages, 0);
    assert_eq!(image_region(0x40_0000, 1).npages, 1);
}

#[test]
fn memory_map_size_and_buffers() {
    assert_eq!(descriptor_count(48 * 10, 48), (10, 48));
    assert_eq!(descriptor_count(48 * 10 + 7, 48), (10, 48));
    assert_eq!(descriptor_count(0, 40), (0, 40));
    assert_eq!(memory_map_buffer(10, 48), (18 * 48, 1));
    assert_eq!(memory_map_buffer(100, 48), (108 * 48, 2));
    assert_eq!(memory_map_buffer(77, 48), (85 * 48, 1));
    assert_eq!(memory_map_buffer(78, 48), (86 * 48, 2));
}

#[test]
fn allocator_reports_what_it_holds() {
    let map = MemoryMap::new(vec![
        region(BootMemoryRegionType::Free, 0x10000, 3),
        region(BootMemoryRegionType::Free, 0x20000, 2),
    ]);
    let mut a = EarlyBootAllocator::init(&map);
    assert_eq!(a.free_page_count(), 3);
    assert!(!a.holds(0x10000));
    assert!(a.holds(0x11000));
    assert!(a.holds(0x12000));
    assert!(!a.holds(0x11800));
    assert!(!a.holds(0x13000));
    assert!(a.holds(0x21000));
    assert_eq!(a.get_page(), 0x11000);
    assert!(!a.holds(0x11000));
    assert_eq!(a.free_page_count(), 2);
    assert!(a.is_sound());
}

#[test]
fn overlapping_free_regions_are_not_sound() {
    let map = MemoryMap::new(vec![
        region(BootMemoryRegionType::Free, 0x10000, 4),
        region(BootMemoryRegionType::Free, 0x12000, 4),
    ]);
    let a = EarlyBootAllocator::init(&map);
    assert!(!a.is_sound());
    let unaligned = MemoryMap::new(vec![region(BootMemoryRegionType::Free, 0x10800, 4)]);
    assert!(!EarlyBootAllocator::init(&unaligned).is_sound());
    let high = MemoryMap::new(vec![region(BootMemoryRegionType::Free, 0x10_0000_0000_0000, 4)]);
    assert!(!EarlyBootAllocator::init(&high).is_sound());
    let adjacent = MemoryMap::new(vec![
        region(BootMemoryRegionType::Free, 0x10000, 4),
        region(BootMemoryRegionType::Free, 0x14000, 4),
    ]);
    assert!(EarlyBootAllocator::init(&adjacent).is_sound());
}

#[test]
fn phys_mem_lists_written_pages() {
    let mut mem = PhysMem::new();
    assert!(mem.page_addrs().is_empty());
    mem.write(0x5000, 1, 7);
    mem.zero_page(0x9000);
    mem.write(0x5000, 2, 8);
    let mut pages = mem.page_addrs();
    pages.sort();
    assert_eq!(pages, vec![0x5000, 0x9000]);
}

#[test]
fn allocator_never_repeats_a_page() {
    let map = MemoryMap::new(vec![
        region(BootMemoryRegionType::Free, 0x40000, 5),
        region(BootMemoryRegionType::Free, 0x10000, 3),
        region(BootMemoryRegionType::Free, 0x80000, 4),
    ]);
    let mut a = EarlyBootAllocator::init(&map);
    let total = a.free_page_count();
    assert_eq!(total, 9);
    let mut pages = Vec::new();
    loop {
        let p = a.get_page();
        if p == 0 {
            break;
        }
        pages.push(p);
    }
    assert_eq!(pages.len(), total);
    let mut sorted = pages.clone();
    sorted.sort();
    sorted.dedup();
    assert_eq!(sorted.len(), total);
    assert_eq!(pages[0], 0x41000);
    assert_eq!(pages[4], 0x11000);
    assert_eq!(pages[6], 0x81000);
    assert_eq!(a.free_page_count(), 0);
}

#[test]
fn exit_boot_services_decisions() {
    assert_eq!(EXIT_ATTEMPTS, 2);
    assert_eq!(exit_step(ExitStatus::Success, 0), ExitStep::EnterKernel);
    assert_eq!(exit_step(ExitStatus::Success, 1), ExitStep::EnterKernel);
    assert_eq!(exit_step(ExitStatus::InvalidParameter, 0), ExitStep::Retry);
    assert_eq!(exit_step(ExitStatus::InvalidParameter, 1), ExitStep::GiveUp);
    assert_eq!(exit_step(ExitStatus::Other, 0), ExitStep::Abort);
}

#[test]
fn allocator_hands_out_each_kept_page_once_then_zero() {
    let map = MemoryMap::new(vec![
        region(BootMemoryRegionType::Free, 0x100000, 5),
        region(BootMemoryRegionType::Free, 0x0, 4),
        region(BootMemoryRegionType::Free, 0x200000, 1),
        region(BootMemoryRegionType::Free, 0x300000, 3),
    ]);
    let mut a = EarlyBootAllocator::init(&map);
    // Kept pages: 4 of the first region and 2 of the last.
    let pages: Vec<usize> = (0..8).map(|_| a.get_page()).collect();
    assert_eq!(pages, vec![0x101000, 0x102000, 0x103000, 0x104000, 0x301000, 0x302000, 0, 0]);
    for w in pages[..3].windows(2) {
        assert_eq!(w[1], w[0] + 0x1000);
    }
}
