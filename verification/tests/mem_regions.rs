use uefi_kernel::mem::{MemoryRegion, PAGE_MASK, PAGE_OFFSET, PAGE_SIZE};
use uefi_kernel::memory::{self, MemoryMap, MemoryRegionType};

#[test]
fn page_constants() {
    assert_eq!(PAGE_SIZE, 1 << PAGE_OFFSET);
    assert_eq!(PAGE_MASK, PAGE_SIZE - 1);
}

#[test]
fn region_new_and_rebased() {
    let r = MemoryRegion::new(0x10_0000, 3);
    assert_eq!(r.base, 0x10_0000);
    assert_eq!(r.npages, 3);
    let m = r.rebased(0xffff_8000_0000_0000);
    assert_eq!(m.base, 0xffff_8000_0000_0000);
    assert_eq!(m.npages, 3);
}

#[test]
fn region_iter_yields_each_page() {
    let r = MemoryRegion::new(0x4000, 3);
    let mut it = r.iter();
    assert_eq!(it.next(), Some(0x4000));
    assert_eq!(it.next(), Some(0x5000));
    assert_eq!(it.next(), Some(0x6000));
    assert_eq!(it.next(), None);
    assert_eq!(it.next(), None);
}

#[test]
fn region_iter_empty() {
    let r = MemoryRegion::new(0x4000, 0);
    let mut it = r.iter();
    assert_eq!(it.next(), None);
}

#[test]
fn overlapping_regions() {
    let a = MemoryRegion::new(0x1000, 2);
    assert!(a.overlaps(MemoryRegion::new(0x2000, 1)));
    assert!(a.overlaps(MemoryRegion::new(0x0, 2)));
    assert!(a.overlaps(MemoryRegion::new(0x1000, 1)));
    assert!(a.overlaps(a));
    assert!(MemoryRegion::new(0x0, 10).overlaps(a));
}

#[test]
fn disjoint_regions() {
    let a = MemoryRegion::new(0x1000, 2);
    assert!(!a.overlaps(MemoryRegion::new(0x3000, 1)));
    assert!(!a.overlaps(MemoryRegion::new(0x0, 1)));
    assert!(!MemoryRegion::new(0x3000, 1).overlaps(a));
}

#[test]
fn empty_regions_overlap_nothing() {
    let a = MemoryRegion::new(0x1000, 2);
    assert!(!a.overlaps(MemoryRegion::new(0x1000, 0)));
    assert!(!MemoryRegion::new(0x1800, 0).overlaps(a));
}

#[test]
fn overlap_near_the_top_of_the_address_space() {
    let a = MemoryRegion::new(usize::MAX - 0xfff, 1);
    assert!(a.overlaps(MemoryRegion::new(usize::MAX - 0x1fff, 2)));
    assert!(!a.overlaps(MemoryRegion::new(usize::MAX - 0x1fff, 1)));
}

#[test]
fn memory_region_and_map() {
    let r = memory::MemoryRegion::new(MemoryRegionType::Free, 0x8000, 4);
    assert_eq!(r.region_type, MemoryRegionType::Free);
    assert_eq!(r.base, 0x8000);
    assert_eq!(r.len, 4);
    let map = MemoryMap::new(vec![r, memory::MemoryRegion::new(MemoryRegionType::Reserved, 0, 1)]);
    let s = map.as_slice();
    assert_eq!(s.len(), 2);
    assert_eq!(s[0].base, 0x8000);
    assert_eq!(s[1].region_type, MemoryRegionType::Reserved);
}

#[test]
fn memory_region_types_of_efi_types() {
    assert_eq!(memory::region_type(1), MemoryRegionType::Reclaimable);
    assert_eq!(memory::region_type(2), MemoryRegionType::Reclaimable);
    assert_eq!(memory::region_type(3), MemoryRegionType::Reserved);
    assert_eq!(memory::region_type(4), MemoryRegionType::Reserved);
    assert_eq!(memory::region_type(7), MemoryRegionType::Free);
    assert_eq!(memory::region_type(9), MemoryRegionType::ACPIReclaimable);
    assert_eq!(memory::region_type(11), MemoryRegionType::MemoryMappedIO);
    assert_eq!(memory::region_type(0), MemoryRegionType::Reserved);
    assert_eq!(memory::region_type(14), MemoryRegionType::Reserved);
}
