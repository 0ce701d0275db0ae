use uefi_kernel::boot::arch::paging::{
    child_tables, create_stack, direct_map_region, map_higher_half_kernel, virt_from_bits_1g_page_aligned,
    virt_from_bits_2m_page_aligned, virt_from_bits_page_aligned, virt_to_bits_1g_page_aligned,
    virt_to_bits_2m_page_aligned, virt_to_bits_page_aligned, Cr3, Error,
    LinearAddressPageTranslation, MappedHigherHalf, Mapping, PageDirectoryEntry,
    PageDirectoryEntryBare, PageDirectoryPointerEntry, PageDirectoryPointerEntryBare, PageMap,
    PageMapLevel4Entry, PageMapLevel4EntryBare, PageTableEntry, PageTableEntryBare, Perms,
    KERNEL_OFFSET,
};
use uefi_kernel::boot::mem::{BootMappedRegion, BootMemoryRegionType, EarlyBootAllocator, MemoryMap};
use uefi_kernel::boot::phys::PhysMem;
use uefi_kernel::mem::MemoryRegion;

fn allocator(base: usize, npages: usize) -> EarlyBootAllocator {
    EarlyBootAllocator::init(&MemoryMap::new(vec![BootMappedRegion::new(
        BootMemoryRegionType::Free,
        MemoryRegion::new(base, npages),
    )]))
}

/// The kind of a mapping (1 = 4 KiB, 2 = 2 MiB, 3 = 1 GiB), its entry bits and
/// the physical address it gives.
fn describe(m: Option<(Mapping, usize)>) -> Option<(u8, u64, usize)> {
    m.map(|(mapping, pa)| match mapping {
        Mapping::Page4K(e) => (1, e.0, pa),
        Mapping::Page2M(e) => (2, e.0, pa),
        Mapping::Page1G(e) => (3, e.0, pa),
    })
}

#[test]
fn page_table_entry_fields() {
    let e = PageTableEntry::new().with_addr(0x5000).with_write_enabled(true).with_execute_disabled(true);
    assert_eq!(e.0, 0x8000_0000_0000_5003);
    assert_eq!(e.addr(), 0x5000);
    assert!(e.write_enabled());
    assert!(e.execute_disabled());
    assert_eq!(e.with_write_enabled(false).0, 0x8000_0000_0000_5001);
    assert_eq!(e.with_execute_disabled(false).0, 0x5003);
    assert_eq!(PageTableEntry::new().with_addr(0x5fff).addr(), 0x5000);
    assert_eq!(e.page(), Some(0x5000));
    assert_eq!(PageTableEntry::new().page(), None);
}

#[test]
fn entries_decode_only_when_present() {
    assert!(PageMapLevel4Entry::from_bare(PageMapLevel4EntryBare(0x2002)).is_none());
    let e = PageMapLevel4Entry::from_bare(PageMapLevel4EntryBare(0x2003)).unwrap();
    assert_eq!(e.page_dir_ptr_table(), Some(0x2000));
    let null = PageMapLevel4Entry::from_bare(PageMapLevel4EntryBare(0x1)).unwrap();
    assert_eq!(null.page_dir_ptr_table(), None);
    assert!(PageTableEntry::from_bare(PageTableEntryBare(0x7000)).is_none());
    assert_eq!(PageTableEntry::from_bare(PageTableEntryBare(0x7001)).unwrap().addr(), 0x7000);
}

#[test]
fn huge_bit_selects_the_page_variant() {
    match PageDirectoryPointerEntry::from_bare(PageDirectoryPointerEntryBare(0x4000_0083)) {
        Some(PageDirectoryPointerEntry::Huge(h)) => assert_eq!(h.addr(), 0x4000_0000),
        _ => panic!("expected a 1 GiB page"),
    }
    match PageDirectoryPointerEntry::from_bare(PageDirectoryPointerEntryBare(0x3003)) {
        Some(PageDirectoryPointerEntry::NextLevel(r)) => assert_eq!(r.page_dir_table(), Some(0x3000)),
        _ => panic!("expected a directory reference"),
    }
    match PageDirectoryEntry::from_bare(PageDirectoryEntryBare(0x60_0083)) {
        Some(PageDirectoryEntry::Huge(h)) => assert_eq!(h.addr(), 0x60_0000),
        _ => panic!("expected a 2 MiB page"),
    }
    match PageDirectoryEntry::from_bare(PageDirectoryEntryBare(0x9003)) {
        Some(PageDirectoryEntry::NextLevel(r)) => assert_eq!(r.page_table(), Some(0x9000)),
        _ => panic!("expected a table reference"),
    }
    assert!(PageDirectoryEntry::from_bare(PageDirectoryEntryBare(0x60_0082)).is_none());
}

#[test]
fn from_bare_or_overwrite_keeps_present_entries() {
    let mut bare = PageTableEntryBare(0x8001);
    let r = PageTableEntry::from_bare_or_overwrite(&mut bare, PageTableEntry::new().with_addr(0x9000));
    assert_eq!(r.0, 0x8001);
    assert_eq!(bare.0, 0x8001);
    let mut empty = PageTableEntryBare(0x8000);
    let r = PageTableEntry::from_bare_or_overwrite(&mut empty, PageTableEntry::new().with_addr(0x9000));
    assert_eq!(r.0, 0x9001);
    assert_eq!(empty.0, 0x9001);
    let mut e4 = PageMapLevel4EntryBare(0);
    let r4 = PageMapLevel4Entry::from_bare_or_overwrite(&mut e4, PageMapLevel4Entry::new().with_addr(0xa000));
    assert_eq!(r4.0, 0xa001);
    assert_eq!(e4.0, 0xa001);
}

#[test]
fn linear_address_indices() {
    let a: u64 = (3 << 39) | (5 << 30) | (7 << 21) | (9 << 12) | 0x123;
    let t = LinearAddressPageTranslation::from_bits(a);
    assert_eq!(t.pml4_idx(), 3);
    assert_eq!(t.dir_ptr_idx(), 5);
    assert_eq!(t.dir_idx(), 7);
    assert_eq!(t.table_idx(), 9);
    assert_eq!(t.offset(), 0x123);
}

#[test]
fn frame_numbers() {
    assert_eq!(virt_to_bits_page_aligned(0x12345), 0x12);
    assert_eq!(virt_from_bits_page_aligned(0x12), 0x12000);
    assert_eq!(virt_to_bits_2m_page_aligned(0x60_1234), 3);
    assert_eq!(virt_from_bits_2m_page_aligned(3), 0x60_0000);
    assert_eq!(virt_to_bits_1g_page_aligned(0x8000_1234), 2);
    assert_eq!(virt_from_bits_1g_page_aligned(2), 0x8000_0000);
}

#[test]
fn mapping_sizes_and_perms() {
    assert_eq!(Mapping::Page4K(PageTableEntry::new()).npages(), 1);
    let wx = Perms::wx();
    assert!(wx.write && wx.execute);
    let wo = Perms::wo();
    assert!(wo.write && !wo.execute);
}

#[test]
fn mapped_page_is_found_by_the_walk() {
    let mut alloc = allocator(0x10_0000, 64);
    let mut mem = PhysMem::new();
    let mut map = PageMap::new(&mut alloc, &mut mem);
    assert_eq!(map.base_addr(), 0x10_1000);
    assert!(describe(map.virt_to_mapping(&mem, 0x40_0000)).is_none());
    assert!(map.map_page(&mut mem, &mut alloc, 0x40_0000, 0x7000, Perms::wo()).is_ok());
    assert_eq!(
        describe(map.virt_to_mapping(&mem, 0x40_0123)),
        Some((1, 0x8000_0000_0000_7003, 0x7123))
    );
    assert!(describe(map.virt_to_mapping(&mem, 0x40_1000)).is_none());
    // The neighbouring page reuses the tables; the three pages taken up
    // front for tables that already exist are not handed out again.
    assert!(map.map_page(&mut mem, &mut alloc, 0x40_1000, 0x8000, Perms::wx()).is_ok());
    assert_eq!(describe(map.virt_to_mapping(&mem, 0x40_1fff)), Some((1, 0x8003, 0x8fff)));
    assert_eq!(describe(map.virt_to_mapping(&mem, 0x40_0000)), Some((1, 0x8000_0000_0000_7003, 0x7000)));
    assert_eq!(alloc.get_page(), 0x10_8000);
}

#[test]
fn mapping_a_mapped_page_fails() {
    let mut alloc = allocator(0x10_0000, 64);
    let mut mem = PhysMem::new();
    let mut map = PageMap::new(&mut alloc, &mut mem);
    assert!(map.map_page(&mut mem, &mut alloc, 0x40_0000, 0x7000, Perms::wo()).is_ok());
    let r = map.map_page(&mut mem, &mut alloc, 0x40_0000, 0x9000, Perms::wx());
    assert!(matches!(r, Err(Error::AddrAlreadyMapped(0x40_0000))));
    assert_eq!(describe(map.virt_to_mapping(&mem, 0x40_0000)), Some((1, 0x8000_0000_0000_7003, 0x7000)));
}

#[test]
fn exhausted_allocator_leaves_a_null_table_reference() {
    let mut alloc = allocator(0x10_0000, 2);
    let mut mem = PhysMem::new();
    let mut map = PageMap::new(&mut alloc, &mut mem);
    let r = map.map_page(&mut mem, &mut alloc, 0x40_0000, 0x7000, Perms::wo());
    assert!(matches!(r, Err(Error::TableReferencesNull)));
    assert!(describe(map.virt_to_mapping(&mem, 0x40_0000)).is_none());
    let again = map.map_page(&mut mem, &mut alloc, 0x40_0000, 0x7000, Perms::wo());
    assert!(matches!(again, Err(Error::TableReferencesNull)));
}

/// Tables at 0x1000 (PML4), 0x2000 (PDPT) and 0x3000 (PD), with a 2 MiB page
/// at 0x60_0000 for linear 0x40_0000, a 1 GiB page at 0x8000_0000 for linear
/// 0x4000_0000, and a page table at 0x4000 mapping linear 0x20_0000 to 0x9000.
fn firmware_tables(mem: &mut PhysMem) {
    mem.write(0x1000, 0, 0x2003);
    mem.write(0x2000, 0, 0x3003);
    mem.write(0x2000, 1, 0x8000_0083);
    mem.write(0x3000, 2, 0x60_0083);
    mem.write(0x3000, 1, 0x4003);
    mem.write(0x4000, 0, 0x9003);
}

#[test]
fn walk_through_huge_pages() {
    let mut mem = PhysMem::new();
    firmware_tables(&mut mem);
    let map = PageMap::from_table(0x1000);
    assert_eq!(describe(map.virt_to_mapping(&mem, 0x40_1234)), Some((2, 0x60_0083, 0x60_1234)));
    assert_eq!(describe(map.virt_to_mapping(&mem, 0x4012_3456)), Some((3, 0x8000_0083, 0x8012_3456)));
    assert_eq!(describe(map.virt_to_mapping(&mem, 0x20_0010)), Some((1, 0x9003, 0x9010)));
    assert!(describe(map.virt_to_mapping(&mem, 0x20_1000)).is_none());
    assert!(describe(map.virt_to_mapping(&mem, 0x80_0000_0000)).is_none());
}

#[test]
fn mapping_inside_a_huge_page_fails() {
    let mut mem = PhysMem::new();
    firmware_tables(&mut mem);
    let mut alloc = allocator(0x10_0000, 16);
    let mut map = PageMap::from_table(0x1000);
    let r = map.map_page(&mut mem, &mut alloc, 0x40_3000, 0x7000, Perms::wo());
    assert!(matches!(r, Err(Error::AddrAlreadyMapped(0x40_3000))));
    let r = map.map_page(&mut mem, &mut alloc, 0x4000_0000, 0x7000, Perms::wo());
    assert!(matches!(r, Err(Error::AddrAlreadyMapped(0x4000_0000))));
}

#[test]
fn duplicate_translates_as_the_original() {
    let mut mem = PhysMem::new();
    firmware_tables(&mut mem);
    let mut alloc = allocator(0x10_0000, 64);
    let map = PageMap::from_table(0x1000);
    let copy = map.duplicate(&mut mem, &mut alloc);
    assert_ne!(copy.base_addr(), map.base_addr());
    // One page for each of the four source tables.
    assert_eq!(alloc.get_page(), 0x10_5000);
    for a in [0x40_1234usize, 0x4012_3456, 0x20_0010, 0x20_1000, 0x0, 0x80_0000_0000, 0x7f_ffff_f000] {
        assert_eq!(describe(copy.virt_to_mapping(&mem, a)), describe(map.virt_to_mapping(&mem, a)));
    }
    // The copy is independent of the source.
    let mut copy = copy;
    assert!(copy.map_page(&mut mem, &mut alloc, 0x20_1000, 0xa000, Perms::wo()).is_ok());
    assert!(describe(map.virt_to_mapping(&mem, 0x20_1000)).is_none());
    assert_eq!(describe(copy.virt_to_mapping(&mem, 0x20_1000)), Some((1, 0x8000_0000_0000_a003, 0xa000)));
}

#[test]
fn direct_map_region_maps_each_page() {
    let mut alloc = allocator(0x10_0000, 64);
    let mut mem = PhysMem::new();
    let mut map = PageMap::new(&mut alloc, &mut mem);
    let offset = KERNEL_OFFSET as usize;
    let r = direct_map_region(&mut alloc, &mut map, &mut mem, offset, MemoryRegion::new(0x20_0000, 3), Perms::wx());
    let nr = r.unwrap();
    assert_eq!(nr.base, offset);
    assert_eq!(nr.npages, 3);
    assert_eq!(describe(map.virt_to_mapping(&mem, offset + 0x1005)), Some((1, 0x20_1003, 0x20_1005)));
    assert_eq!(describe(map.virt_to_mapping(&mem, offset + 0x2000)), Some((1, 0x20_2003, 0x20_2000)));
    assert!(describe(map.virt_to_mapping(&mem, offset + 0x3000)).is_none());
    let again = direct_map_region(&mut alloc, &mut map, &mut mem, offset, MemoryRegion::new(0x20_0000, 3), Perms::wx());
    assert!(matches!(again, Err(Error::AddrAlreadyMapped(a)) if a == offset));
}

#[test]
fn stack_is_mapped_above_the_kernel() {
    let mut alloc = allocator(0x10_0000, 64);
    let mut mem = PhysMem::new();
    let mut map = PageMap::new(&mut alloc, &mut mem);
    let offset = KERNEL_OFFSET as usize;
    let kr = direct_map_region(&mut alloc, &mut map, &mut mem, offset, MemoryRegion::new(0x20_0000, 2), Perms::wx())
        .unwrap();
    let mut hh = MappedHigherHalf { kernel_region: kr, map };
    let top = create_stack(&mut hh, &mut alloc, &mut mem, 2).unwrap();
    assert_eq!(top, offset + 4 * 0x1000);
    for page in [offset + 0x2000, offset + 0x3000] {
        let (kind, bits, pa) = describe(hh.map.virt_to_mapping(&mem, page)).unwrap();
        assert_eq!(kind, 1);
        assert_eq!(bits & 0x8000_0000_0000_0003, 0x8000_0000_0000_0003);
        assert_eq!(pa, (bits & 0x000f_ffff_ffff_f000) as usize);
        assert!(pa >= 0x10_0000 && pa < 0x10_0000 + 64 * 0x1000);
    }
    assert!(describe(hh.map.virt_to_mapping(&mem, offset + 0x4000)).is_none());
    assert_eq!(hh.kernel_region.npages, 2);
}

#[test]
fn higher_half_map_copies_the_firmware_map() {
    let mut mem = PhysMem::new();
    firmware_tables(&mut mem);
    let mut alloc = allocator(0x10_0000, 64);
    let cr3 = Cr3::from_bits(0x1018);
    assert_eq!(cr3.pbdr(), 0x1000);
    let kernel = MemoryRegion::new(0x20_0000, 2);
    let (hh, ncr3) = match map_higher_half_kernel(&mut alloc, &mut mem, cr3, 0, kernel) {
        Ok(r) => r,
        Err(_) => panic!("mapping the kernel failed"),
    };
    assert_eq!(hh.kernel_region.base, KERNEL_OFFSET as usize);
    assert_eq!(hh.kernel_region.npages, 2);
    assert_eq!(ncr3.pbdr(), hh.map.base_addr());
    assert_eq!(ncr3.0 & 0xfff, 0x18);
    let firmware = PageMap::from_table(0x1000);
    for a in [0x40_1234usize, 0x4012_3456, 0x20_0010] {
        assert_eq!(describe(hh.map.virt_to_mapping(&mem, a)), describe(firmware.virt_to_mapping(&mem, a)));
    }
    let k = KERNEL_OFFSET as usize;
    assert_eq!(describe(hh.map.virt_to_mapping(&mem, k + 0x1abc)), Some((1, 0x20_1003, 0x20_1abc)));
    assert!(describe(firmware.virt_to_mapping(&mem, k)).is_none());
}

#[test]
fn cr3_keeps_its_flags() {
    let cr3 = Cr3::from_bits(0x5008).with_pbdr(0x9000);
    assert_eq!(cr3.into_bits(), 0x9008);
}

#[test]
fn child_tables_follow_the_links() {
    let mut mem = PhysMem::new();
    firmware_tables(&mut mem);
    assert_eq!(child_tables(&mem, 4, 0x1000), vec![0x2000]);
    // The 1 GiB page links no table.
    assert_eq!(child_tables(&mem, 3, 0x2000), vec![0x3000]);
    // The 2 MiB page links no table either.
    assert_eq!(child_tables(&mem, 2, 0x3000), vec![0x4000]);
    // A page table's entries map pages.
    assert!(child_tables(&mem, 1, 0x4000).is_empty());
}

#[test]
fn duplicate_needs_a_page_per_table() {
    let mut mem = PhysMem::new();
    firmware_tables(&mut mem);
    let map = PageMap::from_table(0x1000);
    assert!(map.can_duplicate(&mem, &allocator(0x10_0000, 5)));
    assert!(!map.can_duplicate(&mem, &allocator(0x10_0000, 4)));
    // Tables inside free memory cannot be copied: the copy could overwrite them.
    assert!(!map.can_duplicate(&mem, &allocator(0x1000, 0x20)));
    assert!(!map.can_duplicate(&mem, &allocator(0x3000, 8)));
    // A link to the null address cannot be followed.
    mem.write(0x1000, 5, 0x3);
    assert!(!map.can_duplicate(&mem, &allocator(0x10_0000, 64)));
}

#[test]
fn higher_half_map_refuses_an_occupied_kernel_range() {
    let mut mem = PhysMem::new();
    firmware_tables(&mut mem);
    // The firmware already maps the first kernel page, at PML4 slot 256.
    mem.write(0x1000, 256, 0x5003);
    mem.write(0x5000, 0, 0x6003);
    mem.write(0x6000, 0, 0x7003);
    mem.write(0x7000, 0, 0x9003);
    let mut alloc = allocator(0x10_0000, 64);
    let r = map_higher_half_kernel(&mut alloc, &mut mem, Cr3::from_bits(0x1000), 0x20, MemoryRegion::new(0x20_0000, 2));
    assert!(matches!(r, Err(Error::AddrAlreadyMapped(a)) if a == KERNEL_OFFSET as usize));
    // The firmware's own tables are left as they were.
    let firmware = PageMap::from_table(0x1000);
    assert_eq!(describe(firmware.virt_to_mapping(&mem, KERNEL_OFFSET as usize)), Some((1, 0x9003, 0x9000)));
    assert_eq!(describe(firmware.virt_to_mapping(&mem, 0x40_1234)), Some((2, 0x60_0083, 0x60_1234)));
}

#[test]
fn new_links_are_present_and_writable_only() {
    let mut alloc = allocator(0x10_0000, 64);
    let mut mem = PhysMem::new();
    let mut map = PageMap::new(&mut alloc, &mut mem);
    assert!(map.map_page(&mut mem, &mut alloc, 0x40_0000, 0x7000, Perms::wo()).is_ok());
    // PML4 slot 0 links the PDPT at 0x102000, which links the PD at 0x103000,
    // which links the page table at 0x104000.
    assert_eq!(mem.read(0x10_1000, 0), 0x10_2003);
    assert_eq!(mem.read(0x10_2000, 0), 0x10_3003);
    assert_eq!(mem.read(0x10_3000, 2), 0x10_4003);
    assert_eq!(mem.read(0x10_4000, 0), 0x8000_0000_0000_7003);
    // Nothing else was written into the page table.
    assert_eq!(mem.read(0x10_4000, 1), 0);
    assert_eq!(mem.read(0x10_3000, 1), 0);
}

#[test]
fn mapping_through_a_shared_page_table_maps_every_alias() {
    // Two page-directory entries share the page table at 0x4000.
    let mut mem = PhysMem::new();
    mem.write(0x1000, 0, 0x2003);
    mem.write(0x2000, 0, 0x3003);
    mem.write(0x3000, 0, 0x4003);
    mem.write(0x3000, 1, 0x4003);
    let mut alloc = allocator(0x10_0000, 16);
    let mut map = PageMap::from_table(0x1000);
    assert!(map.map_page(&mut mem, &mut alloc, 0x5000, 0x9000, Perms::wo()).is_ok());
    assert_eq!(describe(map.virt_to_mapping(&mem, 0x5000)), Some((1, 0x8000_0000_0000_9003, 0x9000)));
    assert_eq!(describe(map.virt_to_mapping(&mem, 0x20_5010)), Some((1, 0x8000_0000_0000_9003, 0x9010)));
    assert!(describe(map.virt_to_mapping(&mem, 0x6000)).is_none());
    // Hence the second page of a region across both directory entries is already mapped.
    let r = direct_map_region(&mut alloc, &mut map, &mut mem, 0x20_5000, MemoryRegion::new(0xa000, 1), Perms::wo());
    assert!(matches!(r, Err(Error::AddrAlreadyMapped(0x20_5000))));
}

#[test]
fn direct_map_region_stops_at_the_first_mapped_page() {
    let mut alloc = allocator(0x10_0000, 64);
    let mut mem = PhysMem::new();
    let mut map = PageMap::new(&mut alloc, &mut mem);
    assert!(map.map_page(&mut mem, &mut alloc, 0x40_2000, 0x7000, Perms::wo()).is_ok());
    let r = direct_map_region(&mut alloc, &mut map, &mut mem, 0x40_0000, MemoryRegion::new(0x20_0000, 4), Perms::wx());
    assert!(matches!(r, Err(Error::AddrAlreadyMapped(0x40_2000))));
    // The pages before it are mapped, the mapped one is kept, the one after is not mapped.
    assert_eq!(describe(map.virt_to_mapping(&mem, 0x40_0000)), Some((1, 0x20_0003, 0x20_0000)));
    assert_eq!(describe(map.virt_to_mapping(&mem, 0x40_1000)), Some((1, 0x20_1003, 0x20_1000)));
    assert_eq!(describe(map.virt_to_mapping(&mem, 0x40_2000)), Some((1, 0x8000_0000_0000_7003, 0x7000)));
    assert!(describe(map.virt_to_mapping(&mem, 0x40_3000)).is_none());
}

#[test]
fn duplicate_copies_directory_flags() {
    let mut mem = PhysMem::new();
    firmware_tables(&mut mem);
    // A PD entry with the user and execute-disable bits set.
    mem.write(0x3000, 1, 0x8000_0000_0000_4007);
    let mut alloc = allocator(0x10_0000, 64);
    let copy = PageMap::from_table(0x1000).duplicate(&mut mem, &mut alloc);
    let pdpt = mem.read(copy.base_addr(), 0) & 0x000f_ffff_ffff_f000;
    let pd = mem.read(pdpt as usize, 0) & 0x000f_ffff_ffff_f000;
    let e = mem.read(pd as usize, 1);
    assert_eq!(e & !0x000f_ffff_ffff_f000, 0x8000_0000_0000_0007);
    assert_ne!(e & 0x000f_ffff_ffff_f000, 0x4000);
    assert_eq!(mem.read(pd as usize, 2), 0x60_0083);
}

#[test]
fn error_messages() {
    assert_eq!(Error::AddrAlreadyMapped(4096).message(), "4096 is already mapped.");
    assert_eq!(Error::AddrAlreadyMapped(0).message(), "0 is already mapped.");
    assert_eq!(Error::TableReferencesNull.message(), "table entry references null ptr.");
}

#[test]
fn refused_mapping_keeps_every_table_entry() {
    let mut alloc = allocator(0x10_0000, 64);
    let mut mem = PhysMem::new();
    let mut map = PageMap::new(&mut alloc, &mut mem);
    assert!(map.map_page(&mut mem, &mut alloc, 0x40_0000, 0x7000, Perms::wo()).is_ok());
    let mut before = Vec::new();
    for t in mem.page_addrs() {
        for i in 0..512 {
            before.push((t, i, mem.read(t, i)));
        }
    }
    let r = map.map_page(&mut mem, &mut alloc, 0x40_0000, 0x9000, Perms::wx());
    assert!(matches!(r, Err(Error::AddrAlreadyMapped(0x40_0000))));
    for (t, i, v) in before {
        assert_eq!(mem.read(t, i), v);
    }
}

#[test]
fn stack_pages_are_fresh_and_distinct() {
    let mut alloc = allocator(0x10_0000, 64);
    let mut mem = PhysMem::new();
    let mut map = PageMap::new(&mut alloc, &mut mem);
    let offset = KERNEL_OFFSET as usize;
    let kr = direct_map_region(&mut alloc, &mut map, &mut mem, offset, MemoryRegion::new(0x20_0000, 1), Perms::wx())
        .unwrap();
    let mut hh = MappedHigherHalf { kernel_region: kr, map };
    let top = create_stack(&mut hh, &mut alloc, &mut mem, 3).unwrap();
    assert_eq!(top, offset + 4 * 0x1000);
    let mut frames = Vec::new();
    for k in 1..4 {
        let (kind, bits, pa) = describe(hh.map.virt_to_mapping(&mem, offset + k * 0x1000)).unwrap();
        assert_eq!(kind, 1);
        assert_eq!(bits, 0x8000_0000_0000_0003 | pa as u64);
        assert!(pa != 0 && pa >= 0x10_0000 && pa < 0x10_0000 + 64 * 0x1000);
        assert!(!frames.contains(&pa));
        frames.push(pa);
    }
    // The allocator never hands those pages out again.
    loop {
        let p = alloc.get_page();
        if p == 0 {
            break;
        }
        assert!(!frames.contains(&p));
    }
}

#[test]
fn stack_with_too_few_pages_fails() {
    let mut alloc = allocator(0x10_0000, 4);
    let mut mem = PhysMem::new();
    let map = PageMap::new(&mut alloc, &mut mem);
    let mut hh = MappedHigherHalf { kernel_region: MemoryRegion::new(KERNEL_OFFSET as usize, 0), map };
    let r = create_stack(&mut hh, &mut alloc, &mut mem, 1);
    assert!(matches!(r, Err(Error::TableReferencesNull)));
}

#[test]
fn higher_half_map_leaves_other_addresses_unmapped() {
    let mut mem = PhysMem::new();
    firmware_tables(&mut mem);
    let mut alloc = allocator(0x10_0000, 64);
    let (hh, _) = match map_higher_half_kernel(&mut alloc, &mut mem, Cr3::from_bits(0x1000), 0, MemoryRegion::new(0x20_0000, 2)) {
        Ok(r) => r,
        Err(_) => panic!("mapping the kernel failed"),
    };
    let firmware = PageMap::from_table(0x1000);
    let k = KERNEL_OFFSET as usize;
    for a in [0x60_0000usize, 0x20_1000, 0x8000_0000, 0x80_0000_0000, k + 0x2000, k + 0x4000_0000] {
        assert!(describe(firmware.virt_to_mapping(&mem, a)).is_none());
        assert!(describe(hh.map.virt_to_mapping(&mem, a)).is_none());
    }
}

#[test]
fn higher_half_copy_does_not_share_tables() {
    // The firmware's page directory links the page table at 0x4000 twice.
    let mut mem = PhysMem::new();
    mem.write(0x1000, 0, 0x2003);
    mem.write(0x2000, 0, 0x3003);
    mem.write(0x3000, 0, 0x4003);
    mem.write(0x3000, 1, 0x4003);
    mem.write(0x4000, 5, 0x9003);
    let mut alloc = allocator(0x10_0000, 64);
    let (mut hh, _) = match map_higher_half_kernel(&mut alloc, &mut mem, Cr3::from_bits(0x1000), 0, MemoryRegion::new(0x20_0000, 1)) {
        Ok(r) => r,
        Err(_) => panic!("mapping the kernel failed"),
    };
    assert_eq!(describe(hh.map.virt_to_mapping(&mem, 0x5000)), Some((1, 0x9003, 0x9000)));
    assert_eq!(describe(hh.map.virt_to_mapping(&mem, 0x20_5000)), Some((1, 0x9003, 0x9000)));
    // In the copy each directory entry has a page table of its own.
    assert!(hh.map.map_page(&mut mem, &mut alloc, 0x6000, 0xa000, Perms::wo()).is_ok());
    assert_eq!(describe(hh.map.virt_to_mapping(&mem, 0x6000)), Some((1, 0x8000_0000_0000_a003, 0xa000)));
    assert!(describe(hh.map.virt_to_mapping(&mem, 0x20_6000)).is_none());
    let firmware = PageMap::from_table(0x1000);
    assert!(describe(firmware.virt_to_mapping(&mem, 0x6000)).is_none());
}
