use uefi_kernel::arch::gdt::{flat, Gdt, GdtDescriptor, SegmentDescriptor, Tss, TssDescriptor, GDT_SIZE, TSS_SIZE};
use uefi_kernel::arch::idt::{
    idt_table, interrupt_gate, GateDescriptor, Idtr, IDT_ENTRIES, INVALID_OPCODE_VECTOR, PAGE_FAULT_VECTOR,
};
use uefi_kernel::arch::SegmentSelector;

#[test]
fn selector_fields() {
    let s = SegmentSelector::new().with_index(1).with_rpl(3).with_ti(true);
    assert_eq!(s.into_bits(), 0xf);
    assert_eq!(s.rpl(), 3);
    assert!(s.ti());
    assert_eq!(s.index(), 1);
    let t = s.with_ti(false).with_rpl(0).with_index(0x1fff);
    assert_eq!(t.0, 0xfff8);
    assert_eq!(SegmentSelector::from_bits(0x2b).index(), 5);
}

#[test]
fn segment_descriptor_base_and_limit() {
    let d = SegmentDescriptor::new().with_base(0x1234_5678).with_limit(0xabcde);
    assert_eq!(d.into_bits(), 0x120a_0034_5678_bcde);
    let e = d.with_access_byte(0x9a).with_flags(0xc);
    assert_eq!(e.0, 0x12ca_9a34_5678_bcde);
    assert_eq!(e.with_limit(0xfff_ffff).0, 0x12cf_9a34_5678_ffff);
    assert_eq!(SegmentDescriptor::from_bits(7).0, 7);
}

#[test]
fn flat_segments_of_the_gdt() {
    assert_eq!(flat(0x92, 0xc).0, 0x00cf_9200_0000_ffff);
    let g = Gdt::new();
    assert_eq!(g.null.0, 0x000f_0000_0000_ffff);
    assert_eq!(g.kernel_code.0, 0x00af_9a00_0000_ffff);
    assert_eq!(g.kernel_data.0, 0x00cf_9200_0000_ffff);
    assert_eq!(g.user_code.0, 0x00cf_f200_0000_ffff);
    assert_eq!(g.user_data.0, 0x00af_fa00_0000_ffff);
    assert_eq!(g.tss.high.0, 0);
    assert_eq!(g.tss.base_hi, 0);
}

#[test]
fn tss_descriptor_of_the_gdt() {
    let g = Gdt::new().with_tss(0x1234_5678_9abc_def0);
    assert_eq!(g.tss.high.0, 0x9a00_89bc_def0_0067);
    assert_eq!(g.tss.base_hi, 0x1234_5678);
    assert_eq!(g.tss.reserved, 0);
    assert_eq!(g.kernel_code.0, 0x00af_9a00_0000_ffff);
    let t = TssDescriptor::new().with_base(0xffff_8000_0001_2000).with_limit(0x67).with_access_byte(0x89).with_flags(0);
    assert_eq!(t.high.0, 0x0000_8901_2000_0067);
    assert_eq!(t.base_hi, 0xffff_8000);
}

#[test]
fn tss_and_table_sizes() {
    let tss = Tss::new();
    assert_eq!(tss.io_map_base as usize, TSS_SIZE);
    assert_eq!(tss.rsp0, 0);
    assert_eq!(tss.ist1, 0);
    assert_eq!(TSS_SIZE, 104);
    assert_eq!(GDT_SIZE, 56);
    let d = GdtDescriptor::new(0xdead_b000);
    assert_eq!(d.limit, 55);
    assert_eq!(d.offset, 0xdead_b000);
    let i = Idtr::new(0x8000);
    assert_eq!(i.limit as usize, IDT_ENTRIES * 16 - 1);
    assert_eq!(i.offset, 0x8000);
}

#[test]
fn gate_descriptor_fields() {
    let g = GateDescriptor::new().with_offset(0x1122_3344_5566_7788);
    assert_eq!(g.0, 0x0000_0000_1122_3344_5566_0000_0000_7788);
    let g = g.with_present(true).with_gate_type(0xf).with_dpl(3).with_ist(2);
    assert_eq!(g.into_bits(), 0x0000_0000_1122_3344_5566_ef40_0000_7788);
    let s = GateDescriptor::new().with_segment_selector(SegmentSelector::from_bits(0x10));
    assert_eq!(s.0, 0x10_0000);
}

#[test]
fn interrupt_gate_bits() {
    let g = interrupt_gate(0x1122_3344_5566_7788);
    assert_eq!(g.0, 0x0000_0000_1122_3344_5566_8e00_0008_7788);
}

#[test]
fn idt_has_the_two_handlers() {
    let idt = idt_table(0x1000, 0x2000);
    assert_eq!(idt.len(), IDT_ENTRIES);
    assert_eq!(idt[INVALID_OPCODE_VECTOR].0, interrupt_gate(0x1000).0);
    assert_eq!(idt[PAGE_FAULT_VECTOR].0, interrupt_gate(0x2000).0);
    assert_eq!(idt[INVALID_OPCODE_VECTOR].0, 0x0000_8e00_0008_1000);
    for (i, g) in idt.iter().enumerate() {
        if i != INVALID_OPCODE_VECTOR && i != PAGE_FAULT_VECTOR {
            assert_eq!(g.0, 0);
        }
    }
}
