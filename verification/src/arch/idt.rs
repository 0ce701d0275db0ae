use crate::arch::SegmentSelector;
use vstd::prelude::*;

verus! {

/// The bits of `g` at `off` under `mask`.
pub open spec fn field128(g: u128, off: u128, mask: u128) -> u128 {
    (g >> off) & mask
}

/// `g` with the field at `off` under `mask` set to `v`.
pub open spec fn set_field128(g: u128, off: u128, mask: u128, v: u128) -> u128 {
    (g & !(mask << off)) | ((v & mask) << off)
}

/// The 64-bit handler address spread over a gate descriptor.
pub open spec fn gd_offset(g: u128) -> u128 {
    field128(g, 0, 0xffff) | (field128(g, 48, 0xffff) << 16u128) | (field128(g, 64, 0xffff_ffff) << 32u128)
}

/// An IDT gate descriptor.
#[derive(Debug, Clone, Copy)]
pub struct GateDescriptor(pub u128);

impl GateDescriptor {
    /// The all-zero, not present gate.
    pub fn new() -> (r: Self)
        ensures
            r.0 == 0,
    {
        Self(0)
    }

    pub fn into_bits(self) -> (bits: u128)
        ensures
            bits == self.0,
    {
        self.0
    }

    pub fn with_offset_lo(self, v: u16) -> (r: Self)
        ensures
            r.0 == set_field128(self.0, 0, 0xffff, v as u128),
    {
        Self((self.0 & !(0xffffu128 << 0u128)) | (((v as u128) & 0xffff) << 0u128))
    }

    pub fn with_offset_mid(self, v: u16) -> (r: Self)
        ensures
            r.0 == set_field128(self.0, 48, 0xffff, v as u128),
    {
        Self((self.0 & !(0xffffu128 << 48u128)) | (((v as u128) & 0xffff) << 48u128))
    }

    pub fn with_offset_hi(self, v: u32) -> (r: Self)
        ensures
            r.0 == set_field128(self.0, 64, 0xffff_ffff, v as u128),
    {
        Self((self.0 & !(0xffff_ffffu128 << 64u128)) | (((v as u128) & 0xffff_ffff) << 64u128))
    }

    pub fn with_segment_selector(self, s: SegmentSelector) -> (r: Self)
        ensures
            r.0 == set_field128(self.0, 16, 0xffff, s.0 as u128),
    {
        Self((self.0 & !(0xffffu128 << 16u128)) | (((s.into_bits() as u128) & 0xffff) << 16u128))
    }

    pub fn with_ist(self, v: usize) -> (r: Self)
        requires
            v <= 7,
        ensures
            r.0 == set_field128(self.0, 37, 7, v as u128),
    {
        Self((self.0 & !(7u128 << 37u128)) | (((v as u128) & 7) << 37u128))
    }

    pub fn with_gate_type(self, v: usize) -> (r: Self)
        requires
            v <= 0xf,
        ensures
            r.0 == set_field128(self.0, 40, 0xf, v as u128),
    {
        Self((self.0 & !(0xfu128 << 40u128)) | (((v as u128) & 0xf) << 40u128))
    }

    pub fn with_dpl(self, v: usize) -> (r: Self)
        requires
            v <= 3,
        ensures
            r.0 == set_field128(self.0, 45, 3, v as u128),
    {
        Self((self.0 & !(3u128 << 45u128)) | (((v as u128) & 3) << 45u128))
    }

    pub fn with_present(self, on: bool) -> (r: Self)
        ensures
            r.0 == set_field128(self.0, 47, 1, if on { 1u128 } else { 0u128 }),
    {
        let v: u128 = if on { 1 } else { 0 };
        Self((self.0 & !(1u128 << 47u128)) | ((v & 1) << 47u128))
    }

    /// Sets the three parts of the handler address; selector, type and flags stay as they are.
    pub fn with_offset(self, offset: u64) -> (r: Self)
        ensures
            gd_offset(r.0) == offset as u128,
            field128(r.0, 16, 0xffff) == field128(self.0, 16, 0xffff),
            field128(r.0, 32, 0xffff) == field128(self.0, 32, 0xffff),
            field128(r.0, 96, 0xffff_ffff) == field128(self.0, 96, 0xffff_ffff),
    {
        proof {
            lemma_offset_parts(self.0, offset);
        }
        self.with_offset_lo((offset & 0xffff) as u16).with_offset_mid(
            ((offset & 0xffff0000) >> 16u64) as u16,
        ).with_offset_hi(((offset & 0xffffffff00000000) >> 32u64) as u32)
    }
}

/// Setting the three offset fields from a 64-bit address spells it out and keeps the other fields.
pub proof fn lemma_offset_parts(g: u128, o: u64)
    by (bit_vector)
    ensures
        o & 0xffff <= 0xffff,
        (o & 0xffff0000) >> 16u64 <= 0xffff,
        (o & 0xffffffff00000000) >> 32u64 <= 0xffff_ffff,
        ({
            let r = set_field128(
                set_field128(
                    set_field128(g, 0, 0xffff, ((o & 0xffff) as u16) as u128),
                    48,
                    0xffff,
                    (((o & 0xffff0000) >> 16u64) as u16) as u128,
                ),
                64,
                0xffff_ffff,
                (((o & 0xffffffff00000000) >> 32u64) as u32) as u128,
            );
            &&& gd_offset(r) == o as u128
            &&& field128(r, 16, 0xffff) == field128(g, 16, 0xffff)
            &&& field128(r, 32, 0xffff) == field128(g, 32, 0xffff)
            &&& field128(r, 96, 0xffff_ffff) == field128(g, 96, 0xffff_ffff)
        }),
{
}

/// The fields of a gate built from zero by setting its selector, presence and type.
pub proof fn lemma_gate_fields(g: u128, sel: u16)
    by (bit_vector)
    ensures
        ({
            let r = set_field128(
                set_field128(set_field128(g, 16, 0xffff, sel as u128), 47, 1, 1u128),
                40,
                0xf,
                0xe,
            );
            &&& gd_offset(r) == gd_offset(g)
            &&& field128(r, 16, 0xffff) == sel as u128
            &&& field128(r, 47, 1) == 1
            &&& field128(r, 40, 0xf) == 0xe
            &&& field128(r, 45, 3) == field128(g, 45, 3)
            &&& field128(r, 37, 7) == field128(g, 37, 7)
            &&& field128(r, 32, 0x1f) == field128(g, 32, 0x1f)
            &&& field128(r, 44, 1) == field128(g, 44, 1)
            &&& field128(r, 96, 0xffff_ffff) == field128(g, 96, 0xffff_ffff)
        }),
        field128(g, 32, 0xffff) == 0 ==> field128(g, 45, 3) == 0 && field128(g, 37, 7) == 0 && field128(g, 32, 0x1f)
            == 0 && field128(g, 44, 1) == 0,
        field128(0, 16, 0xffff) == 0 && field128(0, 32, 0xffff) == 0,
        field128(0, 96, 0xffff_ffff) == 0,
{
}

/// The kernel code segment selector: GDT entry 1, privilege level 0.
pub open spec fn kernel_code_selector() -> u16 {
    8
}

/// `g` is a present 64-bit interrupt gate (type 0xE) for the handler at
/// `handler`, running in the kernel code segment, callable from privilege
/// level 0 only, on the current stack, with every reserved bit clear.
pub open spec fn is_interrupt_gate(g: u128, handler: u64) -> bool {
    &&& gd_offset(g) == handler as u128
    &&& field128(g, 16, 0xffff) == kernel_code_selector() as u128
    &&& field128(g, 47, 1) == 1
    &&& field128(g, 40, 0xf) == 0xe
    &&& field128(g, 45, 3) == 0
    &&& field128(g, 37, 7) == 0
    &&& field128(g, 32, 0x1f) == 0
    &&& field128(g, 44, 1) == 0
    &&& field128(g, 96, 0xffff_ffff) == 0
}

/// A present 64-bit interrupt gate for the handler at `handler` that runs in
/// the kernel code segment at privilege level 0 on the current stack.
pub fn interrupt_gate(handler: u64) -> (r: GateDescriptor)
    ensures
        is_interrupt_gate(r.0, handler),
{
    let sel = SegmentSelector::new().with_index(1).with_rpl(0).with_ti(false);
    proof {
        crate::arch::lemma_selector_fields(0, 0, 1);
        assert(sel.0 == 8);
    }
    let g0 = GateDescriptor::new().with_offset(handler);
    proof {
        lemma_gate_fields(g0.0, sel.0);
        lemma_offset_parts(0, handler);
    }
    g0.with_segment_selector(sel).with_present(true).with_gate_type(0xE)
}

/// Vector of the invalid-opcode exception.
pub const INVALID_OPCODE_VECTOR: usize = 6;

/// Vector of the page-fault exception.
pub const PAGE_FAULT_VECTOR: usize = 14;

/// Number of gates in the IDT.
pub const IDT_ENTRIES: usize = 256;

/// The kernel's IDT: interrupt gates for the invalid-opcode and page-fault
/// handlers, every other gate not present.
pub fn idt_table(invalid_opcode: u64, page_fault: u64) -> (idt: Vec<GateDescriptor>)
    ensures
        idt@.len() == IDT_ENTRIES,
        is_interrupt_gate(idt@[INVALID_OPCODE_VECTOR as int].0, invalid_opcode),
        is_interrupt_gate(idt@[PAGE_FAULT_VECTOR as int].0, page_fault),
        forall|i: int|
            0 <= i < IDT_ENTRIES && i != INVALID_OPCODE_VECTOR && i != PAGE_FAULT_VECTOR ==> (
            #[trigger] idt@[i]).0 == 0,
{
    let mut idt: Vec<GateDescriptor> = Vec::new();
    let mut i: usize = 0;
    while i < IDT_ENTRIES
        invariant
            0 <= i <= IDT_ENTRIES,
            idt@.len() == i,
            forall|j: int| 0 <= j < i ==> (#[trigger] idt@[j]).0 == 0,
        decreases IDT_ENTRIES - i,
    {
        idt.push(GateDescriptor::new());
        i += 1;
    }
    idt.set(INVALID_OPCODE_VECTOR, interrupt_gate(invalid_opcode));
    idt.set(PAGE_FAULT_VECTOR, interrupt_gate(page_fault));
    idt
}

/// The operand of `lidt`: the table's size minus one and its address.
#[derive(Debug, Clone, Copy)]
pub struct Idtr {
    pub limit: u16,
    pub offset: u64,
}

impl Idtr {
    /// The descriptor of an IDT of `IDT_ENTRIES` 16-byte gates at `offset`.
    pub fn new(offset: u64) -> (r: Self)
        ensures
            r.limit == IDT_ENTRIES * 16 - 1,
            r.offset == offset,
    {
        Idtr { limit: (IDT_ENTRIES * 16 - 1) as u16, offset }
    }
}

} // verus!
