use vstd::prelude::*;

verus! {

/// The bits of `d` at `off` under `mask`.
pub open spec fn field64(d: u64, off: u64, mask: u64) -> u64 {
    (d >> off) & mask
}

/// `d` with the field at `off` under `mask` set to `v`.
pub open spec fn set_field64(d: u64, off: u64, mask: u64, v: u64) -> u64 {
    (d & !(mask << off)) | ((v & mask) << off)
}

/// The 32-bit base address spread over a segment descriptor.
pub open spec fn sd_base(d: u64) -> u64 {
    field64(d, 16, 0xffff) | (field64(d, 32, 0xff) << 16u64) | (field64(d, 56, 0xff) << 24u64)
}

/// The 20-bit limit spread over a segment descriptor.
pub open spec fn sd_limit(d: u64) -> u64 {
    field64(d, 0, 0xffff) | (field64(d, 48, 0xf) << 16u64)
}

/// The access byte of a segment descriptor.
pub open spec fn sd_access(d: u64) -> u64 {
    field64(d, 40, 0xff)
}

/// The flags nibble of a segment descriptor.
pub open spec fn sd_flags(d: u64) -> u64 {
    field64(d, 52, 0xf)
}

/// A GDT segment descriptor.
#[derive(Debug, Clone, Copy)]
pub struct SegmentDescriptor(pub u64);

impl SegmentDescriptor {
    /// The all-zero descriptor.
    pub fn new() -> (r: Self)
        ensures
            r.0 == 0,
    {
        Self(0)
    }

    pub fn from_bits(bits: u64) -> (r: Self)
        ensures
            r.0 == bits,
    {
        Self(bits)
    }

    pub fn into_bits(self) -> (bits: u64)
        ensures
            bits == self.0,
    {
        self.0
    }

    pub fn with_limit_lo(self, v: u16) -> (r: Self)
        ensures
            r.0 == set_field64(self.0, 0, 0xffff, v as u64),
    {
        Self((self.0 & !(0xffffu64 << 0u64)) | (((v as u64) & 0xffff) << 0u64))
    }

    pub fn with_base_lo(self, v: u16) -> (r: Self)
        ensures
            r.0 == set_field64(self.0, 16, 0xffff, v as u64),
    {
        Self((self.0 & !(0xffffu64 << 16u64)) | (((v as u64) & 0xffff) << 16u64))
    }

    pub fn with_base_hi_lo(self, v: u8) -> (r: Self)
        ensures
            r.0 == set_field64(self.0, 32, 0xff, v as u64),
    {
        Self((self.0 & !(0xffu64 << 32u64)) | (((v as u64) & 0xff) << 32u64))
    }

    pub fn with_access_byte(self, v: u8) -> (r: Self)
        ensures
            r.0 == set_field64(self.0, 40, 0xff, v as u64),
    {
        Self((self.0 & !(0xffu64 << 40u64)) | (((v as u64) & 0xff) << 40u64))
    }

    pub fn with_limit_hi(self, v: usize) -> (r: Self)
        requires
            v <= 0xf,
        ensures
            r.0 == set_field64(self.0, 48, 0xf, v as u64),
    {
        Self((self.0 & !(0xfu64 << 48u64)) | (((v as u64) & 0xf) << 48u64))
    }

    pub fn with_flags(self, v: usize) -> (r: Self)
        requires
            v <= 0xf,
        ensures
            r.0 == set_field64(self.0, 52, 0xf, v as u64),
    {
        Self((self.0 & !(0xfu64 << 52u64)) | (((v as u64) & 0xf) << 52u64))
    }

    pub fn with_base_hi_hi(self, v: u8) -> (r: Self)
        ensures
            r.0 == set_field64(self.0, 56, 0xff, v as u64),
    {
        Self((self.0 & !(0xffu64 << 56u64)) | (((v as u64) & 0xff) << 56u64))
    }

    /// The descriptor with its base address set to `base`; the limit, access
    /// byte and flags are kept.
    pub fn with_base(self, base: u32) -> (r: Self)
        ensures
            sd_base(r.0) == base as u64,
            sd_limit(r.0) == sd_limit(self.0),
            sd_access(r.0) == sd_access(self.0),
            sd_flags(r.0) == sd_flags(self.0),
    {
        proof {
            lemma_u32_parts(base);
            lemma_set_base(self.0, base);
        }
        self.with_base_lo((base & 0xffff) as u16).with_base_hi_lo(((base & 0xff0000) >> 16u32) as u8)
            .with_base_hi_hi(((base & 0xff000000) >> 24u32) as u8)
    }

    /// The descriptor with its limit set to the low 20 bits of `limit`; the
    /// base, access byte and flags are kept.
    pub fn with_limit(self, limit: u32) -> (r: Self)
        ensures
            sd_limit(r.0) == (limit & 0xfffff) as u64,
            sd_base(r.0) == sd_base(self.0),
            sd_access(r.0) == sd_access(self.0),
            sd_flags(r.0) == sd_flags(self.0),
    {
        proof {
            lemma_u32_parts(limit);
            lemma_set_limit(self.0, limit);
        }
        self.with_limit_lo((limit & 0xffff) as u16).with_limit_hi(((limit & 0xf0000) >> 16u32) as usize)
    }
}

/// The pieces `with_base` and `with_limit` cut a 32-bit value into fit their fields.
pub proof fn lemma_u32_parts(b: u32)
    by (bit_vector)
    ensures
        b & 0xffff <= 0xffff,
        (b & 0xff0000) >> 16u32 <= 0xff,
        (b & 0xff000000) >> 24u32 <= 0xff,
        (b & 0xf0000) >> 16u32 <= 0xf,
{
}

/// Setting the three base fields from a 32-bit base spells out that base and keeps the other fields.
pub proof fn lemma_set_base(d: u64, b: u32)
    by (bit_vector)
    ensures
        ({
            let r = set_field64(
                set_field64(
                    set_field64(d, 16, 0xffff, ((b & 0xffff) as u16) as u64),
                    32,
                    0xff,
                    (((b & 0xff0000) >> 16u32) as u8) as u64,
                ),
                56,
                0xff,
                (((b & 0xff000000) >> 24u32) as u8) as u64,
            );
            &&& sd_base(r) == b as u64
            &&& sd_limit(r) == sd_limit(d)
            &&& sd_access(r) == sd_access(d)
            &&& sd_flags(r) == sd_flags(d)
        }),
{
}

/// Setting the two limit fields from a limit spells out its low 20 bits and keeps the other fields.
pub proof fn lemma_set_limit(d: u64, l: u32)
    by (bit_vector)
    ensures
        ({
            let r = set_field64(
                set_field64(d, 0, 0xffff, ((l & 0xffff) as u16) as u64),
                48,
                0xf,
                (((l & 0xf0000) >> 16u32) as usize) as u64,
            );
            &&& sd_limit(r) == (l & 0xfffff) as u64
            &&& sd_base(r) == sd_base(d)
            &&& sd_access(r) == sd_access(d)
            &&& sd_flags(r) == sd_flags(d)
        }),
{
}

/// Setting the access byte or the flags leaves the other fields alone.
pub proof fn lemma_set_access_flags(d: u64, a: u8, f: u64)
    by (bit_vector)
    requires
        f <= 0xf,
    ensures
        sd_access(set_field64(d, 40, 0xff, a as u64)) == a as u64,
        sd_base(set_field64(d, 40, 0xff, a as u64)) == sd_base(d),
        sd_limit(set_field64(d, 40, 0xff, a as u64)) == sd_limit(d),
        sd_flags(set_field64(d, 40, 0xff, a as u64)) == sd_flags(d),
        sd_flags(set_field64(d, 52, 0xf, f)) == f,
        sd_base(set_field64(d, 52, 0xf, f)) == sd_base(d),
        sd_limit(set_field64(d, 52, 0xf, f)) == sd_limit(d),
        sd_access(set_field64(d, 52, 0xf, f)) == sd_access(d),
        sd_base(0) == 0 && sd_limit(0) == 0 && sd_access(0) == 0 && sd_flags(0) == 0,
        0xfffffu32 & 0xfffff == 0xfffff,
        103u32 & 0xfffff == 103,
{
}

/// Setting the base fields of the low half from a 64-bit base spells out its
/// low 32 bits and keeps the other fields.
pub proof fn lemma_set_base64(d: u64, b: u64)
    by (bit_vector)
    ensures
        b & 0xffff <= 0xffff,
        (b & 0xff0000) >> 16u64 <= 0xff,
        (b & 0xff000000) >> 24u64 <= 0xff,
        (b & 0xffffffff00000000) >> 32u64 <= 0xffff_ffff,
        ({
            let r = set_field64(
                set_field64(
                    set_field64(d, 16, 0xffff, ((b & 0xffff) as u16) as u64),
                    32,
                    0xff,
                    (((b & 0xff0000) >> 16u64) as u8) as u64,
                ),
                56,
                0xff,
                (((b & 0xff000000) >> 24u64) as u8) as u64,
            );
            &&& sd_base(r) | (((((b & 0xffffffff00000000) >> 32u64) as u32) as u64) << 32u64) == b
            &&& sd_limit(r) == sd_limit(d)
            &&& sd_access(r) == sd_access(d)
            &&& sd_flags(r) == sd_flags(d)
        }),
{
}

/// The 16-byte GDT descriptor of the task-state segment: a segment descriptor
/// followed by the high half of the base address.
#[derive(Debug, Clone, Copy)]
pub struct TssDescriptor {
    pub high: SegmentDescriptor,
    pub base_hi: u32,
    pub reserved: u32,
}

/// The 64-bit base address of a TSS descriptor.
pub open spec fn tss_base(t: TssDescriptor) -> u64 {
    sd_base(t.high.0) | ((t.base_hi as u64) << 32u64)
}

impl TssDescriptor {
    /// The all-zero descriptor.
    pub fn new() -> (r: Self)
        ensures
            r.high.0 == 0,
            r.base_hi == 0,
            r.reserved == 0,
    {
        Self { high: SegmentDescriptor::new(), base_hi: 0, reserved: 0 }
    }

    /// The descriptor with its base address set to `base`.
    pub fn with_base(self, base: u64) -> (r: Self)
        ensures
            tss_base(r) == base,
            sd_limit(r.high.0) == sd_limit(self.high.0),
            sd_access(r.high.0) == sd_access(self.high.0),
            sd_flags(r.high.0) == sd_flags(self.high.0),
            r.reserved == self.reserved,
    {
        proof {
            lemma_set_base64(self.high.0, base);
        }
        let mut r = self;
        r.high = r.high.with_base_lo((base & 0xffff) as u16).with_base_hi_lo(
            ((base & 0xff0000) >> 16u64) as u8,
        ).with_base_hi_hi(((base & 0xff000000) >> 24u64) as u8);
        r.base_hi = ((base & 0xffffffff00000000) >> 32u64) as u32;
        r
    }

    /// The descriptor with its limit set to the low 20 bits of `limit`.
    pub fn with_limit(self, limit: u32) -> (r: Self)
        ensures
            sd_limit(r.high.0) == (limit & 0xfffff) as u64,
            tss_base(r) == tss_base(self),
            sd_access(r.high.0) == sd_access(self.high.0),
            sd_flags(r.high.0) == sd_flags(self.high.0),
            r.reserved == self.reserved,
    {
        proof {
            lemma_u32_parts(limit);
            lemma_set_limit(self.high.0, limit);
        }
        let mut r = self;
        r.high = r.high.with_limit_lo((limit & 0xffff) as u16).with_limit_hi(
            ((limit & 0xf0000) >> 16u32) as usize,
        );
        r
    }

    pub fn with_access_byte(self, access_byte: u8) -> (r: Self)
        ensures
            sd_access(r.high.0) == access_byte as u64,
            tss_base(r) == tss_base(self),
            sd_limit(r.high.0) == sd_limit(self.high.0),
            sd_flags(r.high.0) == sd_flags(self.high.0),
            r.reserved == self.reserved,
    {
        proof {
            lemma_set_access_flags(self.high.0, access_byte, 0);
        }
        let mut r = self;
        r.high = r.high.with_access_byte(access_byte);
        r
    }

    pub fn with_flags(self, flags: usize) -> (r: Self)
        requires
            flags <= 0xf,
        ensures
            sd_flags(r.high.0) == flags as u64,
            tss_base(r) == tss_base(self),
            sd_limit(r.high.0) == sd_limit(self.high.0),
            sd_access(r.high.0) == sd_access(self.high.0),
            r.reserved == self.reserved,
    {
        proof {
            lemma_set_access_flags(self.high.0, 0, flags as u64);
        }
        let mut r = self;
        r.high = r.high.with_flags(flags);
        r
    }
}

/// Size in bytes of the task-state segment.
pub const TSS_SIZE: usize = 104;

/// Size in bytes of the GDT: five segment descriptors and the TSS descriptor.
pub const GDT_SIZE: usize = 56;

/// The task-state segment: stack pointers for privilege changes and interrupts.
#[derive(Debug, Clone, Copy)]
pub struct Tss {
    pub reserved0: u32,
    pub rsp0: u64,
    pub rsp1: u64,
    pub rsp2: u64,
    pub reserved1: u64,
    pub ist1: u64,
    pub ist2: u64,
    pub ist3: u64,
    pub ist4: u64,
    pub ist5: u64,
    pub ist6: u64,
    pub ist7: u64,
    pub reserved2: u64,
    pub reserved3: u16,
    pub io_map_base: u16,
}

impl Tss {
    /// The kernel's TSS: no stacks yet, and no I/O permission bitmap (its
    /// offset points past the end of the segment).
    pub fn new() -> (r: Self)
        ensures
            r.io_map_base == TSS_SIZE as u16,
            r.rsp0 == 0 && r.rsp1 == 0 && r.rsp2 == 0,
            r.ist1 == 0 && r.ist2 == 0 && r.ist3 == 0 && r.ist4 == 0,
            r.ist5 == 0 && r.ist6 == 0 && r.ist7 == 0,
    {
        Tss {
            reserved0: 0,
            rsp0: 0,
            rsp1: 0,
            rsp2: 0,
            reserved1: 0,
            ist1: 0,
            ist2: 0,
            ist3: 0,
            ist4: 0,
            ist5: 0,
            ist6: 0,
            ist7: 0,
            reserved2: 0,
            reserved3: 0,
            io_map_base: 104,
        }
    }
}

/// The kernel's global descriptor table.
#[derive(Debug, Clone, Copy)]
pub struct Gdt {
    pub null: SegmentDescriptor,
    pub kernel_code: SegmentDescriptor,
    pub kernel_data: SegmentDescriptor,
    pub user_code: SegmentDescriptor,
    pub user_data: SegmentDescriptor,
    pub tss: TssDescriptor,
}

/// A flat segment: base 0, limit 0xfffff, with the given access byte and flags.
pub open spec fn flat_segment(d: SegmentDescriptor, access: u64, flags: u64) -> bool {
    &&& sd_base(d.0) == 0
    &&& sd_limit(d.0) == 0xfffff
    &&& sd_access(d.0) == access
    &&& sd_flags(d.0) == flags
}

/// A flat segment with the given access byte and flags.
pub fn flat(access_byte: u8, flags: usize) -> (r: SegmentDescriptor)
    requires
        flags <= 0xf,
    ensures
        flat_segment(r, access_byte as u64, flags as u64),
{
    proof {
        lemma_set_access_flags(0, 0, 0);
    }
    let d0 = SegmentDescriptor::new().with_base(0x0).with_limit(0xfffff);
    proof {
        lemma_set_access_flags(d0.0, access_byte, 0);
    }
    let d1 = d0.with_access_byte(access_byte);
    proof {
        lemma_set_access_flags(d1.0, 0, flags as u64);
    }
    d1.with_flags(flags)
}

impl Gdt {
    /// The GDT the kernel starts with: flat code and data segments for kernel
    /// and user mode, and an empty TSS descriptor.
    pub fn new() -> (g: Self)
        ensures
            flat_segment(g.null, 0x0, 0x0),
            flat_segment(g.kernel_code, 0x9a, 0xa),
            flat_segment(g.kernel_data, 0x92, 0xc),
            flat_segment(g.user_code, 0xf2, 0xc),
            flat_segment(g.user_data, 0xfa, 0xa),
            g.tss.high.0 == 0 && g.tss.base_hi == 0 && g.tss.reserved == 0,
    {
        Gdt {
            null: flat(0x0, 0x0),
            kernel_code: flat(0x9a, 0xa),
            kernel_data: flat(0x92, 0xc),
            user_code: flat(0xf2, 0xc),
            user_data: flat(0xfa, 0xa),
            tss: TssDescriptor::new(),
        }
    }

    /// The GDT with its TSS descriptor describing an available 64-bit TSS at `tss_addr`.
    pub fn with_tss(self, tss_addr: u64) -> (g: Self)
        ensures
            g.null == self.null && g.kernel_code == self.kernel_code,
            g.kernel_data == self.kernel_data && g.user_code == self.user_code,
            g.user_data == self.user_data,
            tss_base(g.tss) == tss_addr,
            sd_limit(g.tss.high.0) == (TSS_SIZE - 1) as u64,
            sd_access(g.tss.high.0) == 0x89,
            sd_flags(g.tss.high.0) == 0,
    {
        proof {
            lemma_set_access_flags(0, 0, 0);
        }
        let mut g = self;
        g.tss = TssDescriptor::new().with_base(tss_addr).with_limit((TSS_SIZE - 1) as u32).with_access_byte(
            0x89,
        ).with_flags(0x0);
        g
    }
}

/// The operand of `lgdt`: the table's size minus one and its address.
#[derive(Debug, Clone, Copy)]
pub struct GdtDescriptor {
    pub limit: u16,
    pub offset: u64,
}

impl GdtDescriptor {
    /// The descriptor of a GDT at `offset`.
    pub fn new(offset: u64) -> (r: Self)
        ensures
            r.limit == GDT_SIZE - 1,
            r.offset == offset,
    {
        GdtDescriptor { limit: (GDT_SIZE - 1) as u16, offset }
    }
}

} // verus!
