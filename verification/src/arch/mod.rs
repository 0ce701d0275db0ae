use vstd::prelude::*;

pub mod gdt;
pub mod idt;
pub mod irq;

verus! {

/// A segment selector: requested privilege level (bits 0..2), table
/// indicator (bit 2) and descriptor index (bits 3..16).
#[derive(Debug, Clone, Copy)]
pub struct SegmentSelector(pub u16);

impl SegmentSelector {
    /// The null selector.
    pub fn new() -> (r: Self)
        ensures
            r.0 == 0,
    {
        Self(0)
    }

    pub fn from_bits(bits: u16) -> (r: Self)
        ensures
            r.0 == bits,
    {
        Self(bits)
    }

    pub fn into_bits(self) -> (bits: u16)
        ensures
            bits == self.0,
    {
        self.0
    }

    /// Requested privilege level.
    pub fn rpl(&self) -> (v: usize)
        ensures
            v == self.0 & 3,
    {
        proof {
            lemma_u16_fields(self.0);
        }
        (self.0 & 3) as usize
    }

    pub fn with_rpl(self, v: usize) -> (r: Self)
        requires
            v <= 3,
        ensures
            r.0 == (self.0 & !3u16) | (v as u16),
    {
        Self((self.0 & !3u16) | (v as u16))
    }

    /// Whether the selector refers to the LDT.
    pub fn ti(&self) -> (b: bool)
        ensures
            b == (self.0 & 4 != 0),
    {
        self.0 & 4 != 0
    }

    pub fn with_ti(self, on: bool) -> (r: Self)
        ensures
            r.0 == if on {
                self.0 | 4
            } else {
                self.0 & !4u16
            },
    {
        if on {
            Self(self.0 | 4)
        } else {
            Self(self.0 & !4u16)
        }
    }

    /// Index of the descriptor in its table.
    pub fn index(&self) -> (v: usize)
        ensures
            v == self.0 >> 3u16,
    {
        (self.0 >> 3u16) as usize
    }

    pub fn with_index(self, v: usize) -> (r: Self)
        requires
            v <= 0x1fff,
        ensures
            r.0 == (self.0 & 7) | ((v as u16) << 3u16),
    {
        Self((self.0 & 7) | ((v as u16) << 3u16))
    }
}

pub proof fn lemma_u16_fields(x: u16)
    by (bit_vector)
    ensures
        x & 3 <= 3,
{
}

/// Reading back a field of a segment selector gives what was set, and the other fields stay.
pub proof fn lemma_selector_fields(s: u16, rpl: u16, idx: u16)
    by (bit_vector)
    requires
        rpl <= 3,
        idx <= 0x1fff,
    ensures
        ((s & !3u16) | rpl) & 3 == rpl,
        ((s & !3u16) | rpl) >> 3u16 == s >> 3u16,
        ((s & !3u16) | rpl) & 4 == s & 4,
        ((s & 7) | (idx << 3u16)) >> 3u16 == idx,
        ((s & 7) | (idx << 3u16)) & 7 == s & 7,
        ((((0u16 & 7u16) | (1u16 << 3u16)) & !3u16) | 0u16) & !4u16 == 8u16,
{
}

} // verus!
