//! Verified core of a small x86_64 UEFI kernel: memory regions, the early
//! boot page allocator, the four-level page-table walker and mapper, and the
//! descriptor encodings of the GDT and IDT.
use vstd::prelude::*;

pub mod arch;
pub mod mem;
pub mod memory;
pub mod boot;
