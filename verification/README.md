# uefi_kernel

The verified core of a small x86_64 kernel that boots from UEFI: it reads the
firmware's memory map, builds its own four-level page map with the kernel
image mapped into the higher half, and loads its GDT and IDT.

- `src/` is the library, checked by Verus. `mem` and `memory` hold memory
  regions and maps; `boot::mem` the early bump allocator over the free
  regions; `boot::phys` the model of physical memory that the page-table code
  reads and writes; `boot::arch::paging` the page-table entries, the walker,
  `map_page`, `duplicate` and the higher-half mapping; `boot::efi` what the
  kernel makes of the firmware's memory descriptors; `arch` the encodings of
  segment selectors, GDT, TSS and IDT descriptors.
- `app/` is the program around it: the UEFI entry point and boot-service
  calls, copying page tables between physical memory and the model, the
  control-register and descriptor-table instructions, the interrupt stubs and
  the serial console.
- `tests/` runs the library on concrete values.
- The maps the library builds (`PageMap::new`, `PageMap::duplicate`) link
  each table from one entry only (`unshared`), and `map_page` keeps that so.
  On such maps the contracts of `direct_map_region`, `create_stack` and
  `map_higher_half_kernel` say exactly when they succeed and what else
  changes; on maps that share tables they say how the aliases behave.
