# vanadinite, verified core

The logic of the vanadinite RISC-V microkernel and its support libraries,
written in Verus with contracts that Verus proves.

- `src/` is the library. Its main parts:
  - `paging/`: Sv39 page table entries, flags and page tables (map, unmap,
    walks, listings, runs of maps), kept as an arena of 512-entry tables.
  - `phys.rs`, `region.rs`: the bitmap frame allocator and the physical
    regions that back address spaces.
  - `address_map.rs`, `manager.rs`, `placement.rs`, `user.rs`: the map of a
    user address space, the memory manager on top of it (region allocation,
    guard pages, device memory, shared regions), where new regions go, and
    the checks of user pointers.
  - `boot.rs`: the frames and the first page table built before paging.
  - `scheduler.rs`, `tasks.rs`, `capabilities.rs`: round-robin scheduling
    decisions, wait queues, the task list and capability spaces.
  - `fdt.rs`, `elf.rs`, `fat.rs`, `io.rs`, `byteorder.rs`, `le.rs`: device
    tree, ELF and FAT parsing on byte slices, block devices, byte orders.
  - `cpu.rs`, `trap.rs`, `task.rs`, `arch/`, `plic.rs`, `utils.rs`:
    register layouts, trap frames, exit words, interrupt controller
    arithmetic and small helpers.
- `tests/` runs the library on concrete values.
- `app/` is the hardware side: memory-mapped registers, control and status
  registers, raw memory, handing plain values to the library.
