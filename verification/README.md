# hobo_os

The memory management and trap logic of the Hobo RISC-V kernel, written in
Verus with its contracts proved.

- `src/page_manager`: the page allocator. One descriptor per page at the start
  of the heap, first-fit allocation of contiguous pages, freeing that zeroes
  the freed pages.
- `src/sv39_mmu`: SV39 translation tables kept in heap pages: entries,
  address validation, `map`, `translate`, `unmap` and the list of mappings;
  `table_tree` proves that mapping within a tree of tables leaves every other
  translation in place.
- `src/byte_manager`: the kernel byte allocator on top of the page
  allocator: chunks with one-word headers, first fit, merging on free.
- `src/map_kernel`: the identity map of the kernel's sections and device
  registers.
- `src/interrupt_and_exception_handling`: what the trap handler decides for
  each interrupt and exception.
- `src/drivers`: the interrupt controller's register values, the UART's
  interrupt kinds, the VirtIO probe.
- `src/stdin`: line input from the keyboard.

`app/` is the kernel program around the library: the device registers, the
CSR accesses and the start-up sequence. `tests/` runs the library on small
heaps held in ordinary memory.
