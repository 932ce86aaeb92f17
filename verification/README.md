# CosinusOS kernel library

The logic of a small x86-64 microkernel, written in Verus and proved
against its contracts: the physical frame manager with reference counts,
the page-table code (mapping, unmapping, copy-on-write fork and faults),
the kernel heap allocators (buddy and slab), the virtual address-space
allocator, user address spaces (areas, `mmap`, `sbrk`, demand paging),
the thread table and its priority scheduler, IPC queues, the root
security policy and its audit log, the system-call decoding, ELF and
installer layouts, the console and terminal, keyboard decoding, and the
USB enumeration and HID report handling.

Layout:

- `src/` – the verified library. Each module states what its functions do
  in `requires`/`ensures` over spec functions and views; the laws that
  relate several operations are public proof functions (`law_*`).
- `tests/` – tests of the library on concrete values.
- `app/` – the kernel around the library: boot, interrupt entry, port and
  memory-mapped I/O, the USB host controller drivers, the terminal and the
  installer. It carries out what the library decides: after each change
  of the page-table model it writes the tables on the changed walk into
  the frames the processor reads, and it moves the bytes of pages the
  library asks to copy.
