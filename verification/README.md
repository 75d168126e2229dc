# monarch

The core of a small x86-64 kernel as a Verus library: Verus proves each function against its
contract, and the properties that span several calls are stated as proof functions. The
semaphore's operations have no contract on the counter: std's atomics carry no value
specification here.

- `src/memory/allocator.rs` — bitmap frame allocator with a next-fit hint, built from the boot
  memory map.
- `src/arch/x86_64/paging.rs` — four-level page tables: entries, mapping and unmapping 4 KiB
  pages, the boot-time check of the kernel's higher-half mapping.
- `src/memory/heap.rs` — first-fit free-list heap over its own bytes, growing through the page
  tables and the frame allocator.
- `src/terminal.rs` — framebuffer text terminal that scrolls at the bottom, keyboard scancode decoding, the shell's line
  editing and command parsing.
- `src/sync/semaphore.rs`, `src/boot_info.rs`, `src/lib.rs` — a counting semaphore, boot
  information, and kernel start-up.

`app/` holds what only the machine can do: bootloader requests, port I/O, control registers,
the live page tables and framebuffer, and the loops that poll the keyboard and run the shell.
