# os — a verified Sv39 memory and task core

A Verus library modelling the memory-management and task-management core of a
small RISC-V teaching kernel, with every function proved against its contract.

- `mm::address` — Sv39 addresses and page numbers (39-bit virtual, 56-bit
  physical, 44-bit page numbers) and the nine-bit table indexes of a page.
- `mm::memory` — physical memory as a run of 4 KiB frames read as 64-bit
  words, with the stack of free frames (`frame_alloc` clears the frame it
  hands out).
- `mm::page_tale` — page-table entries and their flags, and the three-level
  page table: walks, `map`, `unmap`, `translate`, the `satp` token, and reading
  user memory through a token (`translated_str`, `translated_byte_buffer`,
  `translated_refmut`, `get_mut`). The table is proved to stay a tree of
  frames it owns; `map` and `unmap` change exactly the entry of their page.
- `mm::memory_set` — an address space: a page table plus the data frames
  its pages map to; mapping a range takes one frame per page and one per
  missing page table, and unmapping gives the data frame back.
- `task` — tasks and their process tree, the ready queue (a yielding task
  goes to its back, the task at its front runs next), the round-robin search
  for a ready task, exit (the task gives back its data pages, hands its
  children to the initial task, and is never scheduled again), and
  `mmap`/`munmap` on the current task's space; the address spaces of
  different tasks never share a frame.
- `syscall::process` — the system calls built on them.

`get_time` stores the time through the user pointer into the task's data
page; for `task_info`, whose layout is Rust's own, the library returns the
physical address and the value to write, and the caller performs the write. `app/` is a host-side driver that feeds
system calls from standard input to the library.
