//! A verified model of the memory-management and task-management core of a
//! small RISC-V (Sv39) teaching kernel: page-table entries, a three-level page
//! table walked over a model of physical memory, the per-task address space,
//! and the `mmap`/`munmap`/`get_time`/`task_info` system calls built on them.
pub mod mm;

pub mod syscall;
pub mod task;
