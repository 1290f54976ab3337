# rcore_os

The verified core of a RISC-V teaching kernel, written in Verus.

- `src/deadlock_detect.rs`: per-process resource matrices (available,
  allocation, need) and the banker's safety test, proved to answer `true`
  exactly when the threads have a safe sequence.
- `src/mutex.rs`, `src/semaphore.rs`: spinning and blocking mutexes and a
  counting semaphore as state machines that decide (acquire, block, retry,
  wake whom) and record waits and grants in the matrices.
- `src/process.rs`: argument checks and result mapping of the process
  syscalls (`trace`, `mmap`, `munmap`, `sbrk`, `get_time`).
- `src/processor.rs`: the per-CPU record of the running task and the
  overlap check of a new mapping.
- `src/vfs.rs`: easy-fs directory entries (on-disk byte format) and the
  directory operations: lookup, list, create, link, unlink.

`app/` is the unverified glue around these decisions: it calls the kernel's
services (scheduler, page tables, timer) through the `Kernel` trait and the
easy-fs inode and block services through the `BlockLayer` trait.
