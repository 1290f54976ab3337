//! Verified core of a RISC-V teaching kernel: deadlock detection over
//! resource matrices, the blocking/spinning mutex and semaphore state machines,
//! the decision logic of the process syscalls, the per-CPU processor record and
//! the directory logic of the easy-fs virtual file system layer.
pub mod deadlock_detect;
pub mod semaphore;
pub mod mutex;
pub mod process;
pub mod processor;
pub mod vfs;
