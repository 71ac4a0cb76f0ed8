//! System V semaphores for a library OS: identifier allocation, semaphore
//! sets, and the `semget` / `semop` / `semctl` operations.

pub mod errno;
pub mod ipc_util;
pub mod sem;
pub mod syscalls;
pub mod laws;
pub mod laws_ops;
