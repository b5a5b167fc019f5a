//! A verified model of the system-call layer of a small RISC-V teaching
//! kernel: file descriptors, an in-memory image of its flat file system,
//! per-process SV39 address spaces backed by physical frames, and the process
//! table that `fork`, `spawn`, `waitpid` and friends work on.
use vstd::prelude::*;

pub mod config;
pub mod bytes;
pub mod address;
pub mod frame;
pub mod page_table;
pub mod memory_set;
pub mod ownership;
pub mod mapping;
pub mod efs;
pub mod fs;
pub mod task;
pub mod syscall;
