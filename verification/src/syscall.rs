//! The system calls, each a function of the kernel state and its arguments.
pub mod mm;
pub mod fs;
pub mod process;
