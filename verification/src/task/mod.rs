//! Tasks: scheduling, waiting, signals and program images.

pub mod context;
pub mod control;
pub mod elf;
pub mod exec;
pub mod manager;
pub mod pid;
pub mod process;
pub mod processor;
pub mod sched;
pub mod scheduler;
pub mod signal;
pub mod single;
pub mod tcb;
pub mod threads;
pub mod wait;
