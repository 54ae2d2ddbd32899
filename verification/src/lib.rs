//! The decision-making core of a small RISC-V (Sv39) kernel with a Linux
//! system call surface: page tables, sockets, virtio queues, file table,
//! signals, scheduling and the system calls themselves. Everything here works
//! on plain values; device registers, CSRs and context switches belong to the
//! program that links this library.

pub mod abi;
pub mod bytes;
pub mod errno;
pub mod file;
pub mod flags;
pub mod net;
pub mod page;
pub mod page_table;
pub mod paths;
pub mod plic;
pub mod pmm;
pub mod proc;
pub mod ramfs;
pub mod sbi;
pub mod signal;
pub mod sigset;
pub mod socket;
pub mod sv39;
pub mod sync;
pub mod syscall;
pub mod task;
pub mod text;
pub mod time;
pub mod timer;
pub mod timer_wheel;
pub mod trap;
pub mod uaccess;
pub mod uart;
pub mod utils;
pub mod vfs;
pub mod virtio;
