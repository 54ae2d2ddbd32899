//! System calls.

pub mod basic;
pub mod dispatch;
pub mod files;
pub mod fs;
pub mod fsio;
pub mod futex;
pub mod mem;
pub mod misc;
pub mod mm;
pub mod net;
pub mod netcall;
pub mod poll;
pub mod process;
pub mod readiness;
pub mod remap;
pub mod reply;
pub mod select;
pub mod sig;
pub mod sigcalls;
pub mod signal;
pub mod single;
pub mod socket;
pub mod time;
pub mod timespec;
pub mod transfer;
