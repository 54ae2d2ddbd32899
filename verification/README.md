# ijiege

The logic of a RISC-V kernel that runs Linux programs, written in Rust and
verified with Verus.

* `src/` is the library. Every function states what it returns and changes, and
  Verus proves it.
  * memory: `pmm`, `sv39`, `page_table`, `page`, `proc`, `uaccess`
  * tasks and signals: `task/`, `signal`, `sigset`, `trap/`, `sync`
  * system calls: `syscall/`, `socket`
  * files: `vfs`, `ramfs`, `file`, `paths`
  * network: `net/` over the smoltcp stack, with two drivers for virtio devices
  * devices: `plic`, `sbi`, `uart`, `time`, `timer`, `timer_wheel`, `virtio`
* `tests/` runs the library on concrete values, with the real TCP/IP stack over
  a loop-back device.
* `app/` is the part that touches the machine: registers, firmware calls, the
  network device and the idle loop.

The parts fit together in several ways; each is a kernel of its own.

| Kernel | Modules |
|---|---|
| threads and processes | `task::{threads, process, signal}`, `syscall::{basic, dispatch, files, transfer, readiness, reply, sigcalls, netcall, remap}`, `socket`, `net::{stack, probe, virtio}`, `time` |
| tasks with wait queues | `task::{sched, wait, control, elf, exec}`, `syscall::{process, signal, misc, mm, futex, fs, fsio, select, net}`, `net::{socket, tcp, udp, unix}`, `ramfs`, `file`, `trap` |
| one process | `proc`, `page`, `pmm`, `vfs`, `net::{listener, virtio_net}` |
| one task | `task::single`, `page_table`, `syscall::single` |
| control blocks | `task::{tcb, processor, pid, context}`, `trap::context`, `syscall::{sig, poll}` |
| managed tasks | `task::{manager, scheduler}`, `syscall::{mem, time}` |
| small signal frames | `signal`, `virtio`, `plic`, `timer`, `timer_wheel`, `syscall::socket` |

User memory is a partial map from addresses to bytes, physical memory a sequence
of frames. What comes from outside, such as the time, the values of registers or
the result of a path lookup, is an argument; what is to be done outside, such as
registers to write or a thread to switch to, is a result.

The calls into smoltcp and the two text conversions of the standard library are
the only parts that are believed without proof: `net/smol.rs` and `text.rs`.
