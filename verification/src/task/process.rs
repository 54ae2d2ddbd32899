//! A process: identity, files, memory and signals.

use vstd::prelude::*;
use crate::file::{open_fd, FdTable};
use crate::task::signal::{fresh_signals, SignalState};

verus! {

/// What an open file is.
#[derive(Clone, Copy, PartialEq, Eq, Structural, Debug)]
pub enum FileObj {
    Regular { inode: usize, offset: u64 },
    Dir { inode: usize, offset: u64 },
    CharDev { rdev: u64 },
    Pipe { pipe: usize, write_end: bool },
    EventFd(usize),
    Epoll(usize),
    Socket(usize),
}

/// An open file.
#[derive(Clone, Copy, PartialEq, Eq, Structural, Debug)]
pub struct File {
    pub obj: FileObj,
    /// Status flags.
    pub status: u32,
    pub cloexec: bool,
}

pub struct Process {
    pub pid: usize,
    pub ppid: usize,
    pub pgid: usize,
    pub sid: usize,
    pub uid: u32,
    pub euid: u32,
    pub gid: u32,
    pub egid: u32,
    pub umask: u32,
    /// Root page of the page table.
    pub root: u64,
    pub brk: usize,
    pub clear_child_tid: usize,
    pub robust_list: usize,
    pub robust_list_len: usize,
    pub sig: SignalState,
    pub children: Vec<usize>,
    pub parent_waiting: bool,
    /// The working directory.
    pub cwd: usize,
    pub fds: FdTable,
    pub exit_code: i32,
    pub exited: bool,
}

impl Process {
    pub open spec fn wf(&self) -> bool {
        self.sig.wf() && self.fds.wf()
    }

    /// Every descriptor refers to a file of the list.
    pub open spec fn files_ok(&self, files: Seq<File>) -> bool {
        forall|fd: int|
            open_fd(self.fds.entries@, fd) ==> (#[trigger] self.fds.entries@[fd])->0.file
                < files.len()
    }

    /// A process without files or children, in a group of its own.
    pub fn new(pid: usize, root: u64) -> (r: Process)
        ensures
            r.wf(),
            r == (Process {
                pid,
                ppid: 0,
                pgid: pid,
                sid: pid,
                uid: 0,
                euid: 0,
                gid: 0,
                egid: 0,
                umask: 0o22,
                root,
                brk: 0,
                clear_child_tid: 0,
                robust_list: 0,
                robust_list_len: 0,
                parent_waiting: false,
                cwd: 0,
                exit_code: 0,
                exited: false,
                ..r
            }),
            r.children@.len() == 0,
            r.fds.entries@.len() == 0,
            r.fds.limit == 4096,
            fresh_signals(r.sig),
    {
        Process {
            pid,
            ppid: 0,
            pgid: pid,
            sid: pid,
            uid: 0,
            euid: 0,
            gid: 0,
            egid: 0,
            umask: 0o22,
            root,
            brk: 0,
            clear_child_tid: 0,
            robust_list: 0,
            robust_list_len: 0,
            sig: SignalState::new(),
            children: Vec::new(),
            parent_waiting: false,
            cwd: 0,
            fds: FdTable::new(4096),
            exit_code: 0,
            exited: false,
        }
    }

    /// A signal waits that is not blocked.
    pub open spec fn interrupted(&self) -> bool {
        self.sig.pending & !self.sig.blocked != 0
    }

    pub fn is_interrupted(&self) -> (r: bool)
        ensures
            r == self.interrupted(),
    {
        self.sig.pending & !self.sig.blocked != 0
    }
}

/// The end of a thread asks nothing of its process.
pub fn on_thread_exit(p: &mut Process)
    ensures
        *final(p) == *old(p),
{
}

/// Without an address space layer no fault can be resolved.
pub fn handle_page_fault(va: usize, scause: u64) -> (r: bool)
    ensures
        !r,
{
    false
}

} // verus!
