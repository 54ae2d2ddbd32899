//! Task control blocks.

use vstd::prelude::*;
use crate::task::context::{fresh_context, TaskContext};
use crate::task::signal::{fresh_signals, SignalState};
use crate::trap::context::{TrapContext, SSTATUS_INIT};

verus! {

#[derive(Clone, Copy, PartialEq, Eq, Structural, Debug)]
pub enum TaskStatus {
    Ready,
    Running,
    Zombie,
}

/// An address space that was loaded or copied: the value that selects it, the
/// page of the trap context, and where stack, code and heap begin.
#[derive(Clone, Copy, PartialEq, Eq, Structural, Debug)]
pub struct Space {
    pub token: usize,
    pub trap_cx_ppn: usize,
    pub user_sp: usize,
    pub entry: usize,
    pub heap_bottom: usize,
}

/// What of the kernel a trap context names: its address space and its trap
/// handler, and the code that enters user mode.
#[derive(Clone, Copy, PartialEq, Eq, Structural, Debug)]
pub struct KernelAddrs {
    pub token: usize,
    pub trap_handler: usize,
    pub trap_return: usize,
}

pub struct TaskControlBlockInner {
    pub kernel_stack_top: usize,
    pub trap_cx_ppn: usize,
    pub trap_cx: TrapContext,
    pub base_size: usize,
    pub task_cx: TaskContext,
    pub task_status: TaskStatus,
    pub token: usize,
    pub parent: Option<usize>,
    pub children: Vec<usize>,
    pub exit_code: i32,
    pub heap_bottom: usize,
    pub program_brk: usize,
    /// The files of the descriptors, by number.
    pub fd_table: Vec<Option<usize>>,
    pub cwd: Vec<u8>,
    pub signals: SignalState,
}

pub struct TaskControlBlock {
    pub pid: usize,
    pub inner: TaskControlBlockInner,
}

/// The first free descriptor.
pub open spec fn first_free(t: Seq<Option<usize>>, i: int) -> int
    decreases t.len() - i,
{
    if 0 <= i < t.len() && t[i] is Some {
        first_free(t, i + 1)
    } else {
        i
    }
}

/// The table with a file under its first free descriptor.
pub open spec fn installed(t: Seq<Option<usize>>, file: usize) -> Seq<Option<usize>> {
    let k = first_free(t, 0);
    if k < t.len() {
        t.update(k, Some(file))
    } else {
        t.push(Some(file))
    }
}

pub open spec fn fd_of(t: Seq<Option<usize>>, fd: usize) -> Option<usize> {
    if fd < t.len() {
        t[fd as int]
    } else {
        None
    }
}

impl TaskControlBlockInner {
    /// The value that selects the task's address space.
    pub fn user_token(&self) -> (r: usize)
        ensures
            r == self.token,
    {
        self.token
    }

    pub fn status(&self) -> (r: TaskStatus)
        ensures
            r == self.task_status,
    {
        self.task_status
    }

    /// Gives a file the first free descriptor; the table grows where there is
    /// none.
    pub fn alloc_fd(&mut self, file: usize) -> (fd: usize)
        ensures
            fd == first_free(old(self).fd_table@, 0),
            final(self).fd_table@ == installed(old(self).fd_table@, file),
            *final(self) == (TaskControlBlockInner {
                fd_table: final(self).fd_table,
                ..*old(self)
            }),
    {
        let n: usize = self.fd_table.len();
        let mut i: usize = 0;
        while i < n && self.fd_table[i].is_some()
            invariant
                i <= n == self.fd_table@.len(),
                first_free(self.fd_table@, i as int) == first_free(self.fd_table@, 0),
            decreases n - i,
        {
            i = i + 1;
        }
        if i < n {
            self.fd_table.set(i, Some(file));
        } else {
            self.fd_table.push(Some(file));
        }
        i
    }

    /// The file of a descriptor.
    pub fn get_fd(&self, fd: usize) -> (r: Option<usize>)
        ensures
            r == fd_of(self.fd_table@, fd),
    {
        if fd < self.fd_table.len() {
            self.fd_table[fd]
        } else {
            None
        }
    }
}

/// Trap context `c` is the one with which a program starts.
pub open spec fn starts(c: TrapContext, s: Space, k: KernelAddrs, kernel_sp: usize) -> bool {
    &&& c.sepc == s.entry
    &&& forall|i: int|
        0 <= i < 32 ==> c.x@[i] == (if i == 2 {
            s.user_sp
        } else {
            0
        })
    &&& c.sstatus == SSTATUS_INIT
    &&& c.kernel_satp == k.token
    &&& c.kernel_sp == kernel_sp
    &&& c.trap_handler == k.trap_handler
}

fn copy_fds(t: &Vec<Option<usize>>) -> (r: Vec<Option<usize>>)
    ensures
        r@ == t@,
{
    let n: usize = t.len();
    let mut r: Vec<Option<usize>> = Vec::new();
    let mut i: usize = 0;
    while i < n
        invariant
            i <= n == t@.len(),
            r@ == t@.take(i as int),
        decreases n - i,
    {
        r.push(t[i]);
        i = i + 1;
        proof {
            assert(r@ =~= t@.take(i as int));
        }
    }
    proof {
        assert(t@.take(n as int) =~= t@);
    }
    r
}

impl TaskControlBlock {
    pub fn pid(&self) -> (r: usize)
        ensures
            r == self.pid,
    {
        self.pid
    }

    /// The very first process, from a program that was loaded. It has no parent,
    /// works in the root directory and has the files of the console.
    pub fn new_initproc(pid: usize, s: &Space, k: &KernelAddrs, kernel_stack_top: usize, stdio: Vec<Option<usize>>) -> (r:
        TaskControlBlock)
        ensures
            r.pid == pid,
            r.inner.kernel_stack_top == kernel_stack_top,
            r.inner.trap_cx_ppn == s.trap_cx_ppn,
            starts(r.inner.trap_cx, *s, *k, kernel_stack_top),
            r.inner.base_size == s.user_sp,
            fresh_context(r.inner.task_cx, k.trap_return, kernel_stack_top),
            r.inner.task_status == TaskStatus::Ready,
            r.inner.token == s.token,
            r.inner.parent is None,
            r.inner.children@.len() == 0,
            r.inner.exit_code == 0,
            r.inner.heap_bottom == s.heap_bottom,
            r.inner.program_brk == s.heap_bottom,
            r.inner.fd_table@ == stdio@,
            r.inner.cwd@ == seq![47u8],
            r.inner.signals.wf(),
            fresh_signals(r.inner.signals),
    {
        let cwd: Vec<u8> = vec![47];
        proof {
            assert(cwd@ =~= seq![47u8]);
        }
        TaskControlBlock {
            pid,
            inner: TaskControlBlockInner {
                kernel_stack_top,
                trap_cx_ppn: s.trap_cx_ppn,
                trap_cx: TrapContext::app_init_context(
                    s.entry,
                    s.user_sp,
                    k.token,
                    kernel_stack_top,
                    k.trap_handler,
                ),
                base_size: s.user_sp,
                task_cx: TaskContext::goto_trap_return(kernel_stack_top, k.trap_return),
                task_status: TaskStatus::Ready,
                token: s.token,
                parent: None,
                children: Vec::new(),
                exit_code: 0,
                heap_bottom: s.heap_bottom,
                program_brk: s.heap_bottom,
                fd_table: stdio,
                cwd,
                signals: SignalState::new(),
            },
        }
    }

    /// Makes a child with a number and memory of its own, which holds what the
    /// memory of its parent holds. It has the same files and directory, and goes
    /// on where its parent is, on its own kernel stack.
    pub fn fork(&mut self, pid: usize, token: usize, trap_cx_ppn: usize, k: &KernelAddrs, kernel_stack_top: usize) -> (r:
        TaskControlBlock)
        ensures
            final(self).inner.children@ == old(self).inner.children@.push(pid),
            *final(self) == (TaskControlBlock {
                inner: TaskControlBlockInner {
                    children: final(self).inner.children,
                    ..old(self).inner
                },
                ..*old(self)
            }),
            r.pid == pid,
            r.inner.kernel_stack_top == kernel_stack_top,
            r.inner.trap_cx_ppn == trap_cx_ppn,
            r.inner.trap_cx == (TrapContext {
                kernel_sp: kernel_stack_top,
                ..old(self).inner.trap_cx
            }),
            r.inner.base_size == old(self).inner.base_size,
            fresh_context(r.inner.task_cx, k.trap_return, kernel_stack_top),
            r.inner.task_status == TaskStatus::Ready,
            r.inner.token == token,
            r.inner.parent == Some(old(self).pid),
            r.inner.children@.len() == 0,
            r.inner.exit_code == 0,
            r.inner.heap_bottom == old(self).inner.heap_bottom,
            r.inner.program_brk == old(self).inner.program_brk,
            r.inner.fd_table@ == old(self).inner.fd_table@,
            r.inner.cwd@ == old(self).inner.cwd@,
            r.inner.signals.wf(),
            fresh_signals(r.inner.signals),
    {
        let mut cx: TrapContext = self.inner.trap_cx;
        cx.kernel_sp = kernel_stack_top;
        let r = TaskControlBlock {
            pid,
            inner: TaskControlBlockInner {
                kernel_stack_top,
                trap_cx_ppn,
                trap_cx: cx,
                base_size: self.inner.base_size,
                task_cx: TaskContext::goto_trap_return(kernel_stack_top, k.trap_return),
                task_status: TaskStatus::Ready,
                token,
                parent: Some(self.pid),
                children: Vec::new(),
                exit_code: 0,
                heap_bottom: self.inner.heap_bottom,
                program_brk: self.inner.program_brk,
                fd_table: copy_fds(&self.inner.fd_table),
                cwd: crate::paths::copy_bytes(&self.inner.cwd),
                signals: SignalState::new(),
            },
        };
        self.inner.children.push(pid);
        r
    }

    /// Runs another program: memory and trap context are new; number, files and
    /// relatives stay.
    pub fn exec(&mut self, s: &Space, k: &KernelAddrs)
        ensures
            starts(
                final(self).inner.trap_cx,
                *s,
                *k,
                old(self).inner.kernel_stack_top,
            ),
            *final(self) == (TaskControlBlock {
                inner: TaskControlBlockInner {
                    token: s.token,
                    trap_cx_ppn: s.trap_cx_ppn,
                    trap_cx: final(self).inner.trap_cx,
                    base_size: s.user_sp,
                    heap_bottom: s.heap_bottom,
                    program_brk: s.heap_bottom,
                    ..old(self).inner
                },
                ..*old(self)
            }),
    {
        let top: usize = self.inner.kernel_stack_top;
        self.inner.token = s.token;
        self.inner.trap_cx_ppn = s.trap_cx_ppn;
        self.inner.base_size = s.user_sp;
        self.inner.heap_bottom = s.heap_bottom;
        self.inner.program_brk = s.heap_bottom;
        self.inner.trap_cx = TrapContext::app_init_context(
            s.entry,
            s.user_sp,
            k.token,
            top,
            k.trap_handler,
        );
    }
}

/// A file that was given a descriptor is found under it, and no other
/// descriptor changed.
pub proof fn installed_is_found(t: Seq<Option<usize>>, file: usize, fd: usize)
    requires
        t.len() < usize::MAX,
    ensures
        fd_of(installed(t, file), first_free(t, 0) as usize) == Some(file),
        fd_of(t, first_free(t, 0) as usize) is None,
        fd != first_free(t, 0) ==> fd_of(installed(t, file), fd) == fd_of(t, fd),
{
    lemma_first_free(t, 0);
}

proof fn lemma_first_free(t: Seq<Option<usize>>, i: int)
    requires
        0 <= i <= t.len(),
    ensures
        i <= first_free(t, i) <= t.len(),
        first_free(t, i) < t.len() ==> t[first_free(t, i)] is None,
    decreases t.len() - i,
{
    if i < t.len() && t[i] is Some {
        lemma_first_free(t, i + 1);
    }
}

} // verus!
