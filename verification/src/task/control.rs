//! What the kernel keeps of a task besides its memory and its files.

use vstd::prelude::*;
use crate::bytes::{le, put_le, zeros, put_zeros};
use crate::uaccess::{mapped, num_at, stored, stored_field};

verus! {

/// A resource limit.
#[derive(Clone, Copy, PartialEq, Eq, Structural, Debug)]
pub struct Rlimit {
    pub cur: u64,
    pub max: u64,
}

pub const RLIMITS: usize = 16;

/// How a signal is handled.
#[derive(Clone, Copy, PartialEq, Eq, Structural, Debug)]
pub struct KSigAction {
    pub handler: u64,
    pub flags: u64,
    pub mask: u64,
}

/// The alternate signal stack.
#[derive(Clone, Copy, PartialEq, Eq, Structural, Debug)]
pub struct StackT {
    pub sp: u64,
    pub flags: u32,
    pub size: u64,
}

/// What a signal tells its handler.
#[derive(Clone, Copy, PartialEq, Eq, Structural, Debug)]
pub struct SigInfo {
    pub signo: i32,
    pub code: i32,
    pub pid: i32,
    pub uid: u32,
    pub status: i32,
}

pub open spec fn siginfo(signo: i32) -> SigInfo {
    SigInfo { signo, code: 0, pid: 0, uid: 0, status: 0 }
}

/// A signal's information in memory.
pub open spec fn siginfo_bytes(i: SigInfo) -> Seq<u8> {
    le((i.signo as u32) as nat, 4) + zeros(4) + le((i.code as u32) as nat, 4) + zeros(4) + le(
        (i.pid as u32) as nat,
        4,
    ) + le(i.uid as nat, 4) + le((i.status as u32) as nat, 4) + zeros(100)
}

pub fn siginfo_vec(i: &SigInfo) -> (v: Vec<u8>)
    ensures
        v@ == siginfo_bytes(*i),
        v@.len() == 128,
{
    let mut v: Vec<u8> = Vec::new();
    put_le(&mut v, (i.signo as u32) as u64, 4);
    put_zeros(&mut v, 4);
    put_le(&mut v, (i.code as u32) as u64, 4);
    put_zeros(&mut v, 4);
    put_le(&mut v, (i.pid as u32) as u64, 4);
    put_le(&mut v, i.uid as u64, 4);
    put_le(&mut v, (i.status as u32) as u64, 4);
    put_zeros(&mut v, 100);
    proof {
        broadcast use crate::bytes::lemma_le_len;

        assert(v@ =~= siginfo_bytes(*i));
    }
    v
}

/// A task.
pub struct TaskCtl {
    pub pid: i32,
    pub tgid: i32,
    pub ppid: i32,
    pub uid: u32,
    pub gid: u32,
    pub pgid: i32,
    pub sid: i32,
    /// Time spent, in nanoseconds.
    pub utime: u64,
    pub stime: u64,
    pub clear_child_tid: usize,
    pub robust_list: usize,
    pub rlimits: Vec<Rlimit>,
    pub name: Vec<u8>,
    pub exe_path: Vec<u8>,
    /// The working directory's node.
    pub cwd: usize,
    pub umask: u32,
    pub sigmask: u64,
    pub pending: u64,
    /// What came with pending signals.
    pub infos: Vec<SigInfo>,
    /// The mask to go back to once a signal was handled.
    pub saved_sigmask: Option<u64>,
    pub altstack: StackT,
    /// The handling of each signal, by number.
    pub actions: Vec<KSigAction>,
}

impl TaskCtl {
    pub open spec fn wf(&self) -> bool {
        self.rlimits@.len() == RLIMITS && self.actions@.len() == crate::abi::NSIG
    }
}

/// All tasks, and which one is running.
pub struct Tasks {
    pub list: Vec<TaskCtl>,
    pub cur: usize,
}

/// `i` is the task with a given number.
pub open spec fn is_task(l: Seq<TaskCtl>, pid: i32, i: int) -> bool {
    &&& 0 <= i < l.len()
    &&& l[i].pid == pid
    &&& forall|j: int| 0 <= j < i ==> (#[trigger] l[j]).pid != pid
}

impl Tasks {
    pub open spec fn wf(&self) -> bool {
        &&& self.cur < self.list@.len()
        &&& forall|i: int| 0 <= i < self.list@.len() ==> (#[trigger] self.list@[i]).wf()
    }

    pub open spec fn current(&self) -> TaskCtl {
        self.list@[self.cur as int]
    }

    /// The place of the task that a call means by `pid`, where 0 is the caller.
    pub open spec fn target(&self, pid: i32) -> Option<int> {
        if pid == 0 {
            Some(self.cur as int)
        } else if exists|i: int| is_task(self.list@, pid, i) {
            Some(choose|i: int| is_task(self.list@, pid, i))
        } else {
            None
        }
    }

    /// The place of the task with a number.
    pub fn find(&self, pid: i32) -> (r: Option<usize>)
        ensures
            match r {
                Some(i) => is_task(self.list@, pid, i as int),
                None => !exists|i: int| is_task(self.list@, pid, i),
            },
    {
        let n: usize = self.list.len();
        let mut i: usize = 0;
        while i < n
            invariant
                i <= n == self.list@.len(),
                forall|j: int| 0 <= j < i ==> (#[trigger] self.list@[j]).pid != pid,
            decreases n - i,
        {
            if self.list[i].pid == pid {
                return Some(i);
            }
            i = i + 1;
        }
        None
    }

    pub fn find_target(&self, pid: i32) -> (r: Option<usize>)
        requires
            self.wf(),
        ensures
            match r {
                Some(i) => self.target(pid) == Some(i as int) && i < self.list@.len(),
                None => self.target(pid) is None,
            },
    {
        if pid == 0 {
            Some(self.cur)
        } else {
            let r: Option<usize> = self.find(pid);
            proof {
                if r is Some {
                    let k = choose|i: int| is_task(self.list@, pid, i);
                    assert(is_task(self.list@, pid, r->0 as int));
                    assert(k == r->0);
                }
            }
            r
        }
    }
}

/// A signal's information has its fields where Linux has them: number, code,
/// process, user and status at bytes 0, 8, 16, 20 and 24 of 128.
pub proof fn siginfo_reads_back(m: Map<int, u8>, at: int, i: SigInfo)
    requires
        mapped(m, at, 128),
    ensures
        siginfo_bytes(i).len() == 128,
        num_at(stored(m, at, siginfo_bytes(i)), at, 4) == i.signo as u32,
        num_at(stored(m, at, siginfo_bytes(i)), at + 8, 4) == i.code as u32,
        num_at(stored(m, at, siginfo_bytes(i)), at + 16, 4) == i.pid as u32,
        num_at(stored(m, at, siginfo_bytes(i)), at + 20, 4) == i.uid,
        num_at(stored(m, at, siginfo_bytes(i)), at + 24, 4) == i.status as u32,
{
    broadcast use crate::bytes::lemma_le_len;

    crate::bytes::lemma_span();
    let b = siginfo_bytes(i);
    assert(b.len() == 128);
    assert(b.subrange(0, 4) =~= le((i.signo as u32) as nat, 4));
    assert(b.subrange(8, 12) =~= le((i.code as u32) as nat, 4));
    assert(b.subrange(16, 20) =~= le((i.pid as u32) as nat, 4));
    assert(b.subrange(20, 24) =~= le(i.uid as nat, 4));
    assert(b.subrange(24, 28) =~= le((i.status as u32) as nat, 4));
    stored_field(m, at, b, 0, (i.signo as u32) as nat, 4);
    stored_field(m, at, b, 8, (i.code as u32) as nat, 4);
    stored_field(m, at, b, 16, (i.pid as u32) as nat, 4);
    stored_field(m, at, b, 20, i.uid as nat, 4);
    stored_field(m, at, b, 24, (i.status as u32) as nat, 4);
}

} // verus!
