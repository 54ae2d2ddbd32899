//! Interest lists of a task control block. Events in memory take 16 bytes; the
//! memory that a call names must be accessible.

use vstd::prelude::*;
use crate::bytes::{lemma_le_len, put_le, put_zeros};
use crate::syscall::process::lemma_mapped_stored;
use crate::syscall::readiness::event_bytes;
use crate::task::tcb::{fd_of, TaskControlBlockInner};
use crate::uaccess::{bytes_at, field, mapped, num_at, stored, UserMem};

verus! {

pub const EPOLL_CTL_ADD: usize = 1;
pub const EPOLL_CTL_DEL: usize = 2;
pub const EPOLL_CTL_MOD: usize = 3;
pub const EBADF: isize = -9;
pub const EINVAL: isize = -22;
pub const EPOLLIN: u32 = 1;
pub const EPOLLOUT: u32 = 4;

/// Timer ticks in a millisecond.
pub const TICKS_PER_MS: u64 = 10_000;

#[derive(Clone, Copy, PartialEq, Eq, Structural, Debug)]
pub struct EpollEntry {
    pub fd: i32,
    pub events: u32,
    pub data: u64,
    pub file: usize,
}

/// What a file is: an interest list, by number, or something else.
#[derive(Clone, Copy, PartialEq, Eq, Structural, Debug)]
pub enum FileKind {
    Epoll(usize),
    Other,
}

pub fn read_epoll_event(mem: &UserMem, ptr: usize) -> (r: (u32, u64))
    requires
        mapped(mem@, ptr as int, 16),
    ensures
        r.0 == num_at(mem@, ptr as int, 4) as u32,
        r.1 == num_at(mem@, ptr + 8, 8) as u64,
{
    match mem.copy_from_user(ptr, 16) {
        Ok(b) => {
            let events: u64 = field(&b, 0, 4, Ghost(mem@), Ghost(ptr as int));
            let data: u64 = field(&b, 8, 8, Ghost(mem@), Ghost(ptr as int));
            (events as u32, data)
        },
        Err(_) => (0, 0),
    }
}

pub fn write_epoll_event(mem: &mut UserMem, ptr: usize, events: u32, data: u64)
    requires
        mapped(old(mem)@, ptr as int, 16),
    ensures
        final(mem)@ == stored(old(mem)@, ptr as int, event_bytes(events, data)),
{
    let mut b: Vec<u8> = Vec::new();
    put_le(&mut b, events as u64, 4);
    put_zeros(&mut b, 4);
    put_le(&mut b, data, 8);
    proof {
        lemma_le_len(events as nat, 4);
        lemma_le_len(data as nat, 8);
        assert(b@ =~= event_bytes(events, data));
        assert(b@.len() == 16);
    }
    let _ = mem.copy_to_user(ptr, &b);
}

/// Opens an interest list, which is file number `file`.
pub fn sys_epoll_create1(t: &mut TaskControlBlockInner, file: usize) -> (fd: usize)
    ensures
        fd == crate::task::tcb::first_free(old(t).fd_table@, 0),
        final(t).fd_table@ == crate::task::tcb::installed(old(t).fd_table@, file),
        *final(t) == (TaskControlBlockInner { fd_table: final(t).fd_table, ..*old(t) }),
{
    t.alloc_fd(file)
}

/// Opens an event counter, which is file number `file`.
pub fn sys_eventfd2(t: &mut TaskControlBlockInner, file: usize) -> (fd: usize)
    ensures
        fd == crate::task::tcb::first_free(old(t).fd_table@, 0),
        final(t).fd_table@ == crate::task::tcb::installed(old(t).fd_table@, file),
        *final(t) == (TaskControlBlockInner { fd_table: final(t).fd_table, ..*old(t) }),
{
    t.alloc_fd(file)
}

/// The lesser of two numbers.
pub open spec fn fewer(a: int, b: int) -> int {
    if a < b {
        a
    } else {
        b
    }
}

/// The entries without a descriptor.
pub open spec fn without(l: Seq<EpollEntry>, fd: i32) -> Seq<EpollEntry>
    decreases l.len(),
{
    if l.len() == 0 {
        Seq::empty()
    } else if l.last().fd == fd {
        without(l.drop_last(), fd)
    } else {
        without(l.drop_last(), fd).push(l.last())
    }
}

/// The first entry of a descriptor, from `i` on.
pub open spec fn first_of(l: Seq<EpollEntry>, fd: i32, i: int) -> int
    decreases l.len() - i,
{
    if 0 <= i < l.len() && l[i].fd != fd {
        first_of(l, fd, i + 1)
    } else {
        i
    }
}

/// The entries after a change. Adding replaces; changing concerns the first
/// entry of the descriptor, if there is one.
pub open spec fn changed(l: Seq<EpollEntry>, op: usize, x: EpollEntry) -> Option<Seq<EpollEntry>> {
    let k = first_of(l, x.fd, 0);
    if op == EPOLL_CTL_ADD {
        Some(without(l, x.fd).push(x))
    } else if op == EPOLL_CTL_MOD {
        Some(
            if k < l.len() {
                l.update(k, EpollEntry { events: x.events, data: x.data, ..l[k] })
            } else {
                l
            },
        )
    } else if op == EPOLL_CTL_DEL {
        Some(without(l, x.fd))
    } else {
        None
    }
}

fn drop_fd(l: &Vec<EpollEntry>, fd: i32) -> (r: Vec<EpollEntry>)
    ensures
        r@ == without(l@, fd),
{
    let n: usize = l.len();
    let mut r: Vec<EpollEntry> = Vec::new();
    let mut i: usize = 0;
    proof {
        assert(l@.take(0) =~= Seq::empty());
    }
    while i < n
        invariant
            i <= n == l@.len(),
            r@ == without(l@.take(i as int), fd),
        decreases n - i,
    {
        proof {
            assert(l@.take(i + 1).drop_last() =~= l@.take(i as int));
            assert(l@.take(i + 1).last() == l@[i as int]);
        }
        if l[i].fd != fd {
            r.push(l[i]);
        }
        i = i + 1;
    }
    proof {
        assert(l@.take(n as int) =~= l@);
    }
    r
}

/// The file of a descriptor is an interest list.
pub open spec fn epoll_spec(t: Seq<Option<usize>>, kinds: Seq<FileKind>, epfd: usize) -> Result<usize, isize> {
    match fd_of(t, epfd) {
        None => Err(EBADF),
        Some(f) => match kinds[f as int] {
            FileKind::Epoll(k) => Ok(k),
            FileKind::Other => Err(EINVAL),
        },
    }
}

pub open spec fn kinds_ok(t: Seq<Option<usize>>, n: int) -> bool {
    forall|i: int| 0 <= i < t.len() ==> match #[trigger] t[i] {
        Some(f) => f < n,
        None => true,
    }
}

fn epoll_of(t: &TaskControlBlockInner, kinds: &Vec<FileKind>, epfd: usize) -> (r: Result<usize, isize>)
    requires
        kinds_ok(t.fd_table@, kinds@.len() as int),
    ensures
        r == epoll_spec(t.fd_table@, kinds@, epfd),
{
    match t.get_fd(epfd) {
        None => Err(EBADF),
        Some(f) => {
            proof {
                assert(match t.fd_table@[epfd as int] {
                    Some(f) => f < kinds@.len(),
                    None => true,
                });
            }
            match kinds[f] {
                FileKind::Epoll(k) => Ok(k),
                FileKind::Other => Err(EINVAL),
            }
        },
    }
}

/// Changes an interest list. `kinds` says what the files are; `l` is the list
/// that the descriptor leads to.
#[verifier::loop_isolation(false)]
pub fn sys_epoll_ctl(
    t: &TaskControlBlockInner,
    kinds: &Vec<FileKind>,
    l: &mut Vec<EpollEntry>,
    mem: &UserMem,
    epfd: usize,
    op: usize,
    fd: usize,
    event: usize,
) -> (r: isize)
    requires
        kinds_ok(t.fd_table@, kinds@.len() as int),
        op == EPOLL_CTL_ADD || op == EPOLL_CTL_MOD ==> mapped(mem@, event as int, 16),
    ensures
        ({
            let x = EpollEntry {
                fd: fd as i32,
                events: num_at(mem@, event as int, 4) as u32,
                data: num_at(mem@, event + 8, 8) as u64,
                file: fd_of(t.fd_table@, fd)->0,
            };
            match epoll_spec(t.fd_table@, kinds@, epfd) {
                Err(e) => r == e && final(l)@ == old(l)@,
                Ok(_) => if fd_of(t.fd_table@, fd) is None {
                    r == EBADF && final(l)@ == old(l)@
                } else {
                    match changed(old(l)@, op, x) {
                        Some(n) => r == 0 && final(l)@ == n,
                        None => r == EINVAL && final(l)@ == old(l)@,
                    }
                },
            }
        }),
{
    match epoll_of(t, kinds, epfd) {
        Err(e) => {
            return e;
        },
        Ok(_) => {},
    }
    let file: usize = match t.get_fd(fd) {
        Some(f) => f,
        None => {
            return EBADF;
        },
    };
    let key: i32 = fd as i32;
    match op {
        EPOLL_CTL_ADD => {
            let (events, data): (u32, u64) = read_epoll_event(mem, event);
            let mut v: Vec<EpollEntry> = drop_fd(l, key);
            v.push(EpollEntry { fd: key, events, data, file });
            *l = v;
            0
        },
        EPOLL_CTL_MOD => {
            let (events, data): (u32, u64) = read_epoll_event(mem, event);
            let n: usize = l.len();
            let mut i: usize = 0;
            while i < n && l[i].fd != key
                invariant
                    i <= n == l@.len(),
                    l@ == old(l)@,
                    first_of(l@, key, i as int) == first_of(l@, key, 0),
                decreases n - i,
            {
                i = i + 1;
            }
            if i < n {
                let mut e: EpollEntry = l[i];
                e.events = events;
                e.data = data;
                l.set(i, e);
            }
            0
        },
        EPOLL_CTL_DEL => {
            *l = drop_fd(l, key);
            0
        },
        _ => EINVAL,
    }
}

/// What an entry is told: of input and output, what it asked for and the file is
/// ready for.
pub open spec fn revents(e: EpollEntry, ready: Seq<(bool, bool)>) -> u32 {
    let i: int = if e.events & EPOLLIN != 0 && ready[e.file as int].0 {
        1
    } else {
        0
    };
    let o: int = if e.events & EPOLLOUT != 0 && ready[e.file as int].1 {
        4
    } else {
        0
    };
    (i + o) as u32
}

/// Events told from the `k`-th entry on, after `n` of them.
pub open spec fn told(
    m: Map<int, u8>,
    l: Seq<EpollEntry>,
    ready: Seq<(bool, bool)>,
    at: int,
    max: int,
    k: int,
    n: int,
) -> (Map<int, u8>, int)
    decreases l.len() - k,
{
    if !(0 <= k < l.len()) || n >= max {
        (m, n)
    } else if revents(l[k], ready) == 0 {
        told(m, l, ready, at, max, k + 1, n)
    } else {
        told(
            stored(m, at + 16 * n, event_bytes(revents(l[k], ready), l[k].data)),
            l,
            ready,
            at,
            max,
            k + 1,
            n + 1,
        )
    }
}

/// How a wait goes on.
#[derive(Clone, Copy, PartialEq, Eq, Structural, Debug)]
pub enum Wait {
    Done(isize),
    /// Let other tasks run, then look again.
    Again,
}

/// The ticks after which a wait is over; the largest number for no limit.
pub open spec fn limit(timeout_ms: isize) -> u64 {
    if timeout_ms < 0 || timeout_ms * TICKS_PER_MS > u64::MAX {
        u64::MAX
    } else {
        (timeout_ms * TICKS_PER_MS) as u64
    }
}

/// One look at an interest list, `elapsed` ticks after the wait began. `ready`
/// is what the files can do: be read and written.
#[verifier::loop_isolation(false)]
pub fn sys_epoll_pwait(
    l: &Vec<EpollEntry>,
    ready: &Vec<(bool, bool)>,
    mem: &mut UserMem,
    at: usize,
    max: usize,
    timeout_ms: isize,
    elapsed: u64,
) -> (r: Wait)
    requires
        forall|i: int| 0 <= i < l@.len() ==> (#[trigger] l@[i]).file < ready@.len(),
        mapped(old(mem)@, at as int, 16 * fewer(max as int, l@.len() as int)),
        at + 16 * fewer(max as int, l@.len() as int) <= usize::MAX,
    ensures
        ({
            let s = told(old(mem)@, l@, ready@, at as int, max as int, 0, 0);
            &&& final(mem)@ == s.0
            &&& r == (if s.1 > 0 {
                Wait::Done(s.1 as isize)
            } else if elapsed >= limit(timeout_ms) {
                Wait::Done(0)
            } else {
                Wait::Again
            })
        }),
{
    let ghost all = told(mem@, l@, ready@, at as int, max as int, 0, 0);
    let len: usize = l.len();
    let mut k: usize = 0;
    let mut n: usize = 0;
    while k < len && n < max
        invariant
            k <= len == l@.len(),
            n <= max,
            n <= k,
            mapped(mem@, at as int, 16 * fewer(max as int, len as int)),
            told(mem@, l@, ready@, at as int, max as int, k as int, n as int) == all,
        decreases len - k,
    {
        let e: EpollEntry = l[k];
        proof {
            assert(l@[k as int].file < ready@.len());
        }
        let (rd, wr): (bool, bool) = ready[e.file];
        let a: u32 = if e.events & EPOLLIN != 0 && rd {
            1
        } else {
            0
        };
        let b: u32 = if e.events & EPOLLOUT != 0 && wr {
            4
        } else {
            0
        };
        let rev: u32 = a + b;
        if rev != 0 {
            let ghost m = mem@;
            proof {
                lemma_mapped_stored(m, at + 16 * n, event_bytes(rev, e.data));
                assert(mapped(m, at + 16 * n, 16));
            }
            write_epoll_event(mem, at + 16 * n, rev, e.data);
            n = n + 1;
        }
        k = k + 1;
    }
    if n > 0 {
        return Wait::Done(n as isize);
    }
    let lim: u64 = if timeout_ms < 0 {
        u64::MAX
    } else {
        let t: u128 = timeout_ms as u128 * TICKS_PER_MS as u128;
        if t > u64::MAX as u128 {
            u64::MAX
        } else {
            t as u64
        }
    };
    if elapsed >= lim {
        return Wait::Done(0);
    }
    Wait::Again
}

/// A descriptor that was taken out of an interest list is not in it any more,
/// and one that was added is its last entry.
pub proof fn changes_show(l: Seq<EpollEntry>, x: EpollEntry)
    ensures
        changed(l, EPOLL_CTL_ADD, x) is Some,
        changed(l, EPOLL_CTL_ADD, x)->0.last() == x,
        changed(l, EPOLL_CTL_DEL, x) is Some,
        forall|i: int|
            0 <= i < changed(l, EPOLL_CTL_DEL, x)->0.len() ==> (#[trigger] changed(
                l,
                EPOLL_CTL_DEL,
                x,
            )->0[i]).fd != x.fd,
{
    lemma_without(l, x.fd);
}

proof fn lemma_without(l: Seq<EpollEntry>, fd: i32)
    ensures
        forall|i: int| 0 <= i < without(l, fd).len() ==> (#[trigger] without(l, fd)[i]).fd != fd,
    decreases l.len(),
{
    if l.len() > 0 {
        let w = without(l.drop_last(), fd);
        lemma_without(l.drop_last(), fd);
        assert forall|i: int| 0 <= i < without(l, fd).len() implies (#[trigger] without(
            l,
            fd,
        )[i]).fd != fd by {
            if i < w.len() {
                assert(without(l, fd)[i] == w[i]);
            }
        }
    }
}

/// What an entry is told, bit by bit: bit 0 where it asked for input and the file
/// can be read, bit 2 where it asked for output and the file can be written.
pub proof fn entry_is_told_by_bit(e: EpollEntry, ready: Seq<(bool, bool)>)
    ensures
        revents(e, ready) & 1 != 0 <==> e.events & 1 != 0 && ready[e.file as int].0,
        revents(e, ready) & 4 != 0 <==> e.events & 4 != 0 && ready[e.file as int].1,
        revents(e, ready) & !5u32 == 0,
{
    let r = revents(e, ready);
    assert(r == 0 || r == 1 || r == 4 || r == 5);
    crate::flags::small_bits(r);
}

/// Changing an entry changes its events and data and nothing else; entries of other
/// descriptors survive every change.
pub proof fn other_entries_stay(l: Seq<EpollEntry>, op: usize, x: EpollEntry, k: int)
    requires
        0 <= k < l.len(),
        1 <= op <= 3,
    ensures
        changed(l, op, x) is Some,
        l[k].fd != x.fd ==> changed(l, op, x)->0.contains(l[k]),
        op == 3 && l[k].fd == x.fd && (forall|j: int| 0 <= j < k ==> (#[trigger] l[j]).fd != x.fd)
            ==> changed(l, op, x)->0[k] == (EpollEntry { events: x.events, data: x.data, ..l[k] }),
        op == 2 ==> forall|e: EpollEntry| #[trigger]
            changed(l, op, x)->0.contains(e) ==> e.fd != x.fd && l.contains(e),
        op == 1 ==> changed(l, op, x)->0.contains(x),
{
    lemma_without(l, x.fd);
    lemma_without_keeps(l, x.fd, l[k]);
    let w = without(l, x.fd);
    if op == 1 {
        let c = w.push(x);
        assert(c[c.len() - 1] == x);
        if l[k].fd != x.fd {
            assert(l.contains(l[k]));
            let i = choose|i: int| 0 <= i < w.len() && w[i] == l[k];
            assert(c[i] == l[k]);
        }
    } else if op == 2 {
        assert(l.contains(l[k]));
        assert forall|e: EpollEntry| #[trigger] w.contains(e) implies e.fd != x.fd && l.contains(e) by {
            lemma_without_keeps(l, x.fd, e);
        }
    } else {
        lemma_first(l, x.fd, 0);
        let f = first_of(l, x.fd, 0);
        if l[k].fd != x.fd {
            assert(changed(l, op, x)->0[k] == l[k]);
        } else if forall|j: int| 0 <= j < k ==> (#[trigger] l[j]).fd != x.fd {
            if f < k {
                assert(l[f].fd == x.fd);
            }
            assert(f == k);
        }
    }
}

proof fn lemma_first(l: Seq<EpollEntry>, fd: i32, i: int)
    requires
        0 <= i <= l.len(),
    ensures
        i <= first_of(l, fd, i) <= l.len(),
        forall|j: int| i <= j < first_of(l, fd, i) ==> (#[trigger] l[j]).fd != fd,
        first_of(l, fd, i) < l.len() ==> l[first_of(l, fd, i)].fd == fd,
    decreases l.len() - i,
{
    if i < l.len() && l[i].fd != fd {
        lemma_first(l, fd, i + 1);
    }
}

proof fn lemma_without_keeps(l: Seq<EpollEntry>, fd: i32, e: EpollEntry)
    ensures
        e.fd != fd && l.contains(e) ==> without(l, fd).contains(e),
        without(l, fd).contains(e) ==> e.fd != fd && l.contains(e),
    decreases l.len(),
{
    if l.len() > 0 {
        let p = l.drop_last();
        let d = without(p, fd);
        let w = without(l, fd);
        lemma_without_keeps(p, fd, e);
        if e.fd != fd && l.contains(e) {
            let k = choose|k: int| 0 <= k < l.len() && l[k] == e;
            if k < l.len() - 1 {
                assert(p[k] == e);
                let i = choose|i: int| 0 <= i < d.len() && d[i] == e;
                assert(w[i] == e);
            } else {
                assert(w[w.len() - 1] == e);
            }
        }
        if w.contains(e) {
            let i = choose|i: int| 0 <= i < w.len() && w[i] == e;
            if i < d.len() {
                assert(d[i] == e);
                let k = choose|k: int| 0 <= k < p.len() && p[k] == e;
                assert(l[k] == e);
            } else {
                assert(l[l.len() - 1] == e);
            }
        }
    }
}

/// How many entries from the `k`-th up to the `j`-th have something to tell.
pub open spec fn with_news(l: Seq<EpollEntry>, ready: Seq<(bool, bool)>, k: int, j: int) -> int
    decreases j - k,
{
    if k >= j {
        0
    } else {
        with_news(l, ready, k + 1, j) + (if revents(l[k], ready) != 0 {
            1int
        } else {
            0
        })
    }
}

proof fn lemma_news(l: Seq<EpollEntry>, ready: Seq<(bool, bool)>, k: int, j: int)
    ensures
        0 <= with_news(l, ready, k, j) <= (if k < j {
            j - k
        } else {
            0
        }),
    decreases j - k,
{
    if k < j {
        lemma_news(l, ready, k + 1, j);
    }
}

proof fn lemma_told_frame(
    m: Map<int, u8>,
    l: Seq<EpollEntry>,
    ready: Seq<(bool, bool)>,
    at: int,
    max: int,
    k: int,
    n: int,
    a: int,
)
    requires
        0 <= k,
        a < at + 16 * n,
    ensures
        told(m, l, ready, at, max, k, n).0.dom() == m.dom(),
        m.dom().contains(a) ==> told(m, l, ready, at, max, k, n).0[a] == m[a],
    decreases l.len() - k,
{
    if k < l.len() && n < max {
        if revents(l[k], ready) == 0 {
            lemma_told_frame(m, l, ready, at, max, k + 1, n, a);
        } else {
            let t = stored(m, at + 16 * n, event_bytes(revents(l[k], ready), l[k].data));
            assert(t.dom() =~= m.dom());
            lemma_told_frame(t, l, ready, at, max, k + 1, n + 1, a);
        }
    }
}

/// Every entry with news is told, in order and up to the number asked for: the one
/// with `r` such entries before it is event `r`, with its events and its data; what
/// is returned is how many are told.
pub proof fn news_are_told(
    m: Map<int, u8>,
    l: Seq<EpollEntry>,
    ready: Seq<(bool, bool)>,
    at: int,
    max: int,
    k: int,
    n: int,
    j: int,
)
    requires
        0 <= k <= j < l.len(),
        0 <= n <= max,
        mapped(m, at, 16 * max),
    ensures
        ({
            let (t, c) = told(m, l, ready, at, max, k, n);
            let slot = n + with_news(l, ready, k, j);
            let all = n + with_news(l, ready, k, l.len() as int);
            &&& revents(l[j], ready) != 0 && slot < max ==> num_at(t, at + 16 * slot, 4) == revents(
                l[j],
                ready,
            ) && num_at(t, at + 16 * slot + 8, 8) == l[j].data
            &&& c == fewer(all, max)
        }),
    decreases l.len() - k,
{
    let len = l.len() as int;
    lemma_news(l, ready, k + 1, len);
    lemma_news(l, ready, k + 1, j);
    let next = if j > k {
        j
    } else {
        k + 1
    };
    if n < max {
        let x = revents(l[k], ready);
        if x == 0 {
            if k + 1 < len {
                news_are_told(m, l, ready, at, max, k + 1, n, next);
            }
        } else {
            let a = at + 16 * n;
            let t = stored(m, a, event_bytes(x, l[k].data));
            assert(mapped(m, a, 16));
            crate::syscall::readiness::event_reads_back(m, a, x, l[k].data);
            let f = told(t, l, ready, at, max, k + 1, n + 1).0;
            assert forall|y: int| a <= y < a + 16 implies #[trigger] f[y] == t[y] by {
                assert(m.dom().contains(y));
                assert(t.dom().contains(y));
                lemma_told_frame(t, l, ready, at, max, k + 1, n + 1, y);
            }
            assert(bytes_at(f, a, 4) =~= bytes_at(t, a, 4));
            assert(bytes_at(f, a + 8, 8) =~= bytes_at(t, a + 8, 8));
            assert(mapped(t, at, 16 * max)) by {
                assert(t.dom() =~= m.dom());
            }
            if k + 1 < len {
                news_are_told(t, l, ready, at, max, k + 1, n + 1, next);
            }
        }
    }
}

} // verus!
