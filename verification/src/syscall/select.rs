//! Waiting for open files: interest lists, poll and select with deadlines.
//!
//! A wait begins by reading what is asked for, looks at the files once in every
//! round, and ends by telling what was found.

use vstd::prelude::*;
use crate::abi::{POLLERR, POLLHUP, POLLIN, POLLNVAL, POLLOUT};
use crate::bytes::{le, lemma_le_len, lemma_span, put_le};
use crate::errno::{SysResult, EBADF, EFAULT, EINVAL};
use crate::file::{open_fd, FdTable, Fds};
use crate::syscall::fs::{epoll_spec, get_epoll, get_file, Ctx};
use crate::syscall::process::{err, ok};
use crate::syscall::readiness::{event_bytes, read_timeout, timeout_at, EPOLL_CTL_DEL, EVENT_SIZE};
use crate::syscall::reply::{bytes_out, out, store_all, store_each, views, Out, OutView};
use crate::syscall::timespec::{capped, read_ts, ts_at};
use crate::uaccess::{bytes_at, field, mapped, num_at, stored, UserMem};

verus! {

/// A change to an interest list.
#[derive(Clone, Copy, PartialEq, Eq, Structural, Debug)]
pub struct Change {
    pub epoll: usize,
    pub op: i32,
    pub fd: i32,
    pub file: usize,
    pub events: u32,
    pub data: u64,
}

pub open spec fn change_spec(c: Ctx, m: Map<int, u8>, epfd: i32, op: i32, fd: i32, event: usize) -> Result<
    Change,
    i32,
> {
    match epoll_spec(c, epfd) {
        Err(e) => Err(e),
        Ok(epoll) => if !c.is_open(fd) {
            Err(EBADF)
        } else if op == EPOLL_CTL_DEL {
            Ok(
                Change { epoll, op, fd, file: c.file_no(fd) as usize, events: 0, data: 0 },
            )
        } else if !mapped(m, event as int, EVENT_SIZE as int) {
            Err(EFAULT)
        } else {
            Ok(
                Change {
                    epoll,
                    op,
                    fd,
                    file: c.file_no(fd) as usize,
                    events: num_at(m, event as int, 4) as u32,
                    data: num_at(m, event + 8, 8) as u64,
                },
            )
        },
    }
}

/// Reads a change to an interest list. Removing needs no event.
pub fn sys_epoll_ctl(c: &Ctx, mem: &UserMem, epfd: i32, op: i32, fd: i32, event: usize) -> (r: Result<
    Change,
    i32,
>)
    requires
        c.wf(),
    ensures
        r == change_spec(*c, mem@, epfd, op, fd, event),
{
    let epoll: usize = match get_epoll(c, epfd) {
        Ok(id) => id,
        Err(e) => {
            return Err(e);
        },
    };
    let file: usize = match get_file(c, fd) {
        Ok(f) => f,
        Err(e) => {
            return Err(e);
        },
    };
    if op == EPOLL_CTL_DEL {
        return Ok(Change { epoll, op, fd, file, events: 0, data: 0 });
    }
    match mem.copy_from_user(event, EVENT_SIZE) {
        Ok(b) => {
            let events: u64 = field(&b, 0, 4, Ghost(mem@), Ghost(event as int));
            let data: u64 = field(&b, 8, 8, Ghost(mem@), Ghost(event as int));
            proof {
                lemma_span();
            }
            Ok(Change { epoll, op, fd, file, events: events as u32, data })
        },
        Err(e) => Err(e),
    }
}

/// A wait on an interest list.
#[derive(Clone, Copy, PartialEq, Eq, Structural, Debug)]
pub struct EpollWait {
    pub epoll: usize,
    pub max: usize,
    /// When the wait is over, in nanoseconds; `None` for never.
    pub deadline: Option<u64>,
}

pub open spec fn wait_spec(c: Ctx, epfd: i32, max: i32, timeout_ms: i32, now: u64) -> Result<EpollWait, i32> {
    if max <= 0 {
        Err(EINVAL)
    } else {
        match epoll_spec(c, epfd) {
            Err(e) => Err(e),
            Ok(epoll) => Ok(
                EpollWait {
                    epoll,
                    max: max as usize,
                    deadline: if timeout_ms < 0 {
                        None
                    } else {
                        Some(capped(now + timeout_ms * 1_000_000) as u64)
                    },
                },
            ),
        }
    }
}

/// Begins to wait on an interest list.
pub fn sys_epoll_pwait(c: &Ctx, epfd: i32, max: i32, timeout_ms: i32, now: u64) -> (r: Result<EpollWait, i32>)
    requires
        c.wf(),
    ensures
        r == wait_spec(*c, epfd, max, timeout_ms, now),
{
    if max <= 0 {
        return Err(EINVAL);
    }
    let epoll: usize = match get_epoll(c, epfd) {
        Ok(id) => id,
        Err(e) => {
            return Err(e);
        },
    };
    let deadline: Option<u64> = if timeout_ms < 0 {
        None
    } else {
        let ns: u64 = timeout_ms as u64 * 1_000_000;
        if now > u64::MAX - ns {
            Some(u64::MAX)
        } else {
            Some(now + ns)
        }
    };
    Ok(EpollWait { epoll, max: max as usize, deadline })
}

/// The timeout of a wait in milliseconds; none for a null pointer.
pub fn sys_epoll_pwait2(mem: &UserMem, timeout: usize) -> (r: Result<i32, i32>)
    ensures
        match timeout_at(mem@, timeout) {
            Some(t) => r == Ok::<i32, i32>(t as i32),
            None => r == Err::<i32, i32>(EFAULT),
        },
{
    match read_timeout(mem, timeout) {
        Ok(t) => Ok(t as i32),
        Err(e) => Err(e),
    }
}

/// An event of an interest list.
#[derive(Clone, Copy, PartialEq, Eq, Structural, Debug)]
pub struct Event {
    pub events: u32,
    pub data: u64,
}

/// Events from the `k`-th on stored in a row: whether all could be, and the
/// memory after it.
pub open spec fn events_stored(m: Map<int, u8>, at: int, l: Seq<Event>, k: int) -> (bool, Map<int, u8>)
    decreases l.len() - k,
{
    let a = at + EVENT_SIZE * k;
    if !(0 <= k < l.len()) {
        (true, m)
    } else if !mapped(m, a, EVENT_SIZE as int) {
        (false, m)
    } else {
        events_stored(stored(m, a, event_bytes(l[k].events, l[k].data)), at, l, k + 1)
    }
}

/// Tells the events that a wait found.
#[verifier::loop_isolation(false)]
pub fn epoll_done(mem: &mut UserMem, at: usize, found: Result<Vec<Event>, i32>) -> (r: SysResult)
    ensures
        match found {
            Err(e) => r == err(e) && final(mem)@ == old(mem)@,
            Ok(l) => {
                let s = events_stored(old(mem)@, at as int, l@, 0);
                final(mem)@ == s.1 && r == (if s.0 {
                    ok(l@.len() as int)
                } else {
                    err(EFAULT)
                })
            },
        },
{
    let l: Vec<Event> = match found {
        Ok(l) => l,
        Err(e) => {
            return Err(e);
        },
    };
    let ghost all = events_stored(mem@, at as int, l@, 0);
    let n: usize = l.len();
    let mut k: usize = 0;
    let mut next: Option<usize> = Some(at);
    while k < n
        invariant
            k <= n == l@.len(),
            next is Some ==> next->0 == at + EVENT_SIZE * k,
            next is None ==> at + EVENT_SIZE * k > usize::MAX,
            events_stored(mem@, at as int, l@, k as int) == all,
        decreases n - k,
    {
        let mut b: Vec<u8> = Vec::new();
        put_le(&mut b, l[k].events as u64, 4);
        crate::bytes::put_zeros(&mut b, 4);
        put_le(&mut b, l[k].data, 8);
        proof {
            lemma_le_len(l@[k as int].events as nat, 4);
            lemma_le_len(l@[k as int].data as nat, 8);
            assert(b@ =~= event_bytes(l@[k as int].events, l@[k as int].data));
            mem.lemma_in_space();
        }
        let ghost a0 = at + EVENT_SIZE * k;
        match next {
            Some(a) => {
                match mem.copy_to_user(a, &b) {
                    Ok(_) => {},
                    Err(e) => {
                        return Err(e);
                    },
                }
                next = a.checked_add(EVENT_SIZE);
            },
            None => {
                proof {
                    assert(!mem@.dom().contains(a0));
                    assert(!mapped(mem@, a0, EVENT_SIZE as int));
                }
                return Err(EFAULT);
            },
        }
        k = k + 1;
    }
    Ok(n)
}

/// An entry of poll: what is asked for and what was found.
#[derive(Clone, Copy, PartialEq, Eq, Structural, Debug)]
pub struct PollFd {
    pub fd: i32,
    pub events: u16,
    pub revents: u16,
}

pub open spec fn pollfd_at(m: Map<int, u8>, at: int) -> PollFd {
    PollFd {
        fd: num_at(m, at, 4) as u32 as i32,
        events: num_at(m, at + 4, 2) as u16,
        revents: num_at(m, at + 6, 2) as u16,
    }
}

pub open spec fn pollfd_bytes(p: PollFd) -> Seq<u8> {
    le((p.fd as u32) as nat, 4) + le(p.events as nat, 2) + le(p.revents as nat, 2)
}

pub open spec fn pollfds_at(m: Map<int, u8>, at: int, n: int) -> Seq<PollFd> {
    Seq::new(n as nat, |i: int| pollfd_at(m, at + 8 * i))
}

pub const MAX_POLL: usize = 4096;

/// A wait with poll: the entries, the files behind them, and the deadline.
pub struct PollWait {
    pub pfds: Vec<PollFd>,
    pub files: Vec<Option<usize>>,
    pub deadline: Option<u64>,
}

/// The file behind an entry.
pub open spec fn file_for(c: Ctx, fd: i32) -> Option<usize> {
    if fd >= 0 && c.is_open(fd) {
        Some(c.file_no(fd) as usize)
    } else {
        None
    }
}

pub open spec fn deadline_at(m: Map<int, u8>, tsp: usize, now: u64) -> Option<u64> {
    if tsp == 0 {
        None
    } else {
        Some(capped(now + ts_at(m, tsp as int)) as u64)
    }
}

fn read_deadline(mem: &UserMem, tsp: usize, now: u64) -> (r: Result<Option<u64>, i32>)
    ensures
        if tsp != 0 && !mapped(mem@, tsp as int, 16) {
            r == Err::<Option<u64>, i32>(EFAULT)
        } else {
            r == Ok::<Option<u64>, i32>(deadline_at(mem@, tsp, now))
        },
{
    if tsp == 0 {
        return Ok(None);
    }
    match read_ts(mem, tsp) {
        Ok(ns) => {
            if now > u64::MAX - ns {
                Ok(Some(u64::MAX))
            } else {
                Ok(Some(now + ns))
            }
        },
        Err(e) => Err(e),
    }
}

/// Begins to wait with poll.
#[verifier::loop_isolation(false)]
pub fn sys_ppoll(c: &Ctx, mem: &UserMem, fds: usize, nfds: usize, tsp: usize, now: u64) -> (r: Result<
    PollWait,
    i32,
>)
    requires
        c.wf(),
    ensures
        if nfds > MAX_POLL {
            r is Err && r->Err_0 == EINVAL
        } else if !mapped(mem@, fds as int, 8 * nfds) || (tsp != 0 && !mapped(
            mem@,
            tsp as int,
            16,
        )) {
            r is Err && r->Err_0 == EFAULT
        } else {
            let l = pollfds_at(mem@, fds as int, nfds as int);
            &&& r is Ok
            &&& r->Ok_0.pfds@ == l
            &&& r->Ok_0.files@ == Seq::new(nfds as nat, |i: int| file_for(*c, l[i].fd))
            &&& r->Ok_0.deadline == deadline_at(mem@, tsp, now)
        },
{
    if nfds > MAX_POLL {
        return Err(EINVAL);
    }
    let ghost m = mem@;
    let ghost l = pollfds_at(m, fds as int, nfds as int);
    let mut pfds: Vec<PollFd> = Vec::new();
    let mut files: Vec<Option<usize>> = Vec::new();
    let mut i: usize = 0;
    let mut next: Option<usize> = Some(fds);
    proof {
        mem.lemma_in_space();
    }
    while i < nfds
        invariant
            i <= nfds,
            next is Some ==> next->0 == fds + 8 * i,
            next is None ==> fds + 8 * i > usize::MAX,
            mapped(m, fds as int, 8 * i),
            pfds@.len() == i,
            files@.len() == i,
            forall|j: int| 0 <= j < i ==> #[trigger] pfds@[j] == l[j],
            forall|j: int| 0 <= j < i ==> #[trigger] files@[j] == file_for(*c, l[j].fd),
        decreases nfds - i,
    {
        let at: usize = match next {
            Some(a) => a,
            None => {
                proof {
                    assert(!m.dom().contains(fds + 8 * i));
                }
                return Err(EFAULT);
            },
        };
        let b: Vec<u8> = match mem.copy_from_user(at, 8) {
            Ok(b) => b,
            Err(e) => {
                proof {
                    let a = choose|a: int| at <= a < at + 8 && !#[trigger] m.dom().contains(a);
                    assert(!m.dom().contains(a));
                }
                return Err(e);
            },
        };
        let fd: i32 = field(&b, 0, 4, Ghost(m), Ghost(at as int)) as u32 as i32;
        let events: u16 = field(&b, 4, 2, Ghost(m), Ghost(at as int)) as u16;
        let revents: u16 = field(&b, 6, 2, Ghost(m), Ghost(at as int)) as u16;
        let p = PollFd { fd, events, revents };
        proof {
            assert(p == l[i as int]);
            assert forall|a: int| fds <= a < fds + 8 * (i + 1) implies #[trigger] m.dom().contains(
            a) by {}
        }
        pfds.push(p);
        if fd < 0 {
            files.push(None);
        } else {
            match get_file(c, fd) {
                Ok(f) => files.push(Some(f)),
                Err(_) => files.push(None),
            }
        }
        next = at.checked_add(8);
        i = i + 1;
    }
    let deadline: Option<u64> = match read_deadline(mem, tsp, now) {
        Ok(d) => d,
        Err(e) => {
            return Err(e);
        },
    };
    proof {
        assert(pfds@ =~= l);
        assert(files@ =~= Seq::new(nfds as nat, |i: int| file_for(*c, l[i].fd)));
    }
    Ok(PollWait { pfds, files, deadline })
}

/// What an entry is told: nothing for a negative descriptor, that it is not
/// valid for one that is not open, else what it asked for and the file is ready
/// for, errors and hang-ups always.
pub open spec fn polled(p: PollFd, f: Option<usize>, ready: Seq<u32>) -> u16 {
    if p.fd < 0 {
        0
    } else {
        match f {
            None => POLLNVAL as u16,
            Some(k) => (ready[k as int] & (p.events as u32 | POLLERR | POLLHUP)) as u16,
        }
    }
}

/// An entry counts where it was told something.
pub open spec fn counts(p: PollFd, f: Option<usize>, ready: Seq<u32>) -> bool {
    p.fd >= 0 && match f {
        None => true,
        Some(k) => ready[k as int] & (p.events as u32 | POLLERR | POLLHUP) != 0,
    }
}

pub open spec fn looked(l: Seq<PollFd>, f: Seq<Option<usize>>, ready: Seq<u32>) -> Seq<PollFd> {
    Seq::new(l.len(), |i: int| PollFd { revents: polled(l[i], f[i], ready), ..l[i] })
}

/// How many of the first `n` entries count.
pub open spec fn count(l: Seq<PollFd>, f: Seq<Option<usize>>, ready: Seq<u32>, n: int) -> int
    decreases n,
{
    if n <= 0 {
        0
    } else if counts(l[n - 1], f[n - 1], ready) {
        count(l, f, ready, n - 1) + 1
    } else {
        count(l, f, ready, n - 1)
    }
}

/// How a wait goes on.
#[derive(Clone, Copy, PartialEq, Eq, Structural, Debug)]
pub enum Wait {
    /// It is over: tell the entries, and return this number.
    Over(usize),
    Interrupted,
    /// Block until a file changes or the deadline comes.
    Block,
}

pub open spec fn wait_step(n: int, deadline: Option<u64>, now: u64, interrupted: bool) -> Wait {
    if n > 0 || (deadline is Some && now >= deadline->0) {
        Wait::Over(n as usize)
    } else if interrupted {
        Wait::Interrupted
    } else {
        Wait::Block
    }
}

impl PollWait {
    pub open spec fn wf(&self, files: int) -> bool {
        self.pfds@.len() == self.files@.len() && self.pfds@.len() <= MAX_POLL && forall|i: int|
            0 <= i < self.files@.len() ==> match #[trigger] self.files@[i] {
                Some(f) => f < files,
                None => true,
            }
    }

    /// Looks once at all files; `ready` is what each file is ready for.
    pub fn round(&mut self, ready: &Vec<u32>, now: u64, interrupted: bool) -> (r: Wait)
        requires
            old(self).wf(ready@.len() as int),
        ensures
            final(self).wf(ready@.len() as int),
            final(self).files@ == old(self).files@,
            final(self).deadline == old(self).deadline,
            final(self).pfds@ == looked(old(self).pfds@, old(self).files@, ready@),
            r == wait_step(
                count(
                    old(self).pfds@,
                    old(self).files@,
                    ready@,
                    old(self).pfds@.len() as int,
                ),
                old(self).deadline,
                now,
                interrupted,
            ),
    {
        let ghost l = self.pfds@;
        let ghost f = self.files@;
        let n: usize = self.pfds.len();
        let mut i: usize = 0;
        let mut found: usize = 0;
        while i < n
            invariant
                i <= n == l.len(),
                found <= i,
                self.wf(ready@.len() as int),
                self.files@ == f,
                self.deadline == old(self).deadline,
                self.pfds@.len() == n,
                found == count(l, f, ready@, i as int),
                forall|j: int| 0 <= j < i ==> #[trigger] self.pfds@[j] == looked(l, f, ready@)[j],
                forall|j: int| i <= j < n ==> #[trigger] self.pfds@[j] == l[j],
            decreases n - i,
        {
            assert(self.pfds@[i as int] == l[i as int]);
            let mut p: PollFd = self.pfds[i];
            p.revents = 0;
            if p.fd >= 0 {
                match self.files[i] {
                    None => {
                        p.revents = POLLNVAL as u16;
                        found = found + 1;
                    },
                    Some(k) => {
                        proof {
                            assert(match self.files@[i as int] {
                                Some(f) => f < ready@.len(),
                                None => true,
                            });
                        }
                        let r: u32 = ready[k] & (p.events as u32 | POLLERR | POLLHUP);
                        if r != 0 {
                            p.revents = r as u16;
                            found = found + 1;
                        }
                    },
                }
            }
            self.pfds.set(i, p);
            i = i + 1;
        }
        proof {
            assert(self.pfds@ =~= looked(l, f, ready@));
        }
        if found > 0 {
            return Wait::Over(found);
        }
        match self.deadline {
            Some(d) => {
                if now >= d {
                    return Wait::Over(0);
                }
            },
            None => {},
        }
        if interrupted {
            return Wait::Interrupted;
        }
        Wait::Block
    }
}

/// Entries from the `k`-th on stored in a row.
pub open spec fn entries_stored(m: Map<int, u8>, at: int, l: Seq<PollFd>, k: int) -> (bool, Map<int, u8>)
    decreases l.len() - k,
{
    let a = at + 8 * k;
    if !(0 <= k < l.len()) {
        (true, m)
    } else if !mapped(m, a, 8) {
        (false, m)
    } else {
        entries_stored(stored(m, a, pollfd_bytes(l[k])), at, l, k + 1)
    }
}

/// Tells the entries at the end of a wait that found `n` of them ready.
#[verifier::loop_isolation(false)]
pub fn poll_done(mem: &mut UserMem, at: usize, l: &Vec<PollFd>, n: usize) -> (r: SysResult)
    ensures
        ({
            let s = entries_stored(old(mem)@, at as int, l@, 0);
            final(mem)@ == s.1 && r == (if s.0 {
                ok(n as int)
            } else {
                err(EFAULT)
            })
        }),
{
    let ghost all = entries_stored(mem@, at as int, l@, 0);
    let len: usize = l.len();
    let mut k: usize = 0;
    let mut next: Option<usize> = Some(at);
    while k < len
        invariant
            k <= len == l@.len(),
            next is Some ==> next->0 == at + 8 * k,
            next is None ==> at + 8 * k > usize::MAX,
            entries_stored(mem@, at as int, l@, k as int) == all,
        decreases len - k,
    {
        let p: PollFd = l[k];
        let mut b: Vec<u8> = Vec::new();
        put_le(&mut b, (p.fd as u32) as u64, 4);
        put_le(&mut b, p.events as u64, 2);
        put_le(&mut b, p.revents as u64, 2);
        proof {
            broadcast use crate::bytes::lemma_le_len;

            assert(b@ =~= pollfd_bytes(p));
            assert(b@.len() == 8);
            mem.lemma_in_space();
        }
        let ghost a0 = at + 8 * k;
        match next {
            Some(a) => {
                match mem.copy_to_user(a, &b) {
                    Ok(_) => {},
                    Err(e) => {
                        return Err(e);
                    },
                }
                next = a.checked_add(8);
            },
            None => {
                proof {
                    assert(!mem@.dom().contains(a0));
                    assert(!mapped(mem@, a0, 8));
                }
                return Err(EFAULT);
            },
        }
        k = k + 1;
    }
    Ok(n)
}

pub const MAX_SELECT: i32 = 1024;

/// How many words a set of descriptors has.
pub open spec fn set_words(nfds: int) -> int {
    (nfds + 63) / 64
}

/// A descriptor is in the set at an address; a null pointer is the empty set.
pub open spec fn in_set(m: Map<int, u8>, ptr: usize, fd: int) -> bool {
    ptr != 0 && (num_at(m, ptr + 8 * (fd / 64), 8) as u64) & (1u64 << ((fd % 64) as u64)) != 0
}

/// The sets of a call: for reading, writing and exceptions.
#[derive(Clone, Copy, PartialEq, Eq, Structural, Debug)]
pub struct Sets {
    pub read: usize,
    pub write: usize,
    pub except: usize,
}

pub open spec fn asked(m: Map<int, u8>, s: Sets, fd: int) -> bool {
    in_set(m, s.read, fd) || in_set(m, s.write, fd) || in_set(m, s.except, fd)
}

/// A file that is waited for, and for what.
#[derive(Clone, Copy, PartialEq, Eq, Structural, Debug)]
pub struct Sel {
    pub fd: usize,
    pub file: usize,
    pub read: bool,
    pub write: bool,
}

/// What is waited for among the first `n` descriptors.
pub open spec fn sels(e: Fds, m: Map<int, u8>, s: Sets, n: int) -> Seq<Sel>
    decreases n,
{
    if n <= 0 {
        Seq::empty()
    } else if asked(m, s, n - 1) {
        sels(e, m, s, n - 1).push(
            Sel {
                fd: (n - 1) as usize,
                file: e[n - 1]->0.file,
                read: in_set(m, s.read, n - 1),
                write: in_set(m, s.write, n - 1),
            },
        )
    } else {
        sels(e, m, s, n - 1)
    }
}

/// Why a wait with select is refused: too many descriptors, sets that cannot be
/// read, or a descriptor that is not open.
pub open spec fn select_error(e: Fds, m: Map<int, u8>, nfds: i32, s: Sets) -> Option<i32> {
    let w = set_words(nfds as int);
    if nfds < 0 || nfds > MAX_SELECT {
        Some(EINVAL)
    } else if !set_ok(m, s.read, w) || !set_ok(m, s.write, w) || !set_ok(m, s.except, w) {
        Some(EFAULT)
    } else if exists|fd: int| 0 <= fd < nfds && #[trigger] asked(m, s, fd) && !open_fd(e, fd) {
        Some(EBADF)
    } else {
        None
    }
}

/// The words of a set can be read.
pub open spec fn set_ok(m: Map<int, u8>, ptr: usize, words: int) -> bool {
    ptr == 0 || mapped(m, ptr as int, 8 * words)
}

fn read_set(mem: &UserMem, ptr: usize, words: usize) -> (r: Result<Vec<u8>, i32>)
    requires
        words <= 16,
    ensures
        match r {
            Ok(v) => set_ok(mem@, ptr, words as int) && (ptr != 0 ==> v@ == bytes_at(
                mem@,
                ptr as int,
                8 * words,
            )),
            Err(e) => !set_ok(mem@, ptr, words as int) && e == EFAULT,
        },
{
    if ptr == 0 {
        return Ok(Vec::new());
    }
    mem.copy_from_user(ptr, 8 * words)
}

fn test_set(v: &Vec<u8>, Ghost(m): Ghost<Map<int, u8>>, ptr: usize, words: usize, fd: usize) -> (r: bool)
    requires
        fd < 64 * words,
        words <= 16,
        ptr != 0 ==> v@ == bytes_at(m, ptr as int, 8 * words),
    ensures
        r == in_set(m, ptr, fd as int),
{
    if ptr == 0 {
        return false;
    }
    let w: u64 = field(v, 8 * (fd / 64), 8, Ghost(m), Ghost(ptr as int));
    w & (1u64 << ((fd % 64) as u64)) != 0
}

/// A wait with select.
pub struct SelectWait {
    pub words: usize,
    pub files: Vec<Sel>,
    pub deadline: Option<u64>,
}

/// Every open descriptor leads to one of `n` files.
pub open spec fn files_below(e: Fds, n: int) -> bool {
    forall|fd: int| open_fd(e, fd) ==> (#[trigger] e[fd])->0.file < n
}

/// Reads which descriptors are waited for. Every one that is asked for must be
/// open.
#[verifier::loop_isolation(false)]
pub(crate) fn select_files(fds: &FdTable, mem: &UserMem, nfds: i32, s: &Sets, Ghost(files): Ghost<int>) -> (r: Result<
    SelectWait,
    i32,
>)
    requires
        files_below(fds.entries@, files),
    ensures
        match select_error(fds.entries@, mem@, nfds, *s) {
            Some(e) => r is Err && r->Err_0 == e,
            None => {
                &&& r is Ok
                &&& r->Ok_0.words == set_words(nfds as int)
                &&& r->Ok_0.files@ == sels(fds.entries@, mem@, *s, nfds as int)
                &&& r->Ok_0.deadline is None
                &&& r->Ok_0.wf(files)
            },
        },
{
    if nfds < 0 || nfds > MAX_SELECT {
        return Err(EINVAL);
    }
    let n: usize = nfds as usize;
    let words: usize = (n + 63) / 64;
    let ghost m = mem@;
    let ghost t = fds.entries@;
    let rs: Vec<u8> = match read_set(mem, s.read, words) {
        Ok(v) => v,
        Err(e) => {
            return Err(e);
        },
    };
    let ws: Vec<u8> = match read_set(mem, s.write, words) {
        Ok(v) => v,
        Err(e) => {
            return Err(e);
        },
    };
    let es: Vec<u8> = match read_set(mem, s.except, words) {
        Ok(v) => v,
        Err(e) => {
            return Err(e);
        },
    };
    let mut list: Vec<Sel> = Vec::new();
    let mut fd: usize = 0;
    while fd < n
        invariant
            fd <= n,
            list@ == sels(t, m, *s, fd as int),
            forall|k: int| 0 <= k < fd && #[trigger] asked(m, *s, k) ==> open_fd(t, k),
            forall|i: int|
                0 <= i < list@.len() ==> (#[trigger] list@[i]).file < files && list@[i].fd < 64
                    * words,
            list@.len() <= fd,
        decreases n - fd,
    {
        let r: bool = test_set(&rs, Ghost(m), s.read, words, fd);
        let w: bool = test_set(&ws, Ghost(m), s.write, words, fd);
        let e: bool = test_set(&es, Ghost(m), s.except, words, fd);
        if r || w || e {
            proof {
                assert(asked(m, *s, fd as int));
            }
            match fds.get(fd as i32) {
                Ok(file) => {
                    proof {
                        assert(t[fd as int]->0.file < files);
                    }
                    list.push(Sel { fd, file, read: r, write: w });
                },
                Err(e) => {
                    return Err(e);
                },
            }
        }
        fd = fd + 1;
    }
    Ok(SelectWait { words, files: list, deadline: None })
}

/// Begins to wait with select. Every descriptor that is asked for must be open.
pub fn sys_pselect6(c: &Ctx, mem: &UserMem, nfds: i32, s: &Sets, tsp: usize, now: u64) -> (r: Result<
    SelectWait,
    i32,
>)
    requires
        c.wf(),
    ensures
        ({
            let m = mem@;
            let w = set_words(nfds as int);
            if nfds < 0 || nfds > MAX_SELECT {
                r is Err && r->Err_0 == EINVAL
            } else if !set_ok(m, s.read, w) || !set_ok(m, s.write, w) || !set_ok(m, s.except, w)
                || (tsp != 0 && !mapped(m, tsp as int, 16)) {
                r is Err && r->Err_0 == EFAULT
            } else if exists|fd: int|
                0 <= fd < nfds && #[trigger] asked(m, *s, fd) && !c.is_open(fd as i32) {
                r is Err && r->Err_0 == EBADF
            } else {
                &&& r is Ok
                &&& r->Ok_0.words == w
                &&& r->Ok_0.files@ == sels(c.fds.entries@, m, *s, nfds as int)
                &&& r->Ok_0.deadline == deadline_at(m, tsp, now)
            }
        }),
        r is Ok ==> r->Ok_0.wf(c.files@.len() as int),
{
    if nfds < 0 || nfds > MAX_SELECT {
        return Err(EINVAL);
    }
    let deadline: Option<u64> = match read_deadline(mem, tsp, now) {
        Ok(d) => d,
        Err(e) => {
            return Err(e);
        },
    };
    proof {
        let m = mem@;
        let t = c.fds.entries@;
        if exists|fd: int| 0 <= fd < nfds && #[trigger] asked(m, *s, fd) && !open_fd(t, fd) {
            let fd = choose|fd: int| 0 <= fd < nfds && #[trigger] asked(m, *s, fd) && !open_fd(t, fd);
            assert(asked(m, *s, fd) && !c.is_open(fd as i32));
        }
        if exists|fd: int| 0 <= fd < nfds && #[trigger] asked(m, *s, fd) && !c.is_open(fd as i32) {
            let fd = choose|fd: int|
                0 <= fd < nfds && #[trigger] asked(m, *s, fd) && !c.is_open(fd as i32);
            assert(asked(m, *s, fd) && !open_fd(t, fd));
        }
    }
    match select_files(&c.fds, mem, nfds, s, Ghost(c.files@.len() as int)) {
        Ok(w) => Ok(SelectWait { words: w.words, files: w.files, deadline }),
        Err(e) => Err(e),
    }
}

pub open spec fn read_ready(x: Sel, ready: Seq<u32>) -> bool {
    x.read && ready[x.file as int] & (POLLIN | POLLHUP | POLLERR) != 0
}

pub open spec fn write_ready(x: Sel, ready: Seq<u32>) -> bool {
    x.write && ready[x.file as int] & (POLLOUT | POLLERR) != 0
}

pub open spec fn set_bit(l: Seq<u64>, fd: usize) -> Seq<u64> {
    l.update(fd as int / 64, l[fd as int / 64] | (1u64 << ((fd as int % 64) as u64)))
}

/// The sets of ready descriptors and how many there are, among the first `k`
/// that are waited for.
pub open spec fn selected(l: Seq<Sel>, ready: Seq<u32>, words: nat, k: int) -> (Seq<u64>, Seq<u64>, int)
    decreases k,
{
    if k <= 0 {
        (Seq::new(words, |i: int| 0u64), Seq::new(words, |i: int| 0u64), 0)
    } else {
        let p = selected(l, ready, words, k - 1);
        let x = l[k - 1];
        let rr = read_ready(x, ready);
        let wr = write_ready(x, ready);
        (
            if rr {
                set_bit(p.0, x.fd)
            } else {
                p.0
            },
            if wr {
                set_bit(p.1, x.fd)
            } else {
                p.1
            },
            p.2 + (if rr {
                1int
            } else {
                0
            }) + (if wr {
                1int
            } else {
                0
            }),
        )
    }
}

/// What a look at the files found.
pub struct Found {
    pub read: Vec<u64>,
    pub write: Vec<u64>,
    pub step: Wait,
}

fn zero_words(n: usize) -> (r: Vec<u64>)
    ensures
        r@ == Seq::new(n as nat, |i: int| 0u64),
{
    let mut r: Vec<u64> = Vec::new();
    let mut i: usize = 0;
    while i < n
        invariant
            i <= n,
            r@ == Seq::new(i as nat, |i: int| 0u64),
        decreases n - i,
    {
        r.push(0);
        i = i + 1;
        proof {
            assert(r@ =~= Seq::new(i as nat, |i: int| 0u64));
        }
    }
    r
}

impl SelectWait {
    pub open spec fn wf(&self, files: int) -> bool {
        &&& self.words <= 16
        &&& self.files@.len() <= 1024
        &&& forall|i: int|
            0 <= i < self.files@.len() ==> (#[trigger] self.files@[i]).file < files
                && self.files@[i].fd < 64 * self.words
    }

    /// Looks once at all files. A wait is over when a file is ready or the
    /// deadline has come.
    pub fn round(&self, ready: &Vec<u32>, now: u64, interrupted: bool) -> (r: Found)
        requires
            self.wf(ready@.len() as int),
        ensures
            ({
                let s = selected(
                    self.files@,
                    ready@,
                    self.words as nat,
                    self.files@.len() as int,
                );
                &&& r.read@ == s.0
                &&& r.write@ == s.1
                &&& r.step == wait_step(s.2, self.deadline, now, interrupted)
                &&& 0 <= s.2 <= 2 * self.files@.len()
            }),
            r.read@.len() == self.words,
            r.write@.len() == self.words,
    {
        let ghost l = self.files@;
        let n: usize = self.files.len();
        let mut read: Vec<u64> = zero_words(self.words);
        let mut write: Vec<u64> = zero_words(self.words);
        let mut count: usize = 0;
        let mut k: usize = 0;
        while k < n
            invariant
                k <= n == l.len(),
                l == self.files@,
                self.wf(ready@.len() as int),
                count <= 2 * k,
                read@.len() == self.words,
                write@.len() == self.words,
                (read@, write@, count as int) == selected(l, ready@, self.words as nat, k as int),
            decreases n - k,
        {
            let x: Sel = self.files[k];
            proof {
                assert(self.files@[k as int].fd < 64 * self.words);
            }
            let rd: u32 = ready[x.file];
            let w: usize = x.fd / 64;
            if x.read && rd & (POLLIN | POLLHUP | POLLERR) != 0 {
                let v: u64 = read[w] | (1u64 << ((x.fd % 64) as u64));
                read.set(w, v);
                count = count + 1;
            }
            if x.write && rd & (POLLOUT | POLLERR) != 0 {
                let v: u64 = write[w] | (1u64 << ((x.fd % 64) as u64));
                write.set(w, v);
                count = count + 1;
            }
            k = k + 1;
        }
        let late: bool = match self.deadline {
            Some(d) => now >= d,
            None => false,
        };
        let step: Wait = if count > 0 || late {
            Wait::Over(count)
        } else if interrupted {
            Wait::Interrupted
        } else {
            Wait::Block
        };
        Found { read, write, step }
    }
}

/// What is stored at the end, for the first `k` words: those of the sets that
/// were given, and zeros for exceptions.
pub open spec fn set_outs(s: Sets, read: Seq<u64>, write: Seq<u64>, k: int) -> Seq<OutView>
    decreases k,
{
    if k <= 0 {
        Seq::empty()
    } else {
        let a = if s.read != 0 {
            seq![out((s.read + 8 * (k - 1)) as usize, le(read[k - 1] as nat, 8))]
        } else {
            Seq::empty()
        };
        let b = if s.write != 0 {
            seq![out((s.write + 8 * (k - 1)) as usize, le(write[k - 1] as nat, 8))]
        } else {
            Seq::empty()
        };
        let c = if s.except != 0 {
            seq![out((s.except + 8 * (k - 1)) as usize, le(0, 8))]
        } else {
            Seq::empty()
        };
        set_outs(s, read, write, k - 1) + a + b + c
    }
}

/// Tells the sets at the end of a wait that found `n` descriptors ready.
pub fn select_done(mem: &mut UserMem, s: &Sets, read: &Vec<u64>, write: &Vec<u64>, n: usize) -> (r: SysResult)
    requires
        read@.len() == write@.len(),
        read@.len() <= 16,
        s.read + 8 * read@.len() <= usize::MAX + 1,
        s.write + 8 * read@.len() <= usize::MAX + 1,
        s.except + 8 * read@.len() <= usize::MAX + 1,
    ensures
        ({
            let x = store_all(old(mem)@, set_outs(*s, read@, write@, read@.len() as int));
            final(mem)@ == x.1 && r == (if x.0 {
                ok(n as int)
            } else {
                err(EFAULT)
            })
        }),
{
    let len: usize = read.len();
    let mut l: Vec<Out> = Vec::new();
    let mut k: usize = 0;
    proof {
        assert(views(l@) =~= set_outs(*s, read@, write@, 0));
    }
    while k < len
        invariant
            k <= len == read@.len(),
            len == write@.len(),
            len <= 16,
            s.read + 8 * len <= usize::MAX + 1,
            s.write + 8 * len <= usize::MAX + 1,
            s.except + 8 * len <= usize::MAX + 1,
            views(l@) == set_outs(*s, read@, write@, k as int),
        decreases len - k,
    {
        let ghost v0 = views(l@);
        let ghost a = if s.read != 0 {
            seq![out((s.read + 8 * k) as usize, le(read@[k as int] as nat, 8))]
        } else {
            Seq::empty()
        };
        let ghost b = if s.write != 0 {
            seq![out((s.write + 8 * k) as usize, le(write@[k as int] as nat, 8))]
        } else {
            Seq::empty()
        };
        let ghost c = if s.except != 0 {
            seq![out((s.except + 8 * k) as usize, le(0, 8))]
        } else {
            Seq::empty()
        };
        if s.read != 0 {
            l.push(bytes_out(s.read + 8 * k, crate::bytes::le_bytes(read[k], 8)));
        }
        proof {
            assert(views(l@) =~= v0 + a);
        }
        if s.write != 0 {
            l.push(bytes_out(s.write + 8 * k, crate::bytes::le_bytes(write[k], 8)));
        }
        proof {
            assert(views(l@) =~= v0 + a + b);
        }
        if s.except != 0 {
            l.push(bytes_out(s.except + 8 * k, crate::bytes::le_bytes(0, 8)));
        }
        proof {
            assert(views(l@) =~= v0 + a + b + c);
        }
        k = k + 1;
    }
    match store_each(mem, &l) {
        Ok(_) => Ok(n),
        Err(e) => Err(e),
    }
}

/// A descriptor that is ready for reading is in the set that is told.
pub proof fn ready_is_told(l: Seq<Sel>, ready: Seq<u32>, words: nat, k: int)
    requires
        0 <= k < l.len(),
        forall|i: int| 0 <= i < l.len() ==> (#[trigger] l[i]).fd < 64 * words,
        read_ready(l[k], ready),
    ensures
        ({
            let s = selected(l, ready, words, l.len() as int);
            s.0[l[k].fd as int / 64] & (1u64 << ((l[k].fd as int % 64) as u64)) != 0
        }),
        selected(l, ready, words, l.len() as int).2 > 0,
{
    lemma_told(l, ready, words, k, l.len() as int);
}

proof fn lemma_told(l: Seq<Sel>, ready: Seq<u32>, words: nat, k: int, n: int)
    requires
        0 <= k < n <= l.len(),
        forall|i: int| 0 <= i < l.len() ==> (#[trigger] l[i]).fd < 64 * words,
        read_ready(l[k], ready),
    ensures
        ({
            let s = selected(l, ready, words, n);
            &&& s.0.len() == words
            &&& s.0[l[k].fd as int / 64] & (1u64 << ((l[k].fd as int % 64) as u64)) != 0
            &&& s.2 > 0
        }),
    decreases n,
{
    lemma_words(l, ready, words, n - 1);
    let p = selected(l, ready, words, n - 1);
    let x = l[n - 1];
    let w = l[k].fd as int / 64;
    let b = 1u64 << ((l[k].fd as int % 64) as u64);
    let y = 1u64 << ((x.fd as int % 64) as u64);
    let old_word = p.0[w];
    if k == n - 1 {
        let sh = (l[k].fd as int % 64) as u64;
        assert(crate::sigset::bit(sh + 1) == b);
        crate::sigset::set_algebra(old_word, b, sh + 1);
    } else {
        lemma_told(l, ready, words, k, n - 1);
        if read_ready(x, ready) && x.fd as int / 64 == w {
            let sh = (l[k].fd as int % 64) as u64;
            assert(crate::sigset::bit(sh + 1) == b);
            crate::sigset::set_algebra(old_word, y, sh + 1);
        }
    }
}

proof fn lemma_words(l: Seq<Sel>, ready: Seq<u32>, words: nat, n: int)
    requires
        n <= l.len(),
        forall|i: int| 0 <= i < l.len() ==> (#[trigger] l[i]).fd < 64 * words,
    ensures
        selected(l, ready, words, n).0.len() == words,
        selected(l, ready, words, n).1.len() == words,
        selected(l, ready, words, n).2 >= 0,
    decreases n,
{
    if n > 0 {
        lemma_words(l, ready, words, n - 1);
        assert(l[n - 1].fd < 64 * words);
    }
}

/// What an entry of poll is told, bit by bit: what it asked for and the file is
/// ready for, errors (bit 3) and hang-ups (bit 4) always; bit 5 for a descriptor
/// that is not open, and nothing for a negative one.
pub proof fn polled_by_bit(p: PollFd, f: Option<usize>, ready: Seq<u32>, b: u16)
    requires
        b < 16,
    ensures
        p.fd < 0 ==> polled(p, f, ready) == 0,
        p.fd >= 0 && f is None ==> polled(p, f, ready) == 0x20,
        p.fd >= 0 && f is Some ==> (polled(p, f, ready) & (1u16 << b) != 0 <==> ready[f->0 as int] & (
        1u32 << (b as u32)) != 0 && (p.events & (1u16 << b) != 0 || b == 3 || b == 4)),
{
    if p.fd >= 0 && f is Some {
        let r = ready[f->0 as int];
        let e = p.events;
        assert(((r & (e as u32 | 8 | 0x10)) as u16) & (1u16 << b) != 0 <==> r & (1u32 << (b as u32))
            != 0 && (e & (1u16 << b) != 0 || b == 3 || b == 4)) by (bit_vector)
            requires
                b < 16,
        ;
    }
}

/// Poll returns how many entries were told something: none exactly where every
/// entry is told nothing, and one more for each further entry that is.
pub proof fn told_entries_count(l: Seq<PollFd>, f: Seq<Option<usize>>, ready: Seq<u32>, n: int)
    requires
        0 <= n <= l.len(),
        l.len() == f.len(),
        forall|k: int| 0 <= k < ready.len() ==> #[trigger] ready[k] < 0x1_0000,
        forall|k: int| 0 <= k < f.len() && (#[trigger] f[k]) is Some ==> f[k]->0 < ready.len(),
    ensures
        0 <= count(l, f, ready, n) <= n,
        count(l, f, ready, n) == 0 <==> forall|k: int|
            0 <= k < n ==> polled(#[trigger] l[k], f[k], ready) == 0,
        n > 0 ==> count(l, f, ready, n) - count(l, f, ready, n - 1) == (if polled(
            l[n - 1],
            f[n - 1],
            ready,
        ) != 0 {
            1int
        } else {
            0
        }),
    decreases n,
{
    if n > 0 {
        told_entries_count(l, f, ready, n - 1);
        let p = l[n - 1];
        if p.fd >= 0 && f[n - 1] is Some {
            let r = ready[f[n - 1]->0 as int];
            let e = p.events;
            assert((r & (e as u32 | 8 | 0x10)) as u16 != 0 <==> r & (e as u32 | 8 | 0x10) != 0)
                by (bit_vector)
                requires
                    r < 0x1_0000,
            ;
        }
        assert(counts(p, f[n - 1], ready) <==> polled(p, f[n - 1], ready) != 0);
        assert((forall|k: int| 0 <= k < n ==> polled(#[trigger] l[k], f[k], ready) == 0) ==> polled(
            l[n - 1],
            f[n - 1],
            ready,
        ) == 0);
    }
}

/// An entry of poll has its descriptor in the first four of eight bytes, then what
/// it asks for and what it is told, two bytes each.
pub proof fn entry_reads_back(m: Map<int, u8>, at: int, p: PollFd)
    requires
        mapped(m, at, 8),
    ensures
        pollfd_at(stored(m, at, pollfd_bytes(p)), at) == p,
        num_at(stored(m, at, pollfd_bytes(p)), at, 4) == p.fd as u32,
        num_at(stored(m, at, pollfd_bytes(p)), at + 4, 2) == p.events,
        num_at(stored(m, at, pollfd_bytes(p)), at + 6, 2) == p.revents,
{
    broadcast use crate::bytes::lemma_le_len;

    crate::bytes::lemma_span();
    let b = pollfd_bytes(p);
    let t = stored(m, at, b);
    let fd = (p.fd as u32) as nat;
    assert forall|k: int| 0 <= k < 8 implies t[at + k] == #[trigger] b[k] by {
        assert(m.dom().contains(at + k));
    }
    assert(bytes_at(t, at, 4) =~= le(fd, 4)) by {
        assert forall|k: int| 0 <= k < 4 implies bytes_at(t, at, 4)[k] == le(fd, 4)[k] by {
            assert(t[at + k] == b[k]);
        }
    }
    assert(bytes_at(t, at + 4, 2) =~= le(p.events as nat, 2)) by {
        assert forall|k: int| 0 <= k < 2 implies bytes_at(t, at + 4, 2)[k] == le(
            p.events as nat,
            2,
        )[k] by {
            assert(t[at + (4 + k)] == b[4 + k]);
        }
    }
    assert(bytes_at(t, at + 6, 2) =~= le(p.revents as nat, 2)) by {
        assert forall|k: int| 0 <= k < 2 implies bytes_at(t, at + 6, 2)[k] == le(
            p.revents as nat,
            2,
        )[k] by {
            assert(t[at + (6 + k)] == b[6 + k]);
        }
    }
    crate::bytes::from_le_of_le(fd, 4);
    crate::bytes::from_le_of_le(p.events as nat, 2);
    crate::bytes::from_le_of_le(p.revents as nat, 2);
    let x = p.fd;
    assert((x as u32) as i32 == x) by (bit_vector);
}

/// A descriptor is in a set of select that is told if and only if it was asked for
/// there and its file is ready: for reading with input, a hang-up or an error, for
/// writing with output or an error.
pub proof fn sets_hold_the_ready(l: Seq<Sel>, ready: Seq<u32>, words: nat, n: int, fd: int)
    requires
        0 <= n <= l.len(),
        forall|i: int| 0 <= i < l.len() ==> (#[trigger] l[i]).fd < 64 * words,
        0 <= fd < 64 * words,
    ensures
        ({
            let s = selected(l, ready, words, n);
            &&& s.0.len() == words && s.1.len() == words
            &&& s.0[fd / 64] & (1u64 << ((fd % 64) as u64)) != 0 <==> exists|k: int|
                0 <= k < n && (#[trigger] l[k]).fd == fd && l[k].read && ready[l[k].file as int]
                    & 0x19 != 0
            &&& s.1[fd / 64] & (1u64 << ((fd % 64) as u64)) != 0 <==> exists|k: int|
                0 <= k < n && (#[trigger] l[k]).fd == fd && l[k].write && ready[l[k].file as int]
                    & 0xc != 0
        }),
    decreases n,
{
    let s = selected(l, ready, words, n);
    lemma_words(l, ready, words, n);
    let b = 1u64 << ((fd % 64) as u64);
    let sig = fd % 64 + 1;
    assert(crate::sigset::bit(sig) == b);
    if n <= 0 {
        crate::sigset::set_algebra(0, 0, sig);
        assert(s.0[fd / 64] == 0 && s.1[fd / 64] == 0);
    } else {
        sets_hold_the_ready(l, ready, words, n - 1, fd);
        lemma_words(l, ready, words, n - 1);
        let p = selected(l, ready, words, n - 1);
        let x = l[n - 1];
        let r = ready[x.file as int];
        assert(1u32 | 0x10 | 8 == 0x19 && 4u32 | 8 == 0xc) by (bit_vector);
        assert(read_ready(x, ready) <==> x.read && r & 0x19 != 0);
        assert(write_ready(x, ready) <==> x.write && r & 0xc != 0);
        let other = x.fd as int % 64 + 1;
        let y = 1u64 << ((x.fd as int % 64) as u64);
        assert(crate::sigset::bit(other) == y);
        crate::sigset::set_algebra(p.0[fd / 64], y, sig);
        crate::sigset::set_algebra(p.1[fd / 64], y, sig);
        crate::sigset::bits_differ(other, sig);
        assert(x.fd as int / 64 == fd / 64 && other == sig <==> x.fd == fd);
        let had_r = exists|k: int|
            0 <= k < n - 1 && (#[trigger] l[k]).fd == fd && l[k].read && ready[l[k].file as int]
                & 0x19 != 0;
        let has_r = exists|k: int|
            0 <= k < n && (#[trigger] l[k]).fd == fd && l[k].read && ready[l[k].file as int] & 0x19
                != 0;
        assert(has_r <==> had_r || (x.fd == fd && read_ready(x, ready))) by {
            if x.fd == fd && read_ready(x, ready) {
                assert(l[n - 1].fd == fd);
            }
        }
        let had_w = exists|k: int|
            0 <= k < n - 1 && (#[trigger] l[k]).fd == fd && l[k].write && ready[l[k].file as int]
                & 0xc != 0;
        let has_w = exists|k: int|
            0 <= k < n && (#[trigger] l[k]).fd == fd && l[k].write && ready[l[k].file as int] & 0xc
                != 0;
        assert(has_w <==> had_w || (x.fd == fd && write_ready(x, ready))) by {
            if x.fd == fd && write_ready(x, ready) {
                assert(l[n - 1].fd == fd);
            }
        }
    }
}

/// What select waits for among the descriptors is each that is in one of its sets,
/// for what the set says, and its file.
pub proof fn asked_is_waited_for(e: Fds, m: Map<int, u8>, s: Sets, n: int, fd: int)
    requires
        0 <= fd < n <= usize::MAX,
    ensures
        in_set(m, s.read, fd) || in_set(m, s.write, fd) || in_set(m, s.except, fd) <==> exists|k: int|
            0 <= k < sels(e, m, s, n).len() && (#[trigger] sels(e, m, s, n)[k]).fd == fd,
        forall|k: int|
            0 <= k < sels(e, m, s, n).len() && (#[trigger] sels(e, m, s, n)[k]).fd == fd ==> {
                &&& sels(e, m, s, n)[k].read == in_set(m, s.read, fd)
                &&& sels(e, m, s, n)[k].write == in_set(m, s.write, fd)
                &&& sels(e, m, s, n)[k].file == e[fd]->0.file
            },
    decreases n,
{
    let l = sels(e, m, s, n);
    let p = sels(e, m, s, n - 1);
    lemma_sels_below(e, m, s, n - 1);
    if fd < n - 1 {
        asked_is_waited_for(e, m, s, n - 1, fd);
        if exists|k: int| 0 <= k < p.len() && (#[trigger] p[k]).fd == fd {
            let k = choose|k: int| 0 <= k < p.len() && (#[trigger] p[k]).fd == fd;
            assert(l[k] == p[k]);
        }
        assert forall|k: int| 0 <= k < l.len() && (#[trigger] l[k]).fd == fd implies k < p.len()
            && p[k] == l[k] by {}
    } else if asked(m, s, fd) {
        assert(l[l.len() - 1].fd == fd);
        assert forall|k: int| 0 <= k < l.len() && (#[trigger] l[k]).fd == fd implies k == l.len()
            - 1 by {
            if k < p.len() {
                assert(p[k] == l[k]);
            }
        }
    } else {
        assert forall|k: int| 0 <= k < l.len() implies (#[trigger] l[k]).fd != fd by {
            assert(p[k] == l[k]);
        }
    }
}

proof fn lemma_sels_below(e: Fds, m: Map<int, u8>, s: Sets, n: int)
    requires
        n <= usize::MAX,
    ensures
        forall|k: int| 0 <= k < sels(e, m, s, n).len() ==> (#[trigger] sels(e, m, s, n)[k]).fd < n,
    decreases n,
{
    if n > 0 {
        lemma_sels_below(e, m, s, n - 1);
        let p = sels(e, m, s, n - 1);
        let l = sels(e, m, s, n);
        assert forall|k: int| 0 <= k < l.len() implies (#[trigger] l[k]).fd < n by {
            if k < p.len() {
                assert(p[k] == l[k]);
            }
        }
    }
}

/// A wait is over when something is ready or its deadline has come; otherwise a
/// signal interrupts it, and without one it blocks.
pub proof fn wait_goes_on_or_ends(n: usize, deadline: Option<u64>, now: u64, interrupted: bool)
    ensures
        n > 0 ==> wait_step(n as int, deadline, now, interrupted) == Wait::Over(n),
        n == 0 && deadline is Some && deadline->0 <= now ==> wait_step(0, deadline, now, interrupted)
            == Wait::Over(0),
        n == 0 && (deadline is None || now < deadline->0) ==> wait_step(0, deadline, now, interrupted)
            == (if interrupted {
            Wait::Interrupted
        } else {
            Wait::Block
        }),
{
}

/// A wait is over when its time has passed: a negative timeout never ends, any other
/// that many milliseconds after now; without a time, poll waits for ever.
pub proof fn deadlines_are_in_time(c: Ctx, epfd: i32, max: i32, timeout_ms: i32, m: Map<int, u8>, tsp: usize, now: u64)
    requires
        now + i32::MAX * 1_000_000 <= u64::MAX,
        tsp != 0 ==> now + ts_at(m, tsp as int) <= u64::MAX,
    ensures
        wait_spec(c, epfd, max, timeout_ms, now) matches Ok(w) ==> {
            &&& timeout_ms < 0 <==> w.deadline is None
            &&& timeout_ms >= 0 ==> w.deadline->0 - now == timeout_ms * 1_000_000
            &&& w.max == max && max > 0
        },
        deadline_at(m, tsp, now) is None <==> tsp == 0,
        tsp != 0 ==> deadline_at(m, tsp, now)->0 - now == ts_at(m, tsp as int),
{
}

/// Events that are told lie in a row of sixteen bytes each: event `k` has its events
/// and its data at its place.
pub proof fn events_lie_in_a_row(m: Map<int, u8>, at: int, l: Seq<Event>, i: int, k: int)
    requires
        0 <= i <= k < l.len(),
        events_stored(m, at, l, i).0,
    ensures
        num_at(events_stored(m, at, l, i).1, at + 16 * k, 4) == l[k].events,
        num_at(events_stored(m, at, l, i).1, at + 16 * k + 8, 8) == l[k].data,
    decreases l.len() - i,
{
    let a = at + EVENT_SIZE * i;
    let t = stored(m, a, event_bytes(l[i].events, l[i].data));
    assert(mapped(m, a, 16));
    if k == i {
        crate::syscall::readiness::event_reads_back(m, a, l[i].events, l[i].data);
        let f = events_stored(t, at, l, i + 1).1;
        assert forall|y: int| a <= y < a + 16 implies #[trigger] f[y] == t[y] by {
            assert(m.dom().contains(y));
            assert(t.dom().contains(y));
            lemma_events_frame(t, at, l, i + 1, y);
        }
        assert(bytes_at(f, a, 4) =~= bytes_at(t, a, 4));
        assert(bytes_at(f, a + 8, 8) =~= bytes_at(t, a + 8, 8));
    } else {
        events_lie_in_a_row(t, at, l, i + 1, k);
    }
}

proof fn lemma_events_frame(m: Map<int, u8>, at: int, l: Seq<Event>, i: int, y: int)
    requires
        0 <= i,
        y < at + 16 * i,
    ensures
        events_stored(m, at, l, i).1.dom() == m.dom(),
        m.dom().contains(y) ==> events_stored(m, at, l, i).1[y] == m[y],
    decreases l.len() - i,
{
    let a = at + EVENT_SIZE * i;
    if i < l.len() && mapped(m, a, EVENT_SIZE as int) {
        let t = stored(m, a, event_bytes(l[i].events, l[i].data));
        assert(t.dom() =~= m.dom());
        lemma_events_frame(t, at, l, i + 1, y);
    }
}

} // verus!
