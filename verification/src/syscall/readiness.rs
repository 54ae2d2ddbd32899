//! Waiting for files to become ready: poll, select and epoll.

use vstd::prelude::*;
use crate::abi::{POLLERR, POLLHUP, POLLIN, POLLOUT};
use crate::bytes::{le, lemma_le_len, lemma_span, put_le, put_zeros, zeros};
use crate::errno::{SysResult, EBADF, EFAULT, EINTR, EINVAL};
use crate::file::{open_fd, Fds};
use crate::syscall::process::{err, ok};
use crate::syscall::reply::store_all;
use crate::syscall::select::{
    files_below, select_done, select_error, select_files, selected, sels, set_outs, set_words, Found,
    SelectWait, Sets, Wait,
};
use crate::syscall::transfer::IoStep;
use crate::task::process::{File, FileObj, Process};
use crate::task::signal::SignalState;
use crate::uaccess::{bytes_at, field, mapped, num_at, stored, UserMem};

verus! {

/// Division that rounds toward zero.
pub open spec fn towards_zero(x: int, d: int) -> int {
    if x >= 0 {
        x / d
    } else {
        -((-x) / d)
    }
}

pub open spec fn clamp(x: int) -> i64 {
    if x > i64::MAX {
        i64::MAX
    } else if x < i64::MIN {
        i64::MIN
    } else {
        x as i64
    }
}

/// Seconds and nanoseconds in milliseconds.
pub open spec fn ms_of(s: i64, ns: i64) -> i64 {
    clamp(s * 1000 + towards_zero(ns as int, 1_000_000))
}

fn to_ms(s: i64, ns: i64) -> (r: i64)
    ensures
        r == ms_of(s, ns),
{
    let n: i128 = ns as i128;
    let part: i128 = if n >= 0 {
        n / 1_000_000
    } else {
        -((-n) / 1_000_000)
    };
    let x: i128 = s as i128 * 1000 + part;
    if x > i64::MAX as i128 {
        i64::MAX
    } else if x < i64::MIN as i128 {
        i64::MIN
    } else {
        x as i64
    }
}

/// The timeout at an address, in milliseconds; -1, which is no limit, for a
/// null pointer.
pub open spec fn timeout_at(m: Map<int, u8>, at: usize) -> Option<i64> {
    if at == 0 {
        Some(-1i64)
    } else if !mapped(m, at as int, 16) {
        None
    } else {
        Some(ms_of(num_at(m, at as int, 8) as u64 as i64, num_at(m, at + 8, 8) as u64 as i64))
    }
}

pub fn read_timeout(mem: &UserMem, at: usize) -> (r: Result<i64, i32>)
    ensures
        match timeout_at(mem@, at) {
            Some(t) => r == Ok::<i64, i32>(t),
            None => r == Err::<i64, i32>(EFAULT),
        },
{
    if at == 0 {
        return Ok(-1);
    }
    match mem.copy_from_user(at, 16) {
        Ok(b) => {
            let s: u64 = field(&b, 0, 8, Ghost(mem@), Ghost(at as int));
            let ns: u64 = field(&b, 8, 8, Ghost(mem@), Ghost(at as int));
            Ok(to_ms(s as i64, ns as i64))
        },
        Err(e) => Err(e),
    }
}

/// What a wait for `events` is told of a file that is ready for `ready`: input
/// and output where asked for, errors and hang-ups always.
pub open spec fn revents(events: u32, ready: u32) -> u32 {
    let input = if events & POLLIN != 0 && ready & POLLIN != 0 {
        POLLIN as int
    } else {
        0
    };
    let output = if events & POLLOUT != 0 && ready & POLLOUT != 0 {
        POLLOUT as int
    } else {
        0
    };
    let failed = if ready & POLLERR != 0 {
        POLLERR as int
    } else {
        0
    };
    let ended = if ready & POLLHUP != 0 {
        POLLHUP as int
    } else {
        0
    };
    (input + output + failed + ended) as u32
}

fn revents_of(events: u32, ready: u32) -> (r: u32)
    ensures
        r == revents(events, ready),
        r < 0x10000,
{
    let mut r: u32 = 0;
    if events & POLLIN != 0 && ready & POLLIN != 0 {
        r = r + POLLIN;
    }
    if events & POLLOUT != 0 && ready & POLLOUT != 0 {
        r = r + POLLOUT;
    }
    if ready & POLLERR != 0 {
        r = r + POLLERR;
    }
    if ready & POLLHUP != 0 {
        r = r + POLLHUP;
    }
    r
}

/// What an entry is told: an error for a descriptor that is not open.
pub open spec fn told(e: Fds, ready: Seq<u32>, fd: i32, events: u32) -> u32 {
    if open_fd(e, fd as int) {
        revents(events, ready[e[fd as int]->0.file as int])
    } else {
        POLLERR
    }
}

/// One look at the entries from the `i`-th of `n` on, with `count` found ready
/// before: how many are ready, or `None` for an entry that is not accessible,
/// and the memory after it. A descriptor that is not open does not count.
pub open spec fn look(
    m: Map<int, u8>,
    e: Fds,
    ready: Seq<u32>,
    at: int,
    n: int,
    i: int,
    count: int,
) -> (Option<int>, Map<int, u8>)
    decreases n - i,
{
    let a = at + 8 * i;
    let fd = num_at(m, a, 4) as u32 as i32;
    let rev = told(e, ready, fd, num_at(m, a + 4, 2) as u32);
    if i >= n {
        (Some(count), m)
    } else if !mapped(m, a, 8) {
        (None, m)
    } else {
        look(
            stored(m, a + 6, le(rev as nat, 2)),
            e,
            ready,
            at,
            n,
            i + 1,
            if open_fd(e, fd as int) && rev != 0 {
                count + 1
            } else {
                count
            },
        )
    }
}

/// Looks once at all entries and tells each its events.
#[verifier::loop_isolation(false)]
pub fn poll_look(p: &Process, ready: &Vec<u32>, mem: &mut UserMem, fds: usize, nfds: usize) -> (r:
    SysResult)
    requires
        forall|fd: int|
            open_fd(p.fds.entries@, fd) ==> (#[trigger] p.fds.entries@[fd])->0.file
                < ready@.len(),
    ensures
        ({
            let l = look(old(mem)@, p.fds.entries@, ready@, fds as int, nfds as int, 0, 0);
            final(mem)@ == l.1 && match l.0 {
                Some(n) => r is Ok && r->Ok_0 == n,
                None => r == err(EFAULT),
            }
        }),
{
    let ghost e = p.fds.entries@;
    let ghost all = look(mem@, e, ready@, fds as int, nfds as int, 0, 0);
    let mut i: usize = 0;
    let mut count: usize = 0;
    let mut next: Option<usize> = Some(fds);
    while i < nfds
        invariant
            i <= nfds,
            count <= i,
            e == p.fds.entries@,
            next is Some ==> next->0 == fds + 8 * i,
            next is None ==> fds + 8 * i > usize::MAX,
            look(mem@, e, ready@, fds as int, nfds as int, i as int, count as int) == all,
        decreases nfds - i,
    {
        proof {
            mem.lemma_in_space();
        }
        let ghost a0 = fds + 8 * i;
        let at: usize = match next {
            Some(a) => a,
            None => {
                proof {
                    assert(!mem@.dom().contains(a0));
                    assert(!mapped(mem@, a0, 8));
                }
                return Err(EFAULT);
            },
        };
        let b: Vec<u8> = match mem.copy_from_user(at, 8) {
            Ok(b) => b,
            Err(e) => {
                return Err(e);
            },
        };
        let ghost m = mem@;
        let fd: i32 = field(&b, 0, 4, Ghost(m), Ghost(at as int)) as u32 as i32;
        let events: u32 = field(&b, 4, 2, Ghost(m), Ghost(at as int)) as u32;
        proof {
            assert(m.dom().contains(at + 7));
            assert(mapped(m, at + 6, 2));
        }
        match p.fds.get(fd) {
            Ok(f) => {
                proof {
                    assert(open_fd(e, fd as int));
                }
                let rev: u32 = revents_of(events, ready[f]);
                match mem.write_num(at + 6, rev as u64, 2) {
                    Ok(_) => {},
                    Err(e) => {
                        return Err(e);
                    },
                }
                if rev != 0 {
                    count = count + 1;
                }
            },
            Err(_) => {
                match mem.write_num(at + 6, POLLERR as u64, 2) {
                    Ok(_) => {},
                    Err(e) => {
                        return Err(e);
                    },
                }
            },
        }
        next = at.checked_add(8);
        i = i + 1;
    }
    Ok(count)
}

/// The number of ticks after which a wait of so many milliseconds is over.
pub open spec fn wait_ticks(ms: int) -> int {
    if ms / 4 > 1 {
        ms / 4
    } else {
        1
    }
}

fn ticks_of(ms: i64) -> (r: i64)
    requires
        ms >= 0,
    ensures
        r == wait_ticks(ms as int),
{
    if ms / 4 > 1 {
        ms / 4
    } else {
        1
    }
}

/// What a wait comes to after a look that found `looked`, `elapsed` ticks after
/// it began.
pub open spec fn poll_outcome(looked: SysResult, timeout_ms: i64, elapsed: u64, interrupted: bool) -> IoStep {
    match looked {
        Err(e) => IoStep::Done(err(e)),
        Ok(n) => if n > 0 {
            IoStep::Done(ok(n as int))
        } else if timeout_ms == 0 {
            IoStep::Done(ok(0))
        } else if timeout_ms > 0 && elapsed as i64 >= wait_ticks(timeout_ms as int) {
            IoStep::Done(ok(0))
        } else if interrupted {
            IoStep::Done(err(EINTR))
        } else {
            IoStep::Sleep
        },
    }
}

/// One round of poll.
pub fn sys_poll_common(
    p: &Process,
    ready: &Vec<u32>,
    mem: &mut UserMem,
    fds: usize,
    nfds: usize,
    timeout_ms: i64,
    elapsed: u64,
) -> (r: IoStep)
    requires
        forall|fd: int|
            open_fd(p.fds.entries@, fd) ==> (#[trigger] p.fds.entries@[fd])->0.file
                < ready@.len(),
    ensures
        ({
            let l = look(old(mem)@, p.fds.entries@, ready@, fds as int, nfds as int, 0, 0);
            &&& final(mem)@ == l.1
            &&& r == poll_outcome(
                match l.0 {
                    Some(n) => ok(n),
                    None => err(EFAULT),
                },
                timeout_ms,
                elapsed,
                p.interrupted(),
            )
        }),
{
    let n: usize = match poll_look(p, ready, mem, fds, nfds) {
        Ok(n) => n,
        Err(e) => {
            return IoStep::Done(Err(e));
        },
    };
    if n > 0 {
        return IoStep::Done(Ok(n));
    }
    if timeout_ms == 0 {
        return IoStep::Done(Ok(0));
    }
    if timeout_ms > 0 && elapsed as i64 >= ticks_of(timeout_ms) {
        return IoStep::Done(Ok(0));
    }
    if p.is_interrupted() {
        return IoStep::Done(Err(EINTR));
    }
    IoStep::Sleep
}

/// A wait is over without anything ready: it was not to wait, or its time is up.
pub open spec fn time_is_up(timeout_ms: i64, elapsed: u64) -> bool {
    timeout_ms == 0 || (timeout_ms > 0 && elapsed as i64 >= wait_ticks(timeout_ms as int))
}

/// What a round of select comes to: the sets are told once a file is ready or the
/// time is up.
pub open spec fn select_post(
    p: Process,
    ready: Seq<u32>,
    m: Map<int, u8>,
    nfds: i32,
    s: Sets,
    timeout_ms: i64,
    elapsed: u64,
    r: IoStep,
    n: Map<int, u8>,
) -> bool {
    let e = p.fds.entries@;
    match select_error(e, m, nfds, s) {
        Some(x) => r == IoStep::Done(err(x)) && n == m,
        None => {
            let w = set_words(nfds as int);
            let l = sels(e, m, s, nfds as int);
            let x = selected(l, ready, w as nat, l.len() as int);
            let told = store_all(m, set_outs(s, x.0, x.1, w));
            if x.2 > 0 || time_is_up(timeout_ms, elapsed) {
                n == told.1 && r == IoStep::Done(
                    if told.0 {
                        ok(x.2)
                    } else {
                        err(EFAULT)
                    },
                )
            } else if p.interrupted() {
                r == IoStep::Done(err(EINTR)) && n == m
            } else {
                r == IoStep::Sleep && n == m
            }
        },
    }
}

/// One round of select.
pub fn sys_pselect6(
    p: &Process,
    ready: &Vec<u32>,
    mem: &mut UserMem,
    nfds: i32,
    s: &Sets,
    timeout_ms: i64,
    elapsed: u64,
) -> (r: IoStep)
    requires
        files_below(p.fds.entries@, ready@.len() as int),
    ensures
        select_post(*p, ready@, old(mem)@, nfds, *s, timeout_ms, elapsed, r, final(mem)@),
{
    let ghost m = mem@;
    let wait: SelectWait = match select_files(
        &p.fds,
        mem,
        nfds,
        s,
        Ghost(ready@.len() as int),
    ) {
        Ok(w) => w,
        Err(e) => {
            return IoStep::Done(Err(e));
        },
    };
    let found: Found = wait.round(ready, 0, false);
    let n: usize = match found.step {
        Wait::Over(n) => n,
        _ => 0,
    };
    let up: bool = timeout_ms == 0 || (timeout_ms > 0 && elapsed as i64 >= ticks_of(timeout_ms));
    if n > 0 || up {
        proof {
            mem.lemma_in_space();
            let w = wait.words as int;
            if w > 0 {
                assert(s.read != 0 ==> m.dom().contains(s.read + 8 * w - 1));
                assert(s.write != 0 ==> m.dom().contains(s.write + 8 * w - 1));
                assert(s.except != 0 ==> m.dom().contains(s.except + 8 * w - 1));
            }
        }
        return IoStep::Done(select_done(mem, s, &found.read, &found.write, n));
    }
    if p.is_interrupted() {
        return IoStep::Done(Err(EINTR));
    }
    IoStep::Sleep
}

/// Puts a signal mask from user memory in force for the time of a wait; gives
/// the former one. A null pointer leaves it alone.
pub fn begin_mask(p: &mut Process, mem: &UserMem, sigmask: usize) -> (r: Result<Option<u64>, i32>)
    requires
        old(p).wf(),
    ensures
        final(p).wf(),
        if sigmask == 0 {
            r == Ok::<Option<u64>, i32>(None) && *final(p) == *old(p)
        } else if mapped(mem@, sigmask as int, 8) {
            &&& r == Ok::<Option<u64>, i32>(Some(old(p).sig.blocked))
            &&& *final(p) == (Process {
                sig: SignalState { blocked: num_at(mem@, sigmask as int, 8) as u64, ..old(p).sig },
                ..*old(p)
            })
        } else {
            r == Err::<Option<u64>, i32>(EFAULT) && *final(p) == *old(p)
        },
{
    if sigmask == 0 {
        return Ok(None);
    }
    match mem.read_num(sigmask, 8) {
        Ok(m) => {
            let was: u64 = p.sig.blocked;
            p.sig.blocked = m;
            Ok(Some(was))
        },
        Err(e) => Err(e),
    }
}

/// Process `p` with the mask it had before the wait.
pub open spec fn unmasked(p: Process, saved: Option<u64>) -> Process {
    match saved {
        Some(m) => Process { sig: SignalState { blocked: m, ..p.sig }, ..p },
        None => p,
    }
}

fn end_mask(p: &mut Process, saved: Option<u64>)
    requires
        old(p).wf(),
    ensures
        final(p).wf(),
        *final(p) == unmasked(*old(p), saved),
{
    match saved {
        Some(m) => {
            p.sig.blocked = m;
        },
        None => {},
    }
}

/// One round of ppoll; when it ends the former mask is back.
pub fn sys_ppoll(
    p: &mut Process,
    ready: &Vec<u32>,
    mem: &mut UserMem,
    fds: usize,
    nfds: usize,
    timeout_ms: i64,
    elapsed: u64,
    saved: Option<u64>,
) -> (r: IoStep)
    requires
        old(p).wf(),
        forall|fd: int|
            open_fd(old(p).fds.entries@, fd) ==> (#[trigger] old(p).fds.entries@[fd])->0.file
                < ready@.len(),
    ensures
        final(p).wf(),
        ({
            let l = look(old(mem)@, old(p).fds.entries@, ready@, fds as int, nfds as int, 0, 0);
            &&& final(mem)@ == l.1
            &&& r == poll_outcome(
                match l.0 {
                    Some(n) => ok(n),
                    None => err(EFAULT),
                },
                timeout_ms,
                elapsed,
                old(p).interrupted(),
            )
            &&& *final(p) == (if r is Sleep {
                *old(p)
            } else {
                unmasked(*old(p), saved)
            })
        }),
{
    let r: IoStep = sys_poll_common(p, ready, mem, fds, nfds, timeout_ms, elapsed);
    match r {
        IoStep::Sleep => {},
        _ => {
            end_mask(p, saved);
        },
    }
    r
}

/// An entry of an interest list.
#[derive(Clone, Copy, PartialEq, Eq, Structural, Debug)]
pub struct EpItem {
    pub fd: i32,
    pub events: u32,
    pub data: u64,
}

/// The size of an event in user memory.
pub const EVENT_SIZE: usize = 16;

/// An event as user memory holds it: the events, four bytes that do not count,
/// the data.
pub open spec fn event_bytes(events: u32, data: u64) -> Seq<u8> {
    le(events as nat, 4) + zeros(4) + le(data as nat, 8)
}

/// The events of an entry that a file's readiness answers.
pub open spec fn answered(i: EpItem, ready: u32) -> u32 {
    ready & (i.events | POLLERR | POLLHUP)
}

pub open spec fn item_ready(e: Fds, ready: Seq<u32>, i: EpItem) -> bool {
    open_fd(e, i.fd as int) && answered(i, ready[e[i.fd as int]->0.file as int]) != 0
}

/// Telling the entries from the `k`-th on, after `n` events: how many are told,
/// or `None` where one cannot be stored, and the memory after it.
pub open spec fn tell(
    m: Map<int, u8>,
    e: Fds,
    ready: Seq<u32>,
    items: Seq<EpItem>,
    at: int,
    max: int,
    k: int,
    n: int,
) -> (Option<int>, Map<int, u8>)
    decreases items.len() - k,
{
    if !(0 <= k < items.len()) {
        (Some(n), m)
    } else if !item_ready(e, ready, items[k]) {
        tell(m, e, ready, items, at, max, k + 1, n)
    } else if n >= max {
        (Some(n), m)
    } else {
        let b = event_bytes(
            answered(items[k], ready[e[items[k].fd as int]->0.file as int]),
            items[k].data,
        );
        let a = at + EVENT_SIZE * n;
        if !mapped(m, a, EVENT_SIZE as int) {
            (None, m)
        } else {
            tell(stored(m, a, b), e, ready, items, at, max, k + 1, n + 1)
        }
    }
}

/// Tells which entries of an interest list are ready, `max` at most.
#[verifier::loop_isolation(false)]
pub fn epoll_look(
    p: &Process,
    ready: &Vec<u32>,
    mem: &mut UserMem,
    items: &Vec<EpItem>,
    at: usize,
    max: usize,
) -> (r: SysResult)
    requires
        forall|fd: int|
            open_fd(p.fds.entries@, fd) ==> (#[trigger] p.fds.entries@[fd])->0.file
                < ready@.len(),
    ensures
        ({
            let l = tell(
                old(mem)@,
                p.fds.entries@,
                ready@,
                items@,
                at as int,
                max as int,
                0,
                0,
            );
            final(mem)@ == l.1 && match l.0 {
                Some(n) => r is Ok && r->Ok_0 == n,
                None => r == err(EFAULT),
            }
        }),
{
    let ghost e = p.fds.entries@;
    let ghost all = tell(mem@, e, ready@, items@, at as int, max as int, 0, 0);
    let len: usize = items.len();
    let mut k: usize = 0;
    let mut n: usize = 0;
    let mut next: Option<usize> = Some(at);
    while k < len
        invariant
            k <= len == items@.len(),
            n <= k,
            e == p.fds.entries@,
            next is Some ==> next->0 == at + EVENT_SIZE * n,
            next is None ==> at + EVENT_SIZE * n > usize::MAX,
            tell(mem@, e, ready@, items@, at as int, max as int, k as int, n as int) == all,
        decreases len - k,
    {
        let it: EpItem = items[k];
        match p.fds.get(it.fd) {
            Ok(f) => {
                proof {
                    assert(open_fd(e, it.fd as int));
                }
                let ans: u32 = ready[f] & (it.events | POLLERR | POLLHUP);
                if ans != 0 {
                    if n >= max {
                        return Ok(n);
                    }
                    let mut b: Vec<u8> = Vec::new();
                    put_le(&mut b, ans as u64, 4);
                    put_zeros(&mut b, 4);
                    put_le(&mut b, it.data, 8);
                    proof {
                        lemma_le_len(ans as nat, 4);
                        lemma_le_len(it.data as nat, 8);
                        assert(b@ =~= event_bytes(ans, it.data));
                        mem.lemma_in_space();
                    }
                    let ghost a0 = at + EVENT_SIZE * n;
                    match next {
                        Some(a) => {
                            match mem.copy_to_user(a, &b) {
                                Ok(_) => {},
                                Err(e) => {
                                    return Err(e);
                                },
                            }
                            next = a.checked_add(EVENT_SIZE);
                        },
                        None => {
                            proof {
                                assert(!mem@.dom().contains(a0));
                                assert(!mapped(mem@, a0, EVENT_SIZE as int));
                            }
                            return Err(EFAULT);
                        },
                    }
                    n = n + 1;
                }
            },
            Err(_) => {},
        }
        k = k + 1;
    }
    Ok(n)
}

/// The number of an open interest list.
pub fn epoll_of(p: &Process, files: &Vec<File>, fd: i32) -> (r: Result<usize, i32>)
    requires
        p.files_ok(files@),
    ensures
        r == (if !open_fd(p.fds.entries@, fd as int) {
            Err::<usize, i32>(EBADF)
        } else {
            match files@[p.fds.entries@[fd as int]->0.file as int].obj {
                FileObj::Epoll(id) => Ok::<usize, i32>(id),
                _ => Err::<usize, i32>(EINVAL),
            }
        }),
{
    match p.fds.get(fd) {
        Ok(f) => {
            proof {
                assert(open_fd(p.fds.entries@, fd as int));
            }
            match files[f].obj {
                FileObj::Epoll(id) => Ok(id),
                _ => Err(EINVAL),
            }
        },
        Err(e) => Err(e),
    }
}

/// One round of epoll_pwait. When it ends the former mask is back, except where
/// an event could not be stored.
pub fn sys_epoll_pwait(
    p: &mut Process,
    ready: &Vec<u32>,
    mem: &mut UserMem,
    items: &Vec<EpItem>,
    at: usize,
    max: usize,
    timeout: i64,
    elapsed: u64,
    saved: Option<u64>,
) -> (r: IoStep)
    requires
        old(p).wf(),
        forall|fd: int|
            open_fd(old(p).fds.entries@, fd) ==> (#[trigger] old(p).fds.entries@[fd])->0.file
                < ready@.len(),
    ensures
        final(p).wf(),
        ({
            let l = tell(
                old(mem)@,
                old(p).fds.entries@,
                ready@,
                items@,
                at as int,
                max as int,
                0,
                0,
            );
            &&& final(mem)@ == l.1
            &&& match l.0 {
                None => r == IoStep::Done(err(EFAULT)) && *final(p) == *old(p),
                Some(n) => {
                    &&& r == (if n > 0 {
                        IoStep::Done(ok(n))
                    } else if timeout >= 0 && elapsed as i64 >= wait_ticks(timeout as int) {
                        IoStep::Done(ok(0))
                    } else if old(p).interrupted() {
                        IoStep::Done(err(EINTR))
                    } else {
                        IoStep::Sleep
                    })
                    &&& *final(p) == (if r is Sleep {
                        *old(p)
                    } else {
                        unmasked(*old(p), saved)
                    })
                },
            }
        }),
{
    let n: usize = match epoll_look(p, ready, mem, items, at, max) {
        Ok(n) => n,
        Err(e) => {
            return IoStep::Done(Err(e));
        },
    };
    let r: IoStep = if n > 0 {
        IoStep::Done(Ok(n))
    } else if timeout >= 0 && elapsed as i64 >= ticks_of(timeout) {
        IoStep::Done(Ok(0))
    } else if p.is_interrupted() {
        IoStep::Done(Err(EINTR))
    } else {
        IoStep::Sleep
    };
    match r {
        IoStep::Sleep => {},
        _ => {
            end_mask(p, saved);
        },
    }
    r
}

/// A change to an interest list, as user memory describes it.
#[derive(Clone, Copy, PartialEq, Eq, Structural, Debug)]
pub struct EpollCtl {
    pub epoll: usize,
    pub op: i32,
    pub fd: i32,
    pub file: usize,
    pub events: u32,
    pub data: u64,
}

pub const EPOLL_CTL_DEL: i32 = 2;

/// Reads what is to change in an interest list. Removing needs no event.
pub fn epoll_ctl(
    p: &Process,
    files: &Vec<File>,
    mem: &UserMem,
    epfd: i32,
    op: i32,
    fd: i32,
    event: usize,
) -> (r: Result<EpollCtl, i32>)
    requires
        p.files_ok(files@),
    ensures
        ({
            let e = p.fds.entries@;
            r == (if !open_fd(e, epfd as int) {
                Err::<EpollCtl, i32>(EBADF)
            } else {
                match files@[e[epfd as int]->0.file as int].obj {
                    FileObj::Epoll(id) => if !open_fd(e, fd as int) {
                        Err::<EpollCtl, i32>(EBADF)
                    } else if op != EPOLL_CTL_DEL && !mapped(
                        mem@,
                        event as int,
                        EVENT_SIZE as int,
                    ) {
                        Err::<EpollCtl, i32>(EFAULT)
                    } else {
                        Ok::<EpollCtl, i32>(
                            EpollCtl {
                                epoll: id,
                                op,
                                fd,
                                file: e[fd as int]->0.file,
                                events: if op == EPOLL_CTL_DEL {
                                    0
                                } else {
                                    num_at(mem@, event as int, 4) as u32
                                },
                                data: if op == EPOLL_CTL_DEL {
                                    0
                                } else {
                                    num_at(mem@, event + 8, 8) as u64
                                },
                            },
                        )
                    },
                    _ => Err::<EpollCtl, i32>(EINVAL),
                }
            })
        }),
{
    let epoll: usize = match epoll_of(p, files, epfd) {
        Ok(id) => id,
        Err(e) => {
            return Err(e);
        },
    };
    let file: usize = match p.fds.get(fd) {
        Ok(f) => f,
        Err(e) => {
            return Err(e);
        },
    };
    if op == EPOLL_CTL_DEL {
        return Ok(EpollCtl { epoll, op, fd, file, events: 0, data: 0 });
    }
    match mem.copy_from_user(event, EVENT_SIZE) {
        Ok(b) => {
            let events: u64 = field(&b, 0, 4, Ghost(mem@), Ghost(event as int));
            let data: u64 = field(&b, 8, 8, Ghost(mem@), Ghost(event as int));
            proof {
                lemma_span();
            }
            Ok(EpollCtl { epoll, op, fd, file, events: events as u32, data })
        },
        Err(e) => Err(e),
    }
}

// ---- Laws -------------------------------------------------------------------------
/// What poll tells, bit by bit: input (bit 0) and output (bit 2) where the file is
/// ready for it and it was asked for; errors (bit 3) and hang-ups (bit 4) whenever
/// the file has them; nothing else.
pub proof fn poll_tells_by_bit(events: u32, ready: u32)
    ensures
        revents(events, ready) & 1 != 0 <==> events & 1 != 0 && ready & 1 != 0,
        revents(events, ready) & 4 != 0 <==> events & 4 != 0 && ready & 4 != 0,
        revents(events, ready) & 8 != 0 <==> ready & 8 != 0,
        revents(events, ready) & 0x10 != 0 <==> ready & 0x10 != 0,
        revents(events, ready) & !0x1du32 == 0,
{
    let r = revents(events, ready);
    let i: u32 = if events & 1 != 0 && ready & 1 != 0 { 1 } else { 0 };
    let o: u32 = if events & 4 != 0 && ready & 4 != 0 { 4 } else { 0 };
    let f: u32 = if ready & 8 != 0 { 8 } else { 0 };
    let h: u32 = if ready & 0x10 != 0 { 0x10 } else { 0 };
    assert(r == i + o + f + h);
    crate::flags::small_bits(r);
}

/// What epoll tells of an entry, bit by bit: whatever the file is ready for and
/// the entry asks for, and errors and hang-ups always.
pub proof fn epoll_tells_by_bit(i: EpItem, ready: u32, b: u32)
    requires
        b < 32,
    ensures
        answered(i, ready) & (1u32 << b) != 0 <==> ready & (1u32 << b) != 0 && (i.events & (1u32 << b)
            != 0 || b == 3 || b == 4),
{
    let e = i.events;
    assert((ready & (e | 8 | 0x10)) & (1u32 << b) != 0 <==> ready & (1u32 << b) != 0 && (e & (1u32
        << b) != 0 || b == 3 || b == 4)) by (bit_vector)
        requires
            b < 32,
    ;
}

/// An event in user memory has its events in the first four bytes and its data in
/// the last eight of sixteen.
pub proof fn event_reads_back(m: Map<int, u8>, at: int, events: u32, data: u64)
    requires
        mapped(m, at, 16),
    ensures
        event_bytes(events, data).len() == 16,
        num_at(stored(m, at, event_bytes(events, data)), at, 4) == events,
        num_at(stored(m, at, event_bytes(events, data)), at + 8, 8) == data,
{
    broadcast use crate::bytes::lemma_le_len;

    lemma_span();
    let b = event_bytes(events, data);
    let t = stored(m, at, b);
    assert forall|k: int| 0 <= k < 16 implies t[at + k] == #[trigger] b[k] by {
        assert(m.dom().contains(at + k));
    }
    assert(bytes_at(t, at, 4) =~= le(events as nat, 4)) by {
        assert forall|k: int| 0 <= k < 4 implies bytes_at(t, at, 4)[k] == le(events as nat, 4)[k] by {
            assert(t[at + k] == b[k]);
        }
    }
    assert(bytes_at(t, at + 8, 8) =~= le(data as nat, 8)) by {
        assert forall|k: int| 0 <= k < 8 implies bytes_at(t, at + 8, 8)[k] == le(data as nat, 8)[k] by {
            assert(t[at + (8 + k)] == b[8 + k]);
        }
    }
    crate::bytes::from_le_of_le(events as nat, 4);
    crate::bytes::from_le_of_le(data as nat, 8);
}

/// A look at entries from the `i`-th on changes nothing but their last two bytes.
proof fn lemma_look_frame(
    m: Map<int, u8>,
    e: Fds,
    ready: Seq<u32>,
    at: int,
    n: int,
    i: int,
    count: int,
    a: int,
)
    requires
        0 <= i,
        forall|j: int| i <= j < n ==> !(#[trigger] (at + 8 * j) + 6 <= a < at + 8 * j + 8),
    ensures
        look(m, e, ready, at, n, i, count).1.dom() == m.dom(),
        m.dom().contains(a) ==> look(m, e, ready, at, n, i, count).1[a] == m[a],
    decreases n - i,
{
    let x = at + 8 * i;
    if i < n && mapped(m, x, 8) {
        let fd = num_at(m, x, 4) as u32 as i32;
        let rev = told(e, ready, fd, num_at(m, x + 4, 2) as u32);
        let t = stored(m, x + 6, le(rev as nat, 2));
        lemma_le_len(rev as nat, 2);
        let c = if open_fd(e, fd as int) && rev != 0 {
            count + 1
        } else {
            count
        };
        assert(t.dom() =~= m.dom());
        assert(!((at + 8 * i) + 6 <= a < at + 8 * i + 8));
        lemma_look_frame(t, e, ready, at, n, i + 1, c, a);
    }
}

/// How many of the entries from the `i`-th on are open and ready.
pub open spec fn ready_entries(
    m: Map<int, u8>,
    e: Fds,
    ready: Seq<u32>,
    at: int,
    n: int,
    i: int,
) -> int
    decreases n - i,
{
    if i >= n {
        0
    } else {
        let fd = num_at(m, at + 8 * i, 4) as u32 as i32;
        let found = open_fd(e, fd as int) && told(
            e,
            ready,
            fd,
            num_at(m, at + 8 * i + 4, 2) as u32,
        ) != 0;
        ready_entries(m, e, ready, at, n, i + 1) + (if found {
            1int
        } else {
            0
        })
    }
}

proof fn lemma_entries_same(
    m: Map<int, u8>,
    t: Map<int, u8>,
    e: Fds,
    ready: Seq<u32>,
    at: int,
    n: int,
    i: int,
)
    requires
        0 <= i,
        forall|a: int| at + 8 * i <= a < at + 8 * n ==> #[trigger] t[a] == m[a],
    ensures
        ready_entries(t, e, ready, at, n, i) == ready_entries(m, e, ready, at, n, i),
    decreases n - i,
{
    if i < n {
        assert(bytes_at(t, at + 8 * i, 4) =~= bytes_at(m, at + 8 * i, 4));
        assert(bytes_at(t, at + 8 * i + 4, 2) =~= bytes_at(m, at + 8 * i + 4, 2));
        lemma_entries_same(m, t, e, ready, at, n, i + 1);
    }
}

/// A look tells every entry: the last two of its eight bytes hold what its file is
/// ready for of what it asks (an error for a descriptor that is not open), and its
/// number and its question stay. What is returned is how many entries are ready.
pub proof fn every_entry_is_told(
    m: Map<int, u8>,
    e: Fds,
    ready: Seq<u32>,
    at: int,
    n: int,
    i: int,
    count: int,
    k: int,
)
    requires
        0 <= i <= k < n,
        look(m, e, ready, at, n, i, count).0 is Some,
    ensures
        ({
            let t = look(m, e, ready, at, n, i, count).1;
            let fd = num_at(m, at + 8 * k, 4) as u32 as i32;
            let events = num_at(m, at + 8 * k + 4, 2) as u32;
            &&& num_at(t, at + 8 * k, 4) == num_at(m, at + 8 * k, 4)
            &&& num_at(t, at + 8 * k + 4, 2) == num_at(m, at + 8 * k + 4, 2)
            &&& num_at(t, at + 8 * k + 6, 2) == (if open_fd(e, fd as int) {
                revents(events, ready[e[fd as int]->0.file as int])
            } else {
                8
            })
        }),
        look(m, e, ready, at, n, i, count).0 == Some(count + ready_entries(m, e, ready, at, n, i)),
    decreases n - i,
{
    let x = at + 8 * i;
    let fd = num_at(m, x, 4) as u32 as i32;
    let rev = told(e, ready, fd, num_at(m, x + 4, 2) as u32);
    let t = stored(m, x + 6, le(rev as nat, 2));
    let c = if open_fd(e, fd as int) && rev != 0 {
        count + 1
    } else {
        count
    };
    lemma_le_len(rev as nat, 2);
    lemma_span();
    assert(mapped(m, x, 8));
    let f = look(t, e, ready, at, n, i + 1, c).1;
    lemma_look_mapped(m, e, ready, at, n, i, count);
    assert forall|a: int| at + 8 * (i + 1) <= a < at + 8 * n implies #[trigger] t[a] == m[a] by {
        assert(m.dom().contains(a));
    }
    lemma_entries_same(m, t, e, ready, at, n, i + 1);
    if i + 1 < n {
        every_entry_is_told(t, e, ready, at, n, i + 1, c, if k > i { k } else { i + 1 });
    }
    if k == i {
        assert forall|a: int| x <= a < x + 8 implies #[trigger] f[a] == t[a] by {
            lemma_look_frame(t, e, ready, at, n, i + 1, c, a);
        }
        assert forall|a: int| x <= a < x + 8 implies #[trigger] m.dom().contains(a) by {}
        assert(bytes_at(f, x, 4) =~= bytes_at(m, x, 4));
        assert(bytes_at(f, x + 4, 2) =~= bytes_at(m, x + 4, 2));
        assert(bytes_at(f, x + 6, 2) =~= le(rev as nat, 2));
        poll_tells_by_bit(num_at(m, x + 4, 2) as u32, ready[e[fd as int]->0.file as int]);
        assert(rev < 0x10000);
        crate::bytes::from_le_of_le(rev as nat, 2);
    } else {
        assert(bytes_at(t, at + 8 * k, 4) =~= bytes_at(m, at + 8 * k, 4));
        assert(bytes_at(t, at + 8 * k + 4, 2) =~= bytes_at(m, at + 8 * k + 4, 2));
    }
}

/// A look that succeeds found all its entries accessible.
proof fn lemma_look_mapped(m: Map<int, u8>, e: Fds, ready: Seq<u32>, at: int, n: int, i: int, count: int)
    requires
        0 <= i,
        look(m, e, ready, at, n, i, count).0 is Some,
    ensures
        forall|a: int| at + 8 * i <= a < at + 8 * n ==> #[trigger] m.dom().contains(a),
    decreases n - i,
{
    if i < n {
        let x = at + 8 * i;
        let fd = num_at(m, x, 4) as u32 as i32;
        let rev = told(e, ready, fd, num_at(m, x + 4, 2) as u32);
        let t = stored(m, x + 6, le(rev as nat, 2));
        let c = if open_fd(e, fd as int) && rev != 0 {
            count + 1
        } else {
            count
        };
        lemma_look_mapped(t, e, ready, at, n, i + 1, c);
        assert(t.dom() =~= m.dom());
    }
}

/// How many of the entries from the `k`-th up to the `j`-th are ready.
pub open spec fn ready_items(e: Fds, ready: Seq<u32>, items: Seq<EpItem>, k: int, j: int) -> int
    decreases j - k,
{
    if k >= j {
        0
    } else {
        ready_items(e, ready, items, k + 1, j) + (if open_fd(e, items[k].fd as int) && answered(
            items[k],
            ready[e[items[k].fd as int]->0.file as int],
        ) != 0 {
            1int
        } else {
            0
        })
    }
}

proof fn lemma_items_count(e: Fds, ready: Seq<u32>, items: Seq<EpItem>, k: int, j: int)
    ensures
        0 <= ready_items(e, ready, items, k, j),
    decreases j - k,
{
    if k < j {
        lemma_items_count(e, ready, items, k + 1, j);
    }
}

/// Telling events changes nothing before the place of the next one.
proof fn lemma_tell_frame(
    m: Map<int, u8>,
    e: Fds,
    ready: Seq<u32>,
    items: Seq<EpItem>,
    at: int,
    max: int,
    k: int,
    n: int,
    a: int,
)
    requires
        0 <= k,
        a < at + 16 * n,
    ensures
        tell(m, e, ready, items, at, max, k, n).1.dom() == m.dom(),
        m.dom().contains(a) ==> tell(m, e, ready, items, at, max, k, n).1[a] == m[a],
    decreases items.len() - k,
{
    if k < items.len() {
        if !item_ready(e, ready, items[k]) {
            lemma_tell_frame(m, e, ready, items, at, max, k + 1, n, a);
        } else if n < max && mapped(m, at + EVENT_SIZE * n, EVENT_SIZE as int) {
            let b = event_bytes(
                answered(items[k], ready[e[items[k].fd as int]->0.file as int]),
                items[k].data,
            );
            let t = stored(m, at + EVENT_SIZE * n, b);
            assert(t.dom() =~= m.dom());
            lemma_tell_frame(t, e, ready, items, at, max, k + 1, n + 1, a);
        }
    }
}

/// Every ready entry of an interest list is told, in order and up to the number
/// asked for: the one with `r` ready entries before it is the event of number `r`,
/// with what its file is ready for and its data. What is returned is how many are
/// told.
pub proof fn ready_items_are_told(
    m: Map<int, u8>,
    e: Fds,
    ready: Seq<u32>,
    items: Seq<EpItem>,
    at: int,
    max: int,
    k: int,
    n: int,
    j: int,
)
    requires
        0 <= k <= j < items.len(),
        0 <= n <= max,
        tell(m, e, ready, items, at, max, k, n).0 is Some,
    ensures
        ({
            let t = tell(m, e, ready, items, at, max, k, n).1;
            let slot = n + ready_items(e, ready, items, k, j);
            let x = answered(items[j], ready[e[items[j].fd as int]->0.file as int]);
            let all = ready_items(e, ready, items, k, items.len() as int);
            &&& open_fd(e, items[j].fd as int) && x != 0 && slot < max ==> num_at(
                t,
                at + 16 * slot,
                4,
            ) == x && num_at(t, at + 16 * slot + 8, 8) == items[j].data
            &&& tell(m, e, ready, items, at, max, k, n).0 == Some(
                if n + all < max {
                    n + all
                } else {
                    max
                },
            )
        }),
    decreases items.len() - k,
{
    let len = items.len() as int;
    lemma_items_count(e, ready, items, k + 1, len);
    lemma_items_count(e, ready, items, k + 1, j);
    let next = if j > k {
        j
    } else {
        k + 1
    };
    if !item_ready(e, ready, items[k]) {
        if k + 1 < len {
            ready_items_are_told(m, e, ready, items, at, max, k + 1, n, next);
        }
    } else if n < max {
        let x = answered(items[k], ready[e[items[k].fd as int]->0.file as int]);
        let b = event_bytes(x, items[k].data);
        let a = at + EVENT_SIZE * n;
        let t = stored(m, a, b);
        assert(mapped(m, a, 16));
        event_reads_back(m, a, x, items[k].data);
        let f = tell(t, e, ready, items, at, max, k + 1, n + 1).1;
        assert forall|y: int| a <= y < a + 16 implies #[trigger] f[y] == t[y] by {
            assert(m.dom().contains(y));
            assert(t.dom().contains(y));
            lemma_tell_frame(t, e, ready, items, at, max, k + 1, n + 1, y);
        }
        assert(bytes_at(f, a, 4) =~= bytes_at(t, a, 4));
        assert(bytes_at(f, a + 8, 8) =~= bytes_at(t, a + 8, 8));
        if k + 1 < len {
            ready_items_are_told(t, e, ready, items, at, max, k + 1, n + 1, next);
        }
    }
}

/// A wait ends at once when something is ready, or when it was not to wait; an
/// interrupted one ends with that error; one without a limit goes on as long as
/// nothing comes.
pub proof fn waits_end(n: usize, timeout_ms: i64, elapsed: u64, interrupted: bool)
    ensures
        n > 0 ==> poll_outcome(Ok(n), timeout_ms, elapsed, interrupted) == IoStep::Done(Ok(n)),
        n == 0 && timeout_ms == 0 ==> poll_outcome(Ok(n), timeout_ms, elapsed, interrupted)
            == IoStep::Done(Ok(0)),
        n == 0 && timeout_ms < 0 ==> poll_outcome(Ok(n), timeout_ms, elapsed, interrupted) == (
        if interrupted {
            IoStep::Done(Err(EINTR))
        } else {
            IoStep::Sleep
        }),
        n == 0 && timeout_ms > 0 && elapsed == 0 && !interrupted ==> poll_outcome(
            Ok(n),
            timeout_ms,
            elapsed,
            interrupted,
        ) == IoStep::Sleep,
        n == 0 && timeout_ms > 0 && timeout_ms <= elapsed <= i64::MAX ==> poll_outcome(
            Ok(n),
            timeout_ms,
            elapsed,
            interrupted,
        ) == IoStep::Done(Ok(0)),
{
}

} // verus!
