//! Process numbers: those given back are handed out again, last first.

use vstd::prelude::*;

verus! {

pub struct PidAllocator {
    /// One more than the largest number that was ever handed out.
    pub current: usize,
    pub recycled: Vec<usize>,
}

/// A process number in use.
#[derive(Clone, Copy, PartialEq, Eq, Structural, Debug)]
pub struct PidHandle(pub usize);

impl PidAllocator {
    /// What was given back was handed out before, and only once.
    pub open spec fn wf(&self) -> bool {
        &&& self.recycled@.no_duplicates()
        &&& forall|i: int|
            0 <= i < self.recycled@.len() ==> #[trigger] self.recycled@[i] < self.current
    }

    /// The number is handed out.
    pub open spec fn in_use(&self, pid: usize) -> bool {
        pid < self.current && !self.recycled@.contains(pid)
    }

    pub fn new() -> (r: PidAllocator)
        ensures
            r.wf(),
            r.current == 0,
            r.recycled@.len() == 0,
    {
        PidAllocator { current: 0, recycled: Vec::new() }
    }

    /// Takes a number that was given back, as a handle's end does.
    pub fn dealloc(&mut self, pid: usize)
        requires
            old(self).wf(),
            old(self).in_use(pid),
        ensures
            final(self).wf(),
            freed(*old(self), pid, *final(self)),
    {
        let ghost r = self.recycled@;
        self.recycled.push(pid);
        proof {
            let s = self.recycled@;
            assert forall|i: int, j: int| 0 <= i < s.len() && 0 <= j < s.len() && i != j implies s[i]
                != s[j] by {
                if i == r.len() {
                    assert(r.contains(r[j]));
                } else if j == r.len() {
                    assert(r.contains(r[i]));
                }
            }
            assert forall|p: usize| #[trigger] self.in_use(p) == (old(self).in_use(p) && p != pid) by {
                if r.contains(p) {
                    let i = choose|i: int| 0 <= i < r.len() && r[i] == p;
                    assert(s[i] == p);
                }
                if p == pid {
                    assert(s[r.len() as int] == p);
                }
                if s.contains(p) && p != pid {
                    let i = choose|i: int| 0 <= i < s.len() && s[i] == p;
                    assert(r[i] == p);
                }
            }
        }
    }
}

/// What giving a number back comes to.
pub open spec fn freed(a: PidAllocator, pid: usize, b: PidAllocator) -> bool {
    &&& b.current == a.current
    &&& b.recycled@ == a.recycled@.push(pid)
    &&& forall|p: usize| #[trigger] b.in_use(p) == (a.in_use(p) && p != pid)
}

/// What handing out a number comes to.
pub open spec fn handed_out(a: PidAllocator, r: PidHandle, b: PidAllocator) -> bool {
    &&& !a.in_use(r.0)
    &&& forall|p: usize| #[trigger] b.in_use(p) == (a.in_use(p) || p == r.0)
    &&& if a.recycled@.len() > 0 {
        &&& r.0 == a.recycled@.last()
        &&& b.recycled@ == a.recycled@.drop_last()
        &&& b.current == a.current
    } else {
        &&& r.0 == a.current
        &&& b.recycled@.len() == 0
        &&& b.current == a.current + 1
    }
}

/// Numbers in use are distinct: one that is handed out, and not given back until
/// the next is, differs from that next one.
pub proof fn live_pids_differ(
    a: PidAllocator,
    h1: PidHandle,
    b: PidAllocator,
    c: PidAllocator,
    h2: PidHandle,
    d: PidAllocator,
)
    requires
        handed_out(a, h1, b),
        c.in_use(h1.0) == b.in_use(h1.0),
        handed_out(c, h2, d),
    ensures
        h1.0 != h2.0,
        d.in_use(h1.0),
        d.in_use(h2.0),
{
    assert(b.in_use(h1.0));
    assert(d.in_use(h1.0) && d.in_use(h2.0));
}

/// The number that was given back last is the next that is handed out.
pub proof fn last_freed_is_next(
    a: PidAllocator,
    pid: usize,
    b: PidAllocator,
    h: PidHandle,
    c: PidAllocator,
)
    requires
        freed(a, pid, b),
        handed_out(b, h, c),
    ensures
        h.0 == pid,
        c.recycled@ == a.recycled@,
{
    assert(c.recycled@ =~= a.recycled@);
}

/// Hands out a number that is not in use: the one given back last, or a new
/// one.
pub fn pid_alloc(a: &mut PidAllocator) -> (r: PidHandle)
    requires
        old(a).wf(),
        old(a).recycled@.len() == 0 ==> old(a).current < usize::MAX,
    ensures
        final(a).wf(),
        handed_out(*old(a), r, *final(a)),
{
    let ghost r0 = a.recycled@;
    match a.recycled.pop() {
        Some(pid) => {
            proof {
                let s = a.recycled@;
                assert(r0[r0.len() - 1] == pid);
                assert forall|i: int| 0 <= i < s.len() implies #[trigger] s[i] < a.current && s[i]
                    != pid by {
                    assert(s[i] == r0[i]);
                }
                assert forall|p: usize| #[trigger] a.in_use(p) == (old(a).in_use(p) || p == pid) by {
                    if s.contains(p) {
                        let i = choose|i: int| 0 <= i < s.len() && s[i] == p;
                        assert(r0[i] == p);
                    }
                    if r0.contains(p) && p != pid {
                        let i = choose|i: int| 0 <= i < r0.len() && r0[i] == p;
                        assert(s[i] == p);
                    }
                }
                assert(r0.contains(pid));
            }
            PidHandle(pid)
        },
        None => {
            let pid: usize = a.current;
            a.current = pid + 1;
            PidHandle(pid)
        },
    }
}

} // verus!
