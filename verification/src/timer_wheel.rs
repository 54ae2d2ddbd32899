//! One-shot timers, which wake a wait channel or the network.

use vstd::prelude::*;

verus! {

#[derive(Clone, Copy, PartialEq, Eq, Structural, Debug)]
pub enum TimerKind {
    Wake,
    Net,
}

#[derive(Clone, Copy, PartialEq, Eq, Structural, Debug)]
pub struct Timer {
    /// In milliseconds.
    pub deadline: u64,
    pub wchan: usize,
    pub kind: TimerKind,
}

pub struct Wheel {
    pub timers: Vec<Timer>,
}

/// The timers that are not due yet.
pub open spec fn waiting(l: Seq<Timer>, now: u64) -> Seq<Timer>
    decreases l.len(),
{
    if l.len() == 0 {
        Seq::empty()
    } else if l.last().deadline <= now {
        waiting(l.drop_last(), now)
    } else {
        waiting(l.drop_last(), now).push(l.last())
    }
}

/// The channels that are woken, in the order in which the timers were set.
pub open spec fn fired(l: Seq<Timer>, now: u64) -> Seq<usize>
    decreases l.len(),
{
    if l.len() == 0 {
        Seq::empty()
    } else if l.last().deadline <= now && l.last().kind == TimerKind::Wake {
        fired(l.drop_last(), now).push(l.last().wchan)
    } else {
        fired(l.drop_last(), now)
    }
}

/// A timer for the network is due.
pub open spec fn net_due(l: Seq<Timer>, now: u64) -> bool {
    exists|i: int|
        0 <= i < l.len() && (#[trigger] l[i]).deadline <= now && l[i].kind == TimerKind::Net
}

/// What a tick asks for: channels to wake, and whether the network is due.
pub struct Fired {
    pub wake: Vec<usize>,
    pub net: bool,
}

impl Wheel {
    pub fn new() -> (r: Wheel)
        ensures
            r.timers@.len() == 0,
    {
        Wheel { timers: Vec::new() }
    }

    pub fn set_timer(&mut self, deadline_ms: u64, wchan: usize, kind: TimerKind)
        ensures
            final(self).timers@ == old(self).timers@.push(
                Timer { deadline: deadline_ms, wchan, kind },
            ),
    {
        self.timers.push(Timer { deadline: deadline_ms, wchan, kind });
    }

    /// Takes out the timers that are due.
    pub fn on_tick(&mut self, now: u64) -> (r: Fired)
        ensures
            final(self).timers@ == waiting(old(self).timers@, now),
            r.wake@ == fired(old(self).timers@, now),
            r.net == net_due(old(self).timers@, now),
    {
        let ghost l = self.timers@;
        let n: usize = self.timers.len();
        let mut kept: Vec<Timer> = Vec::new();
        let mut wake: Vec<usize> = Vec::new();
        let mut net: bool = false;
        let mut i: usize = 0;
        proof {
            assert(l.take(0) =~= Seq::empty());
        }
        while i < n
            invariant
                i <= n == l.len(),
                l == self.timers@,
                kept@ == waiting(l.take(i as int), now),
                wake@ == fired(l.take(i as int), now),
                net == net_due(l.take(i as int), now),
            decreases n - i,
        {
            let t: Timer = self.timers[i];
            let ghost a = l.take(i as int);
            let ghost b = l.take(i + 1);
            proof {
                assert(b.drop_last() =~= a);
                assert(b.last() == t);
            }
            if t.deadline <= now {
                match t.kind {
                    TimerKind::Wake => {
                        wake.push(t.wchan);
                    },
                    TimerKind::Net => {
                        net = true;
                        assert(b[i as int].deadline <= now);
                    },
                }
            } else {
                kept.push(t);
            }
            proof {
                if net_due(a, now) {
                    let k = choose|k: int|
                        0 <= k < a.len() && (#[trigger] a[k]).deadline <= now && a[k].kind
                            == TimerKind::Net;
                    assert(b[k] == a[k]);
                }
                if net_due(b, now) {
                    let k = choose|k: int|
                        0 <= k < b.len() && (#[trigger] b[k]).deadline <= now && b[k].kind
                            == TimerKind::Net;
                    if k < i {
                        assert(a[k] == b[k]);
                    }
                }
            }
            i = i + 1;
        }
        proof {
            assert(l.take(n as int) =~= l);
        }
        self.timers = kept;
        Fired { wake, net }
    }
}

/// A timer fires once: after a tick none is left that was due.
pub proof fn fires_once(l: Seq<Timer>, now: u64)
    ensures
        fired(waiting(l, now), now).len() == 0,
        !net_due(waiting(l, now), now),
        waiting(waiting(l, now), now) == waiting(l, now),
    decreases l.len(),
{
    if l.len() > 0 {
        let d = l.drop_last();
        fires_once(d, now);
        if l.last().deadline > now {
            let w = waiting(d, now);
            assert(w.push(l.last()).drop_last() =~= w);
            if net_due(waiting(l, now), now) {
                let x = waiting(l, now);
                let k = choose|k: int|
                    0 <= k < x.len() && (#[trigger] x[k]).deadline <= now && x[k].kind
                        == TimerKind::Net;
                assert(x[k] == w[k]);
            }
        }
    }
}

} // verus!
