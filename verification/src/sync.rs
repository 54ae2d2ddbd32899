//! Locks of a kernel on one core. Nothing else runs while a lock is held, so to
//! find one taken means that its holder asked again: that is an error to be
//! reported, not a reason to wait.

use vstd::prelude::*;

verus! {

/// A value and whether someone holds it.
pub struct SpinLock<T> {
    pub locked: bool,
    pub data: T,
}

impl<T> SpinLock<T> {
    pub fn new(data: T) -> (r: Self)
        ensures
            r == (SpinLock { locked: false, data }),
    {
        SpinLock { locked: false, data }
    }

    /// Takes the lock, which must be free.
    pub fn lock(&mut self)
        requires
            !old(self).locked,
        ensures
            *final(self) == (SpinLock { locked: true, data: old(self).data }),
    {
        self.locked = true;
    }

    /// Takes the lock if it is free.
    pub fn try_lock(&mut self) -> (r: bool)
        ensures
            r == !old(self).locked,
            *final(self) == (SpinLock { locked: true, data: old(self).data }),
    {
        if self.locked {
            false
        } else {
            self.locked = true;
            true
        }
    }

    pub fn is_locked(&self) -> (r: bool)
        ensures
            r == self.locked,
    {
        self.locked
    }

    /// The value, for the holder of the lock.
    pub fn get(&self) -> (r: &T)
        requires
            self.locked,
        ensures
            *r == self.data,
    {
        &self.data
    }

    /// Replaces the value, for the holder of the lock; gives what it was.
    pub fn replace(&mut self, data: T) -> (r: T)
        requires
            old(self).locked,
        ensures
            r == old(self).data,
            *final(self) == (SpinLock { locked: true, data }),
    {
        let mut x: T = data;
        core::mem::swap(&mut self.data, &mut x);
        x
    }

    /// Gives the lock back.
    pub fn unlock(&mut self)
        requires
            old(self).locked,
        ensures
            *final(self) == (SpinLock { locked: false, data: old(self).data }),
    {
        self.locked = false;
    }
}

/// State that is set once while the kernel starts.
pub struct Global<T> {
    pub data: Option<T>,
}

impl<T> Global<T> {
    pub fn new() -> (r: Self)
        ensures
            r.data is None,
    {
        Global { data: None }
    }

    pub fn init(&mut self, v: T)
        ensures
            final(self).data == Some(v),
    {
        self.data = Some(v);
    }

    /// The state, which must have been set.
    pub fn get(&self) -> (r: &T)
        requires
            self.data is Some,
        ensures
            *r == self.data->0,
    {
        self.data.as_ref().unwrap()
    }

    pub fn is_init(&self) -> (r: bool)
        ensures
            r == self.data is Some,
    {
        self.data.is_some()
    }
}

} // verus!
