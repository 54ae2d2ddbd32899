//! Descriptor tables and open files.

use vstd::prelude::*;
use crate::errno::{EBADF, EMFILE};

verus! {

/// What a descriptor refers to: an open file, by number.
#[derive(Clone, Copy, PartialEq, Eq, Structural, Debug)]
pub struct FdEntry {
    pub file: usize,
    pub cloexec: bool,
}

/// No table has more descriptors than this.
pub const FD_MAX: usize = 65536;

pub struct FdTable {
    pub entries: Vec<Option<FdEntry>>,
    /// Descriptors stay below this.
    pub limit: usize,
}

pub type Fds = Seq<Option<FdEntry>>;

/// The descriptor is in use.
pub open spec fn open_fd(e: Fds, fd: int) -> bool {
    0 <= fd < e.len() && e[fd] is Some
}

/// The lowest free descriptor from `min` on.
pub open spec fn free_from(e: Fds, min: int) -> int
    decreases e.len() - min,
{
    if 0 <= min < e.len() && e[min] is Some {
        free_from(e, min + 1)
    } else {
        min
    }
}

/// The table, made long enough for `fd`, with `fd` set to `x`.
pub open spec fn with_fd(e: Fds, fd: int, x: Option<FdEntry>) -> Fds {
    if fd < e.len() {
        e.update(fd, x)
    } else {
        (e + Seq::new((fd - e.len()) as nat, |i: int| None)).push(x)
    }
}

proof fn lemma_free_from(e: Fds, min: int, k: int)
    requires
        0 <= min <= k,
        forall|i: int| min <= i < k ==> i < e.len() && #[trigger] e[i] is Some,
        k >= e.len() || e[k] is None,
    ensures
        free_from(e, min) == k,
    decreases k - min,
{
    if min < k {
        assert(e[min] is Some);
        lemma_free_from(e, min + 1, k);
    }
}

/// The free descriptor that is found is free and not below the minimum, and
/// all from the minimum to it are in use.
pub proof fn free_from_is_lowest(e: Fds, min: int)
    requires
        0 <= min,
    ensures
        free_from(e, min) >= min,
        !open_fd(e, free_from(e, min)),
        forall|i: int| min <= i < free_from(e, min) ==> open_fd(e, i),
    decreases e.len() - min,
{
    if min < e.len() && e[min] is Some {
        free_from_is_lowest(e, min + 1);
        assert forall|i: int| min <= i < free_from(e, min) implies open_fd(e, i) by {
            if i > min {
                assert(open_fd(e, i));
            }
        }
    }
}

impl FdTable {
    pub open spec fn wf(&self) -> bool {
        self.limit <= FD_MAX && self.entries@.len() <= FD_MAX
    }

    pub fn new(limit: usize) -> (r: FdTable)
        requires
            limit <= FD_MAX,
        ensures
            r.wf(),
            r.entries@ == Seq::<Option<FdEntry>>::empty(),
            r.limit == limit,
    {
        FdTable { entries: Vec::new(), limit }
    }

    /// The entry of a descriptor in use.
    pub fn get_entry(&self, fd: i32) -> (r: Result<FdEntry, i32>)
        ensures
            match r {
                Ok(x) => open_fd(self.entries@, fd as int) && self.entries@[fd as int] == Some(x),
                Err(e) => !open_fd(self.entries@, fd as int) && e == EBADF,
            },
    {
        if fd < 0 || fd as usize >= self.entries.len() {
            return Err(EBADF);
        }
        match self.entries[fd as usize] {
            Some(x) => Ok(x),
            None => Err(EBADF),
        }
    }

    /// The file of a descriptor in use.
    pub fn get(&self, fd: i32) -> (r: Result<usize, i32>)
        ensures
            match r {
                Ok(f) => open_fd(self.entries@, fd as int) && self.entries@[fd as int]->0.file == f,
                Err(e) => !open_fd(self.entries@, fd as int) && e == EBADF,
            },
    {
        match self.get_entry(fd) {
            Ok(x) => Ok(x.file),
            Err(e) => Err(e),
        }
    }

    /// Makes the table long enough for index `i`.
    fn grow(&mut self, i: usize)
        requires
            i < FD_MAX,
        ensures
            final(self).limit == old(self).limit,
            i < final(self).entries@.len(),
            final(self).entries@ == (if i < old(self).entries@.len() {
                old(self).entries@
            } else {
                with_fd(old(self).entries@, i as int, None)
            }),
    {
        let ghost e = self.entries@;
        while self.entries.len() <= i
            invariant
                i < FD_MAX,
                self.limit == old(self).limit,
                e == old(self).entries@,
                self.entries@.len() >= e.len(),
                e.len() > i ==> self.entries@ == e,
                e.len() <= i ==> self.entries@.len() <= i + 1,
                self.entries@ =~= e + Seq::new(
                    (self.entries@.len() - e.len()) as nat,
                    |k: int| None,
                ),
            decreases i + 1 - self.entries@.len(),
        {
            self.entries.push(None);
        }
        proof {
            if e.len() <= i {
                assert(self.entries@ =~= with_fd(e, i as int, None));
            }
        }
    }

    /// Gives a file the lowest free descriptor from `min` on.
    pub fn alloc_fd(&mut self, file: usize, cloexec: bool, min: usize) -> (r: Result<i32, i32>)
        requires
            old(self).wf(),
        ensures
            final(self).wf(),
            final(self).limit == old(self).limit,
            ({
                let fd = free_from(old(self).entries@, min as int);
                if fd < old(self).limit {
                    &&& r is Ok && r->Ok_0 == fd
                    &&& final(self).entries@ == with_fd(
                        old(self).entries@,
                        fd,
                        Some(FdEntry { file, cloexec }),
                    )
                } else {
                    r is Err && r->Err_0 == EMFILE && final(self).entries@ == old(self).entries@
                }
            }),
    {
        let ghost e = self.entries@;
        let n: usize = self.entries.len();
        let mut i: usize = min;
        while i < n && self.entries[i].is_some()
            invariant
                min <= i,
                n == self.entries@.len(),
                e == self.entries@,
                i <= n || i == min,
                forall|j: int| min <= j < i ==> j < e.len() && #[trigger] e[j] is Some,
            decreases n - i,
        {
            i = i + 1;
        }
        proof {
            lemma_free_from(e, min as int, i as int);
        }
        if i >= self.limit {
            return Err(EMFILE);
        }
        self.grow(i);
        self.entries.set(i, Some(FdEntry { file, cloexec }));
        proof {
            assert(self.entries@ =~= with_fd(e, i as int, Some(FdEntry { file, cloexec })));
        }
        Ok(i as i32)
    }

    /// Frees a descriptor, and gives the file it referred to.
    pub fn close(&mut self, fd: i32) -> (r: Result<usize, i32>)
        requires
            old(self).wf(),
        ensures
            final(self).wf(),
            final(self).limit == old(self).limit,
            match r {
                Ok(f) => {
                    &&& open_fd(old(self).entries@, fd as int)
                    &&& old(self).entries@[fd as int]->0.file == f
                    &&& final(self).entries@ == old(self).entries@.update(fd as int, None)
                },
                Err(e) => !open_fd(old(self).entries@, fd as int) && e == EBADF
                    && final(self).entries@ == old(self).entries@,
            },
    {
        match self.get_entry(fd) {
            Ok(x) => {
                self.entries.set(fd as usize, None);
                Ok(x.file)
            },
            Err(e) => Err(e),
        }
    }

    /// Sets a descriptor, whatever it was before.
    pub fn set(&mut self, fd: i32, file: usize, cloexec: bool) -> (r: Result<(), i32>)
        requires
            old(self).wf(),
        ensures
            final(self).wf(),
            final(self).limit == old(self).limit,
            if 0 <= fd < old(self).limit {
                r is Ok && final(self).entries@ == with_fd(
                    old(self).entries@,
                    fd as int,
                    Some(FdEntry { file, cloexec }),
                )
            } else {
                r is Err && r->Err_0 == EBADF && final(self).entries@ == old(self).entries@
            },
    {
        if fd < 0 || fd as usize >= self.limit {
            return Err(EBADF);
        }
        let ghost e = self.entries@;
        let i: usize = fd as usize;
        self.grow(i);
        self.entries.set(i, Some(FdEntry { file, cloexec }));
        proof {
            assert(self.entries@ =~= with_fd(e, i as int, Some(FdEntry { file, cloexec })));
        }
        Ok(())
    }

    pub fn set_cloexec(&mut self, fd: i32, on: bool) -> (r: Result<(), i32>)
        requires
            old(self).wf(),
        ensures
            final(self).wf(),
            final(self).limit == old(self).limit,
            match r {
                Ok(_) => {
                    &&& open_fd(old(self).entries@, fd as int)
                    &&& final(self).entries@ == old(self).entries@.update(
                        fd as int,
                        Some(
                            FdEntry { cloexec: on, ..old(self).entries@[fd as int]->0 },
                        ),
                    )
                },
                Err(e) => !open_fd(old(self).entries@, fd as int) && e == EBADF
                    && final(self).entries@ == old(self).entries@,
            },
    {
        match self.get_entry(fd) {
            Ok(x) => {
                self.entries.set(fd as usize, Some(FdEntry { file: x.file, cloexec: on }));
                Ok(())
            },
            Err(e) => Err(e),
        }
    }

    /// Frees every descriptor that is marked to be closed when a program
    /// starts.
    pub fn close_on_exec(&mut self)
        requires
            old(self).wf(),
        ensures
            final(self).wf(),
            final(self).limit == old(self).limit,
            final(self).entries@ == kept_on_exec(old(self).entries@),
    {
        let ghost e = self.entries@;
        let n: usize = self.entries.len();
        let mut i: usize = 0;
        while i < n
            invariant
                i <= n == self.entries@.len(),
                n == e.len(),
                self.limit == old(self).limit,
                forall|j: int| 0 <= j < i ==> #[trigger] self.entries@[j] == kept_on_exec(e)[j],
                forall|j: int| i <= j < n ==> #[trigger] self.entries@[j] == e[j],
            decreases n - i,
        {
            assert(self.entries@[i as int] == e[i as int]);
            match self.entries[i] {
                Some(x) => {
                    if x.cloexec {
                        self.entries.set(i, None);
                    }
                },
                None => {},
            }
            i = i + 1;
        }
        proof {
            assert(self.entries@ =~= kept_on_exec(e));
        }
    }
}

pub open spec fn kept_on_exec(e: Fds) -> Fds {
    Seq::new(
        e.len(),
        |i: int|
            match e[i] {
                Some(x) => if x.cloexec {
                    None
                } else {
                    Some(x)
                },
                None => None,
            },
    )
}

/// A descriptor that was just allocated refers to its file, and no other
/// descriptor changed.
pub proof fn allocated_is_open(e: Fds, min: int, x: FdEntry, fd: int)
    requires
        0 <= min,
    ensures
        ({
            let k = free_from(e, min);
            let t = with_fd(e, k, Some(x));
            &&& open_fd(t, k) && t[k] == Some(x)
            &&& fd != k ==> open_fd(t, fd) == open_fd(e, fd)
            &&& fd != k && open_fd(e, fd) ==> t[fd] == e[fd]
        }),
{
    free_from_is_lowest(e, min);
}

/// What the system calls need to know of an open file.
#[derive(Clone, Copy, PartialEq, Eq, Structural, Debug)]
pub struct OpenFile {
    /// Access mode and status flags.
    pub flags: u32,
    pub pos: u64,
    /// The node of the file system that it was opened on.
    pub node: Option<usize>,
    pub seekable: bool,
    /// The number of the epoll instance, for one of these.
    pub epoll: Option<usize>,
    /// The number of the socket, for one of these.
    pub socket: Option<usize>,
}

/// A new program keeps exactly the descriptors that are not marked to be closed.
pub proof fn marked_are_closed(e: Fds, fd: int)
    ensures
        open_fd(kept_on_exec(e), fd) <==> open_fd(e, fd) && !e[fd]->0.cloexec,
        open_fd(kept_on_exec(e), fd) ==> kept_on_exec(e)[fd] == e[fd],
{
}

} // verus!
