//! The nodes of a file system in memory: directories with named children, files
//! with their bytes, links and special nodes.

use vstd::prelude::*;
use crate::errno::{ENOENT, ENOTDIR};
use crate::paths::bytes_eq;

verus! {

/// What a node is.
pub enum NodeKind {
    File(Vec<u8>),
    /// The numbers of the children.
    Dir(Vec<usize>),
    Symlink(Vec<u8>),
    Fifo,
    Socket,
    Device,
}

#[derive(Clone, Copy, PartialEq, Eq, Structural, Debug)]
pub struct Meta {
    pub mode: u32,
    pub uid: u32,
    pub gid: u32,
    pub atime: i64,
    pub mtime: i64,
    pub ctime: i64,
}

pub struct Node {
    pub name: Vec<u8>,
    pub meta: Meta,
    pub kind: NodeKind,
}

pub struct Nodes {
    pub list: Vec<Node>,
}

pub enum KindView {
    File(Seq<u8>),
    Dir(Seq<usize>),
    Symlink(Seq<u8>),
    Fifo,
    Socket,
    Device,
}

pub struct NodeView {
    pub name: Seq<u8>,
    pub meta: Meta,
    pub kind: KindView,
}

impl View for NodeKind {
    type V = KindView;

    open spec fn view(&self) -> KindView {
        match self {
            NodeKind::File(d) => KindView::File(d@),
            NodeKind::Dir(l) => KindView::Dir(l@),
            NodeKind::Symlink(t) => KindView::Symlink(t@),
            NodeKind::Fifo => KindView::Fifo,
            NodeKind::Socket => KindView::Socket,
            NodeKind::Device => KindView::Device,
        }
    }
}

impl View for Node {
    type V = NodeView;

    open spec fn view(&self) -> NodeView {
        NodeView {
            name: self.name@,
            meta: self.meta,
            kind: self.kind@,
        }
    }
}

pub type Tree = Seq<NodeView>;

impl View for Nodes {
    type V = Tree;

    open spec fn view(&self) -> Tree {
        Seq::new(self.list@.len(), |i: int| self.list@[i]@)
    }
}

pub open spec fn is_dir(t: Tree, n: int) -> bool {
    0 <= n < t.len() && t[n].kind is Dir
}

/// The children of a directory.
pub open spec fn children(t: Tree, n: int) -> Seq<usize> {
    t[n].kind->Dir_0
}

/// Every child is a node.
pub open spec fn tree_wf(t: Tree) -> bool {
    forall|n: int, i: int|
        is_dir(t, n) && 0 <= i < children(t, n).len() ==> (#[trigger] children(t, n)[i]) < t.len()
}

/// The `i`-th child of `n` is the first with a name.
pub open spec fn named(t: Tree, n: int, name: Seq<u8>, i: int) -> bool {
    let c = children(t, n);
    &&& 0 <= i < c.len()
    &&& t[c[i] as int].name == name
    &&& forall|j: int| 0 <= j < i ==> t[#[trigger] c[j] as int].name != name
}

/// Where in its directory a name is.
pub open spec fn place_of(t: Tree, n: int, name: Seq<u8>) -> Option<int> {
    if is_dir(t, n) && exists|i: int| named(t, n, name, i) {
        Some(choose|i: int| named(t, n, name, i))
    } else {
        None
    }
}

/// The child of a directory with a name.
pub open spec fn child_of(t: Tree, n: int, name: Seq<u8>) -> Option<usize> {
    match place_of(t, n, name) {
        Some(i) => Some(children(t, n)[i]),
        None => None,
    }
}

pub open spec fn with_children(t: Tree, n: int, c: Seq<usize>) -> Tree {
    t.update(n, NodeView { kind: KindView::Dir(c), ..t[n] })
}

/// The tree after a new node was put into a directory.
pub open spec fn added(t: Tree, n: int, x: NodeView) -> Tree {
    with_children(t, n, children(t, n).push(t.len() as usize)).push(x)
}

pub open spec fn with_meta(t: Tree, n: int, m: Meta) -> Tree {
    t.update(n, NodeView { meta: m, ..t[n] })
}

pub proof fn lemma_place(t: Tree, n: int, name: Seq<u8>, i: int)
    requires
        is_dir(t, n),
        named(t, n, name, i),
    ensures
        place_of(t, n, name) == Some(i),
{
    let k = choose|k: int| named(t, n, name, k);
    assert(named(t, n, name, k));
    if k < i {
        assert(t[children(t, n)[k] as int].name != name);
    }
    if i < k {
        assert(t[children(t, n)[i] as int].name != name);
    }
}

impl Nodes {
    pub open spec fn wf(&self) -> bool {
        tree_wf(self@) && self.list@.len() < usize::MAX
    }

    pub fn is_dir(&self, n: usize) -> (r: bool)
        ensures
            r == is_dir(self@, n as int),
    {
        if n >= self.list.len() {
            return false;
        }
        match &self.list[n].kind {
            NodeKind::Dir(_) => true,
            _ => false,
        }
    }

    fn find(&self, n: usize, name: &Vec<u8>) -> (r: Option<usize>)
        requires
            self.wf(),
        ensures
            match r {
                Some(i) => place_of(self@, n as int, name@) == Some(i as int) && is_dir(
                    self@,
                    n as int,
                ) && i < children(self@, n as int).len(),
                None => place_of(self@, n as int, name@) is None,
            },
    {
        if n >= self.list.len() {
            return None;
        }
        let ghost t = self@;
        match &self.list[n].kind {
            NodeKind::Dir(l) => {
                let len: usize = l.len();
                let mut i: usize = 0;
                while i < len
                    invariant
                        i <= len == l@.len(),
                        t == self@,
                        self.wf(),
                        n < self.list@.len(),
                        is_dir(t, n as int),
                        children(t, n as int) == l@,
                        forall|j: int| 0 <= j < i ==> t[#[trigger] l@[j] as int].name != name@,
                    decreases len - i,
                {
                    let c: usize = l[i];
                    proof {
                        assert(children(t, n as int)[i as int] < t.len());
                        assert(t[c as int].name == self.list@[c as int].name@);
                    }
                    if bytes_eq(&self.list[c].name, name) {
                        proof {
                            assert(named(t, n as int, name@, i as int));
                            lemma_place(t, n as int, name@, i as int);
                        }
                        return Some(i);
                    }
                    i = i + 1;
                }
                None
            },
            _ => None,
        }
    }

    /// The child of a directory with a name.
    pub fn lookup_child(&self, n: usize, name: &Vec<u8>) -> (r: Option<usize>)
        requires
            self.wf(),
        ensures
            r == child_of(self@, n as int, name@),
            r is Some ==> r->0 < self@.len(),
    {
        match self.find(n, name) {
            Some(i) => match &self.list[n].kind {
                NodeKind::Dir(l) => {
                    proof {
                        assert(children(self@, n as int)[i as int] < self@.len());
                    }
                    Some(l[i])
                },
                _ => None,
            },
            None => None,
        }
    }

    /// Puts a new node into a directory.
    pub fn add_new(&mut self, n: usize, name: Vec<u8>, meta: Meta, kind: NodeKind) -> (r: Result<usize, i32>)
        requires
            old(self).wf(),
            old(self).list@.len() + 1 < usize::MAX,
            kind is Dir ==> kind->Dir_0@.len() == 0,
        ensures
            final(self).wf(),
            if is_dir(old(self)@, n as int) {
                &&& r == Ok::<usize, i32>(old(self)@.len() as usize)
                &&& final(self)@ == added(
                    old(self)@,
                    n as int,
                    NodeView { name: name@, meta, kind: kind@ },
                )
            } else {
                r == Err::<usize, i32>(ENOTDIR) && final(self)@ == old(self)@
            },
    {
        if !self.is_dir(n) {
            return Err(ENOTDIR);
        }
        let ghost t = self@;
        let id: usize = self.list.len();
        let ghost x = NodeView { name: name@, meta, kind: kind@ };
        self.push_child(n, id);
        self.list.push(Node { name, meta, kind });
        proof {
            let u = added(t, n as int, x);
            assert(self@ =~= u);
            assert forall|m: int, i: int| is_dir(u, m) && 0 <= i < children(u, m).len() implies (
            #[trigger] children(u, m)[i]) < u.len() by {
                if m == n {
                    if i < children(t, m).len() {
                        assert(children(u, m)[i] == children(t, m)[i]);
                    }
                } else if m < t.len() {
                    assert(u[m] == t[m]);
                    assert(children(u, m)[i] == children(t, m)[i]);
                }
            }
        }
        Ok(id)
    }

    /// Puts a number at the end of a directory's children.
    fn push_child(&mut self, n: usize, id: usize)
        requires
            is_dir(old(self)@, n as int),
        ensures
            final(self)@ == with_children(
                old(self)@,
                n as int,
                children(old(self)@, n as int).push(id),
            ),
            final(self).list@.len() == old(self).list@.len(),
    {
        let ghost t = self@;
        let ghost l = self.list@;
        match &mut self.list[n].kind {
            NodeKind::Dir(c) => {
                c.push(id);
            },
            _ => {},
        }
        proof {
            assert(self@ =~= with_children(t, n as int, children(t, n as int).push(id))) by {
                assert forall|i: int| 0 <= i < t.len() && i != n implies self@[i] == t[i] by {
                    assert(self.list@[i] == l[i]);
                }
            }
        }
    }

    /// Puts a node that is there already into a directory.
    pub fn add_child(&mut self, n: usize, id: usize) -> (r: Result<(), i32>)
        requires
            old(self).wf(),
            id < old(self)@.len(),
        ensures
            final(self).wf(),
            if is_dir(old(self)@, n as int) {
                r is Ok && final(self)@ == with_children(
                    old(self)@,
                    n as int,
                    children(old(self)@, n as int).push(id),
                )
            } else {
                r is Err && r->Err_0 == ENOTDIR && final(self)@ == old(self)@
            },
    {
        if !self.is_dir(n) {
            return Err(ENOTDIR);
        }
        let ghost t = self@;
        self.push_child(n, id);
        proof {
            let u = self@;
            assert forall|m: int, i: int| is_dir(u, m) && 0 <= i < children(u, m).len() implies (
            #[trigger] children(u, m)[i]) < u.len() by {
                if m == n {
                    if i < children(t, m).len() {
                        assert(children(u, m)[i] == children(t, m)[i]);
                    }
                } else {
                    assert(u[m] == t[m]);
                    assert(children(u, m)[i] == children(t, m)[i]);
                }
            }
        }
        Ok(())
    }

    /// Takes the child with a name out of a directory.
    pub fn remove_child(&mut self, n: usize, name: &Vec<u8>) -> (r: Result<(), i32>)
        requires
            old(self).wf(),
        ensures
            final(self).wf(),
            match place_of(old(self)@, n as int, name@) {
                Some(i) => r is Ok && final(self)@ == with_children(
                    old(self)@,
                    n as int,
                    children(old(self)@, n as int).remove(i),
                ),
                None => r is Err && r->Err_0 == ENOENT && final(self)@ == old(self)@,
            },
    {
        let ghost t = self@;
        let ghost l = self.list@;
        let i: usize = match self.find(n, name) {
            Some(i) => i,
            None => {
                return Err(ENOENT);
            },
        };
        match &mut self.list[n].kind {
            NodeKind::Dir(c) => {
                c.remove(i);
            },
            _ => {},
        }
        proof {
            let u = self@;
            let c = children(t, n as int);
            assert(u =~= with_children(t, n as int, c.remove(i as int))) by {
                assert forall|k: int| 0 <= k < t.len() && k != n implies u[k] == t[k] by {
                    assert(self.list@[k] == l[k]);
                }
            }
            assert forall|m: int, k: int| is_dir(u, m) && 0 <= k < children(u, m).len() implies (
            #[trigger] children(u, m)[k]) < u.len() by {
                if m == n {
                    if k < i {
                        assert(children(u, m)[k] == c[k]);
                    } else {
                        assert(children(u, m)[k] == c[k + 1]);
                    }
                } else {
                    assert(u[m] == t[m]);
                    assert(children(u, m)[k] == children(t, m)[k]);
                }
            }
        }
        Ok(())
    }

    pub fn set_meta(&mut self, n: usize, m: Meta)
        requires
            old(self).wf(),
            n < old(self)@.len(),
        ensures
            final(self).wf(),
            final(self)@ == with_meta(old(self)@, n as int, m),
    {
        let ghost t = self@;
        let ghost l = self.list@;
        self.list[n].meta = m;
        proof {
            let u = self@;
            assert(u =~= with_meta(t, n as int, m)) by {
                assert forall|k: int| 0 <= k < t.len() && k != n implies u[k] == t[k] by {
                    assert(self.list@[k] == l[k]);
                }
            }
            lemma_same_dirs(t, u);
        }
    }

    pub fn set_name(&mut self, n: usize, name: Vec<u8>)
        requires
            old(self).wf(),
            n < old(self)@.len(),
        ensures
            final(self).wf(),
            final(self)@ == old(self)@.update(
                n as int,
                NodeView { name: name@, ..old(self)@[n as int] },
            ),
    {
        let ghost t = self@;
        let ghost l = self.list@;
        let ghost nm = name@;
        self.list[n].name = name;
        proof {
            let u = self@;
            assert(u =~= t.update(n as int, NodeView { name: nm, ..t[n as int] })) by {
                assert forall|k: int| 0 <= k < t.len() && k != n implies u[k] == t[k] by {
                    assert(self.list@[k] == l[k]);
                }
            }
            lemma_same_dirs(t, u);
        }
    }

    /// Makes a file hold other bytes.
    pub fn set_data(&mut self, n: usize, data: Vec<u8>)
        requires
            old(self).wf(),
            n < old(self)@.len(),
            old(self)@[n as int].kind is File,
        ensures
            final(self).wf(),
            final(self)@ == old(self)@.update(
                n as int,
                NodeView { kind: KindView::File(data@), ..old(self)@[n as int] },
            ),
    {
        let ghost t = self@;
        let ghost l = self.list@;
        let ghost d = data@;
        self.list[n].kind = NodeKind::File(data);
        proof {
            let u = self@;
            assert(u =~= t.update(
                n as int,
                NodeView { kind: KindView::File(d), ..t[n as int] },
            )) by {
                assert forall|k: int| 0 <= k < t.len() && k != n implies u[k] == t[k] by {
                    assert(self.list@[k] == l[k]);
                }
            }
            lemma_same_dirs(t, u);
        }
    }
}

proof fn lemma_same_dirs(t: Tree, u: Tree)
    requires
        tree_wf(t),
        t.len() == u.len(),
        forall|n: int| 0 <= n < t.len() ==> is_dir(t, n) == #[trigger] is_dir(u, n),
        forall|n: int| is_dir(t, n) ==> #[trigger] u[n].kind == t[n].kind,
    ensures
        tree_wf(u),
{
    assert forall|n: int, i: int| is_dir(u, n) && 0 <= i < children(u, n).len() implies (
    #[trigger] children(u, n)[i]) < u.len() by {
        assert(is_dir(t, n));
        assert(u[n].kind == t[n].kind);
        assert(children(u, n)[i] == children(t, n)[i]);
    }
}

/// No two children of a directory have the same name.
pub open spec fn distinct(t: Tree, n: int) -> bool {
    forall|i: int, j: int|
        0 <= i < j < children(t, n).len() ==> t[#[trigger] children(t, n)[i] as int].name
            != t[#[trigger] children(t, n)[j] as int].name
}

/// A node that was put into a directory under a new name is found there.
pub proof fn added_is_found(t: Tree, n: int, x: NodeView)
    requires
        tree_wf(t),
        is_dir(t, n),
        t.len() < usize::MAX,
        place_of(t, n, x.name) is None,
    ensures
        child_of(added(t, n, x), n, x.name) == Some(t.len() as usize),
{
    let u = added(t, n, x);
    let c = children(t, n);
    let d = children(u, n);
    let k = c.len() as int;
    assert(is_dir(u, n));
    assert(d =~= c.push(t.len() as usize));
    assert(u[d[k] as int] == x);
    assert(named(u, n, x.name, k)) by {
        assert forall|j: int| 0 <= j < k implies u[#[trigger] d[j] as int].name != x.name by {
            assert(d[j] == c[j]);
            assert(c[j] < t.len());
            assert(u[d[j] as int].name == t[c[j] as int].name);
            if t[c[j] as int].name == x.name {
                lemma_some_named(t, n, x.name, j);
            }
        }
    }
    lemma_place(u, n, x.name, k);
}

pub proof fn lemma_some_named(t: Tree, n: int, name: Seq<u8>, j: int)
    requires
        is_dir(t, n),
        0 <= j < children(t, n).len(),
        t[children(t, n)[j] as int].name == name,
    ensures
        place_of(t, n, name) is Some,
    decreases j,
{
    if forall|i: int| 0 <= i < j ==> t[#[trigger] children(t, n)[i] as int].name != name {
        assert(named(t, n, name, j));
    } else {
        let i = choose|i: int|
            0 <= i < j && t[#[trigger] children(t, n)[i] as int].name == name;
        lemma_some_named(t, n, name, i);
    }
}

/// A name that was taken out of a directory without repeated names is not found
/// there any more.
pub proof fn removed_is_gone(t: Tree, n: int, name: Seq<u8>)
    requires
        tree_wf(t),
        is_dir(t, n),
        distinct(t, n),
        place_of(t, n, name) is Some,
    ensures
        child_of(
            with_children(t, n, children(t, n).remove(place_of(t, n, name)->0)),
            n,
            name,
        ) is None,
{
    let i = place_of(t, n, name)->0;
    let c = children(t, n);
    assert(named(t, n, name, i));
    let u = with_children(t, n, c.remove(i));
    let d = children(u, n);
    if child_of(u, n, name) is Some {
        let k = choose|k: int| named(u, n, name, k);
        assert(named(u, n, name, k));
        let k0 = if k < i {
            k
        } else {
            k + 1
        };
        assert(d[k] == c[k0]);
        assert(c[k0] < t.len());
        assert(t[c[k0] as int].name == name);
        if k0 < i {
            assert(t[c[k0] as int].name != t[c[i] as int].name);
        } else {
            assert(t[c[i] as int].name != t[c[k0] as int].name);
        }
    }
}

/// Taking a name out of a directory leaves every other name of it where it led.
pub proof fn removal_keeps_others(t: Tree, n: int, name: Seq<u8>, other: Seq<u8>)
    requires
        tree_wf(t),
        is_dir(t, n),
        place_of(t, n, name) is Some,
        other != name,
    ensures
        child_of(with_children(t, n, children(t, n).remove(place_of(t, n, name)->0)), n, other)
            == child_of(t, n, other),
{
    let i = place_of(t, n, name)->0;
    let c = children(t, n);
    assert(named(t, n, name, i));
    let u = with_children(t, n, c.remove(i));
    let d = children(u, n);
    assert(d == c.remove(i));
    assert(is_dir(u, n));
    assert forall|k: int| 0 <= k < d.len() implies u[(#[trigger] d[k]) as int].name == t[(if k < i {
        c[k]
    } else {
        c[k + 1]
    }) as int].name by {
        let x = if k < i {
            c[k]
        } else {
            c[k + 1]
        };
        assert(x < t.len());
    }
    if place_of(t, n, other) is Some {
        let j = place_of(t, n, other)->0;
        assert(named(t, n, other, j));
        assert(j != i);
        let k = if j < i {
            j
        } else {
            j - 1
        };
        assert(d[k] == c[j]);
        assert(named(u, n, other, k)) by {
            assert forall|x: int| 0 <= x < k implies u[(#[trigger] d[x]) as int].name != other by {
                let y = if x < i {
                    x
                } else {
                    x + 1
                };
                assert(t[c[y] as int].name != other);
            }
        }
        lemma_place(u, n, other, k);
    } else if place_of(u, n, other) is Some {
        let k = place_of(u, n, other)->0;
        assert(named(u, n, other, k));
        let y = if k < i {
            k
        } else {
            k + 1
        };
        assert(d[k] == c[y]);
        assert(t[c[y] as int].name == other);
        lemma_some_named(t, n, other, y);
    }
}

} // verus!
