//! Slash-separated paths as byte strings.

use vstd::prelude::*;

verus! {

pub const SLASH: u8 = 0x2f;

/// The pieces between slashes; a path without slash is one piece.
pub open spec fn split(p: Seq<u8>) -> Seq<Seq<u8>>
    decreases p.len(),
{
    if p.len() == 0 {
        seq![Seq::empty()]
    } else {
        let rest = split(p.drop_last());
        if p.last() == SLASH {
            rest.push(Seq::empty())
        } else {
            rest.update(rest.len() - 1, rest.last().push(p.last()))
        }
    }
}

/// The pieces with a slash between them.
pub open spec fn join(parts: Seq<Seq<u8>>) -> Seq<u8>
    decreases parts.len(),
{
    if parts.len() == 0 {
        Seq::empty()
    } else if parts.len() == 1 {
        parts[0]
    } else {
        join(parts.drop_last()).push(SLASH) + parts.last()
    }
}

pub open spec fn dot() -> Seq<u8> {
    seq![0x2eu8]
}

pub open spec fn dotdot() -> Seq<u8> {
    seq![0x2eu8, 0x2eu8]
}

/// Without leading slashes.
pub open spec fn trim_start(p: Seq<u8>) -> Seq<u8>
    decreases p.len(),
{
    if p.len() > 0 && p[0] == SLASH {
        trim_start(p.skip(1))
    } else {
        p
    }
}

/// The pieces after `.` and `..` have been followed.
pub open spec fn followed(parts: Seq<Seq<u8>>) -> Seq<Seq<u8>>
    decreases parts.len(),
{
    if parts.len() == 0 {
        Seq::empty()
    } else {
        let rest = followed(parts.drop_last());
        let s = parts.last();
        if s.len() == 0 || s =~= dot() {
            rest
        } else if s =~= dotdot() {
            if rest.len() > 0 {
                rest.drop_last()
            } else {
                rest
            }
        } else {
            rest.push(s)
        }
    }
}

/// The path in its shortest form, without leading slash.
pub open spec fn normalized(p: Seq<u8>) -> Seq<u8> {
    join(followed(split(trim_start(p))))
}

/// The views of a list of byte strings.
pub open spec fn views(v: Seq<Vec<u8>>) -> Seq<Seq<u8>> {
    Seq::new(v.len(), |i: int| v[i]@)
}

pub fn bytes_eq(a: &[u8], b: &[u8]) -> (r: bool)
    ensures
        r == (a@ == b@),
{
    let n: usize = a.len();
    if n != b.len() {
        return false;
    }
    let mut i: usize = 0;
    while i < n
        invariant
            i <= n == a@.len(),
            n == b@.len(),
            forall|j: int| 0 <= j < i ==> a@[j] == b@[j],
        decreases n - i,
    {
        if a[i] != b[i] {
            return false;
        }
        i = i + 1;
    }
    assert(a@ =~= b@);
    true
}

pub fn copy_bytes(a: &[u8]) -> (r: Vec<u8>)
    ensures
        r@ == a@,
{
    vstd::slice::slice_to_vec(a)
}

pub proof fn lemma_split_len(p: Seq<u8>)
    ensures
        split(p).len() > 0,
    decreases p.len(),
{
    if p.len() > 0 {
        lemma_split_len(p.drop_last());
    }
}

/// Splits a path at its slashes.
pub fn split_path(p: &[u8]) -> (r: Vec<Vec<u8>>)
    ensures
        views(r@) == split(p@),
{
    let mut r: Vec<Vec<u8>> = Vec::new();
    let mut cur: Vec<u8> = Vec::new();
    let n: usize = p.len();
    let mut i: usize = 0;
    proof {
        assert(p@.take(0) =~= Seq::empty());
        assert(views(r@).push(cur@) =~= split(p@.take(0)));
    }
    while i < n
        invariant
            i <= n == p@.len(),
            views(r@).push(cur@) == split(p@.take(i as int)),
        decreases n - i,
    {
        let ghost rest = split(p@.take(i as int));
        let ghost r0 = r@;
        let ghost c0 = cur@;
        proof {
            assert(p@.take(i + 1).drop_last() =~= p@.take(i as int));
        }
        if p[i] == SLASH {
            r.push(cur);
            cur = Vec::new();
            proof {
                assert(views(r@).push(cur@) =~= rest.push(Seq::empty()));
            }
        } else {
            cur.push(p[i]);
            proof {
                assert(views(r@).push(cur@) =~= rest.update(
                    rest.len() - 1,
                    rest.last().push(p@[i as int]),
                ));
            }
        }
        i = i + 1;
    }
    r.push(cur);
    proof {
        assert(p@.take(n as int) =~= p@);
        assert(views(r@) =~= split(p@));
    }
    r
}

/// Joins pieces with slashes.
pub fn join_path(parts: &Vec<Vec<u8>>) -> (r: Vec<u8>)
    ensures
        r@ == join(views(parts@)),
{
    let mut r: Vec<u8> = Vec::new();
    let n: usize = parts.len();
    let ghost v = views(parts@);
    let mut i: usize = 0;
    proof {
        assert(v.take(0) =~= Seq::empty());
        assert(r@ =~= join(v.take(0)));
    }
    while i < n
        invariant
            i <= n == parts@.len(),
            v == views(parts@),
            r@ == join(v.take(i as int)),
        decreases n - i,
    {
        proof {
            assert(v.take(i + 1).drop_last() =~= v.take(i as int));
            assert(v.take(i + 1).last() == parts@[i as int]@);
        }
        if i > 0 {
            r.push(SLASH);
        }
        r.extend_from_slice(&parts[i]);
        proof {
            if i == 0 {
                assert(r@ =~= parts@[0]@);
                assert(v.take(1).len() == 1);
            }
            assert(r@ =~= join(v.take(i + 1)));
        }
        i = i + 1;
    }
    proof {
        assert(v.take(n as int) =~= v);
    }
    r
}

/// The index behind the leading slashes.
pub fn skip_slashes(p: &[u8]) -> (r: usize)
    ensures
        r <= p@.len(),
        p@.skip(r as int) == trim_start(p@),
{
    let n: usize = p.len();
    let mut i: usize = 0;
    proof {
        assert(p@.skip(0) =~= p@);
    }
    while i < n && p[i] == SLASH
        invariant
            i <= n == p@.len(),
            trim_start(p@.skip(i as int)) == trim_start(p@),
        decreases n - i,
    {
        proof {
            assert(p@.skip(i as int).skip(1) =~= p@.skip(i + 1));
        }
        i = i + 1;
    }
    i
}

pub fn is_dot(s: &[u8]) -> (r: bool)
    ensures
        r == (s@ =~= dot()),
{
    s.len() == 1 && s[0] == 0x2e
}

pub fn is_dotdot(s: &[u8]) -> (r: bool)
    ensures
        r == (s@ =~= dotdot()),
{
    s.len() == 2 && s[0] == 0x2e && s[1] == 0x2e
}

/// The path in its shortest form: no empty pieces, no `.`, and `..` followed;
/// a `..` at the top stays at the top.
pub fn normalize_path(path: &[u8]) -> (r: Vec<u8>)
    ensures
        r@ == normalized(path@),
{
    let from: usize = skip_slashes(path);
    let p: &[u8] = vstd::slice::slice_subrange(path, from, path.len());
    proof {
        assert(p@ =~= path@.skip(from as int));
    }
    let segs: Vec<Vec<u8>> = split_path(p);
    let ghost sv = views(segs@);
    let mut parts: Vec<Vec<u8>> = Vec::new();
    let n: usize = segs.len();
    let mut i: usize = 0;
    proof {
        assert(sv.take(0) =~= Seq::empty());
        assert(views(parts@) =~= followed(sv.take(0)));
    }
    while i < n
        invariant
            i <= n == segs@.len(),
            sv == views(segs@),
            views(parts@) == followed(sv.take(i as int)),
        decreases n - i,
    {
        let seg: &Vec<u8> = &segs[i];
        let ghost p0 = views(parts@);
        proof {
            assert(sv.take(i + 1).drop_last() =~= sv.take(i as int));
            assert(sv.take(i + 1).last() == seg@);
        }
        if seg.len() == 0 || is_dot(seg) {
        } else if is_dotdot(seg) {
            let gone: Option<Vec<u8>> = parts.pop();
            proof {
                if p0.len() > 0 {
                    assert(views(parts@) =~= p0.drop_last());
                } else {
                    assert(views(parts@) =~= p0);
                }
            }
        } else {
            parts.push(copy_bytes(seg));
            proof {
                assert(views(parts@) =~= p0.push(seg@));
            }
        }
        i = i + 1;
    }
    proof {
        assert(sv.take(n as int) =~= sv);
    }
    join_path(&parts)
}

// ---- Laws ---------------------------------------------------------------------
/// Pieces of a path hold no slash.
pub open spec fn slashless(parts: Seq<Seq<u8>>) -> bool {
    forall|i: int, j: int|
        0 <= i < parts.len() && 0 <= j < parts[i].len() ==> #[trigger] parts[i][j] != SLASH
}

/// Pieces that name something: neither empty nor `.` nor `..`.
pub open spec fn plain(parts: Seq<Seq<u8>>) -> bool {
    forall|i: int|
        0 <= i < parts.len() ==> (#[trigger] parts[i]).len() > 0 && !(parts[i] =~= dot()) && !(
        parts[i] =~= dotdot())
}

proof fn lemma_split_slashless(p: Seq<u8>)
    ensures
        slashless(split(p)),
    decreases p.len(),
{
    if p.len() > 0 {
        lemma_split_slashless(p.drop_last());
        lemma_split_len(p.drop_last());
        let rest = split(p.drop_last());
        let s = split(p);
        assert forall|i: int, j: int| 0 <= i < s.len() && 0 <= j < s[i].len() implies #[trigger] s[i][j]
            != SLASH by {
            if i < rest.len() - 1 || p.last() == SLASH && i < rest.len() {
                assert(rest[i][j] != SLASH);
            } else if p.last() != SLASH && j < rest[i].len() {
                assert(rest[i][j] != SLASH);
            }
        }
    }
}

proof fn lemma_followed(parts: Seq<Seq<u8>>)
    requires
        slashless(parts),
    ensures
        slashless(followed(parts)),
        plain(followed(parts)),
        plain(parts) ==> followed(parts) == parts,
    decreases parts.len(),
{
    if parts.len() > 0 {
        let d = parts.drop_last();
        assert forall|i: int, j: int| 0 <= i < d.len() && 0 <= j < d[i].len() implies #[trigger] d[i][j]
            != SLASH by {
            assert(parts[i][j] != SLASH);
        }
        lemma_followed(d);
        let rest = followed(d);
        let f = followed(parts);
        let s = parts.last();
        assert forall|i: int, j: int| 0 <= i < f.len() && 0 <= j < f[i].len() implies #[trigger] f[i][j]
            != SLASH by {
            if i < rest.len() {
                assert(rest[i][j] != SLASH);
            } else {
                assert(parts[parts.len() - 1][j] != SLASH);
            }
        }
        assert forall|i: int| 0 <= i < f.len() implies (#[trigger] f[i]).len() > 0 && !(f[i]
            =~= dot()) && !(f[i] =~= dotdot()) by {
            if i < rest.len() {
                assert(rest[i].len() > 0);
            }
        }
        if plain(parts) {
            assert(plain(d)) by {
                assert forall|i: int| 0 <= i < d.len() implies (#[trigger] d[i]).len() > 0 && !(d[i]
                    =~= dot()) && !(d[i] =~= dotdot()) by {
                    assert(parts[i].len() > 0);
                }
            }
            assert(parts[parts.len() - 1].len() > 0);
            assert(followed(parts) =~= parts);
        }
    } else {
        assert(followed(parts) =~= parts);
    }
}

proof fn lemma_split_piece(p: Seq<u8>, s: Seq<u8>)
    requires
        forall|j: int| 0 <= j < s.len() ==> s[j] != SLASH,
    ensures
        split(p.push(SLASH) + s) == split(p).push(s),
    decreases s.len(),
{
    let q = p.push(SLASH) + s;
    if s.len() == 0 {
        assert(q =~= p.push(SLASH));
        assert(q.drop_last() =~= p);
        assert(s =~= Seq::empty());
    } else {
        lemma_split_piece(p, s.drop_last());
        assert(q.drop_last() =~= p.push(SLASH) + s.drop_last());
        assert(s.drop_last().push(s.last()) =~= s);
        assert(split(q) =~= split(p).push(s));
    }
}

proof fn lemma_split_one(s: Seq<u8>)
    requires
        forall|j: int| 0 <= j < s.len() ==> s[j] != SLASH,
    ensures
        split(s) == seq![s],
    decreases s.len(),
{
    if s.len() > 0 {
        lemma_split_one(s.drop_last());
        assert(s.drop_last().push(s.last()) =~= s);
        assert(split(s) =~= seq![s]);
    } else {
        assert(s =~= Seq::empty());
    }
}

/// Splitting undoes joining.
pub proof fn split_of_join(parts: Seq<Seq<u8>>)
    requires
        parts.len() > 0,
        slashless(parts),
    ensures
        split(join(parts)) == parts,
    decreases parts.len(),
{
    let last = parts.last();
    assert forall|j: int| 0 <= j < last.len() implies last[j] != SLASH by {
        assert(parts[parts.len() - 1][j] != SLASH);
    }
    if parts.len() == 1 {
        lemma_split_one(parts[0]);
        assert(seq![parts[0]] =~= parts);
    } else {
        let d = parts.drop_last();
        assert forall|i: int, j: int| 0 <= i < d.len() && 0 <= j < d[i].len() implies #[trigger] d[i][j]
            != SLASH by {
            assert(parts[i][j] != SLASH);
        }
        split_of_join(d);
        lemma_split_piece(join(d), last);
        assert(d.push(last) =~= parts);
    }
}

proof fn lemma_join_head(parts: Seq<Seq<u8>>)
    requires
        parts.len() > 0,
        parts[0].len() > 0,
    ensures
        join(parts).len() > 0,
        join(parts)[0] == parts[0][0],
    decreases parts.len(),
{
    if parts.len() > 1 {
        lemma_join_head(parts.drop_last());
    }
}

/// A path in its shortest form stays as it is.
pub proof fn normalizing_twice(p: Seq<u8>)
    ensures
        normalized(normalized(p)) == normalized(p),
{
    let f = followed(split(trim_start(p)));
    lemma_split_slashless(trim_start(p));
    lemma_followed(split(trim_start(p)));
    let n = join(f);
    if f.len() == 0 {
        assert(n =~= Seq::empty());
        reveal_with_fuel(followed, 2);
        assert(split(n) =~= seq![Seq::<u8>::empty()]);
        assert(followed(split(n)) =~= Seq::empty());
    } else {
        assert(f[0].len() > 0);
        lemma_join_head(f);
        assert(f[0][0] != SLASH);
        assert(trim_start(n) == n);
        split_of_join(f);
        lemma_followed(f);
    }
}

/// No segment of a path in its shortest form is empty, `.` or `..`.
pub proof fn normalized_is_plain(p: Seq<u8>)
    requires
        normalized(p).len() > 0,
    ensures
        plain(split(normalized(p))),
{
    let f = followed(split(trim_start(p)));
    lemma_split_slashless(trim_start(p));
    lemma_followed(split(trim_start(p)));
    if f.len() == 0 {
        assert(join(f) =~= Seq::empty());
    } else {
        split_of_join(f);
    }
}

} // verus!
