//! The file system of the single-process configuration: a read-only tree from
//! a tar archive under a writable layer in memory.

use vstd::prelude::*;
use vstd::utf8::valid_utf8;
use crate::net::socket::until_nul;
use crate::paths;
use crate::text::is_utf8;
use crate::paths::{bytes_eq, copy_bytes, join, normalized, split, trim_start, views, SLASH};

verus! {

#[derive(Clone, Copy, PartialEq, Eq, Structural, Debug)]
pub enum TarKind {
    File,
    Dir,
    Symlink,
}

/// An entry of the archive. Its name is its path in the shortest form, without a
/// leading slash; that of a symbolic link is followed by a zero byte and the link's
/// target.
pub struct TarEntry {
    pub name: Vec<u8>,
    pub data: Vec<u8>,
    pub mode: u32,
    pub kind: TarKind,
}

pub struct EntryView {
    pub name: Seq<u8>,
    pub data: Seq<u8>,
    pub mode: u32,
    pub kind: TarKind,
}

impl View for TarEntry {
    type V = EntryView;

    open spec fn view(&self) -> EntryView {
        EntryView { name: self.name@, data: self.data@, mode: self.mode, kind: self.kind }
    }
}

pub open spec fn entry_views(v: Seq<TarEntry>) -> Seq<EntryView> {
    Seq::new(v.len(), |i: int| v[i]@)
}

// ---- Reading the archive ----------------------------------------------------
/// A number field in base 256: the low 64 bits.
pub open spec fn base256(s: Seq<u8>) -> u64
    decreases s.len(),
{
    if s.len() == 0 {
        0
    } else {
        (base256(s.drop_last()) << 8) | (s.last() as u64)
    }
}

pub open spec fn is_digit(b: u8) -> bool {
    0x30 <= b <= 0x39
}

/// The digits of a number field, up to the first space or zero byte, read in
/// base 8; other bytes are skipped.
pub open spec fn octal(s: Seq<u8>, v: int) -> int
    decreases s.len(),
{
    if s.len() == 0 || s[0] == 0 || s[0] == 0x20 {
        v
    } else if is_digit(s[0]) {
        octal(s.skip(1), v * 8 + (s[0] - 0x30))
    } else {
        octal(s.skip(1), v)
    }
}

pub open spec fn number(s: Seq<u8>) -> u64 {
    if s.len() > 0 && s[0] & 0x80 != 0 {
        base256(s)
    } else {
        octal(s, 0) as u64
    }
}

/// Reads a number field of a header.
pub fn parse_octal(s: &[u8]) -> (v: u64)
    requires
        s@.len() <= 12,
    ensures
        v == number(s@),
{
    let n: usize = s.len();
    if n > 0 && s[0] & 0x80 != 0 {
        let mut v: u64 = 0;
        let mut i: usize = 0;
        while i < n
            invariant
                i <= n == s@.len(),
                v == base256(s@.take(i as int)),
            decreases n - i,
        {
            proof {
                assert(s@.take(i + 1).drop_last() =~= s@.take(i as int));
            }
            v = (v << 8) | (s[i] as u64);
            i = i + 1;
        }
        proof {
            assert(s@.take(n as int) =~= s@);
        }
        return v;
    }
    let mut v: u64 = 0;
    let mut i: usize = 0;
    let ghost mut bound: int = 1;
    proof {
        assert(s@.skip(0) =~= s@);
        assert(pow12(0) == 1);
    }
    while i < n && s[i] != 0 && s[i] != 0x20
        invariant
            i <= n == s@.len(),
            n <= 12,
            octal(s@.skip(i as int), v as int) == octal(s@, 0),
            v < pow12(i as int),
        decreases n - i,
    {
        proof {
            assert(s@.skip(i as int).skip(1) =~= s@.skip(i + 1));
            lemma_pow12(i as int);
        }
        if s[i] >= 0x30 && s[i] <= 0x39 {
            v = v * 8 + (s[i] - 0x30) as u64;
        }
        i = i + 1;
    }
    v
}

/// Bounds the value of the first `n` digits.
spec fn pow12(n: int) -> int
    decreases n,
{
    if n <= 0 {
        1
    } else {
        16 * pow12(n - 1)
    }
}

proof fn lemma_pow12(n: int)
    requires
        0 <= n < 12,
    ensures
        pow12(n + 1) == 16 * pow12(n),
        1 <= pow12(n) <= 0x1000_0000_0000,
{
    reveal_with_fuel(pow12, 13);
}

/// Without trailing zero bytes.
pub open spec fn trim_nul(s: Seq<u8>) -> Seq<u8>
    decreases s.len(),
{
    if s.len() > 0 && s.last() == 0 {
        trim_nul(s.drop_last())
    } else {
        s
    }
}

/// A text field: without its padding, and empty where it is not UTF-8.
pub open spec fn text(s: Seq<u8>) -> Seq<u8> {
    if valid_utf8(s) {
        trim_nul(s)
    } else {
        Seq::empty()
    }
}

fn text_field(tar: &[u8], from: usize, to: usize) -> (r: Vec<u8>)
    requires
        from <= to <= tar@.len(),
    ensures
        r@ == text(tar@.subrange(from as int, to as int)),
{
    let s: &[u8] = vstd::slice::slice_subrange(tar, from, to);
    if !is_utf8(s) {
        let r: Vec<u8> = Vec::new();
        assert(r@ =~= Seq::empty());
        return r;
    }
    let mut n: usize = s.len();
    proof {
        assert(s@.take(n as int) =~= s@);
    }
    while n > 0 && s[n - 1] == 0
        invariant
            n <= s@.len(),
            trim_nul(s@.take(n as int)) == trim_nul(s@),
        decreases n,
    {
        proof {
            assert(s@.take(n as int).drop_last() =~= s@.take(n - 1));
        }
        n = n - 1;
    }
    let t: &[u8] = vstd::slice::slice_subrange(s, 0, n);
    proof {
        assert(t@ =~= s@.take(n as int));
        assert(n > 0 ==> s@.take(n as int).last() == s@[n - 1]);
    }
    copy_bytes(t)
}

pub open spec fn ustar() -> Seq<u8> {
    seq![0x75u8, 0x73u8, 0x74u8, 0x61u8, 0x72u8]
}

/// The header field `[a, b)` of the entry at `pos`.
pub open spec fn field(tar: Seq<u8>, pos: int, a: int, b: int) -> Seq<u8> {
    tar.subrange(pos + a, pos + b)
}

/// The size of an entry's data.
pub open spec fn size_at(tar: Seq<u8>, pos: int) -> u64 {
    number(field(tar, pos, 124, 136))
}

/// Where the entry after the one at `pos` starts.
pub open spec fn after(tar: Seq<u8>, pos: int) -> int {
    pos + 512 + (size_at(tar, pos) + 511) / 512 * 512
}

/// The name of the entry at `pos`, in its shortest form. A long name from an entry
/// before it takes the place of the name field.
pub open spec fn name_at(tar: Seq<u8>, pos: int, long: Option<Seq<u8>>) -> Seq<u8> {
    let base = match long {
        Some(l) => l,
        None => text(field(tar, pos, 0, 100)),
    };
    let prefix = text(field(tar, pos, 345, 500));
    let full = if field(tar, pos, 257, 262) == ustar() && prefix.len() > 0 {
        prefix.push(SLASH) + base
    } else {
        base
    };
    normalized(full)
}

pub open spec fn kind_of(flag: u8) -> TarKind {
    if flag == 0x35 {
        TarKind::Dir
    } else if flag == 0x32 {
        TarKind::Symlink
    } else {
        TarKind::File
    }
}

pub open spec fn entry_at(tar: Seq<u8>, pos: int, long: Option<Seq<u8>>) -> EntryView {
    let kind = kind_of(tar[pos + 156]);
    let name = name_at(tar, pos, long);
    EntryView {
        name: if kind is Symlink {
            name.push(0u8) + text(field(tar, pos, 157, 257))
        } else {
            name
        },
        data: tar.subrange(pos + 512, pos + 512 + size_at(tar, pos)),
        mode: (number(field(tar, pos, 100, 108)) as u32) & 0o7777,
        kind,
    }
}

/// The archive ends at `pos`: no header is left, or an empty one.
pub open spec fn ends_at(tar: Seq<u8>, pos: int) -> bool {
    pos + 512 > tar.len() || forall|i: int| pos <= i < pos + 512 ==> tar[i] == 0
}

pub open spec fn is_long_name(flag: u8) -> bool {
    flag == 0x4c
}

/// Extended headers, which are passed over.
pub open spec fn is_pax(flag: u8) -> bool {
    flag == 0x78 || flag == 0x67
}

/// How much of the archive is left from `pos` on.
pub open spec fn left(tar: Seq<u8>, pos: int) -> int {
    if pos < tar.len() {
        tar.len() - pos
    } else {
        0
    }
}

/// The entries from `pos` on.
pub open spec fn entries(tar: Seq<u8>, pos: int, long: Option<Seq<u8>>) -> Seq<EntryView>
    decreases left(tar, pos),
{
    if ends_at(tar, pos) || pos < 0 {
        Seq::empty()
    } else if is_long_name(tar[pos + 156]) {
        entries(
            tar,
            after(tar, pos),
            Some(text(tar.subrange(pos + 512, pos + 512 + size_at(tar, pos)))),
        )
    } else if is_pax(tar[pos + 156]) {
        entries(tar, after(tar, pos), None)
    } else {
        seq![entry_at(tar, pos, long)] + entries(tar, after(tar, pos), None)
    }
}

/// The data of every entry lies within the archive.
pub open spec fn complete(tar: Seq<u8>, pos: int) -> bool
    decreases left(tar, pos),
{
    if ends_at(tar, pos) || pos < 0 {
        true
    } else {
        &&& is_pax(tar[pos + 156]) || pos + 512 + size_at(tar, pos) <= tar.len()
        &&& after(tar, pos) <= usize::MAX
        &&& complete(tar, after(tar, pos))
    }
}

fn all_zero(tar: &[u8], pos: usize) -> (r: bool)
    requires
        pos + 512 <= tar@.len(),
    ensures
        r == forall|i: int| pos <= i < pos + 512 ==> tar@[i] == 0,
{
    let len: usize = tar.len();
    let mut i: usize = pos;
    while i < pos + 512
        invariant
            pos <= i <= pos + 512 <= len == tar@.len(),
            forall|j: int| pos <= j < i ==> tar@[j] == 0,
        decreases pos + 512 - i,
    {
        if tar[i] != 0 {
            return false;
        }
        i = i + 1;
    }
    true
}

fn num_field(tar: &[u8], from: usize, to: usize) -> (r: u64)
    requires
        from <= to <= tar@.len(),
        to - from <= 12,
    ensures
        r == number(tar@.subrange(from as int, to as int)),
{
    parse_octal(vstd::slice::slice_subrange(tar, from, to))
}

fn has_ustar(tar: &[u8], pos: usize) -> (r: bool)
    requires
        pos + 512 <= tar@.len(),
    ensures
        r == (field(tar@, pos as int, 257, 262) == ustar()),
{
    let len: usize = tar.len();
    let r: bool = tar[pos + 257] == 0x75 && tar[pos + 258] == 0x73 && tar[pos + 259] == 0x74
        && tar[pos + 260] == 0x61 && tar[pos + 261] == 0x72;
    proof {
        let f = field(tar@, pos as int, 257, 262);
        if r {
            assert(f =~= ustar());
        } else if f == ustar() {
            assert(f[0] == ustar()[0] && f[1] == ustar()[1] && f[2] == ustar()[2] && f[3]
                == ustar()[3] && f[4] == ustar()[4]);
        }
    }
    r
}

fn read_name(tar: &[u8], pos: usize, long: Option<Vec<u8>>) -> (r: Vec<u8>)
    requires
        pos + 512 <= tar@.len(),
    ensures
        r@ == name_at(
            tar@,
            pos as int,
            match long {
                Some(l) => Some(l@),
                None => None,
            },
        ),
{
    let len: usize = tar.len();
    let mut name: Vec<u8> = match long {
        Some(l) => l,
        None => text_field(tar, pos, pos + 100),
    };
    if has_ustar(tar, pos) {
        let mut prefix: Vec<u8> = text_field(tar, pos + 345, pos + 500);
        if prefix.len() > 0 {
            prefix.push(SLASH);
            prefix.append(&mut name);
            name = prefix;
        }
    }
    paths::normalize_path(&name)
}

/// Reads an archive whose entries are all complete.
#[verifier::loop_isolation(false)]
pub fn init(tar: &[u8]) -> (r: Vec<TarEntry>)
    requires
        complete(tar@, 0),
    ensures
        entry_views(r@) == entries(tar@, 0, None),
{
    let ghost t = tar@;
    let len: usize = tar.len();
    let mut out: Vec<TarEntry> = Vec::new();
    let mut pos: usize = 0;
    let mut long: Option<Vec<u8>> = None;
    let ghost mut lv: Option<Seq<u8>> = None;
    proof {
        assert(entry_views(out@) + entries(t, 0, None) =~= entries(t, 0, None));
    }
    while pos <= len && len - pos >= 512
        invariant
            complete(t, pos as int),
            lv == (match long {
                Some(l) => Some(l@),
                None => None,
            }),
            entry_views(out@) + entries(t, pos as int, lv) == entries(t, 0, None),
        decreases left(t, pos as int),
    {
        if all_zero(tar, pos) {
            proof {
                assert(entry_views(out@) + Seq::empty() =~= entry_views(out@));
            }
            return out;
        }
        let size: u64 = num_field(tar, pos + 124, pos + 136);
        let flag: u8 = tar[pos + 156];
        let ghost rest = entries(t, pos as int, lv);
        let ghost before = entry_views(out@);
        let name: Vec<u8> = read_name(tar, pos, long);
        // The data is followed by padding to whole blocks.
        let pad: u64 = size / 512 * 512 + (if size % 512 == 0 {
            0
        } else {
            512
        });
        assert(pad == (size + 511) / 512 * 512);
        let next: usize = pos + 512 + pad as usize;
        if flag == 0x4c {
            let l: Vec<u8> = text_field(tar, pos + 512, pos + 512 + size as usize);
            proof {
                lv = Some(l@);
            }
            long = Some(l);
            pos = next;
            continue ;
        }
        long = None;
        proof {
            lv = None;
        }
        if flag == 0x78 || flag == 0x67 {
            pos = next;
            continue ;
        }
        let kind: TarKind = if flag == 0x35 {
            TarKind::Dir
        } else if flag == 0x32 {
            TarKind::Symlink
        } else {
            TarKind::File
        };
        let mode: u32 = (num_field(tar, pos + 100, pos + 108) as u32) & 0o7777;
        let data: Vec<u8> = copy_bytes(
            vstd::slice::slice_subrange(tar, pos + 512, pos + 512 + size as usize),
        );
        let mut full: Vec<u8> = name;
        if kind == TarKind::Symlink {
            let mut target: Vec<u8> = text_field(tar, pos + 157, pos + 257);
            full.push(0);
            full.append(&mut target);
        }
        let e = TarEntry { name: full, data, mode, kind };
        let ghost ev = e@;
        out.push(e);
        proof {
            assert(ev == rest[0]);
            assert(entry_views(out@) =~= before.push(ev));
            assert(entry_views(out@) + entries(t, next as int, None) =~= before + rest);
        }
        pos = next;
    }
    proof {
        assert(entry_views(out@) + Seq::empty() =~= entry_views(out@));
    }
    out
}

// ---- The two layers -----------------------------------------------------------
/// A file of the writable layer; `file` is the number of its contents, which
/// outlive the name.
pub struct TmpFile {
    pub path: Vec<u8>,
    pub file: usize,
}

pub struct Vfs {
    pub rootfs: Vec<TarEntry>,
    /// The writable layer's files, sorted by path.
    pub tmp: Vec<TmpFile>,
    /// Contents of all files that were ever created.
    pub files: Vec<Vec<u8>>,
    /// The writable layer's directories.
    pub dirs: Vec<Vec<u8>>,
}

/// Byte strings in dictionary order.
pub open spec fn before(a: Seq<u8>, b: Seq<u8>) -> bool
    decreases a.len(),
{
    if b.len() == 0 {
        false
    } else if a.len() == 0 {
        true
    } else if a[0] != b[0] {
        a[0] < b[0]
    } else {
        before(a.skip(1), b.skip(1))
    }
}

pub open spec fn tmp_view(t: Seq<TmpFile>) -> Seq<(Seq<u8>, usize)> {
    Seq::new(t.len(), |i: int| (t[i].path@, t[i].file))
}

pub open spec fn sorted(t: Seq<(Seq<u8>, usize)>) -> bool {
    forall|i: int, j: int| 0 <= i < j < t.len() ==> before((#[trigger] t[i]).0, (#[trigger] t[j]).0)
}

impl Vfs {
    pub open spec fn root(&self) -> Seq<EntryView> {
        entry_views(self.rootfs@)
    }

    pub open spec fn tmps(&self) -> Seq<(Seq<u8>, usize)> {
        tmp_view(self.tmp@)
    }

    pub open spec fn wf(&self) -> bool {
        &&& sorted(self.tmps())
        &&& forall|i: int|
            0 <= i < self.tmp@.len() ==> (#[trigger] self.tmp@[i]).file < self.files@.len()
    }
}

/// `i` is the first entry with a given path.
pub open spec fn first_entry(root: Seq<EntryView>, path: Seq<u8>, i: int) -> bool {
    &&& 0 <= i < root.len()
    &&& until_nul(root[i].name) == path
    &&& forall|j: int| 0 <= j < i ==> until_nul(#[trigger] root[j].name) != path
}

/// The entry at a path, once that is normalised.
pub open spec fn found(root: Seq<EntryView>, path: Seq<u8>) -> Option<EntryView> {
    if exists|i: int| first_entry(root, normalized(path), i) {
        Some(root[choose|i: int| first_entry(root, normalized(path), i)])
    } else {
        None
    }
}

/// What follows the first zero byte.
pub open spec fn after_nul(s: Seq<u8>) -> Seq<u8>
    decreases s.len(),
{
    if s.len() == 0 {
        Seq::empty()
    } else if s[0] == 0 {
        s.skip(1)
    } else {
        after_nul(s.skip(1))
    }
}

/// The target of a symbolic link.
pub open spec fn link_target(name: Seq<u8>) -> Seq<u8> {
    until_nul(after_nul(name))
}

/// The pieces that are not empty.
pub open spec fn nonempty(parts: Seq<Seq<u8>>) -> Seq<Seq<u8>>
    decreases parts.len(),
{
    if parts.len() == 0 {
        Seq::empty()
    } else {
        let rest = nonempty(parts.drop_last());
        if parts.last().len() == 0 {
            rest
        } else {
            rest.push(parts.last())
        }
    }
}

pub open spec fn parent(cur: Seq<u8>) -> Seq<u8> {
    if cur.len() == 0 {
        cur
    } else {
        join(split(cur).drop_last())
    }
}

pub open spec fn under(cur: Seq<u8>, seg: Seq<u8>) -> Seq<u8> {
    if cur.len() == 0 {
        seg
    } else {
        cur.push(SLASH) + seg
    }
}

pub open spec fn absolute(p: Seq<u8>) -> bool {
    p.len() > 0 && p[0] == SLASH
}

/// How many symbolic links are followed.
pub const MAX_LINKS: usize = 8;

/// Where the pieces `parts` lead from the directory `cur`, when `depth`
/// symbolic links were followed already.
pub open spec fn resolved(
    root: Seq<EntryView>,
    cur: Seq<u8>,
    parts: Seq<Seq<u8>>,
    depth: int,
) -> Seq<u8>
    decreases MAX_LINKS - depth, parts.len(),
{
    if parts.len() == 0 {
        cur
    } else {
        let seg = parts[0];
        let rest = parts.skip(1);
        if seg.len() == 0 || seg =~= paths::dot() {
            resolved(root, cur, rest, depth)
        } else if seg =~= paths::dotdot() {
            resolved(root, parent(cur), rest, depth)
        } else {
            let full = under(cur, seg);
            match found(root, full) {
                Some(e) => if e.kind is Symlink {
                    let target = link_target(e.name);
                    if depth >= MAX_LINKS {
                        normalized(full)
                    } else if absolute(target) {
                        resolved(
                            root,
                            Seq::empty(),
                            nonempty(split(trim_start(target))) + rest,
                            depth + 1,
                        )
                    } else {
                        resolved(root, cur, nonempty(split(target)) + rest, depth + 1)
                    }
                } else {
                    resolved(root, full, rest, depth)
                },
                None => resolved(root, full, rest, depth),
            }
        }
    }
}

/// The path that `path` leads to, with symbolic links followed; a relative one
/// starts at `cwd`.
pub open spec fn target_of(root: Seq<EntryView>, cwd: Seq<u8>, path: Seq<u8>) -> Seq<u8> {
    resolved(
        root,
        if absolute(path) {
            Seq::empty()
        } else {
            normalized(cwd)
        },
        split(trim_start(path)),
        0,
    )
}

fn nul_index(s: &Vec<u8>) -> (r: usize)
    ensures
        r <= s@.len(),
        until_nul(s@) == s@.take(r as int),
        after_nul(s@) == (if r < s@.len() {
            s@.skip(r + 1)
        } else {
            Seq::empty()
        }),
{
    let n: usize = s.len();
    let mut i: usize = 0;
    proof {
        assert(s@.skip(0) =~= s@);
        assert(s@.take(0) + until_nul(s@) =~= until_nul(s@));
    }
    while i < n && s[i] != 0
        invariant
            i <= n == s@.len(),
            s@.take(i as int) + until_nul(s@.skip(i as int)) == until_nul(s@),
            after_nul(s@.skip(i as int)) == after_nul(s@),
        decreases n - i,
    {
        proof {
            let t = s@.skip(i as int);
            assert(t.skip(1) =~= s@.skip(i + 1));
            assert(until_nul(t) == seq![t[0]] + until_nul(t.skip(1)));
            assert(s@.take(i + 1) + until_nul(s@.skip(i + 1)) =~= s@.take(i as int) + (seq![t[0]]
                + until_nul(t.skip(1))));
        }
        i = i + 1;
    }
    proof {
        let t = s@.skip(i as int);
        assert(until_nul(t) =~= Seq::empty());
        assert(s@.take(i as int) + Seq::empty() =~= s@.take(i as int));
        if i < n {
            assert(t.skip(1) =~= s@.skip(i + 1));
        }
    }
    i
}

/// The name proper of an entry.
fn base_name(e: &TarEntry) -> (r: Vec<u8>)
    ensures
        r@ == until_nul(e.name@),
{
    let n: usize = nul_index(&e.name);
    let s: &[u8] = vstd::slice::slice_subrange(&e.name, 0, n);
    proof {
        assert(s@ =~= e.name@.take(n as int));
    }
    copy_bytes(s)
}

fn target(e: &TarEntry) -> (r: Vec<u8>)
    ensures
        r@ == link_target(e.name@),
{
    let n: usize = nul_index(&e.name);
    let len: usize = e.name.len();
    if n >= len {
        let r: Vec<u8> = Vec::new();
        assert(r@ =~= until_nul(Seq::empty()));
        return r;
    }
    let t: Vec<u8> = copy_bytes(vstd::slice::slice_subrange(&e.name, n + 1, len));
    proof {
        assert(t@ =~= e.name@.skip(n + 1));
    }
    let m: usize = nul_index(&t);
    let s: &[u8] = vstd::slice::slice_subrange(&t, 0, m);
    proof {
        assert(s@ =~= t@.take(m as int));
    }
    copy_bytes(s)
}

/// Finds the entry of the archive at a path.
fn rootfs_find(fs: &Vfs, path: &Vec<u8>) -> (r: Option<usize>)
    ensures
        match r {
            Some(i) => i < fs.rootfs@.len() && first_entry(fs.root(), normalized(path@), i as int)
                && found(fs.root(), path@) == Some(fs.rootfs@[i as int]@),
            None => found(fs.root(), path@) is None,
        },
{
    let norm: Vec<u8> = paths::normalize_path(path);
    let n: usize = fs.rootfs.len();
    let ghost root = fs.root();
    let mut i: usize = 0;
    while i < n
        invariant
            i <= n == fs.rootfs@.len(),
            root == fs.root(),
            norm@ == normalized(path@),
            forall|j: int| 0 <= j < i ==> until_nul(#[trigger] root[j].name) != norm@,
        decreases n - i,
    {
        assert(root[i as int].name == fs.rootfs@[i as int].name@);
        let name: Vec<u8> = base_name(&fs.rootfs[i]);
        if bytes_eq(&name, &norm) {
            proof {
                assert(first_entry(root, normalized(path@), i as int));
                let k = choose|k: int| first_entry(root, normalized(path@), k);
                assert(k == i) by {
                    if k < i {
                        assert(until_nul(root[k].name) != norm@);
                    } else if i < k {
                        assert(until_nul(root[i as int].name) != norm@);
                    }
                }
            }
            return Some(i);
        }
        i = i + 1;
    }
    proof {
        if exists|k: int| first_entry(root, normalized(path@), k) {
            let k = choose|k: int| first_entry(root, normalized(path@), k);
            assert(until_nul(root[k].name) != norm@);
        }
    }
    None
}

fn under_path(cur: &Vec<u8>, seg: &Vec<u8>) -> (r: Vec<u8>)
    ensures
        r@ == under(cur@, seg@),
{
    if cur.len() == 0 {
        return copy_bytes(seg);
    }
    let mut r: Vec<u8> = copy_bytes(cur);
    r.push(SLASH);
    r.extend_from_slice(seg);
    proof {
        assert(r@ =~= under(cur@, seg@));
    }
    r
}

fn parent_path(cur: &Vec<u8>) -> (r: Vec<u8>)
    ensures
        r@ == parent(cur@),
{
    if cur.len() == 0 {
        return copy_bytes(cur);
    }
    let mut parts: Vec<Vec<u8>> = paths::split_path(cur);
    let ghost v = views(parts@);
    let gone: Option<Vec<u8>> = parts.pop();
    proof {
        paths::lemma_split_len(cur@);
        assert(views(parts@) =~= v.drop_last());
    }
    paths::join_path(&parts)
}

/// The non-empty pieces of `p` from `from` on, followed by `tail` from `i` on.
fn pieces_then(p: &Vec<u8>, from: usize, tail: &Vec<Vec<u8>>, i: usize) -> (r: Vec<Vec<u8>>)
    requires
        from <= p@.len(),
        i <= tail@.len(),
    ensures
        views(r@) == nonempty(split(p@.skip(from as int))) + views(tail@).skip(i as int),
{
    let s: &[u8] = vstd::slice::slice_subrange(p, from, p.len());
    proof {
        assert(s@ =~= p@.skip(from as int));
    }
    let parts: Vec<Vec<u8>> = paths::split_path(s);
    let ghost pv = views(parts@);
    let mut r: Vec<Vec<u8>> = Vec::new();
    let n: usize = parts.len();
    let mut k: usize = 0;
    proof {
        assert(pv.take(0) =~= Seq::empty());
        assert(views(r@) =~= nonempty(pv.take(0)));
    }
    while k < n
        invariant
            k <= n == parts@.len(),
            pv == views(parts@),
            views(r@) == nonempty(pv.take(k as int)),
        decreases n - k,
    {
        let ghost r0 = views(r@);
        proof {
            assert(pv.take(k + 1).drop_last() =~= pv.take(k as int));
            assert(pv.take(k + 1).last() == parts@[k as int]@);
        }
        if parts[k].len() != 0 {
            r.push(copy_bytes(&parts[k]));
            proof {
                assert(views(r@) =~= r0.push(parts@[k as int]@));
            }
        }
        k = k + 1;
    }
    let ghost head = views(r@);
    let m: usize = tail.len();
    let mut j: usize = i;
    proof {
        assert(pv.take(n as int) =~= pv);
        assert(views(r@) =~= head + views(tail@).subrange(i as int, i as int));
    }
    while j < m
        invariant
            i <= j <= m == tail@.len(),
            views(r@) == head + views(tail@).subrange(i as int, j as int),
        decreases m - j,
    {
        let ghost r0 = views(r@);
        let ghost tv = views(tail@);
        r.push(copy_bytes(&tail[j]));
        proof {
            assert(views(r@) =~= r0.push(tv[j as int]));
            assert(tv.subrange(i as int, j + 1) =~= tv.subrange(i as int, j as int).push(
                tv[j as int],
            ));
            assert(head + tv.subrange(i as int, j + 1) =~= r0.push(tv[j as int]));
        }
        j = j + 1;
    }
    proof {
        assert(views(tail@).subrange(i as int, m as int) =~= views(tail@).skip(i as int));
    }
    r
}

/// Follows a path, with its symbolic links, to the name that it stands for.
pub fn resolve(fs: &Vfs, cwd: &Vec<u8>, path: &Vec<u8>) -> (r: Vec<u8>)
    ensures
        r@ == target_of(fs.root(), cwd@, path@),
{
    let ghost root = fs.root();
    let mut cur: Vec<u8> = if path.len() > 0 && path[0] == SLASH {
        Vec::new()
    } else {
        paths::normalize_path(cwd)
    };
    proof {
        if absolute(path@) {
            assert(cur@ =~= Seq::empty());
        }
    }
    let from: usize = paths::skip_slashes(path);
    let s: &[u8] = vstd::slice::slice_subrange(path, from, path.len());
    proof {
        assert(s@ =~= path@.skip(from as int));
    }
    let mut comps: Vec<Vec<u8>> = paths::split_path(s);
    let mut i: usize = 0;
    let mut depth: usize = 0;
    proof {
        assert(views(comps@).skip(0) =~= views(comps@));
    }
    while i < comps.len()
        invariant
            i <= comps@.len(),
            depth <= MAX_LINKS,
            root == fs.root(),
            resolved(root, cur@, views(comps@).skip(i as int), depth as int) == target_of(
                root,
                cwd@,
                path@,
            ),
        decreases MAX_LINKS - depth, comps@.len() - i,
    {
        let ghost parts = views(comps@).skip(i as int);
        let seg: &Vec<u8> = &comps[i];
        proof {
            assert(parts[0] == seg@);
            assert(parts.skip(1) =~= views(comps@).skip(i + 1));
        }
        if seg.len() == 0 || paths::is_dot(seg) {
            i = i + 1;
            continue ;
        }
        if paths::is_dotdot(seg) {
            cur = parent_path(&cur);
            i = i + 1;
            continue ;
        }
        let full: Vec<u8> = under_path(&cur, seg);
        match rootfs_find(fs, &full) {
            Some(k) => {
                let e: &TarEntry = &fs.rootfs[k];
                if e.kind == TarKind::Symlink {
                    if depth >= MAX_LINKS {
                        return paths::normalize_path(&full);
                    }
                    depth = depth + 1;
                    let t: Vec<u8> = target(e);
                    if t.len() > 0 && t[0] == SLASH {
                        cur = Vec::new();
                        let at: usize = paths::skip_slashes(&t);
                        comps = pieces_then(&t, at, &comps, i + 1);
                        proof {
                            assert(cur@ =~= Seq::empty());
                        }
                    } else {
                        comps = pieces_then(&t, 0, &comps, i + 1);
                        proof {
                            assert(t@.skip(0) =~= t@);
                        }
                    }
                    i = 0;
                    proof {
                        assert(views(comps@).skip(0) =~= views(comps@));
                    }
                    continue ;
                }
            },
            None => {},
        }
        cur = full;
        i = i + 1;
    }
    cur
}

// ---- The calls ------------------------------------------------------------------
/// What is known of a path.
#[derive(Clone, Copy, PartialEq, Eq, Structural, Debug)]
pub struct Meta {
    pub exists: bool,
    pub is_dir: bool,
    pub is_symlink: bool,
    pub size: usize,
    pub mode: u32,
}

/// The number of the writable file with a given path.
pub open spec fn tmp_at(t: Seq<(Seq<u8>, usize)>, path: Seq<u8>) -> Option<usize>
    decreases t.len(),
{
    if t.len() == 0 {
        None
    } else if t.last().0 == path {
        Some(t.last().1)
    } else {
        tmp_at(t.drop_last(), path)
    }
}

fn tmp_find(fs: &Vfs, path: &Vec<u8>) -> (r: Option<usize>)
    ensures
        match r {
            Some(i) => i < fs.tmp@.len() && fs.tmp@[i as int].path@ == path@ && tmp_at(
                fs.tmps(),
                path@,
            ) == Some(fs.tmp@[i as int].file) && forall|j: int|
                i < j < fs.tmp@.len() ==> (#[trigger] fs.tmp@[j]).path@ != path@,
            None => tmp_at(fs.tmps(), path@) is None && forall|j: int|
                0 <= j < fs.tmp@.len() ==> (#[trigger] fs.tmp@[j]).path@ != path@,
        },
{
    let ghost t = fs.tmps();
    let mut n: usize = fs.tmp.len();
    proof {
        assert(t.take(n as int) =~= t);
    }
    while n > 0
        invariant
            n <= fs.tmp@.len(),
            t == fs.tmps(),
            tmp_at(t.take(n as int), path@) == tmp_at(t, path@),
            forall|j: int| n <= j < fs.tmp@.len() ==> (#[trigger] fs.tmp@[j]).path@ != path@,
        decreases n,
    {
        proof {
            assert(t.take(n as int).last() == t[n - 1]);
            assert(t.take(n as int).drop_last() =~= t.take(n - 1));
        }
        if bytes_eq(&fs.tmp[n - 1].path, path) {
            return Some(n - 1);
        }
        n = n - 1;
    }
    None
}

pub open spec fn has_dir(dirs: Seq<Vec<u8>>, path: Seq<u8>) -> bool {
    exists|i: int| 0 <= i < dirs.len() && (#[trigger] dirs[i])@ == path
}

fn dir_listed(dirs: &Vec<Vec<u8>>, path: &Vec<u8>) -> (r: bool)
    ensures
        r == has_dir(dirs@, path@),
{
    let n: usize = dirs.len();
    let mut i: usize = 0;
    while i < n
        invariant
            i <= n == dirs@.len(),
            forall|j: int| 0 <= j < i ==> (#[trigger] dirs@[j])@ != path@,
        decreases n - i,
    {
        if bytes_eq(&dirs[i], path) {
            assert(dirs@[i as int]@ == path@);
            return true;
        }
        i = i + 1;
    }
    false
}

pub open spec fn dir_meta(mode: u32) -> Meta {
    Meta { exists: true, is_dir: true, is_symlink: false, size: 0, mode }
}

pub open spec fn or_default(mode: u32, d: u32) -> u32 {
    if mode == 0 {
        d
    } else {
        mode
    }
}

/// The attributes of the resolved path `norm`: the writable layer comes first.
pub open spec fn meta_of(fs: Vfs, norm: Seq<u8>) -> Meta {
    match tmp_at(fs.tmps(), norm) {
        Some(k) => Meta {
            exists: true,
            is_dir: false,
            is_symlink: false,
            size: fs.files@[k as int]@.len() as usize,
            mode: 0o644,
        },
        None => if has_dir(fs.dirs@, norm) || norm.len() == 0 {
            dir_meta(0o755)
        } else {
            match found(fs.root(), norm) {
                Some(e) => match e.kind {
                    TarKind::Dir => dir_meta(or_default(e.mode, 0o755)),
                    TarKind::Symlink => Meta {
                        exists: true,
                        is_dir: false,
                        is_symlink: true,
                        size: 0,
                        mode: 0o777,
                    },
                    TarKind::File => Meta {
                        exists: true,
                        is_dir: false,
                        is_symlink: false,
                        size: e.data.len() as usize,
                        mode: or_default(e.mode, 0o644),
                    },
                },
                None => Meta { exists: false, is_dir: false, is_symlink: false, size: 0, mode: 0 },
            }
        },
    }
}

pub fn stat_path(fs: &Vfs, cwd: &Vec<u8>, path: &Vec<u8>) -> (r: Meta)
    requires
        fs.wf(),
    ensures
        r == meta_of(*fs, target_of(fs.root(), cwd@, path@)),
{
    let norm: Vec<u8> = resolve(fs, cwd, path);
    match tmp_find(fs, &norm) {
        Some(i) => {
            let k: usize = fs.tmp[i].file;
            return Meta {
                exists: true,
                is_dir: false,
                is_symlink: false,
                size: fs.files[k].len(),
                mode: 0o644,
            };
        },
        None => {},
    }
    if dir_listed(&fs.dirs, &norm) || norm.len() == 0 {
        return Meta { exists: true, is_dir: true, is_symlink: false, size: 0, mode: 0o755 };
    }
    match rootfs_find(fs, &norm) {
        Some(i) => {
            let e: &TarEntry = &fs.rootfs[i];
            match e.kind {
                TarKind::Dir => Meta {
                    exists: true,
                    is_dir: true,
                    is_symlink: false,
                    size: 0,
                    mode: if e.mode == 0 {
                        0o755
                    } else {
                        e.mode
                    },
                },
                TarKind::Symlink => Meta {
                    exists: true,
                    is_dir: false,
                    is_symlink: true,
                    size: 0,
                    mode: 0o777,
                },
                TarKind::File => Meta {
                    exists: true,
                    is_dir: false,
                    is_symlink: false,
                    size: e.data.len(),
                    mode: if e.mode == 0 {
                        0o644
                    } else {
                        e.mode
                    },
                },
            }
        },
        None => Meta { exists: false, is_dir: false, is_symlink: false, size: 0, mode: 0 },
    }
}

/// Where the contents of an opened file are.
#[derive(Clone, Copy, PartialEq, Eq, Structural, Debug)]
pub enum FileData {
    /// In the archive's entry with this number.
    Static(usize),
    /// In the writable layer's file with this number.
    Tmp(usize),
}

/// Opens a file for reading. `None` for what is not there, and for directories
/// and links.
pub fn open_read(fs: &Vfs, cwd: &Vec<u8>, path: &Vec<u8>) -> (r: Option<(FileData, u32)>)
    requires
        fs.wf(),
    ensures
        ({
            let norm = target_of(fs.root(), cwd@, path@);
            match tmp_at(fs.tmps(), norm) {
                Some(k) => r == Some((FileData::Tmp(k), 0o644u32)) && k < fs.files@.len(),
                None => match found(fs.root(), norm) {
                    Some(e) => if e.kind is File {
                        r matches Some((FileData::Static(i), mode)) && i < fs.rootfs@.len()
                            && first_entry(fs.root(), normalized(norm), i as int)
                            && fs.rootfs@[i as int]@ == e && mode == or_default(e.mode, 0o644)
                    } else {
                        r is None
                    },
                    None => r is None,
                },
            }
        }),
{
    let norm: Vec<u8> = resolve(fs, cwd, path);
    match tmp_find(fs, &norm) {
        Some(i) => {
            return Some((FileData::Tmp(fs.tmp[i].file), 0o644));
        },
        None => {},
    }
    match rootfs_find(fs, &norm) {
        Some(i) => {
            let e: &TarEntry = &fs.rootfs[i];
            if e.kind == TarKind::Dir || e.kind == TarKind::Symlink {
                return None;
            }
            let mode: u32 = if e.mode == 0 {
                0o644
            } else {
                e.mode
            };
            Some((FileData::Static(i), mode))
        },
        None => None,
    }
}

fn is_before(a: &Vec<u8>, b: &Vec<u8>) -> (r: bool)
    ensures
        r == before(a@, b@),
{
    let n: usize = a.len();
    let m: usize = b.len();
    let mut i: usize = 0;
    proof {
        assert(a@.skip(0) =~= a@);
        assert(b@.skip(0) =~= b@);
    }
    while i < n && i < m
        invariant
            i <= n == a@.len(),
            i <= m == b@.len(),
            before(a@.skip(i as int), b@.skip(i as int)) == before(a@, b@),
        decreases n - i,
    {
        proof {
            assert(a@.skip(i as int).skip(1) =~= a@.skip(i + 1));
            assert(b@.skip(i as int).skip(1) =~= b@.skip(i + 1));
        }
        if a[i] != b[i] {
            return a[i] < b[i];
        }
        i = i + 1;
    }
    i < m
}

proof fn lemma_before_total(a: Seq<u8>, b: Seq<u8>)
    ensures
        a != b ==> before(a, b) || before(b, a),
        before(a, b) ==> !before(b, a),
        !before(a, a),
    decreases a.len(),
{
    if a.len() > 0 && b.len() > 0 && a[0] == b[0] {
        lemma_before_total(a.skip(1), b.skip(1));
        if a != b {
            assert(a.skip(1) != b.skip(1)) by {
                if a.skip(1) == b.skip(1) {
                    assert(a =~= seq![a[0]] + a.skip(1));
                    assert(b =~= seq![b[0]] + b.skip(1));
                }
            }
        }
    } else if a.len() == 0 && b.len() == 0 {
        assert(a =~= b);
    }
    if a.len() > 0 {
        lemma_before_irrefl(a);
    }
}

proof fn lemma_before_irrefl(a: Seq<u8>)
    ensures
        !before(a, a),
    decreases a.len(),
{
    if a.len() > 0 {
        lemma_before_irrefl(a.skip(1));
    }
}

proof fn lemma_before_trans(a: Seq<u8>, b: Seq<u8>, c: Seq<u8>)
    requires
        before(a, b),
        before(b, c),
    ensures
        before(a, c),
    decreases a.len(),
{
    if a.len() > 0 && a[0] == b[0] && b[0] == c[0] {
        lemma_before_trans(a.skip(1), b.skip(1), c.skip(1));
    }
}

pub open spec fn create_post(a: Vfs, norm: Seq<u8>, truncate: bool, r: usize, b: Vfs) -> bool {
    &&& b.wf()
    &&& b.rootfs == a.rootfs
    &&& b.dirs == a.dirs
    &&& match tmp_at(a.tmps(), norm) {
        Some(k) => {
            &&& r == k
            &&& b.tmp == a.tmp
            &&& b.files@.len() == a.files@.len()
            &&& forall|i: int|
                0 <= i < a.files@.len() ==> (#[trigger] b.files@[i])@ == (if i == k && truncate {
                    Seq::empty()
                } else {
                    a.files@[i]@
                })
        },
        None => {
            &&& r == a.files@.len()
            &&& b.files@.len() == r + 1
            &&& b.files@[r as int]@ == Seq::<u8>::empty()
            &&& forall|i: int| 0 <= i < r ==> #[trigger] b.files@[i] == a.files@[i]
            &&& forall|p: Seq<u8>| #[trigger]
                tmp_at(b.tmps(), p) == (if p == norm {
                    Some(r)
                } else {
                    tmp_at(a.tmps(), p)
                })
        },
    }
}

/// Looking up in a table is the same wherever an entry was put.
proof fn lemma_tmp_insert(t: Seq<(Seq<u8>, usize)>, i: int, x: (Seq<u8>, usize), p: Seq<u8>)
    requires
        0 <= i <= t.len(),
        forall|j: int| 0 <= j < t.len() ==> (#[trigger] t[j]).0 != x.0,
    ensures
        tmp_at(t.insert(i, x), p) == (if p == x.0 {
            Some(x.1)
        } else {
            tmp_at(t, p)
        }),
    decreases t.len(),
{
    let u = t.insert(i, x);
    if i == t.len() {
        assert(u.drop_last() =~= t);
        assert(u.last() == x);
    } else {
        assert(u.drop_last() =~= t.drop_last().insert(i, x));
        assert(u.last() == t.last());
        assert forall|j: int| 0 <= j < t.drop_last().len() implies (#[trigger] t.drop_last()[j]).0
            != x.0 by {
            assert(t[j].0 != x.0);
        }
        assert(t[t.len() - 1].0 != x.0);
        lemma_tmp_insert(t.drop_last(), i, x, p);
    }
}

/// Opens a file of the writable layer for writing, creating it if need be, and
/// gives the number of its contents.
#[verifier::loop_isolation(false)]
pub fn create_write(fs: &mut Vfs, cwd: &Vec<u8>, path: &Vec<u8>, truncate: bool) -> (r: usize)
    requires
        old(fs).wf(),
    ensures
        create_post(
            *old(fs),
            target_of(old(fs).root(), cwd@, path@),
            truncate,
            r,
            *final(fs),
        ),
{
    let norm: Vec<u8> = resolve(fs, cwd, path);
    match tmp_find(fs, &norm) {
        Some(i) => {
            let k: usize = fs.tmp[i].file;
            if truncate {
                fs.files.set(k, Vec::new());
                assert(fs.files@[k as int]@ =~= Seq::empty());
            }
            k
        },
        None => {
            let ghost a = *fs;
            let ghost nv = norm@;
            let r: usize = fs.files.len();
            fs.files.push(Vec::new());
            assert(fs.files@[r as int]@ =~= Seq::empty());
            // Keep the table sorted.
            let mut at: usize = 0;
            let n: usize = fs.tmp.len();
            while at < n && is_before(&fs.tmp[at].path, &norm)
                invariant
                    at <= n == fs.tmp@.len(),
                    norm@ == nv,
                    fs.tmp == a.tmp,
                    forall|j: int| 0 <= j < at ==> before((#[trigger] a.tmps()[j]).0, nv),
                decreases n - at,
            {
                assert(a.tmps()[at as int].0 == fs.tmp@[at as int].path@);
                at = at + 1;
            }
            fs.tmp.insert(at, TmpFile { path: norm, file: r });
            proof {
                let t = a.tmps();
                let u = fs.tmps();
                assert(u =~= t.insert(at as int, (nv, r)));
                assert forall|j: int| 0 <= j < t.len() implies (#[trigger] t[j]).0 != nv by {
                    assert(a.tmp@[j].path@ != nv);
                }
                assert forall|p: Seq<u8>| #[trigger]
                    tmp_at(u, p) == (if p == nv {
                        Some(r)
                    } else {
                        tmp_at(t, p)
                    }) by {
                    lemma_tmp_insert(t, at as int, (nv, r), p);
                }
                assert forall|i: int, j: int| 0 <= i < j < u.len() implies before(
                    (#[trigger] u[i]).0,
                    (#[trigger] u[j]).0,
                ) by {
                    if j == at {
                        assert(u[i] == t[i]);
                    } else if i == at {
                        assert(u[j] == t[j - 1]);
                        // The entry at the gap comes after the new name.
                        assert(t[at as int].0 == a.tmp@[at as int].path@);
                        lemma_before_total(t[at as int].0, nv);
                        if j - 1 > at {
                            assert(before(t[at as int].0, t[j - 1].0));
                            lemma_before_trans(nv, t[at as int].0, t[j - 1].0);
                        }
                    } else {
                        let i0 = if i < at {
                            i
                        } else {
                            i - 1
                        };
                        let j0 = if j < at {
                            j
                        } else {
                            j - 1
                        };
                        assert(u[i] == t[i0] && u[j] == t[j0]);
                    }
                }
                assert forall|i: int| 0 <= i < fs.tmp@.len() implies (#[trigger] fs.tmp@[i]).file
                    < fs.files@.len() by {
                    if i < at {
                        assert(fs.tmp@[i] == a.tmp@[i]);
                    } else if i > at {
                        assert(fs.tmp@[i] == a.tmp@[i - 1]);
                    }
                }
            }
            r
        },
    }
}

/// Creates a directory in the writable layer.
pub fn mkdir(fs: &mut Vfs, cwd: &Vec<u8>, path: &Vec<u8>)
    requires
        old(fs).wf(),
    ensures
        final(fs).wf(),
        *final(fs) == (Vfs { dirs: final(fs).dirs, ..*old(fs) }),
        ({
            let norm = target_of(old(fs).root(), cwd@, path@);
            if has_dir(old(fs).dirs@, norm) {
                final(fs).dirs == old(fs).dirs
            } else {
                &&& final(fs).dirs@.len() == old(fs).dirs@.len() + 1
                &&& final(fs).dirs@.drop_last() == old(fs).dirs@
                &&& final(fs).dirs@.last()@ == norm
            }
        }),
{
    let norm: Vec<u8> = resolve(fs, cwd, path);
    if !dir_listed(&fs.dirs, &norm) {
        let ghost d = fs.dirs@;
        fs.dirs.push(norm);
        assert(fs.dirs@.drop_last() =~= d);
    }
}

/// The directories without `path`.
pub open spec fn without(dirs: Seq<Vec<u8>>, path: Seq<u8>) -> Seq<Seq<u8>>
    decreases dirs.len(),
{
    if dirs.len() == 0 {
        Seq::empty()
    } else {
        let rest = without(dirs.drop_last(), path);
        if dirs.last()@ == path {
            rest
        } else {
            rest.push(dirs.last()@)
        }
    }
}

proof fn lemma_without_len(dirs: Seq<Vec<u8>>, path: Seq<u8>)
    ensures
        without(dirs, path).len() <= dirs.len(),
        (without(dirs, path).len() != dirs.len()) == has_dir(dirs, path),
    decreases dirs.len(),
{
    if dirs.len() > 0 {
        lemma_without_len(dirs.drop_last(), path);
        let d = dirs.drop_last();
        if has_dir(d, path) {
            let i = choose|i: int| 0 <= i < d.len() && (#[trigger] d[i])@ == path;
            assert(dirs[i]@ == path);
        }
        if dirs.last()@ == path {
            assert(dirs[dirs.len() - 1]@ == path);
        }
        if has_dir(dirs, path) && dirs.last()@ != path {
            let i = choose|i: int| 0 <= i < dirs.len() && (#[trigger] dirs[i])@ == path;
            assert(d[i]@ == path);
        }
    }
}

/// Removes a name of the writable layer, a file or else a directory. `false`
/// where it has neither.
pub fn unlink(fs: &mut Vfs, cwd: &Vec<u8>, path: &Vec<u8>) -> (r: bool)
    requires
        old(fs).wf(),
    ensures
        final(fs).wf(),
        final(fs).rootfs == old(fs).rootfs,
        final(fs).files == old(fs).files,
        ({
            let norm = target_of(old(fs).root(), cwd@, path@);
            if tmp_at(old(fs).tmps(), norm) is Some {
                &&& r
                &&& final(fs).dirs == old(fs).dirs
                &&& exists|i: int|
                    0 <= i < old(fs).tmp@.len() && (#[trigger] old(fs).tmp@[i]).path@ == norm
                        && final(fs).tmps() == old(fs).tmps().remove(i)
            } else {
                &&& r == has_dir(old(fs).dirs@, norm)
                &&& final(fs).tmp == old(fs).tmp
                &&& views(final(fs).dirs@) == without(old(fs).dirs@, norm)
            }
        }),
{
    let norm: Vec<u8> = resolve(fs, cwd, path);
    match tmp_find(fs, &norm) {
        Some(i) => {
            let ghost a = *fs;
            let gone: TmpFile = fs.tmp.remove(i);
            proof {
                let u = fs.tmps();
                let t = a.tmps();
                assert(u =~= t.remove(i as int));
                assert(a.tmp@[i as int].path@ == norm@);
                assert forall|x: int, y: int| 0 <= x < y < u.len() implies before(
                    (#[trigger] u[x]).0,
                    (#[trigger] u[y]).0,
                ) by {
                    let x0 = if x < i {
                        x
                    } else {
                        x + 1
                    };
                    let y0 = if y < i {
                        y
                    } else {
                        y + 1
                    };
                    assert(u[x] == t[x0] && u[y] == t[y0]);
                }
                assert forall|x: int| 0 <= x < fs.tmp@.len() implies (#[trigger] fs.tmp@[x]).file
                    < fs.files@.len() by {
                    let x0 = if x < i {
                        x
                    } else {
                        x + 1
                    };
                    assert(fs.tmp@[x] == a.tmp@[x0]);
                }
            }
            true
        },
        None => {
            let n: usize = fs.dirs.len();
            let ghost d = fs.dirs@;
            let mut kept: Vec<Vec<u8>> = Vec::new();
            let mut i: usize = 0;
            proof {
                assert(d.take(0) =~= Seq::empty());
                assert(views(kept@) =~= without(d.take(0), norm@));
            }
            while i < n
                invariant
                    i <= n == fs.dirs@.len(),
                    d == fs.dirs@,
                    views(kept@) == without(d.take(i as int), norm@),
                decreases n - i,
            {
                let ghost k0 = views(kept@);
                proof {
                    assert(d.take(i + 1).drop_last() =~= d.take(i as int));
                    assert(d.take(i + 1).last() == d[i as int]);
                }
                if !bytes_eq(&fs.dirs[i], &norm) {
                    kept.push(copy_bytes(&fs.dirs[i]));
                    proof {
                        assert(views(kept@) =~= k0.push(d[i as int]@));
                    }
                }
                i = i + 1;
            }
            proof {
                assert(d.take(n as int) =~= d);
                lemma_without_len(d, norm@);
                assert(views(kept@).len() == kept@.len());
            }
            let r: bool = kept.len() != n;
            fs.dirs = kept;
            r
        },
    }
}

// ---- Listing -----------------------------------------------------------------
pub open spec fn starts_with(s: Seq<u8>, prefix: Seq<u8>) -> bool {
    s.len() >= prefix.len() && s.take(prefix.len() as int) == prefix
}

/// What comes before the first slash, or everything.
pub open spec fn until_slash(s: Seq<u8>) -> Seq<u8>
    decreases s.len(),
{
    if s.len() == 0 || s[0] == SLASH {
        Seq::empty()
    } else {
        seq![s[0]] + until_slash(s.skip(1))
    }
}

pub type Listing = Seq<(Seq<u8>, bool)>;

pub open spec fn lists(out: Listing, name: Seq<u8>) -> bool {
    exists|i: int| 0 <= i < out.len() && (#[trigger] out[i]).0 == name
}

/// The listing with what an entry of the archive adds to it: itself where it
/// lies in the directory, or else the directory on the way to it.
pub open spec fn with_entry(out: Listing, e: EntryView, prefix: Seq<u8>) -> Listing {
    let name = until_nul(e.name);
    let rest = name.skip(prefix.len() as int);
    let first = until_slash(rest);
    if !(starts_with(name, prefix) && name.len() > prefix.len()) {
        out
    } else if first.len() == rest.len() {
        out.push((rest, e.kind is Dir))
    } else if lists(out, first) {
        out
    } else {
        out.push((first, true))
    }
}

pub open spec fn from_root(root: Seq<EntryView>, prefix: Seq<u8>) -> Listing
    decreases root.len(),
{
    if root.len() == 0 {
        Seq::empty()
    } else {
        with_entry(from_root(root.drop_last(), prefix), root.last(), prefix)
    }
}

/// The listing with a file or a directory of the writable layer, where it lies
/// directly in the directory and is not listed yet.
pub open spec fn with_tmp(out: Listing, p: Seq<u8>, prefix: Seq<u8>, dir: bool) -> Listing {
    let rest = p.skip(prefix.len() as int);
    if starts_with(p, prefix) && p.len() > prefix.len() && until_slash(rest).len() == rest.len()
        && !lists(out, rest) {
        out.push((rest, dir))
    } else {
        out
    }
}

pub open spec fn and_tmps(out: Listing, t: Seq<(Seq<u8>, usize)>, prefix: Seq<u8>) -> Listing
    decreases t.len(),
{
    if t.len() == 0 {
        out
    } else {
        with_tmp(and_tmps(out, t.drop_last(), prefix), t.last().0, prefix, false)
    }
}

pub open spec fn and_dirs(out: Listing, d: Seq<Vec<u8>>, prefix: Seq<u8>) -> Listing
    decreases d.len(),
{
    if d.len() == 0 {
        out
    } else {
        with_tmp(and_dirs(out, d.drop_last(), prefix), d.last()@, prefix, true)
    }
}

/// What the paths below a directory begin with.
pub open spec fn prefix_of(norm: Seq<u8>) -> Seq<u8> {
    if norm.len() == 0 {
        norm
    } else {
        norm.push(SLASH)
    }
}

/// The listing of the directory with the resolved path `norm`: the archive, then
/// the files and the directories of the writable layer.
pub open spec fn listing(fs: Vfs, norm: Seq<u8>) -> Listing {
    let prefix = prefix_of(norm);
    and_dirs(and_tmps(from_root(fs.root(), prefix), fs.tmps(), prefix), fs.dirs@, prefix)
}

pub open spec fn list_view(v: Seq<(Vec<u8>, bool)>) -> Listing {
    Seq::new(v.len(), |i: int| (v[i].0@, v[i].1))
}

/// The part of `name` below `prefix`, and how much of it comes before a slash.
fn below(name: &Vec<u8>, prefix: &Vec<u8>) -> (r: Option<(Vec<u8>, usize)>)
    ensures
        match r {
            Some((rest, n)) => {
                &&& starts_with(name@, prefix@) && name@.len() > prefix@.len()
                &&& rest@ == name@.skip(prefix@.len() as int)
                &&& n <= rest@.len()
                &&& rest@.take(n as int) == until_slash(rest@)
            },
            None => !(starts_with(name@, prefix@) && name@.len() > prefix@.len()),
        },
{
    let k: usize = prefix.len();
    if name.len() <= k {
        return None;
    }
    let head: &[u8] = vstd::slice::slice_subrange(name, 0, k);
    proof {
        assert(head@ =~= name@.take(k as int));
    }
    if !bytes_eq(head, prefix) {
        return None;
    }
    let tail: &[u8] = vstd::slice::slice_subrange(name, k, name.len());
    let rest: Vec<u8> = copy_bytes(tail);
    proof {
        assert(rest@ =~= name@.skip(k as int));
    }
    let len: usize = rest.len();
    let mut n: usize = 0;
    proof {
        assert(rest@.skip(0) =~= rest@);
        assert(rest@.take(0) + until_slash(rest@) =~= until_slash(rest@));
    }
    while n < len && rest[n] != SLASH
        invariant
            n <= len == rest@.len(),
            rest@.take(n as int) + until_slash(rest@.skip(n as int)) == until_slash(rest@),
        decreases len - n,
    {
        proof {
            let t = rest@.skip(n as int);
            assert(t.skip(1) =~= rest@.skip(n + 1));
            assert(until_slash(t) == seq![t[0]] + until_slash(t.skip(1)));
            assert(rest@.take(n + 1) + until_slash(rest@.skip(n + 1)) =~= rest@.take(n as int) + (
            seq![t[0]] + until_slash(t.skip(1))));
        }
        n = n + 1;
    }
    proof {
        assert(until_slash(rest@.skip(n as int)) =~= Seq::empty());
        assert(rest@.take(n as int) + Seq::empty() =~= rest@.take(n as int));
    }
    Some((rest, n))
}

fn is_listed(out: &Vec<(Vec<u8>, bool)>, name: &[u8]) -> (r: bool)
    ensures
        r == lists(list_view(out@), name@),
{
    let n: usize = out.len();
    let ghost v = list_view(out@);
    let mut i: usize = 0;
    while i < n
        invariant
            i <= n == out@.len(),
            v == list_view(out@),
            forall|j: int| 0 <= j < i ==> (#[trigger] v[j]).0 != name@,
        decreases n - i,
    {
        if bytes_eq(&out[i].0, name) {
            assert(v[i as int].0 == name@);
            return true;
        }
        i = i + 1;
    }
    false
}

fn list_one(out: &mut Vec<(Vec<u8>, bool)>, p: &Vec<u8>, prefix: &Vec<u8>, dir: bool)
    ensures
        list_view(final(out)@) == with_tmp(list_view(old(out)@), p@, prefix@, dir),
{
    let ghost o = list_view(out@);
    match below(p, prefix) {
        Some((rest, k)) => {
            if k == rest.len() {
                let ghost rv = rest@;
                proof {
                    assert(rest@.take(k as int) =~= rest@);
                }
                if !is_listed(out, &rest) {
                    out.push((rest, dir));
                    proof {
                        assert(list_view(out@) =~= o.push((rv, dir)));
                    }
                }
            }
        },
        None => {},
    }
}

/// The names in a directory, each with whether it is a directory: first those
/// of the archive, then the files and directories that only the writable layer
/// has.
pub fn list_dir(fs: &Vfs, cwd: &Vec<u8>, path: &Vec<u8>) -> (r: Vec<(Vec<u8>, bool)>)
    ensures
        list_view(r@) == listing(*fs, target_of(fs.root(), cwd@, path@)),
{
    let norm: Vec<u8> = resolve(fs, cwd, path);
    let mut prefix: Vec<u8> = copy_bytes(&norm);
    if norm.len() != 0 {
        prefix.push(SLASH);
    }
    let ghost root = fs.root();
    let ghost tmps = fs.tmps();
    let mut out: Vec<(Vec<u8>, bool)> = Vec::new();
    let n: usize = fs.rootfs.len();
    let mut i: usize = 0;
    proof {
        assert(root.take(0) =~= Seq::empty());
        assert(list_view(out@) =~= from_root(root.take(0), prefix@));
    }
    while i < n
        invariant
            i <= n == fs.rootfs@.len(),
            root == fs.root(),
            list_view(out@) == from_root(root.take(i as int), prefix@),
        decreases n - i,
    {
        let ghost o = list_view(out@);
        proof {
            assert(root.take(i + 1).drop_last() =~= root.take(i as int));
            assert(root.take(i + 1).last() == fs.rootfs@[i as int]@);
        }
        let name: Vec<u8> = base_name(&fs.rootfs[i]);
        match below(&name, &prefix) {
            Some((rest, k)) => {
                if k == rest.len() {
                    let ghost rv = rest@;
                    proof {
                        assert(rest@.take(k as int) =~= rest@);
                    }
                    out.push((rest, fs.rootfs[i].kind == TarKind::Dir));
                    proof {
                        assert(list_view(out@) =~= o.push((rv, fs.rootfs@[i as int].kind is Dir)));
                    }
                } else {
                    let first: &[u8] = vstd::slice::slice_subrange(&rest, 0, k);
                    proof {
                        assert(first@ =~= rest@.take(k as int));
                    }
                    if !is_listed(&out, first) {
                        let d: Vec<u8> = copy_bytes(first);
                        out.push((d, true));
                        proof {
                            assert(list_view(out@) =~= o.push((first@, true)));
                        }
                    }
                }
            },
            None => {},
        }
        i = i + 1;
    }
    let ghost first = list_view(out@);
    let m: usize = fs.tmp.len();
    let mut j: usize = 0;
    proof {
        assert(root.take(n as int) =~= root);
        assert(tmps.take(0) =~= Seq::empty());
    }
    while j < m
        invariant
            j <= m == fs.tmp@.len(),
            tmps == fs.tmps(),
            list_view(out@) == and_tmps(first, tmps.take(j as int), prefix@),
        decreases m - j,
    {
        proof {
            assert(tmps.take(j + 1).drop_last() =~= tmps.take(j as int));
            assert(tmps.take(j + 1).last() == (fs.tmp@[j as int].path@, fs.tmp@[j as int].file));
        }
        list_one(&mut out, &fs.tmp[j].path, &prefix, false);
        j = j + 1;
    }
    let ghost second = list_view(out@);
    let ghost dirs = fs.dirs@;
    let d: usize = fs.dirs.len();
    let mut k: usize = 0;
    proof {
        assert(tmps.take(m as int) =~= tmps);
        assert(dirs.take(0) =~= Seq::empty());
    }
    while k < d
        invariant
            k <= d == fs.dirs@.len(),
            dirs == fs.dirs@,
            list_view(out@) == and_dirs(second, dirs.take(k as int), prefix@),
        decreases d - k,
    {
        proof {
            assert(dirs.take(k + 1).drop_last() =~= dirs.take(k as int));
            assert(dirs.take(k + 1).last() == fs.dirs@[k as int]);
        }
        list_one(&mut out, &fs.dirs[k], &prefix, true);
        k = k + 1;
    }
    proof {
        assert(dirs.take(d as int) =~= dirs);
    }
    out
}

// ---- Laws --------------------------------------------------------------------
proof fn lemma_tmp_at_some(t: Seq<(Seq<u8>, usize)>, p: Seq<u8>) -> (j: int)
    requires
        tmp_at(t, p) is Some,
    ensures
        0 <= j < t.len(),
        t[j] == (p, tmp_at(t, p)->0),
    decreases t.len(),
{
    if t.last().0 == p {
        t.len() - 1
    } else {
        lemma_tmp_at_some(t.drop_last(), p)
    }
}

/// A file that was opened for writing is what later opens of its path find.
pub proof fn created_is_found(a: Vfs, norm: Seq<u8>, truncate: bool, r: usize, b: Vfs)
    requires
        a.wf(),
        create_post(a, norm, truncate, r, b),
    ensures
        tmp_at(b.tmps(), norm) == Some(r),
        meta_of(b, norm).exists && !meta_of(b, norm).is_dir,
        truncate || tmp_at(a.tmps(), norm) is None ==> b.files@[r as int]@.len() == 0,
{
    assert(tmp_at(b.tmps(), norm) == tmp_at(b.tmps(), norm));
    if tmp_at(a.tmps(), norm) is Some {
        let j = lemma_tmp_at_some(a.tmps(), norm);
        assert(a.tmp@[j].file < a.files@.len());
        assert(b.files@[r as int]@ == b.files@[r as int]@);
    }
}

proof fn lemma_tmp_at_none(t: Seq<(Seq<u8>, usize)>, p: Seq<u8>)
    requires
        forall|j: int| 0 <= j < t.len() ==> (#[trigger] t[j]).0 != p,
    ensures
        tmp_at(t, p) is None,
    decreases t.len(),
{
    if t.len() > 0 {
        assert(t[t.len() - 1].0 != p);
        assert forall|j: int| 0 <= j < t.drop_last().len() implies (#[trigger] t.drop_last()[j]).0
            != p by {
            assert(t[j].0 != p);
        }
        lemma_tmp_at_none(t.drop_last(), p);
    }
}

/// A file that was unlinked is not found any more.
pub proof fn unlinked_is_gone(a: Vfs, i: int, b: Vfs)
    requires
        a.wf(),
        0 <= i < a.tmp@.len(),
        b.tmps() == a.tmps().remove(i),
    ensures
        tmp_at(b.tmps(), a.tmp@[i].path@) is None,
{
    let t = a.tmps();
    let p = t[i].0;
    assert forall|j: int| 0 <= j < b.tmps().len() implies (#[trigger] b.tmps()[j]).0 != p by {
        let k = if j < i {
            j
        } else {
            j + 1
        };
        assert(b.tmps()[j] == t[k]);
        if k < i {
            assert(before(t[k].0, t[i].0));
        } else {
            assert(before(t[i].0, t[k].0));
        }
        lemma_before_irrefl(p);
    }
    lemma_tmp_at_none(b.tmps(), p);
}

proof fn lemma_dirs_list(out: Listing, d: Seq<Vec<u8>>, prefix: Seq<u8>, name: Seq<u8>)
    requires
        until_slash(name).len() == name.len(),
        name.len() > 0,
    ensures
        lists(out, name) ==> lists(and_dirs(out, d, prefix), name),
        has_dir(d, prefix + name) ==> lists(and_dirs(out, d, prefix), name),
        has_dir(d, prefix + name) && !lists(out, name) ==> and_dirs(out, d, prefix).contains(
            (name, true),
        ),
        and_dirs(out, d, prefix).len() >= out.len(),
        forall|i: int| 0 <= i < out.len() ==> and_dirs(out, d, prefix)[i] == #[trigger] out[i],
        !lists(out, name) && lists(and_dirs(out, d, prefix), name) ==> and_dirs(
            out,
            d,
            prefix,
        ).contains((name, true)),
    decreases d.len(),
{
    if d.len() > 0 {
        let e = d.drop_last();
        let x = and_dirs(out, e, prefix);
        let y = and_dirs(out, d, prefix);
        lemma_dirs_list(out, e, prefix, name);
        let p = d.last()@;
        let rest = p.skip(prefix.len() as int);
        assert forall|i: int| 0 <= i < x.len() implies y[i] == #[trigger] x[i] by {}
        if lists(x, name) {
            let i = choose|i: int| 0 <= i < x.len() && (#[trigger] x[i]).0 == name;
            assert(y[i].0 == name);
        }
        if x.contains((name, true)) {
            let i = choose|i: int| 0 <= i < x.len() && x[i] == (name, true);
            assert(y[i] == (name, true));
        }
        if y.len() > x.len() && y.last().0 == name {
            assert(y[x.len() as int] == (name, true));
        }
        if lists(y, name) && !lists(x, name) {
            let i = choose|i: int| 0 <= i < y.len() && (#[trigger] y[i]).0 == name;
            if i < x.len() {
                assert(x[i].0 == name);
            }
            assert(y[i] == (name, true));
        }
        if p == prefix + name {
            assert(rest =~= name);
            assert(p.take(prefix.len() as int) =~= prefix);
            if !lists(x, name) {
                assert(y[x.len() as int].0 == name);
            }
        }
        if has_dir(d, prefix + name) {
            let i = choose|i: int| 0 <= i < d.len() && (#[trigger] d[i])@ == prefix + name;
            if i < e.len() {
                assert(e[i]@ == prefix + name);
            }
        }
    }
}

/// A directory that was made is listed in its parent, as a directory unless the
/// archive or a file has its name.
pub proof fn made_dir_is_listed(fs: Vfs, norm: Seq<u8>, name: Seq<u8>)
    requires
        name.len() > 0,
        until_slash(name).len() == name.len(),
        has_dir(fs.dirs@, prefix_of(norm) + name),
    ensures
        lists(listing(fs, norm), name),
        !lists(
            and_tmps(from_root(fs.root(), prefix_of(norm)), fs.tmps(), prefix_of(norm)),
            name,
        ) ==> listing(fs, norm).contains((name, true)),
{
    let prefix = prefix_of(norm);
    lemma_dirs_list(
        and_tmps(from_root(fs.root(), prefix), fs.tmps(), prefix),
        fs.dirs@,
        prefix,
        name,
    );
}

/// A number field is read digit by digit in base 8: a further digit makes eight
/// times the number and the digit; a space or a zero byte ends it.
pub proof fn octal_digits_count(s: Seq<u8>, d: u8, v: int)
    requires
        forall|i: int| 0 <= i < s.len() ==> 0x30 <= #[trigger] s[i] <= 0x37,
        0x30 <= d <= 0x37,
    ensures
        octal(s.push(d), v) == 8 * octal(s, v) + (d - 0x30),
        octal(s.push(0x20), v) == octal(s, v),
        octal(s.push(0), v) == octal(s, v),
    decreases s.len(),
{
    if s.len() == 0 {
        assert(s.push(d).skip(1) =~= s);
        assert(octal(s.push(d).skip(1), v * 8 + (d - 0x30)) == v * 8 + (d - 0x30));
    } else {
        let t = s.skip(1);
        let w = v * 8 + (s[0] - 0x30);
        assert(0x30 <= s[0] <= 0x37);
        assert forall|i: int| 0 <= i < t.len() implies 0x30 <= #[trigger] t[i] <= 0x37 by {
            assert(t[i] == s[i + 1]);
        }
        octal_digits_count(t, d, w);
        assert(s.push(d).skip(1) =~= t.push(d));
        assert(s.push(0x20).skip(1) =~= t.push(0x20));
        assert(s.push(0).skip(1) =~= t.push(0));
    }
}

/// An entry of the archive is its header and its data: the data follows the header
/// of 512 bytes, as long as the size field says; the next entry begins at the next
/// multiple of 512 behind it; a type `5` is a directory and `2` a symbolic link.
pub proof fn entries_hold_their_data(tar: Seq<u8>, pos: int, long: Option<Seq<u8>>)
    requires
        0 <= pos,
        !ends_at(tar, pos),
        tar[pos + 156] != 0x4c && tar[pos + 156] != 0x78 && tar[pos + 156] != 0x67,
    ensures
        ({
            let e = entries(tar, pos, long);
            let n = number(tar.subrange(pos + 124, pos + 136)) as int;
            &&& e.len() > 0
            &&& e[0].data == tar.subrange(pos + 512, pos + 512 + n)
            &&& e[0].kind == (if tar[pos + 156] == 0x35 {
                TarKind::Dir
            } else if tar[pos + 156] == 0x32 {
                TarKind::Symlink
            } else {
                TarKind::File
            })
            &&& e.skip(1) == entries(tar, after(tar, pos), None)
            &&& (after(tar, pos) - pos) % 512 == 0
            &&& pos + 512 + n <= after(tar, pos) < pos + 1024 + n
        }),
{
    let e = entries(tar, pos, long);
    assert(e == seq![entry_at(tar, pos, long)] + entries(tar, after(tar, pos), None));
    assert(e.skip(1) =~= entries(tar, after(tar, pos), None));
}

/// An absolute path leads to the same place from every directory; a `.` goes
/// nowhere; a name that is no symbolic link goes one step down.
pub proof fn paths_lead_step_by_step(
    root: Seq<EntryView>,
    cwd: Seq<u8>,
    other: Seq<u8>,
    path: Seq<u8>,
    cur: Seq<u8>,
    rest: Seq<Seq<u8>>,
    seg: Seq<u8>,
    depth: int,
)
    requires
        path.len() > 0,
        path[0] == 47,
        seg.len() > 0,
        seg != seq![46u8],
        seg != seq![46u8, 46u8],
        match found(root, under(cur, seg)) {
            Some(e) => !(e.kind is Symlink),
            None => true,
        },
    ensures
        target_of(root, cwd, path) == target_of(root, other, path),
        resolved(root, cur, seq![seq![46u8]] + rest, depth) == resolved(root, cur, rest, depth),
        resolved(root, cur, seq![seg] + rest, depth) == resolved(root, under(cur, seg), rest, depth),
        resolved(root, cur, seq![seg], depth) == (if cur.len() == 0 {
            seg
        } else {
            cur + seq![47u8] + seg
        }),
{
    let a = seq![seq![46u8]] + rest;
    assert(a[0] == seq![46u8]);
    assert(paths::dot() =~= seq![46u8]);
    assert(paths::dotdot() =~= seq![46u8, 46u8]);
    assert(a.skip(1) =~= rest);
    let b = seq![seg] + rest;
    assert(b[0] == seg);
    assert(b.skip(1) =~= rest);
    let c = seq![seg];
    assert(c[0] == seg);
    assert(c.skip(1).len() == 0);
    assert(cur.push(SLASH) + seg =~= cur + seq![47u8] + seg);
    reveal_with_fuel(resolved, 2);
}

/// A symbolic link leads where its target leads: an absolute target from the root, a
/// relative one from the directory of the link, with the rest of the path behind it.
pub proof fn links_are_followed(
    root: Seq<EntryView>,
    cur: Seq<u8>,
    seg: Seq<u8>,
    rest: Seq<Seq<u8>>,
    depth: int,
    e: EntryView,
)
    requires
        seg.len() > 0,
        seg != seq![46u8],
        seg != seq![46u8, 46u8],
        found(root, under(cur, seg)) == Some(e),
        e.kind is Symlink,
        0 <= depth < 8,
    ensures
        ({
            let target = until_nul(after_nul(e.name));
            let to = if target.len() > 0 && target[0] == 47 {
                Seq::empty()
            } else {
                cur
            };
            let steps = if target.len() > 0 && target[0] == 47 {
                nonempty(split(trim_start(target)))
            } else {
                nonempty(split(target))
            };
            resolved(root, cur, seq![seg] + rest, depth) == resolved(
                root,
                to,
                steps + rest,
                depth + 1,
            )
        }),
{
    let b = seq![seg] + rest;
    assert(b[0] == seg);
    assert(b.skip(1) =~= rest);
    assert(paths::dot() =~= seq![46u8]);
    assert(paths::dotdot() =~= seq![46u8, 46u8]);
}

} // verus!
