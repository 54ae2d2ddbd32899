//! Starting a program: scripts, the initial stack, and what a task keeps.

use vstd::prelude::*;
use crate::abi::{SIG_IGN, S_IFMT, S_IFREG};
use crate::bytes::{le, lemma_le_len, put_le};
use crate::errno::{EACCES, EFAULT, ELOOP, ENOEXEC};
use crate::file::{kept_on_exec, FdTable};
use crate::syscall::process::lemma_mapped_stored;
use crate::syscall::transfer::texts;
use crate::task::control::{KSigAction, StackT, TaskCtl};
use crate::text::{to_lossy, utf8_lossy};
use crate::trap::{TrapFrame, SSTATUS_FS_INITIAL, SSTATUS_SPIE, SSTATUS_SUM};
use crate::uaccess::{bytes_at, mapped, num_at, stored, UserMem};

verus! {

/// Scripts may name scripts, this often.
pub const MAX_DEPTH: usize = 4;

/// Only regular files can be run. `mode` is that of the file that was opened.
pub fn open_exec(mode: Result<u32, i32>) -> (r: Result<(), i32>)
    ensures
        r == (match mode {
            Err(e) => Err::<(), i32>(e),
            Ok(m) => if m & S_IFMT == S_IFREG {
                Ok::<(), i32>(())
            } else {
                Err::<(), i32>(EACCES)
            },
        }),
{
    match mode {
        Err(e) => Err(e),
        Ok(m) => {
            if m & S_IFMT != S_IFREG {
                return Err(EACCES);
            }
            Ok(())
        },
    }
}

/// The size of the whitespace character at a place of a text in UTF-8; 0 where
/// there is none. These are the characters with the Unicode property
/// `White_Space`.
pub open spec fn white(s: Seq<u8>, i: int) -> int {
    let left = s.len() - i;
    if i < 0 || left <= 0 {
        0
    } else if (9 <= s[i] <= 13) || s[i] == 32 {
        1
    } else if left >= 2 && s[i] == 0xc2 && (s[i + 1] == 0x85 || s[i + 1] == 0xa0) {
        2
    } else if left >= 3 && s[i] == 0xe1 && s[i + 1] == 0x9a && s[i + 2] == 0x80 {
        3
    } else if left >= 3 && s[i] == 0xe2 && s[i + 1] == 0x80 && ((0x80 <= s[i + 2] <= 0x8a) || s[i
        + 2] == 0xa8 || s[i + 2] == 0xa9 || s[i + 2] == 0xaf) {
        3
    } else if left >= 3 && s[i] == 0xe2 && s[i + 1] == 0x81 && s[i + 2] == 0x9f {
        3
    } else if left >= 3 && s[i] == 0xe3 && s[i + 1] == 0x80 && s[i + 2] == 0x80 {
        3
    } else {
        0
    }
}

fn white_at(s: &Vec<u8>, i: usize) -> (r: usize)
    ensures
        r == white(s@, i as int),
        i + r <= s@.len() || r == 0,
{
    let n: usize = s.len();
    if i >= n {
        return 0;
    }
    let left: usize = n - i;
    let a: u8 = s[i];
    if (9 <= a && a <= 13) || a == 32 {
        return 1;
    }
    if left >= 2 && a == 0xc2 && (s[i + 1] == 0x85 || s[i + 1] == 0xa0) {
        return 2;
    }
    if left >= 3 {
        let b: u8 = s[i + 1];
        let c: u8 = s[i + 2];
        if a == 0xe1 && b == 0x9a && c == 0x80 {
            return 3;
        }
        if a == 0xe2 && b == 0x80 && ((0x80 <= c && c <= 0x8a) || c == 0xa8 || c == 0xa9 || c
            == 0xaf) {
            return 3;
        }
        if a == 0xe2 && b == 0x81 && c == 0x9f {
            return 3;
        }
        if a == 0xe3 && b == 0x80 && c == 0x80 {
            return 3;
        }
    }
    0
}

/// Where the word that goes on at `i` ends.
pub open spec fn word_end(s: Seq<u8>, i: int) -> int
    decreases s.len() - i,
{
    if i < 0 || i >= s.len() || white(s, i) > 0 {
        i
    } else {
        word_end(s, i + 1)
    }
}

proof fn lemma_word_end(s: Seq<u8>, i: int)
    requires
        0 <= i <= s.len(),
    ensures
        i <= word_end(s, i) <= s.len(),
        i < s.len() && white(s, i) == 0 ==> i < word_end(s, i),
    decreases s.len() - i,
{
    if i < s.len() && white(s, i) == 0 {
        lemma_word_end(s, i + 1);
    }
}

/// The words from place `i` on.
pub open spec fn words(s: Seq<u8>, i: int) -> Seq<Seq<u8>>
    decreases s.len() - i,
{
    if i < 0 || i >= s.len() {
        Seq::empty()
    } else if white(s, i) > 0 {
        words(s, i + white(s, i))
    } else if i < word_end(s, i) <= s.len() {
        seq![s.subrange(i, word_end(s, i))] + words(s, word_end(s, i))
    } else {
        Seq::empty()
    }
}

fn copy_part(s: &Vec<u8>, from: usize, to: usize) -> (r: Vec<u8>)
    requires
        from <= to <= s@.len(),
    ensures
        r@ == s@.subrange(from as int, to as int),
{
    let mut r: Vec<u8> = Vec::new();
    let mut i: usize = from;
    while i < to
        invariant
            from <= i <= to <= s@.len(),
            r@ == s@.subrange(from as int, i as int),
        decreases to - i,
    {
        r.push(s[i]);
        i = i + 1;
        proof {
            assert(r@ =~= s@.subrange(from as int, i as int));
        }
    }
    r
}

/// Splits a text at whitespace.
fn split_words(s: &Vec<u8>) -> (r: Vec<Vec<u8>>)
    ensures
        texts(r@) == words(s@, 0),
{
    let n: usize = s.len();
    let mut r: Vec<Vec<u8>> = Vec::new();
    let mut i: usize = 0;
    proof {
        assert(texts(r@) + words(s@, 0) =~= words(s@, 0));
    }
    while i < n
        invariant
            i <= n == s@.len(),
            texts(r@) + words(s@, i as int) == words(s@, 0),
        decreases n - i,
    {
        let w: usize = white_at(s, i);
        if w > 0 {
            i = i + w;
        } else {
            let mut j: usize = i;
            let ghost end = word_end(s@, i as int);
            proof {
                lemma_word_end(s@, i as int);
            }
            while j < n && white_at(s, j) == 0
                invariant
                    i <= j <= n == s@.len(),
                    word_end(s@, j as int) == end,
                decreases n - j,
            {
                j = j + 1;
            }
            let word: Vec<u8> = copy_part(s, i, j);
            let ghost r0 = r@;
            r.push(word);
            proof {
                assert(texts(r@) + words(s@, j as int) =~= texts(r0) + (seq![word@] + words(
                    s@,
                    j as int,
                )));
            }
            i = j;
        }
    }
    proof {
        assert(texts(r@) + Seq::<Seq<u8>>::empty() =~= texts(r@));
    }
    r
}

/// Words from the `k`-th on, with a space between them.
pub open spec fn joined(l: Seq<Seq<u8>>, k: int) -> Seq<u8>
    decreases l.len() - k,
{
    if k < 0 || k >= l.len() {
        Seq::empty()
    } else if k + 1 == l.len() {
        l[k]
    } else {
        l[k] + seq![32u8] + joined(l, k + 1)
    }
}

fn join_words(l: &Vec<Vec<u8>>, k: usize) -> (r: Vec<u8>)
    requires
        k < l@.len(),
    ensures
        r@ == joined(texts(l@), k as int),
{
    let n: usize = l.len();
    let ghost t = texts(l@);
    let mut r: Vec<u8> = Vec::new();
    let mut i: usize = k;
    proof {
        assert(r@ + joined(t, k as int) =~= joined(t, k as int));
    }
    while i + 1 < n
        invariant
            k <= i < n == l@.len(),
            t == texts(l@),
            r@ + joined(t, i as int) == joined(t, k as int),
        decreases n - i,
    {
        let ghost r0 = r@;
        r.extend_from_slice(&l[i]);
        r.push(32);
        proof {
            assert(t[i as int] == l@[i as int]@);
            assert(r@ + joined(t, i + 1) =~= r0 + (t[i as int] + seq![32u8] + joined(t, i + 1)));
        }
        i = i + 1;
    }
    let ghost r0 = r@;
    r.extend_from_slice(&l[i]);
    proof {
        assert(t[i as int] == l@[i as int]@);
        assert(r@ =~= r0 + joined(t, i as int));
    }
    r
}

/// The first line of a script, without the mark.
pub open spec fn line_end(s: Seq<u8>, i: int) -> int
    decreases s.len() - i,
{
    if i < 0 || i >= s.len() || s[i] == 10 {
        i
    } else {
        line_end(s, i + 1)
    }
}

pub open spec fn is_script(s: Seq<u8>) -> bool {
    s.len() >= 2 && s[0] == 35 && s[1] == 33
}

/// The words of a script's first line.
pub open spec fn script_words(s: Seq<u8>) -> Seq<Seq<u8>> {
    words(utf8_lossy(s.subrange(2, line_end(s, 2))), 0)
}

/// The arguments with which a script's interpreter is run: its own name, the
/// rest of the line as one argument if there is any, the script, and the
/// script's arguments.
pub open spec fn script_args(w: Seq<Seq<u8>>, path: Seq<u8>, argv: Seq<Seq<u8>>) -> Seq<Seq<u8>> {
    seq![w[0]] + (if w.len() > 1 {
        seq![joined(w, 1)]
    } else {
        Seq::empty()
    }) + seq![path] + (if argv.len() > 0 {
        argv.skip(1)
    } else {
        Seq::empty()
    })
}

/// What the beginning of a file says of how to run it.
pub enum Image {
    /// A script: run this instead.
    Script { interp: Vec<u8>, argv: Vec<Vec<u8>> },
    /// Not a script.
    Program,
}

fn copy_text(s: &Vec<u8>) -> (r: Vec<u8>)
    ensures
        r@ == s@,
{
    let r: Vec<u8> = copy_part(s, 0, s.len());
    proof {
        assert(r@ =~= s@);
    }
    r
}

/// Looks at the beginning of a file, 128 bytes at most, and says what to run
/// with which arguments. A script whose first line names no program is refused,
/// and so are scripts that name scripts too often.
#[verifier::loop_isolation(false)]
pub fn load_image(head: &Vec<u8>, path: &Vec<u8>, argv: &Vec<Vec<u8>>, depth: usize) -> (r: Result<
    Image,
    i32,
>)
    ensures
        if depth > MAX_DEPTH {
            r is Err && r->Err_0 == ELOOP
        } else if !is_script(head@) {
            r is Ok && r->Ok_0 is Program
        } else {
            let w = script_words(head@);
            if w.len() == 0 {
                r is Err && r->Err_0 == ENOEXEC
            } else {
                &&& r is Ok
                &&& r->Ok_0 is Script
                &&& r->Ok_0->interp@ == w[0]
                &&& texts(r->Ok_0->argv@) == script_args(w, path@, texts(argv@))
            }
        },
{
    if depth > MAX_DEPTH {
        return Err(ELOOP);
    }
    let n: usize = head.len();
    if !(n >= 2 && head[0] == 35 && head[1] == 33) {
        return Ok(Image::Program);
    }
    let mut e: usize = 2;
    while e < n && head[e] != 10
        invariant
            2 <= e <= n,
            n == head@.len(),
            line_end(head@, e as int) == line_end(head@, 2),
        decreases n - e,
    {
        e = e + 1;
    }
    let raw: Vec<u8> = copy_part(head, 2, e);
    let line: Vec<u8> = to_lossy(&raw);
    let w: Vec<Vec<u8>> = split_words(&line);
    let ghost t = texts(w@);
    if w.len() == 0 {
        return Err(ENOEXEC);
    }
    let mut out: Vec<Vec<u8>> = Vec::new();
    let interp: Vec<u8> = copy_text(&w[0]);
    out.push(copy_text(&w[0]));
    if w.len() > 1 {
        out.push(join_words(&w, 1));
    }
    out.push(copy_text(path));
    let ghost pre = texts(out@);
    proof {
        let want = seq![t[0]] + (if t.len() > 1 {
            seq![joined(t, 1)]
        } else {
            Seq::empty()
        }) + seq![path@];
        assert(t[0] == w@[0]@);
        assert(pre =~= want);
    }
    let m: usize = argv.len();
    let mut i: usize = 1;
    while i < m
        invariant
            1 <= i,
            i <= m || i == 1,
            m == argv@.len(),
            texts(out@) == pre + texts(argv@).subrange(
                1,
                if m > 0 {
                    i as int
                } else {
                    1
                },
            ) || m == 0,
            m == 0 ==> texts(out@) == pre,
        decreases m - i,
    {
        let ghost o0 = out@;
        out.push(copy_text(&argv[i]));
        proof {
            assert(texts(out@) =~= texts(o0).push(argv@[i as int]@));
            assert(texts(argv@)[i as int] == argv@[i as int]@);
            assert(pre + texts(argv@).subrange(1, i + 1) =~= (pre + texts(argv@).subrange(
                1,
                i as int,
            )).push(texts(argv@)[i as int]));
        }
        i = i + 1;
    }
    proof {
        let a = texts(argv@);
        if m > 0 {
            assert(a.subrange(1, m as int) =~= a.skip(1));
        } else {
            assert(pre + Seq::<Seq<u8>>::empty() =~= pre);
        }
        assert(texts(out@) =~= script_args(t, path@, a));
    }
    Ok(Image::Script { interp, argv: out })
}

/// A program or its interpreter in memory.
#[derive(Clone, Copy, PartialEq, Eq, Structural, Debug)]
pub struct Loaded {
    pub entry: usize,
    /// What was added to the addresses of the file.
    pub base: usize,
    /// Where its last segment ends.
    pub end: usize,
    /// Where its program headers are.
    pub phdr: usize,
}

/// How a program starts.
#[derive(Clone, Copy, PartialEq, Eq, Structural, Debug)]
pub struct Plan {
    /// Where the program is loaded.
    pub base: usize,
    /// Where it starts to run.
    pub entry: usize,
    /// Where its interpreter is; 0 without one.
    pub interp_base: usize,
    /// The first program break.
    pub brk: usize,
}

/// Where a program is to be loaded: position-independent ones at a fixed base,
/// others where they say.
pub fn load_base(is_dyn: bool, pie_base: usize) -> (r: usize)
    ensures
        r == (if is_dyn {
            pie_base
        } else {
            0
        }),
{
    if is_dyn {
        pie_base
    } else {
        0
    }
}

pub open spec fn page_up(a: int) -> int {
    (a + 4095) / 4096 * 4096
}

/// Plans the start of a program that was loaded, with its interpreter if it has
/// one: the interpreter runs first, and the program break is a page above the
/// program's last.
pub fn plan_image(is_dyn: bool, pie_base: usize, loaded: Loaded, interp: Option<Loaded>) -> (r: Plan)
    requires
        loaded.end + 8191 <= usize::MAX,
    ensures
        r.base == (if is_dyn {
            pie_base
        } else {
            0
        }),
        r.entry == (match interp {
            Some(i) => i.entry,
            None => loaded.entry,
        }),
        r.interp_base == (match interp {
            Some(i) => i.base,
            None => 0,
        }),
        r.brk == page_up(loaded.end as int) + 4096,
{
    let (entry, interp_base): (usize, usize) = match interp {
        Some(i) => (i.entry, i.base),
        None => (loaded.entry, 0),
    };
    Plan {
        base: load_base(is_dyn, pie_base),
        entry,
        interp_base,
        brk: (loaded.end + 4095) / 4096 * 4096 + 4096,
    }
}

/// What a program is told of itself: its own entry and headers, and where its
/// interpreter is.
pub fn plan_aux(plan: &Plan, loaded: &Loaded, phnum: usize, uid: usize, gid: usize) -> (r: Aux)
    ensures
        r == (Aux {
            phdr: loaded.phdr,
            phnum,
            base: plan.interp_base,
            entry: loaded.entry,
            uid,
            gid,
        }),
{
    Aux {
        phdr: loaded.phdr,
        phnum,
        base: plan.interp_base,
        entry: loaded.entry,
        uid,
        gid,
    }
}

/// A range of the new address space.
#[derive(Clone, Copy, PartialEq, Eq, Structural, Debug)]
pub struct ImageArea {
    pub start: usize,
    pub end: usize,
    pub write: bool,
    pub execute: bool,
    pub grows_down: bool,
}

/// The ranges that every program gets: its stack, and the page that handlers
/// return to, which is readable and executable once its code is there.
pub fn image_areas(stack_top: usize, stack_size: usize, trampoline: usize) -> (r: (ImageArea, ImageArea))
    requires
        stack_size <= stack_top,
        trampoline + 4096 <= usize::MAX,
    ensures
        r.0 == (ImageArea {
            start: (stack_top - stack_size) as usize,
            end: stack_top,
            write: true,
            execute: false,
            grows_down: true,
        }),
        r.1 == (ImageArea {
            start: trampoline,
            end: (trampoline + 4096) as usize,
            write: false,
            execute: true,
            grows_down: false,
        }),
{
    (
        ImageArea {
            start: stack_top - stack_size,
            end: stack_top,
            write: true,
            execute: false,
            grows_down: true,
        },
        ImageArea {
            start: trampoline,
            end: trampoline + 4096,
            write: false,
            execute: true,
            grows_down: false,
        },
    )
}

/// The code of the page that handlers return to.
pub fn trampoline_code() -> (r: Vec<u8>)
    ensures
        r@ == crate::signal::trampoline_code(),
{
    crate::signal::install_trampoline()
}

/// The break of a program is page-aligned and leaves a page between itself and the
/// program.
pub proof fn break_is_beyond_program(loaded: Loaded, brk: int)
    requires
        brk == page_up(loaded.end as int) + 4096,
    ensures
        brk % 4096 == 0,
        loaded.end as int + 4096 <= brk < loaded.end as int + 8192,
{
}

/// What the program is told besides arguments and environment.
#[derive(Clone, Copy, PartialEq, Eq, Structural, Debug)]
pub struct Aux {
    /// Address, number and size of its program headers.
    pub phdr: usize,
    pub phnum: usize,
    /// Where its loader is.
    pub base: usize,
    pub entry: usize,
    pub uid: usize,
    pub gid: usize,
}

/// The state of a stack that is being built: whether all was accessible so far,
/// the pointer and the memory.
pub struct Build {
    pub ok: bool,
    pub sp: int,
    pub mem: Map<int, u8>,
}

/// Bytes put on the stack.
pub open spec fn push(b: Build, s: Seq<u8>) -> Build {
    let at = b.sp - s.len();
    if !b.ok || at < 0 || !mapped(b.mem, at, s.len() as int) {
        Build { ok: false, ..b }
    } else {
        Build { sp: at, mem: stored(b.mem, at, s), ..b }
    }
}

/// The pointer moved down to a multiple of 16.
pub open spec fn aligned(b: Build) -> Build {
    Build { sp: b.sp / 16 * 16, ..b }
}

/// A string with its final zero.
pub open spec fn cstr(s: Seq<u8>) -> Seq<u8> {
    s.push(0u8)
}

/// Strings put on the stack, the last first; their addresses in their order.
pub open spec fn push_all(b: Build, l: Seq<Seq<u8>>) -> (Build, Seq<int>)
    decreases l.len(),
{
    if l.len() == 0 {
        (b, Seq::empty())
    } else {
        let c = push(b, cstr(l.last()));
        let rest = push_all(c, l.drop_last());
        (rest.0, rest.1.push(c.sp))
    }
}

/// Numbers of 8 bytes each.
pub open spec fn word_bytes(l: Seq<int>) -> Seq<u8>
    decreases l.len(),
{
    if l.len() == 0 {
        Seq::empty()
    } else {
        word_bytes(l.drop_last()) + le(l.last() as nat, 8)
    }
}

/// The auxiliary vector: pairs of a kind and a value.
pub open spec fn aux_words(a: Aux, random: int, platform: int, execfn: int) -> Seq<int> {
    seq![
        3,
        a.phdr as int,
        4,
        56,
        5,
        a.phnum as int,
        6,
        4096,
        7,
        a.base as int,
        8,
        0,
        9,
        a.entry as int,
        11,
        a.uid as int,
        12,
        a.uid as int,
        13,
        a.gid as int,
        14,
        a.gid as int,
        23,
        0,
        25,
        random,
        16,
        0x112d,
        17,
        100,
        15,
        platform,
        31,
        execfn,
        0,
        0,
    ]
}

/// `riscv64` with a final zero.
pub open spec fn platform_name() -> Seq<u8> {
    seq![114u8, 105, 115, 99, 118, 54, 52, 0]
}

/// The strings on the stack: the path, the platform, the environment and the
/// arguments.
pub open spec fn strings(
    m: Map<int, u8>,
    top: usize,
    path: Seq<u8>,
    argv: Seq<Seq<u8>>,
    envp: Seq<Seq<u8>>,
) -> (Build, int, int, Seq<int>, Seq<int>) {
    let a = push(Build { ok: true, sp: top as int, mem: m }, cstr(path));
    let b = push(a, platform_name());
    let e = push_all(b, envp);
    let g = push_all(e.0, argv);
    (g.0, a.sp, b.sp, e.1, g.1)
}

/// The words at the bottom of the stack: the number of arguments, their
/// addresses, those of the environment, each list ended by zero, and the
/// auxiliary vector.
pub open spec fn block(args: Seq<int>, env: Seq<int>, aux: Seq<int>) -> Seq<int> {
    seq![args.len() as int] + args + seq![0int] + env + seq![0int] + aux
}

/// The stack with which a program starts.
pub open spec fn stack(
    m: Map<int, u8>,
    top: usize,
    path: Seq<u8>,
    argv: Seq<Seq<u8>>,
    envp: Seq<Seq<u8>>,
    a: Aux,
    random: Seq<u8>,
) -> Build {
    let s = strings(m, top, path, argv, envp);
    let r = push(aligned(s.0), random);
    let q = aligned(r);
    let words = block(s.4, s.3, aux_words(a, r.sp, s.2, s.1));
    let bytes = word_bytes(words);
    let at = (q.sp - bytes.len()) / 16 * 16;
    if !q.ok || q.sp < bytes.len() || !mapped(q.mem, at, bytes.len() as int) {
        Build { ok: false, ..q }
    } else {
        Build { ok: true, sp: at, mem: stored(q.mem, at, bytes) }
    }
}

fn push_bytes(mem: &mut UserMem, sp: usize, s: &Vec<u8>) -> (r: Result<usize, i32>)
    ensures
        ({
            let b = push(Build { ok: true, sp: sp as int, mem: old(mem)@ }, s@);
            final(mem)@ == b.mem && match r {
                Ok(v) => b.ok && b.sp == v,
                Err(e) => !b.ok && e == EFAULT,
            }
        }),
{
    if s.len() > sp {
        return Err(EFAULT);
    }
    let at: usize = sp - s.len();
    match mem.copy_to_user(at, s) {
        Ok(_) => Ok(at),
        Err(e) => Err(e),
    }
}

fn with_zero(s: &Vec<u8>) -> (r: Vec<u8>)
    ensures
        r@ == cstr(s@),
{
    let mut r: Vec<u8> = copy_text(s);
    r.push(0);
    r
}

proof fn lemma_failed(b: Build, l: Seq<Seq<u8>>)
    requires
        !b.ok,
    ensures
        !push_all(b, l).0.ok,
        push_all(b, l).0.mem == b.mem,
    decreases l.len(),
{
    if l.len() > 0 {
        lemma_failed(push(b, cstr(l.last())), l.drop_last());
    }
}

pub open spec fn ints(l: Seq<usize>) -> Seq<int> {
    Seq::new(l.len(), |i: int| l[i] as int)
}

/// Puts strings on the stack. Gives the pointer and the addresses.
#[verifier::loop_isolation(false)]
fn push_strings(mem: &mut UserMem, sp: usize, l: &Vec<Vec<u8>>) -> (r: Result<(usize, Vec<usize>), i32>)
    ensures
        ({
            let p = push_all(Build { ok: true, sp: sp as int, mem: old(mem)@ }, texts(l@));
            final(mem)@ == p.0.mem && match r {
                Ok(v) => p.0.ok && p.0.sp == v.0 && p.1 == ints(v.1@),
                Err(e) => !p.0.ok && e == EFAULT,
            }
        }),
{
    let ghost t = texts(l@);
    let ghost all = push_all(Build { ok: true, sp: sp as int, mem: mem@ }, t);
    let mut i: usize = l.len();
    let mut at: usize = sp;
    let mut back: Vec<usize> = Vec::new();
    let ghost mut tail: Seq<int> = Seq::empty();
    proof {
        assert(t.take(i as int) =~= t);
        assert(all.1 + tail =~= all.1);
    }
    while i > 0
        invariant
            i <= l@.len(),
            t == texts(l@),
            back@.len() == l@.len() - i,
            tail.len() == back@.len(),
            forall|k: int|
                0 <= k < tail.len() ==> #[trigger] tail[k] == back@[back@.len() - 1 - k],
            ({
                let p = push_all(Build { ok: true, sp: at as int, mem: mem@ }, t.take(i as int));
                p.0 == all.0 && p.1 + tail == all.1
            }),
        decreases i,
    {
        i = i - 1;
        let s: Vec<u8> = with_zero(&l[i]);
        let ghost cur = t.take(i + 1);
        let ghost b = Build { ok: true, sp: at as int, mem: mem@ };
        let ghost c = push(b, cstr(cur.last()));
        let ghost rest = push_all(c, cur.drop_last());
        proof {
            assert(cur.last() == t[i as int]);
            assert(t[i as int] == l@[i as int]@);
            assert(cur.drop_last() =~= t.take(i as int));
        }
        match push_bytes(mem, at, &s) {
            Ok(v) => {
                at = v;
                let ghost tail0 = tail;
                let ghost back0 = back@;
                back.push(v);
                proof {
                    tail = seq![v as int] + tail0;
                    assert(rest.1.push(v as int) + tail0 =~= rest.1 + tail);
                    assert forall|k: int| 0 <= k < tail.len() implies #[trigger] tail[k]
                        == back@[back@.len() - 1 - k] by {
                        if k > 0 {
                            assert(tail[k] == tail0[k - 1]);
                            assert(tail0[k - 1] == back0[back0.len() - 1 - (k - 1)]);
                        }
                    }
                    assert(c == (Build { ok: true, sp: v as int, mem: mem@ }));
                }
            },
            Err(e) => {
                proof {
                    lemma_failed(c, cur.drop_last());
                }
                return Err(e);
            },
        }
    }
    let mut addrs: Vec<usize> = Vec::new();
    let n: usize = back.len();
    let mut k: usize = 0;
    while k < n
        invariant
            k <= n == back@.len(),
            addrs@.len() == k,
            forall|j: int| 0 <= j < k ==> #[trigger] addrs@[j] == back@[n - 1 - j],
        decreases n - k,
    {
        addrs.push(back[n - 1 - k]);
        k = k + 1;
    }
    proof {
        assert(t.take(0) =~= Seq::empty());
        assert(Seq::<int>::empty() + tail =~= tail);
        assert(ints(addrs@) =~= tail) by {
            assert forall|j: int| 0 <= j < tail.len() implies ints(addrs@)[j] == tail[j] by {
                assert(addrs@[j] == back@[n - 1 - j]);
            }
        }
    }
    Ok((at, addrs))
}

proof fn lemma_words_len(l: Seq<int>)
    ensures
        word_bytes(l).len() == 8 * l.len(),
    decreases l.len(),
{
    if l.len() > 0 {
        lemma_words_len(l.drop_last());
        lemma_le_len(l.last() as nat, 8);
    }
}

fn put_words(v: &mut Vec<u8>, l: &Vec<usize>, Ghost(done): Ghost<Seq<int>>)
    requires
        old(v)@ == word_bytes(done),
    ensures
        final(v)@ == word_bytes(done + ints(l@)),
{
    let n: usize = l.len();
    let mut i: usize = 0;
    proof {
        assert(done + ints(l@).take(0) =~= done);
    }
    while i < n
        invariant
            i <= n == l@.len(),
            v@ == word_bytes(done + ints(l@).take(i as int)),
        decreases n - i,
    {
        put_le(v, l[i] as u64, 8);
        proof {
            let a = done + ints(l@).take(i + 1);
            assert(a.drop_last() =~= done + ints(l@).take(i as int));
            assert(a.last() == l@[i as int]);
        }
        i = i + 1;
    }
    proof {
        assert(ints(l@).take(n as int) =~= ints(l@));
    }
}

fn aux_vec(a: &Aux, random: usize, platform: usize, execfn: usize) -> (r: Vec<usize>)
    ensures
        ints(r@) == aux_words(*a, random as int, platform as int, execfn as int),
{
    let r: Vec<usize> = vec![
        3,
        a.phdr,
        4,
        56,
        5,
        a.phnum,
        6,
        4096,
        7,
        a.base,
        8,
        0,
        9,
        a.entry,
        11,
        a.uid,
        12,
        a.uid,
        13,
        a.gid,
        14,
        a.gid,
        23,
        0,
        25,
        random,
        16,
        0x112d,
        17,
        100,
        15,
        platform,
        31,
        execfn,
        0,
        0,
    ];
    proof {
        assert(ints(r@) =~= aux_words(*a, random as int, platform as int, execfn as int));
    }
    r
}

/// Builds the stack with which a program starts, below `top`; gives the stack
/// pointer. `random` are random bytes for the program's use.
pub fn build_stack(
    mem: &mut UserMem,
    top: usize,
    path: &Vec<u8>,
    argv: &Vec<Vec<u8>>,
    envp: &Vec<Vec<u8>>,
    a: &Aux,
    random: &Vec<u8>,
) -> (r: Result<usize, i32>)
    ensures
        ({
            let b = stack(
                old(mem)@,
                top,
                path@,
                texts(argv@),
                texts(envp@),
                *a,
                random@,
            );
            match r {
                Ok(sp) => b.ok && b.sp == sp && b.mem == final(mem)@,
                Err(e) => !b.ok && e == EFAULT && b.mem == final(mem)@,
            }
        }),
{
    let ghost m = mem@;
    let ghost s = strings(m, top, path@, texts(argv@), texts(envp@));
    let p: Vec<u8> = with_zero(path);
    let ghost b0 = Build { ok: true, sp: top as int, mem: m };
    let ghost b1 = push(b0, cstr(path@));
    let ghost b2 = push(b1, platform_name());
    let ghost e3 = push_all(b2, texts(envp@));
    let execfn: usize = match push_bytes(mem, top, &p) {
        Ok(v) => v,
        Err(e) => {
            proof {
                lemma_failed(b2, texts(envp@));
                lemma_failed(e3.0, texts(argv@));
            }
            return Err(e);
        },
    };
    let name: Vec<u8> = vec![114, 105, 115, 99, 118, 54, 52, 0];
    proof {
        assert(name@ =~= platform_name());
    }
    let platform: usize = match push_bytes(mem, execfn, &name) {
        Ok(v) => v,
        Err(e) => {
            proof {
                lemma_failed(b2, texts(envp@));
                lemma_failed(e3.0, texts(argv@));
            }
            return Err(e);
        },
    };
    let (sp3, env): (usize, Vec<usize>) = match push_strings(mem, platform, envp) {
        Ok(v) => v,
        Err(e) => {
            proof {
                lemma_failed(e3.0, texts(argv@));
            }
            return Err(e);
        },
    };
    let (sp4, args): (usize, Vec<usize>) = match push_strings(mem, sp3, argv) {
        Ok(v) => v,
        Err(e) => {
            return Err(e);
        },
    };
    let sp5: usize = sp4 / 16 * 16;
    let rnd: usize = match push_bytes(mem, sp5, random) {
        Ok(v) => v,
        Err(e) => {
            return Err(e);
        },
    };
    let sp6: usize = rnd / 16 * 16;
    let aux: Vec<usize> = aux_vec(a, rnd, platform, execfn);
    let ghost words = block(
        ints(args@),
        ints(env@),
        aux_words(*a, rnd as int, platform as int, execfn as int),
    );
    let mut bytes: Vec<u8> = Vec::new();
    let argc: Vec<usize> = vec![args.len()];
    let zero: Vec<usize> = vec![0];
    let ghost w0 = Seq::<int>::empty();
    let ghost w1 = seq![args@.len() as int];
    let ghost w2 = w1 + ints(args@);
    let ghost w3 = w2 + seq![0int];
    let ghost w4 = w3 + ints(env@);
    let ghost w5 = w4 + seq![0int];
    proof {
        assert(w0 + ints(argc@) =~= w1);
        assert(ints(zero@) =~= seq![0int]);
    }
    put_words(&mut bytes, &argc, Ghost(w0));
    put_words(&mut bytes, &args, Ghost(w1));
    put_words(&mut bytes, &zero, Ghost(w2));
    put_words(&mut bytes, &env, Ghost(w3));
    put_words(&mut bytes, &zero, Ghost(w4));
    put_words(&mut bytes, &aux, Ghost(w5));
    proof {
        assert(ints(args@).len() == args@.len());
        assert(bytes@ == word_bytes(words));
    }
    if bytes.len() > sp6 {
        return Err(EFAULT);
    }
    let at: usize = (sp6 - bytes.len()) / 16 * 16;
    match mem.copy_to_user(at, &bytes) {
        Ok(_) => Ok(at),
        Err(e) => Err(e),
    }
}

/// Memory `n` is `m` from address `sp` on.
pub open spec fn same_above(m: Map<int, u8>, n: Map<int, u8>, sp: int) -> bool {
    &&& forall|a: int| #[trigger] n.dom().contains(a) == m.dom().contains(a)
    &&& forall|a: int| sp <= a && m.dom().contains(a) ==> #[trigger] n[a] == m[a]
}

proof fn lemma_push(b: Build, s: Seq<u8>)
    requires
        push(b, s).ok,
    ensures
        b.ok,
        push(b, s).sp == b.sp - s.len(),
        push(b, s).sp >= 0,
        same_above(b.mem, push(b, s).mem, b.sp),
        mapped(push(b, s).mem, push(b, s).sp, s.len() as int),
        bytes_at(push(b, s).mem, push(b, s).sp, s.len() as int) == s,
{
    let c = push(b, s);
    lemma_mapped_stored(b.mem, c.sp, s);
    assert(bytes_at(c.mem, c.sp, s.len() as int) =~= s) by {
        assert forall|i: int| 0 <= i < s.len() implies c.mem[c.sp + i] == s[i] by {
            assert(b.mem.dom().contains(c.sp + i));
        }
    }
}

proof fn lemma_kept(m: Map<int, u8>, n: Map<int, u8>, sp: int, at: int, len: int)
    requires
        same_above(m, n, sp),
        sp <= at,
        mapped(m, at, len),
    ensures
        mapped(n, at, len),
        len >= 0 ==> bytes_at(n, at, len) == bytes_at(m, at, len),
{
    assert forall|a: int| at <= a < at + len implies #[trigger] n.dom().contains(a) by {
        assert(m.dom().contains(a));
    }
    if len >= 0 {
        assert(bytes_at(n, at, len) =~= bytes_at(m, at, len)) by {
            assert forall|i: int| 0 <= i < len implies bytes_at(n, at, len)[i] == bytes_at(
                m,
                at,
                len,
            )[i] by {
                assert(m.dom().contains(at + i));
            }
        }
    }
}

proof fn lemma_above(a: Map<int, u8>, b: Map<int, u8>, c: Map<int, u8>, x: int, y: int)
    requires
        same_above(a, b, x),
        same_above(b, c, y),
        y <= x,
    ensures
        same_above(a, c, x),
{
    assert forall|k: int| x <= k && a.dom().contains(k) implies #[trigger] c[k] == a[k] by {
        assert(b.dom().contains(k));
        assert(b[k] == a[k]);
    }
    assert forall|k: int| #[trigger] c.dom().contains(k) == a.dom().contains(k) by {
        assert(b.dom().contains(k) == a.dom().contains(k));
    }
}

/// String `s` with its final zero is at address `a` of memory `m`.
pub open spec fn string_at(m: Map<int, u8>, a: int, s: Seq<u8>) -> bool {
    mapped(m, a, s.len() as int + 1) && bytes_at(m, a, s.len() as int + 1) == cstr(s)
}

proof fn lemma_push_all(b: Build, l: Seq<Seq<u8>>)
    requires
        push_all(b, l).0.ok,
    ensures
        b.ok,
        push_all(b, l).1.len() == l.len(),
        push_all(b, l).0.sp + l.len() <= b.sp,
        l.len() > 0 ==> push_all(b, l).0.sp >= 0,
        same_above(b.mem, push_all(b, l).0.mem, b.sp),
        forall|i: int|
            0 <= i < l.len() ==> push_all(b, l).0.sp <= #[trigger] push_all(b, l).1[i] < b.sp
                && string_at(push_all(b, l).0.mem, push_all(b, l).1[i], l[i]),
    decreases l.len(),
{
    if l.len() > 0 {
        let s = cstr(l.last());
        let c = push(b, s);
        let d = l.drop_last();
        let r = push_all(c, d);
        lemma_push_all(c, d);
        lemma_push(b, s);
        lemma_above(b.mem, c.mem, r.0.mem, b.sp, c.sp);
        lemma_kept(c.mem, r.0.mem, c.sp, c.sp, s.len() as int);
        let p = push_all(b, l);
        assert forall|i: int| 0 <= i < l.len() implies p.0.sp <= #[trigger] p.1[i] < b.sp
            && string_at(p.0.mem, p.1[i], l[i]) by {
            if i < d.len() {
                assert(p.1[i] == r.1[i]);
                assert(d[i] == l[i]);
            } else {
                assert(p.1[i] == c.sp);
            }
        }
    }
}

proof fn lemma_word_at(l: Seq<int>, k: int)
    requires
        0 <= k < l.len(),
    ensures
        word_bytes(l).len() == 8 * l.len(),
        word_bytes(l).subrange(8 * k, 8 * k + 8) == le(l[k] as nat, 8),
    decreases l.len(),
{
    let d = l.drop_last();
    lemma_words_len(l);
    lemma_words_len(d);
    lemma_le_len(l.last() as nat, 8);
    let w = word_bytes(l);
    if k == l.len() - 1 {
        assert(w.subrange(8 * k, 8 * k + 8) =~= le(l[k] as nat, 8));
    } else {
        lemma_word_at(d, k);
        assert(d[k] == l[k]);
        assert(w.subrange(8 * k, 8 * k + 8) =~= word_bytes(d).subrange(8 * k, 8 * k + 8));
    }
}

/// How the stack of a program is laid out: the words at its end can be read
/// back, and the strings and random bytes above them are as they were pushed.
#[verifier::rlimit(30)]
proof fn lemma_layout(
    m: Map<int, u8>,
    top: usize,
    path: Seq<u8>,
    argv: Seq<Seq<u8>>,
    envp: Seq<Seq<u8>>,
    a: Aux,
    random: Seq<u8>,
)
    requires
        stack(m, top, path, argv, envp, a, random).ok,
    ensures
        ({
            let b = stack(m, top, path, argv, envp, a, random);
            let s = strings(m, top, path, argv, envp);
            let r = push(aligned(s.0), random);
            let words = block(s.4, s.3, aux_words(a, r.sp, s.2, s.1));
            &&& r.ok
            &&& b.sp % 16 == 0
            &&& 0 <= r.sp <= s.0.sp
            &&& forall|k: int|
                0 <= k < words.len() && 0 <= #[trigger] words[k] <= usize::MAX ==> num_at(
                    b.mem,
                    b.sp + 8 * k,
                    8,
                ) == words[k]
            &&& same_above(s.0.mem, b.mem, s.0.sp)
            &&& same_above(r.mem, b.mem, r.sp)
        }),
{
    let b = stack(m, top, path, argv, envp, a, random);
    let s = strings(m, top, path, argv, envp);
    let al = aligned(s.0);
    let r = push(al, random);
    let q = aligned(r);
    let words = block(s.4, s.3, aux_words(a, r.sp, s.2, s.1));
    let bytes = word_bytes(words);
    let at = (q.sp - bytes.len()) / 16 * 16;
    assert(r.ok);
    lemma_push(al, random);
    lemma_words_len(words);
    assert(bytes.len() > 0);
    assert(at + bytes.len() <= q.sp <= r.sp <= al.sp <= s.0.sp);
    lemma_mapped_stored(q.mem, at, bytes);
    assert(same_above(q.mem, b.mem, q.sp)) by {
        assert forall|x: int| q.sp <= x && q.mem.dom().contains(x) implies #[trigger] b.mem[x]
            == q.mem[x] by {}
    }
    assert(same_above(r.mem, b.mem, r.sp)) by {
        assert forall|x: int| r.sp <= x && r.mem.dom().contains(x) implies #[trigger] b.mem[x]
            == r.mem[x] by {
            assert(q.mem.dom().contains(x));
        }
    }
    lemma_above(al.mem, r.mem, b.mem, al.sp, q.sp);
    assert(same_above(s.0.mem, b.mem, s.0.sp)) by {
        assert forall|x: int| s.0.sp <= x && s.0.mem.dom().contains(x) implies #[trigger] b.mem[x]
            == s.0.mem[x] by {
            assert(b.mem[x] == al.mem[x]);
        }
    }
    assert forall|k: int| 0 <= k < words.len() && 0 <= #[trigger] words[k] <= usize::MAX implies num_at(
        b.mem,
        b.sp + 8 * k,
        8,
    ) == words[k] by {
        lemma_word_at(words, k);
        crate::bytes::lemma_span();
        crate::bytes::from_le_of_le(words[k] as nat, 8);
        lemma_le_len(words[k] as nat, 8);
        let x = bytes_at(b.mem, b.sp + 8 * k, 8);
        assert(x =~= bytes.subrange(8 * k, 8 * k + 8)) by {
            assert forall|j: int| 0 <= j < 8 implies x[j] == bytes[8 * k + j] by {
                assert(q.mem.dom().contains(at + (8 * k + j)));
            }
        }
    }
}

/// A program finds its arguments: the stack pointer is a multiple of 16; the
/// word there is the number of arguments, and the words behind it are the
/// addresses of the arguments and, after a zero, of the environment, which
/// another zero ends.
pub proof fn program_finds_arguments(
    m: Map<int, u8>,
    top: usize,
    path: Seq<u8>,
    argv: Seq<Seq<u8>>,
    envp: Seq<Seq<u8>>,
    a: Aux,
    random: Seq<u8>,
)
    requires
        stack(m, top, path, argv, envp, a, random).ok,
    ensures
        ({
            let b = stack(m, top, path, argv, envp, a, random);
            let n = argv.len() as int;
            &&& b.sp % 16 == 0
            &&& num_at(b.mem, b.sp, 8) == n
            &&& forall|i: int|
                0 <= i < n ==> string_at(
                    b.mem,
                    num_at(b.mem, b.sp + 8 * (1 + i), 8) as int,
                    #[trigger] argv[i],
                )
            &&& num_at(b.mem, b.sp + 8 * (1 + n), 8) == 0
            &&& forall|i: int|
                0 <= i < envp.len() ==> string_at(
                    b.mem,
                    num_at(b.mem, b.sp + 8 * (2 + n + i), 8) as int,
                    #[trigger] envp[i],
                )
            &&& num_at(b.mem, b.sp + 8 * (2 + n + envp.len()), 8) == 0
        }),
{
    let b = stack(m, top, path, argv, envp, a, random);
    let n = argv.len() as int;
    let en = envp.len() as int;
    let b0 = Build { ok: true, sp: top as int, mem: m };
    let b1 = push(b0, cstr(path));
    let b2 = push(b1, platform_name());
    let e = push_all(b2, envp);
    let g = push_all(e.0, argv);
    let r = push(aligned(g.0), random);
    let words = block(g.1, e.1, aux_words(a, r.sp, b2.sp, b1.sp));
    lemma_layout(m, top, path, argv, envp, a, random);
    lemma_push_all(e.0, argv);
    lemma_push_all(b2, envp);
    lemma_push(b1, platform_name());
    lemma_push(b0, cstr(path));
    assert(words[0] == n);
    assert(n <= usize::MAX);
    assert(num_at(b.mem, b.sp + 8 * 0, 8) == n);
    assert(words[1 + n] == 0);
    assert(words[2 + n + en] == 0);
    assert forall|i: int| 0 <= i < n implies string_at(
        b.mem,
        num_at(b.mem, b.sp + 8 * (1 + i), 8) as int,
        #[trigger] argv[i],
    ) by {
        assert(words[1 + i] == g.1[i]);
        let p = g.1[i];
        assert(g.0.sp <= p < e.0.sp && string_at(g.0.mem, p, argv[i]));
        assert(0 <= p <= usize::MAX);
        lemma_kept(g.0.mem, b.mem, g.0.sp, p, argv[i].len() as int + 1);
    }
    assert forall|i: int| 0 <= i < envp.len() implies string_at(
        b.mem,
        num_at(b.mem, b.sp + 8 * (2 + n + i), 8) as int,
        #[trigger] envp[i],
    ) by {
        assert(words[2 + n + i] == e.1[i]);
        let p = e.1[i];
        assert(e.0.sp <= p < b2.sp && string_at(e.0.mem, p, envp[i]));
        lemma_kept(e.0.mem, g.0.mem, e.0.sp, p, envp[i].len() as int + 1);
        lemma_kept(g.0.mem, b.mem, g.0.sp, p, envp[i].len() as int + 1);
    }
}

/// A program finds its auxiliary vector behind the zero that ends the
/// environment; it leads to the random bytes, the name of the platform and the
/// path of the program.
pub proof fn program_finds_auxiliary(
    m: Map<int, u8>,
    top: usize,
    path: Seq<u8>,
    argv: Seq<Seq<u8>>,
    envp: Seq<Seq<u8>>,
    a: Aux,
    random: Seq<u8>,
    i: int,
)
    requires
        stack(m, top, path, argv, envp, a, random).ok,
        0 <= i < 36,
    ensures
        ({
            let b = stack(m, top, path, argv, envp, a, random);
            let s = strings(m, top, path, argv, envp);
            let r = push(aligned(s.0), random);
            let aux = aux_words(a, r.sp, s.2, s.1);
            &&& aux.len() == 36
            &&& num_at(b.mem, b.sp + 8 * (3 + argv.len() + envp.len() + i), 8) == aux[i]
            &&& bytes_at(b.mem, r.sp, random.len() as int) == random
            &&& bytes_at(b.mem, s.2, 8) == platform_name()
            &&& string_at(b.mem, s.1, path)
        }),
{
    let b = stack(m, top, path, argv, envp, a, random);
    let n = argv.len() as int;
    let en = envp.len() as int;
    let b0 = Build { ok: true, sp: top as int, mem: m };
    let b1 = push(b0, cstr(path));
    let b2 = push(b1, platform_name());
    let e = push_all(b2, envp);
    let g = push_all(e.0, argv);
    let r = push(aligned(g.0), random);
    let aux = aux_words(a, r.sp, b2.sp, b1.sp);
    let words = block(g.1, e.1, aux);
    lemma_layout(m, top, path, argv, envp, a, random);
    lemma_push(aligned(g.0), random);
    lemma_push_all(e.0, argv);
    lemma_push_all(b2, envp);
    lemma_push(b1, platform_name());
    lemma_push(b0, cstr(path));
    assert(words[3 + n + en + i] == aux[i]);
    assert(0 <= r.sp <= g.0.sp <= e.0.sp <= b2.sp <= b1.sp <= top);
    assert(0 <= aux[i] <= usize::MAX);
    lemma_kept(r.mem, b.mem, r.sp, r.sp, random.len() as int);
    lemma_kept(b2.mem, e.0.mem, b2.sp, b2.sp, 8);
    lemma_kept(e.0.mem, g.0.mem, e.0.sp, b2.sp, 8);
    lemma_kept(g.0.mem, b.mem, g.0.sp, b2.sp, 8);
    let pl = path.len() as int + 1;
    lemma_kept(b1.mem, b2.mem, b1.sp, b1.sp, pl);
    lemma_kept(b2.mem, e.0.mem, b2.sp, b1.sp, pl);
    lemma_kept(e.0.mem, g.0.mem, e.0.sp, b1.sp, pl);
    lemma_kept(g.0.mem, b.mem, g.0.sp, b1.sp, pl);
}

/// The actions of a task that starts a program: all go back to the default but
/// those that ignore a signal.
pub open spec fn actions_kept(l: Seq<KSigAction>) -> Seq<KSigAction> {
    Seq::new(
        l.len(),
        |i: int|
            if l[i].handler == SIG_IGN {
                l[i]
            } else {
                KSigAction { handler: 0, flags: 0, mask: 0 }
            },
    )
}

/// A program that is ready to run in its address space.
pub struct ExecImage {
    pub entry: usize,
    pub sp: usize,
    pub path: Vec<u8>,
}

/// Makes a task run a new program: the descriptors marked for it are closed,
/// signal handlers and the alternate stack go, and it starts at the entry of
/// the image with the image's stack pointer.
pub fn commit(
    t: &mut TaskCtl,
    fds: &mut FdTable,
    img: ExecImage,
    name: Vec<u8>,
    kernel_sp: usize,
) -> (tf: TrapFrame)
    requires
        old(t).wf(),
        old(fds).wf(),
    ensures
        final(t).wf(),
        final(fds).wf(),
        final(fds).limit == old(fds).limit,
        final(fds).entries@ == kept_on_exec(old(fds).entries@),
        final(t).actions@ == actions_kept(old(t).actions@),
        *final(t) == (TaskCtl {
            actions: final(t).actions,
            name,
            exe_path: img.path,
            altstack: (StackT { sp: 0, flags: 0, size: 0 }),
            clear_child_tid: 0,
            robust_list: 0,
            ..*old(t)
        }),
        tf.sepc == img.entry,
        tf.x@[2] == img.sp,
        forall|i: int| 0 <= i < 32 && i != 2 ==> tf.x@[i] == 0,
        tf.sstatus == SSTATUS_SPIE | SSTATUS_FS_INITIAL | SSTATUS_SUM,
        tf.kernel_sp == kernel_sp,
        forall|i: int| 0 <= i < 32 ==> tf.f@[i] == 0,
        tf.fcsr == 0,
{
    fds.close_on_exec();
    let ghost l = t.actions@;
    let n: usize = t.actions.len();
    let mut i: usize = 0;
    while i < n
        invariant
            i <= n == t.actions@.len(),
            n == l.len(),
            *t == (TaskCtl { actions: t.actions, ..*old(t) }),
            forall|j: int| 0 <= j < i ==> #[trigger] t.actions@[j] == actions_kept(l)[j],
            forall|j: int| i <= j < n ==> #[trigger] t.actions@[j] == l[j],
        decreases n - i,
    {
        assert(t.actions@[i as int] == l[i as int]);
        if t.actions[i].handler != SIG_IGN as u64 {
            t.actions.set(i, KSigAction { handler: 0, flags: 0, mask: 0 });
        }
        i = i + 1;
    }
    proof {
        assert(t.actions@ =~= actions_kept(l));
    }
    t.name = name;
    t.exe_path = img.path;
    t.altstack = StackT { sp: 0, flags: 0, size: 0 };
    t.clear_child_tid = 0;
    t.robust_list = 0;
    TrapFrame::new_user(img.entry, img.sp, kernel_sp)
}

/// What comes after the last slash of a path.
pub open spec fn last_part(s: Seq<u8>) -> Seq<u8>
    decreases s.len(),
{
    if s.len() == 0 || s.last() == 47 {
        Seq::empty()
    } else {
        last_part(s.drop_last()).push(s.last())
    }
}

/// The name of a task that runs the program at a path.
pub fn program_name(path: &Vec<u8>) -> (r: Vec<u8>)
    ensures
        r@ == last_part(path@),
{
    let n: usize = path.len();
    let mut from: usize = n;
    let ghost p = path@;
    proof {
        assert(p.take(n as int) =~= p);
        assert(p.subrange(n as int, n as int) =~= Seq::empty());
        assert(last_part(p) + Seq::<u8>::empty() =~= last_part(p));
    }
    while from > 0 && path[from - 1] != 47
        invariant
            from <= n == path@.len(),
            p == path@,
            last_part(p) == last_part(p.take(from as int)) + p.subrange(from as int, n as int),
        decreases from,
    {
        proof {
            let a = p.take(from as int);
            assert(a.drop_last() =~= p.take(from - 1));
            assert(last_part(a) + p.subrange(from as int, n as int) =~= last_part(a.drop_last())
                + p.subrange(from - 1, n as int));
        }
        from = from - 1;
    }
    proof {
        assert(last_part(p.take(from as int)) =~= Seq::empty());
        assert(last_part(p) =~= p.subrange(from as int, n as int));
    }
    copy_part(path, from, n)
}

/// The vector at `at` has an entry of a kind with a value.
pub open spec fn tells(m: Map<int, u8>, at: int, kind: int, value: int) -> bool {
    exists|j: int|
        0 <= j < 18 && #[trigger] num_at(m, at + 16 * j, 8) == kind && num_at(m, at + 16 * j + 8, 8)
            == value
}

/// What the loader of a program asks of the auxiliary vector is there: the program
/// headers (3), their size (4) and number (5), the size of a page (6), its own base
/// (7), the entry of the program (9), the user and group (11 to 14), and where the
/// random bytes (25) and the path (31) are; a zero ends the vector.
pub proof fn loader_finds_the_program(
    m: Map<int, u8>,
    top: usize,
    path: Seq<u8>,
    argv: Seq<Seq<u8>>,
    envp: Seq<Seq<u8>>,
    a: Aux,
    random: Seq<u8>,
)
    requires
        stack(m, top, path, argv, envp, a, random).ok,
    ensures
        ({
            let b = stack(m, top, path, argv, envp, a, random);
            let at = b.sp + 8 * (3 + argv.len() + envp.len());
            &&& tells(b.mem, at, 3, a.phdr as int)
            &&& tells(b.mem, at, 4, 56)
            &&& tells(b.mem, at, 5, a.phnum as int)
            &&& tells(b.mem, at, 6, 4096)
            &&& tells(b.mem, at, 7, a.base as int)
            &&& tells(b.mem, at, 9, a.entry as int)
            &&& tells(b.mem, at, 11, a.uid as int) && tells(b.mem, at, 12, a.uid as int)
            &&& tells(b.mem, at, 13, a.gid as int) && tells(b.mem, at, 14, a.gid as int)
            &&& exists|p: int|
                #[trigger] tells(b.mem, at, 25, p) && bytes_at(b.mem, p, random.len() as int)
                    == random
            &&& exists|p: int| #[trigger] tells(b.mem, at, 31, p) && string_at(b.mem, p, path)
            &&& num_at(b.mem, at + 16 * 17, 8) == 0
        }),
{
    let b = stack(m, top, path, argv, envp, a, random);
    let at = b.sp + 8 * (3 + argv.len() + envp.len());
    let s = strings(m, top, path, argv, envp);
    let r = push(aligned(s.0), random);
    let aux = aux_words(a, r.sp, s.2, s.1);
    assert forall|i: int| 0 <= i < 36 implies #[trigger] num_at(b.mem, at + 8 * i, 8) == aux[i] by {
        program_finds_auxiliary(m, top, path, argv, envp, a, random, i);
        assert(b.sp + 8 * (3 + argv.len() + envp.len() + i) == at + 8 * i);
    }
    program_finds_auxiliary(m, top, path, argv, envp, a, random, 0);
    lemma_tells(b.mem, at, aux, 0);
    lemma_tells(b.mem, at, aux, 1);
    lemma_tells(b.mem, at, aux, 2);
    lemma_tells(b.mem, at, aux, 3);
    lemma_tells(b.mem, at, aux, 4);
    lemma_tells(b.mem, at, aux, 6);
    lemma_tells(b.mem, at, aux, 7);
    lemma_tells(b.mem, at, aux, 8);
    lemma_tells(b.mem, at, aux, 9);
    lemma_tells(b.mem, at, aux, 10);
    lemma_tells(b.mem, at, aux, 12);
    lemma_tells(b.mem, at, aux, 16);
    assert(num_at(b.mem, at + 8 * 34, 8) == aux[34]);
    assert(tells(b.mem, at, 25, r.sp) && bytes_at(b.mem, r.sp, random.len() as int) == random);
    assert(tells(b.mem, at, 31, s.1) && string_at(b.mem, s.1, path));
}

proof fn lemma_tells(m: Map<int, u8>, at: int, aux: Seq<int>, j: int)
    requires
        0 <= j < 18,
        forall|i: int| 0 <= i < 36 ==> #[trigger] num_at(m, at + 8 * i, 8) == aux[i],
    ensures
        tells(m, at, aux[2 * j], aux[2 * j + 1]),
{
    assert(num_at(m, at + 8 * (2 * j), 8) == aux[2 * j]);
    assert(num_at(m, at + 8 * (2 * j + 1), 8) == aux[2 * j + 1]);
    assert(at + 8 * (2 * j) == at + 16 * j);
    assert(at + 8 * (2 * j + 1) == at + 16 * j + 8);
    assert(num_at(m, at + 16 * j, 8) == aux[2 * j]);
}

/// A script's interpreter is run with its own name, what else the line says, then
/// the script, then the script's own arguments in their order.
pub proof fn interpreter_gets_the_script(w: Seq<Seq<u8>>, path: Seq<u8>, argv: Seq<Seq<u8>>, i: int)
    requires
        w.len() > 0,
        1 <= i < argv.len(),
    ensures
        ({
            let a = script_args(w, path, argv);
            let k: int = if w.len() > 1 {
                2
            } else {
                1
            };
            &&& a[0] == w[0]
            &&& w.len() == 2 ==> a[1] == w[1]
            &&& a[k] == path
            &&& a.len() == k + argv.len()
            &&& a[k + i] == argv[i]
        }),
{
    if w.len() > 1 {
        assert(joined(w, 1) == (if w.len() == 2 {
            w[1]
        } else {
            w[1] + seq![32u8] + joined(w, 2)
        }));
    }
}

/// A new program starts with the signals ignored that were ignored, and with no
/// handler.
pub proof fn no_handler_survives(l: Seq<KSigAction>, i: int)
    requires
        0 <= i < l.len(),
    ensures
        actions_kept(l)[i].handler == (if l[i].handler == 1 {
            1u64
        } else {
            0
        }),
{
}

/// The name of a program is what follows the last slash of its path.
pub proof fn name_follows_last_slash(s: Seq<u8>)
    ensures
        !last_part(s).contains(47u8),
        last_part(s).len() <= s.len(),
        s.skip(s.len() - last_part(s).len()) == last_part(s),
        last_part(s).len() < s.len() ==> s[s.len() - last_part(s).len() - 1] == 47,
    decreases s.len(),
{
    let n = last_part(s);
    if s.len() == 0 || s.last() == 47 {
        assert(s.skip(s.len() as int) =~= n);
    } else {
        let p = s.drop_last();
        name_follows_last_slash(p);
        let q = last_part(p);
        assert(n == q.push(s.last()));
        assert(p.skip(p.len() - q.len()) == q);
        assert(s.skip(s.len() - n.len()) =~= n) by {
            assert forall|i: int| 0 <= i < q.len() implies s[s.len() - n.len() + i] == q[i] by {
                assert(p.skip(p.len() - q.len())[i] == p[p.len() - q.len() + i]);
            }
        }
        if n.contains(47u8) {
            let i = choose|i: int| 0 <= i < n.len() && n[i] == 47;
            assert(i < q.len());
            assert(q[i] == 47);
        }
    }
}

/// A script begins with `#!`, and its first line ends at the first newline.
pub proof fn script_line_ends(s: Seq<u8>, i: int)
    requires
        0 <= i <= s.len(),
    ensures
        is_script(s) <==> s.len() >= 2 && s[0] == 0x23 && s[1] == 0x21,
        i <= line_end(s, i) <= s.len(),
        forall|k: int| i <= k < line_end(s, i) ==> #[trigger] s[k] != 10,
        line_end(s, i) < s.len() ==> s[line_end(s, i)] == 10,
    decreases s.len() - i,
{
    if i < s.len() && s[i] != 10 {
        script_line_ends(s, i + 1);
    }
}

/// A line is split at its spaces: a word goes on to the next space or to the end,
/// holds none, and the words behind it follow; spaces and tabs are passed over.
pub proof fn words_end_at_spaces(s: Seq<u8>, i: int)
    requires
        0 <= i < s.len(),
    ensures
        s[i] == 32 || s[i] == 9 ==> words(s, i) == words(s, i + 1),
        white(s, i) == 0 ==> {
            let e = word_end(s, i);
            &&& i < e <= s.len()
            &&& words(s, i).len() > 0
            &&& words(s, i)[0] == s.subrange(i, e)
            &&& words(s, i).skip(1) == words(s, e)
            &&& forall|k: int| i <= k < e ==> #[trigger] s[k] != 32 && s[k] != 9
            &&& e < s.len() ==> white(s, e) > 0
        },
{
    if white(s, i) == 0 {
        lemma_word_end(s, i);
        lemma_no_space(s, i);
        let e = word_end(s, i);
        assert(words(s, i).skip(1) =~= words(s, e));
    }
}

proof fn lemma_no_space(s: Seq<u8>, i: int)
    requires
        0 <= i <= s.len(),
    ensures
        forall|k: int| i <= k < word_end(s, i) ==> #[trigger] s[k] != 32 && s[k] != 9,
        word_end(s, i) < s.len() ==> white(s, word_end(s, i)) > 0,
    decreases s.len() - i,
{
    if i < s.len() && white(s, i) == 0 {
        lemma_no_space(s, i + 1);
        assert(s[i] != 32 && s[i] != 9);
    }
}

} // verus!
