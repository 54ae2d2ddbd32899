//! File systems, programs and the calls on files, directories and readiness.

use ijiege::file::{FdTable, OpenFile};
use ijiege::paths::{join_path, normalize_path, split_path};
use ijiege::ramfs::{Meta, Node, NodeKind, Nodes};
use ijiege::syscall::fs as calls;
use ijiege::syscall::fs::{Control, Ctx, Slot, Start};
use ijiege::syscall::fsio;
use ijiege::syscall::fsio::{Plan, SendWrite};
use ijiege::syscall::net as sockets;
use ijiege::syscall::net::{Received, SockKind};
use ijiege::syscall::select;
use ijiege::syscall::select::{Event, Sets, Wait};
use ijiege::syscall::transfer::Dirent;
use ijiege::net::socket::SockAddr;
use ijiege::task::elf;
use ijiege::task::exec;
use ijiege::task::exec::{Aux, Image};
use ijiege::uaccess::UserMem;
use ijiege::vfs;
use ijiege::vfs::{FileData, TarKind, Vfs};

fn memory() -> UserMem {
    let mut m = UserMem::new();
    m.add_area(0x1000, vec![0; 0x1000]);
    m
}

fn text(m: &mut UserMem, at: usize, s: &[u8]) {
    assert_eq!(m.copy_to_user(at, s), Ok(()));
}

fn num(m: &mut UserMem, at: usize, x: u64, n: usize) {
    assert_eq!(m.write_num(at, x, n), Ok(()));
}

fn tar_entry(name: &str, kind: u8, link: &str, data: &[u8]) -> Vec<u8> {
    let mut h = vec![0u8; 512];
    h[..name.len()].copy_from_slice(name.as_bytes());
    h[100..107].copy_from_slice(b"0000755");
    let size = format!("{:011o}", data.len());
    h[124..135].copy_from_slice(size.as_bytes());
    h[156] = kind;
    h[157..157 + link.len()].copy_from_slice(link.as_bytes());
    h[257..262].copy_from_slice(b"ustar");
    h.extend_from_slice(data);
    while h.len() % 512 != 0 {
        h.push(0);
    }
    h
}

fn archive() -> Vfs {
    let mut t = tar_entry("./etc/", b'5', "", b"");
    t.extend(tar_entry("./etc/motd", b'0', "", b"welcome"));
    t.extend(tar_entry("/link", b'2', "etc/motd", b""));
    t.extend(vec![0; 1024]);
    let rootfs = vfs::init(&t);
    Vfs { rootfs, tmp: Vec::new(), files: Vec::new(), dirs: Vec::new() }
}

fn path(s: &str) -> Vec<u8> {
    s.as_bytes().to_vec()
}

#[test]
fn an_archive_is_read() {
    let fs = archive();
    assert_eq!(fs.rootfs.len(), 3);
    assert_eq!((&fs.rootfs[1].name[..], &fs.rootfs[1].data[..]), (&b"etc/motd"[..], &b"welcome"[..]));
    assert!(fs.rootfs[2].kind == TarKind::Symlink);
    assert_eq!(vfs::parse_octal(b"0000755\0"), 0o755);
    assert_eq!(vfs::parse_octal(&[0x80, 0, 0, 0, 0, 0, 0, 0, 0, 0, 1, 2]), 0x102);
    let root = path("/");
    let m = vfs::stat_path(&fs, &root, &path("/etc/motd"));
    assert!(m.exists && !m.is_dir);
    assert_eq!((m.size, m.mode), (7, 0o755));
    assert!(vfs::stat_path(&fs, &root, &path("/etc")).is_dir);
    assert!(!vfs::stat_path(&fs, &root, &path("/nothing")).exists);
    assert_eq!(vfs::open_read(&fs, &root, &path("/etc/motd")), Some((FileData::Static(1), 0o755)));
    assert_eq!(vfs::open_read(&fs, &path("/etc"), &path("motd")), Some((FileData::Static(1), 0o755)));
    assert_eq!(vfs::open_read(&fs, &root, &path("/etc")), None);
    assert_eq!(vfs::open_read(&fs, &root, &path("/link")), Some((FileData::Static(1), 0o755)));
}

#[test]
fn names_that_are_no_text_are_dropped() {
    let mut t = tar_entry("ok", b'0', "", b"1");
    t[1] = 0xff;
    t.extend(tar_entry("fine", b'0', "", b"2"));
    let l = vfs::init(&t);
    assert_eq!((l[0].name.len(), l[1].name.clone()), (0, path("fine")));
}

#[test]
fn written_files_are_found_and_removed() {
    let mut fs = archive();
    let root = path("/");
    let k = vfs::create_write(&mut fs, &root, &path("/run/pid"), true);
    fs.files[k] = b"42".to_vec();
    assert_eq!(vfs::open_read(&fs, &root, &path("/run/pid")), Some((FileData::Tmp(k), 0o644)));
    assert_eq!(vfs::create_write(&mut fs, &root, &path("/run/pid"), false), k);
    assert_eq!(fs.files[k], b"42");
    vfs::create_write(&mut fs, &root, &path("/run/pid"), true);
    assert!(fs.files[k].is_empty());
    vfs::mkdir(&mut fs, &root, &path("/var"));
    assert!(vfs::stat_path(&fs, &root, &path("/var")).is_dir);
    let l = vfs::list_dir(&fs, &root, &path("/"));
    assert_eq!(l, vec![(path("etc"), true), (path("link"), false), (path("var"), true)]);
    let l = vfs::list_dir(&fs, &root, &path("/etc"));
    assert_eq!(l, vec![(path("motd"), false)]);
    assert!(vfs::unlink(&mut fs, &root, &path("/run/pid")));
    assert_eq!(vfs::open_read(&fs, &root, &path("/run/pid")), None);
    assert!(!vfs::unlink(&mut fs, &root, &path("/run/pid")));
}

#[test]
fn paths_are_normalized() {
    assert_eq!(normalize_path(b"/a/./b//../c"), b"a/c");
    assert_eq!(normalize_path(&normalize_path(b"/a/./b//../c")), b"a/c");
    assert_eq!(split_path(b"/a//b"), vec![path(""), path("a"), path(""), path("b")]);
    for part in split_path(&normalize_path(b"../x/./y/..//z")) {
        assert!(!part.is_empty() && part != b"." && part != b"..");
    }
    assert_eq!(join_path(&vec![path("a"), path("b")]), b"a/b");
}

fn node(name: &str, kind: NodeKind) -> Node {
    Node {
        name: path(name),
        meta: Meta { mode: 0o755, uid: 0, gid: 0, atime: 0, mtime: 0, ctime: 0 },
        kind,
    }
}

fn context() -> Ctx {
    Ctx {
        fds: FdTable::new(64),
        files: Vec::new(),
        nodes: Nodes { list: vec![node("", NodeKind::Dir(Vec::new()))] },
        cwd: 0,
        umask: 0o22,
        exe_path: path("/bin/app"),
    }
}

fn slot(name: &str) -> Result<Slot, i32> {
    Ok(Slot { dir: 0, name: path(name) })
}

fn open(node: Option<usize>) -> OpenFile {
    OpenFile { flags: 2, pos: 0, node, seekable: true, epoll: None, socket: None }
}

#[test]
fn what_is_made_is_found() {
    let mut c = context();
    assert_eq!(calls::sys_mkdirat(&mut c, slot("dir"), 0o777, 5), Ok(0));
    let d = c.nodes.lookup_child(0, &path("dir")).unwrap();
    assert_eq!(c.nodes.list[d].meta.mode & 0o777, 0o755);
    assert_eq!(calls::sys_mkdirat(&mut c, slot("dir"), 0o777, 5), Err(17));
    assert_eq!(calls::sys_mkdirat(&mut c, Err(2), 0o777, 5), Err(2));
    assert_eq!(calls::sys_symlinkat(&mut c, path("dir"), slot("ln"), 5), Ok(0));
    let l = c.nodes.lookup_child(0, &path("ln")).unwrap();
    let mut m = memory();
    assert_eq!(calls::sys_readlinkat(&c, &mut m, &path("ln"), Ok(l), 0x1000, 2), Ok(2));
    assert_eq!(m.copy_from_user(0x1000, 2).unwrap(), b"di");
    let exe = path("/proc/self/exe");
    assert_eq!(calls::sys_readlinkat(&c, &mut m, &exe, Err(2), 0x1000, 100), Ok(8));
    assert_eq!(calls::sys_readlinkat(&c, &mut m, &path("dir"), Ok(d), 0x1000, 2), Err(22));
    assert_eq!(calls::sys_renameat(&mut c, slot("ln"), slot("moved")), Ok(0));
    assert_eq!(c.nodes.lookup_child(0, &path("ln")), None);
    assert_eq!(c.nodes.lookup_child(0, &path("moved")), Some(l));
    assert_eq!(calls::sys_unlinkat(&mut c, slot("moved"), 0), Ok(0));
    assert_eq!(calls::sys_unlinkat(&mut c, slot("moved"), 0), Err(2));
    assert_eq!(calls::sys_unlinkat(&mut c, slot("dir"), 0), Err(21));
    assert_eq!(calls::sys_unlinkat(&mut c, slot("dir"), 0x200), Ok(0));
    assert_eq!(calls::sys_umask(&mut c, 0o77), Ok(0o22));
}

#[test]
fn nodes_come_and_go() {
    let mut n = Nodes { list: vec![node("", NodeKind::Dir(Vec::new()))] };
    let meta = n.list[0].meta;
    let k = n.add_new(0, path("a"), meta, NodeKind::File(path("x"))).unwrap();
    assert_eq!(n.lookup_child(0, &path("a")), Some(k));
    assert_eq!(n.add_new(k, path("b"), meta, NodeKind::Fifo), Err(20));
    assert_eq!(n.remove_child(0, &path("a")), Ok(()));
    assert_eq!(n.lookup_child(0, &path("a")), None);
    assert_eq!(n.remove_child(0, &path("a")), Err(2));
    assert!(n.is_dir(0) && !n.is_dir(k));
}

#[test]
fn descriptors_and_their_flags() {
    let mut c = context();
    let mut m = memory();
    assert_eq!(calls::sys_openat(&mut c, Ok(open(Some(0))), 0o2000000), Ok(0));
    assert_eq!(calls::sys_openat(&mut c, Err(13), 0), Err(13));
    assert_eq!(calls::sys_fcntl(&mut c, &mut m, 0, 1, 0), Ok(1));
    assert_eq!(calls::sys_dup(&mut c, 0), Ok(1));
    assert_eq!(calls::sys_dup3(&mut c, 0, 5, 0), Ok(5));
    assert_eq!(calls::sys_dup3(&mut c, 0, 0, 0), Err(22));
    assert_eq!(calls::sys_fcntl(&mut c, &mut m, 0, 0, 10), Ok(10));
    assert_eq!(calls::sys_close(&mut c, 10), Ok(0));
    assert_eq!(calls::sys_close(&mut c, 10), Err(9));
    assert_eq!(calls::sys_close_range(&mut c, 1, 9), Ok(0));
    assert_eq!(calls::get_file(&c, 5), Err(9));
    assert_eq!(calls::sys_pipe2(&mut c, &mut m, 0x1000, 0), Ok(0));
    assert_eq!((m.read_num(0x1000, 4), m.read_num(0x1004, 4)), (Ok(1), Ok(2)));
    assert!(matches!(calls::sys_ioctl(&mut c, &m, 1, 0x5421, 0x1000), Control::Done(Ok(0))));
    assert!(c.files[calls::get_file(&c, 1).unwrap()].flags & 0o4000 != 0);
    assert_eq!(calls::sys_eventfd2(&mut c, 0), Ok(3));
    assert_eq!(calls::sys_epoll_create1(&mut c, 7, 0), Ok(4));
    assert_eq!(calls::get_epoll(&c, 4), Ok(7));
    assert_eq!(calls::get_epoll(&c, 3), Err(22));
    assert_eq!(calls::dir_base(&c, -100), Ok(0));
    assert_eq!(calls::dir_base(&c, 3), Err(20));
    assert_eq!(calls::sys_fchdir(&mut c, 3), Err(20));
    text(&mut m, 0x1100, b"sub/x\0");
    let p = calls::path_at(&c, &m, -100, 0x1100, 0).ok().unwrap();
    assert!(p.start == Start::From(0) && p.path == b"sub/x");
}

#[test]
fn reading_and_writing() {
    let mut c = context();
    let mut m = memory();
    assert_eq!(calls::sys_openat(&mut c, Ok(open(Some(0))), 0), Ok(0));
    assert!(matches!(fsio::sys_read(&c, 0, 10), Plan::Use { file: 0, len: 10 }));
    assert!(matches!(fsio::sys_read(&c, 9, 10), Plan::Done(Err(9))));
    assert_eq!(fsio::read_done(&mut m, 0x1000, Ok(path("data"))), Ok(4));
    assert_eq!(fsio::read_done(&mut m, 0x1000, Err(5)), Err(5));
    let w = fsio::sys_write(&c, &m, 0, 0x1000, 4).ok().unwrap();
    assert_eq!((w.file, w.data), (0, path("data")));
    assert_eq!(fsio::sys_write(&c, &m, 0, 0x9000, 4).err(), Some(14));
    num(&mut m, 0x1100, 0x1200, 8);
    num(&mut m, 0x1108, 2, 8);
    num(&mut m, 0x1110, 0x1300, 8);
    num(&mut m, 0x1118, 2, 8);
    let f = fsio::sys_readv(&c, &m, 0, 0x1100, 2).ok().unwrap();
    assert_eq!(f.len, 4);
    assert_eq!(fsio::readv_done(&mut m, &f.iovs, Ok(path("wxyz"))), Ok(4));
    assert_eq!(m.copy_from_user(0x1300, 2).unwrap(), b"yz");
    assert_eq!(fsio::sys_writev(&c, &m, 0, 0x1100, 2).ok().unwrap().data, b"wxyz");
    assert_eq!(fsio::sys_writev(&c, &m, 0, 0x1100, 2000).err(), Some(22));
    assert!(matches!(fsio::sendfile_write(0, 0, 10, Ok(4)), SendWrite::More(4)));
    assert!(matches!(fsio::sendfile_write(0, 0, 10, Err(32)), SendWrite::Fail(32)));
    assert_eq!(fsio::transfer_want(0, 10), 10);
    let e = vec![Dirent { name: path("abc"), ino: 3, dtype: 4 }];
    assert_eq!(fsio::sys_getdents64(&mut c, &mut m, &e, 0, 0x1400, 10), Err(22));
    assert_eq!(fsio::sys_getdents64(&mut c, &mut m, &e, 0, 0x1400, 100), Ok(24));
    assert_eq!(m.read_cstr(0x1413, 9).unwrap(), b"abc");
    assert_eq!(fsio::sys_lseek(Ok(77)), Ok(77));
}

#[test]
fn what_is_ready_is_told() {
    let mut c = context();
    let mut m = memory();
    assert_eq!(calls::sys_epoll_create1(&mut c, 7, 0), Ok(0));
    assert_eq!(calls::sys_eventfd2(&mut c, 0), Ok(1));
    num(&mut m, 0x1000, 5, 4);
    num(&mut m, 0x1008, 0x1234, 8);
    let ch = select::sys_epoll_ctl(&c, &m, 0, 1, 1, 0x1000).ok().unwrap();
    assert_eq!((ch.epoll, ch.fd, ch.events, ch.data), (7, 1, 5, 0x1234));
    assert_eq!(select::sys_epoll_ctl(&c, &m, 1, 1, 1, 0x1000).err(), Some(22));
    assert_eq!(select::sys_epoll_ctl(&c, &m, 0, 1, 9, 0x1000).err(), Some(9));
    let w = select::sys_epoll_pwait(&c, 0, 8, 5, 1000).ok().unwrap();
    assert_eq!((w.epoll, w.max, w.deadline), (7, 8, Some(5_001_000)));
    assert_eq!(select::sys_epoll_pwait(&c, 0, 0, 5, 0).err(), Some(22));
    let found = vec![Event { events: 1, data: 0x1234 }];
    assert_eq!(select::epoll_done(&mut m, 0x1100, Ok(found)), Ok(1));
    assert_eq!((m.read_num(0x1100, 4), m.read_num(0x1108, 8)), (Ok(1), Ok(0x1234)));
    num(&mut m, 0x1200, 1, 4);
    num(&mut m, 0x1204, 1, 2);
    num(&mut m, 0x1208, 99, 4);
    let mut p = select::sys_ppoll(&c, &m, 0x1200, 2, 0, 0).ok().unwrap();
    assert!(p.round(&vec![0, 1], 0, false) == Wait::Over(2));
    assert_eq!((p.pfds[0].revents, p.pfds[1].revents), (1, 0x20));
    assert_eq!(select::poll_done(&mut m, 0x1200, &p.pfds, 2), Ok(2));
    assert_eq!(m.read_num(0x1206, 2), Ok(1));
    num(&mut m, 0x1300, 2, 8);
    let s = Sets { read: 0x1300, write: 0, except: 0 };
    let sel = select::sys_pselect6(&c, &m, 2, &s, 0, 0).ok().unwrap();
    let r = sel.round(&vec![0, 1], 0, false);
    assert!(r.step == Wait::Over(1));
    assert_eq!(select::select_done(&mut m, &s, &r.read, &r.write, 1), Ok(1));
    assert_eq!(m.read_num(0x1300, 8), Ok(2));
    assert!(sel.round(&vec![0, 0], 0, true).step == Wait::Interrupted);
    assert!(sel.round(&vec![0, 0], 0, false).step == Wait::Block);
}

#[test]
fn socket_calls() {
    let mut c = context();
    let mut m = memory();
    assert_eq!(sockets::socket_kind(2, 1, 0, true), Ok(SockKind::Tcp));
    assert_eq!(sockets::socket_kind(2, 2, 0, true), Ok(SockKind::Udp));
    assert_eq!(sockets::socket_kind(10, 1, 0, true), Err(97));
    let k = sockets::socket_kind(2, 1, 0, true);
    assert_eq!(sockets::sys_socket(&mut c, k, 4, 1), Ok(0));
    assert_eq!(sockets::sock_of(&c, 0), Ok(4));
    assert_eq!(calls::sys_eventfd2(&mut c, 0), Ok(1));
    assert_eq!(sockets::sock_of(&c, 1), Err(88));
    text(&mut m, 0x1000, &[2, 0, 0, 80, 1, 2, 3, 4, 0, 0, 0, 0, 0, 0, 0, 0]);
    let b = sockets::sys_bind(&c, &m, 0, 0x1000, 16).ok().unwrap();
    assert!(matches!(b.addr, SockAddr::Inet { addr: [1, 2, 3, 4], port: 80 }));
    num(&mut m, 0x1100, 16, 4);
    let a = SockAddr::Inet { addr: [9, 8, 7, 6], port: 258 };
    assert_eq!(sockets::sys_getsockname(&mut m, Ok(a), 0x1110, 0x1100), Ok(0));
    assert_eq!(m.copy_from_user(0x1110, 8).unwrap(), [2, 0, 1, 2, 9, 8, 7, 6]);
    assert_eq!(sockets::sys_listen(Err(95)), Err(95));
    assert_eq!(sockets::sys_getsockopt(&mut m, Ok(vec![1, 0, 0, 0]), 0x1110, 0x1100), Ok(0));
    assert_eq!(m.read_num(0x1100, 4), Ok(4));
}

#[test]
fn passed_files_arrive() {
    let mut c = context();
    let mut m = memory();
    assert_eq!(sockets::sys_socketpair(&mut c, &mut m, 4, 5, 1, 0x1000), Ok(0));
    assert_eq!(calls::sys_eventfd2(&mut c, 0), Ok(2));
    let passed = calls::get_file(&c, 2).unwrap();
    // The header: one buffer, and control data with one descriptor.
    num(&mut m, 0x1110, 0x1180, 8);
    num(&mut m, 0x1118, 1, 8);
    num(&mut m, 0x1120, 0x11a0, 8);
    num(&mut m, 0x1128, 20, 8);
    num(&mut m, 0x1180, 0x1200, 8);
    num(&mut m, 0x1188, 3, 8);
    text(&mut m, 0x1200, b"abc");
    num(&mut m, 0x11a0, 20, 8);
    num(&mut m, 0x11a8, 1, 4);
    num(&mut m, 0x11ac, 1, 4);
    num(&mut m, 0x11b0, 2, 4);
    let s = sockets::sys_sendmsg(&c, &m, 0, 0x1100).ok().unwrap();
    assert_eq!((s.sock, s.data, s.files), (4, path("abc"), vec![passed]));
    num(&mut m, 0x11b0, 33, 4);
    assert_eq!(sockets::sys_sendmsg(&c, &m, 0, 0x1100).err(), Some(9));
    num(&mut m, 0x1128, 64, 8);
    let r = sockets::sys_recvmsg(&c, &m, 1, 0x1100).ok().unwrap();
    assert_eq!((r.sock, r.len), (5, 3));
    let got = Received { data: path("abc"), from: None, files: vec![passed] };
    assert_eq!(sockets::recvmsg_done(&mut c, &mut m, 0x1100, &r, Ok(got), 0), Ok(3));
    assert_eq!((m.read_num(0x11a0, 8), m.read_num(0x11b0, 4)), (Ok(20), Ok(3)));
    assert_eq!(calls::get_file(&c, 3), Ok(passed));
}

fn program() -> Vec<u8> {
    let mut d = vec![0u8; 0x200];
    d[..7].copy_from_slice(&[0x7f, 0x45, 0x4c, 0x46, 2, 1, 1]);
    d[16] = 3;
    d[18] = 243;
    d[24..26].copy_from_slice(&[0x10, 1]);
    d[32] = 64;
    d[54] = 56;
    d[56] = 2;
    // A segment of 0x20 bytes from offset 0x100, 0x30 in memory at 0x1100.
    d[64] = 1;
    d[68] = 5;
    d[64 + 9] = 1;
    d[64 + 17] = 0x11;
    d[64 + 32] = 0x20;
    d[64 + 40] = 0x30;
    // The interpreter's name.
    d[120] = 3;
    d[120 + 8..120 + 10].copy_from_slice(&[0x40, 1]);
    d[120 + 32] = 8;
    d[120 + 40] = 8;
    d[0x140..0x148].copy_from_slice(b"/lib/l\xff\0");
    for i in 0..0x20 {
        d[0x100 + i] = i as u8 + 1;
    }
    d
}

#[test]
fn programs_are_parsed_and_loaded() {
    let d = program();
    let e = elf::parse(&d).ok().unwrap();
    assert_eq!((e.entry, e.phnum, e.phent, e.is_dyn), (0x110, 2, 56, true));
    assert_eq!(e.interp.unwrap(), b"/lib/l\xef\xbf\xbd");
    let l = elf::phdrs(&d, elf::phoff(&d), 2, 56);
    assert_eq!((l[0].p_vaddr, l[0].p_memsz), (0x1100, 0x30));
    let s = elf::load_segment(&d, &l[0], 0x10_0000).unwrap();
    assert_eq!((s.pages.len(), s.pages[0].va, s.end), (1, 0x10_1000, 0x10_2000));
    assert_eq!(s.pages[0].data[0x100..0x120], d[0x100..0x120]);
    assert_eq!(s.pages[0].data[0x120], 0);
    assert!(elf::load_segment(&d, &l[1], 0).is_none());
    assert_eq!(elf::parse(b"#!").err(), Some("not an ELF file"));
    let mut x = program();
    x[18] = 62;
    assert_eq!(elf::parse(&x).err(), Some("not a RISC-V binary"));
    x = program();
    x[4] = 1;
    assert_eq!(elf::parse(&x).err(), Some("not a 64-bit little-endian ELF"));
    x = program();
    x[33] = 99;
    assert_eq!(elf::parse(&x).err(), Some("program headers out of range"));
}

#[test]
fn scripts_name_their_program() {
    let argv = vec![path("me"), path("x")];
    match exec::load_image(&path("#! /bin/sh -e\nrest"), &path("/tmp/s"), &argv, 0) {
        Ok(Image::Script { interp, argv }) => {
            assert_eq!(interp, b"/bin/sh");
            assert_eq!(argv, vec![path("/bin/sh"), path("-e"), path("/tmp/s"), path("x")]);
        }
        _ => panic!("no script"),
    }
    match exec::load_image(&b"#!/bin/\xff\n".to_vec(), &path("/s"), &argv, 0) {
        Ok(Image::Script { interp, .. }) => assert_eq!(interp, b"/bin/\xef\xbf\xbd"),
        _ => panic!("no script"),
    }
    assert_eq!(exec::load_image(&path("#!\n"), &path("/s"), &argv, 0).err(), Some(8));
    assert!(matches!(exec::load_image(&program(), &path("/s"), &argv, 0), Ok(Image::Program)));
    assert_eq!(exec::load_image(&path("#!/a\n"), &path("/s"), &argv, 99).err(), Some(40));
    assert_eq!(exec::program_name(&path("/usr/sbin/nginx")), b"nginx");
    assert_eq!(exec::open_exec(Err(2)), Err(2));
    assert_eq!(exec::open_exec(Ok(0o100755)), Ok(()));
    assert_eq!(exec::open_exec(Ok(0o040755)), Err(13));
}

#[test]
fn the_start_of_a_program_is_planned() {
    let app = exec::Loaded { entry: 0x100_0110, base: 0x100_0000, end: 0x100_2345, phdr: 0x100_0040 };
    let ld = exec::Loaded { entry: 0x400_0200, base: 0x400_0000, end: 0x402_0000, phdr: 0 };
    let p = exec::plan_image(true, 0x100_0000, app, Some(ld));
    assert_eq!((p.base, p.entry, p.interp_base), (0x100_0000, 0x400_0200, 0x400_0000));
    assert_eq!(p.brk, 0x100_4000);
    let q = exec::plan_image(false, 0x100_0000, app, None);
    assert_eq!((q.base, q.entry, q.interp_base), (0, 0x100_0110, 0));
    let a = exec::plan_aux(&p, &app, 9, 1, 2);
    assert_eq!((a.phdr, a.base, a.entry, a.phnum), (0x100_0040, 0x400_0000, 0x100_0110, 9));
    let (stack, page) = exec::image_areas(0x7eff_0000, 0x10_0000, 0x7e00_0000);
    assert_eq!((stack.start, stack.grows_down), (0x7eef_0000, true));
    assert_eq!((page.end, page.write, page.execute), (0x7e00_1000, false, true));
    assert_eq!(exec::trampoline_code()[0], 0x93);
}

#[test]
fn a_program_finds_its_arguments() {
    let mut m = memory();
    let a = Aux { phdr: 0x40, phnum: 2, base: 0, entry: 0x110, uid: 1, gid: 2 };
    let argv = vec![path("app"), path("-v")];
    let envp = vec![path("A=b")];
    let sp = exec::build_stack(&mut m, 0x2000, &path("/app"), &argv, &envp, &a, &vec![9; 16]).unwrap();
    assert_eq!(sp % 16, 0);
    assert_eq!(m.read_num(sp, 8), Ok(2));
    let a1 = m.read_num(sp + 16, 8).unwrap() as usize;
    assert_eq!(m.read_cstr(a1, 10).unwrap(), b"-v");
    assert_eq!(m.read_num(sp + 24, 8), Ok(0));
    let e0 = m.read_num(sp + 32, 8).unwrap() as usize;
    assert_eq!(m.read_cstr(e0, 10).unwrap(), b"A=b");
    assert_eq!(
        exec::build_stack(&mut m, 0x1010, &path("/app"), &argv, &envp, &a, &vec![9; 16]).err(),
        Some(14)
    );
}
