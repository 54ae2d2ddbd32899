//! The smaller kernels: one task, task control blocks, and the socket layer.

use ijiege::net::NetState;
use ijiege::socket;
use ijiege::socket::{PipeAnswer, PipeData, Socket};
use ijiege::syscall::mem;
use ijiege::syscall::mem::{Area, Mappable, MemOp, Mm};
use ijiege::syscall::poll;
use ijiege::syscall::poll::{EpollEntry, FileKind, Wait};
use ijiege::syscall::sig;
use ijiege::syscall::single;
use ijiege::syscall::single::{Call, Data, Io, State};
use ijiege::syscall::socket as stream;
use ijiege::syscall::socket::{Addr, Fd, FdKind, Fds, MsgStep, Peer};
use ijiege::syscall::time;
use ijiege::syscall::transfer::IoStep;
use ijiege::task::process::{File, Process};
use ijiege::task::processor::Processor;
use ijiege::task::signal::SignalState;
use ijiege::task::tcb::{KernelAddrs, Space, TaskControlBlock};
use ijiege::uaccess::UserMem;

fn memory() -> UserMem {
    let mut m = UserMem::new();
    m.add_area(0x1000, vec![0; 0x1000]);
    m
}

fn text(m: &mut UserMem, at: usize, s: &[u8]) {
    assert_eq!(m.copy_to_user(at, s), Ok(()));
}

fn num(m: &mut UserMem, at: usize, x: u64, n: usize) {
    assert_eq!(m.write_num(at, x, n), Ok(()));
}

fn block() -> TaskControlBlock {
    let k = KernelAddrs { token: 5, trap_handler: 6, trap_return: 7 };
    let s = Space { token: 1, trap_cx_ppn: 2, user_sp: 0x8000, entry: 0x400, heap_bottom: 0x9000 };
    TaskControlBlock::new_initproc(3, &s, &k, 0xf000, vec![Some(0), Some(1)])
}

fn state() -> State {
    State {
        fds: Vec::new(),
        files: Vec::new(),
        nodes: vec![Data { is_dir: true, bytes: Vec::new() }, Data { is_dir: false, bytes: Vec::new() }],
        epolls: Vec::new(),
        tid_address: 0,
    }
}

#[test]
fn a_read_gives_what_was_written() {
    let mut s = state();
    let mut m = memory();
    let name = b"/tmp/a".to_vec();
    let k = single::resolve_open(&mut s, &name, 2, Some(1), None);
    assert_eq!(k, Ok(single::FileKind::File(1)));
    assert_eq!(single::do_openat(&mut s, k, 2), 0);
    text(&mut m, 0x1000, b"hello");
    assert!(matches!(single::do_write(&mut s, &m, 0, 0x1000, 5), Io::Done(5)));
    assert_eq!(s.nodes[1].bytes, b"hello");
    assert_eq!(single::do_lseek(&mut s, 0, 0, 0), 0);
    assert!(matches!(single::do_read(&mut s, &mut m, 0, 0x1100, 10, 0), Io::Done(5)));
    assert_eq!(m.copy_from_user(0x1100, 5).unwrap(), b"hello");
    assert!(matches!(single::do_read(&mut s, &mut m, 0, 0x1100, 10, 0), Io::Done(0)));
    assert!(matches!(single::do_pread(&mut s, &mut m, 0, 0x1200, 3, 1, 0), Io::Done(3)));
    assert_eq!(m.copy_from_user(0x1200, 3).unwrap(), b"ell");
    assert!(matches!(single::do_write(&mut s, &m, 9, 0x1000, 5), Io::Done(-9)));
    assert_eq!(single::resolve_open(&mut s, &name, 0, None, None), Err(-2));
    assert_eq!(single::do_fstat(&s, &mut m, 0, 0x1300), 0);
    assert_eq!(m.read_num(0x1330, 8), Ok(5));
    assert_eq!(single::do_fstat(&s, &mut m, 9, 0x1300), -9);
    let cut = single::resolve_open(&mut s, &name, 0o1001, Some(1), None);
    assert!(cut.is_ok() && s.nodes[1].bytes.is_empty());
}

#[test]
fn devices_and_paths() {
    let mut s = state();
    let mut m = memory();
    assert_eq!(single::abspath(&b"x".to_vec()), b"/x");
    assert_eq!(single::abspath(&b"/x".to_vec()), b"/x");
    assert_eq!(single::device_of(&b"/dev/null".to_vec()), Some(single::FileKind::Null));
    assert_eq!(single::device_of(&b"/dev/nothing".to_vec()), None);
    assert_eq!(single::do_openat(&mut s, Ok(single::FileKind::Zero), 0), 0);
    num(&mut m, 0x1000, u64::MAX, 8);
    assert!(matches!(single::do_read(&mut s, &mut m, 0, 0x1000, 4, 0), Io::Done(4)));
    assert_eq!(m.read_num(0x1000, 8), Ok(0xffff_ffff_0000_0000));
    assert_eq!(single::do_openat(&mut s, Ok(single::FileKind::Console), 1), 1);
    text(&mut m, 0x1000, b"out");
    match single::do_write(&mut s, &m, 1, 0x1000, 3) {
        Io::Print(v) => assert_eq!(v, b"out"),
        _ => panic!("not printed"),
    }
    assert_eq!(single::do_uname(&mut m, 0x1000), 0);
    assert_eq!(m.read_cstr(0x1000, 65).unwrap(), b"Linux");
    assert_eq!(single::do_socket(10, 1).err(), Some(-97));
    assert_eq!(single::do_socket(2, 1 | 0o4000), Ok((true, false)));
}

#[test]
fn interest_of_the_one_task() {
    let mut s = state();
    let mut m = memory();
    assert_eq!(single::do_epoll_create(&mut s), 0);
    assert_eq!(single::do_eventfd(&mut s), 1);
    num(&mut m, 0x1000, 5, 4);
    num(&mut m, 0x1008, 0x77, 8);
    assert_eq!(single::do_epoll_ctl(&mut s, &m, 0, 1, 1, 0x1000), 0);
    assert_eq!(single::do_epoll_ctl(&mut s, &m, 0, 9, 1, 0x1000), -22);
    assert_eq!(single::do_epoll_ctl(&mut s, &m, 1, 1, 1, 0x1000), -9);
    let none: Vec<(bool, bool)> = Vec::new();
    assert_eq!(single::do_epoll_pwait(&s, &none, &mut m, 0, 0x1100, 4), 0);
    assert_eq!(single::wrap_socket(&mut s, 0, false, false), 2);
    num(&mut m, 0x1000, 4, 4);
    assert_eq!(single::do_epoll_ctl(&mut s, &m, 0, 1, 2, 0x1000), 0);
    let closed = vec![(true, false)];
    assert_eq!(single::fd_ready(&s, &closed, 2, 4), 0);
    assert_eq!(single::do_epoll_pwait(&s, &closed, &mut m, 0, 0x1100, 4), 1);
    assert_eq!((m.read_num(0x1100, 4), m.read_num(0x1108, 8)), (Ok(1), Ok(0x77)));
    assert!(single::epoll_over(0, 0) && !single::epoll_over(-1, 1 << 40));
    assert!(matches!(single::dispatch(172, &[0; 6]), Call::Ret(1)));
    assert!(matches!(single::dispatch(9999, &[0; 6]), Call::Ret(-38)));
    assert!(matches!(
        single::dispatch(203, &[4, 0x1200, 16, 0, 0, 0]),
        Call::Connect { addr: 0x1200, len: 16 }
    ));
    num(&mut m, 0x1200, 1, 2);
    assert_eq!(single::do_connect(&m, 0x1200, 16), -2);
    num(&mut m, 0x1200, 2, 2);
    assert_eq!(single::do_connect(&m, 0x1200, 16), -111);
    assert!(matches!(single::dispatch(57, &[4, 0, 0, 0, 0, 0]), Call::Close(4)));
}

#[test]
fn mappings_grow_downwards() {
    let mut mm = Mm {
        mmap_next: 0x4000_0000,
        brk: 0x10_0000,
        brk_start: 0x10_0000,
        mmap_base: 0x4000_0000,
        user_limit: 0x8000_0000,
    };
    let (a, op) = mem::sys_mmap(&mut mm, 0, 100, 3, 0x22, Mappable::Closed, 0);
    assert_eq!(a, 0x3fff_f000);
    assert!(matches!(op, MemOp::MapAnon { start: 0x3fff_f000, end: 0x4000_0000, .. }));
    let (b, _) = mem::sys_mmap(&mut mm, 0, 4096, 3, 0x22, Mappable::Closed, 0);
    assert_eq!(b, 0x3fff_e000);
    assert_eq!(mem::sys_mmap(&mut mm, 0, 0, 3, 0x22, Mappable::Closed, 0).0, -22);
    assert_eq!(mem::sys_mmap(&mut mm, 0, 1, 3, 2, Mappable::Closed, 0).0, -9);
    assert_eq!(mem::sys_brk(&mut mm, 0).0, 0x10_0000);
    assert_eq!(mem::sys_brk(&mut mm, 0x10_1000).0, 0x10_1000);
    let next = mm.mmap_next;
    let (c, op) = mem::sys_mremap(&mut mm, Some((0x1000, 3)), 0x1000, 8, 0x1001);
    assert_eq!(c as usize, next - 0x2000);
    match op {
        MemOp::Relocate { start, copy, old, old_end, .. } => {
            assert_eq!((start, copy, old, old_end), (next - 0x2000, 8, 0x1000, 0x2000));
            let mut m = memory();
            m.add_area(start, vec![0; 0x2000]);
            text(&mut m, 0x1000, b"contents");
            mem::copy_moved(&mut m, old, start, copy);
            assert_eq!(m.copy_from_user(start, 9).unwrap(), b"contents\0");
        }
        _ => panic!("not moved"),
    }
    let l = vec![Area { start: 0x1000, end: 0x2000, prot: 3 }];
    assert!(mem::mm_is_writable(&l, 0x1fff));
    assert!(!mem::mm_is_writable(&l, 0x2000));
}

#[test]
fn interest_lists_of_a_block() {
    let mut t = block();
    let mut m = memory();
    assert_eq!(poll::sys_epoll_create1(&mut t.inner, 2), 2);
    assert_eq!(poll::sys_eventfd2(&mut t.inner, 3), 3);
    let kinds = vec![FileKind::Other, FileKind::Other, FileKind::Epoll(0), FileKind::Other];
    let mut l: Vec<EpollEntry> = Vec::new();
    num(&mut m, 0x1000, 5, 4);
    num(&mut m, 0x1008, 0x77, 8);
    assert_eq!(poll::read_epoll_event(&m, 0x1000), (5, 0x77));
    assert_eq!(poll::sys_epoll_ctl(&t.inner, &kinds, &mut l, &m, 2, 1, 3, 0x1000), 0);
    assert_eq!(l, vec![EpollEntry { fd: 3, events: 5, data: 0x77, file: 3 }]);
    num(&mut m, 0x1000, 1, 4);
    assert_eq!(poll::sys_epoll_ctl(&t.inner, &kinds, &mut l, &m, 2, 3, 3, 0x1000), 0);
    assert_eq!(l[0].events, 1);
    assert_eq!(poll::sys_epoll_ctl(&t.inner, &kinds, &mut l, &m, 9, 1, 3, 0x1000), -9);
    assert_eq!(poll::sys_epoll_ctl(&t.inner, &kinds, &mut l, &m, 3, 1, 3, 0x1000), -22);
    assert_eq!(poll::sys_epoll_ctl(&t.inner, &kinds, &mut l, &m, 2, 1, 9, 0x1000), -9);
    assert_eq!(poll::sys_epoll_ctl(&t.inner, &kinds, &mut l, &m, 2, 8, 3, 0x1000), -22);
    let ready = vec![(false, false), (false, false), (false, false), (true, true)];
    assert_eq!(poll::sys_epoll_pwait(&l, &ready, &mut m, 0x1100, 4, 0, 0), Wait::Done(1));
    assert_eq!((m.read_num(0x1100, 4), m.read_num(0x1108, 8)), (Ok(1), Ok(0x77)));
    let idle = vec![(false, false); 4];
    assert_eq!(poll::sys_epoll_pwait(&l, &idle, &mut m, 0x1100, 4, 2, 19_999), Wait::Again);
    assert_eq!(poll::sys_epoll_pwait(&l, &idle, &mut m, 0x1100, 4, 2, 20_000), Wait::Done(0));
    assert_eq!(poll::sys_epoll_ctl(&t.inner, &kinds, &mut l, &m, 2, 2, 3, 0x1000), 0);
    assert!(l.is_empty());
}

#[test]
fn times_since_the_start() {
    let mut m = memory();
    num(&mut m, 0x1000, 2, 8);
    num(&mut m, 0x1008, 5_000_000, 8);
    assert_eq!(time::sys_nanosleep(&m, 0x1000, 100), 2105);
    assert_eq!(time::sys_clock_gettime(&mut m, 0x1000, 7_500, 7_500_001), 0);
    assert_eq!((m.read_num(0x1000, 8), m.read_num(0x1008, 8)), (Ok(7), Ok(500_001_000)));
    assert_eq!(time::sys_gettimeofday(&mut m, 0x1000, 7_500_001), 0);
    assert_eq!(m.read_num(0x1008, 8), Ok(500_001));
    assert_eq!(time::sys_times(&mut m, 0x1000, 42), 42);
    assert_eq!(m.read_num(0x1008, 8), Ok(0));
}

#[test]
fn streams_and_pairs() {
    let mut t = Fds { fds: vec![None, None, None, None] };
    let mut m = memory();
    assert_eq!(stream::sys_socket(&mut t, 10, 1, Ok(0)), -97);
    assert_eq!(stream::sys_socket(&mut t, 2, 2, Ok(0)), -95);
    assert_eq!(stream::sys_socket(&mut t, 2, 1, Err(-12)), -12);
    assert_eq!(stream::sys_socket(&mut t, 2, 1 | 0o4000, Ok(6)), 0);
    assert_eq!(
        t.fds[0],
        Some(Fd { kind: FdKind::Socket { sock_id: 6 }, flags: 0o4000, cloexec: false })
    );
    assert_eq!(stream::sock_id_of(&t, 0), Ok(6));
    assert_eq!(stream::sock_id_of(&t, 1), Err(-9));
    text(&mut m, 0x1000, &[2, 0, 0x1f, 0x90, 1, 2, 3, 4, 0, 0, 0, 0, 0, 0, 0, 0]);
    let a = Addr { family: 2, ip: 0x0102_0304, port: 8080 };
    assert_eq!(stream::parse_sockaddr(&m, 0x1000, 16), Ok(a));
    assert_eq!(stream::parse_sockaddr(&m, 0x1000, 8), Err(-22));
    assert_eq!(stream::parse_sockaddr(&m, 0x9000, 16), Err(-14));
    assert_eq!(stream::sys_bind(&t, &m, 0, 0x1000, 16), Ok((6, a)));
    assert_eq!(stream::sys_connect(&t, &m, 0, 0x1000, 16), -111);
    text(&mut m, 0x1020, b"\x01\x00/run/x\0");
    assert_eq!(stream::sys_connect(&t, &m, 0, 0x1020, 10), -2);
    assert_eq!(stream::sys_listen(&t, 0, Ok(())), 0);
    let p = Peer { id: 9, ip: 0x0a00_0202, port: 258 };
    assert_eq!(stream::sys_accept(&mut t, &mut m, 0, Ok(p), 0x1100, 0x1120, 0, false), 1);
    assert_eq!(m.copy_from_user(0x1100, 8).unwrap(), [2, 0, 1, 2, 10, 0, 2, 2]);
    assert_eq!(m.read_num(0x1120, 4), Ok(16));
    assert_eq!(stream::sys_socketpair(&mut t, &mut m, 2, 1, Ok((3, 4)), 0x1130), -97);
    assert_eq!(stream::sys_socketpair(&mut t, &mut m, 1, 1, Ok((3, 4)), 0x1130), 0);
    assert_eq!((m.read_num(0x1130, 4), m.read_num(0x1134, 4)), (Ok(2), Ok(3)));
    assert_eq!(stream::sys_socket(&mut t, 2, 1, Ok(6)), -24);
    assert_eq!(stream::sys_recvfrom(&t, &mut m, 0, 0x1200, Ok(b"abc".to_vec())), 3);
    assert_eq!(stream::sys_sendto(&t, &m, 0, 0x1200, 3).ok().unwrap(), b"abc");
    assert_eq!(stream::sys_sendto(&t, &m, 9, 0x1200, 3).err(), Some(-9));
    assert_eq!(stream::sys_getsockname(&t, &mut m, 0, (0x7f00_0001, 80), 0x1300, 0), 0);
    assert_eq!(stream::parse_sockaddr(&m, 0x1300, 16).unwrap().ip, 0x7f00_0001);
    assert_eq!(stream::sys_getsockopt(&t, &mut m, 0, Ok(vec![1]), 0x1300, 0x1310), 0);
    assert_eq!(m.read_num(0x1310, 4), Ok(1));
    assert_eq!(stream::sys_sendmsg(5, Ok(3)), MsgStep::Next(8));
    assert_eq!(stream::sys_recvmsg(&mut m, 5, 0x1300, 4, Ok(vec![1])), MsgStep::Done(6));
    assert!(stream::sock_fd_nonblock(&t.fds[0].unwrap(), &vec![false, false, false, false, false, false, true]));
}

#[test]
fn signals_of_a_block() {
    let mut s = SignalState::new();
    let mut m = memory();
    num(&mut m, 0x1000, 0x4000, 8);
    assert_eq!(sig::sys_rt_sigaction(&mut s, &mut m, 10, 0x1000, 0), 0);
    assert_eq!(s.actions[10].handler, 0x4000);
    assert_eq!(sig::sys_rt_sigaction(&mut s, &mut m, 99, 0x1000, 0), -22);
    let was = sig::sys_rt_sigsuspend(&mut s, &m, 0x1008);
    assert_eq!(sig::sigsuspend_round(&mut s, was), None);
    s.raise(5);
    s.blocked = 1;
    assert_eq!(sig::sigsuspend_round(&mut s, was), Some(-4));
    assert_eq!((s.blocked, s.in_sigsuspend, s.suspended_mask), (1, true, was));
    let mut p = Processor::new();
    p.tasks.push(block());
    assert_eq!(sig::sys_kill(&mut p, 3, 5), 0);
    assert_eq!(p.tasks[0].inner.signals.pending, 1 << 4);
    assert_eq!(sig::sys_kill(&mut p, 8, 5), -3);
    assert_eq!(sig::sys_kill(&mut p, 0, 5), 0);
}

#[test]
fn the_socket_layer() {
    let mut p = Process::new(7, 0);
    let mut files: Vec<File> = Vec::new();
    let mut socks: Vec<Socket> = Vec::new();
    let mut net = NetState::new();
    let mut m = memory();
    assert_eq!(socket::sys_socket(&mut p, &mut files, &mut socks, 2, 1), Ok(0));
    assert_eq!(socket::sys_socket(&mut p, &mut files, &mut socks, 1, 1), Ok(1));
    assert_eq!(socket::sys_socket(&mut p, &mut files, &mut socks, 10, 1), Err(97));
    assert_eq!(socket::get_sock(&p, &files, 9), Err(9));
    text(&mut m, 0x1000, b"\x01\x00/var/run/nscd/socket\0");
    let local = socket::sys_connect(&p, &files, &mut socks, &mut net, &m, 1, 0x1000, 24);
    assert_eq!(local.err(), Some(2));
    text(&mut m, 0x1000, &[2, 0, 0, 80, 10, 0, 2, 2, 0, 0, 0, 0, 0, 0, 0, 0]);
    let a = socket::parse_sockaddr(&m, 0x1000, 16).ok().unwrap();
    assert_eq!((a.ip, a.port, a.family), ([10, 0, 2, 2], 80, 2));
    num(&mut m, 0x1100, 16, 4);
    assert_eq!(socket::write_sockaddr(&mut m, 0x1110, 0x1100, [1, 2, 3, 4], 258), Ok(()));
    let b = socket::parse_sockaddr(&m, 0x1110, 16).ok().unwrap();
    assert_eq!((b.ip, b.port), ([1, 2, 3, 4], 258));
    let r = socket::sys_socketpair(&mut p, &mut files, &mut socks, &mut m, 1, 1, 0x1200, (5, 6));
    assert_eq!(r, Ok(0));
    assert_eq!((m.read_num(0x1200, 4), m.read_num(0x1204, 4)), (Ok(2), Ok(3)));
    text(&mut m, 0x1300, b"abc");
    let s = socket::sys_sendto(&p, &files, &socks, &mut net, &m, 2, 0x1300, 3, PipeAnswer::Ok(3));
    assert_eq!(s, IoStep::Done(Ok(3)));
    let got = PipeData::Ok(b"xyz".to_vec());
    let r = socket::sys_recvfrom(&p, &files, &socks, &mut net, &mut m, 3, 0x1310, 3, 0, 0, got);
    assert_eq!(r, IoStep::Done(Ok(3)));
    assert_eq!(m.copy_from_user(0x1310, 3).unwrap(), b"xyz");
    assert_eq!(socket::sys_shutdown(&p, &files, &socks, &mut net, 9, 1), Err(9));
}
