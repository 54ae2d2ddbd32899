//! System calls on tasks, clocks, signals and limits, and the dispatcher.

use ijiege::file::{FdTable, OpenFile};
use ijiege::syscall::basic;
use ijiege::syscall::basic::Machine;
use ijiege::syscall::dispatch;
use ijiege::syscall::dispatch::{NumCall, Step};
use ijiege::syscall::files;
use ijiege::syscall::files::{Kind, Node, OpenStep};
use ijiege::syscall::fsio::{sendfile_piece, sendfile_rest, sendfile_round, Transfer};
use ijiege::syscall::futex::{
    futex_woken, sys_futex, wake, Clocks, FutexQueue, FutexStep, Futexes,
};
use ijiege::syscall::misc;
use ijiege::syscall::mm;
use ijiege::syscall::netcall::{net_call, NetCall};
use ijiege::syscall::process as calls;
use ijiege::syscall::readiness;
use ijiege::syscall::readiness::EpItem;
use ijiege::syscall::remap::{remap_grow, remap_move, remap_next, RemapAsk};
use ijiege::syscall::reply::{bytes_out, num_out, reply_all, reply_one, store_each};
use ijiege::syscall::select::Sets;
use ijiege::syscall::sigcalls;
use ijiege::syscall::sigcalls::{KillStep, WaitStep};
use ijiege::syscall::signal as sigs;
use ijiege::syscall::timespec::{read_ts, to_ns, ts_from_ns, tv_from_ns};
use ijiege::syscall::transfer;
use ijiege::syscall::transfer::{Dirent, IoStep, PlaceStep, Stat, VecStep, WriteStep};
use ijiege::task::control::{KSigAction, Rlimit, StackT, TaskCtl, Tasks};
use ijiege::task::process::{File, FileObj, Process};
use ijiege::task::sched::{Sched, TaskState};
use ijiege::task::threads;
use ijiege::task::wait::WaitQueue;
use ijiege::trap::frame::TrapFrame;
use ijiege::uaccess::UserMem;
use std::collections::VecDeque;

fn memory() -> UserMem {
    let mut m = UserMem::new();
    m.add_area(0x1000, vec![0; 0x1000]);
    m
}

fn text(m: &mut UserMem, at: usize, s: &[u8]) {
    assert_eq!(m.copy_to_user(at, s), Ok(()));
}

fn num(m: &mut UserMem, at: usize, x: u64, n: usize) {
    assert_eq!(m.write_num(at, x, n), Ok(()));
}

fn task(pid: i32) -> TaskCtl {
    TaskCtl {
        pid,
        tgid: pid,
        ppid: 1,
        uid: 5,
        gid: 6,
        pgid: pid,
        sid: pid,
        utime: 3_000_000_000,
        stime: 0,
        clear_child_tid: 0,
        robust_list: 0,
        rlimits: vec![Rlimit { cur: 10, max: 20 }; 16],
        name: b"init".to_vec(),
        exe_path: b"/sbin/init".to_vec(),
        cwd: 0,
        umask: 0o22,
        sigmask: 0,
        pending: 0,
        infos: Vec::new(),
        saved_sigmask: None,
        altstack: StackT { sp: 0, flags: 2, size: 0 },
        actions: vec![KSigAction { handler: 0, flags: 0, mask: 0 }; 65],
    }
}

#[test]
fn times_read_back() {
    let mut m = memory();
    text(&mut m, 0x1000, &ts_from_ns(1_500_000_001));
    assert_eq!(read_ts(&m, 0x1000), Ok(1_500_000_001));
    assert_eq!(m.read_num(0x1008, 8), Ok(500_000_001));
    assert_eq!(tv_from_ns(2_000_005_000)[8..16], [5, 0, 0, 0, 0, 0, 0, 0]);
    assert_eq!(read_ts(&m, 0x1ff8), Err(14));
    assert_eq!(to_ns(u64::MAX, 7), 7);
    assert_eq!(to_ns(1 << 60, 0), u64::MAX);
}

#[test]
fn clocks_and_machine() {
    let mut m = memory();
    let t = task(9);
    let now = Clocks { monotonic_ns: 5, realtime_ns: 7_000_000_009 };
    assert_eq!(misc::sys_clock_gettime(&t, &mut m, 0, 0x1000, now), Ok(0));
    assert_eq!((m.read_num(0x1000, 8), m.read_num(0x1008, 8)), (Ok(7), Ok(9)));
    assert_eq!(misc::sys_clock_gettime(&t, &mut m, 1, 0x1000, now), Ok(0));
    assert_eq!(m.read_num(0x1008, 8), Ok(5));
    assert_eq!(misc::sys_clock_gettime(&t, &mut m, 99, 0x1000, now), Err(22));
    assert_eq!(misc::sys_gettimeofday(&mut m, 0x1000, 3_000_004_000), Ok(0));
    assert_eq!(m.read_num(0x1008, 8), Ok(4));
    assert_eq!(misc::sys_uname(&mut m, 0x1000), Ok(0));
    assert_eq!(m.read_cstr(0x1000, 65).unwrap(), b"Linux");
    assert_eq!(m.read_cstr(0x1000 + 65, 65).unwrap(), b"jiege");
    assert_eq!(m.read_cstr(0x1000 + 4 * 65, 65).unwrap(), b"riscv64");
    assert_eq!(misc::sys_getrandom(&mut m, 0x1000, &vec![1, 2, 3]), Ok(3));
    assert_eq!(m.load(0x1002), Some(3));
    assert_eq!(misc::sys_getcpu(&mut m, 0x1000, 0), Ok(0));
    text(&mut m, 0x1000, &ts_from_ns(9));
    assert_eq!(misc::sys_nanosleep(&m, 0x1000, now), Ok(14));
    assert_eq!(misc::do_sleep(&mut m, 0x1000, Err(4_000_000_000)), Err(4));
    assert_eq!(m.read_num(0x1000, 8), Ok(4));
    assert_eq!(misc::do_sleep(&mut m, 0, Ok(())), Ok(0));
}

#[test]
fn who_am_i() {
    let mut m = memory();
    let mut t = task(9);
    assert_eq!(calls::sys_getpid(&t), Ok(9));
    assert_eq!(calls::sys_getppid(&t), Ok(1));
    assert_eq!(calls::sys_getuid(&t), Ok(5));
    assert_eq!(calls::sys_setuid(&mut t, 8), Ok(0));
    assert_eq!(calls::sys_getuid(&t), Ok(8));
    assert_eq!(calls::sys_getresgid(&t, &mut m, 0x1000, 0x1004, 0x1008), Ok(0));
    assert_eq!(m.read_num(0x1008, 4), Ok(6));
    assert_eq!(calls::sys_exit(3), 0x300);
    assert_eq!(calls::sys_set_tid_address(&mut t, 0x44), Ok(9));
    assert_eq!(t.clear_child_tid, 0x44);
    let mut ts = Tasks { list: vec![task(1), task(2)], cur: 1 };
    assert_eq!(calls::sys_getpgid(&ts, 0), Ok(2));
    assert_eq!(calls::sys_getpgid(&ts, 1), Ok(1));
    assert_eq!(calls::sys_getpgid(&ts, 7), Err(3));
    assert_eq!(calls::sys_setpgid(&mut ts, 1, 2), Ok(0));
    assert_eq!(ts.list[0].pgid, 2);
}

#[test]
fn limits_read_back() {
    let mut m = memory();
    let mut t = task(9);
    let mut fds = FdTable::new(100);
    num(&mut m, 0x1000, 50, 8);
    num(&mut m, 0x1008, 60, 8);
    assert_eq!(calls::sys_setrlimit(&mut t, &mut fds, &m, 7, 0x1000), Ok(0));
    assert_eq!(calls::sys_getrlimit(&t, &mut m, 7, 0x1100), Ok(0));
    assert_eq!((m.read_num(0x1100, 8), m.read_num(0x1108, 8)), (Ok(50), Ok(60)));
    assert_eq!(fds.limit, 50);
    assert_eq!(calls::sys_getrlimit(&t, &mut m, 16, 0x1100), Err(22));
    assert_eq!(calls::sys_prlimit64(&mut t, &mut fds, &mut m, false, 7, 0, 0x1100), Err(3));
    assert_eq!(calls::sys_getrlimit(&t, &mut m, 7, 0), Err(14));
}

#[test]
fn children() {
    let mut m = memory();
    assert_eq!(calls::sys_wait4(&mut m, 0x1000, Ok((5, 0x700))), Ok(5));
    assert_eq!(m.read_num(0x1000, 4), Ok(0x700));
    assert_eq!(calls::sys_wait4(&mut m, 0x1000, Err(10)), Err(10));
    assert_eq!(calls::waitid_request(9, 0, 4), Err(22));
    assert_eq!(calls::waitid_request(1, 5, 4).map(|x| x.0), Ok(5));
    assert_eq!(calls::sys_waitid(&mut m, 0x1100, Ok((5, 0x700))), Ok(0));
    assert_eq!(m.read_num(0x1100, 4), Ok(17));
    assert_eq!(m.read_num(0x1100 + 24, 4), Ok(7));
    assert_eq!(calls::sys_clone(&mut m, 0x10_0000, 0x1200, Ok(6)), Ok(6));
    assert_eq!(m.read_num(0x1200, 4), Ok(6));
    assert_eq!(calls::sys_clone(&mut m, 0, 0, Err(12)), Err(12));
    assert_eq!(calls::sys_clone(&mut m, 0x1_0100, 0, Ok(6)), Err(38));
}

#[test]
fn a_program_to_run() {
    let mut m = memory();
    text(&mut m, 0x1000, b"/bin/\xffx\0");
    text(&mut m, 0x1010, b"one\0");
    num(&mut m, 0x1020, 0x1010, 8);
    num(&mut m, 0x1028, 0, 8);
    let r = calls::sys_execve(&m, 0x1000, 0x1020, 0).ok().unwrap();
    assert_eq!(r.path, b"/bin/\xffx");
    assert_eq!(r.argv, vec![b"one".to_vec()]);
    assert_eq!(r.name, b"\xffx");
    assert!(r.envp.is_empty());
    assert_eq!(calls::sys_execve(&m, 0x1, 0, 0).err(), Some(14));
    let mut t = task(3);
    text(&mut m, 0x1100, b"a\xffb\0");
    assert_eq!(calls::sys_prctl(&mut t, &mut m, 15, 0x1100), Ok(0));
    assert_eq!(t.name, b"a\xef\xbf\xbdb");
    assert_eq!(calls::sys_prctl(&mut t, &mut m, 16, 0x1180), Ok(0));
    assert_eq!(m.read_cstr(0x1180, 16).unwrap(), b"a\xef\xbf\xbdb");
}

#[test]
fn words_to_wait_for() {
    let mut m = memory();
    num(&mut m, 0x1000, 5, 4);
    let mut s = Sched {
        states: vec![TaskState::Running, TaskState::Blocked],
        satps: vec![1, 2],
        runqueue: VecDeque::new(),
        current: Some(0),
        active_satp: 1,
    };
    let now = Clocks { monotonic_ns: 100, realtime_ns: 1000 };
    let mut f = Futexes { queues: Vec::new() };
    let r = sys_futex(&mut f, &mut s, &m, 0x1000, 0, 6, 0, 0, 0, Some(0x77), now, false);
    assert_eq!(r, FutexStep::Done(Err(11)));
    let r = sys_futex(&mut f, &mut s, &m, 0x9000, 0, 6, 0, 0, 0, None, now, false);
    assert_eq!(r, FutexStep::Done(Err(14)));
    text(&mut m, 0x1100, &ts_from_ns(50));
    let r = sys_futex(&mut f, &mut s, &m, 0x1000, 0, 5, 0x1100, 0, 0, Some(0x77), now, false);
    assert_eq!(r, FutexStep::Sleep { deadline: Some(150) });
    assert_eq!(wake(&mut f, &mut s, Some(0x77), 9), 1);
    assert_eq!(wake(&mut f, &mut s, Some(0x77), 9), 0);
    assert_eq!(wake(&mut f, &mut s, None, 9), 0);
}

#[test]
fn signal_calls() {
    let mut m = memory();
    let mut t = task(4);
    num(&mut m, 0x1000, 0x4000, 8);
    num(&mut m, 0x1008, 4, 8);
    num(&mut m, 0x1010, 0xff, 8);
    assert_eq!(sigs::sys_rt_sigaction(&mut t, &mut m, 10, 0x1000, 0, 8), Ok(0));
    assert_eq!(t.actions[10], KSigAction { handler: 0x4000, flags: 4, mask: 0xff });
    assert_eq!(sigs::sys_rt_sigaction(&mut t, &mut m, 9, 0x1000, 0, 8), Err(22));
    assert_eq!(sigs::sys_rt_sigaction(&mut t, &mut m, 10, 0x1000, 0, 4), Err(22));
    assert_eq!(sigs::sys_rt_sigaction(&mut t, &mut m, 10, 0x9000, 0, 8), Err(14));
    num(&mut m, 0x1100, u64::MAX, 8);
    assert_eq!(sigs::sys_rt_sigprocmask(&mut t, &mut m, 0, 0x1100, 0, 8), Ok(0));
    assert_eq!(t.sigmask, !(1 << 8 | 1 << 18));
    num(&mut m, 0x1100, 1, 8);
    assert_eq!(sigs::sys_rt_sigprocmask(&mut t, &mut m, 1, 0x1100, 0x1108, 8), Ok(0));
    assert_eq!(t.sigmask & 1, 0);
    assert_eq!(sigs::sys_rt_sigprocmask(&mut t, &mut m, 7, 0x1100, 0, 8), Err(22));
    let ts = Tasks { list: vec![task(1), task(2)], cur: 1 };
    assert_eq!(sigs::sys_kill(&ts, 1, 10).targets, vec![0]);
    assert_eq!(sigs::sys_kill(&ts, 9, 10).result, Err(3));
    assert_eq!(sigs::sys_kill(&ts, 1, 65).result, Err(22));
    assert_eq!(sigs::sys_tgkill(&ts, 1, 1, 10).targets, vec![0]);
    assert_eq!(sigs::sys_rt_sigpending(&t, &mut m, 0x1200, 8), Ok(0));
}

#[test]
fn signal_calls_of_a_process() {
    let mut m = memory();
    let mut p = Process::new(7, 0);
    num(&mut m, 0x1000, 0x4000, 8);
    assert_eq!(sigcalls::sys_rt_sigaction(&mut p, &mut m, 10, 0x1000, 0), Ok(0));
    assert_eq!(sigcalls::sys_rt_sigaction(&mut p, &mut m, 10, 0, 0x1100), Ok(0));
    assert_eq!(m.read_num(0x1100, 8), Ok(0x4000));
    assert_eq!(sigcalls::sys_rt_sigaction(&mut p, &mut m, 0, 0x1000, 0), Err(22));
    assert_eq!(sigcalls::sys_rt_sigaction(&mut p, &mut m, 65, 0x1000, 0), Err(22));
    assert_eq!(sigcalls::sys_rt_sigprocmask(&mut p, &mut m, 2, 0x1000, 0), Ok(0));
    assert_eq!(p.sig.blocked, 0x4000);
    num(&mut m, 0x1180, 3, 8);
    assert_eq!(sigcalls::sys_rt_sigprocmask(&mut p, &mut m, 0, 0x1180, 0x1188), Ok(0));
    assert_eq!((p.sig.blocked, m.read_num(0x1188, 8)), (0x4003, Ok(0x4000)));
    assert_eq!(sigcalls::sys_rt_sigprocmask(&mut p, &mut m, 1, 0x1180, 0), Ok(0));
    assert_eq!(p.sig.blocked, 0x4000);
    assert_eq!(sigcalls::sys_rt_sigprocmask(&mut p, &mut m, 9, 0x1000, 0), Err(22));
    assert_eq!(sigcalls::kill(3, 15), KillStep::Send(3, 15));
    assert_eq!(sigcalls::kill(3, 0), KillStep::Done(Ok(0)));
}

#[test]
fn waiting_for_a_child() {
    let mut m = memory();
    let mut s = threads::init(0x1000, 0x2000);
    threads::spawn_user(&mut s, Process::new(8, 0), 0x5000, 0x6000);
    let mut p = Process::new(7, 0);
    assert!(matches!(
        sigcalls::sys_wait4(&mut s, &mut p, &mut m, -1, 0, 0),
        WaitStep::Done(Err(10))
    ));
    p.children.push(8);
    assert!(matches!(
        sigcalls::sys_wait4(&mut s, &mut p, &mut m, -1, 0, 1),
        WaitStep::Done(Ok(0))
    ));
    assert!(matches!(sigcalls::sys_wait4(&mut s, &mut p, &mut m, -1, 0, 0), WaitStep::Sleep));
    threads::schedule(&mut s);
    threads::schedule(&mut s);
    threads::exit_current(&mut s, 3);
    match sigcalls::sys_wait4(&mut s, &mut p, &mut m, 8, 0x1100, 0) {
        WaitStep::Buried(r, Some(x)) => assert_eq!((r, x.kstack), (Ok(8), 0x6000)),
        _ => panic!("not found"),
    }
    assert_eq!(m.read_num(0x1100, 4), Ok(0x300));
    assert!(p.children.is_empty());
}

#[test]
fn replies() {
    let mut m = memory();
    assert_eq!(reply_one(&mut m, num_out(0x1000, 7, 4), 3), Ok(3));
    assert_eq!(m.read_num(0x1000, 4), Ok(7));
    assert_eq!(reply_one(&mut m, num_out(0x9000, 7, 4), 3), Err(14));
    let l = vec![bytes_out(0x1010, vec![1]), num_out(0x1011, 2, 1)];
    assert_eq!(reply_all(&mut m, &l, 0), Ok(0));
    assert_eq!(m.read_num(0x1010, 2), Ok(0x201));
    assert_eq!(store_each(&mut m, &vec![bytes_out(0x1fff, vec![1, 2])]), Err(14));
}

#[test]
fn socket_calls_by_number() {
    let a = [1usize, 2, 3, 4, 5, 6];
    assert_eq!(net_call(198, &a), Some(NetCall::Socket { domain: 1, ty: 2, proto: 3 }));
    assert_eq!(
        net_call(242, &a),
        Some(NetCall::Accept { fd: 1, addr: 2, addrlen: 3, nonblock: true })
    );
    assert_eq!(
        net_call(207, &a),
        Some(NetCall::RecvFrom { fd: 1, buf: 2, len: 3, flags: 4, addr: 5, addrlen: 6 })
    );
    assert_eq!(net_call(210, &a), Some(NetCall::Shutdown { fd: 1, how: 2 }));
    assert_eq!(
        net_call(269, &a),
        Some(NetCall::SendMmsg { fd: 1, hdrs: 2, count: 3, flags: 4 })
    );
    assert_eq!(net_call(208, &a), None);
    let far = [usize::MAX, 0, 0, 0, 0, 0];
    assert_eq!(net_call(201, &far), Some(NetCall::Listen { fd: -1, backlog: 0 }));
}

#[test]
fn a_mapping_moves() {
    let mut m = memory();
    assert_eq!(m.write_num(0x1000, 0x0102_0304, 4), Ok(()));
    let (s, ask) = remap_move(&m, 0x1000, 4, 0x1800, 8);
    assert_eq!(ask, RemapAsk::UnmapAt { addr: 0x1000, len: 4 });
    let (s, ask) = remap_next(s, Ok(0), &mut m);
    assert_eq!(ask, RemapAsk::MapAt { addr: 0x1800, len: 8, prot: 3, flags: 0x32 });
    let (_, ask) = remap_next(s, Ok(0x1800), &mut m);
    assert_eq!(ask, RemapAsk::Done(Ok(0x1800)));
    assert_eq!(m.read_num(0x1800, 4), Ok(0x0102_0304));
    assert_eq!(remap_move(&m, 0x9000, 4, 0x1800, 8).1, RemapAsk::Done(Err(14)));
    let (s, ask) = remap_grow(0x1000, 0x1400, 0x100);
    assert_eq!(ask, RemapAsk::MapAt { addr: 0x1400, len: 0x100, prot: 3, flags: 0x32 });
    assert_eq!(remap_next(s, Ok(0x1500), &mut m).1, RemapAsk::Done(Err(12)));
    let (s, _) = remap_grow(0x1000, 0x1400, 0x100);
    assert_eq!(remap_next(s, Ok(0x1400), &mut m).1, RemapAsk::Done(Ok(0x1000)));
    let (s, _) = remap_grow(0x1000, 0x1400, 0x100);
    assert_eq!(remap_next(s, Err(12), &mut m).1, RemapAsk::Done(Err(12)));
}

#[test]
fn a_transfer_sends_the_file() {
    let data: Vec<u8> = (0..100).collect();
    let mut t = Transfer { output: 1, input: 0, off: 90, total: 0 };
    let piece = sendfile_piece(&data, &t, 50);
    assert_eq!(piece, data[90..]);
    assert_eq!(sendfile_rest(&piece, 4), data[94..]);
    assert!(!sendfile_round(&mut t, 50, piece.len(), 4));
    assert_eq!((t.off, t.total), (94, 4));
    assert_eq!(sendfile_piece(&data, &t, 6), data[94..96]);
    t.off = 100;
    assert!(sendfile_piece(&data, &t, 6).is_empty());
}

#[test]
fn a_futex_wait_leaves_its_queue() {
    let s = Sched {
        states: vec![TaskState::Running, TaskState::Blocked],
        satps: vec![1, 2],
        runqueue: VecDeque::new(),
        current: Some(0),
        active_satp: 1,
    };
    let mut q = WaitQueue::new();
    q.add(1);
    q.add(0);
    let mut f = Futexes { queues: vec![FutexQueue { key: 0x80, queue: q }] };
    let mut l = vec![(0usize, 50u64), (1, 60)];
    assert_eq!(futex_woken(&mut f, &mut l, &s, 0x80, Some(50), 50, false), Err(110));
    assert_eq!(f.queues[0].queue.waiters, vec![1]);
    assert_eq!(l, vec![(1, 60)]);
    assert_eq!(futex_woken(&mut f, &mut l, &s, 0x80, None, 50, false), Ok(0));
    assert_eq!(futex_woken(&mut f, &mut l, &s, 0x80, None, 50, true), Err(4));
}

fn machine() -> Machine {
    Machine { realtime_ns: 5_000_000_006, uptime_ns: 7, total_frames: 8, free_frames: 3 }
}

#[test]
fn calls_by_number() {
    let mut p = Process::new(7, 0);
    let mut files: Vec<File> = Vec::new();
    let mut m = memory();
    let a = [0usize; 6];
    let mut go = |nr: usize, a: &[usize; 6], m: &mut UserMem| {
        dispatch::dispatch(nr, a, &mut p, &mut files, m, &machine(), 0)
    };
    assert!(matches!(go(172, &a, &mut m), Step::Done(Ok(7))));
    assert!(matches!(go(293, &a, &mut m), Step::Done(Err(38))));
    assert!(matches!(go(9999, &a, &mut m), Step::Done(Err(38))));
    assert!(matches!(go(93, &[3, 0, 0, 0, 0, 0], &mut m), Step::Num(NumCall::Exit(_))));
    assert!(matches!(go(124, &a, &mut m), Step::Num(NumCall::Yield)));
    assert!(matches!(go(63, &a, &mut m), Step::Done(Err(9))));
    assert!(matches!(go(113, &[0, 0x1000, 0, 0, 0, 0], &mut m), Step::Done(Ok(0))));
    assert_eq!((m.read_num(0x1000, 8), m.read_num(0x1008, 8)), (Ok(5), Ok(6)));
    text(&mut m, 0x1100, b"/etc/x\0");
    let open = [(-100isize) as usize, 0x1100, 0, 0, 0, 0];
    match go(56, &open, &mut m) {
        Step::Path(c) => assert_eq!(c.path, b"/etc/x"),
        _ => panic!("not a path call"),
    }
    assert_eq!(dispatch::encode(Ok(5)), 5);
    assert_eq!(dispatch::encode(Err(22)) as isize, -22);
    assert_eq!(basic::plain(173, &Process::new(3, 0)), Some(Ok(0)));
}

#[test]
fn a_trap_makes_a_call() {
    let mut tf = TrapFrame { x: [0; 32], sepc: 0x100, sstatus: 0 };
    tf.x[17] = 172;
    let mut p = Some(Process::new(9, 0));
    let mut files = Vec::new();
    let mut m = memory();
    assert!(matches!(
        dispatch::handle(&mut tf, &mut p, &mut files, &mut m, &machine(), 0),
        Some(Step::Done(Ok(9)))
    ));
    assert_eq!((tf.x[10], tf.sepc), (9, 0x100));
    let mut none = None;
    assert!(dispatch::handle(&mut tf, &mut none, &mut files, &mut m, &machine(), 0).is_none());
    assert_eq!(tf.x[10] as isize, -38);
}

#[test]
fn descriptors_of_a_process() {
    let mut p = Process::new(7, 0);
    let mut files: Vec<File> = Vec::new();
    let mut m = memory();
    assert_eq!(files::eventfd2(&mut p, &mut files, 4, 0), Ok(0));
    assert_eq!(files::pipe2(&mut p, &mut files, &mut m, 1, 0x1000, 0), Ok(0));
    assert_eq!((m.read_num(0x1000, 4), m.read_num(0x1004, 4)), (Ok(1), Ok(2)));
    assert_eq!(files::dup(&mut p, &files, 0, 10), Ok(10));
    assert_eq!(files::dup3(&mut p, &files, 2, 0), Ok(0));
    assert_eq!(files::close(&mut p, &files, 10), Ok(0));
    assert_eq!(files::close(&mut p, &files, 10), Err(9));
    assert_eq!(files::fcntl(&mut p, &mut files, 1, 2, 1), Ok(0));
    assert_eq!(files::fcntl(&mut p, &mut files, 1, 1, 0), Ok(1));
    assert_eq!(files::fcntl(&mut p, &mut files, 1, 4, 0o4000), Ok(0));
    assert_eq!(files::fcntl(&mut p, &mut files, 1, 3, 0).map(|x| x & 0o4000), Ok(0o4000));
    assert_eq!(files::fcntl(&mut p, &mut files, 99, 1, 0), Err(9));
    assert_eq!(files::ioctl(&p, &mut files, &mut m, 99, 0x5421, 0x1000), Err(9));
    assert_eq!(files::getcwd(&mut m, 0x1000, 100), Ok(0x1000));
    assert_eq!(files::getcwd(&mut m, 0x1000, 1), Err(34));
    assert_eq!(files::readlink(&mut m, &b"target".to_vec(), 0x1000, 3), Ok(3));
    assert_eq!(m.copy_from_user(0x1000, 3).unwrap(), b"tar");
}

#[test]
fn opening() {
    let mut p = Process::new(7, 0);
    let mut files: Vec<File> = Vec::new();
    let node = |kind| Node { inode: 5, kind, rdev: 0, size: 10 };
    assert_eq!(files::open_found(Err(2), 0), OpenStep::Fail(2));
    assert_eq!(files::open_found(Err(2), 0o100), OpenStep::Create(Kind::File));
    assert_eq!(files::open_found(Ok(node(Kind::Symlink)), 0o400000), OpenStep::Fail(40));
    assert_eq!(files::open_found(Ok(node(Kind::Symlink)), 0), OpenStep::Follow);
    assert_eq!(files::open_found(Ok(node(Kind::File)), 0), OpenStep::Open(node(Kind::File)));
    assert!(files::must_truncate(&node(Kind::File), 0o1001));
    assert_eq!(files::open_node(&mut p, &mut files, &node(Kind::File), 0, 0), Ok(0));
    assert_eq!(files::inode_of(&files[0]), Some(5));
    assert_eq!(files::open_node(&mut p, &mut files, &node(Kind::Dir), 0, 0), Ok(1));
    assert_eq!(files::resolve_dir(&p, &files, 1, &b"x".to_vec()), Ok(5));
    assert_eq!(files::eventfd2(&mut p, &mut files, 4, 0), Ok(2));
    assert_eq!(files::resolve_dir(&p, &files, 2, &b"x".to_vec()), Err(20));
    assert_eq!(files::fchdir(&mut p, &files, 1), Ok(0));
    assert_eq!(p.cwd, 5);
    assert_eq!(files::fchdir(&mut p, &files, 2), Err(20));
    assert_eq!(files::chdir(&mut p, Err(2)), Err(2));
}

#[test]
fn buffers_and_records() {
    let mut m = memory();
    num(&mut m, 0x1000, 0x1100, 8);
    num(&mut m, 0x1008, 3, 8);
    num(&mut m, 0x1010, 0x1200, 8);
    num(&mut m, 0x1018, 2, 8);
    let l = transfer::read_iovs(&m, 0x1000, 2).unwrap();
    assert_eq!(l, vec![(0x1100, 3), (0x1200, 2)]);
    assert_eq!(transfer::scatter(&mut m, &l, &b"abcde".to_vec()), Ok(()));
    assert_eq!(transfer::gather(&m, &l).unwrap(), b"abcde");
    assert_eq!(m.copy_from_user(0x1200, 2).unwrap(), b"de");
    assert_eq!(transfer::room_of(&l, 100), 5);
    assert_eq!(transfer::room_of(&l, 4), 4);
    let mut p = Process::new(7, 0);
    let mut files: Vec<File> = Vec::new();
    let dir = File { obj: FileObj::Dir { inode: 1, offset: 0 }, status: 0, cloexec: false };
    assert_eq!(files::open_file(&mut p, &mut files, dir), Ok(0));
    let entries = vec![Dirent { name: b"abc".to_vec(), ino: 9, dtype: 8 }];
    let n = transfer::sys_getdents64(&p, &mut files, &mut m, &entries, 0, 0x1300, 100);
    assert_eq!(n, Ok(24));
    assert_eq!(m.read_num(0x1300, 8), Ok(9));
    assert_eq!(m.read_num(0x1310, 2), Ok(24));
    assert_eq!(m.read_cstr(0x1313, 9).unwrap(), b"abc");
    let n = transfer::sys_getdents64(&p, &mut files, &mut m, &entries, 0, 0x1300, 100);
    assert_eq!(n, Ok(0));
    let s = Stat {
        dev: 1,
        ino: 2,
        mode: 0o100644,
        nlink: 1,
        uid: 0,
        gid: 0,
        rdev: 0,
        size: 77,
        blksize: 4096,
        blocks: 1,
        atime: 0,
        mtime: 0,
        ctime: 0,
    };
    assert_eq!(transfer::write_stat(&mut m, 0x1400, &s), Ok(()));
    assert_eq!((m.read_num(0x1408, 8), m.read_num(0x1430, 8)), (Ok(2), Ok(77)));
}

#[test]
fn steps_of_reading_and_writing() {
    let mut m = memory();
    assert_eq!(
        transfer::read_step(&mut m, 0x1000, Ok(b"hi".to_vec()), false, false),
        IoStep::Done(Ok(2))
    );
    assert_eq!(transfer::read_step(&mut m, 0x1000, Err(11), false, false), IoStep::Sleep);
    assert_eq!(transfer::read_step(&mut m, 0x1000, Err(11), false, true), IoStep::Done(Err(4)));
    assert_eq!(transfer::read_step(&mut m, 0x1000, Err(11), true, false), IoStep::Done(Err(11)));
    assert_eq!(transfer::write_step(0, 5, Ok(3), false, false), WriteStep::More(3));
    assert_eq!(transfer::write_step(3, 5, Ok(2), false, false), WriteStep::Done(Ok(5)));
    assert_eq!(transfer::write_step(3, 5, Err(11), false, false), WriteStep::Done(Ok(3)));
    assert_eq!(transfer::writev_step(4, Ok(3)), VecStep::Next(7));
    let f = File { obj: FileObj::Regular { inode: 6, offset: 0 }, status: 0, cloexec: false };
    assert_eq!(transfer::pread_from(&f), PlaceStep::Inode(6));
    let pipe = FileObj::Pipe { pipe: 0, write_end: true };
    let g = File { obj: pipe, status: 0, cloexec: false };
    assert_eq!(transfer::pread_from(&g), PlaceStep::Current);
    assert_eq!(transfer::pwrite_to(&g), PlaceStep::Fail(29));
    assert_eq!(transfer::sendfile_end(&mut m, 0x1000, 5, Ok(4)), Ok(4));
    assert_eq!(m.read_num(0x1000, 8), Ok(9));
}

#[test]
fn readiness_of_descriptors() {
    let mut p = Process::new(7, 0);
    let mut files: Vec<File> = Vec::new();
    let mut m = memory();
    assert_eq!(files::epoll_create1(&mut p, &mut files, 3, 0), Ok(0));
    assert_eq!(files::eventfd2(&mut p, &mut files, 4, 0), Ok(1));
    num(&mut m, 0x1000, 1, 4);
    num(&mut m, 0x1004, 1, 2);
    let ready = vec![0u32, 5];
    assert_eq!(readiness::poll_look(&p, &ready, &mut m, 0x1000, 1), Ok(1));
    assert_eq!(m.read_num(0x1006, 2), Ok(1));
    let idle = vec![0u32, 0];
    assert_eq!(
        readiness::sys_poll_common(&p, &idle, &mut m, 0x1000, 1, 0, 0),
        IoStep::Done(Ok(0))
    );
    assert_eq!(
        readiness::sys_poll_common(&p, &idle, &mut m, 0x1000, 1, -1, 0),
        IoStep::Sleep
    );
    num(&mut m, 0x1300, 2, 8);
    let sets = Sets { read: 0x1300, write: 0, except: 0 };
    assert_eq!(
        readiness::sys_pselect6(&p, &idle, &mut m, 2, &sets, -1, 0),
        IoStep::Sleep
    );
    assert_eq!(
        readiness::sys_pselect6(&p, &ready, &mut m, 2, &sets, -1, 0),
        IoStep::Done(Ok(1))
    );
    assert_eq!(m.read_num(0x1300, 8), Ok(2));
    assert_eq!(
        readiness::sys_pselect6(&p, &idle, &mut m, 2, &sets, 0, 0),
        IoStep::Done(Ok(0))
    );
    assert_eq!(m.read_num(0x1300, 8), Ok(0));
    num(&mut m, 0x1300, 4, 8);
    assert_eq!(
        readiness::sys_pselect6(&p, &idle, &mut m, 3, &sets, 0, 0),
        IoStep::Done(Err(9))
    );
    assert_eq!(
        readiness::sys_pselect6(&p, &idle, &mut m, 2000, &sets, 0, 0),
        IoStep::Done(Err(22))
    );
    num(&mut m, 0x1100, 5, 4);
    num(&mut m, 0x1108, 0xabcd, 8);
    let c = readiness::epoll_ctl(&p, &files, &m, 0, 1, 1, 0x1100).ok().unwrap();
    assert_eq!((c.epoll, c.fd, c.events, c.data), (3, 1, 5, 0xabcd));
    assert_eq!(readiness::epoll_ctl(&p, &files, &m, 9, 1, 1, 0x1100).err(), Some(9));
    assert_eq!(readiness::epoll_ctl(&p, &files, &m, 0, 1, 1, 0x9000).err(), Some(14));
    assert_eq!(readiness::epoll_of(&p, &files, 1), Err(22));
    let items = vec![EpItem { fd: 1, events: 5, data: 0xabcd }];
    assert_eq!(readiness::epoll_look(&p, &ready, &mut m, &items, 0x1200, 4), Ok(1));
    assert_eq!((m.read_num(0x1200, 4), m.read_num(0x1208, 8)), (Ok(5), Ok(0xabcd)));
}

#[test]
fn memory_calls() {
    let fds = FdTable::new(10);
    let files: Vec<OpenFile> = Vec::new();
    let r = mm::sys_mmap(&fds, &files, 0, 100, 3, 0x22, -1, 0, false).ok().unwrap();
    assert_eq!((r.len, r.prot.r, r.prot.w, r.prot.x), (100, true, true, false));
    assert_eq!(mm::sys_mmap(&fds, &files, 0, 0, 3, 0x22, -1, 0, false).err(), Some(22));
    assert_eq!(mm::sys_mmap(&fds, &files, 0, 100, 3, 2, 5, 0, false).err(), Some(9));
    assert_eq!(mm::sys_munmap(1, 4096), Err(22));
    assert_eq!(mm::sys_munmap(4096, 4096), Ok(()));
    let mut m = memory();
    text(&mut m, 0x1000, b"hello");
    m.add_area(0x8000, vec![0; 0x1000]);
    assert_eq!(mm::copy_pages(&mut m, 0x1000, 0x8000, 0x1000), Ok(()));
    assert_eq!(m.copy_from_user(0x8000, 5).unwrap(), b"hello");
    assert_eq!(mm::copy_pages(&mut m, 0x1000, 0x9000, 0x1000), Err(14));
}
