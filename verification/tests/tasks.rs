//! Threads, schedulers, traps and signals.

use ijiege::signal as frames;
use ijiege::syscall::sigcalls::{sigsuspend, sigsuspend_round};
use ijiege::task::context::TaskContext;
use ijiege::task::manager::{ManagedTask, TaskManager, TaskState};
use ijiege::task::pid::{pid_alloc, PidAllocator};
use ijiege::task::process::Process;
use ijiege::task::processor::Processor;
use ijiege::task::sched;
use ijiege::task::sched::Sched;
use ijiege::task::scheduler;
use ijiege::task::signal::{deliver, sigreturn, Outcome, SigAction, SigInfo, SignalState, UserRegs};
use ijiege::task::tcb::{KernelAddrs, Space, TaskControlBlock, TaskStatus};
use ijiege::task::threads;
use ijiege::task::threads::{Fault, FutexStep, State, Switch};
use ijiege::task::wait::{
    add_sleeper, block_on, block_on_until, leave_all, remove_sleeper, sleep_on, Step, WaitQueue,
};
use ijiege::trap;
use ijiege::trap::context::TrapContext;
use ijiege::trap::frame;
use ijiege::trap::frame::TrapFrame;
use ijiege::uaccess::UserMem;
use std::collections::VecDeque;

fn memory(start: usize, len: usize) -> UserMem {
    let mut m = UserMem::new();
    m.add_area(start, vec![0; len]);
    m
}

#[test]
fn threads_take_turns() {
    let mut s = threads::init(0x1000, 0x2000);
    assert_eq!(threads::schedule(&mut s), Switch::Stay);
    assert_eq!(threads::spawn_kernel(&mut s, 0x3000, 0x4000), 1);
    assert_eq!(threads::spawn_user(&mut s, Process::new(7, 0), 0x5000, 0x6000), 7);
    assert_eq!(threads::schedule(&mut s), Switch::To { from: 0, to: 1, tf: 0x3000 });
    assert_eq!(threads::schedule(&mut s), Switch::To { from: 1, to: 2, tf: 0x5000 });
    assert_eq!(threads::schedule(&mut s), Switch::To { from: 2, to: 0, tf: 0x1000 });
    assert_eq!(threads::schedule(&mut s), Switch::To { from: 0, to: 1, tf: 0x3000 });
    assert_eq!(threads::preempt(&mut s), Switch::Stay);
    assert_eq!(threads::schedule(&mut s), Switch::To { from: 1, to: 2, tf: 0x5000 });
    for _ in 0..7 {
        assert_eq!(threads::preempt(&mut s), Switch::Stay);
    }
    assert_eq!(threads::preempt(&mut s), Switch::To { from: 2, to: 0, tf: 0x1000 });
    assert_eq!(threads::thread_index_by_tid(&s, 7), Some(2));
    assert_eq!(threads::thread_index_by_tid(&s, 9), None);
}

#[test]
fn sleeping_and_waking() {
    let mut s = threads::init(0x1000, 0x2000);
    threads::spawn_user(&mut s, Process::new(7, 0), 0x5000, 0x6000);
    threads::schedule(&mut s);
    threads::schedule(&mut s);
    assert_eq!(threads::current_index(&s), 1);
    assert_eq!(threads::current_process(&s).pid, 7);
    assert_eq!(threads::sleep_ticks(&mut s, 5, 10), Switch::To { from: 1, to: 0, tf: 0x1000 });
    threads::on_timer(&mut s, 14);
    assert!(s.threads[1].state == State::Blocked);
    threads::on_timer(&mut s, 15);
    assert!(s.threads[1].state == State::Ready);
    assert_eq!(s.ready, vec![1]);
}

#[test]
fn a_child_ends() {
    let mut s = threads::init(0x1000, 0x2000);
    threads::spawn_user(&mut s, Process::new(7, 0), 0x5000, 0x6000);
    threads::spawn_user(&mut s, Process::new(8, 0), 0x7000, 0x8000);
    for _ in 0..3 {
        threads::schedule(&mut s);
    }
    assert_eq!(threads::current(&s).tid, 8);
    assert_eq!(threads::child_exit_code(&s, 8), None);
    assert_eq!(threads::exit_current(&mut s, 3).pid, 8);
    assert_eq!(threads::child_exit_code(&s, 8), Some(3));
    threads::notify_parent(&mut s, 8, 7, 3);
    let sig = &s.threads[1].process.as_ref().unwrap().sig;
    assert_eq!(sig.pending, 1 << 16);
    assert_eq!((sig.info[17].pid, sig.info[17].status, sig.info[17].code), (8, 3, 1));
    let r = threads::reap_child(&mut s, 8).unwrap();
    assert_eq!((r.kstack, r.tf_frame, r.had_process), (0x8000, 0x7000, true));
    assert_eq!(threads::child_exit_code(&s, 8), Some(3));
    assert!(threads::reap_child(&mut s, 8).is_none());
}

#[test]
fn clone_and_faults() {
    assert_eq!(threads::sys_clone(0x1_0100), Err(38));
    assert_eq!(threads::sys_clone(0x120_0011), Ok(()));
    let mut s = threads::init(0x1000, 0x2000);
    assert_eq!(threads::page_fault(&s, 13, false), Fault::Halt);
    threads::spawn_user(&mut s, Process::new(7, 0), 0x5000, 0x6000);
    threads::schedule(&mut s);
    threads::schedule(&mut s);
    assert_eq!(threads::page_fault(&s, 13, true), Fault::Resolved);
    assert_eq!(threads::page_fault(&s, 13, false), Fault::Signal(11));
    assert_eq!(threads::page_fault(&s, 15, false), Fault::Signal(7));
    assert_eq!(threads::fault(), Fault::Signal(7));
}

#[test]
fn waiting_for_a_word() {
    let mut s = threads::init(0x1000, 0x2000);
    threads::spawn_user(&mut s, Process::new(7, 0), 0x5000, 0x6000);
    threads::schedule(&mut s);
    threads::schedule(&mut s);
    let mut mem = memory(0x100, 8);
    assert_eq!(mem.write_num(0x100, 5, 4), Ok(()));
    let mut w = Vec::new();
    assert_eq!(threads::futex_wait(&mut s, &mut w, &mem, 0x200, 5), Err(14));
    assert_eq!(threads::futex_wait(&mut s, &mut w, &mem, 0x100, 6), Err(11));
    assert_eq!(threads::futex_wait(&mut s, &mut w, &mem, 0x100, 5), Ok(()));
    assert_eq!(w, vec![(0x100, 7)]);
    assert_eq!(threads::futex_round(&mut s, &mut w, &mem, 0x100, 5), None);
    assert_eq!(threads::futex_wake(&mut s, &w, 0x104, 9), 0);
    assert_eq!(threads::futex_wake(&mut s, &w, 0x100, 9), 1);
    assert_eq!(threads::futex_round(&mut s, &mut w, &mem, 0x100, 5), Some(Ok(0)));
    assert!(w.is_empty());
}

#[test]
fn futex_commands() {
    let mut s = threads::init(0x1000, 0x2000);
    threads::spawn_user(&mut s, Process::new(7, 0), 0x5000, 0x6000);
    threads::schedule(&mut s);
    threads::schedule(&mut s);
    let mut mem = memory(0x100, 8);
    assert_eq!(mem.write_num(0x100, 5, 4), Ok(()));
    let mut w = Vec::new();
    assert_eq!(threads::futex(&mut s, &mut w, &mem, 0x200, 0, 5), FutexStep::Done(Err(14)));
    assert_eq!(threads::futex(&mut s, &mut w, &mem, 0x100, 128, 6), FutexStep::Done(Err(11)));
    assert_eq!(threads::futex(&mut s, &mut w, &mem, 0x100, 128 + 9, 5), FutexStep::Wait);
    assert_eq!(w, vec![(0x100, 7)]);
    assert_eq!(threads::futex(&mut s, &mut w, &mem, 0x100, 5, 5), FutexStep::Done(Ok(0)));
    assert_eq!(threads::futex(&mut s, &mut w, &mem, 0x100, 129, 1), FutexStep::Done(Ok(1)));
    assert_eq!(threads::futex_round(&mut s, &mut w, &mem, 0x100, 5), Some(Ok(0)));
    assert_eq!(threads::futex(&mut s, &mut w, &mem, 0x100, 0, 5), FutexStep::Wait);
    assert_eq!(threads::futex_round(&mut s, &mut w, &mem, 0x100, 5), None);
    let i = s.current;
    s.threads[i].process.as_mut().unwrap().sig.pending = 2;
    assert_eq!(threads::futex_round(&mut s, &mut w, &mem, 0x100, 5), Some(Err(4)));
    assert!(w.is_empty());
    assert_eq!(threads::futex(&mut s, &mut w, &mem, 0x100, 10, 1), FutexStep::Done(Ok(0)));
}

#[test]
fn a_child_starts_with_zero() {
    let mut tf = TrapFrame { x: [9; 32], sepc: 0x1234, sstatus: 0x20 };
    tf.set_a0(77);
    let c = threads::child_frame(&tf);
    assert_eq!((c.a0(), c.a1(), c.sp()), (0, 9, 9));
    assert_eq!((c.sepc, c.sstatus), (0x1234, 0x20));
    let mut s = threads::init(0x1000, 0x2000);
    threads::spawn_user(&mut s, Process::new(7, 0), 0x5000, 0x6000);
    let t = s.threads.last().unwrap();
    assert_eq!((t.tf_frame, t.kstack, t.wake_tick), (0x5000, 0x6000, 0));
}

#[test]
fn sleeping_on_several_queues() {
    let mut s = Sched {
        states: vec![sched::TaskState::Running, sched::TaskState::Blocked],
        satps: vec![10, 20],
        runqueue: VecDeque::new(),
        current: Some(0),
        active_satp: 10,
    };
    let mut q = vec![WaitQueue::new(), WaitQueue::new(), WaitQueue::new()];
    sleep_on(&mut q, &vec![0, 2, 0], &mut s);
    assert_eq!(q[0].waiters, vec![0]);
    assert!(q[1].is_empty());
    assert_eq!(q[2].waiters, vec![0]);
    q[2].add(1);
    leave_all(&mut q, &vec![0, 2], 0);
    assert!(q[0].is_empty());
    assert_eq!(q[2].waiters, vec![1]);
    let mut l = Vec::new();
    add_sleeper(&mut l, 3, 50);
    add_sleeper(&mut l, 4, 60);
    remove_sleeper(&mut l, 3);
    assert_eq!(l, vec![(4, 60)]);
}

fn regs() -> UserRegs {
    let mut x = vec![0usize; 32];
    for i in 1..32 {
        x[i] = 0x100 * i;
    }
    x[2] = 0x9000;
    UserRegs { x, sepc: 0x1234 }
}

#[test]
fn a_handler_runs_and_returns() {
    let mut s = SignalState::new();
    let mut t = regs();
    let mut m = memory(0x8000, 0x1000);
    let fp = vec![7u8; 528];
    assert_eq!(deliver(&mut s, &mut t, &mut m, &fp, 0x77), Outcome::Quiet);
    s.actions[10] = SigAction { handler: 0x4000, flags: 4, restorer: 0, mask: 0x2 };
    s.blocked = 1;
    s.raise(10);
    assert_eq!(deliver(&mut s, &mut t, &mut m, &fp, 0x77), Outcome::Handler);
    assert_eq!((t.sepc, t.x[10], t.x[1]), (0x4000, 10, 0x77));
    assert_eq!(t.x[12], t.x[2] + 128);
    assert_eq!(t.x[2] % 16, 0);
    assert_eq!(s.blocked, 1 | 2 | 1 << 9);
    assert_eq!(m.read_num(t.x[2], 4), Ok(10));
    assert_eq!(s.pending, 0);
    let (a0, f) = sigreturn(&mut s, &mut t, &m).unwrap();
    assert_eq!((a0, t.sepc, t.x[2], t.x[31]), (0xa00, 0x1234, 0x9000, 0x1f00));
    assert_eq!(f[..528], fp[..]);
    assert_eq!(s.blocked, 1);
    t.x[2] = 0x10_0000;
    assert_eq!(sigreturn(&mut s, &mut t, &m).err(), Some(14));
}

#[test]
fn default_actions() {
    let mut s = SignalState::new();
    let mut t = regs();
    let mut m = memory(0x8000, 0x1000);
    let fp = vec![0u8; 528];
    s.raise(17);
    assert_eq!(deliver(&mut s, &mut t, &mut m, &fp, 0), Outcome::Dropped);
    s.raise(15);
    assert_eq!(deliver(&mut s, &mut t, &mut m, &fp, 0), Outcome::Exit(143));
    s.raise_with(11, SigInfo { addr: 5, ..SigInfo::default() });
    assert!(s.info[11].has_info);
    s.actions[11].handler = 1;
    assert!(s.is_ignored(11) && s.is_default(12));
    s.reset_for_exec();
    assert!(s.is_ignored(11));
    assert_eq!(s.pending, 0);
}

#[test]
fn a_suspension_keeps_its_mask_until_delivery() {
    let mut p = Process::new(3, 0);
    let mut m = memory(0x8000, 0x1000);
    p.sig.blocked = 1 << 9;
    assert_eq!(m.write_num(0x8000, 0, 8), Ok(()));
    assert_eq!(sigsuspend(&mut p, &m, 0x1), Err(14));
    let saved = sigsuspend(&mut p, &m, 0x8000).unwrap();
    assert_eq!(saved, 1 << 9);
    assert_eq!(sigsuspend_round(&mut p, saved), None);
    p.sig.actions[10].handler = 0x4000;
    p.sig.raise(10);
    assert_eq!(sigsuspend_round(&mut p, saved), Some(Err(4)));
    assert_eq!(p.sig.blocked, 0);
    let mut t = regs();
    let fp = vec![0u8; 528];
    assert_eq!(
        threads::deliver_signals(&mut p, &mut t, &mut m, &fp, 0),
        Outcome::Handler
    );
    assert!(!p.sig.in_sigsuspend);
    assert!(sigreturn(&mut p.sig, &mut t, &m).is_ok());
    assert_eq!(p.sig.blocked, 1 << 9);
    p.sig.raise(9);
    assert_eq!(
        threads::deliver_signals(&mut p, &mut t, &mut m, &fp, 0),
        Outcome::Exit(137)
    );
}

#[test]
fn frames_on_the_stack() {
    let mut s = frames::SignalState::new();
    let mut t = frames::TrapFrame { regs: vec![3; 32], sepc: 0x1111, sstatus: 0 };
    t.regs[2] = 0x9000;
    let mut m = memory(0x8000, 0x1000);
    assert_eq!(frames::maybe_deliver(&mut s, &mut t, &mut m, 0x77), frames::Delivery::Quiet);
    s.handlers[5] = 0x4000;
    s.pending = (1 << 4) | (1 << 16) | (1 << 22) | (1 << 27);
    assert!(frames::has_pending(&s));
    assert_eq!(frames::next_pending(&s), 5);
    assert_eq!(frames::maybe_deliver(&mut s, &mut t, &mut m, 0x77), frames::Delivery::Handler);
    assert_eq!((t.sepc, t.regs[10]), (0x4000, 5));
    assert_eq!(t.regs[2], 0x9000 - 288);
    frames::sigreturn(&mut s, &mut t, &m);
    assert_eq!((t.sepc, t.regs[2], t.regs[10]), (0x1111, 0x9000, 3));
    assert_eq!(frames::maybe_deliver(&mut s, &mut t, &mut m, 0x77), frames::Delivery::Quiet);
    assert_eq!(s.pending, 0);
    assert!(frames::SignalState::default_ignore(23) && !frames::SignalState::default_ignore(20));
    s.pending = 1 << 19;
    assert_eq!(frames::maybe_deliver(&mut s, &mut t, &mut m, 0x77), frames::Delivery::Exit(148));
    assert_eq!(frames::install_trampoline(), [0x93, 0x08, 0xb0, 0x08, 0x73, 0, 0, 0]);
}

#[test]
fn a_sent_signal_is_pending() {
    let task = |state| frames::SigTask { state, wchan: 1, sig: frames::SignalState::new() };
    let mut l = vec![task(frames::RunState::Ready), task(frames::RunState::Blocked)];
    let mut q: VecDeque<usize> = VecDeque::new();
    frames::send_signal(&mut l, &mut q, 1, 3);
    assert_eq!(l[1].sig.pending, 4);
    assert_eq!(q, [1]);
    frames::send_signal(&mut l, &mut q, 1, 0);
    assert_eq!(l[1].sig.pending, 4);
    assert_eq!(q, [1]);
    l[1].state = frames::RunState::Blocked;
    frames::send_signal(&mut l, &mut q, 1, 0);
    assert_eq!(l[1].sig.pending, 4);
    assert_eq!(q, [1, 1]);
}

#[test]
fn run_queue() {
    let mut s = Sched {
        states: vec![sched::TaskState::Running, sched::TaskState::Blocked],
        satps: vec![10, 20],
        runqueue: VecDeque::new(),
        current: Some(0),
        active_satp: 10,
    };
    assert_eq!(sched::yield_now(&mut s), sched::Switch::Stay);
    sched::make_runnable(&mut s, 1);
    assert_eq!(sched::runqueue_len(&s), 1);
    assert_eq!(
        sched::yield_now(&mut s),
        sched::Switch::To { from: Some(0), to: 1, satp: Some(20) }
    );
    let mut w = WaitQueue::new();
    assert_eq!(w.wait_until(&mut s, Some(5), 5), None);
    assert_eq!(
        w.wait(&mut s),
        sched::Switch::To { from: Some(1), to: 0, satp: Some(10) }
    );
    assert_eq!(w.waiters, vec![1]);
    w.wake_one(&mut s);
    assert!(w.is_empty());
    assert!(matches!(s.states[1], sched::TaskState::Runnable));
    assert!(matches!(block_on(Ok::<u8, i32>(3), false, false), Step::Done(Ok(3))));
    assert!(matches!(block_on(Err::<u8, i32>(11), false, false), Step::Block));
    assert!(matches!(block_on(Err::<u8, i32>(11), false, true), Step::Done(Err(4))));
    assert!(matches!(block_on(Err::<u8, i32>(11), true, true), Step::Done(Err(11))));
    assert!(matches!(
        block_on_until(Err::<u8, i32>(11), Some(5), 6, false),
        Step::Done(Err(11))
    ));
}

#[test]
fn managed_tasks() {
    let task = |pid| ManagedTask {
        pid,
        state: TaskState::Ready,
        exit_code: 0,
        kernel_stack_top: 0x100 * pid,
    };
    let mut m = TaskManager::new();
    m.add_task(task(1));
    m.add_task(task(2));
    assert_eq!(
        scheduler::schedule(&mut m, 0),
        scheduler::Next::Switch { from: None, to: 1, stack_top: 0x100 }
    );
    assert_eq!(
        scheduler::schedule(&mut m, 0),
        scheduler::Next::Switch { from: Some(1), to: 2, stack_top: 0x200 }
    );
    let i = m.find(2).unwrap();
    m.tasks[i].state = TaskState::Sleeping(50);
    assert_eq!(
        scheduler::schedule(&mut m, 10),
        scheduler::Next::Switch { from: Some(2), to: 1, stack_top: 0x100 }
    );
    assert_eq!(scheduler::schedule(&mut m, 20), scheduler::Next::Same);
    assert_eq!(scheduler::schedule(&mut m, 50), scheduler::Next::Same);
    assert_eq!(
        scheduler::schedule(&mut m, 50),
        scheduler::Next::Switch { from: Some(1), to: 2, stack_top: 0x200 }
    );
    assert_eq!(
        scheduler::current_task_exit(&mut m, 9, 60),
        scheduler::Next::Switch { from: None, to: 1, stack_top: 0x100 }
    );
    let i = m.find(2).unwrap();
    assert!(m.tasks[i].state == TaskState::Zombie(9));
}

#[test]
fn numbers_are_used_again() {
    let mut a = PidAllocator::new();
    let x = pid_alloc(&mut a).0;
    let y = pid_alloc(&mut a).0;
    assert_ne!(x, y);
    a.dealloc(x);
    assert_eq!(pid_alloc(&mut a).0, x);
}

#[test]
fn control_blocks() {
    let k = KernelAddrs { token: 5, trap_handler: 6, trap_return: 7 };
    let s = Space { token: 1, trap_cx_ppn: 2, user_sp: 0x8000, entry: 0x400, heap_bottom: 0x9000 };
    let mut t = TaskControlBlock::new_initproc(1, &s, &k, 0xf000, vec![Some(0), None, Some(2)]);
    assert_eq!((t.pid(), t.inner.user_token()), (1, 1));
    assert_eq!(t.inner.trap_cx.sepc, 0x400);
    assert_eq!(t.inner.alloc_fd(9), 1);
    assert_eq!(t.inner.alloc_fd(8), 3);
    assert_eq!(t.inner.get_fd(1), Some(9));
    assert_eq!(t.inner.get_fd(4), None);
    let c = t.fork(2, 11, 12, &k, 0xe000);
    assert_eq!(t.inner.children, vec![2]);
    assert_eq!(c.inner.get_fd(3), Some(8));
    assert_eq!(c.inner.trap_cx.kernel_sp, 0xe000);
    t.exec(&Space { entry: 0x500, ..s }, &k);
    assert_eq!(t.inner.trap_cx.sepc, 0x500);
    let mut p = Processor::new();
    p.tasks.push(t);
    p.tasks.push(c);
    p.add_task(0);
    p.add_task(1);
    assert_eq!(p.run_tasks(), Some(0));
    assert_eq!(p.current_user_token(), 1);
    assert_eq!(p.suspend_current_and_run_next(), 0);
    assert_eq!(p.run_tasks(), Some(1));
    assert!(p.tasks[1].inner.status() == TaskStatus::Running);
    assert_eq!(p.take_current_task(), Some(1));
    assert_eq!(p.fetch_task(), Some(0));
}

#[test]
fn traps_and_contexts() {
    let mut tf = trap::TrapFrame::new_user(0x400, 0x8000, 0xf000);
    assert_eq!((tf.sepc, tf.sp()), (0x400, 0x8000));
    assert_eq!(trap::user_trap_handler(&mut tf, 8), trap::UserTrap::Syscall);
    assert_eq!(tf.sepc, 0x404);
    assert_eq!(
        trap::user_trap_handler(&mut tf, 13),
        trap::UserTrap::Fault(trap::AccessKind::Read)
    );
    assert_eq!(trap::user_trap_handler(&mut tf, 2), trap::UserTrap::Signal(4));
    assert_eq!(trap::user_trap_handler(&mut tf, 6), trap::UserTrap::Signal(7));
    assert_eq!(trap::user_trap_handler(&mut tf, 77), trap::UserTrap::Unknown);
    let irq = 0x8000_0000_0000_0005;
    assert_eq!(
        trap::handle_interrupt(irq, true),
        trap::Interrupt::Timer { yields: true }
    );
    assert_eq!(trap::handle_interrupt(irq + 4, false), trap::Interrupt::External);
    assert_eq!(trap::fault_signal(trap::FaultError::Io), 7);
    assert_eq!(trap::fault_signal(trap::FaultError::NoMapping), 11);
    assert_eq!(trap::init(), 0x220);
    tf.set_a0(9);
    assert_eq!((tf.a0(), tf.syscall_args()[0]), (9, 9));
    assert_eq!(frame::cause_name(8), "ecall from U");
    assert_eq!(frame::cause_name(0x8000_0000_0000_0005), "supervisor timer interrupt");
    assert_eq!(frame::cause_name(99), "unknown");
    let kt = frame::TrapFrame { x: [0; 32], sepc: 0, sstatus: 0x100 };
    assert!(frame::trap_handler(&kt) == frame::TrapFrom::Kernel);
    let cx = TaskContext::goto_trap_return(0x10, 0x20);
    assert_eq!((cx.sp, cx.ra, cx.s), (0x10, 0x20, [0; 12]));
    let mut tc = TrapContext::app_init_context(1, 2, 3, 4, 5);
    assert_eq!((tc.sepc, tc.x[2], tc.kernel_satp, tc.kernel_sp), (1, 2, 3, 4));
    tc.set_sp(8);
    assert_eq!(tc.x[2], 8);
}
