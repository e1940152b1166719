use nk::sched::{self, Scheduler};
use nk::sched::rq::Runqueue;
use nk::sched::task::{Priority, Task, TaskId, TaskState};
use nk::sched::wq::WaitQueue;
use nk::trap::TrapFrame;

fn one_cpu() -> Scheduler {
    sched::init(1000, 1, &vec![0x9000], 0xdead)
}

#[test]
fn nice_values_map_to_weights() {
    assert_eq!(Priority::nice_to_weight(0), 1274);
    assert_eq!(Priority::nice_to_weight(-20), 88761);
    assert_eq!(Priority::nice_to_weight(19), 22);
    assert_eq!(Priority::nice_to_weight(100), 22);
    assert_eq!(Priority::nice_to_weight(-100), 88761);
}

#[test]
fn wait_queue_is_first_in_first_out() {
    let mut q = WaitQueue::new();
    assert!(q.is_empty());
    q.sleep(TaskId(3));
    q.sleep(TaskId(5));
    assert_eq!(q.wakeup_one(), Some(TaskId(3)));
    q.sleep(TaskId(7));
    assert_eq!(q.wakeup_all(), vec![TaskId(5), TaskId(7)]);
    assert!(q.is_empty());
    assert_eq!(q.wakeup_one(), None);
}

#[test]
fn init_installs_an_idle_task_per_cpu() {
    let s = one_cpu();
    assert_eq!(s.ticks_per_ms, 100);
    assert_eq!(s.next_id, 2);
    assert_eq!(s.rqs[0].current_task_id(), Some(TaskId(1)));
    assert_eq!(sched::current_process(&s, 0), Some(0));
}

#[test]
fn spawned_task_is_picked_and_switched_to() {
    let mut s = one_cpu();
    let id = sched::spawn_kernel_task(&mut s, 0, 0x1000, Priority(0), String::from("worker"), None, 0x8000, 7);
    assert_eq!(id, TaskId(2));
    let mut frame = TrapFrame::zeroed();
    frame.rip = 0x4444;
    let sw = sched::reschedule(&mut s, 0, &mut frame, 10).unwrap();
    assert_eq!(frame.rip, 0x1000);
    assert_eq!(sw.kernel_stack_top, 0x8000);
    assert_eq!(sw.new_pid, Some(7));
    assert_eq!(s.rqs[0].current_task_id(), Some(TaskId(2)));
    assert_eq!(sched::current_process(&s, 0), Some(7));
}

#[test]
fn timer_tick_counts_time_on_cpu_zero() {
    let mut s = one_cpu();
    let mut frame = TrapFrame::zeroed();
    let (ipi, _) = sched::timer_tick(&mut s, 0, &mut frame, 10);
    assert_eq!(ipi, None);
    assert_eq!(s.time_from_boot, 10);
    assert_eq!(s.balance_ticks, 10);
}

#[test]
fn runqueue_picks_earliest_eligible_deadline() {
    let mut q = Runqueue::new();
    let mut a = Task::new(TaskId(10), 0x1, 0x100, 1);
    a.deadline = 500;
    let mut b = Task::new(TaskId(11), 0x2, 0x200, 1);
    b.deadline = 300;
    q.insert(a);
    q.insert(b);
    assert_eq!(q.load(), 2548);
    assert_eq!(q.pick_next(), Some(TaskId(11)));
    q.set_rt_deadline(TaskId(10), 5);
    assert_eq!(q.pick_next(), Some(TaskId(10)));
    let t = q.remove(TaskId(10)).unwrap();
    assert_eq!(t.id, TaskId(10));
    assert_eq!(q.load(), 1274);
    assert!(q.remove(TaskId(10)).is_none());
}

#[test]
fn runqueue_sleep_and_wakeup() {
    let mut q = Runqueue::new();
    q.spawn_task(Task::new(TaskId(4), 0x1, 0x100, 1));
    q.sleep_task(TaskId(4));
    assert_eq!(q.pick_next(), None);
    q.wakeup_task(TaskId(4));
    assert_eq!(q.pick_next(), Some(TaskId(4)));
}

#[test]
fn exit_then_wait_reaps_the_child() {
    let mut s = one_cpu();
    let id = sched::spawn_kernel_task(&mut s, 0, 0x1000, Priority(0), String::from("child"), None, 0x8000, 7);
    let mut frame = TrapFrame::zeroed();
    sched::reschedule(&mut s, 0, &mut frame, 10);
    assert_eq!(sched::wait_child(&mut s, id), None);
    sched::exit(&mut s, 0, 42);
    assert_eq!(sched::wait_child(&mut s, id), Some(42));
    assert_eq!(sched::wait_child(&mut s, id), None);
}

#[test]
fn native_syscalls() {
    let mut f = TrapFrame::zeroed();
    f.rax = 0;
    assert_eq!(sched::native_syscall_handler(&mut f), sched::SyscallAction::Yield);
    f.rax = 1;
    f.rdi = 3;
    assert_eq!(sched::native_syscall_handler(&mut f), sched::SyscallAction::Exit(3));
    f.rax = 9;
    assert_eq!(sched::native_syscall_handler(&mut f), sched::SyscallAction::Continue);
    assert_eq!(f.rax, u64::MAX);
    let state = TaskState::Runnable;
    assert_eq!(state, TaskState::Runnable);
}

#[test]
fn task_with_argument_starts_below_its_stack_top() {
    let t = Task::new_arg(TaskId(7), 0x1000, 42, 0x8000, Priority(-20), "worker".to_string(), 3);
    assert_eq!(t.ctx.frame.rip, 0x1000);
    assert_eq!(t.ctx.frame.rsp, 0x7ff8);
    assert_eq!(t.ctx.frame.rdi, 42);
    assert_eq!(t.ctx.frame.cs, 0x08);
    assert_eq!(t.ctx.frame.ss, 0x10);
    assert_eq!(t.ctx.frame.rflags, 0x202);
    assert_eq!(t.weight, 88761);
    assert_eq!(t.kernel_stack_top, 0x8000);
    assert_eq!(t.name, "worker");
    assert_eq!(t.pid, 3);
    assert_eq!(t.state, TaskState::Runnable);
}
