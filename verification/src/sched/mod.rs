//! The scheduler: tasks, wait queues and per-CPU run queues, and the
//! decisions that tie them together (spawning, sleeping, waking, exiting,
//! reaping, balancing and switching tasks). The caller performs what the
//! decisions ask of the machine: yielding, halting, loading registers.

pub mod task;
pub mod wq;
pub mod keys;
pub mod rq;
pub mod eevdf;
pub mod proc;
pub mod fault;

use vstd::prelude::*;
use crate::sched::rq::{Runqueue, pick_spec, lemma_same_others_trans, lemma_same_tasks, vruntime_updated, current_in_trees, charge_fits};
use crate::sched::task::{Context, Priority, Task, TaskId, TaskState, weight_table, clamp_nice};
use crate::trap::TrapFrame;
use crate::sched::wq::WaitQueue;

verus! {

/// Number of run queues (one per possible CPU).
pub const MAX_CPUS: usize = 64;

/// The scheduler's state.
pub struct Scheduler {
    /// One run queue per CPU.
    pub rqs: Vec<Runqueue>,
    /// Exited tasks (zombies) by id; the key sets of this queue are unused.
    pub registry: Runqueue,
    /// Tasks waiting for a child to exit.
    pub exit_wq: WaitQueue,
    /// Timer ticks per millisecond.
    pub ticks_per_ms: u64,
    /// Milliseconds counted for load balancing.
    pub balance_ticks: u64,
    /// Milliseconds since boot.
    pub time_from_boot: u64,
    /// CPUs in use.
    pub ncpus: usize,
    /// The next task id to hand out.
    pub next_id: u64,
}

impl Scheduler {
    /// The scheduler's invariant.
    pub open spec fn wf(&self) -> bool {
        &&& self.rqs@.len() == MAX_CPUS
        &&& 1 <= self.ncpus <= MAX_CPUS
        &&& forall|i: int| 0 <= i < MAX_CPUS ==> (#[trigger] self.rqs@[i]).wf()
        &&& self.registry.wf()
    }

    /// Whether `new` differs from `old` at most in run queue `c`.
    pub open spec fn only_rq(old: &Scheduler, new: &Scheduler, c: int) -> bool {
        &&& new.wf()
        &&& new.registry == old.registry
        &&& new.exit_wq == old.exit_wq
        &&& new.ncpus == old.ncpus
        &&& new.ticks_per_ms == old.ticks_per_ms
        &&& new.balance_ticks == old.balance_ticks
        &&& new.time_from_boot == old.time_from_boot
        &&& forall|i: int| 0 <= i < MAX_CPUS && i != c ==> #[trigger] new.rqs@[i] == old.rqs@[i]
    }

    /// Takes run queue `c` out (an empty one stands in its place).
    fn take_rq(&mut self, c: usize) -> (q: Runqueue)
        requires
            old(self).wf(),
            c < MAX_CPUS,
        ensures
            q == old(self).rqs@[c as int],
            final(self).rqs@ == old(self).rqs@.update(c as int, final(self).rqs@[c as int]),
            final(self).rqs@[c as int].wf(),
            final(self).wf(),
            final(self).registry == old(self).registry,
            final(self).exit_wq == old(self).exit_wq,
            final(self).ncpus == old(self).ncpus,
            final(self).ticks_per_ms == old(self).ticks_per_ms,
            final(self).balance_ticks == old(self).balance_ticks,
            final(self).time_from_boot == old(self).time_from_boot,
            final(self).next_id == old(self).next_id,
    {
        let mut q = Runqueue::new();
        std::mem::swap(&mut q, &mut self.rqs[c]);
        proof {
            assert forall|i: int| 0 <= i < MAX_CPUS implies (#[trigger] self.rqs@[i]).wf() by {
                if i != c { assert(self.rqs@[i] == old(self).rqs@[i]); }
            }
            assert(self.rqs@ =~= old(self).rqs@.update(c as int, self.rqs@[c as int]));
        }
        q
    }

    /// Puts run queue `q` back as queue `c`.
    fn put_rq(&mut self, c: usize, q: Runqueue)
        requires
            old(self).wf(),
            c < MAX_CPUS,
            q.wf(),
        ensures
            final(self).rqs@ == old(self).rqs@.update(c as int, q),
            final(self).wf(),
            final(self).registry == old(self).registry,
            final(self).exit_wq == old(self).exit_wq,
            final(self).ncpus == old(self).ncpus,
            final(self).ticks_per_ms == old(self).ticks_per_ms,
            final(self).balance_ticks == old(self).balance_ticks,
            final(self).time_from_boot == old(self).time_from_boot,
            final(self).next_id == old(self).next_id,
    {
        self.rqs.set(c, q);
        proof {
            assert forall|i: int| 0 <= i < MAX_CPUS implies (#[trigger] self.rqs@[i]).wf() by {
                if i != c { assert(self.rqs@[i] == old(self).rqs@[i]); }
            }
        }
    }
}

/// The CPU that holds task `id` first (the lowest index below `ncpus`), if any.
pub open spec fn cpu_of(s: &Scheduler, id: u64, c: int) -> bool {
    &&& 0 <= c < s.ncpus
    &&& s.rqs@[c].has(id)
    &&& forall|c2: int| 0 <= c2 < c ==> !(#[trigger] s.rqs@[c2]).has(id)
}

/// Puts the current task of CPU `cpu` to sleep on `wq`: it joins the end
/// of the queue and leaves its run queue's trees (the caller then yields).
pub fn sleep(s: &mut Scheduler, wq: &mut WaitQueue, cpu: usize)
    requires
        old(s).wf(),
        cpu < MAX_CPUS,
        old(s).rqs@[cpu as int].current is Some,
    ensures
        ({
            let id = old(s).rqs@[cpu as int].current->Some_0;
            &&& final(wq).waiters@ == old(wq).waiters@.push(id)
            &&& Scheduler::only_rq(old(s), final(s), cpu as int)
            &&& final(s).next_id == old(s).next_id
            &&& !old(s).rqs@[cpu as int].has(id.0) ==> final(s).rqs@[cpu as int] == old(s).rqs@[cpu as int]
            &&& old(s).rqs@[cpu as int].has(id.0) ==> final(s).rqs@[cpu as int].task(id.0).state == TaskState::Sleeping
        }),
{
    let mut q = s.take_rq(cpu);
    let id = match q.current_task_id() {
        Some(id) => id,
        None => TaskId(0),
    };
    wq.sleep(id);
    q.sleep_task(id);
    s.put_rq(cpu, q);
}

/// Wakes the task at the front of `wq`, in the first run queue (of the
/// CPUs in use) that holds it; a task found nowhere has exited already.
pub fn wakeup(s: &mut Scheduler, wq: &mut WaitQueue)
    requires
        old(s).wf(),
        forall|c: int, id: u64| 0 <= c < MAX_CPUS && #[trigger] old(s).rqs@[c].has(id) ==> {
            let t = old(s).rqs@[c].task(id);
            &&& old(s).rqs@[c].load + t.weight <= u64::MAX
            &&& old(s).rqs@[c].min_vruntime + t.slice <= u64::MAX
            &&& t.vruntime + t.slice <= u64::MAX
        },
    ensures
        final(s).wf(),
        final(s).next_id == old(s).next_id,
        final(s).registry == old(s).registry,
        final(s).exit_wq == old(s).exit_wq,
        old(wq).waiters@.len() == 0 ==> *final(s) == *old(s) && final(wq).waiters@ == old(wq).waiters@,
        old(wq).waiters@.len() > 0 ==> {
            let id = old(wq).waiters@[0].0;
            &&& final(wq).waiters@ == old(wq).waiters@.subrange(1, old(wq).waiters@.len() as int)
            &&& (forall|c: int| !#[trigger] cpu_of(old(s), id, c)) ==> *final(s) == *old(s)
            &&& forall|c: int| #[trigger] cpu_of(old(s), id, c) ==> Scheduler::only_rq(old(s), final(s), c)
                && final(s).rqs@[c].task(id) == crate::sched::rq::woken(old(s).rqs@[c].task(id), old(s).rqs@[c].min_vruntime)
        },
{
    let r = wq.wakeup_one();
    if let Some(id) = r {
        let mut cpu: usize = 0;
        while cpu < s.ncpus
            invariant
                s.wf(),
                *s == *old(s),
                cpu <= s.ncpus,
                forall|c2: int| 0 <= c2 < cpu ==> !(#[trigger] s.rqs@[c2]).has(id.0),
                old(wq).waiters@.len() > 0,
                id == old(wq).waiters@[0],
                wq.waiters@ == old(wq).waiters@.subrange(1, old(wq).waiters@.len() as int),
                forall|c: int, x: u64| 0 <= c < MAX_CPUS && #[trigger] old(s).rqs@[c].has(x) ==> {
                    let t = old(s).rqs@[c].task(x);
                    &&& old(s).rqs@[c].load + t.weight <= u64::MAX
                    &&& old(s).rqs@[c].min_vruntime + t.slice <= u64::MAX
                    &&& t.vruntime + t.slice <= u64::MAX
                },
            decreases s.ncpus - cpu,
        {
            if s.rqs[cpu].find(id.0).is_some() {
                assert(old(s).rqs@[cpu as int].has(id.0));
                let mut q = s.take_rq(cpu);
                q.wakeup_task(id);
                s.put_rq(cpu, q);
                proof {
                    assert(cpu_of(old(s), id.0, cpu as int));
                    assert forall|c: int| #[trigger] cpu_of(old(s), id.0, c) implies c == cpu by {
                        if c < cpu { assert(!old(s).rqs@[c].has(id.0)); }
                        if c > cpu { assert(!old(s).rqs@[cpu as int].has(id.0)); }
                    }
                    assert forall|i: int| 0 <= i < MAX_CPUS && i != cpu implies #[trigger] s.rqs@[i] == old(s).rqs@[i] by {}
                }
                return;
            }
            cpu = cpu + 1;
        }
        proof {
            assert forall|c: int| !#[trigger] cpu_of(old(s), id.0, c) by {
                if 0 <= c < s.ncpus {
                    assert(!old(s).rqs@[c].has(id.0));
                }
            }
        }
    }
}

/// Sets the real-time deadline of task `task_id` in the first run queue
/// (of the CPUs in use) that holds it; a task found nowhere is ignored.
pub fn set_rt_deadline(s: &mut Scheduler, task_id: TaskId, deadline_ms: u64)
    requires
        old(s).wf(),
    ensures
        final(s).wf(),
        final(s).next_id == old(s).next_id,
        (forall|c: int| !#[trigger] cpu_of(old(s), task_id.0, c)) ==> *final(s) == *old(s),
        forall|c: int| #[trigger] cpu_of(old(s), task_id.0, c) ==> Scheduler::only_rq(old(s), final(s), c)
            && final(s).rqs@[c].has(task_id.0)
            && final(s).rqs@[c].task(task_id.0) == (Task { rt_deadline: deadline_ms, ..old(s).rqs@[c].task(task_id.0) }),
{
    let mut cpu: usize = 0;
    while cpu < s.ncpus
        invariant
            s.wf(),
            *s == *old(s),
            cpu <= s.ncpus,
            forall|c2: int| 0 <= c2 < cpu ==> !(#[trigger] s.rqs@[c2]).has(task_id.0),
        decreases s.ncpus - cpu,
    {
        if s.rqs[cpu].find(task_id.0).is_some() {
            let mut q = s.take_rq(cpu);
            q.set_rt_deadline(task_id, deadline_ms);
            s.put_rq(cpu, q);
            proof {
                assert(cpu_of(old(s), task_id.0, cpu as int));
                assert forall|c: int| #[trigger] cpu_of(old(s), task_id.0, c) implies c == cpu by {
                    if c < cpu { assert(!old(s).rqs@[c].has(task_id.0)); }
                    if c > cpu { assert(!old(s).rqs@[cpu as int].has(task_id.0)); }
                }
                assert forall|i: int| 0 <= i < MAX_CPUS && i != cpu implies #[trigger] s.rqs@[i] == old(s).rqs@[i] by {}
            }
            return;
        }
        cpu = cpu + 1;
    }
    proof {
        assert forall|c: int| !#[trigger] cpu_of(old(s), task_id.0, c) by {
            if 0 <= c < s.ncpus {
                assert(!old(s).rqs@[c].has(task_id.0));
            }
        }
    }
}

/// The process of the current task of CPU `cpu`, if there is one.
pub fn current_process(s: &Scheduler, cpu: usize) -> (r: Option<u32>)
    requires
        s.wf(),
        cpu < MAX_CPUS,
    ensures
        r is Some <==> s.rqs@[cpu as int].current is Some && s.rqs@[cpu as int].has(s.rqs@[cpu as int].current->Some_0.0),
        r matches Some(p) ==> p == s.rqs@[cpu as int].task(s.rqs@[cpu as int].current->Some_0.0).pid,
{
    match s.rqs[cpu].current_task() {
        Some(t) => Some(t.pid),
        None => None,
    }
}

/// What the caller must do after a system call of the native interface.
#[derive(Clone, Copy, Debug, PartialEq, Eq, Structural)]
pub enum SyscallAction {
    /// Nothing more.
    Continue,
    /// Yield the CPU.
    Yield,
    /// Exit the task with this code.
    Exit(i32),
}

/// The native system calls: 0 yields (and returns 0), 1 exits with the
/// code in RDI; any other number returns the largest value.
pub fn native_syscall_handler(frame: &mut TrapFrame) -> (a: SyscallAction)
    ensures
        old(frame).rax == 0 ==> a == SyscallAction::Yield && *final(frame) == (TrapFrame { rax: 0, ..*old(frame) }),
        old(frame).rax == 1 ==> a == SyscallAction::Exit(old(frame).rdi as i32) && *final(frame) == *old(frame),
        old(frame).rax > 1 ==> a == SyscallAction::Continue && *final(frame) == (TrapFrame { rax: u64::MAX, ..*old(frame) }),
{
    if frame.rax == 0 {
        frame.rax = 0;
        SyscallAction::Yield
    } else if frame.rax == 1 {
        SyscallAction::Exit(frame.rdi as i32)
    } else {
        frame.rax = u64::MAX;
        SyscallAction::Continue
    }
}

/// Finds the process whose handler must serve a system call of the current
/// task of CPU `cpu`; with no current process the call fails (RAX set to
/// the largest value).
pub fn syscall_dispatcher(s: &Scheduler, cpu: usize, frame: &mut TrapFrame) -> (r: Option<u32>)
    requires
        s.wf(),
        cpu < MAX_CPUS,
    ensures
        r is Some <==> s.rqs@[cpu as int].current is Some && s.rqs@[cpu as int].has(s.rqs@[cpu as int].current->Some_0.0),
        r matches Some(p) ==> p == s.rqs@[cpu as int].task(s.rqs@[cpu as int].current->Some_0.0).pid && *final(frame) == *old(frame),
        r is None ==> *final(frame) == (TrapFrame { rax: u64::MAX, ..*old(frame) }),
{
    match current_process(s, cpu) {
        Some(p) => Some(p),
        None => {
            frame.rax = u64::MAX;
            None
        },
    }
}

/// Reaps child `child_id` if it has exited: its exit code, and it leaves
/// the registry. `None` tells the caller to sleep on the exit queue and
/// ask again.
pub fn wait_child(s: &mut Scheduler, child_id: TaskId) -> (r: Option<i32>)
    requires
        old(s).wf(),
    ensures
        final(s).wf(),
        ({
            let reg = old(s).registry;
            if reg.has(child_id.0) && reg.task(child_id.0).state == TaskState::Zombie {
                &&& r == Some(reg.task(child_id.0).exit_code)
                &&& !final(s).registry.has(child_id.0)
                &&& crate::sched::rq::Runqueue::same_others(&reg, &final(s).registry, child_id.0)
                &&& final(s).rqs == old(s).rqs
            } else {
                r is None && *final(s) == *old(s)
            }
        }),
{
    match s.registry.find(child_id.0) {
        Some(i) => {
            if s.registry.tasks[i].state == TaskState::Zombie {
                let code = s.registry.tasks[i].exit_code;
                let _ = s.registry.take(child_id.0);
                Some(code)
            } else {
                None
            }
        },
        None => None,
    }
}

/// Whether `id` is an exited task of the registry with no exited task of
/// smaller id.
pub open spec fn first_zombie(reg: &Runqueue, id: u64) -> bool {
    &&& reg.has(id)
    &&& reg.task(id).state == TaskState::Zombie
    &&& forall|x: u64| x < id && #[trigger] reg.has(x) ==> reg.task(x).state != TaskState::Zombie
}

/// Reaps the exited task of least id, if any: its id and record. `None`
/// tells the caller to sleep on the exit queue and ask again.
pub fn wait_any(s: &mut Scheduler) -> (r: Option<(TaskId, Task)>)
    requires
        old(s).wf(),
    ensures
        final(s).wf(),
        r is None <==> !exists|id: u64| #[trigger] first_zombie(&old(s).registry, id),
        r is None ==> *final(s) == *old(s),
        r matches Some(p) ==> first_zombie(&old(s).registry, p.0.0) && p.1 == old(s).registry.task(p.0.0)
            && !final(s).registry.has(p.0.0)
            && crate::sched::rq::Runqueue::same_others(&old(s).registry, &final(s).registry, p.0.0)
            && final(s).rqs == old(s).rqs,
{
    let mut best: Option<u64> = None;
    let mut i: usize = 0;
    while i < s.registry.tasks.len()
        invariant
            s.wf(),
            *s == *old(s),
            i <= s.registry.tasks@.len(),
            best matches Some(b) ==> s.registry.has(b) && s.registry.task(b).state == TaskState::Zombie,
            forall|j: int| 0 <= j < i && (#[trigger] s.registry.tasks@[j]).state == TaskState::Zombie
                ==> (best matches Some(b) && b <= s.registry.tasks@[j].id.0),
        decreases s.registry.tasks@.len() - i,
    {
        let t = &s.registry.tasks[i];
        if t.state == TaskState::Zombie {
            let better = match best { None => true, Some(b) => t.id.0 < b };
            proof { s.registry.lemma_task_at(i as int); }
            if better {
                best = Some(t.id.0);
            }
        }
        i = i + 1;
    }
    proof {
        assert forall|x: u64| #[trigger] s.registry.has(x) && s.registry.task(x).state == TaskState::Zombie
            implies (best matches Some(b) && b <= x) by {
            let j = choose|j: int| 0 <= j < s.registry.tasks@.len() && (#[trigger] s.registry.tasks@[j]).id.0 == x;
            s.registry.lemma_task_at(j);
        }
        if let Some(b) = best {
            assert(first_zombie(&old(s).registry, b));
        } else {
            assert forall|id: u64| !#[trigger] first_zombie(&old(s).registry, id) by {}
        }
    }
    match best {
        Some(b) => {
            match s.registry.take(b) {
                Some(t) => {
                    proof {
                        let k = choose|k: int| 0 <= k < old(s).registry.tasks@.len() && (#[trigger] old(s).registry.tasks@[k]).id.0 == b;
                        assert(t.id.0 == b);
                    }
                    Some((TaskId(b), t))
                },
                None => None,
            }
        },
        None => None,
    }
}

/// The CPU a new task goes to: its pinned CPU when that names a run
/// queue, else the spawning CPU.
pub open spec fn target_cpu(cpu: usize, affinity: Option<usize>) -> int {
    match affinity {
        Some(c) => if c < MAX_CPUS { c as int } else { cpu as int },
        None => cpu as int,
    }
}

/// Creates a kernel task `next_id` that starts at `entry` with `arg` in
/// RDI, on the stack `stack`, in process `pid`, with the weight of
/// `priority`, pinned to `cpu_affinity`; its parent is the current task of
/// its CPU, and it is queued there at the queue's minimum virtual runtime.
pub fn spawn_kernel_task_with_arg(s: &mut Scheduler, cpu: usize, entry: u64, arg: u64, priority: Priority,
    name: String, cpu_affinity: Option<usize>, stack: usize, pid: u32) -> (r: TaskId)
    requires
        old(s).wf(),
        cpu < MAX_CPUS,
        old(s).next_id < u64::MAX,
        old(s).rqs@[target_cpu(cpu, cpu_affinity)].load + weight_table()[clamp_nice(priority.0) + 20] <= u64::MAX,
        old(s).rqs@[target_cpu(cpu, cpu_affinity)].min_vruntime + 10_000 <= u64::MAX,
    ensures
        r == TaskId(old(s).next_id),
        final(s).next_id == old(s).next_id + 1,
        ({
            let c = target_cpu(cpu, cpu_affinity);
            let q0 = old(s).rqs@[c];
            let q1 = final(s).rqs@[c];
            &&& Scheduler::only_rq(old(s), final(s), c)
            &&& q1.has(r.0)
            &&& q1.task(r.0).state == TaskState::Runnable
            &&& q1.task(r.0).weight == weight_table()[clamp_nice(priority.0) + 20]
            &&& q1.task(r.0).vruntime == q0.min_vruntime
            &&& q1.task(r.0).deadline == q0.min_vruntime + 10_000
            &&& q1.task(r.0).parent == q0.current
            &&& q1.task(r.0).cpu_affinity == cpu_affinity
            &&& q1.task(r.0).ctx.frame.rip == entry
            &&& q1.task(r.0).ctx.frame.rdi == arg
            &&& q1.task(r.0).ctx.frame.rsp == stack as u64
            &&& q1.task(r.0).pid == pid
            &&& q1.task(r.0).name@ == name@
            &&& crate::sched::rq::Runqueue::same_others(&q0, &q1, r.0)
            &&& q1.load == q0.load + q1.task(r.0).weight
        }),
{
    let id = TaskId(s.next_id);
    s.next_id = s.next_id + 1;
    let mut task = Task::new(id, entry, stack, pid);
    task.ctx.frame.rdi = arg;
    task.weight = Priority::nice_to_weight(priority.0);
    task.cpu_affinity = cpu_affinity;
    task.name = name;
    let target = match cpu_affinity {
        Some(c) => if c < MAX_CPUS { c } else { cpu },
        None => cpu,
    };
    task.parent = s.rqs[target].current_task_id();
    proof {
        assert(weight_table()[clamp_nice(priority.0) + 20] > 0) by {
            assert(weight_table().len() == 40);
            assert(forall|i: int| 0 <= i < 40 ==> #[trigger] weight_table()[i] > 0);
        }
    }
    let mut q = s.take_rq(target);
    q.spawn_task(task);
    s.put_rq(target, q);
    id
}

/// Creates a kernel task without argument; see [`spawn_kernel_task_with_arg`].
pub fn spawn_kernel_task(s: &mut Scheduler, cpu: usize, entry: u64, priority: Priority,
    name: String, cpu_affinity: Option<usize>, stack: usize, pid: u32) -> (r: TaskId)
    requires
        old(s).wf(),
        cpu < MAX_CPUS,
        old(s).next_id < u64::MAX,
        old(s).rqs@[target_cpu(cpu, cpu_affinity)].load + weight_table()[clamp_nice(priority.0) + 20] <= u64::MAX,
        old(s).rqs@[target_cpu(cpu, cpu_affinity)].min_vruntime + 10_000 <= u64::MAX,
    ensures
        r == TaskId(old(s).next_id),
        final(s).next_id == old(s).next_id + 1,
        ({
            let c = target_cpu(cpu, cpu_affinity);
            let q0 = old(s).rqs@[c];
            let q1 = final(s).rqs@[c];
            &&& Scheduler::only_rq(old(s), final(s), c)
            &&& q1.has(r.0)
            &&& q1.task(r.0).state == TaskState::Runnable
            &&& q1.task(r.0).weight == weight_table()[clamp_nice(priority.0) + 20]
            &&& q1.task(r.0).vruntime == q0.min_vruntime
            &&& q1.task(r.0).parent == q0.current
            &&& q1.task(r.0).ctx.frame.rip == entry
            &&& q1.task(r.0).ctx.frame.rdi == 0
            &&& crate::sched::rq::Runqueue::same_others(&q0, &q1, r.0)
        }),
{
    spawn_kernel_task_with_arg(s, cpu, entry, 0, priority, name, cpu_affinity, stack, pid)
}

/// Whether every queued task can be woken or moved without overflow.
pub open spec fn room(s: &Scheduler) -> bool {
    forall|c: int, x: u64| 0 <= c < MAX_CPUS && #[trigger] s.rqs@[c].has(x) ==> {
        let t = s.rqs@[c].task(x);
        &&& s.rqs@[c].load + t.weight <= u64::MAX
        &&& s.rqs@[c].min_vruntime + t.slice <= u64::MAX
        &&& t.vruntime + t.slice <= u64::MAX
    }
}

/// `t` with its parent moved to the first task when it was `dead`.
pub open spec fn reparented(t: Task, dead: TaskId) -> Task {
    if t.parent == Some(dead) { Task { parent: Some(TaskId(1)), ..t } } else { t }
}

/// Ends the current task of CPU `cpu` with `code`: it leaves its run queue
/// (which then has no current task), its children in the registry are
/// handed to the first task, it joins the registry as a zombie, and a
/// task waiting on the exit queue is woken. (The caller then yields for
/// good.)
pub fn exit(s: &mut Scheduler, cpu: usize, code: i32)
    requires
        old(s).wf(),
        room(old(s)),
        cpu < MAX_CPUS,
        old(s).rqs@[cpu as int].current is Some,
        old(s).rqs@[cpu as int].has(old(s).rqs@[cpu as int].current->Some_0.0),
    ensures
        final(s).wf(),
        final(s).next_id == old(s).next_id,
        ({
            let cid = old(s).rqs@[cpu as int].current->Some_0;
            let t = old(s).rqs@[cpu as int].task(cid.0);
            &&& final(s).registry.has(cid.0)
            &&& final(s).registry.task(cid.0) == Task { state: TaskState::Zombie, exit_code: code, ..t }
            &&& forall|x: u64| x != cid.0 ==> (#[trigger] final(s).registry.has(x) == old(s).registry.has(x)
                && (old(s).registry.has(x) ==> final(s).registry.task(x) == reparented(old(s).registry.task(x), cid)))
            &&& old(s).exit_wq.waiters@.len() > 0 ==> final(s).exit_wq.waiters@ == old(s).exit_wq.waiters@.subrange(1, old(s).exit_wq.waiters@.len() as int)
        }),
{
    let ghost s0 = *s;
    let mut q = s.take_rq(cpu);
    let cid = match q.current_task_id() {
        Some(c) => c,
        None => TaskId(0),
    };
    let task = q.remove(cid);
    let ghost qa = q;
    q.clear_current();
    let ghost qb = q;
    proof {
        assert(q.wf());
        crate::sched::rq::lemma_same_tasks(&qa, &qb);
    }
    s.put_rq(cpu, q);
    let ghost s1 = *s;
    // hand the children of the exiting task to the first task
    let mut i: usize = 0;
    while i < s.registry.tasks.len()
        invariant
            s.wf(),
            s.rqs == s1.rqs,
            s.exit_wq == s1.exit_wq,
            s.next_id == s1.next_id,
            s1.registry == s0.registry,
            i <= s.registry.tasks@.len(),
            s.registry.tasks@.len() == s0.registry.tasks@.len(),
            forall|j: int| 0 <= j < s.registry.tasks@.len() ==> #[trigger] s.registry.tasks@[j]
                == if j < i { reparented(s0.registry.tasks@[j], cid) } else { s0.registry.tasks@[j] },
        decreases s.registry.tasks@.len() - i,
    {
        if s.registry.tasks[i].parent == Some(cid) {
            let mut tmp = Task::new(TaskId(0), 0, 0, 0);
            std::mem::swap(&mut tmp, &mut s.registry.tasks[i]);
            tmp.parent = Some(TaskId(1));
            s.registry.tasks.set(i, tmp);
        }
        proof {
            assert forall|a: int, b: int| 0 <= a < b < s.registry.tasks@.len() implies s.registry.tasks@[a].id != s.registry.tasks@[b].id by {
                assert(s0.registry.tasks@[a].id != s0.registry.tasks@[b].id);
            }
            assert forall|k: int| 0 <= k < s.registry.tasks@.len() implies (#[trigger] s.registry.tasks@[k]).weight > 0 by {
                assert(s0.registry.tasks@[k].weight > 0);
            }
        }
        i = i + 1;
    }
    let ghost s2 = *s;
    proof {
        assert forall|x: u64| x != cid.0 implies (#[trigger] s2.registry.has(x) == s0.registry.has(x)
            && (s0.registry.has(x) ==> s2.registry.task(x) == reparented(s0.registry.task(x), cid))) by {
            if s0.registry.has(x) {
                let k = choose|k: int| 0 <= k < s0.registry.tasks@.len() && (#[trigger] s0.registry.tasks@[k]).id.0 == x;
                s0.registry.lemma_task_at(k);
                s2.registry.lemma_task_at(k);
            }
            if s2.registry.has(x) {
                let k = choose|k: int| 0 <= k < s2.registry.tasks@.len() && (#[trigger] s2.registry.tasks@[k]).id.0 == x;
                assert(s0.registry.tasks@[k].id.0 == x);
            }
        }
    }
    match task {
        Some(t) => {
            let mut t = t;
            proof {
                let k = choose|k: int| 0 <= k < s0.rqs@[cpu as int].tasks@.len() && (#[trigger] s0.rqs@[cpu as int].tasks@[k]).id.0 == cid.0;
                s0.rqs@[cpu as int].lemma_task_at(k);
                assert(s0.rqs@[cpu as int].wf());
            }
            t.state = TaskState::Zombie;
            t.exit_code = code;
            s.registry.put(t);
        },
        None => {},
    }
    let ghost s3 = *s;
    proof {
        assert forall|x: u64| x != cid.0 implies (#[trigger] s3.registry.has(x) == s0.registry.has(x)
            && (s0.registry.has(x) ==> s3.registry.task(x) == reparented(s0.registry.task(x), cid))) by {
            assert(s3.registry.has(x) == s2.registry.has(x));
            assert(s2.registry.has(x) == s0.registry.has(x));
        }
        assert forall|c: int, x: u64| 0 <= c < MAX_CPUS && #[trigger] s3.rqs@[c].has(x) implies {
            let t = s3.rqs@[c].task(x);
            &&& s3.rqs@[c].load + t.weight <= u64::MAX
            &&& s3.rqs@[c].min_vruntime + t.slice <= u64::MAX
            &&& t.vruntime + t.slice <= u64::MAX
        } by {
            if c != cpu {
                assert(s3.rqs@[c] == s0.rqs@[c]);
            } else {
                assert(s3.rqs@[c] == qb);
                assert(qa.has(x));
                assert(x != cid.0);
                assert(s0.rqs@[c].has(x));
                assert(qa.task(x) == s0.rqs@[c].task(x));
            }
        }
    }
    let mut wq = WaitQueue::new();
    std::mem::swap(&mut wq, &mut s.exit_wq);
    wakeup(s, &mut wq);
    s.exit_wq = wq;
}

/// Builds the scheduler for `ncpus` CPUs: timer ticks per millisecond from
/// `ticks_per_10ms`, 64 empty run queues, and on each CPU in use an idle
/// task (nice 19, pinned to it, at `idle_entry` on the stack of
/// `idle_stacks`) that is queued and current. Task ids start at 1.
pub fn init(ticks_per_10ms: u64, ncpus: usize, idle_stacks: &Vec<usize>, idle_entry: u64) -> (s: Scheduler)
    requires
        1 <= ncpus <= MAX_CPUS,
        idle_stacks@.len() >= ncpus,
    ensures
        s.wf(),
        s.ncpus == ncpus,
        s.ticks_per_ms == ticks_per_10ms / 10,
        s.next_id == 1 + ncpus,
        s.registry.tasks@.len() == 0,
        s.exit_wq.waiters@.len() == 0,
        forall|c: int| 0 <= c < ncpus ==> {
            let q = #[trigger] s.rqs@[c];
            &&& q.current == Some(TaskId((1 + c) as u64))
            &&& q.has((1 + c) as u64)
            &&& q.task((1 + c) as u64).cpu_affinity == Some(c as usize)
            &&& q.task((1 + c) as u64).weight == weight_table()[39]
            &&& q.task((1 + c) as u64).ctx.frame.rip == idle_entry
        },
{
    let mut rqs: Vec<Runqueue> = Vec::new();
    let mut i: usize = 0;
    while i < MAX_CPUS
        invariant
            i <= MAX_CPUS,
            rqs@.len() == i,
            forall|k: int| 0 <= k < i ==> (#[trigger] rqs@[k]).wf() && rqs@[k].tasks@.len() == 0
                && rqs@[k].load == 0 && rqs@[k].min_vruntime == 0,
        decreases MAX_CPUS - i,
    {
        rqs.push(Runqueue::new());
        i = i + 1;
    }
    let mut s = Scheduler {
        rqs,
        registry: Runqueue::new(),
        exit_wq: WaitQueue::new(),
        ticks_per_ms: ticks_per_10ms / 10,
        balance_ticks: 0,
        time_from_boot: 0,
        ncpus,
        next_id: 1,
    };
    let mut cpu: usize = 0;
    while cpu < ncpus
        invariant
            s.wf(),
            s.ncpus == ncpus,
            ncpus <= MAX_CPUS,
            idle_stacks@.len() >= ncpus,
            cpu <= ncpus,
            s.next_id == 1 + cpu,
            s.ticks_per_ms == ticks_per_10ms / 10,
            s.registry.tasks@.len() == 0,
            s.exit_wq.waiters@.len() == 0,
            forall|c: int| cpu <= c < MAX_CPUS ==> (#[trigger] s.rqs@[c]).tasks@.len() == 0
                && s.rqs@[c].load == 0 && s.rqs@[c].min_vruntime == 0,
            forall|c: int| 0 <= c < cpu ==> {
                let q = #[trigger] s.rqs@[c];
                &&& q.current == Some(TaskId((1 + c) as u64))
                &&& q.has((1 + c) as u64)
                &&& q.task((1 + c) as u64).cpu_affinity == Some(c as usize)
                &&& q.task((1 + c) as u64).weight == weight_table()[39]
                &&& q.task((1 + c) as u64).ctx.frame.rip == idle_entry
            },
        decreases ncpus - cpu,
    {
        let id = TaskId(s.next_id);
        s.next_id = s.next_id + 1;
        let mut idle = Task::new(id, idle_entry, idle_stacks[cpu], 0);
        idle.weight = Priority::nice_to_weight(19);
        idle.name = "idle".to_owned();
        idle.cpu_affinity = Some(cpu);
        proof {
            assert(weight_table()[39] == 22);
        }
        let ghost s0 = s;
        let mut q = s.take_rq(cpu);
        q.set_current(id);
        q.spawn_task(idle);
        s.put_rq(cpu, q);
        proof {
            assert forall|c: int| 0 <= c < cpu + 1 implies {
                let q = #[trigger] s.rqs@[c];
                &&& q.current == Some(TaskId((1 + c) as u64))
                &&& q.has((1 + c) as u64)
                &&& q.task((1 + c) as u64).cpu_affinity == Some(c as usize)
                &&& q.task((1 + c) as u64).weight == weight_table()[39]
                &&& q.task((1 + c) as u64).ctx.frame.rip == idle_entry
            } by {
                if c < cpu {
                    assert(s.rqs@[c] == s0.rqs@[c]);
                }
            }
            assert forall|c: int| cpu + 1 <= c < MAX_CPUS implies (#[trigger] s.rqs@[c]).tasks@.len() == 0
                && s.rqs@[c].load == 0 && s.rqs@[c].min_vruntime == 0 by {
                assert(s.rqs@[c] == s0.rqs@[c]);
            }
        }
        cpu = cpu + 1;
    }
    s
}

/// Whether `b` is the first CPU in use with the largest load.
pub open spec fn is_busiest(s: &Scheduler, b: int) -> bool {
    &&& 0 <= b < s.ncpus
    &&& forall|i: int| 0 <= i < s.ncpus ==> (#[trigger] s.rqs@[i]).load <= s.rqs@[b].load
    &&& forall|i: int| 0 <= i < b ==> (#[trigger] s.rqs@[i]).load < s.rqs@[b].load
}

/// Whether `d` is the first CPU in use with the smallest load.
pub open spec fn is_idlest(s: &Scheduler, d: int) -> bool {
    &&& 0 <= d < s.ncpus
    &&& forall|i: int| 0 <= i < s.ncpus ==> s.rqs@[d].load <= (#[trigger] s.rqs@[i]).load
    &&& forall|i: int| 0 <= i < d ==> (#[trigger] s.rqs@[i]).load > s.rqs@[d].load
}

/// Whether task `x` of CPU `b` may move to CPU `d`: runnable, without a
/// real-time deadline, not pinned elsewhere, not current.
pub open spec fn stealable(q: &Runqueue, x: u64, d: int) -> bool {
    &&& q.has(x)
    &&& q.task(x).state == TaskState::Runnable
    &&& q.task(x).rt_deadline == 0
    &&& (q.task(x).cpu_affinity is None || q.task(x).cpu_affinity == Some(d as usize))
    &&& q.current != Some(TaskId(x))
}

/// Whether every task can move to every queue without overflow.
pub open spec fn balance_room(s: &Scheduler) -> bool {
    &&& forall|c: int| 0 <= c < MAX_CPUS ==> (#[trigger] s.rqs@[c]).load + 1024 <= u64::MAX
    &&& forall|c1: int, c2: int, x: u64| 0 <= c1 < MAX_CPUS && 0 <= c2 < MAX_CPUS && #[trigger] s.rqs@[c1].has(x) ==> {
        let t = s.rqs@[c1].task(x);
        &&& #[trigger] s.rqs@[c2].load + t.weight <= u64::MAX
        &&& s.rqs@[c2].min_vruntime + t.vruntime + t.slice <= u64::MAX
    }
}

/// What balancing `old` from CPU `cpu` leaves: `new`, and `r`, the CPU to
/// interrupt; see [`balance_cpus`].
pub open spec fn balanced(old: &Scheduler, new: &Scheduler, cpu: usize, r: Option<usize>) -> bool {
    &&& new.wf()
    &&& new.next_id == old.next_id
    &&& new.registry == old.registry
    &&& new.exit_wq == old.exit_wq
    &&& new.ncpus == old.ncpus
    &&& new.ticks_per_ms == old.ticks_per_ms
    &&& new.balance_ticks == old.balance_ticks
    &&& new.time_from_boot == old.time_from_boot
    &&& old.ncpus <= 1 ==> r is None && *new == *old
    &&& old.ncpus > 1 ==> exists|b: int, d: int| #[trigger] is_busiest(old, b) && #[trigger] is_idlest(old, d)
    &&& old.ncpus > 1 ==> forall|b: int, d: int| #[trigger] is_busiest(old, b) && #[trigger] is_idlest(old, d) ==> {
        if old.rqs@[b].load > old.rqs@[d].load + 1024 && b != d
            && exists|x: u64| #[trigger] stealable(&old.rqs@[b], x, d) {
            &&& r == (if d != cpu { Some(d as usize) } else { None::<usize> })
            &&& exists|x: u64| #[trigger] stealable(&old.rqs@[b], x, d)
                && (forall|y: u64| y < x ==> !#[trigger] stealable(&old.rqs@[b], y, d))
                && !new.rqs@[b].has(x)
                && new.rqs@[d].has(x)
                && Runqueue::same_others(&old.rqs@[b], &new.rqs@[b], x)
                && Runqueue::same_others(&old.rqs@[d], &new.rqs@[d], x)
                && new.rqs@[b].current == old.rqs@[b].current
                && new.rqs@[d].current == old.rqs@[d].current
                && new.rqs@[d].task(x).vruntime == ({
                    let t = old.rqs@[b].task(x);
                    let rel = if t.vruntime > old.rqs@[b].min_vruntime { t.vruntime - old.rqs@[b].min_vruntime } else { 0 };
                    old.rqs@[d].min_vruntime + rel
                })
            &&& forall|i: int| 0 <= i < MAX_CPUS && i != b && i != d ==> #[trigger] new.rqs@[i] == old.rqs@[i]
        } else {
            r is None && *new == *old
        }
    }
}

/// Moves one task from the busiest CPU to the idlest one when their loads
/// differ by more than 1024: the runnable task of least id that may move,
/// its virtual runtime carried over relative to the queues' minima.
/// Returns the CPU to interrupt (the idlest one, unless it is `cpu`).
pub fn balance_cpus(s: &mut Scheduler, cpu: usize) -> (r: Option<usize>)
    requires
        old(s).wf(),
        balance_room(old(s)),
    ensures
        balanced(old(s), final(s), cpu, r),
{
    let n = s.ncpus;
    if n <= 1 {
        return None;
    }
    let mut busiest: usize = 0;
    let mut max_load: u64 = 0;
    let mut idlest: usize = 0;
    let mut min_load: u64 = u64::MAX;
    let mut i: usize = 0;
    while i < n
        invariant
            s.wf(),
            *s == *old(s),
            n == s.ncpus,
            i <= n,
            busiest < n,
            idlest < n,
            i > 0 ==> max_load == s.rqs@[busiest as int].load && busiest < i,
            i > 0 ==> min_load == s.rqs@[idlest as int].load && idlest < i,
            i == 0 ==> max_load == 0 && busiest == 0 && min_load == u64::MAX && idlest == 0,
            forall|k: int| 0 <= k < i ==> (#[trigger] s.rqs@[k]).load <= max_load,
            forall|k: int| 0 <= k < busiest ==> (#[trigger] s.rqs@[k]).load < max_load || (max_load == 0 && busiest == 0),
            forall|k: int| 0 <= k < i ==> min_load <= (#[trigger] s.rqs@[k]).load,
            forall|k: int| 0 <= k < idlest ==> (#[trigger] s.rqs@[k]).load > min_load,
        decreases n - i,
    {
        let load = s.rqs[i].load();
        if load > max_load {
            max_load = load;
            busiest = i;
        }
        if load < min_load {
            min_load = load;
            idlest = i;
        }
        i = i + 1;
    }
    proof {
        assert(is_idlest(old(s), idlest as int));
        assert forall|k: int| 0 <= k < busiest implies (#[trigger] s.rqs@[k]).load < s.rqs@[busiest as int].load by {}
        assert(is_busiest(old(s), busiest as int));
        assert forall|b: int, d: int| #[trigger] is_busiest(old(s), b) && #[trigger] is_idlest(old(s), d) implies b == busiest && d == idlest by {
            if b < busiest { assert(s.rqs@[b].load < s.rqs@[busiest as int].load); }
            if b > busiest { assert(s.rqs@[busiest as int].load < s.rqs@[b].load); }
            if d < idlest { assert(s.rqs@[d].load > s.rqs@[idlest as int].load); }
            if d > idlest { assert(s.rqs@[idlest as int].load > s.rqs@[d].load); }
        }
    }
    if !(max_load > min_load + 1024 && busiest != idlest) {
        return None;
    }
    // the runnable task of least id that may move
    let ghost bq = s.rqs@[busiest as int];
    let mut stolen: Option<u64> = None;
    let mut j: usize = 0;
    while j < s.rqs[busiest].tasks.len()
        invariant
            s.wf(),
            *s == *old(s),
            busiest < MAX_CPUS,
            idlest < MAX_CPUS,
            bq == s.rqs@[busiest as int],
            j <= bq.tasks@.len(),
            stolen matches Some(x) ==> stealable(&bq, x, idlest as int),
            forall|k: int| 0 <= k < j && stealable(&bq, (#[trigger] bq.tasks@[k]).id.0, idlest as int)
                ==> (stolen matches Some(x) && x <= bq.tasks@[k].id.0),
        decreases bq.tasks@.len() - j,
    {
        let t = &s.rqs[busiest].tasks[j];
        proof { bq.lemma_task_at(j as int); }
        let ok = t.state == TaskState::Runnable && t.rt_deadline == 0
            && (t.cpu_affinity.is_none() || t.cpu_affinity == Some(idlest))
            && s.rqs[busiest].current != Some(t.id);
        if ok {
            let better = match stolen { None => true, Some(x) => t.id.0 < x };
            if better {
                stolen = Some(t.id.0);
            }
        }
        j = j + 1;
    }
    proof {
        assert forall|y: u64| #[trigger] stealable(&bq, y, idlest as int) implies (stolen matches Some(x) && x <= y) by {
            let k = choose|k: int| 0 <= k < bq.tasks@.len() && (#[trigger] bq.tasks@[k]).id.0 == y;
            bq.lemma_task_at(k);
        }
    }
    match stolen {
        Some(x) => {
            let mut busy = s.take_rq(busiest);
            let removed = busy.remove(TaskId(x));
            s.put_rq(busiest, busy);
            match removed {
                Some(t) => {
                    let mut t = t;
                    proof {
                        let k = choose|k: int| 0 <= k < bq.tasks@.len() && (#[trigger] bq.tasks@[k]).id.0 == x;
                        bq.lemma_task_at(k);
                        assert(old(s).rqs@[busiest as int].has(x));
                        assert(old(s).rqs@[idlest as int].load + t.weight <= u64::MAX);
                        assert(old(s).rqs@[idlest as int].min_vruntime + t.vruntime + t.slice <= u64::MAX);
                    }
                    let busy_min = s.rqs[busiest].min_vruntime();
                    let idle_min = s.rqs[idlest].min_vruntime();
                    let rel = t.vruntime.saturating_sub(busy_min);
                    t.vruntime = idle_min.saturating_add(rel);
                    t.deadline = t.vruntime + t.slice;
                    let mut idle = s.take_rq(idlest);
                    idle.insert(t);
                    s.put_rq(idlest, idle);
                    proof {
                        assert forall|y: u64| y < x implies !#[trigger] stealable(&old(s).rqs@[busiest as int], y, idlest as int) by {}
                        assert forall|i: int| 0 <= i < MAX_CPUS && i != busiest && i != idlest implies #[trigger] s.rqs@[i] == old(s).rqs@[i] by {}
                    }
                    if idlest != cpu { Some(idlest) } else { None }
                },
                None => {
                    proof { assert(false); }
                    None
                },
            }
        },
        None => {
            proof {
                assert forall|x: u64| !#[trigger] stealable(&old(s).rqs@[busiest as int], x, idlest as int) by {}
            }
            None
        },
    }
}


/// What the caller must do after `reschedule` switched tasks.
#[derive(Clone, Copy, Debug)]
pub struct Switch {
    /// Top of the new task's kernel stack (for the task state segment and
    /// the per-CPU block).
    pub kernel_stack_top: usize,
    /// The new task's process, when the address space must change (the old
    /// task belonged to another process, or there was none).
    pub new_pid: Option<u32>,
}

/// `t` after leaving the CPU with registers `f`: the registers saved, a
/// running task runnable again.
pub open spec fn switched_out(t: Task, f: TrapFrame) -> Task {
    Task {
        ctx: Context { frame: f, ..t.ctx },
        state: if t.state == TaskState::Running { TaskState::Runnable } else { t.state },
        ..t
    }
}

/// `t` with registers `f` saved.
pub open spec fn frame_saved(t: Task, f: TrapFrame) -> Task {
    Task { ctx: Context { frame: f, ..t.ctx }, ..t }
}

/// Whether `q2` holds the tasks of `q`, but for `a` and `b`, and its trees,
/// minimum virtual runtime and load.
pub open spec fn kept_but(q: &Runqueue, q2: &Runqueue, a: u64, b: u64) -> bool {
    &&& q2.wf()
    &&& kept_tasks(q, q2, a, b)
    &&& q2.by_deadline == q.by_deadline
    &&& q2.rt_tasks == q.rt_tasks
    &&& q2.min_vruntime == q.min_vruntime
    &&& q2.load == q.load
}

/// What switching from the current task of `q` (registers `f`) to `next`
/// leaves: queue `q2`, registers `f2`, request `r`. To another task: the
/// old task's registers are saved (it is runnable again if it ran); the
/// new one runs, its registers are loaded and it becomes current, and the
/// caller learns its kernel stack and whether its process differs. With
/// nothing to run, the current task's registers are saved. Otherwise
/// nothing changes.
pub open spec fn switch_spec(q: &Runqueue, f: TrapFrame, next: Option<TaskId>, q2: &Runqueue, f2: TrapFrame, r: Option<Switch>) -> bool {
    let saved = q.current is Some && q.has(q.current->Some_0.0);
    let c = q.current->Some_0.0;
    if next is Some && q.current != next {
        let n = next->Some_0.0;
        let nt = q.task(n);
        &&& kept_but(q, q2, if saved { c } else { n }, n)
        &&& saved ==> q2.has(c) && q2.task(c) == switched_out(q.task(c), f)
        &&& if q.has(n) {
            &&& q2.has(n)
            &&& q2.task(n) == Task { state: TaskState::Running, ..nt }
            &&& q2.current == next
            &&& f2 == nt.ctx.frame
            &&& r == Some(Switch {
                kernel_stack_top: nt.kernel_stack_top,
                new_pid: if saved && q.task(c).pid == nt.pid { None } else { Some(nt.pid) },
            })
        } else {
            &&& !q2.has(n)
            &&& q2.current == q.current
            &&& f2 == f
            &&& r is None
        }
    } else if next is None && saved {
        &&& kept_but(q, q2, c, c)
        &&& q2.has(c)
        &&& q2.task(c) == frame_saved(q.task(c), f)
        &&& q2.current == q.current
        &&& f2 == f
        &&& r is None
    } else {
        &&& *q2 == *q
        &&& f2 == f
        &&& r is None
    }
}

/// A task of a well-formed queue has a positive weight.
proof fn lemma_weight(q: &Runqueue, id: u64)
    requires
        q.wf(),
        q.has(id),
    ensures
        q.task(id).weight > 0,
{
    let k = choose|k: int| 0 <= k < q.tasks@.len() && (#[trigger] q.tasks@[k]).id.0 == id;
    q.lemma_task_at(k);
}

/// Whether `q2` holds the tasks of `q`, but for `a` and `b`.
pub open spec fn kept_tasks(q: &Runqueue, q2: &Runqueue, a: u64, b: u64) -> bool {
    forall|x: u64| x != a && x != b ==> (#[trigger] q2.has(x) == q.has(x) && (q.has(x) ==> q2.task(x) == q.task(x)))
}

/// Keeping all tasks but `a` and then all but `b` keeps all but those two.
proof fn lemma_kept_two(q0: &Runqueue, q1: &Runqueue, q2: &Runqueue, a: u64, b: u64)
    requires
        Runqueue::same_others(q0, q1, a),
        Runqueue::same_others(q1, q2, b),
    ensures
        kept_tasks(q0, q2, a, b),
{
    assert forall|x: u64| x != a && x != b implies (#[trigger] q2.has(x) == q0.has(x) && (q0.has(x) ==> q2.task(x) == q0.task(x))) by {
        assert(q2.has(x) == q1.has(x));
        assert(q1.has(x) == q0.has(x));
    }
}

/// A queue keeps all its tasks but any.
proof fn lemma_same_self(q: &Runqueue, a: u64)
    ensures
        Runqueue::same_others(q, q, a),
{
}

/// Saves registers `f` in the current task of `q`, if it is in the queue
/// (a running task becomes runnable when `yielding`); returns its process.
fn save_current(q: &mut Runqueue, f: TrapFrame, yielding: bool) -> (old_pid: Option<u32>)
    requires
        old(q).wf(),
    ensures
        ({
            let c = old(q).current->Some_0.0;
            if old(q).current is Some && old(q).has(c) {
                &&& kept_but(old(q), final(q), c, c)
                &&& Runqueue::same_others(old(q), final(q), c)
                &&& final(q).has(c)
                &&& final(q).task(c) == (if yielding { switched_out(old(q).task(c), f) } else { frame_saved(old(q).task(c), f) })
                &&& final(q).current == old(q).current
                &&& old_pid == Some(old(q).task(c).pid)
            } else {
                &&& *final(q) == *old(q)
                &&& old_pid is None
            }
        }),
{
    let ghost q0 = *q;
    match q.current {
        Some(c) => match q.take(c.0) {
            Some(t) => {
                proof { lemma_weight(&q0, c.0); }
                let mut t = t;
                let pid = t.pid;
                t.ctx.frame = f;
                if yielding && t.state == TaskState::Running {
                    t.state = TaskState::Runnable;
                }
                let ghost qa = *q;
                q.put(t);
                proof {
                    lemma_same_others_trans(&q0, &qa, q, c.0);
                    lemma_same_self(q, c.0);
                    lemma_kept_two(&q0, q, q, c.0, c.0);
                }
                Some(pid)
            },
            None => None,
        },
        None => None,
    }
}

/// Switches queue `q` from its current task to `next`; see [`switch_spec`].
fn switch_to(q: &mut Runqueue, frame: &mut TrapFrame, next: Option<TaskId>) -> (r: Option<Switch>)
    requires
        old(q).wf(),
    ensures
        switch_spec(old(q), *old(frame), next, final(q), *final(frame), r),
{
    let ghost q0 = *q;
    let cur = q.current;
    match next {
        Some(n) => {
            if cur == Some(n) {
                return None;
            }
            let old_pid = save_current(q, *frame, true);
            let ghost q1 = *q;
            proof {
                if cur is Some && q0.has(cur->Some_0.0) {
                    assert(cur->Some_0 != n);
                } else {
                    lemma_same_self(&q0, n.0);
                }
                assert(Runqueue::same_others(&q0, &q1, if cur is Some && q0.has(cur->Some_0.0) { cur->Some_0.0 } else { n.0 }));
            }
            match q.take(n.0) {
                Some(t) => {
                    proof { lemma_weight(&q0, n.0); }
                    let mut t = t;
                    t.state = TaskState::Running;
                    *frame = t.ctx.frame;
                    let top = t.kernel_stack_top;
                    let pid = t.pid;
                    let ghost qb = *q;
                    q.put(t);
                    let ghost qc = *q;
                    q.set_current(n);
                    proof {
                        lemma_same_tasks(&qc, q);
                        lemma_same_others_trans(&q1, &qb, &qc, n.0);
                        lemma_kept_two(&q0, &q1, &qc, if cur is Some && q0.has(cur->Some_0.0) { cur->Some_0.0 } else { n.0 }, n.0);
                    }
                    let new_pid = match old_pid {
                        Some(p) => if p == pid { None } else { Some(pid) },
                        None => Some(pid),
                    };
                    Some(Switch { kernel_stack_top: top, new_pid })
                },
                None => {
                    proof {
                        lemma_kept_two(&q0, &q1, q, if cur is Some && q0.has(cur->Some_0.0) { cur->Some_0.0 } else { n.0 }, n.0);
                    }
                    None
                },
            }
        },
        None => {
            save_current(q, *frame, false);
            None
        },
    }
}


/// Whether charging `delta` to the current task of `q` stays within `u64`.
pub open spec fn charge_room(q: &Runqueue, delta: u64) -> bool {
    current_in_trees(q) ==> charge_fits(q.task(q.current->Some_0.0), delta)
}

/// What rescheduling queue `q` with registers `f` and `delta` of running
/// leaves: the current task is charged (see [`vruntime_updated`]), the next
/// task is picked (see [`pick_spec`]) and the queue switches to it (see
/// [`switch_spec`]).
pub open spec fn rescheduled(q: &Runqueue, f: TrapFrame, delta: u64, q2: &Runqueue, f2: TrapFrame, r: Option<Switch>) -> bool {
    exists|q1: Runqueue, next: Option<TaskId>|
        vruntime_updated(q, &q1, delta) && pick_spec(&q1, next) && #[trigger] switch_spec(&q1, f, next, q2, f2, r)
}

/// A switch leaves a well-formed queue.
proof fn lemma_switch_wf(q: &Runqueue, f: TrapFrame, next: Option<TaskId>, q2: &Runqueue, f2: TrapFrame, r: Option<Switch>)
    requires
        q.wf(),
        switch_spec(q, f, next, q2, f2, r),
    ensures
        q2.wf(),
{
}

/// Reschedules CPU `cpu` (at a timer tick or a yield) with the registers
/// `frame` of the interrupted task: charges `ticks_per_10ms` of running to
/// the current task, picks the next task and switches to it; see
/// [`rescheduled`]. The caller then acknowledges the interrupt, saves and
/// restores the FPU state, loads the new kernel stack and, for a new
/// process, its address space.
pub fn reschedule(s: &mut Scheduler, cpu: usize, frame: &mut TrapFrame, ticks_per_10ms: u64) -> (r: Option<Switch>)
    requires
        old(s).wf(),
        cpu < MAX_CPUS,
        charge_room(&old(s).rqs@[cpu as int], ticks_per_10ms),
    ensures
        Scheduler::only_rq(old(s), final(s), cpu as int),
        final(s).next_id == old(s).next_id,
        rescheduled(&old(s).rqs@[cpu as int], *old(frame), ticks_per_10ms, &final(s).rqs@[cpu as int], *final(frame), r),
{
    let mut q = s.take_rq(cpu);
    q.update_vruntime(ticks_per_10ms);
    let ghost q1 = q;
    let next = q.pick_next();
    let r = switch_to(&mut q, frame, next);
    proof { lemma_switch_wf(&q1, *old(frame), next, &q, *frame, r); }
    s.put_rq(cpu, q);
    proof {
        assert(switch_spec(&q1, *old(frame), next, &s.rqs@[cpu as int], *frame, r));
    }
    r
}

/// Whether no task id is in two run queues, and the current task of a CPU
/// is in no other CPU's queue.
pub open spec fn ids_distinct(s: &Scheduler) -> bool {
    &&& forall|c1: int, c2: int, x: u64| 0 <= c1 < MAX_CPUS && 0 <= c2 < MAX_CPUS && c1 != c2 && #[trigger] s.rqs@[c1].has(x)
        ==> !#[trigger] s.rqs@[c2].has(x)
    &&& forall|c1: int, c2: int| 0 <= c1 < MAX_CPUS && 0 <= c2 < MAX_CPUS && c1 != c2 && (#[trigger] s.rqs@[c1]).current is Some
        ==> !(#[trigger] s.rqs@[c2]).has(s.rqs@[c1].current->Some_0.0)
}

/// `x + 10`, wrapping around at `u64::MAX`.
pub open spec fn plus_ten(x: u64) -> u64 {
    ((x as int + 10) % 0x1_0000_0000_0000_0000) as u64
}

/// What a timer tick does before rescheduling: on CPU 0 it counts 10 ms of
/// time since boot and of balancing time, and balances the queues (see
/// [`balanced`]) when the balancing time was a multiple of 100 ms.
pub open spec fn ticked(old: &Scheduler, new: &Scheduler, cpu: usize, ipi: Option<usize>) -> bool {
    if cpu == 0 {
        let counted = Scheduler { time_from_boot: plus_ten(old.time_from_boot), balance_ticks: plus_ten(old.balance_ticks), ..*old };
        if old.balance_ticks % 100 == 0 {
            balanced(&counted, new, cpu, ipi)
        } else {
            *new == counted && ipi is None
        }
    } else {
        *new == *old && ipi is None
    }
}

/// Balancing keeps the current task of every queue, and its room to be charged.
proof fn lemma_balance_keeps_current(s0: &Scheduler, s1: &Scheduler, cpu: usize, ipi: Option<usize>, delta: u64)
    requires
        s0.wf(),
        cpu < MAX_CPUS,
        ids_distinct(s0),
        balanced(s0, s1, cpu, ipi),
        charge_room(&s0.rqs@[cpu as int], delta),
    ensures
        charge_room(&s1.rqs@[cpu as int], delta),
{
    let c = cpu as int;
    let q0 = s0.rqs@[c];
    let q1 = s1.rqs@[c];
    if s0.ncpus > 1 && current_in_trees(&q1) {
        let (b, d) = choose|b: int, d: int| #[trigger] is_busiest(s0, b) && #[trigger] is_idlest(s0, d);
        if s0.rqs@[b].load > s0.rqs@[d].load + 1024 && b != d
            && exists|x: u64| #[trigger] stealable(&s0.rqs@[b], x, d) {
            if c == b || c == d {
                let x = choose|x: u64| #[trigger] stealable(&s0.rqs@[b], x, d)
                    && (forall|y: u64| y < x ==> !#[trigger] stealable(&s0.rqs@[b], y, d))
                    && !s1.rqs@[b].has(x)
                    && s1.rqs@[d].has(x)
                    && Runqueue::same_others(&s0.rqs@[b], &s1.rqs@[b], x)
                    && Runqueue::same_others(&s0.rqs@[d], &s1.rqs@[d], x)
                    && s1.rqs@[b].current == s0.rqs@[b].current
                    && s1.rqs@[d].current == s0.rqs@[d].current
                    && s1.rqs@[d].task(x).vruntime == ({
                        let t = s0.rqs@[b].task(x);
                        let rel = if t.vruntime > s0.rqs@[b].min_vruntime { t.vruntime - s0.rqs@[b].min_vruntime } else { 0 };
                        s0.rqs@[d].min_vruntime + rel
                    });
                let cid = q1.current->Some_0.0;
                assert(q0.current == q1.current);
                if c == b {
                    assert(cid != x);
                } else {
                    assert(s0.rqs@[b].has(x));
                    assert(!s0.rqs@[b].has(cid));
                    assert(cid != x);
                }
                assert(q1.has(cid) == q0.has(cid));
            } else {
                assert(q1 == q0);
            }
        }
    }
}

/// What a timer tick on CPU `cpu` leaves: scheduler `new`, registers `f2`
/// and `r` (the CPU to interrupt and the switch): [`ticked`], then
/// [`rescheduled`] on that CPU's queue.
pub open spec fn tick_spec(old: &Scheduler, new: &Scheduler, cpu: usize, f: TrapFrame, f2: TrapFrame, delta: u64, ipi: Option<usize>, sw: Option<Switch>) -> bool {
    exists|s1: Scheduler| #[trigger] ticked(old, &s1, cpu, ipi)
        && Scheduler::only_rq(&s1, new, cpu as int)
        && new.next_id == s1.next_id
        && rescheduled(&s1.rqs@[cpu as int], f, delta, &new.rqs@[cpu as int], f2, sw)
}

/// A timer interrupt on CPU `cpu` with the registers `frame` of the
/// interrupted task: see [`ticked`], then [`reschedule`]. Returns the CPU
/// to interrupt after balancing, if any, and the switch.
pub fn timer_tick(s: &mut Scheduler, cpu: usize, frame: &mut TrapFrame, ticks_per_10ms: u64) -> (r: (Option<usize>, Option<Switch>))
    requires
        old(s).wf(),
        cpu < MAX_CPUS,
        charge_room(&old(s).rqs@[cpu as int], ticks_per_10ms),
        cpu == 0 && old(s).balance_ticks % 100 == 0 ==> balance_room(old(s)) && ids_distinct(old(s)),
    ensures
        final(s).wf(),
        tick_spec(old(s), final(s), cpu, *old(frame), *final(frame), ticks_per_10ms, r.0, r.1),
{
    let ghost s0 = *s;
    let mut ipi: Option<usize> = None;
    if cpu == 0 {
        s.time_from_boot = s.time_from_boot.wrapping_add(10);
        let ticks = s.balance_ticks;
        s.balance_ticks = s.balance_ticks.wrapping_add(10);
        if ticks % 100 == 0 {
            let ghost counted = *s;
            ipi = balance_cpus(s, cpu);
            proof { lemma_balance_keeps_current(&counted, s, cpu, ipi, ticks_per_10ms); }
        }
    }
    let ghost s1 = *s;
    proof {
        assert(s0.time_from_boot.wrapping_add(10) == plus_ten(s0.time_from_boot));
        assert(s0.balance_ticks.wrapping_add(10) == plus_ten(s0.balance_ticks));
    }
    let sw = reschedule(s, cpu, frame, ticks_per_10ms);
    proof {
        assert(ticked(&s0, &s1, cpu, ipi));
        assert(tick_spec(old(s), s, cpu, *old(frame), *frame, ticks_per_10ms, ipi, sw));
    }
    (ipi, sw)
}

} // verus!
