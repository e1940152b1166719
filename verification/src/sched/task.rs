//! Tasks: their identity, state, priority and saved context.

use vstd::prelude::*;
use crate::trap::TrapFrame;

verus! {

/// A task's identifier.
#[derive(Clone, Copy, Debug, PartialEq, Eq, Structural)]
pub struct TaskId(pub u64);

/// Where a task is in its life.
#[derive(Clone, Copy, Debug, PartialEq, Eq, Structural)]
pub enum TaskState {
    /// Ready to run.
    Runnable,
    /// On a CPU.
    Running,
    /// Waiting on a wait queue.
    Sleeping,
    /// Blocked.
    Blocked,
    /// Exited, waiting to be reaped.
    Zombie,
}

/// A nice value (-20 to 19).
#[derive(Clone, Copy, Debug, PartialEq, Eq, Structural)]
pub struct Priority(pub i32);

/// The scheduling weight of each nice value from -20 to 19.
pub open spec fn weight_table() -> Seq<u64> {
    seq![88761u64, 71755, 58481, 46236, 37617, 30483, 24513, 19862,
        16124, 13031, 10550, 8546, 6912, 5594, 4519, 3659,
        2958, 2389, 1934, 1563, 1274, 1024, 833, 672,
        546, 441, 356, 287, 232, 187, 151, 122,
        98, 79, 64, 51, 41, 33, 27, 22]
}

/// `nice` clamped to -20 ..= 19.
pub open spec fn clamp_nice(nice: i32) -> int {
    if nice < -20 { -20 } else if nice > 19 { 19 } else { nice as int }
}

impl Priority {
    /// The weight of nice value `nice` (clamped to -20 ..= 19).
    pub fn nice_to_weight(nice: i32) -> (w: u64)
        ensures
            w == weight_table()[clamp_nice(nice) + 20],
    {
        let table: [u64; 40] = [
            88761, 71755, 58481, 46236, 37617, 30483, 24513, 19862,
            16124, 13031, 10550, 8546, 6912, 5594, 4519, 3659,
            2958, 2389, 1934, 1563, 1274, 1024, 833, 672,
            546, 441, 356, 287, 232, 187, 151, 122,
            98, 79, 64, 51, 41, 33, 27, 22,
        ];
        let n: i32 = if nice < -20 { -20 } else if nice > 19 { 19 } else { nice };
        let i: usize = (n + 20) as usize;
        proof {
            assert(table@ =~= weight_table());
        }
        table[i]
    }
}

/// The FPU and SSE registers of a task (the FXSAVE area).
#[derive(Clone, Copy)]
pub struct FpuState {
    /// The saved area.
    pub area: [u8; 512],
    /// Whether the area holds a saved state.
    pub initialized: bool,
}

impl FpuState {
    /// A zeroed, uninitialized area.
    pub fn default() -> (f: FpuState)
        ensures
            !f.initialized,
            forall|i: int| 0 <= i < 512 ==> #[trigger] f.area@[i] == 0,
    {
        FpuState { area: [0u8; 512], initialized: false }
    }
}

/// A task's saved context.
#[derive(Clone, Copy)]
pub struct Context {
    /// The registers.
    pub frame: TrapFrame,
    /// The FPU state.
    pub fpu_state: FpuState,
}

/// A task.
pub struct Task {
    /// Its identifier.
    pub id: TaskId,
    /// Its state.
    pub state: TaskState,
    /// Virtual runtime.
    pub vruntime: u64,
    /// Virtual deadline.
    pub deadline: u64,
    /// Scheduling weight.
    pub weight: u64,
    /// Time slice.
    pub slice: u64,
    /// Saved context.
    pub ctx: Context,
    /// Kernel stack.
    pub kernel_stack: usize,
    /// User stack.
    pub user_stack: usize,
    /// The CPU the task is pinned to, if any.
    pub cpu_affinity: Option<usize>,
    /// Its name.
    pub name: String,
    /// The task that spawned it.
    pub parent: Option<TaskId>,
    /// Exit code (-1 while running).
    pub exit_code: i32,
    /// The process it belongs to.
    pub pid: u32,
    /// Top of the kernel stack.
    pub kernel_stack_top: usize,
    /// Real-time deadline (0: none).
    pub rt_deadline: u64,
    /// CPU locality hint.
    pub cpu_locality: u64,
}

impl Task {
    /// A runnable task `id` of nice 0 that starts in the kernel at `entry`
    /// with the stack at `kernel_stack` (the frame: kernel code and data
    /// selectors, interrupts enabled), in process `pid`.
    pub fn new(id: TaskId, entry: u64, kernel_stack: usize, pid: u32) -> (t: Task)
        ensures
            t.id == id,
            t.state == TaskState::Runnable,
            t.vruntime == 0,
            t.deadline == 0,
            t.weight == weight_table()[20],
            t.slice == 10_000,
            t.ctx.frame == (TrapFrame { rip: entry, rsp: kernel_stack as u64, cs: 0x08, ss: 0x10, rflags: 0x202, ..TrapFrame::zeroed_spec() }),
            !t.ctx.fpu_state.initialized,
            t.kernel_stack == kernel_stack,
            t.kernel_stack_top == kernel_stack,
            t.user_stack == 0,
            t.cpu_affinity is None,
            t.name@ == Seq::<char>::empty(),
            t.parent is None,
            t.exit_code == -1,
            t.pid == pid,
            t.rt_deadline == 0,
            t.cpu_locality == 0,
    {
        let mut frame = TrapFrame::zeroed();
        frame.rip = entry;
        frame.rsp = kernel_stack as u64;
        frame.cs = 0x08;
        frame.ss = 0x10;
        frame.rflags = 0x202;
        let w = Priority::nice_to_weight(0);
        Task {
            id,
            state: TaskState::Runnable,
            vruntime: 0,
            deadline: 0,
            weight: w,
            slice: 10_000,
            ctx: Context { frame, fpu_state: FpuState::default() },
            kernel_stack,
            user_stack: 0,
            cpu_affinity: None,
            name: String::new(),
            parent: None,
            exit_code: -1,
            pid,
            kernel_stack_top: kernel_stack,
            rt_deadline: 0,
            cpu_locality: 0,
        }
    }
}

impl Task {
    /// A runnable task `id` named `name` with the weight of `priority` that
    /// starts in the kernel at `entry` with `arg` in `rdi`; its stack starts
    /// one word below `kernel_stack_top` (the word that a return from
    /// `entry` would pop), in process `pid`.
    pub fn new_arg(id: TaskId, entry: u64, arg: usize, kernel_stack_top: usize, priority: Priority, name: String, pid: u32) -> (t: Task)
        requires
            kernel_stack_top >= 8,
        ensures
            t.id == id,
            t.state == TaskState::Runnable,
            t.vruntime == 0,
            t.deadline == 0,
            t.weight == weight_table()[clamp_nice(priority.0) + 20],
            t.slice == 10_000,
            t.ctx.frame == (TrapFrame { rip: entry, rsp: (kernel_stack_top - 8) as u64, rdi: arg as u64, cs: 0x08, ss: 0x10,
                rflags: 0x202, ..TrapFrame::zeroed_spec() }),
            !t.ctx.fpu_state.initialized,
            t.kernel_stack == kernel_stack_top,
            t.kernel_stack_top == kernel_stack_top,
            t.user_stack == 0,
            t.cpu_affinity is None,
            t.name == name,
            t.parent is None,
            t.exit_code == -1,
            t.pid == pid,
            t.rt_deadline == 0,
            t.cpu_locality == 0,
    {
        let mut frame = TrapFrame::zeroed();
        frame.rip = entry;
        frame.rsp = (kernel_stack_top - 8) as u64;
        frame.rdi = arg as u64;
        frame.cs = 0x08;
        frame.ss = 0x10;
        frame.rflags = 0x202;
        let w = Priority::nice_to_weight(priority.0);
        Task {
            id,
            state: TaskState::Runnable,
            vruntime: 0,
            deadline: 0,
            weight: w,
            slice: 10_000,
            ctx: Context { frame, fpu_state: FpuState::default() },
            kernel_stack: kernel_stack_top,
            user_stack: 0,
            cpu_affinity: None,
            name,
            parent: None,
            exit_code: -1,
            pid,
            kernel_stack_top,
            rt_deadline: 0,
            cpu_locality: 0,
        }
    }
}

impl TrapFrame {
    /// The frame with every register zero.
    pub open spec fn zeroed_spec() -> TrapFrame {
        TrapFrame { rax: 0, rbx: 0, rcx: 0, rdx: 0, rsi: 0, rdi: 0, rbp: 0, r8: 0, r9: 0, r10: 0,
            r11: 0, r12: 0, r13: 0, r14: 0, r15: 0, rip: 0, cs: 0, rflags: 0, rsp: 0, ss: 0 }
    }
}

} // verus!
