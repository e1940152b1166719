//! The per-CPU run queue: EEVDF scheduling by virtual deadline, with
//! real-time deadlines served first.

use vstd::prelude::*;
use crate::sched::keys::{key2_lt, key3_lt, lt2, lt3, set2_insert, set2_remove, set3_insert, set3_remove};
use crate::sched::task::{Task, TaskId, TaskState};

verus! {

/// Weight of a task of nice 0.
pub const NICE_0_WEIGHT: u64 = 1024;

/// A run queue.
pub struct Runqueue {
    /// The tasks, each id once.
    pub tasks: Vec<Task>,
    /// Scheduling keys `(deadline, vruntime, id)` of the tasks in the tree.
    pub by_deadline: Vec<(u64, u64, u64)>,
    /// Real-time keys `(deadline, id)`.
    pub rt_tasks: Vec<(u64, u64)>,
    /// The queue's minimum virtual runtime.
    pub min_vruntime: u64,
    /// The task on the CPU.
    pub current: Option<TaskId>,
    /// Sum of the weights of the queued tasks.
    pub load: u64,
}

/// The scheduling key of a task.
pub open spec fn key_of(t: Task) -> (u64, u64, u64) {
    (t.deadline, t.vruntime, t.id.0)
}

impl Runqueue {
    /// Ids appear once; key sets have no repeats; weights are positive.
    pub open spec fn wf(&self) -> bool {
        &&& forall|i: int, j: int| 0 <= i < j < self.tasks@.len() ==> self.tasks@[i].id != self.tasks@[j].id
        &&& forall|i: int| 0 <= i < self.tasks@.len() ==> (#[trigger] self.tasks@[i]).weight > 0
        &&& self.by_deadline@.no_duplicates()
        &&& self.rt_tasks@.no_duplicates()
    }

    /// Whether task `id` is in the queue.
    pub open spec fn has(&self, id: u64) -> bool {
        exists|i: int| 0 <= i < self.tasks@.len() && (#[trigger] self.tasks@[i]).id.0 == id
    }

    /// Task `id` (meaningful when it is in the queue).
    pub open spec fn task(&self, id: u64) -> Task {
        self.tasks@[choose|i: int| 0 <= i < self.tasks@.len() && (#[trigger] self.tasks@[i]).id.0 == id]
    }

    /// The scheduling keys.
    pub open spec fn dl(&self) -> Set<(u64, u64, u64)> {
        self.by_deadline@.to_set()
    }

    /// The real-time keys.
    pub open spec fn rt(&self) -> Set<(u64, u64)> {
        self.rt_tasks@.to_set()
    }

    /// Whether `new` holds the same tasks as `old` except `id`.
    pub open spec fn same_others(old: &Runqueue, new: &Runqueue, id: u64) -> bool {
        forall|x: u64| x != id ==> (#[trigger] new.has(x) == old.has(x) && (old.has(x) ==> new.task(x) == old.task(x)))
    }

    /// An empty queue.
    pub fn new() -> (r: Runqueue)
        ensures
            r.wf(),
            r.tasks@.len() == 0,
            r.dl() == Set::<(u64, u64, u64)>::empty(),
            r.rt() == Set::<(u64, u64)>::empty(),
            r.min_vruntime == 0,
            r.current is None,
            r.load == 0,
    {
        let r = Runqueue { tasks: Vec::new(), by_deadline: Vec::new(), rt_tasks: Vec::new(), min_vruntime: 0, current: None, load: 0 };
        proof {
            assert(r.dl() =~= Set::<(u64, u64, u64)>::empty());
            assert(r.rt() =~= Set::<(u64, u64)>::empty());
        }
        r
    }

    /// The task on the CPU.
    pub fn current_task_id(&self) -> (r: Option<TaskId>)
        ensures
            r == self.current,
    {
        self.current
    }

    /// Makes `id` the task on the CPU.
    pub fn set_current(&mut self, id: TaskId)
        ensures
            *final(self) == (Runqueue { current: Some(id), ..*old(self) }),
    {
        self.current = Some(id);
    }

    /// Leaves the CPU without a current task.
    pub fn clear_current(&mut self)
        ensures
            *final(self) == (Runqueue { current: None, ..*old(self) }),
    {
        self.current = None;
    }

    /// The queue's load.
    pub fn load(&self) -> (l: u64)
        ensures
            l == self.load,
    {
        self.load
    }

    /// The queue's minimum virtual runtime.
    pub fn min_vruntime(&self) -> (m: u64)
        ensures
            m == self.min_vruntime,
    {
        self.min_vruntime
    }

    /// The index of task `id`, if it is in the queue.
    pub fn find(&self, id: u64) -> (r: Option<usize>)
        requires
            self.wf(),
        ensures
            r is None <==> !self.has(id),
            r matches Some(i) ==> i < self.tasks@.len() && self.tasks@[i as int].id.0 == id && self.task(id) == self.tasks@[i as int],
    {
        let mut i: usize = 0;
        while i < self.tasks.len()
            invariant
                self.wf(),
                i <= self.tasks@.len(),
                forall|j: int| 0 <= j < i ==> self.tasks@[j].id.0 != id,
            decreases self.tasks@.len() - i,
        {
            if self.tasks[i].id.0 == id {
                proof {
                    let k = choose|k: int| 0 <= k < self.tasks@.len() && (#[trigger] self.tasks@[k]).id.0 == id;
                    if k < i {
                        assert(self.tasks@[k].id != self.tasks@[i as int].id);
                    } else if k > i {
                        assert(self.tasks@[i as int].id != self.tasks@[k].id);
                    }
                    assert(k == i);
                }
                return Some(i);
            }
            i = i + 1;
        }
        None
    }

    /// The number of runnable tasks.
    pub fn runnable_count(&self) -> (n: usize)
        ensures
            n == self.tasks@.filter(|t: Task| t.state == TaskState::Runnable).len(),
    {
        let mut n: usize = 0;
        let mut i: usize = 0;
        while i < self.tasks.len()
            invariant
                i <= self.tasks@.len(),
                n == self.tasks@.subrange(0, i as int).filter(|t: Task| t.state == TaskState::Runnable).len(),
                n <= i,
            decreases self.tasks@.len() - i,
        {
            proof {
                let s0 = self.tasks@.subrange(0, i as int);
                assert(self.tasks@.subrange(0, i + 1) =~= s0.push(self.tasks@[i as int]));
                s0.lemma_filter_len_push(|t: Task| t.state == TaskState::Runnable, self.tasks@[i as int]);
            }
            if self.tasks[i].state == TaskState::Runnable {
                n = n + 1;
            }
            i = i + 1;
        }
        proof {
            assert(self.tasks@.subrange(0, self.tasks@.len() as int) =~= self.tasks@);
        }
        n
    }
}

impl Runqueue {
    /// In a well-formed queue, the task at index `i` is the task of its id.
    pub proof fn lemma_task_at(&self, i: int)
        requires
            self.wf(),
            0 <= i < self.tasks@.len(),
        ensures
            self.has(self.tasks@[i].id.0),
            self.task(self.tasks@[i].id.0) == self.tasks@[i],
    {
        let x = self.tasks@[i].id.0;
        assert(self.has(x));
        let k = choose|k: int| 0 <= k < self.tasks@.len() && (#[trigger] self.tasks@[k]).id.0 == x;
        if k < i {
            assert(self.tasks@[k].id != self.tasks@[i].id);
        } else if k > i {
            assert(self.tasks@[i].id != self.tasks@[k].id);
        }
    }

    /// Stores `task` under its id, replacing a task with the same id.
    pub fn put(&mut self, task: Task)
        requires
            old(self).wf(),
            task.weight > 0,
        ensures
            final(self).wf(),
            final(self).has(task.id.0),
            final(self).task(task.id.0) == task,
            Runqueue::same_others(old(self), final(self), task.id.0),
            final(self).by_deadline == old(self).by_deadline,
            final(self).rt_tasks == old(self).rt_tasks,
            final(self).min_vruntime == old(self).min_vruntime,
            final(self).current == old(self).current,
            final(self).load == old(self).load,
    {
        let id = task.id.0;
        let ghost old_rq = *self;
        match self.find(id) {
            Some(i) => {
                self.tasks.set(i, task);
                proof {
                    assert forall|a: int, b: int| 0 <= a < b < self.tasks@.len() implies self.tasks@[a].id != self.tasks@[b].id by {
                        assert(old_rq.tasks@[a].id != old_rq.tasks@[b].id);
                    }
                    assert forall|k: int| 0 <= k < self.tasks@.len() implies (#[trigger] self.tasks@[k]).weight > 0 by {
                        if k != i { assert(self.tasks@[k] == old_rq.tasks@[k]); }
                    }
                    self.lemma_task_at(i as int);
                    assert forall|x: u64| x != id implies (#[trigger] self.has(x) == old_rq.has(x)
                        && (old_rq.has(x) ==> self.task(x) == old_rq.task(x))) by {
                        if old_rq.has(x) {
                            let k = choose|k: int| 0 <= k < old_rq.tasks@.len() && (#[trigger] old_rq.tasks@[k]).id.0 == x;
                            assert(k != i);
                            assert(self.tasks@[k] == old_rq.tasks@[k]);
                            self.lemma_task_at(k);
                            old_rq.lemma_task_at(k);
                        }
                        if self.has(x) {
                            let k = choose|k: int| 0 <= k < self.tasks@.len() && (#[trigger] self.tasks@[k]).id.0 == x;
                            assert(k != i);
                            assert(old_rq.tasks@[k] == self.tasks@[k]);
                        }
                    }
                }
            },
            None => {
                self.tasks.push(task);
                proof {
                    let n = old_rq.tasks@.len() as int;
                    assert forall|a: int, b: int| 0 <= a < b < self.tasks@.len() implies self.tasks@[a].id != self.tasks@[b].id by {
                        if b == n {
                            assert(old_rq.tasks@[a].id.0 != id);
                        } else {
                            assert(old_rq.tasks@[a].id != old_rq.tasks@[b].id);
                        }
                    }
                    assert forall|k: int| 0 <= k < self.tasks@.len() implies (#[trigger] self.tasks@[k]).weight > 0 by {
                        if k < n { assert(self.tasks@[k] == old_rq.tasks@[k]); }
                    }
                    self.lemma_task_at(n);
                    assert forall|x: u64| x != id implies (#[trigger] self.has(x) == old_rq.has(x)
                        && (old_rq.has(x) ==> self.task(x) == old_rq.task(x))) by {
                        if old_rq.has(x) {
                            let k = choose|k: int| 0 <= k < old_rq.tasks@.len() && (#[trigger] old_rq.tasks@[k]).id.0 == x;
                            assert(self.tasks@[k] == old_rq.tasks@[k]);
                            self.lemma_task_at(k);
                            old_rq.lemma_task_at(k);
                        }
                        if self.has(x) {
                            let k = choose|k: int| 0 <= k < self.tasks@.len() && (#[trigger] self.tasks@[k]).id.0 == x;
                            assert(k != n);
                            assert(old_rq.tasks@[k] == self.tasks@[k]);
                        }
                    }
                }
            },
        }
    }

    /// Takes task `id` out of the task list, if it is there.
    pub fn take(&mut self, id: u64) -> (r: Option<Task>)
        requires
            old(self).wf(),
        ensures
            final(self).wf(),
            r is Some <==> old(self).has(id),
            r matches Some(t) ==> t == old(self).task(id),
            r is None ==> *final(self) == *old(self),
            !final(self).has(id),
            Runqueue::same_others(old(self), final(self), id),
            final(self).by_deadline == old(self).by_deadline,
            final(self).rt_tasks == old(self).rt_tasks,
            final(self).min_vruntime == old(self).min_vruntime,
            final(self).current == old(self).current,
            final(self).load == old(self).load,
    {
        let ghost old_rq = *self;
        match self.find(id) {
            Some(i) => {
                let t = self.tasks.remove(i);
                proof {
                    let n = old_rq.tasks@.len() as int;
                    assert forall|a: int, b: int| 0 <= a < b < self.tasks@.len() implies self.tasks@[a].id != self.tasks@[b].id by {
                        let a2 = if a < i { a } else { a + 1 };
                        let b2 = if b < i { b } else { b + 1 };
                        assert(self.tasks@[a] == old_rq.tasks@[a2]);
                        assert(self.tasks@[b] == old_rq.tasks@[b2]);
                        assert(old_rq.tasks@[a2].id != old_rq.tasks@[b2].id);
                    }
                    assert forall|k: int| 0 <= k < self.tasks@.len() implies (#[trigger] self.tasks@[k]).weight > 0 by {
                        let k2 = if k < i { k } else { k + 1 };
                        assert(self.tasks@[k] == old_rq.tasks@[k2]);
                    }
                    if self.has(id) {
                        let k = choose|k: int| 0 <= k < self.tasks@.len() && (#[trigger] self.tasks@[k]).id.0 == id;
                        let k2 = if k < i { k } else { k + 1 };
                        assert(self.tasks@[k] == old_rq.tasks@[k2]);
                        if k2 < i {
                            assert(old_rq.tasks@[k2].id != old_rq.tasks@[i as int].id);
                        } else {
                            assert(old_rq.tasks@[i as int].id != old_rq.tasks@[k2].id);
                        }
                    }
                    assert forall|x: u64| x != id implies (#[trigger] self.has(x) == old_rq.has(x)
                        && (old_rq.has(x) ==> self.task(x) == old_rq.task(x))) by {
                        if old_rq.has(x) {
                            let k = choose|k: int| 0 <= k < old_rq.tasks@.len() && (#[trigger] old_rq.tasks@[k]).id.0 == x;
                            assert(k != i);
                            let k1 = if k < i { k } else { k - 1 };
                            assert(self.tasks@[k1] == old_rq.tasks@[k]);
                            self.lemma_task_at(k1);
                            old_rq.lemma_task_at(k);
                        }
                        if self.has(x) {
                            let k = choose|k: int| 0 <= k < self.tasks@.len() && (#[trigger] self.tasks@[k]).id.0 == x;
                            let k2 = if k < i { k } else { k + 1 };
                            assert(old_rq.tasks@[k2] == self.tasks@[k]);
                        }
                    }
                }
                Some(t)
            },
            None => None,
        }
    }
}

/// Queues with the same task list hold the same tasks.
pub proof fn lemma_same_tasks(a: &Runqueue, b: &Runqueue)
    requires
        a.tasks@ == b.tasks@,
    ensures
        forall|x: u64| #[trigger] b.has(x) == a.has(x) && b.task(x) == a.task(x),
{
}

/// Keeping the other tasks composes.
pub proof fn lemma_same_others_trans(a: &Runqueue, b: &Runqueue, c: &Runqueue, id: u64)
    requires
        Runqueue::same_others(a, b, id),
        Runqueue::same_others(b, c, id),
    ensures
        Runqueue::same_others(a, c, id),
{
    assert forall|x: u64| x != id implies (#[trigger] c.has(x) == a.has(x) && (a.has(x) ==> c.task(x) == a.task(x))) by {
        assert(b.has(x) == a.has(x));
        assert(c.has(x) == b.has(x));
    }
}

/// `t` after waking on a queue whose minimum virtual runtime is `minv`:
/// runnable; a task without a real-time deadline that lags behind `minv`
/// keeps half its lag (at most a slice); an expired or unset deadline
/// becomes the virtual runtime plus a slice.
pub open spec fn woken(t: Task, minv: u64) -> Task {
    let vr: u64 = if t.rt_deadline == 0 && t.vruntime < minv {
        let lag = (minv - t.vruntime) as u64;
        let decayed = if (lag >> 1u64) < t.slice { lag >> 1u64 } else { t.slice };
        (minv - decayed) as u64
    } else {
        t.vruntime
    };
    let dl: u64 = if t.deadline == 0 || vr >= t.deadline { (vr + t.slice) as u64 } else { t.deadline };
    Task { state: TaskState::Runnable, vruntime: vr, deadline: dl, ..t }
}

/// The virtual runtime that `delta` of real time adds to a task of weight `w`.
pub open spec fn vr_delta(delta: u64, w: u64) -> u64 {
    ((delta as int * 1024) / (w as int)) as u64
}

/// `t` after running `delta` of real time: a task without a real-time
/// deadline gains virtual runtime by its weight and gets a new deadline
/// when it reaches the old one.
pub open spec fn charged(t: Task, delta: u64) -> Task {
    if t.rt_deadline == 0 {
        let vr = (t.vruntime + vr_delta(delta, t.weight)) as u64;
        let dl = if vr >= t.deadline { (vr + t.slice) as u64 } else { t.deadline };
        Task { vruntime: vr, deadline: dl, ..t }
    } else {
        t
    }
}

impl Runqueue {
    /// Queues `task`: its scheduling key (and real-time key, if it has a
    /// real-time deadline) go into the trees and its weight into the load.
    pub fn insert(&mut self, task: Task)
        requires
            old(self).wf(),
            task.weight > 0,
            old(self).load + task.weight <= u64::MAX,
        ensures
            final(self).wf(),
            final(self).has(task.id.0),
            final(self).task(task.id.0) == task,
            Runqueue::same_others(old(self), final(self), task.id.0),
            final(self).dl() == old(self).dl().insert(key_of(task)),
            final(self).rt() == (if task.rt_deadline > 0 { old(self).rt().insert((task.rt_deadline, task.id.0)) } else { old(self).rt() }),
            final(self).load == old(self).load + task.weight,
            final(self).min_vruntime == old(self).min_vruntime,
            final(self).current == old(self).current,
    {
        if task.rt_deadline > 0 {
            set2_insert(&mut self.rt_tasks, (task.rt_deadline, task.id.0));
        }
        let key = (task.deadline, task.vruntime, task.id.0);
        self.load = self.load + task.weight;
        set3_insert(&mut self.by_deadline, key);
        self.put(task);
    }

    /// Takes task `id` out of the queue: its keys leave the trees and its
    /// weight the load (which stops at 0).
    pub fn remove(&mut self, id: TaskId) -> (r: Option<Task>)
        requires
            old(self).wf(),
        ensures
            final(self).wf(),
            r is Some <==> old(self).has(id.0),
            r is None ==> *final(self) == *old(self),
            r matches Some(t) ==> {
                &&& t == old(self).task(id.0)
                &&& !final(self).has(id.0)
                &&& Runqueue::same_others(old(self), final(self), id.0)
                &&& final(self).dl() == old(self).dl().remove(key_of(t))
                &&& final(self).rt() == (if t.rt_deadline > 0 { old(self).rt().remove((t.rt_deadline, id.0)) } else { old(self).rt() })
                &&& final(self).load == (if old(self).load > t.weight { (old(self).load - t.weight) as u64 } else { 0 })
                &&& final(self).min_vruntime == old(self).min_vruntime
                &&& final(self).current == old(self).current
            },
    {
        if self.find(id.0).is_none() {
            return None;
        }
        match self.take(id.0) {
            Some(t) => {
                proof {
                    let k = choose|k: int| 0 <= k < old(self).tasks@.len() && (#[trigger] old(self).tasks@[k]).id.0 == id.0;
                    assert(t.id.0 == id.0);
                }
                let ghost sa = *self;
                if t.rt_deadline > 0 {
                    set2_remove(&mut self.rt_tasks, (t.rt_deadline, id.0));
                }
                set3_remove(&mut self.by_deadline, (t.deadline, t.vruntime, t.id.0));
                if self.load > t.weight {
                    self.load = self.load - t.weight;
                } else {
                    self.load = 0;
                }
                proof {
                    lemma_same_tasks(&sa, self);
                    lemma_same_others_trans(old(self), &sa, self, id.0);
                }
                Some(t)
            },
            None => None,
        }
    }

    /// Queues a new task: it starts at the queue's minimum virtual runtime,
    /// with its deadline a slice later.
    pub fn spawn_task(&mut self, task: Task)
        requires
            old(self).wf(),
            task.weight > 0,
            old(self).load + task.weight <= u64::MAX,
            old(self).min_vruntime + task.slice <= u64::MAX,
        ensures
            final(self).wf(),
            final(self).has(task.id.0),
            final(self).task(task.id.0) == (Task { vruntime: old(self).min_vruntime,
                deadline: (old(self).min_vruntime + task.slice) as u64, ..task }),
            Runqueue::same_others(old(self), final(self), task.id.0),
            final(self).dl() == old(self).dl().insert((
                (old(self).min_vruntime + task.slice) as u64, old(self).min_vruntime, task.id.0)),
            final(self).load == old(self).load + task.weight,
            final(self).min_vruntime == old(self).min_vruntime,
            final(self).current == old(self).current,
    {
        let mut task = task;
        task.vruntime = self.min_vruntime;
        task.deadline = task.vruntime + task.slice;
        self.insert(task);
    }

    /// Puts task `id` to sleep: it stays in the queue, marked sleeping, but
    /// leaves the trees and the load.
    pub fn sleep_task(&mut self, id: TaskId)
        requires
            old(self).wf(),
        ensures
            final(self).wf(),
            !old(self).has(id.0) ==> *final(self) == *old(self),
            old(self).has(id.0) ==> {
                let t = old(self).task(id.0);
                &&& final(self).has(id.0)
                &&& final(self).task(id.0) == Task { state: TaskState::Sleeping, ..t }
                &&& Runqueue::same_others(old(self), final(self), id.0)
                &&& final(self).dl() == old(self).dl().remove(key_of(t))
                &&& final(self).rt() == (if t.rt_deadline > 0 { old(self).rt().remove((t.rt_deadline, id.0)) } else { old(self).rt() })
                &&& final(self).load == (if t.weight < old(self).load { (old(self).load - t.weight) as u64 } else { 0 })
                &&& final(self).min_vruntime == old(self).min_vruntime
                &&& final(self).current == old(self).current
            },
    {
        if self.find(id.0).is_none() {
            return;
        }
        let ghost s0 = *self;
        match self.take(id.0) {
            Some(t) => {
                let mut t = t;
                proof {
                    let k = choose|k: int| 0 <= k < s0.tasks@.len() && (#[trigger] s0.tasks@[k]).id.0 == id.0;
                    assert(t.id.0 == id.0);
                }
                let ghost sa = *self;
                set3_remove(&mut self.by_deadline, (t.deadline, t.vruntime, t.id.0));
                if t.weight < self.load {
                    self.load = self.load - t.weight;
                } else {
                    self.load = 0;
                }
                if t.rt_deadline > 0 {
                    set2_remove(&mut self.rt_tasks, (t.rt_deadline, id.0));
                }
                proof {
                    let k = choose|k: int| 0 <= k < s0.tasks@.len() && (#[trigger] s0.tasks@[k]).id.0 == id.0;
                    s0.lemma_task_at(k);
                    assert forall|i: int| 0 <= i < s0.tasks@.len() implies (#[trigger] s0.tasks@[i]).weight > 0 by {}
                }
                t.state = TaskState::Sleeping;
                let ghost s1 = *self;
                self.put(t);
                proof {
                    lemma_same_tasks(&sa, &s1);
                    lemma_same_others_trans(&s0, &sa, &s1, id.0);
                    lemma_same_others_trans(&s0, &s1, self, id.0);
                }
            },
            None => {},
        }
    }

    /// Wakes task `id`: see [`woken`]; it goes back into the trees and the load.
    pub fn wakeup_task(&mut self, id: TaskId)
        requires
            old(self).wf(),
            old(self).has(id.0) ==> old(self).load + old(self).task(id.0).weight <= u64::MAX,
            old(self).has(id.0) ==> old(self).min_vruntime + old(self).task(id.0).slice <= u64::MAX
                && old(self).task(id.0).vruntime + old(self).task(id.0).slice <= u64::MAX,
        ensures
            final(self).wf(),
            !old(self).has(id.0) ==> *final(self) == *old(self),
            old(self).has(id.0) ==> {
                let t = woken(old(self).task(id.0), old(self).min_vruntime);
                &&& final(self).has(id.0)
                &&& final(self).task(id.0) == t
                &&& Runqueue::same_others(old(self), final(self), id.0)
                &&& final(self).dl() == old(self).dl().insert(key_of(t))
                &&& final(self).rt() == (if t.rt_deadline > 0 { old(self).rt().insert((t.rt_deadline, id.0)) } else { old(self).rt() })
                &&& final(self).load == old(self).load + t.weight
                &&& final(self).min_vruntime == old(self).min_vruntime
                &&& final(self).current == old(self).current
            },
    {
        if self.find(id.0).is_none() {
            return;
        }
        let ghost s0 = *self;
        match self.take(id.0) {
            Some(t) => {
                let mut t = t;
                proof {
                    let k = choose|k: int| 0 <= k < s0.tasks@.len() && (#[trigger] s0.tasks@[k]).id.0 == id.0;
                    assert(t.id.0 == id.0);
                    s0.lemma_task_at(k);
                    assert forall|i: int| 0 <= i < s0.tasks@.len() implies (#[trigger] s0.tasks@[i]).weight > 0 by {}
                }
                t.state = TaskState::Runnable;
                if t.rt_deadline == 0 && t.vruntime < self.min_vruntime {
                    let lag = self.min_vruntime - t.vruntime;
                    let decayed = if (lag >> 1) < t.slice { lag >> 1 } else { t.slice };
                    assert(lag >> 1u64 <= lag) by (bit_vector);
                    t.vruntime = self.min_vruntime - decayed;
                }
                if t.deadline == 0 || t.vruntime >= t.deadline {
                    t.deadline = t.vruntime + t.slice;
                }
                let ghost s1 = *self;
                self.insert(t);
                proof {
                    lemma_same_others_trans(&s0, &s1, self, id.0);
                }
            },
            None => {},
        }
    }
}

/// Whether task `id` of `rq` is runnable.
pub open spec fn runnable_in(rq: &Runqueue, id: u64) -> bool {
    rq.has(id) && rq.task(id).state == TaskState::Runnable
}

/// A real-time key whose task is runnable.
pub open spec fn rt_ok(rq: &Runqueue, k: (u64, u64)) -> bool {
    rq.rt().contains(k) && runnable_in(rq, k.1)
}

/// A scheduling key whose task is runnable and eligible (not ahead of the
/// queue's minimum virtual runtime).
pub open spec fn dl_ok(rq: &Runqueue, k: (u64, u64, u64)) -> bool {
    rq.dl().contains(k) && runnable_in(rq, k.2) && k.1 <= rq.min_vruntime
}

/// A scheduling key whose task is runnable (with a virtual runtime below
/// the largest value).
pub open spec fn vr_ok(rq: &Runqueue, k: (u64, u64, u64)) -> bool {
    rq.dl().contains(k) && runnable_in(rq, k.2) && k.1 < u64::MAX
}

/// The task that `pick_next` chooses: the runnable task of the earliest
/// real-time key; else (if the tree is not empty) the runnable eligible
/// task of the earliest scheduling key; else the runnable task of least
/// virtual runtime (the earliest key among equals).
pub open spec fn pick_spec(rq: &Runqueue, r: Option<TaskId>) -> bool {
    if exists|k: (u64, u64)| #[trigger] rt_ok(rq, k) {
        exists|k: (u64, u64)| #[trigger] rt_ok(rq, k) && r == Some(TaskId(k.1))
            && forall|k2: (u64, u64)| #[trigger] rt_ok(rq, k2) ==> !lt2(k2, k)
    } else if rq.dl() == Set::<(u64, u64, u64)>::empty() {
        r is None
    } else if exists|k: (u64, u64, u64)| #[trigger] dl_ok(rq, k) {
        exists|k: (u64, u64, u64)| #[trigger] dl_ok(rq, k) && r == Some(TaskId(k.2))
            && forall|k2: (u64, u64, u64)| #[trigger] dl_ok(rq, k2) ==> !lt3(k2, k)
    } else if exists|k: (u64, u64, u64)| #[trigger] vr_ok(rq, k) {
        exists|k: (u64, u64, u64)| #[trigger] vr_ok(rq, k) && r == Some(TaskId(k.2))
            && forall|k2: (u64, u64, u64)| #[trigger] vr_ok(rq, k2) ==> k.1 <= k2.1 && (k2.1 == k.1 ==> !lt3(k2, k))
    } else {
        r is None
    }
}

impl Runqueue {
    /// Whether task `id` is in the queue and runnable.
    fn is_runnable(&self, id: u64) -> (b: bool)
        requires
            self.wf(),
        ensures
            b == runnable_in(self, id),
    {
        match self.find(id) {
            Some(i) => self.tasks[i].state == TaskState::Runnable,
            None => false,
        }
    }

    /// The earliest real-time key whose task is runnable.
    fn best_rt(&self) -> (r: Option<(u64, u64)>)
        requires
            self.wf(),
        ensures
            r is None <==> !exists|k: (u64, u64)| #[trigger] rt_ok(self, k),
            r matches Some(k) ==> rt_ok(self, k) && forall|k2: (u64, u64)| #[trigger] rt_ok(self, k2) ==> !lt2(k2, k),
    {
        let mut best: Option<(u64, u64)> = None;
        let mut i: usize = 0;
        while i < self.rt_tasks.len()
            invariant
                self.wf(),
                i <= self.rt_tasks@.len(),
                best matches Some(b) ==> rt_ok(self, b),
                forall|j: int| 0 <= j < i && #[trigger] rt_ok(self, self.rt_tasks@[j]) ==> (best matches Some(b) && !lt2(self.rt_tasks@[j], b)),
            decreases self.rt_tasks@.len() - i,
        {
            let k = self.rt_tasks[i];
            proof { assert(self.rt_tasks@.contains(k)); assert(self.rt().contains(k)); }
            if self.is_runnable(k.1) {
                let better = match best { None => true, Some(b) => key2_lt(k, b) };
                if better {
                    best = Some(k);
                }
            }
            i = i + 1;
        }
        proof {
            assert forall|k2: (u64, u64)| #[trigger] rt_ok(self, k2) implies (best matches Some(b) && !lt2(k2, b)) by {
                let j = choose|j: int| 0 <= j < self.rt_tasks@.len() && self.rt_tasks@[j] == k2;
                assert(rt_ok(self, self.rt_tasks@[j]));
            }
        }
        best
    }

    /// The earliest scheduling key whose task is runnable and eligible.
    fn best_dl(&self) -> (r: Option<(u64, u64, u64)>)
        requires
            self.wf(),
        ensures
            r is None <==> !exists|k: (u64, u64, u64)| #[trigger] dl_ok(self, k),
            r matches Some(k) ==> dl_ok(self, k) && forall|k2: (u64, u64, u64)| #[trigger] dl_ok(self, k2) ==> !lt3(k2, k),
    {
        let mut best: Option<(u64, u64, u64)> = None;
        let mut i: usize = 0;
        while i < self.by_deadline.len()
            invariant
                self.wf(),
                i <= self.by_deadline@.len(),
                best matches Some(b) ==> dl_ok(self, b),
                forall|j: int| 0 <= j < i && #[trigger] dl_ok(self, self.by_deadline@[j]) ==> (best matches Some(b) && !lt3(self.by_deadline@[j], b)),
            decreases self.by_deadline@.len() - i,
        {
            let k = self.by_deadline[i];
            proof { assert(self.by_deadline@.contains(k)); assert(self.dl().contains(k)); }
            if k.1 <= self.min_vruntime && self.is_runnable(k.2) {
                let better = match best { None => true, Some(b) => key3_lt(k, b) };
                if better {
                    best = Some(k);
                }
            }
            i = i + 1;
        }
        proof {
            assert forall|k2: (u64, u64, u64)| #[trigger] dl_ok(self, k2) implies (best matches Some(b) && !lt3(k2, b)) by {
                let j = choose|j: int| 0 <= j < self.by_deadline@.len() && self.by_deadline@[j] == k2;
                assert(dl_ok(self, self.by_deadline@[j]));
            }
        }
        best
    }

    /// The runnable task of least virtual runtime (earliest key among equals).
    fn best_vr(&self) -> (r: Option<(u64, u64, u64)>)
        requires
            self.wf(),
        ensures
            r is None <==> !exists|k: (u64, u64, u64)| #[trigger] vr_ok(self, k),
            r matches Some(k) ==> vr_ok(self, k) && forall|k2: (u64, u64, u64)| #[trigger] vr_ok(self, k2)
                ==> k.1 <= k2.1 && (k2.1 == k.1 ==> !lt3(k2, k)),
    {
        let mut best: Option<(u64, u64, u64)> = None;
        let mut i: usize = 0;
        while i < self.by_deadline.len()
            invariant
                self.wf(),
                i <= self.by_deadline@.len(),
                best matches Some(b) ==> vr_ok(self, b),
                forall|j: int| 0 <= j < i && #[trigger] vr_ok(self, self.by_deadline@[j]) ==> (best matches Some(b)
                    && b.1 <= self.by_deadline@[j].1 && (self.by_deadline@[j].1 == b.1 ==> !lt3(self.by_deadline@[j], b))),
            decreases self.by_deadline@.len() - i,
        {
            let k = self.by_deadline[i];
            proof { assert(self.by_deadline@.contains(k)); assert(self.dl().contains(k)); }
            if k.1 < u64::MAX && self.is_runnable(k.2) {
                let better = match best { None => true, Some(b) => k.1 < b.1 || (k.1 == b.1 && key3_lt(k, b)) };
                if better {
                    best = Some(k);
                }
            }
            i = i + 1;
        }
        proof {
            assert forall|k2: (u64, u64, u64)| #[trigger] vr_ok(self, k2) implies (best matches Some(b) && b.1 <= k2.1 && (k2.1 == b.1 ==> !lt3(k2, b))) by {
                let j = choose|j: int| 0 <= j < self.by_deadline@.len() && self.by_deadline@[j] == k2;
                assert(vr_ok(self, self.by_deadline@[j]));
            }
        }
        best
    }

    /// The task to run next; see [`pick_spec`]. The queue is left as it is.
    pub fn pick_next(&mut self) -> (r: Option<TaskId>)
        requires
            old(self).wf(),
        ensures
            *final(self) == *old(self),
            pick_spec(old(self), r),
    {
        if let Some(k) = self.best_rt() {
            return Some(TaskId(k.1));
        }
        if self.by_deadline.len() == 0 {
            proof {
                assert(self.by_deadline@ =~= Seq::<(u64, u64, u64)>::empty());
                assert(self.dl() =~= Set::<(u64, u64, u64)>::empty());
            }
            return None;
        }
        proof {
            assert(self.by_deadline@.contains(self.by_deadline@[0]));
            assert(self.dl().contains(self.by_deadline@[0]));
            assert(self.dl() != Set::<(u64, u64, u64)>::empty());
        }
        if let Some(k) = self.best_dl() {
            return Some(TaskId(k.2));
        }
        match self.best_vr() {
            Some(k) => Some(TaskId(k.2)),
            None => None,
        }
    }

    /// The smallest virtual runtime among the scheduling keys, if any.
    pub fn min_key_vruntime(&self) -> (r: Option<u64>)
        ensures
            r is None <==> self.by_deadline@.len() == 0,
            r matches Some(m) ==> (exists|k: (u64, u64, u64)| #[trigger] self.dl().contains(k) && k.1 == m)
                && forall|k: (u64, u64, u64)| #[trigger] self.dl().contains(k) ==> m <= k.1,
    {
        if self.by_deadline.len() == 0 {
            proof {
                assert(self.by_deadline@ =~= Seq::<(u64, u64, u64)>::empty());
                assert(self.dl() =~= Set::<(u64, u64, u64)>::empty());
            }
            return None;
        }
        let mut m = self.by_deadline[0].1;
        let mut i: usize = 1;
        proof {
            assert(self.dl().contains(self.by_deadline@[0]));
        }
        while i < self.by_deadline.len()
            invariant
                1 <= i <= self.by_deadline@.len(),
                exists|j: int| 0 <= j < i && self.by_deadline@[j].1 == m,
                forall|j: int| 0 <= j < i ==> m <= #[trigger] self.by_deadline@[j].1,
            decreases self.by_deadline@.len() - i,
        {
            if self.by_deadline[i].1 < m {
                m = self.by_deadline[i].1;
            }
            i = i + 1;
        }
        proof {
            let j = choose|j: int| 0 <= j < i && self.by_deadline@[j].1 == m;
            assert(self.dl().contains(self.by_deadline@[j]));
            assert forall|k: (u64, u64, u64)| #[trigger] self.dl().contains(k) implies m <= k.1 by {
                let j2 = choose|j2: int| 0 <= j2 < self.by_deadline@.len() && self.by_deadline@[j2] == k;
                assert(m <= self.by_deadline@[j2].1);
            }
        }
        Some(m)
    }

    /// Raises the minimum virtual runtime to the least virtual runtime of
    /// the scheduling keys, if that is larger.
    fn advance_min_vruntime(&mut self)
        ensures
            *final(self) == (Runqueue { min_vruntime: final(self).min_vruntime, ..*old(self) }),
            final(self).min_vruntime == advanced_min(old(self).dl(), old(self).min_vruntime),
    {
        match self.min_key_vruntime() {
            Some(m) => {
                proof { lemma_min_vr_of(self.dl(), m); }
                if m > self.min_vruntime {
                    self.min_vruntime = m;
                }
            },
            None => {
                proof {
                    assert(self.by_deadline@ =~= Seq::<(u64, u64, u64)>::empty());
                    assert(self.dl() =~= Set::<(u64, u64, u64)>::empty());
                    assert forall|m: u64| !#[trigger] is_min_vr(self.dl(), m) by {}
                }
            },
        }
    }
}

/// Whether `m` is the least virtual runtime among the keys of `s`.
pub open spec fn is_min_vr(s: Set<(u64, u64, u64)>, m: u64) -> bool {
    &&& exists|k: (u64, u64, u64)| #[trigger] s.contains(k) && k.1 == m
    &&& forall|k: (u64, u64, u64)| #[trigger] s.contains(k) ==> m <= k.1
}

/// The least virtual runtime among the keys of `s`, if there is a key.
pub open spec fn min_vr_of(s: Set<(u64, u64, u64)>) -> Option<u64> {
    if exists|m: u64| #[trigger] is_min_vr(s, m) {
        Some(choose|m: u64| #[trigger] is_min_vr(s, m))
    } else {
        None
    }
}

/// The least virtual runtime is determined by the keys.
pub proof fn lemma_min_vr_of(s: Set<(u64, u64, u64)>, m: u64)
    requires
        is_min_vr(s, m),
    ensures
        min_vr_of(s) == Some(m),
{
    let m2 = choose|m: u64| #[trigger] is_min_vr(s, m);
    assert(is_min_vr(s, m2));
    let k0 = choose|k: (u64, u64, u64)| #[trigger] s.contains(k) && k.1 == m;
    let k2 = choose|k: (u64, u64, u64)| #[trigger] s.contains(k) && k.1 == m2;
    assert(m <= k2.1);
    assert(m2 <= k0.1);
}

/// The minimum virtual runtime `mv` raised to the least virtual runtime of
/// the keys `s`, if that is larger.
pub open spec fn advanced_min(s: Set<(u64, u64, u64)>, mv: u64) -> u64 {
    match min_vr_of(s) {
        Some(m) => if m > mv { m } else { mv },
        None => mv,
    }
}

/// Whether the current task of `rq` is in the trees (not sleeping, not a zombie).
pub open spec fn current_in_trees(rq: &Runqueue) -> bool {
    &&& rq.current is Some
    &&& rq.has(rq.current->Some_0.0)
    &&& rq.task(rq.current->Some_0.0).state != TaskState::Sleeping
    &&& rq.task(rq.current->Some_0.0).state != TaskState::Zombie
}

/// Whether charging `delta` to `t` stays within `u64`.
pub open spec fn charge_fits(t: Task, delta: u64) -> bool {
    t.rt_deadline == 0 ==> {
        let vr = t.vruntime + vr_delta(delta, t.weight);
        &&& vr <= u64::MAX
        &&& vr >= t.deadline ==> vr + t.slice <= u64::MAX
    }
}

/// What charging `delta_ms` to the current task of `old` and raising the
/// minimum virtual runtime leaves: `new`.
pub open spec fn vruntime_updated(old: &Runqueue, new: &Runqueue, delta_ms: u64) -> bool {
    &&& new.wf()
    &&& new.current == old.current
    &&& current_in_trees(old) ==> {
        let c = old.current->Some_0.0;
        let t = old.task(c);
        let t2 = charged(t, delta_ms);
        &&& new.has(c)
        &&& new.task(c) == t2
        &&& Runqueue::same_others(old, new, c)
        &&& new.dl() == old.dl().remove(key_of(t)).insert(key_of(t2))
        &&& new.rt() == (if t.rt_deadline > 0 { old.rt().remove((t.rt_deadline, c)).insert((t.rt_deadline, c)) } else { old.rt() })
        &&& new.load == (if old.load > t.weight { (old.load - t.weight) as u64 } else { 0 }) + t.weight
        &&& new.min_vruntime == advanced_min(new.dl(), old.min_vruntime)
    }
    &&& !current_in_trees(old) ==> *new == (Runqueue { min_vruntime: advanced_min(old.dl(), old.min_vruntime), ..*old })
}

impl Runqueue {
    /// Charges `delta_ms` of running to the current task (when it is in the
    /// trees; see [`charged`]) and then raises the minimum virtual runtime.
    pub fn update_vruntime(&mut self, delta_ms: u64)
        requires
            old(self).wf(),
            current_in_trees(old(self)) ==> charge_fits(old(self).task(old(self).current->Some_0.0), delta_ms),
        ensures
            vruntime_updated(old(self), final(self), delta_ms),
    {
        if let Some(cid) = self.current {
            let in_trees = match self.find(cid.0) {
                Some(i) => self.tasks[i].state != TaskState::Sleeping && self.tasks[i].state != TaskState::Zombie,
                None => false,
            };
            if in_trees {
                let ghost s0 = *self;
                if let Some(t) = self.remove(cid) {
                    let mut t = t;
                    proof {
                        let k = choose|k: int| 0 <= k < s0.tasks@.len() && (#[trigger] s0.tasks@[k]).id.0 == cid.0;
                        s0.lemma_task_at(k);
                        assert forall|i: int| 0 <= i < s0.tasks@.len() implies (#[trigger] s0.tasks@[i]).weight > 0 by {}
                    }
                    if t.rt_deadline == 0 {
                        let dv: u64 = ((delta_ms as u128 * 1024u128) / (t.weight as u128)) as u64;
                        proof {
                            assert(dv == vr_delta(delta_ms, t.weight));
                        }
                        t.vruntime = t.vruntime + dv;
                        if t.vruntime >= t.deadline {
                            t.deadline = t.vruntime + t.slice;
                        }
                    }
                    let ghost s1 = *self;
                    self.insert(t);
                    proof {
                        lemma_same_others_trans(&s0, &s1, self, cid.0);
                    }
                }
            }
        }
        let ghost s3 = *self;
        self.advance_min_vruntime();
        proof {
            lemma_same_tasks(&s3, self);
            if current_in_trees(old(self)) {
                let c = old(self).current->Some_0.0;
                assert(Runqueue::same_others(&s3, self, c));
                lemma_same_others_trans(old(self), &s3, self, c);
            }
        }
    }

    /// Sets the real-time deadline of task `id` (0: none), moving its
    /// real-time key.
    pub fn set_rt_deadline(&mut self, id: TaskId, new_deadline: u64)
        requires
            old(self).wf(),
        ensures
            final(self).wf(),
            !old(self).has(id.0) ==> *final(self) == *old(self),
            old(self).has(id.0) ==> {
                let t = old(self).task(id.0);
                let r1 = if t.rt_deadline > 0 { old(self).rt().remove((t.rt_deadline, id.0)) } else { old(self).rt() };
                &&& final(self).has(id.0)
                &&& final(self).task(id.0) == Task { rt_deadline: new_deadline, ..t }
                &&& Runqueue::same_others(old(self), final(self), id.0)
                &&& final(self).rt() == (if new_deadline > 0 { r1.insert((new_deadline, id.0)) } else { r1 })
                &&& final(self).dl() == old(self).dl()
                &&& final(self).load == old(self).load
                &&& final(self).min_vruntime == old(self).min_vruntime
                &&& final(self).current == old(self).current
            },
    {
        if self.find(id.0).is_none() {
            return;
        }
        let ghost s0 = *self;
        match self.take(id.0) {
            Some(t) => {
                let mut t = t;
                proof {
                    let k = choose|k: int| 0 <= k < s0.tasks@.len() && (#[trigger] s0.tasks@[k]).id.0 == id.0;
                    s0.lemma_task_at(k);
                    assert forall|i: int| 0 <= i < s0.tasks@.len() implies (#[trigger] s0.tasks@[i]).weight > 0 by {}
                }
                let ghost sa = *self;
                let old_deadline = t.rt_deadline;
                if old_deadline > 0 {
                    set2_remove(&mut self.rt_tasks, (old_deadline, id.0));
                }
                t.rt_deadline = new_deadline;
                if new_deadline > 0 {
                    set2_insert(&mut self.rt_tasks, (new_deadline, id.0));
                }
                let ghost s1 = *self;
                self.put(t);
                proof {
                    lemma_same_tasks(&sa, &s1);
                    lemma_same_others_trans(&s0, &sa, &s1, id.0);
                    lemma_same_others_trans(&s0, &s1, self, id.0);
                }
            },
            None => {},
        }
    }

    /// The task on the CPU, if it is in the queue.
    pub fn current_task(&self) -> (r: Option<&Task>)
        requires
            self.wf(),
        ensures
            r is Some <==> self.current is Some && self.has(self.current->Some_0.0),
            r matches Some(t) ==> *t == self.task(self.current->Some_0.0),
    {
        match self.current {
            Some(id) => match self.find(id.0) {
                Some(i) => Some(&self.tasks[i]),
                None => None,
            },
            None => None,
        }
    }
}

} // verus!
