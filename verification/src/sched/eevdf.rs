//! A plain EEVDF run queue: tasks ordered by virtual deadline, the
//! earliest eligible one picked.

use vstd::prelude::*;
use crate::sched::keys::{key3_lt, lt3, set3_insert, set3_remove};
use crate::sched::rq::{self, advanced_min, is_min_vr, key_of, lemma_same_others_trans, lemma_same_tasks, min_vr_of, vr_delta};
use crate::sched::task::{Task, TaskId};

verus! {

/// A run queue.
pub struct Runqueue {
    /// The tasks and their keys (`by_deadline`); real-time keys and the
    /// load are not used.
    pub inner: rq::Runqueue,
}

/// A key of `q` whose virtual runtime is not ahead of the minimum.
pub open spec fn eligible(q: &Runqueue, k: (u64, u64, u64)) -> bool {
    q.inner.dl().contains(k) && k.1 <= q.inner.min_vruntime
}

/// The key that `pick_next_task` settles on: the earliest eligible key,
/// else the key of least virtual runtime (the earliest among equals).
pub open spec fn chosen_key(q: &Runqueue, k: (u64, u64, u64)) -> bool {
    if exists|k2: (u64, u64, u64)| #[trigger] eligible(q, k2) {
        eligible(q, k) && forall|k2: (u64, u64, u64)| #[trigger] eligible(q, k2) ==> !lt3(k2, k)
    } else {
        q.inner.dl().contains(k) && forall|k2: (u64, u64, u64)| #[trigger] q.inner.dl().contains(k2)
            ==> k.1 <= k2.1 && (k2.1 == k.1 ==> !lt3(k2, k))
    }
}

impl Runqueue {
    /// The queue's invariant.
    pub open spec fn wf(&self) -> bool {
        self.inner.wf()
    }

    /// An empty queue.
    pub fn new() -> (q: Runqueue)
        ensures
            q.wf(),
            q.inner.tasks@.len() == 0,
            q.inner.dl() == Set::<(u64, u64, u64)>::empty(),
            q.inner.min_vruntime == 0,
            q.inner.current is None,
    {
        Runqueue { inner: rq::Runqueue::new() }
    }

    /// Queues `task`, its virtual runtime raised to the queue's minimum.
    pub fn insert_task(&mut self, task: Task)
        requires
            old(self).wf(),
            task.weight > 0,
        ensures
            final(self).wf(),
            final(self).inner.has(task.id.0),
            final(self).inner.task(task.id.0) == (Task {
                vruntime: if task.vruntime < old(self).inner.min_vruntime { old(self).inner.min_vruntime } else { task.vruntime },
                ..task }),
            rq::Runqueue::same_others(&old(self).inner, &final(self).inner, task.id.0),
            final(self).inner.dl() == old(self).inner.dl().insert(key_of(final(self).inner.task(task.id.0))),
            final(self).inner.min_vruntime == old(self).inner.min_vruntime,
            final(self).inner.current == old(self).inner.current,
    {
        let mut task = task;
        if task.vruntime < self.inner.min_vruntime {
            task.vruntime = self.inner.min_vruntime;
        }
        set3_insert(&mut self.inner.by_deadline, (task.deadline, task.vruntime, task.id.0));
        let ghost sa = self.inner;
        self.inner.put(task);
        proof {
            lemma_same_tasks(&old(self).inner, &sa);
            lemma_same_others_trans(&old(self).inner, &sa, &self.inner, task.id.0);
        }
    }

    /// Takes task `id` and its key out of the queue.
    pub fn remove_task(&mut self, id: TaskId) -> (r: Option<Task>)
        requires
            old(self).wf(),
        ensures
            final(self).wf(),
            r is Some <==> old(self).inner.has(id.0),
            r is None ==> *final(self) == *old(self),
            r matches Some(t) ==> t == old(self).inner.task(id.0)
                && !final(self).inner.has(id.0)
                && rq::Runqueue::same_others(&old(self).inner, &final(self).inner, id.0)
                && final(self).inner.dl() == old(self).inner.dl().remove(key_of(t))
                && final(self).inner.min_vruntime == old(self).inner.min_vruntime
                && final(self).inner.current == old(self).inner.current,
    {
        if self.inner.find(id.0).is_none() {
            return None;
        }
        match self.inner.take(id.0) {
            Some(t) => {
                let ghost sa = self.inner;
                set3_remove(&mut self.inner.by_deadline, (t.deadline, t.vruntime, t.id.0));
                proof {
                    lemma_same_tasks(&sa, &self.inner);
                    lemma_same_others_trans(&old(self).inner, &sa, &self.inner, id.0);
                }
                Some(t)
            },
            None => None,
        }
    }

    /// The task on the CPU.
    pub fn current_task_id(&self) -> (r: Option<TaskId>)
        ensures
            r == self.inner.current,
    {
        self.inner.current
    }

    /// Makes `task` the task on the CPU (by its id).
    pub fn set_current_task(&mut self, task: Task)
        ensures
            final(self).inner == (rq::Runqueue { current: Some(task.id), ..old(self).inner }),
    {
        self.inner.current = Some(task.id);
    }

    /// Charges `delta` of running to the current task (virtual runtime by
    /// its weight; the key moves) and raises the minimum virtual runtime.
    pub fn update_vruntime(&mut self, delta: u64)
        requires
            old(self).wf(),
            old(self).inner.current is Some && old(self).inner.has(old(self).inner.current->Some_0.0) ==> {
                let c = old(self).inner.current->Some_0;
                let t = old(self).inner.task(c.0);
                &&& delta * 1024 <= u64::MAX
                &&& t.vruntime + vr_delta(delta, t.weight) <= u64::MAX
            },
        ensures
            final(self).wf(),
            final(self).inner.current == old(self).inner.current,
            old(self).inner.current is Some && old(self).inner.has(old(self).inner.current->Some_0.0) ==> {
                let c = old(self).inner.current->Some_0;
                let t = old(self).inner.task(c.0);
                let v = (t.vruntime + vr_delta(delta, t.weight)) as u64;
                let t2 = Task { vruntime: if v < old(self).inner.min_vruntime { old(self).inner.min_vruntime } else { v }, ..t };
                &&& final(self).inner.has(c.0)
                &&& final(self).inner.task(c.0) == t2
                &&& final(self).inner.dl() == old(self).inner.dl().remove(key_of(t)).insert(key_of(t2))
                &&& final(self).inner.min_vruntime == advanced_min(final(self).inner.dl(), old(self).inner.min_vruntime)
            },
            old(self).inner.current matches Some(c) ==> rq::Runqueue::same_others(&old(self).inner, &final(self).inner, c.0),
            old(self).inner.current is None ==> final(self).inner.tasks@ == old(self).inner.tasks@,
    {
        let ghost s00 = self.inner;
        if let Some(cid) = self.inner.current {
            let ghost s0 = *self;
            if let Some(t) = self.remove_task(cid) {
                let ghost s1 = self.inner;
                let mut t = t;
                proof {
                    let k = choose|k: int| 0 <= k < s0.inner.tasks@.len() && (#[trigger] s0.inner.tasks@[k]).id.0 == cid.0;
                    s0.inner.lemma_task_at(k);
                    assert forall|i: int| 0 <= i < s0.inner.tasks@.len() implies (#[trigger] s0.inner.tasks@[i]).weight > 0 by {}
                }
                let dv = (delta * 1024) / t.weight;
                t.vruntime = t.vruntime + dv;
                self.insert_task(t);
                proof {
                    rq::lemma_same_others_trans(&s00, &s1, &self.inner, cid.0);
                }
            }
        }
        let ghost s3 = self.inner;
        self.advance_min_vruntime();
        proof {
            lemma_same_tasks(&s3, &self.inner);
            if let Some(c) = s00.current {
                if s3 == s00 {
                    assert(rq::Runqueue::same_others(&s00, &s3, c.0));
                }
                assert(rq::Runqueue::same_others(&s3, &self.inner, c.0));
                rq::lemma_same_others_trans(&s00, &s3, &self.inner, c.0);
            }
        }
    }

    /// Raises the minimum virtual runtime to the least one of the keys.
    fn advance_min_vruntime(&mut self)
        ensures
            final(self).inner == (rq::Runqueue { min_vruntime: final(self).inner.min_vruntime, ..old(self).inner }),
            final(self).inner.min_vruntime == advanced_min(old(self).inner.dl(), old(self).inner.min_vruntime),
    {
        match self.inner.min_key_vruntime() {
            Some(m) => {
                proof { rq::lemma_min_vr_of(self.inner.dl(), m); }
                if m > self.inner.min_vruntime {
                    self.inner.min_vruntime = m;
                }
            },
            None => {
                proof {
                    assert(self.inner.by_deadline@ =~= Seq::<(u64, u64, u64)>::empty());
                    assert(self.inner.dl() =~= Set::<(u64, u64, u64)>::empty());
                    assert forall|m: u64| !#[trigger] is_min_vr(self.inner.dl(), m) by {}
                }
            },
        }
    }

    /// The task to run next: the one of the earliest eligible key, else the
    /// one of least virtual runtime (see [`chosen_key`]); none when the
    /// queue has no key or the chosen key's task is gone.
    pub fn pick_next_task(&mut self) -> (r: Option<TaskId>)
        requires
            old(self).wf(),
        ensures
            *final(self) == *old(self),
            old(self).inner.dl() == Set::<(u64, u64, u64)>::empty() ==> r is None,
            old(self).inner.dl() != Set::<(u64, u64, u64)>::empty() ==> exists|k: (u64, u64, u64)|
                #[trigger] chosen_key(old(self), k) && r == (if old(self).inner.has(k.2) { Some(TaskId(k.2)) } else { None }),
    {
        let keys = &self.inner.by_deadline;
        if keys.len() == 0 {
            proof {
                assert(keys@ =~= Seq::<(u64, u64, u64)>::empty());
                assert(self.inner.dl() =~= Set::<(u64, u64, u64)>::empty());
            }
            return None;
        }
        let mut best: Option<(u64, u64, u64)> = None;
        let mut i: usize = 0;
        while i < keys.len()
            invariant
                keys == &self.inner.by_deadline,
                i <= keys@.len(),
                best matches Some(b) ==> eligible(self, b),
                forall|j: int| 0 <= j < i && #[trigger] eligible(self, keys@[j]) ==> (best matches Some(b) && !lt3(keys@[j], b)),
            decreases keys@.len() - i,
        {
            let k = keys[i];
            proof { assert(keys@.contains(k)); assert(self.inner.dl().contains(k)); }
            if k.1 <= self.inner.min_vruntime {
                let better = match best { None => true, Some(b) => key3_lt(k, b) };
                if better {
                    best = Some(k);
                }
            }
            i = i + 1;
        }
        proof {
            assert forall|k2: (u64, u64, u64)| #[trigger] eligible(self, k2) implies (best matches Some(b) && !lt3(k2, b)) by {
                let j = choose|j: int| 0 <= j < keys@.len() && keys@[j] == k2;
                assert(eligible(self, keys@[j]));
            }
        }
        let pick = match best {
            Some(b) => b,
            None => {
                let mut m = keys[0];
                let mut j: usize = 1;
                proof { assert(keys@.contains(keys@[0])); }
                while j < keys.len()
                    invariant
                        keys == &self.inner.by_deadline,
                        1 <= j <= keys@.len(),
                        self.inner.dl().contains(m),
                        forall|x: int| 0 <= x < j ==> m.1 <= (#[trigger] keys@[x]).1 && (keys@[x].1 == m.1 ==> !lt3(keys@[x], m)),
                    decreases keys@.len() - j,
                {
                    let k = keys[j];
                    proof { assert(keys@.contains(k)); }
                    if k.1 < m.1 || (k.1 == m.1 && key3_lt(k, m)) {
                        m = k;
                    }
                    j = j + 1;
                }
                proof {
                    assert forall|k2: (u64, u64, u64)| #[trigger] self.inner.dl().contains(k2)
                        implies m.1 <= k2.1 && (k2.1 == m.1 ==> !lt3(k2, m)) by {
                        let x = choose|x: int| 0 <= x < keys@.len() && keys@[x] == k2;
                        assert(m.1 <= keys@[x].1);
                    }
                }
                m
            },
        };
        proof {
            assert(chosen_key(self, pick));
            assert(self.inner.dl() != Set::<(u64, u64, u64)>::empty()) by {
                assert(self.inner.dl().contains(pick));
            }
        }
        match self.inner.find(pick.2) {
            Some(_) => Some(TaskId(pick.2)),
            None => None,
        }
    }
}

} // verus!
