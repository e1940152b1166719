//! Wait queues: tasks sleeping until an event, woken in the order they
//! went to sleep.

use vstd::prelude::*;
use std::collections::VecDeque;
use crate::sched::task::TaskId;

verus! {

/// A queue of sleeping tasks, first in first out.
pub struct WaitQueue {
    /// The waiting tasks, the first to wake at the front.
    pub waiters: VecDeque<TaskId>,
}

impl WaitQueue {
    /// An empty queue.
    pub fn new() -> (q: WaitQueue)
        ensures
            q.waiters@ == Seq::<TaskId>::empty(),
    {
        WaitQueue { waiters: VecDeque::new() }
    }

    /// Puts `task_id` at the end of the queue.
    pub fn sleep(&mut self, task_id: TaskId)
        ensures
            final(self).waiters@ == old(self).waiters@.push(task_id),
    {
        self.waiters.push_back(task_id);
    }

    /// Takes the task at the front of the queue, if any.
    pub fn wakeup_one(&mut self) -> (r: Option<TaskId>)
        ensures
            old(self).waiters@.len() == 0 ==> r is None && final(self).waiters@ == old(self).waiters@,
            old(self).waiters@.len() > 0 ==> r == Some(old(self).waiters@[0])
                && final(self).waiters@ == old(self).waiters@.subrange(1, old(self).waiters@.len() as int),
    {
        self.waiters.pop_front()
    }

    /// Takes every task of the queue, front first.
    pub fn wakeup_all(&mut self) -> (v: Vec<TaskId>)
        ensures
            v@ == old(self).waiters@,
            final(self).waiters@ == Seq::<TaskId>::empty(),
    {
        let mut v: Vec<TaskId> = Vec::new();
        while self.waiters.len() > 0
            invariant
                v@ + self.waiters@ == old(self).waiters@,
            decreases self.waiters@.len(),
        {
            let ghost before = self.waiters@;
            match self.waiters.pop_front() {
                Some(t) => {
                    v.push(t);
                    proof {
                        assert(before == seq![t] + self.waiters@);
                        assert(v@ + self.waiters@ =~= old(self).waiters@);
                    }
                },
                None => {},
            }
        }
        proof {
            assert(v@ + self.waiters@ == v@);
        }
        v
    }

    /// Whether no task waits.
    pub fn is_empty(&self) -> (b: bool)
        ensures
            b == (self.waiters@.len() == 0),
    {
        self.waiters.len() == 0
    }
}

} // verus!
