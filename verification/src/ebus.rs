//! The event bus: events go to a global bounded queue, or to the queue of
//! one CPU; a worker takes them out in order and runs every callback
//! subscribed to the event's id, each in a task of its own. Callbacks are
//! named here by their addresses; running them, the tasks, the wait queues
//! the workers sleep on and the clock are the caller's.

use vstd::prelude::*;
use std::collections::VecDeque;
use crate::arch::MAX_CPUS;

verus! {

/// Most events one queue holds.
pub const QUEUE_CAPACITY: usize = 65536;
/// Time a worker dispatches before it yields, in milliseconds.
pub const MAX_WORKER_TIME_MS: u64 = 10;
/// A callback that runs longer than this (in milliseconds) is reported.
pub const SLOW_CALLBACK_WARN_MS: u64 = 5;

/// An event: its id and a word of data.
#[derive(Clone, Copy, Debug, PartialEq, Eq, Structural)]
pub struct Event {
    /// Which event.
    pub id: u64,
    /// Its data.
    pub data: usize,
}

/// A first-in first-out queue of at most [`QUEUE_CAPACITY`] events.
pub struct BoundedQueue {
    /// The events, oldest first.
    pub inner: VecDeque<Event>,
}

impl BoundedQueue {
    /// An empty queue.
    pub fn new() -> (q: BoundedQueue)
        ensures
            q.inner@ == Seq::<Event>::empty(),
    {
        BoundedQueue { inner: VecDeque::new() }
    }

    /// Adds `event` at the back; a full queue drops it and fails.
    pub fn enqueue(&mut self, event: Event) -> (r: Result<(), ()>)
        ensures
            old(self).inner@.len() >= QUEUE_CAPACITY ==> r is Err && final(self).inner@ == old(self).inner@,
            old(self).inner@.len() < QUEUE_CAPACITY ==> r is Ok && final(self).inner@ == old(self).inner@.push(event),
    {
        if self.inner.len() >= QUEUE_CAPACITY {
            return Err(());
        }
        self.inner.push_back(event);
        Ok(())
    }

    /// Takes out the oldest event, if any.
    pub fn dequeue(&mut self) -> (r: Option<Event>)
        ensures
            old(self).inner@.len() == 0 ==> r is None && final(self).inner@ == old(self).inner@,
            old(self).inner@.len() > 0 ==> r == Some(old(self).inner@[0]) && final(self).inner@ == old(self).inner@.drop_first(),
    {
        let r = self.inner.pop_front();
        proof {
            if old(self).inner@.len() > 0 {
                assert(self.inner@ =~= old(self).inner@.drop_first());
            }
        }
        r
    }
}

/// The callbacks subscribed to `id`, in the order they subscribed.
pub open spec fn callbacks_of(subs: Seq<(u64, u64)>, id: u64) -> Seq<u64>
    decreases subs.len(),
{
    if subs.len() == 0 {
        Seq::empty()
    } else {
        let rest = callbacks_of(subs.drop_last(), id);
        if subs.last().0 == id { rest.push(subs.last().1) } else { rest }
    }
}

/// The subscriptions without those of `callback` to `id`.
pub open spec fn without(subs: Seq<(u64, u64)>, id: u64, callback: u64) -> Seq<(u64, u64)>
    decreases subs.len(),
{
    if subs.len() == 0 {
        Seq::empty()
    } else {
        let rest = without(subs.drop_last(), id, callback);
        if subs.last() == (id, callback) { rest } else { rest.push(subs.last()) }
    }
}

/// Whether some callback is subscribed to `id`.
pub open spec fn has_id(subs: Seq<(u64, u64)>, id: u64) -> bool {
    exists|i: int| 0 <= i < subs.len() && #[trigger] subs[i].0 == id
}

/// After `callback` unsubscribes from `id` it is no longer among the
/// callbacks of `id`, and the callbacks of every other id are unchanged.
pub proof fn lemma_unsubscribed(subs: Seq<(u64, u64)>, id: u64, callback: u64, other: u64)
    ensures
        !callbacks_of(without(subs, id, callback), id).contains(callback),
        other != id ==> callbacks_of(without(subs, id, callback), other) == callbacks_of(subs, other),
    decreases subs.len(),
{
    if subs.len() > 0 {
        lemma_unsubscribed(subs.drop_last(), id, callback, other);
        let rest = without(subs.drop_last(), id, callback);
        if subs.last() != (id, callback) {
            assert(without(subs, id, callback).drop_last() =~= rest);
            assert(!callbacks_of(rest, id).push(subs.last().1).contains(callback) || subs.last().0 != id) by {
                if subs.last().0 == id && callbacks_of(rest, id).push(subs.last().1).contains(callback) {
                    let k = choose|k: int| 0 <= k < callbacks_of(rest, id).push(subs.last().1).len()
                        && callbacks_of(rest, id).push(subs.last().1)[k] == callback;
                    if k < callbacks_of(rest, id).len() {
                        assert(callbacks_of(rest, id).contains(callback));
                    }
                }
            }
        }
    }
}

/// A new subscription comes last among the callbacks of its id.
pub proof fn lemma_subscribed(subs: Seq<(u64, u64)>, id: u64, callback: u64, other: u64)
    ensures
        callbacks_of(subs.push((id, callback)), id) == callbacks_of(subs, id).push(callback),
        other != id ==> callbacks_of(subs.push((id, callback)), other) == callbacks_of(subs, other),
{
    assert(subs.push((id, callback)).drop_last() =~= subs);
}

/// The bus: the subscriptions, the global queue and one queue for each
/// CPU that was brought up.
pub struct Ebus {
    /// Each subscription: an event id and a callback, oldest first.
    pub subscribers: Vec<(u64, u64)>,
    /// Events for any CPU.
    pub global: BoundedQueue,
    /// Events for one CPU each: CPU `c` has the queue at index `c`, and
    /// there are as many queues as CPUs were brought up.
    pub cpus: Vec<BoundedQueue>,
}

impl Ebus {
    /// No more queues than possible CPUs.
    pub open spec fn wf(&self) -> bool {
        self.cpus@.len() <= MAX_CPUS
    }

    /// A bus for `num_cpus` CPUs, with no subscription and empty queues.
    pub fn new(num_cpus: usize) -> (b: Ebus)
        requires
            num_cpus <= MAX_CPUS,
        ensures
            b.wf(),
            b.cpus@.len() == num_cpus,
            b.subscribers@ == Seq::<(u64, u64)>::empty(),
            b.global.inner@ == Seq::<Event>::empty(),
            forall|c: int| 0 <= c < num_cpus ==> (#[trigger] b.cpus@[c]).inner@ == Seq::<Event>::empty(),
    {
        let mut cpus: Vec<BoundedQueue> = Vec::new();
        let mut c: usize = 0;
        while c < num_cpus
            invariant
                c <= num_cpus,
                cpus@.len() == c,
                forall|k: int| 0 <= k < c ==> (#[trigger] cpus@[k]).inner@ == Seq::<Event>::empty(),
            decreases num_cpus - c,
        {
            cpus.push(BoundedQueue::new());
            c = c + 1;
        }
        Ebus { subscribers: Vec::new(), global: BoundedQueue::new(), cpus }
    }

    /// Subscribes `callback` to the events `event_id`; always succeeds.
    pub fn subscribe(&mut self, event_id: u64, callback: u64) -> (r: Result<(), ()>)
        ensures
            r is Ok,
            final(self).subscribers@ == old(self).subscribers@.push((event_id, callback)),
            final(self).global == old(self).global,
            final(self).cpus == old(self).cpus,
    {
        self.subscribers.push((event_id, callback));
        Ok(())
    }

    /// Takes every subscription of `callback` to `event_id` away; fails
    /// when nothing is subscribed to `event_id`.
    pub fn unsubscribe(&mut self, event_id: u64, callback: u64) -> (r: Result<(), ()>)
        ensures
            r is Err <==> !has_id(old(self).subscribers@, event_id),
            r is Err ==> final(self).subscribers@ == old(self).subscribers@,
            r is Ok ==> final(self).subscribers@ == without(old(self).subscribers@, event_id, callback),
            final(self).global == old(self).global,
            final(self).cpus == old(self).cpus,
    {
        let mut found = false;
        let mut kept: Vec<(u64, u64)> = Vec::new();
        let mut i: usize = 0;
        let ghost s = self.subscribers@;
        while i < self.subscribers.len()
            invariant
                s == self.subscribers@,
                i <= s.len(),
                kept@ == without(s.take(i as int), event_id, callback),
                found <==> exists|k: int| 0 <= k < i && #[trigger] s[k].0 == event_id,
            decreases s.len() - i,
        {
            let p = self.subscribers[i];
            proof {
                assert(s.take(i + 1).drop_last() =~= s.take(i as int));
            }
            if p.0 == event_id {
                found = true;
            }
            if p.0 != event_id || p.1 != callback {
                kept.push(p);
            }
            i = i + 1;
        }
        proof {
            assert(s.take(s.len() as int) =~= s);
        }
        if !found {
            return Err(());
        }
        self.subscribers = kept;
        Ok(())
    }

    /// The callbacks subscribed to `event_id`, in the order they subscribed.
    pub fn callbacks(&self, event_id: u64) -> (r: Vec<u64>)
        ensures
            r@ == callbacks_of(self.subscribers@, event_id),
    {
        let mut r: Vec<u64> = Vec::new();
        let mut i: usize = 0;
        let ghost s = self.subscribers@;
        while i < self.subscribers.len()
            invariant
                s == self.subscribers@,
                i <= s.len(),
                r@ == callbacks_of(s.take(i as int), event_id),
            decreases s.len() - i,
        {
            let p = self.subscribers[i];
            proof {
                assert(s.take(i + 1).drop_last() =~= s.take(i as int));
            }
            if p.0 == event_id {
                r.push(p.1);
            }
            i = i + 1;
        }
        proof {
            assert(s.take(s.len() as int) =~= s);
        }
        r
    }

    /// The number of CPUs that have a queue.
    pub fn num_cpus(&self) -> (n: usize)
        ensures
            n == self.cpus@.len(),
    {
        self.cpus.len()
    }

    /// Puts the event `event_id` with `data` on the global queue, or on the
    /// queue of CPU `affinity`; fails, touching no queue, for a CPU that was
    /// not brought up, and when the queue is full. The caller then wakes the
    /// worker of that queue.
    pub fn publish(&mut self, event_id: u64, data: usize, affinity: Option<usize>) -> (r: Result<(), ()>)
        requires
            old(self).wf(),
        ensures
            final(self).wf(),
            final(self).subscribers == old(self).subscribers,
            ({
                let ev = Event { id: event_id, data };
                match affinity {
                    None => {
                        &&& final(self).cpus == old(self).cpus
                        &&& old(self).global.inner@.len() >= QUEUE_CAPACITY ==> r is Err
                            && final(self).global.inner@ == old(self).global.inner@
                        &&& old(self).global.inner@.len() < QUEUE_CAPACITY ==> r is Ok
                            && final(self).global.inner@ == old(self).global.inner@.push(ev)
                    },
                    Some(c) => {
                        &&& final(self).global == old(self).global
                        &&& final(self).cpus@.len() == old(self).cpus@.len()
                        &&& c >= old(self).cpus@.len() ==> r is Err && final(self).cpus == old(self).cpus
                        &&& c < old(self).cpus@.len() ==> {
                            &&& forall|k: int| 0 <= k < old(self).cpus@.len() && k != c ==> #[trigger] final(self).cpus@[k] == old(self).cpus@[k]
                            &&& old(self).cpus@[c as int].inner@.len() >= QUEUE_CAPACITY ==> r is Err
                                && final(self).cpus@[c as int].inner@ == old(self).cpus@[c as int].inner@
                            &&& old(self).cpus@[c as int].inner@.len() < QUEUE_CAPACITY ==> r is Ok
                                && final(self).cpus@[c as int].inner@ == old(self).cpus@[c as int].inner@.push(ev)
                        }
                    },
                }
            }),
    {
        let event = Event { id: event_id, data };
        match affinity {
            None => self.global.enqueue(event),
            Some(cpu) => {
                if cpu >= self.cpus.len() {
                    return Err(());
                }
                self.cpus[cpu].enqueue(event)
            },
        }
    }

    /// The next event for the worker of CPU `cpu` (the global worker for
    /// `None`), taken out of its queue.
    pub fn next_event(&mut self, cpu: Option<usize>) -> (r: Option<Event>)
        requires
            old(self).wf(),
            cpu matches Some(c) ==> c < old(self).cpus@.len(),
        ensures
            final(self).wf(),
            final(self).subscribers == old(self).subscribers,
            match cpu {
                None => {
                    &&& final(self).cpus == old(self).cpus
                    &&& old(self).global.inner@.len() == 0 ==> r is None && final(self).global.inner@ == old(self).global.inner@
                    &&& old(self).global.inner@.len() > 0 ==> r == Some(old(self).global.inner@[0])
                        && final(self).global.inner@ == old(self).global.inner@.drop_first()
                },
                Some(c) => {
                    &&& final(self).global == old(self).global
                    &&& final(self).cpus@.len() == old(self).cpus@.len()
                    &&& forall|k: int| 0 <= k < old(self).cpus@.len() && k != c ==> #[trigger] final(self).cpus@[k] == old(self).cpus@[k]
                    &&& old(self).cpus@[c as int].inner@.len() == 0 ==> r is None
                        && final(self).cpus@[c as int].inner@ == old(self).cpus@[c as int].inner@
                    &&& old(self).cpus@[c as int].inner@.len() > 0 ==> r == Some(old(self).cpus@[c as int].inner@[0])
                        && final(self).cpus@[c as int].inner@ == old(self).cpus@[c as int].inner@.drop_first()
                },
            },
    {
        match cpu {
            None => self.global.dequeue(),
            Some(c) => {
                self.cpus[c].dequeue()
            },
        }
    }
}

/// Whether a worker that started dispatching at `start` should yield at
/// `now` (milliseconds since boot).
pub fn worker_should_yield(start: u64, now: u64) -> (b: bool)
    requires
        start <= now,
    ensures
        b == (now - start > MAX_WORKER_TIME_MS),
{
    now - start > MAX_WORKER_TIME_MS
}

/// Whether a callback that started at `start` and ended at `now`
/// (milliseconds since boot) took long enough to be reported.
pub fn callback_was_slow(start: u64, now: u64) -> (b: bool)
    requires
        start <= now,
    ensures
        b == (now - start > SLOW_CALLBACK_WARN_MS),
{
    now - start > SLOW_CALLBACK_WARN_MS
}

} // verus!
