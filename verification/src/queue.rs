//! The delay queue: a delay-ordered multiset of pending tasks. The queue
//! holds no clock and never waits: it hands out the entry with the least
//! recorded delay, first-inserted among equals, and the delay is carried
//! along as data — the schedule an embedding with a timer would wait out.
//! The worker loop drains entries as they come, so a retry with a positive
//! delay runs immediately, merely later than everything scheduled before
//! it.

use vstd::prelude::*;
use crate::task::ResolveTask;

verus! {

/// One scheduled task together with the delay, in seconds, after which it
/// becomes due. A delay of 0 means due now.
pub struct QueueEntry {
    pub task: ResolveTask,
    pub delay: u64,
}

/// A timer-ordered multiset of [`ResolveTask`] entries. There is no
/// uniqueness constraint: the same task may be scheduled more than once.
pub struct DelayQueue {
    entries: Vec<QueueEntry>,
}

impl View for DelayQueue {
    type V = Seq<QueueEntry>;

    closed spec fn view(&self) -> Seq<QueueEntry> {
        self.entries@
    }
}

/// Whether `k` is the position the queue yields next: the entry at `k` has
/// the least delay, and is the earliest-inserted among entries of that delay.
pub open spec fn is_next_due(s: Seq<QueueEntry>, k: int) -> bool {
    &&& 0 <= k < s.len()
    &&& forall|j: int| 0 <= j < s.len() ==> (#[trigger] s[j].delay) >= s[k].delay
    &&& forall|j: int| 0 <= j < k ==> (#[trigger] s[j].delay) > s[k].delay
}

impl DelayQueue {
    /// An empty queue.
    pub fn new() -> (q: DelayQueue)
        ensures
            q@ =~= Seq::<QueueEntry>::empty(),
    {
        DelayQueue { entries: Vec::new() }
    }

    /// Schedule `task` to become due after `delay` seconds.
    pub fn insert(&mut self, task: ResolveTask, delay: u64)
        ensures
            final(self)@ == old(self)@.push(QueueEntry { task, delay }),
    {
        self.entries.push(QueueEntry { task, delay });
    }

    /// The number of entries, due or not.
    pub fn len(&self) -> (n: usize)
        ensures
            n == self@.len(),
    {
        self.entries.len()
    }

    /// Whether the queue holds no entries.
    pub fn is_empty(&self) -> (r: bool)
        ensures
            r == (self@.len() == 0),
    {
        self.entries.len() == 0
    }

    /// Remove and return the next due entry: the one with the least delay,
    /// first-inserted among equals. Returns `None` only on an empty queue.
    pub fn next(&mut self) -> (r: Option<QueueEntry>)
        ensures
            old(self)@.len() == 0 ==> r is None && *final(self) == *old(self),
            old(self)@.len() > 0 ==> r is Some && exists|k: int|
                is_next_due(old(self)@, k) && r->0 == old(self)@[k] && final(self)@ == old(
                self,
            )@.remove(k),
    {
        if self.entries.len() == 0 {
            return None;
        }
        let mut best: usize = 0;
        let mut i: usize = 1;
        while i < self.entries.len()
            invariant
                0 < self.entries.len(),
                0 <= best < i <= self.entries.len(),
                forall|j: int| 0 <= j < i ==> (#[trigger] self.entries@[j].delay)
                    >= self.entries@[best as int].delay,
                forall|j: int| 0 <= j < best ==> (#[trigger] self.entries@[j].delay)
                    > self.entries@[best as int].delay,
            decreases self.entries.len() - i,
        {
            if self.entries[i].delay < self.entries[best].delay {
                best = i;
            }
            i = i + 1;
        }
        let entry = self.entries.remove(best);
        proof {
            assert(is_next_due(old(self)@, best as int));
        }
        Some(entry)
    }
}

} // verus!
