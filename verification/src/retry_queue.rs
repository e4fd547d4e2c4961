//! Bounded in-memory FIFO of events whose processing failed transiently.
//!
//! A full queue sacrifices its oldest entry and an entry that exhausts its
//! retries is discarded; both are handed back to the caller for
//! dead-letter logging.

use std::collections::VecDeque;

use vstd::prelude::*;

use crate::events::LogWithMeta;

verus! {

/// Retries granted to one event before it is dead-lettered.
pub const MAX_RETRIES: u32 = 3;

/// Capacity of the queue; a push beyond it sacrifices the oldest entry.
pub const MAX_QUEUE_SIZE: usize = 1000;

/// One queued event with its retry history.
#[derive(Debug)]
pub struct FailedEvent {
    pub log: LogWithMeta,
    pub retry_count: u32,
    pub last_error: String,
}

/// Bounded FIFO of failed events, drained by the retry worker.
pub struct RetryQueue {
    queue: VecDeque<FailedEvent>,
}

impl RetryQueue {
    /// Queued entries, oldest first.
    pub closed spec fn entries(&self) -> Seq<FailedEvent> {
        self.queue@
    }

    /// The queue never holds more than its capacity, and only entries that
    /// still have retries left.
    pub open spec fn wf(&self) -> bool {
        &&& self.entries().len() <= MAX_QUEUE_SIZE
        &&& forall|i: int|
            0 <= i < self.entries().len() ==> (#[trigger] self.entries()[i]).retry_count
                < MAX_RETRIES
    }

    pub fn new() -> (q: RetryQueue)
        ensures
            q.entries() =~= Seq::<FailedEvent>::empty(),
            q.wf(),
    {
        RetryQueue { queue: VecDeque::new() }
    }

    /// Enqueue a freshly failed event. A full queue first drops its oldest
    /// entry, which is returned so the caller can dead-letter it.
    pub fn push(&mut self, log: LogWithMeta, error: String) -> (dead: Option<FailedEvent>)
        requires
            old(self).wf(),
        ensures
            final(self).wf(),
            if old(self).entries().len() < MAX_QUEUE_SIZE {
                &&& dead is None
                &&& final(self).entries() == old(self).entries().push(
                    (FailedEvent { log, retry_count: 0, last_error: error }),
                )
            } else {
                &&& dead == Some(old(self).entries()[0])
                &&& final(self).entries() == old(self).entries().subrange(
                    1,
                    old(self).entries().len() as int,
                ).push((FailedEvent { log, retry_count: 0, last_error: error }))
            },
    {
        let mut dead: Option<FailedEvent> = None;
        if self.queue.len() >= MAX_QUEUE_SIZE {
            dead = self.queue.pop_front();
        }
        self.queue.push_back(FailedEvent { log, retry_count: 0, last_error: error });
        dead
    }

    /// Re-enqueue an event whose retry failed, recording the new error. An
    /// event that has exhausted its retries is not re-enqueued but returned
    /// so the caller can dead-letter it.
    pub fn push_retry(&mut self, event: FailedEvent, error: String) -> (dead: Option<FailedEvent>)
        requires
            event.retry_count < u32::MAX,
        ensures
            old(self).wf() && old(self).entries().len() < MAX_QUEUE_SIZE ==> final(self).wf(),
            if event.retry_count + 1 >= MAX_RETRIES {
                &&& dead == Some(
                    (FailedEvent {
                        retry_count: (event.retry_count + 1) as u32,
                        last_error: error,
                        ..event
                    }),
                )
                &&& final(self).entries() == old(self).entries()
            } else {
                &&& dead is None
                &&& final(self).entries() == old(self).entries().push(
                    (FailedEvent {
                        retry_count: (event.retry_count + 1) as u32,
                        last_error: error,
                        ..event
                    }),
                )
            },
    {
        let updated = FailedEvent { retry_count: event.retry_count + 1, last_error: error, ..event };
        if updated.retry_count >= MAX_RETRIES {
            return Some(updated);
        }
        self.queue.push_back(updated);
        None
    }

    /// Dequeue the oldest entry.
    pub fn pop(&mut self) -> (r: Option<FailedEvent>)
        ensures
            old(self).wf() ==> final(self).wf(),
            match r {
                Some(e) => {
                    &&& old(self).entries().len() > 0
                    &&& e == old(self).entries()[0]
                    &&& final(self).entries() == old(self).entries().subrange(
                        1,
                        old(self).entries().len() as int,
                    )
                },
                None => {
                    &&& old(self).entries().len() == 0
                    &&& final(self).entries() == old(self).entries()
                },
            },
    {
        self.queue.pop_front()
    }

    /// Number of queued entries.
    pub fn len(&self) -> (r: usize)
        ensures
            r == self.entries().len(),
    {
        self.queue.len()
    }
}

impl Default for RetryQueue {
    fn default() -> (q: RetryQueue)
        ensures
            q.entries() =~= Seq::<FailedEvent>::empty(),
            q.wf(),
    {
        RetryQueue::new()
    }
}

} // verus!
