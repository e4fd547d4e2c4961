//! Decision logic of the live subscription worker and of the retry
//! drainer: what one incoming log does to the store, the queue and the
//! checkpoint, what one drainer tick does to every queued entry, which
//! range a reconnect must recover, and how the reconnect backoff grows
//! and resets.
//!
//! The WebSocket transport lives outside the library: it opens the
//! subscription, reads logs and sleeps through backoffs, and hands every
//! decision to this module.

use vstd::prelude::*;

use crate::events::{duplicate_log, log_views_eq, LogWithMeta, VerbethEvent};
use crate::processor::{
    spec_event_present, spec_size_violation, spec_stream_exhausted, spec_tables_after,
    EventProcessor,
};
use crate::retry_queue::{FailedEvent, RetryQueue, MAX_QUEUE_SIZE, MAX_RETRIES};
use crate::store::{checkpoint_monotone, Store};

verus! {

/// Seconds between two wake-ups of the retry drainer.
pub const RETRY_INTERVAL_SECS: u64 = 10;

/// Reconnect backoff after the first failure, in seconds.
pub const INITIAL_RECONNECT_BACKOFF_SECS: u64 = 1;

/// Cap on the reconnect backoff, in seconds.
pub const MAX_RECONNECT_BACKOFF_SECS: u64 = 60;

/// Reconnect backoff before the next attempt: it resets to the initial
/// second after a successful connect, and doubles up to the cap after a
/// failed one.
pub fn next_reconnect_backoff(cur_secs: u64, connect_succeeded: bool) -> (r: u64)
    requires
        1 <= cur_secs <= MAX_RECONNECT_BACKOFF_SECS,
    ensures
        connect_succeeded ==> r == INITIAL_RECONNECT_BACKOFF_SECS,
        !connect_succeeded ==> r == if 2 * cur_secs <= MAX_RECONNECT_BACKOFF_SECS {
            2 * cur_secs
        } else {
            MAX_RECONNECT_BACKOFF_SECS as int
        },
        1 <= r <= MAX_RECONNECT_BACKOFF_SECS,
{
    if connect_succeeded {
        INITIAL_RECONNECT_BACKOFF_SECS
    } else if cur_secs <= MAX_RECONNECT_BACKOFF_SECS / 2 {
        2 * cur_secs
    } else {
        MAX_RECONNECT_BACKOFF_SECS
    }
}

/// The block range a reconnect must recover before re-subscribing: from the
/// block after the checkpoint up to the chain head, or nothing when the
/// checkpoint already covers the head. A missing checkpoint covers no
/// block, and so does a corrupt negative one.
pub fn gap_recovery_range(last_block: Option<i64>, chain_head: u64) -> (r: Option<(u64, u64)>)
    ensures
        ({
            let lb = match last_block {
                None => 0u64,
                Some(b) => if b >= 0 {
                    b as u64
                } else {
                    0u64
                },
            };
            match r {
                Some((from, to)) => chain_head > lb && from == lb + 1 && to == chain_head,
                None => chain_head <= lb,
            }
        }),
{
    let lb: u64 = match last_block {
        None => 0,
        Some(b) => if b >= 0 {
            b as u64
        } else {
            0
        },
    };
    if chain_head > lb {
        Some((lb + 1, chain_head))
    } else {
        None
    }
}

/// What handling one live log did.
#[derive(Debug)]
pub enum LiveOutcome {
    /// A fresh event was stored and the checkpoint advanced to its block.
    Inserted,
    /// The event was already stored; nothing changed.
    Duplicate,
    /// Processing failed; the log was queued for retry. A full queue
    /// sacrificed its oldest entry, handed back for dead-letter logging.
    Queued { dead: Option<FailedEvent> },
}

/// The queue gained exactly one entry at the back, carrying this log and
/// retry count; a full queue dropped its oldest entry first.
pub open spec fn spec_queued_with(
    q0: Seq<FailedEvent>,
    q1: Seq<FailedEvent>,
    log: LogWithMeta,
    count: u32,
) -> bool {
    &&& q1.len() >= 1
    &&& q1.drop_last() == if q0.len() < MAX_QUEUE_SIZE {
        q0
    } else {
        q0.subrange(1, q0.len() as int)
    }
    &&& log_views_eq(q1.last().log, log)
    &&& q1.last().retry_count == count
}

/// Handle one log read from the live subscription: process it, advance the
/// checkpoint on a fresh insert (monotonically, and only then), and queue
/// the log for retry on a failure.
pub fn handle_live_log(
    processor: &EventProcessor,
    store: &mut Store,
    queue: &mut RetryQueue,
    log: LogWithMeta,
) -> (r: LiveOutcome)
    requires
        old(store).inv(),
        old(queue).wf(),
    ensures
        final(store).inv(),
        final(queue).wf(),
        checkpoint_monotone(old(store).last_block(), final(store).last_block()),
        (r is Inserted) <==> (spec_size_violation(log.event) is None && !spec_event_present(
            *old(store),
            log,
        ) && !spec_stream_exhausted(*old(store), log)),
        (r is Duplicate) <==> (spec_size_violation(log.event) is None && spec_event_present(
            *old(store),
            log,
        )),
        (r is Queued) <==> (spec_size_violation(log.event) is Some || (!spec_event_present(
            *old(store),
            log,
        ) && spec_stream_exhausted(*old(store), log))),
        spec_tables_after(*old(store), *final(store), log, r is Inserted),
        r is Inserted ==> final(store).last_block() == match old(store).last_block() {
            None => Some(log.block_number as i64),
            Some(b) => Some(
                if b >= log.block_number as i64 {
                    b
                } else {
                    log.block_number as i64
                },
            ),
        } && final(queue).entries() == old(queue).entries(),
        r is Duplicate ==> final(store).last_block() == old(store).last_block()
            && final(queue).entries() == old(queue).entries(),
        r matches LiveOutcome::Queued { dead } ==> {
            &&& final(store).last_block() == old(store).last_block()
            &&& spec_queued_with(old(queue).entries(), final(queue).entries(), log, 0)
            &&& spec_size_violation(log.event) is Some
                ==> final(queue).entries().last().last_error@ == "payload too large"@
            &&& dead == if old(queue).entries().len() < MAX_QUEUE_SIZE {
                None::<FailedEvent>
            } else {
                Some(old(queue).entries()[0])
            }
        },
{
    let copy = duplicate_log(&log);
    let bn: u64 = log.block_number;
    match processor.process(store, log) {
        Ok(true) => {
            #[verifier::truncate]
            let bn_i64: i64 = bn as i64;
            store.set_last_processed_block(bn_i64);
            LiveOutcome::Inserted
        }
        Ok(false) => LiveOutcome::Duplicate,
        Err(e) => {
            let text = e.message();
            let ghost q0 = queue.entries();
            let dead = queue.push(copy, text);
            proof {
                let q1 = queue.entries();
                if q0.len() < MAX_QUEUE_SIZE {
                    assert(q1.drop_last() =~= q0);
                } else {
                    assert(q1.drop_last() =~= q0.subrange(1, q0.len() as int));
                }
            }
            LiveOutcome::Queued { dead }
        }
    }
}

/// Retry one dequeued failure: process its log again; on a fresh insert
/// advance the checkpoint to its block, on a duplicate drop it silently,
/// and on another failure re-queue it — unless its retries are exhausted,
/// in which case it is handed back for dead-letter logging.
pub fn retry_one(
    processor: &EventProcessor,
    store: &mut Store,
    queue: &mut RetryQueue,
    failed: FailedEvent,
) -> (dead: Option<FailedEvent>)
    requires
        old(store).inv(),
        old(queue).wf(),
        old(queue).entries().len() < MAX_QUEUE_SIZE,
        failed.retry_count < MAX_RETRIES,
    ensures
        final(store).inv(),
        final(queue).wf(),
        checkpoint_monotone(old(store).last_block(), final(store).last_block()),
        spec_tables_after(
            *old(store),
            *final(store),
            failed.log,
            spec_size_violation(failed.log.event) is None && !spec_event_present(
                *old(store),
                failed.log,
            ) && !spec_stream_exhausted(*old(store), failed.log),
        ),
        (spec_size_violation(failed.log.event) is None && !spec_event_present(
            *old(store),
            failed.log,
        ) && !spec_stream_exhausted(*old(store), failed.log)) ==> {
            &&& dead is None
            &&& final(queue).entries() == old(queue).entries()
            &&& final(store).last_block() == match old(store).last_block() {
                None => Some(failed.log.block_number as i64),
                Some(b) => Some(
                    if b >= failed.log.block_number as i64 {
                        b
                    } else {
                        failed.log.block_number as i64
                    },
                ),
            }
        },
        (spec_size_violation(failed.log.event) is None && spec_event_present(
            *old(store),
            failed.log,
        )) ==> {
            &&& dead is None
            &&& final(queue).entries() == old(queue).entries()
            &&& final(store).last_block() == old(store).last_block()
        },
        (spec_size_violation(failed.log.event) is Some || (!spec_event_present(
            *old(store),
            failed.log,
        ) && spec_stream_exhausted(*old(store), failed.log))) ==> {
            &&& final(store).last_block() == old(store).last_block()
            &&& if failed.retry_count + 1 >= MAX_RETRIES {
                &&& final(queue).entries() == old(queue).entries()
                &&& dead matches Some(d) && log_views_eq(d.log, failed.log) && d.retry_count
                    == failed.retry_count + 1
            } else {
                &&& dead is None
                &&& spec_queued_with(
                    old(queue).entries(),
                    final(queue).entries(),
                    failed.log,
                    (failed.retry_count + 1) as u32,
                )
                &&& final(queue).entries().drop_last() == old(queue).entries()
            }
        },
{
    let FailedEvent { log, retry_count, last_error } = failed;
    let copy = duplicate_log(&log);
    let bn: u64 = log.block_number;
    match processor.process(store, log) {
        Ok(true) => {
            #[verifier::truncate]
            let bn_i64: i64 = bn as i64;
            store.set_last_processed_block(bn_i64);
            None
        }
        Ok(false) => None,
        Err(e) => {
            let text = e.message();
            let ghost q0 = queue.entries();
            let d = queue.push_retry(FailedEvent { log: copy, retry_count, last_error }, text);
            proof {
                if retry_count + 1 < MAX_RETRIES {
                    let q1 = queue.entries();
                    assert(q1.drop_last() =~= q0);
                }
            }
            d
        }
    }
}

/// The entry was settled this tick: its event is stored, or it was
/// re-queued with one more retry on its count, or it was handed back for
/// dead-letter logging.
pub open spec fn entry_settled(
    e: FailedEvent,
    s: Store,
    q1: Seq<FailedEvent>,
    dead: Seq<FailedEvent>,
) -> bool {
    ||| spec_event_present(s, e.log)
    ||| exists|m: int|
        0 <= m < q1.len() && log_views_eq((#[trigger] q1[m]).log, e.log) && q1[m].retry_count
            == e.retry_count + 1
    ||| exists|m: int|
        0 <= m < dead.len() && log_views_eq((#[trigger] dead[m]).log, e.log)
            && dead[m].retry_count == e.retry_count + 1
}

/// `q1` holds exactly re-queued copies of `q0` entries, in `q0`'s order:
/// `src` maps each to its source, strictly in order, with the retry count
/// advanced by one.
pub open spec fn requeue_trace(q0: Seq<FailedEvent>, q1: Seq<FailedEvent>, src: Seq<int>) -> bool {
    &&& src.len() == q1.len()
    &&& forall|m1: int, m2: int| 0 <= m1 < m2 < src.len() ==> src[m1] < src[m2]
    &&& forall|m: int|
        0 <= m < src.len() ==> 0 <= #[trigger] src[m] < q0.len() && log_views_eq(
            q1[m].log,
            q0[src[m]].log,
        ) && q1[m].retry_count == q0[src[m]].retry_count + 1
}

/// A fresh insert stores the processed log's own chain position.
proof fn lemma_log_now_present(pre: Store, post: Store, lwm: LogWithMeta)
    requires
        spec_tables_after(pre, post, lwm, true),
    ensures
        spec_event_present(post, lwm),
{
    match lwm.event {
        VerbethEvent::MessageSent { .. } => {
            let m = pre.messages().len() as int;
            assert(post.messages()[m] == crate::processor::spec_message_row(pre, lwm));
        },
        VerbethEvent::Handshake { .. } => {
            let m = pre.handshakes().len() as int;
            assert(post.handshakes()[m] == crate::processor::spec_handshake_row(pre, lwm));
        },
        VerbethEvent::HandshakeResponse { .. } => {
            let m = pre.handshake_responses().len() as int;
            assert(post.handshake_responses()[m] == crate::processor::spec_hsr_row(pre, lwm));
        },
    }
}

/// A stored chain position survives one processing step.
proof fn lemma_present_preserved(
    pre: Store,
    post: Store,
    lwm: LogWithMeta,
    inserted: bool,
    log: LogWithMeta,
)
    requires
        spec_tables_after(pre, post, lwm, inserted),
        spec_event_present(pre, log),
    ensures
        spec_event_present(post, log),
{
    match log.event {
        VerbethEvent::MessageSent { .. } => {
            let idx = choose|idx: int|
                0 <= idx < pre.messages().len() && pre.messages()[idx].block_number
                    == log.block_number as i64 && pre.messages()[idx].log_index
                    == log.log_index as i64;
            assert(post.messages()[idx] == pre.messages()[idx]);
        },
        VerbethEvent::Handshake { .. } => {
            let idx = choose|idx: int|
                0 <= idx < pre.handshakes().len() && pre.handshakes()[idx].block_number
                    == log.block_number as i64 && pre.handshakes()[idx].log_index
                    == log.log_index as i64;
            assert(post.handshakes()[idx] == pre.handshakes()[idx]);
        },
        VerbethEvent::HandshakeResponse { .. } => {
            let idx = choose|idx: int|
                0 <= idx < pre.handshake_responses().len()
                    && pre.handshake_responses()[idx].block_number == log.block_number as i64
                    && pre.handshake_responses()[idx].log_index == log.log_index as i64;
            assert(post.handshake_responses()[idx] == pre.handshake_responses()[idx]);
        },
    }
}

/// One tick of the retry drainer: retry every entry queued at tick start,
/// collecting the entries that were dead-lettered. Each such entry ends
/// stored, re-queued once with its retry count advanced, or dead-lettered
/// with its retries exhausted; the queue afterwards holds exactly the
/// re-queued ones, in order. Failures re-queued during the tick wait for
/// the next one.
pub fn drain_retry_queue(
    processor: &EventProcessor,
    store: &mut Store,
    queue: &mut RetryQueue,
) -> (dead: Vec<FailedEvent>)
    requires
        old(store).inv(),
        old(queue).wf(),
    ensures
        final(store).inv(),
        final(queue).wf(),
        checkpoint_monotone(old(store).last_block(), final(store).last_block()),
        final(queue).entries().len() <= old(queue).entries().len(),
        forall|j: int|
            0 <= j < old(queue).entries().len() ==> #[trigger] entry_settled(
                old(queue).entries()[j],
                *final(store),
                final(queue).entries(),
                dead@,
            ),
        exists|src: Seq<int>| #[trigger] requeue_trace(
            old(queue).entries(),
            final(queue).entries(),
            src,
        ),
        forall|m: int| 0 <= m < dead@.len() ==> (#[trigger] dead@[m]).retry_count == MAX_RETRIES,
{
    let mut dead: Vec<FailedEvent> = Vec::new();
    let ghost q_orig = queue.entries();
    let n: usize = queue.len();
    let ghost mut rq: Seq<FailedEvent> = Seq::empty();
    let ghost mut src: Seq<int> = Seq::empty();
    let mut i: usize = 0;
    proof {
        assert(queue.entries() =~= q_orig.subrange(0, n as int) + rq);
    }
    while i < n
        invariant
            store.inv(),
            queue.wf(),
            n == q_orig.len(),
            n <= MAX_QUEUE_SIZE,
            i <= n,
            checkpoint_monotone(old(store).last_block(), store.last_block()),
            forall|j: int|
                0 <= j < q_orig.len() ==> (#[trigger] q_orig[j]).retry_count < MAX_RETRIES,
            queue.entries() == q_orig.subrange(i as int, n as int) + rq,
            rq.len() <= i,
            requeue_trace(q_orig, rq, src),
            forall|m: int| 0 <= m < src.len() ==> #[trigger] src[m] < i,
            forall|j: int|
                0 <= j < i ==> #[trigger] entry_settled(q_orig[j], *store, rq, dead@),
            forall|m: int|
                0 <= m < dead@.len() ==> (#[trigger] dead@[m]).retry_count == MAX_RETRIES,
        decreases n - i,
    {
        let ghost siter = *store;
        let ghost rq0 = rq;
        let ghost src0 = src;
        let ghost dead0 = dead@;
        match queue.pop() {
            None => {
                proof {
                    assert(queue.entries().len() == 0);
                    assert(false);
                }
            }
            Some(failed) => {
                proof {
                    assert((q_orig.subrange(i as int, n as int) + rq)[0] == q_orig[i as int]);
                    assert(failed == q_orig[i as int]);
                    assert(queue.entries() =~= q_orig.subrange(i as int + 1, n as int) + rq);
                }
                let ghost fsnap = failed;
                let ghost ins = spec_size_violation(fsnap.log.event) is None
                    && !spec_event_present(siter, fsnap.log) && !spec_stream_exhausted(
                    siter,
                    fsnap.log,
                );
                let d = retry_one(processor, store, queue, failed);
                proof {
                    lemma_checkpoint_monotone_trans(
                        old(store).last_block(),
                        siter.last_block(),
                        store.last_block(),
                    );
                }
                if let Some(x) = d {
                    dead.push(x);
                }
                proof {
                    if ins {
                        // a fresh insert: the entry's event is stored now
                        lemma_log_now_present(siter, *store, fsnap.log);
                        assert(queue.entries() =~= q_orig.subrange(i as int + 1, n as int) + rq);
                    } else if spec_size_violation(fsnap.log.event) is None && spec_event_present(
                        siter,
                        fsnap.log,
                    ) {
                        // a duplicate: already stored, nothing moved
                        assert(spec_event_present(*store, fsnap.log));
                        assert(queue.entries() =~= q_orig.subrange(i as int + 1, n as int) + rq);
                    } else if fsnap.retry_count + 1 >= MAX_RETRIES {
                        // retries exhausted: handed back for dead-lettering
                        assert(dead@ =~= dead0.push(dead@.last()));
                        assert(queue.entries() =~= q_orig.subrange(i as int + 1, n as int) + rq);
                    } else {
                        // re-queued with one more retry on its count
                        let newcomer = queue.entries().last();
                        rq = rq.push(newcomer);
                        src = src.push(i as int);
                        assert(queue.entries() == (q_orig.subrange(i as int + 1, n as int)
                            + rq0).push(newcomer));
                        assert((q_orig.subrange(i as int + 1, n as int) + rq0).push(newcomer)
                            =~= q_orig.subrange(i as int + 1, n as int) + rq0.push(newcomer));
                        assert forall|m1: int, m2: int| 0 <= m1 < m2 < src.len() implies src[m1]
                            < src[m2] by {
                            if m2 == src.len() - 1 {
                                assert(src[m1] == src0[m1]);
                                assert(src0[m1] < i);
                            } else {
                                assert(src[m1] == src0[m1] && src[m2] == src0[m2]);
                            }
                        }
                        assert forall|m: int| 0 <= m < src.len() implies 0 <= #[trigger] src[m]
                            < q_orig.len() && log_views_eq(rq[m].log, q_orig[src[m]].log)
                            && rq[m].retry_count == q_orig[src[m]].retry_count + 1 by {
                            if m < src.len() - 1 {
                                assert(src[m] == src0[m] && rq[m] == rq0[m]);
                            } else {
                                assert(src[m] == i as int && rq[m] == newcomer);
                            }
                        }
                        assert forall|m: int| 0 <= m < src.len() implies #[trigger] src[m]
                            < i + 1 by {
                            if m < src.len() - 1 {
                                assert(src[m] == src0[m]);
                            }
                        }
                    }
                    assert(entry_settled(q_orig[i as int], *store, rq, dead@));
                    assert forall|j: int| 0 <= j < i + 1 implies #[trigger] entry_settled(
                        q_orig[j],
                        *store,
                        rq,
                        dead@,
                    ) by {
                        if j < i {
                            assert(entry_settled(q_orig[j], siter, rq0, dead0));
                            if spec_event_present(siter, q_orig[j].log) {
                                lemma_present_preserved(
                                    siter,
                                    *store,
                                    fsnap.log,
                                    ins,
                                    q_orig[j].log,
                                );
                            } else if exists|m: int|
                                0 <= m < rq0.len() && log_views_eq(
                                    (#[trigger] rq0[m]).log,
                                    q_orig[j].log,
                                ) && rq0[m].retry_count == q_orig[j].retry_count + 1 {
                                let m = choose|m: int|
                                    0 <= m < rq0.len() && log_views_eq(
                                        (#[trigger] rq0[m]).log,
                                        q_orig[j].log,
                                    ) && rq0[m].retry_count == q_orig[j].retry_count + 1;
                                assert(rq[m] == rq0[m]);
                            } else {
                                let m = choose|m: int|
                                    0 <= m < dead0.len() && log_views_eq(
                                        (#[trigger] dead0[m]).log,
                                        q_orig[j].log,
                                    ) && dead0[m].retry_count == q_orig[j].retry_count + 1;
                                assert(dead@[m] == dead0[m]);
                            }
                        }
                    }
                }
            }
        }
        i += 1;
    }
    proof {
        assert(queue.entries() =~= rq);
        assert(requeue_trace(q_orig, queue.entries(), src));
    }
    dead
}

/// Checkpoint monotonicity composes across successive operations.
proof fn lemma_checkpoint_monotone_trans(a: Option<i64>, b: Option<i64>, c: Option<i64>)
    requires
        checkpoint_monotone(a, b),
        checkpoint_monotone(b, c),
    ensures
        checkpoint_monotone(a, c),
{
}

} // verus!
