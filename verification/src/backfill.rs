//! Decision logic of the historical backfill worker: chunk planning, the
//! rate-limit retry policy, the per-chunk block-timestamp cache, chain-order
//! sorting, and the processing of one fetched chunk against the store.
//!
//! The HTTP transport lives outside the library: it fetches the logs and
//! block timestamps of a chunk, and this module decides everything else.

use vstd::prelude::*;
use vstd::arithmetic::power2::{lemma2_to64, pow2};
use vstd::multiset::Multiset;

use crate::decode::{
    decode_log, lemma_decode_deterministic, spec_decodes_to, topics_view, RawLog,
};
use crate::events::{LogWithMeta, VerbethEvent};
use crate::models::{HandshakeRow, HsrRow, MessageRow};
use crate::processor::{
    spec_event_present_at, spec_size_violation, spec_stream_exhausted_for, EventProcessor,
};
use crate::store::Store;

verus! {

/// Rate-limiter budget shared by every request of one backfill run.
pub const REQUESTS_PER_SECOND: u32 = 5;

/// Attempts granted to one rate-limited RPC request.
pub const MAX_RETRIES: u32 = 5;

/// Backoff before the first retry; it doubles per attempt.
pub const INITIAL_BACKOFF_MS: u64 = 1000;

/// Progress counters of one backfill run.
#[derive(Clone, Copy, Debug, PartialEq, Eq, Structural)]
pub struct BackfillStats {
    pub blocks_processed: u64,
    pub events_processed: u64,
    pub events_skipped: u64,
}

/// One fetched log with its chain position.
#[derive(Clone, Debug)]
pub struct RawLogEntry {
    pub log: RawLog,
    pub block_number: u64,
    pub log_index: u64,
}

/// Last block of the chunk starting at `chunk_start`: one chunk covers
/// `chunk_size` blocks but never runs past `to_block`.
pub fn chunk_end(chunk_start: u64, chunk_size: u64, to_block: u64) -> (r: u64)
    requires
        chunk_size >= 1,
        chunk_start <= to_block,
    ensures
        r == if chunk_start + chunk_size - 1 <= to_block {
            chunk_start + chunk_size - 1
        } else {
            to_block as int
        },
        chunk_start <= r <= to_block,
{
    if chunk_size - 1 > to_block - chunk_start {
        to_block
    } else {
        chunk_start + (chunk_size - 1)
    }
}

/// First block of the chunk after the one starting at `chunk_start`, if the
/// range up to `to_block` has one.
pub fn next_chunk_start(chunk_start: u64, chunk_size: u64, to_block: u64) -> (r: Option<u64>)
    requires
        chunk_size >= 1,
        chunk_start <= to_block,
    ensures
        match r {
            Some(next) => next == chunk_start + chunk_size && next <= to_block,
            None => chunk_start + chunk_size > to_block,
        },
{
    if chunk_size <= to_block - chunk_start {
        Some(chunk_start + chunk_size)
    } else {
        None
    }
}

/// `pat` occurs in `s` starting at position `i`.
pub open spec fn str_contains_at(s: Seq<char>, pat: Seq<char>, i: int) -> bool {
    &&& 0 <= i
    &&& i + pat.len() <= s.len()
    &&& forall|k: int| 0 <= k < pat.len() ==> s[i + k] == pat[k]
}

/// `pat` occurs somewhere in `s`.
pub open spec fn str_contains(s: Seq<char>, pat: Seq<char>) -> bool {
    exists|i: int| #[trigger] str_contains_at(s, pat, i)
}

/// The textual shapes a rate-limited RPC failure takes.
pub open spec fn spec_is_rate_limited(s: Seq<char>) -> bool {
    str_contains(s, "429"@) || str_contains(s, "exceeded"@) || str_contains(s, "rate"@)
}

/// Whether `pat` occurs in `s`.
fn contains_str(s: &str, pat: &str) -> (r: bool)
    ensures
        r == str_contains(s@, pat@),
{
    let n: usize = s.unicode_len();
    let m: usize = pat.unicode_len();
    if m > n {
        proof {
            if str_contains(s@, pat@) {
                let i = choose|i: int| #[trigger] str_contains_at(s@, pat@, i);
            }
        }
        return false;
    }
    let mut i: usize = 0;
    while i <= n - m
        invariant
            m <= n,
            n == s@.len(),
            m == pat@.len(),
            i <= n - m + 1,
            forall|q: int| 0 <= q < i ==> !#[trigger] str_contains_at(s@, pat@, q),
        decreases n - m + 1 - i,
    {
        let mut k: usize = 0;
        let mut matched: bool = true;
        while k < m
            invariant
                m <= n,
                n == s@.len(),
                m == pat@.len(),
                i + m <= n,
                k <= m,
                matched ==> forall|q: int| 0 <= q < k ==> s@[i + q] == pat@[q],
                !matched ==> !str_contains_at(s@, pat@, i as int),
            decreases m - k,
        {
            if s.get_char(i + k) != pat.get_char(k) {
                proof {
                    assert(s@[i + k] != pat@[k as int]);
                }
                matched = false;
                k = m;
            } else {
                k = k + 1;
            }
        }
        if matched {
            proof {
                assert(str_contains_at(s@, pat@, i as int));
            }
            return true;
        }
        i += 1;
    }
    proof {
        if str_contains(s@, pat@) {
            let q = choose|q: int| #[trigger] str_contains_at(s@, pat@, q);
            assert(q < i);
        }
    }
    false
}

/// Whether an RPC failure's text marks it as rate-limiting, and so worth a
/// backoff and retry.
pub fn is_rate_limit_error(msg: &str) -> (r: bool)
    ensures
        r == spec_is_rate_limited(msg@),
{
    contains_str(msg, "429") || contains_str(msg, "exceeded") || contains_str(msg, "rate")
}

/// Backoff before the retry after `attempts` failed attempts: the initial
/// backoff doubled per failure.
pub open spec fn spec_backoff_ms(attempts: nat) -> int {
    INITIAL_BACKOFF_MS * pow2(attempts)
}

/// Retry policy of one RPC request inside backfill: after `attempts` failed
/// attempts and a failure whose text is `msg`, either wait the returned
/// backoff and retry, or (for an exhausted budget or a non-rate-limit
/// failure) give up.
pub fn rpc_retry_delay_ms(msg: &str, attempts: u32) -> (r: Option<u64>)
    ensures
        (r is Some) <==> (spec_is_rate_limited(msg@) && attempts < MAX_RETRIES),
        match r {
            Some(d) => d == spec_backoff_ms(attempts as nat),
            None => true,
        },
{
    if attempts >= MAX_RETRIES {
        return None;
    }
    if !is_rate_limit_error(msg) {
        return None;
    }
    proof {
        lemma2_to64();
    }
    let d: u64 = if attempts == 0 {
        1000
    } else if attempts == 1 {
        2000
    } else if attempts == 2 {
        4000
    } else if attempts == 3 {
        8000
    } else {
        16000
    };
    Some(d)
}

/// The cached timestamp of block `b`: the first matching entry, if any.
pub open spec fn cache_lookup(entries: Seq<(u64, u64)>, b: u64) -> Option<u64>
    decreases entries.len(),
{
    if entries.len() == 0 {
        None
    } else if entries[0].0 == b {
        Some(entries[0].1)
    } else {
        cache_lookup(entries.subrange(1, entries.len() as int), b)
    }
}

/// A block with no cached timestamp matches no cache entry.
proof fn lemma_cache_lookup_none(entries: Seq<(u64, u64)>, b: u64)
    requires
        cache_lookup(entries, b) is None,
    ensures
        forall|k: int| 0 <= k < entries.len() ==> (#[trigger] entries[k]).0 != b,
    decreases entries.len(),
{
    if entries.len() > 0 {
        let tail = entries.subrange(1, entries.len() as int);
        lemma_cache_lookup_none(tail, b);
        assert forall|k: int| 0 <= k < entries.len() implies (#[trigger] entries[k]).0 != b by {
            if k > 0 {
                assert(tail[k - 1] == entries[k]);
            }
        }
    }
}

/// A cache lookup skips any prefix without a matching entry.
proof fn lemma_cache_lookup_skip(entries: Seq<(u64, u64)>, b: u64, i: int)
    requires
        0 <= i <= entries.len(),
        forall|k: int| 0 <= k < i ==> (#[trigger] entries[k]).0 != b,
    ensures
        cache_lookup(entries, b) == cache_lookup(entries.subrange(i, entries.len() as int), b),
    decreases i,
{
    if i == 0 {
        assert(entries.subrange(0, entries.len() as int) =~= entries);
    } else {
        let tail = entries.subrange(1, entries.len() as int);
        assert forall|k: int| 0 <= k < i - 1 implies (#[trigger] tail[k]).0 != b by {
            assert(tail[k] == entries[k + 1]);
        }
        lemma_cache_lookup_skip(tail, b, i - 1);
        assert(tail.subrange(i - 1, tail.len() as int) =~= entries.subrange(
            i,
            entries.len() as int,
        ));
    }
}

/// Appending an entry for one block does not disturb the cached timestamp
/// of any other block.
proof fn lemma_cache_lookup_push_other(entries: Seq<(u64, u64)>, e: (u64, u64), b: u64)
    requires
        e.0 != b,
    ensures
        cache_lookup(entries.push(e), b) == cache_lookup(entries, b),
    decreases entries.len(),
{
    let es2 = entries.push(e);
    if entries.len() == 0 {
        assert(es2[0] == e);
        assert(es2.subrange(1, es2.len() as int) =~= Seq::<(u64, u64)>::empty());
        assert(cache_lookup(Seq::<(u64, u64)>::empty(), b) == None::<u64>);
    } else {
        assert(es2[0] == entries[0]);
        if entries[0].0 != b {
            let tail = entries.subrange(1, entries.len() as int);
            lemma_cache_lookup_push_other(tail, e, b);
            assert(es2.subrange(1, es2.len() as int) =~= tail.push(e));
        }
    }
}

/// Task-local cache of block timestamps, filled once per chunk.
pub struct TimestampCache {
    entries: Vec<(u64, u64)>,
}

impl TimestampCache {
    /// The cached timestamp of block `b`, if fetched before.
    pub closed spec fn lookup(&self, b: u64) -> Option<u64> {
        cache_lookup(self.entries@, b)
    }

    pub fn new() -> (c: TimestampCache)
        ensures
            forall|b: u64| #[trigger] c.lookup(b) is None,
    {
        TimestampCache { entries: Vec::new() }
    }

    /// The cached timestamp of block `b`.
    pub fn get(&self, b: u64) -> (r: Option<u64>)
        ensures
            r == self.lookup(b),
    {
        let mut i: usize = 0;
        while i < self.entries.len()
            invariant
                i <= self.entries@.len(),
                forall|k: int| 0 <= k < i ==> (#[trigger] self.entries@[k]).0 != b,
            decreases self.entries@.len() - i,
        {
            let e = self.entries[i];
            if e.0 == b {
                proof {
                    lemma_cache_lookup_skip(self.entries@, b, i as int);
                    assert(self.entries@.subrange(i as int, self.entries@.len() as int)[0] == e);
                }
                return Some(e.1);
            }
            i += 1;
        }
        proof {
            lemma_cache_lookup_skip(self.entries@, b, self.entries@.len() as int);
            assert(self.entries@.subrange(self.entries@.len() as int, self.entries@.len() as int)
                =~= Seq::<(u64, u64)>::empty());
        }
        None
    }

    /// Record the timestamp of a block that was not cached yet.
    pub fn insert(&mut self, b: u64, ts: u64)
        requires
            old(self).lookup(b) is None,
        ensures
            final(self).lookup(b) == Some(ts),
            forall|b2: u64| b2 != b ==> #[trigger] final(self).lookup(b2) == old(self).lookup(b2),
    {
        let ghost es0 = self.entries@;
        proof {
            lemma_cache_lookup_none(es0, b);
        }
        self.entries.push((b, ts));
        proof {
            let es1 = self.entries@;
            assert(es1 =~= es0.push((b, ts)));
            assert forall|k: int| 0 <= k < es0.len() implies (#[trigger] es1[k]).0 != b by {
                assert(es1[k] == es0[k]);
            }
            lemma_cache_lookup_skip(es1, b, es0.len() as int);
            assert(es1.subrange(es0.len() as int, es1.len() as int)[0] == (b, ts));
            assert forall|b2: u64| b2 != b implies #[trigger] cache_lookup(es1, b2) == cache_lookup(
                es0,
                b2,
            ) by {
                lemma_cache_lookup_push_other(es0, (b, ts), b2);
            }
        }
    }
}

/// The distinct block numbers of `logs` whose timestamps are not cached
/// yet: the blocks one fetch round must cover.
pub fn blocks_needing_timestamps(logs: &Vec<RawLogEntry>, cache: &TimestampCache) -> (r: Vec<u64>)
    ensures
        forall|i: int, j: int| 0 <= i < j < r@.len() ==> r@[i] != r@[j],
        forall|i: int|
            0 <= i < r@.len() ==> #[trigger] cache.lookup(r@[i]) is None && exists|k: int|
                0 <= k < logs@.len() && (#[trigger] logs@[k]).block_number == r@[i],
        forall|k: int|
            0 <= k < logs@.len() && #[trigger] cache.lookup(logs@[k].block_number) is None
                ==> r@.contains(logs@[k].block_number),
{
    let mut r: Vec<u64> = Vec::new();
    let mut k: usize = 0;
    while k < logs.len()
        invariant
            k <= logs@.len(),
            forall|i: int, j: int| 0 <= i < j < r@.len() ==> r@[i] != r@[j],
            forall|i: int|
                0 <= i < r@.len() ==> #[trigger] cache.lookup(r@[i]) is None && exists|q: int|
                    0 <= q < logs@.len() && (#[trigger] logs@[q]).block_number == r@[i],
            forall|q: int|
                0 <= q < k && #[trigger] cache.lookup(logs@[q].block_number) is None
                    ==> r@.contains(logs@[q].block_number),
        decreases logs@.len() - k,
    {
        let bn = logs[k].block_number;
        if cache.get(bn).is_none() && !contains_u64(&r, bn) {
            let ghost r0 = r@;
            r.push(bn);
            proof {
                assert(r@ =~= r0.push(bn));
                assert(r@[r0.len() as int] == bn);
                assert forall|q: int|
                    0 <= q < k + 1 && #[trigger] cache.lookup(logs@[q].block_number) is None
                    implies r@.contains(logs@[q].block_number) by {
                    if q < k {
                        let w = choose|w: int| 0 <= w < r0.len() && r0[w] == logs@[q].block_number;
                        assert(r@[w] == logs@[q].block_number);
                    }
                }
            }
        }
        k += 1;
    }
    r
}

/// Whether `v` holds `x`.
fn contains_u64(v: &Vec<u64>, x: u64) -> (r: bool)
    ensures
        r == v@.contains(x),
{
    let mut i: usize = 0;
    while i < v.len()
        invariant
            i <= v@.len(),
            forall|k: int| 0 <= k < i ==> v@[k] != x,
        decreases v@.len() - i,
    {
        if v[i] == x {
            return true;
        }
        i += 1;
    }
    proof {
        if v@.contains(x) {
            let w = choose|w: int| 0 <= w < v@.len() && v@[w] == x;
        }
    }
    false
}

/// Chain order on fetched logs: by block number, then by log index.
pub open spec fn pos_le(a: RawLogEntry, b: RawLogEntry) -> bool {
    a.block_number < b.block_number || (a.block_number == b.block_number && a.log_index
        <= b.log_index)
}

/// The logs stand in ascending chain order.
pub open spec fn sorted_by_position(s: Seq<RawLogEntry>) -> bool {
    forall|i: int, j: int| 0 <= i < j < s.len() ==> pos_le(s[i], s[j])
}

/// Chain order, decided on borrowed entries.
fn pos_le_exec(a: &RawLogEntry, b: &RawLogEntry) -> (r: bool)
    ensures
        r == pos_le(*a, *b),
{
    a.block_number < b.block_number || (a.block_number == b.block_number && a.log_index
        <= b.log_index)
}

/// Sort fetched logs into ascending chain order, so that sequence numbers
/// are assigned in the order the chain emitted the events.
pub fn sort_logs_by_position(logs: Vec<RawLogEntry>) -> (r: Vec<RawLogEntry>)
    ensures
        sorted_by_position(r@),
        r@.to_multiset() == logs@.to_multiset(),
{
    let ghost orig = logs@;
    let mut rest = logs;
    let mut out: Vec<RawLogEntry> = Vec::new();
    proof {
        broadcast use vstd::seq_lib::group_to_multiset_ensures;

        assert(out@.to_multiset().add(rest@.to_multiset()) =~= orig.to_multiset());
    }
    while rest.len() > 0
        invariant
            sorted_by_position(out@),
            out@.to_multiset().add(rest@.to_multiset()) == orig.to_multiset(),
        decreases rest@.len(),
    {
        let ghost rest0 = rest@;
        let ghost out0 = out@;
        let x = match rest.pop() {
            Some(v) => v,
            None => {
                proof {
                    assert(false);
                }
                continue ;
            }
        };
        proof {
            assert(rest0 =~= rest@.push(x));
        }
        let mut idx: usize = 0;
        while idx < out.len() && pos_le_exec(&out[idx], &x)
            invariant
                idx <= out@.len(),
                out@ == out0,
                forall|k: int| 0 <= k < idx ==> pos_le(out@[k], x),
            decreases out@.len() - idx,
        {
            idx += 1;
        }
        proof {
            if (idx as int) < out@.len() {
                assert(!pos_le(out@[idx as int], x));
            }
        }
        out.insert(idx, x);
        proof {
            let o1 = out@;
            assert(o1 == out0.insert(idx as int, x));
            assert forall|i: int, j: int| 0 <= i < j < o1.len() implies pos_le(o1[i], o1[j]) by {
                if j < idx {
                    assert(o1[i] == out0[i] && o1[j] == out0[j]);
                    assert(pos_le(out0[i], out0[j]));
                } else if j == idx {
                    assert(o1[i] == out0[i]);
                    assert(o1[j] == x);
                    assert(pos_le(out0[i], x));
                } else {
                    assert(o1[j] == out0[j - 1]);
                    if i < idx {
                        assert(o1[i] == out0[i]);
                        if idx == j - 1 {
                        } else {
                            assert(pos_le(out0[i], out0[j - 1]));
                        }
                    } else if i == idx {
                        assert(o1[i] == x);
                        assert(!pos_le(out0[idx as int], x));
                        if idx < j - 1 {
                            assert(pos_le(out0[idx as int], out0[j - 1]));
                        }
                    } else {
                        assert(o1[i] == out0[i - 1]);
                        assert(pos_le(out0[i - 1], out0[j - 1]));
                    }
                }
            }
            vstd::seq_lib::to_multiset_insert(out0, idx as int, x);
            vstd::seq_lib::to_multiset_build(rest@, x);
            assert(rest0.to_multiset() == rest@.to_multiset().insert(x));
            assert(o1.to_multiset().add(rest@.to_multiset()) =~= out0.to_multiset().add(
                rest0.to_multiset(),
            ));
        }
    }
    proof {
        vstd::seq_lib::to_multiset_len(rest@);
        assert(rest@.to_multiset() =~= Multiset::<RawLogEntry>::empty());
        assert(out@.to_multiset() =~= orig.to_multiset());
    }
    out
}

/// The log of `entry` is the canonical encoding of event `e`.
pub open spec fn spec_entry_decodes_to(entry: RawLogEntry, e: VerbethEvent) -> bool {
    spec_decodes_to(topics_view(entry.log.topics@), entry.log.data@, e)
}

/// `entry` decodes to `e` and `e` passes payload-size validation, so that
/// processing it counts as backfill progress.
pub open spec fn spec_entry_accepted(entry: RawLogEntry, e: VerbethEvent) -> bool {
    spec_entry_decodes_to(entry, e) && spec_size_violation(e) is None
}

/// `entry` decodes to some event that passes payload-size validation.
pub open spec fn spec_accepted(entry: RawLogEntry) -> bool {
    exists|e: VerbethEvent| spec_entry_accepted(entry, e)
}

/// Number of accepted entries.
pub open spec fn accepted_count(logs: Seq<RawLogEntry>) -> int
    decreases logs.len(),
{
    if logs.len() == 0 {
        0
    } else {
        accepted_count(logs.drop_last()) + if spec_accepted(logs.last()) {
            1int
        } else {
            0int
        }
    }
}

/// Every accepted entry's event is already stored at its chain position:
/// the chunk is a replay of an already-indexed range.
pub open spec fn chunk_replayed(s: Store, logs: Seq<RawLogEntry>) -> bool {
    forall|i: int, e: VerbethEvent|
        0 <= i < logs.len() && #[trigger] spec_entry_accepted(logs[i], e)
            ==> spec_event_present_at(
            s,
            e,
            logs[i].block_number as i64,
            logs[i].log_index as i64,
        )
}

/// No accepted entry's event is stored yet and no two entries share a
/// chain position: the chunk covers a range indexed for the first time.
pub open spec fn chunk_fresh(s: Store, logs: Seq<RawLogEntry>) -> bool {
    &&& forall|i: int, e: VerbethEvent|
        0 <= i < logs.len() && #[trigger] spec_entry_accepted(logs[i], e)
            ==> !spec_event_present_at(
            s,
            e,
            logs[i].block_number as i64,
            logs[i].log_index as i64,
        )
    &&& forall|i: int, j: int|
        0 <= i < j < logs.len() ==> !((#[trigger] logs[i]).block_number
            == (#[trigger] logs[j]).block_number && logs[i].log_index == logs[j].log_index)
}

/// `entry` is the canonical encoding of no event at all: a foreign
/// signature, a wrong topic count, or malformed data. Such a log is
/// skipped, and counted as skipped.
pub open spec fn spec_undecodable(entry: RawLogEntry) -> bool {
    forall|e: VerbethEvent| !#[trigger] spec_entry_decodes_to(entry, e)
}

/// Number of undecodable entries.
pub open spec fn undecodable_count(logs: Seq<RawLogEntry>) -> int
    decreases logs.len(),
{
    if logs.len() == 0 {
        0
    } else {
        undecodable_count(logs.drop_last()) + if spec_undecodable(logs.last()) {
            1int
        } else {
            0int
        }
    }
}

/// The tables can absorb `extra` more rows before any sequence space could
/// run out.
pub open spec fn table_headroom(s: Store, extra: int) -> bool {
    s.messages().len() + s.handshakes().len() + s.handshake_responses().len() + extra < i64::MAX
}

/// Chain order on stored positions: by block number, then by log index.
pub open spec fn pos_le_i64(abn: i64, ali: i64, bbn: i64, bli: i64) -> bool {
    abn < bbn || (abn == bbn && ali <= bli)
}

/// Every chain position of the chunk fits the store's signed columns.
pub open spec fn positions_fit(logs: Seq<RawLogEntry>) -> bool {
    forall|i: int|
        0 <= i < logs.len() ==> (#[trigger] logs[i]).block_number <= i64::MAX
            && logs[i].log_index <= i64::MAX
}

/// Sequence numbers grow with insertion order: a row appended after `pre`
/// carries a larger sequence number than every earlier row of its stream.
pub open spec fn appended_seqs_ascend(post: Store, pre: Store) -> bool {
    &&& forall|i: int, j: int|
        #![trigger post.messages()[i], post.messages()[j]]
        0 <= i < j < post.messages().len() && pre.messages().len() <= j
            && post.messages()[i].topic@ == post.messages()[j].topic@ ==> post.messages()[i].seq
            < post.messages()[j].seq
    &&& forall|i: int, j: int|
        #![trigger post.handshakes()[i], post.handshakes()[j]]
        0 <= i < j < post.handshakes().len() && pre.handshakes().len() <= j
            && post.handshakes()[i].recipient_hash@ == post.handshakes()[j].recipient_hash@
            ==> post.handshakes()[i].seq < post.handshakes()[j].seq
    &&& forall|i: int, j: int|
        #![trigger post.handshake_responses()[i], post.handshake_responses()[j]]
        0 <= i < j < post.handshake_responses().len()
            ==> post.handshake_responses()[i].global_seq
            < post.handshake_responses()[j].global_seq
}

/// The rows appended after `pre` stand in ascending chain order, per table.
pub open spec fn appended_in_chain_order(post: Store, pre: Store) -> bool {
    &&& forall|i: int, j: int|
        pre.messages().len() <= i < j < post.messages().len() ==> pos_le_i64(
            (#[trigger] post.messages()[i]).block_number,
            post.messages()[i].log_index,
            (#[trigger] post.messages()[j]).block_number,
            post.messages()[j].log_index,
        )
    &&& forall|i: int, j: int|
        pre.handshakes().len() <= i < j < post.handshakes().len() ==> pos_le_i64(
            (#[trigger] post.handshakes()[i]).block_number,
            post.handshakes()[i].log_index,
            (#[trigger] post.handshakes()[j]).block_number,
            post.handshakes()[j].log_index,
        )
    &&& forall|i: int, j: int|
        pre.handshake_responses().len() <= i < j < post.handshake_responses().len()
            ==> pos_le_i64(
            (#[trigger] post.handshake_responses()[i]).block_number,
            post.handshake_responses()[i].log_index,
            (#[trigger] post.handshake_responses()[j]).block_number,
            post.handshake_responses()[j].log_index,
        )
}

/// The row carries the chain position of one of the first `k` entries.
pub open spec fn msg_row_from(r: MessageRow, logs: Seq<RawLogEntry>, k: int) -> bool {
    exists|i: int|
        0 <= i < k && (#[trigger] logs[i]).block_number as i64 == r.block_number
            && logs[i].log_index as i64 == r.log_index
}

/// The row carries the chain position of one of the first `k` entries.
pub open spec fn hs_row_from(r: HandshakeRow, logs: Seq<RawLogEntry>, k: int) -> bool {
    exists|i: int|
        0 <= i < k && (#[trigger] logs[i]).block_number as i64 == r.block_number
            && logs[i].log_index as i64 == r.log_index
}

/// The row carries the chain position of one of the first `k` entries.
pub open spec fn hsr_row_from(r: HsrRow, logs: Seq<RawLogEntry>, k: int) -> bool {
    exists|i: int|
        0 <= i < k && (#[trigger] logs[i]).block_number as i64 == r.block_number
            && logs[i].log_index as i64 == r.log_index
}

/// Every row appended after `s0` carries the chain position of one of the
/// first `k` entries.
pub open spec fn rows_provenance(cur: Store, s0: Store, logs: Seq<RawLogEntry>, k: int) -> bool {
    &&& forall|m: int|
        s0.messages().len() <= m < cur.messages().len() ==> #[trigger] msg_row_from(
            cur.messages()[m],
            logs,
            k,
        )
    &&& forall|m: int|
        s0.handshakes().len() <= m < cur.handshakes().len() ==> #[trigger] hs_row_from(
            cur.handshakes()[m],
            logs,
            k,
        )
    &&& forall|m: int|
        s0.handshake_responses().len() <= m < cur.handshake_responses().len()
            ==> #[trigger] hsr_row_from(cur.handshake_responses()[m], logs, k)
}

/// Every chain position stored in `cur` was either stored in `s0` already
/// or belongs to one of the first `k` entries of the chunk.
pub open spec fn positions_from(cur: Store, s0: Store, logs: Seq<RawLogEntry>, k: int) -> bool {
    &&& forall|bn: i64, li: i64|
        #[trigger] crate::store::msg_has_pos(cur.messages(), bn, li)
            ==> crate::store::msg_has_pos(s0.messages(), bn, li) || exists|i: int|
            0 <= i < k && (#[trigger] logs[i]).block_number as i64 == bn
                && logs[i].log_index as i64 == li
    &&& forall|bn: i64, li: i64|
        #[trigger] crate::store::hs_has_pos(cur.handshakes(), bn, li)
            ==> crate::store::hs_has_pos(s0.handshakes(), bn, li) || exists|i: int|
            0 <= i < k && (#[trigger] logs[i]).block_number as i64 == bn
                && logs[i].log_index as i64 == li
    &&& forall|bn: i64, li: i64|
        #[trigger] crate::store::hsr_has_pos(cur.handshake_responses(), bn, li)
            ==> crate::store::hsr_has_pos(s0.handshake_responses(), bn, li) || exists|i: int|
            0 <= i < k && (#[trigger] logs[i]).block_number as i64 == bn
                && logs[i].log_index as i64 == li
}

/// Positions accounted for by the first `k` entries are accounted for by
/// the first `k + 1` as well.
proof fn lemma_positions_widen(cur: Store, s0: Store, logs: Seq<RawLogEntry>, k: int)
    requires
        positions_from(cur, s0, logs, k),
    ensures
        positions_from(cur, s0, logs, k + 1),
{
    assert forall|bn: i64, li: i64| #[trigger] crate::store::msg_has_pos(cur.messages(), bn, li)
        implies crate::store::msg_has_pos(s0.messages(), bn, li) || exists|i: int|
        0 <= i < k + 1 && (#[trigger] logs[i]).block_number as i64 == bn
            && logs[i].log_index as i64 == li by {
        if !crate::store::msg_has_pos(s0.messages(), bn, li) {
            let i = choose|i: int|
                0 <= i < k && (#[trigger] logs[i]).block_number as i64 == bn
                    && logs[i].log_index as i64 == li;
            assert(0 <= i < k + 1 && logs[i].block_number as i64 == bn && logs[i].log_index as i64
                == li);
        }
    }
    assert forall|bn: i64, li: i64| #[trigger] crate::store::hs_has_pos(cur.handshakes(), bn, li)
        implies crate::store::hs_has_pos(s0.handshakes(), bn, li) || exists|i: int|
        0 <= i < k + 1 && (#[trigger] logs[i]).block_number as i64 == bn
            && logs[i].log_index as i64 == li by {
        if !crate::store::hs_has_pos(s0.handshakes(), bn, li) {
            let i = choose|i: int|
                0 <= i < k && (#[trigger] logs[i]).block_number as i64 == bn
                    && logs[i].log_index as i64 == li;
            assert(0 <= i < k + 1 && logs[i].block_number as i64 == bn && logs[i].log_index as i64
                == li);
        }
    }
    assert forall|bn: i64, li: i64| #[trigger] crate::store::hsr_has_pos(
        cur.handshake_responses(),
        bn,
        li,
    ) implies crate::store::hsr_has_pos(s0.handshake_responses(), bn, li) || exists|i: int|
        0 <= i < k + 1 && (#[trigger] logs[i]).block_number as i64 == bn
            && logs[i].log_index as i64 == li by {
        if !crate::store::hsr_has_pos(s0.handshake_responses(), bn, li) {
            let i = choose|i: int|
                0 <= i < k && (#[trigger] logs[i]).block_number as i64 == bn
                    && logs[i].log_index as i64 == li;
            assert(0 <= i < k + 1 && logs[i].block_number as i64 == bn && logs[i].log_index as i64
                == li);
        }
    }
}

/// A fresh insert of entry `k` keeps every stored position accounted for
/// by the first `k + 1` entries.
proof fn lemma_positions_extend(
    post: Store,
    pre: Store,
    s0: Store,
    logs: Seq<RawLogEntry>,
    k: int,
    lwm: LogWithMeta,
)
    requires
        0 <= k < logs.len(),
        lwm.block_number == logs[k].block_number,
        lwm.log_index == logs[k].log_index,
        crate::processor::spec_tables_after(pre, post, lwm, true),
        positions_from(pre, s0, logs, k),
    ensures
        positions_from(post, s0, logs, k + 1),
{
    lemma_positions_widen(pre, s0, logs, k);
    assert forall|bn: i64, li: i64| #[trigger] crate::store::msg_has_pos(post.messages(), bn, li)
        implies crate::store::msg_has_pos(s0.messages(), bn, li) || exists|i: int|
        0 <= i < k + 1 && (#[trigger] logs[i]).block_number as i64 == bn
            && logs[i].log_index as i64 == li by {
        if !crate::store::msg_has_pos(s0.messages(), bn, li) {
            let idx = choose|idx: int|
                0 <= idx < post.messages().len() && post.messages()[idx].block_number == bn
                    && post.messages()[idx].log_index == li;
            match lwm.event {
                VerbethEvent::MessageSent { .. } => {
                    if idx < pre.messages().len() {
                        assert(post.messages()[idx] == pre.messages()[idx]);
                        assert(crate::store::msg_has_pos(pre.messages(), bn, li));
                    } else {
                        assert(post.messages()[idx] == crate::processor::spec_message_row(
                            pre,
                            lwm,
                        ));
                        assert(0 <= k < k + 1 && logs[k].block_number as i64 == bn
                            && logs[k].log_index as i64 == li);
                    }
                },
                _ => {
                    assert(post.messages() == pre.messages());
                    assert(crate::store::msg_has_pos(pre.messages(), bn, li));
                },
            }
        }
    }
    assert forall|bn: i64, li: i64| #[trigger] crate::store::hs_has_pos(post.handshakes(), bn, li)
        implies crate::store::hs_has_pos(s0.handshakes(), bn, li) || exists|i: int|
        0 <= i < k + 1 && (#[trigger] logs[i]).block_number as i64 == bn
            && logs[i].log_index as i64 == li by {
        if !crate::store::hs_has_pos(s0.handshakes(), bn, li) {
            let idx = choose|idx: int|
                0 <= idx < post.handshakes().len() && post.handshakes()[idx].block_number == bn
                    && post.handshakes()[idx].log_index == li;
            match lwm.event {
                VerbethEvent::Handshake { .. } => {
                    if idx < pre.handshakes().len() {
                        assert(post.handshakes()[idx] == pre.handshakes()[idx]);
                        assert(crate::store::hs_has_pos(pre.handshakes(), bn, li));
                    } else {
                        assert(post.handshakes()[idx] == crate::processor::spec_handshake_row(
                            pre,
                            lwm,
                        ));
                        assert(0 <= k < k + 1 && logs[k].block_number as i64 == bn
                            && logs[k].log_index as i64 == li);
                    }
                },
                _ => {
                    assert(post.handshakes() == pre.handshakes());
                    assert(crate::store::hs_has_pos(pre.handshakes(), bn, li));
                },
            }
        }
    }
    assert forall|bn: i64, li: i64| #[trigger] crate::store::hsr_has_pos(
        post.handshake_responses(),
        bn,
        li,
    ) implies crate::store::hsr_has_pos(s0.handshake_responses(), bn, li) || exists|i: int|
        0 <= i < k + 1 && (#[trigger] logs[i]).block_number as i64 == bn
            && logs[i].log_index as i64 == li by {
        if !crate::store::hsr_has_pos(s0.handshake_responses(), bn, li) {
            let idx = choose|idx: int|
                0 <= idx < post.handshake_responses().len()
                    && post.handshake_responses()[idx].block_number == bn
                    && post.handshake_responses()[idx].log_index == li;
            match lwm.event {
                VerbethEvent::HandshakeResponse { .. } => {
                    if idx < pre.handshake_responses().len() {
                        assert(post.handshake_responses()[idx]
                            == pre.handshake_responses()[idx]);
                        assert(crate::store::hsr_has_pos(pre.handshake_responses(), bn, li));
                    } else {
                        assert(post.handshake_responses()[idx]
                            == crate::processor::spec_hsr_row(pre, lwm));
                        assert(0 <= k < k + 1 && logs[k].block_number as i64 == bn
                            && logs[k].log_index as i64 == li);
                    }
                },
                _ => {
                    assert(post.handshake_responses() == pre.handshake_responses());
                    assert(crate::store::hsr_has_pos(pre.handshake_responses(), bn, li));
                },
            }
        }
    }
}

/// A stored chain position survives one processing step: the tables only
/// ever grow.
proof fn lemma_present_at_preserved(
    pre: Store,
    post: Store,
    lwm: LogWithMeta,
    inserted: bool,
    e: VerbethEvent,
    bn: i64,
    li: i64,
)
    requires
        crate::processor::spec_tables_after(pre, post, lwm, inserted),
        spec_event_present_at(pre, e, bn, li),
    ensures
        spec_event_present_at(post, e, bn, li),
{
    match e {
        VerbethEvent::MessageSent { .. } => {
            let idx = choose|idx: int|
                0 <= idx < pre.messages().len() && pre.messages()[idx].block_number == bn
                    && pre.messages()[idx].log_index == li;
            assert(post.messages()[idx] == pre.messages()[idx]);
        },
        VerbethEvent::Handshake { .. } => {
            let idx = choose|idx: int|
                0 <= idx < pre.handshakes().len() && pre.handshakes()[idx].block_number == bn
                    && pre.handshakes()[idx].log_index == li;
            assert(post.handshakes()[idx] == pre.handshakes()[idx]);
        },
        VerbethEvent::HandshakeResponse { .. } => {
            let idx = choose|idx: int|
                0 <= idx < pre.handshake_responses().len()
                    && pre.handshake_responses()[idx].block_number == bn
                    && pre.handshake_responses()[idx].log_index == li;
            assert(post.handshake_responses()[idx] == pre.handshake_responses()[idx]);
        },
    }
}

/// A prefix of the chunk whose accepted events are all stored stays that
/// way across one processing step.
proof fn lemma_replayed_prefix_preserved(
    pre: Store,
    post: Store,
    lwm: LogWithMeta,
    inserted: bool,
    logs: Seq<RawLogEntry>,
    k: int,
)
    requires
        0 <= k <= logs.len(),
        crate::processor::spec_tables_after(pre, post, lwm, inserted),
        chunk_replayed(pre, logs.subrange(0, k)),
    ensures
        chunk_replayed(post, logs.subrange(0, k)),
{
    let prefix = logs.subrange(0, k);
    assert forall|i: int, e: VerbethEvent|
        0 <= i < prefix.len() && #[trigger] spec_entry_accepted(prefix[i], e)
        implies spec_event_present_at(
        post,
        e,
        prefix[i].block_number as i64,
        prefix[i].log_index as i64,
    ) by {
        lemma_present_at_preserved(
            pre,
            post,
            lwm,
            inserted,
            e,
            prefix[i].block_number as i64,
            prefix[i].log_index as i64,
        );
    }
}

/// Inserting the decoded event of entry `k` stores the chain position of
/// every event that entry can decode to.
proof fn lemma_entry_now_present(
    pre: Store,
    post: Store,
    lwm: LogWithMeta,
    logs: Seq<RawLogEntry>,
    k: int,
)
    requires
        0 <= k < logs.len(),
        lwm.block_number == logs[k].block_number,
        lwm.log_index == logs[k].log_index,
        spec_entry_decodes_to(logs[k], lwm.event),
        crate::processor::spec_tables_after(pre, post, lwm, true),
    ensures
        forall|e2: VerbethEvent|
            #[trigger] spec_entry_accepted(logs[k], e2) ==> spec_event_present_at(
                post,
                e2,
                logs[k].block_number as i64,
                logs[k].log_index as i64,
            ),
{
    let bnk = logs[k].block_number as i64;
    let lik = logs[k].log_index as i64;
    assert forall|e2: VerbethEvent| #[trigger] spec_entry_accepted(logs[k], e2)
        implies spec_event_present_at(post, e2, bnk, lik) by {
        lemma_decode_deterministic(
            topics_view(logs[k].log.topics@),
            logs[k].log.data@,
            lwm.event,
            e2,
        );
        match lwm.event {
            VerbethEvent::MessageSent { .. } => {
                let m = pre.messages().len() as int;
                assert(post.messages()[m] == crate::processor::spec_message_row(pre, lwm));
                assert(post.messages()[m].block_number == bnk && post.messages()[m].log_index
                    == lik);
            },
            VerbethEvent::Handshake { .. } => {
                let m = pre.handshakes().len() as int;
                assert(post.handshakes()[m] == crate::processor::spec_handshake_row(pre, lwm));
                assert(post.handshakes()[m].block_number == bnk && post.handshakes()[m].log_index
                    == lik);
            },
            VerbethEvent::HandshakeResponse { .. } => {
                let m = pre.handshake_responses().len() as int;
                assert(post.handshake_responses()[m] == crate::processor::spec_hsr_row(pre, lwm));
                assert(post.handshake_responses()[m].block_number == bnk
                    && post.handshake_responses()[m].log_index == lik);
            },
        }
    }
}

/// One inserted row keeps sequence numbers growing with insertion order:
/// the sequencer hands it a number above every stored one of its stream.
proof fn lemma_seq_order_extend(
    pre: Store,
    post: Store,
    lwm: LogWithMeta,
    inserted: bool,
    s0: Store,
)
    requires
        pre.inv(),
        crate::processor::spec_tables_after(pre, post, lwm, inserted),
        appended_seqs_ascend(pre, s0),
    ensures
        appended_seqs_ascend(post, s0),
{
    assert forall|i: int, j: int|
        0 <= i < j < post.messages().len() && s0.messages().len() <= j && post.messages()[i].topic@
            == post.messages()[j].topic@ implies post.messages()[i].seq
        < post.messages()[j].seq by {
        if j < pre.messages().len() {
            assert(post.messages()[i] == pre.messages()[i]);
            assert(post.messages()[j] == pre.messages()[j]);
        } else {
            match lwm.event {
                VerbethEvent::MessageSent { topic, .. } => {
                    assert(post.messages()[j] == crate::processor::spec_message_row(pre, lwm));
                    assert(post.messages()[i] == pre.messages()[i]);
                    crate::store::lemma_counter_val_le_max(
                        pre.counters(),
                        crate::store::StreamKind::Message,
                        Some(topic@),
                    );
                    assert(crate::store::counter_val(
                        pre.counters(),
                        crate::store::StreamKind::Message,
                        Some(topic@),
                    ) == crate::store::msg_count(pre.messages(), topic@));
                    assert(post.messages()[j].seq == crate::store::msg_count(
                        pre.messages(),
                        topic@,
                    ));
                    assert(pre.messages()[i].seq < crate::store::msg_count(
                        pre.messages(),
                        pre.messages()[i].topic@,
                    ));
                },
                _ => {
                    assert(post.messages() == pre.messages());
                },
            }
        }
    }
    assert forall|i: int, j: int|
        0 <= i < j < post.handshakes().len() && s0.handshakes().len() <= j
            && post.handshakes()[i].recipient_hash@ == post.handshakes()[j].recipient_hash@
        implies post.handshakes()[i].seq < post.handshakes()[j].seq by {
        if j < pre.handshakes().len() {
            assert(post.handshakes()[i] == pre.handshakes()[i]);
            assert(post.handshakes()[j] == pre.handshakes()[j]);
        } else {
            match lwm.event {
                VerbethEvent::Handshake { recipient_hash, .. } => {
                    assert(post.handshakes()[j] == crate::processor::spec_handshake_row(
                        pre,
                        lwm,
                    ));
                    assert(post.handshakes()[i] == pre.handshakes()[i]);
                    crate::store::lemma_counter_val_le_max(
                        pre.counters(),
                        crate::store::StreamKind::Handshake,
                        Some(recipient_hash@),
                    );
                    assert(crate::store::counter_val(
                        pre.counters(),
                        crate::store::StreamKind::Handshake,
                        Some(recipient_hash@),
                    ) == crate::store::hs_count(pre.handshakes(), recipient_hash@));
                    assert(post.handshakes()[j].seq == crate::store::hs_count(
                        pre.handshakes(),
                        recipient_hash@,
                    ));
                    assert(pre.handshakes()[i].seq < crate::store::hs_count(
                        pre.handshakes(),
                        pre.handshakes()[i].recipient_hash@,
                    ));
                },
                _ => {
                    assert(post.handshakes() == pre.handshakes());
                },
            }
        }
    }
    assert forall|i: int, j: int| 0 <= i < j < post.handshake_responses().len()
        implies post.handshake_responses()[i].global_seq
        < post.handshake_responses()[j].global_seq by {
        if j < pre.handshake_responses().len() {
            assert(post.handshake_responses()[i] == pre.handshake_responses()[i]);
            assert(post.handshake_responses()[j] == pre.handshake_responses()[j]);
        } else {
            match lwm.event {
                VerbethEvent::HandshakeResponse { .. } => {
                    assert(post.handshake_responses()[j] == crate::processor::spec_hsr_row(
                        pre,
                        lwm,
                    ));
                    assert(post.handshake_responses()[i] == pre.handshake_responses()[i]);
                    crate::store::lemma_counter_val_le_max(
                        pre.counters(),
                        crate::store::StreamKind::HandshakeResponse,
                        None,
                    );
                    assert(post.handshake_responses()[j].global_seq
                        == pre.handshake_responses().len());
                    assert(pre.handshake_responses()[i].global_seq == i);
                },
                _ => {
                    assert(post.handshake_responses() == pre.handshake_responses());
                },
            }
        }
    }
}

/// Rows traced to the first `k` entries are traced to the first `k + 1` as
/// well.
proof fn lemma_chain_rows_widen(cur: Store, s0: Store, logs: Seq<RawLogEntry>, k: int)
    requires
        rows_provenance(cur, s0, logs, k),
    ensures
        rows_provenance(cur, s0, logs, k + 1),
{
    assert forall|m: int| s0.messages().len() <= m < cur.messages().len()
        implies #[trigger] msg_row_from(cur.messages()[m], logs, k + 1) by {
        assert(msg_row_from(cur.messages()[m], logs, k));
        let i = choose|i: int|
            0 <= i < k && (#[trigger] logs[i]).block_number as i64
                == cur.messages()[m].block_number && logs[i].log_index as i64
                == cur.messages()[m].log_index;
        assert(0 <= i < k + 1 && logs[i].block_number as i64 == cur.messages()[m].block_number
            && logs[i].log_index as i64 == cur.messages()[m].log_index);
    }
    assert forall|m: int| s0.handshakes().len() <= m < cur.handshakes().len()
        implies #[trigger] hs_row_from(cur.handshakes()[m], logs, k + 1) by {
        assert(hs_row_from(cur.handshakes()[m], logs, k));
        let i = choose|i: int|
            0 <= i < k && (#[trigger] logs[i]).block_number as i64
                == cur.handshakes()[m].block_number && logs[i].log_index as i64
                == cur.handshakes()[m].log_index;
        assert(0 <= i < k + 1 && logs[i].block_number as i64 == cur.handshakes()[m].block_number
            && logs[i].log_index as i64 == cur.handshakes()[m].log_index);
    }
    assert forall|m: int| s0.handshake_responses().len() <= m < cur.handshake_responses().len()
        implies #[trigger] hsr_row_from(cur.handshake_responses()[m], logs, k + 1) by {
        assert(hsr_row_from(cur.handshake_responses()[m], logs, k));
        let i = choose|i: int|
            0 <= i < k && (#[trigger] logs[i]).block_number as i64
                == cur.handshake_responses()[m].block_number && logs[i].log_index as i64
                == cur.handshake_responses()[m].log_index;
        assert(0 <= i < k + 1 && logs[i].block_number as i64
            == cur.handshake_responses()[m].block_number && logs[i].log_index as i64
            == cur.handshake_responses()[m].log_index);
    }
}

/// A row inserted for entry `k` of a chain-sorted chunk lands after every
/// earlier appended row in chain order, and is traced to its entry.
proof fn lemma_chain_rows_extend(
    pre: Store,
    post: Store,
    lwm: LogWithMeta,
    s0: Store,
    logs: Seq<RawLogEntry>,
    k: int,
)
    requires
        0 <= k < logs.len(),
        sorted_by_position(logs),
        positions_fit(logs),
        lwm.block_number == logs[k].block_number,
        lwm.log_index == logs[k].log_index,
        crate::processor::spec_tables_after(pre, post, lwm, true),
        s0.messages().len() <= pre.messages().len(),
        s0.handshakes().len() <= pre.handshakes().len(),
        s0.handshake_responses().len() <= pre.handshake_responses().len(),
        rows_provenance(pre, s0, logs, k),
        appended_in_chain_order(pre, s0),
    ensures
        rows_provenance(post, s0, logs, k + 1),
        appended_in_chain_order(post, s0),
{
    lemma_chain_rows_widen(pre, s0, logs, k);
    assert forall|m: int| s0.messages().len() <= m < post.messages().len()
        implies #[trigger] msg_row_from(post.messages()[m], logs, k + 1) by {
        if m < pre.messages().len() {
            assert(post.messages()[m] == pre.messages()[m]);
            assert(msg_row_from(pre.messages()[m], logs, k + 1));
        } else {
            assert(post.messages()[m] == crate::processor::spec_message_row(pre, lwm));
            assert(0 <= k < k + 1 && logs[k].block_number as i64
                == post.messages()[m].block_number && logs[k].log_index as i64
                == post.messages()[m].log_index);
        }
    }
    assert forall|m: int| s0.handshakes().len() <= m < post.handshakes().len()
        implies #[trigger] hs_row_from(post.handshakes()[m], logs, k + 1) by {
        if m < pre.handshakes().len() {
            assert(post.handshakes()[m] == pre.handshakes()[m]);
            assert(hs_row_from(pre.handshakes()[m], logs, k + 1));
        } else {
            assert(post.handshakes()[m] == crate::processor::spec_handshake_row(pre, lwm));
            assert(0 <= k < k + 1 && logs[k].block_number as i64
                == post.handshakes()[m].block_number && logs[k].log_index as i64
                == post.handshakes()[m].log_index);
        }
    }
    assert forall|m: int| s0.handshake_responses().len() <= m < post.handshake_responses().len()
        implies #[trigger] hsr_row_from(post.handshake_responses()[m], logs, k + 1) by {
        if m < pre.handshake_responses().len() {
            assert(post.handshake_responses()[m] == pre.handshake_responses()[m]);
            assert(hsr_row_from(pre.handshake_responses()[m], logs, k + 1));
        } else {
            assert(post.handshake_responses()[m] == crate::processor::spec_hsr_row(pre, lwm));
            assert(0 <= k < k + 1 && logs[k].block_number as i64
                == post.handshake_responses()[m].block_number && logs[k].log_index as i64
                == post.handshake_responses()[m].log_index);
        }
    }
    assert forall|i: int, j: int|
        s0.messages().len() <= i < j < post.messages().len() implies pos_le_i64(
        (#[trigger] post.messages()[i]).block_number,
        post.messages()[i].log_index,
        (#[trigger] post.messages()[j]).block_number,
        post.messages()[j].log_index,
    ) by {
        if j < pre.messages().len() {
            assert(post.messages()[i] == pre.messages()[i]);
            assert(post.messages()[j] == pre.messages()[j]);
        } else if j == pre.messages().len() {
            assert(post.messages()[i] == pre.messages()[i]);
            assert(post.messages()[j] == crate::processor::spec_message_row(pre, lwm));
            assert(msg_row_from(pre.messages()[i], logs, k));
            let w = choose|w: int|
                0 <= w < k && (#[trigger] logs[w]).block_number as i64
                    == pre.messages()[i].block_number && logs[w].log_index as i64
                    == pre.messages()[i].log_index;
            assert(pos_le(logs[w], logs[k]));
        }
    }
    assert forall|i: int, j: int|
        s0.handshakes().len() <= i < j < post.handshakes().len() implies pos_le_i64(
        (#[trigger] post.handshakes()[i]).block_number,
        post.handshakes()[i].log_index,
        (#[trigger] post.handshakes()[j]).block_number,
        post.handshakes()[j].log_index,
    ) by {
        if j < pre.handshakes().len() {
            assert(post.handshakes()[i] == pre.handshakes()[i]);
            assert(post.handshakes()[j] == pre.handshakes()[j]);
        } else if j == pre.handshakes().len() {
            assert(post.handshakes()[i] == pre.handshakes()[i]);
            assert(post.handshakes()[j] == crate::processor::spec_handshake_row(pre, lwm));
            assert(hs_row_from(pre.handshakes()[i], logs, k));
            let w = choose|w: int|
                0 <= w < k && (#[trigger] logs[w]).block_number as i64
                    == pre.handshakes()[i].block_number && logs[w].log_index as i64
                    == pre.handshakes()[i].log_index;
            assert(pos_le(logs[w], logs[k]));
        }
    }
    assert forall|i: int, j: int|
        s0.handshake_responses().len() <= i < j < post.handshake_responses().len()
        implies pos_le_i64(
        (#[trigger] post.handshake_responses()[i]).block_number,
        post.handshake_responses()[i].log_index,
        (#[trigger] post.handshake_responses()[j]).block_number,
        post.handshake_responses()[j].log_index,
    ) by {
        if j < pre.handshake_responses().len() {
            assert(post.handshake_responses()[i] == pre.handshake_responses()[i]);
            assert(post.handshake_responses()[j] == pre.handshake_responses()[j]);
        } else if j == pre.handshake_responses().len() {
            assert(post.handshake_responses()[i] == pre.handshake_responses()[i]);
            assert(post.handshake_responses()[j] == crate::processor::spec_hsr_row(pre, lwm));
            assert(hsr_row_from(pre.handshake_responses()[i], logs, k));
            let w = choose|w: int|
                0 <= w < k && (#[trigger] logs[w]).block_number as i64
                    == pre.handshake_responses()[i].block_number && logs[w].log_index as i64
                    == pre.handshake_responses()[i].log_index;
            assert(pos_le(logs[w], logs[k]));
        }
    }
}

/// A replayed prefix grows by one entry whose accepted events are all
/// stored (vacuously so for an entry that no accepted event decodes
/// from).
proof fn lemma_replayed_prefix_extend(cur: Store, logs: Seq<RawLogEntry>, k: int)
    requires
        0 <= k < logs.len(),
        chunk_replayed(cur, logs.subrange(0, k)),
        forall|e: VerbethEvent|
            #[trigger] spec_entry_accepted(logs[k], e) ==> spec_event_present_at(
                cur,
                e,
                logs[k].block_number as i64,
                logs[k].log_index as i64,
            ),
    ensures
        chunk_replayed(cur, logs.subrange(0, k + 1)),
{
    let prefix = logs.subrange(0, k);
    let prefix1 = logs.subrange(0, k + 1);
    assert forall|i: int, e: VerbethEvent|
        0 <= i < prefix1.len() && #[trigger] spec_entry_accepted(prefix1[i], e)
        implies spec_event_present_at(
        cur,
        e,
        prefix1[i].block_number as i64,
        prefix1[i].log_index as i64,
    ) by {
        if i < k {
            assert(prefix1[i] == prefix[i]);
            assert(spec_entry_accepted(prefix[i], e));
        } else {
            assert(prefix1[i] == logs[k]);
        }
    }
}

/// Truncation to a signed word of the same width loses no distinctions.
proof fn lemma_u64_as_i64_injective(x: u64, y: u64)
    requires
        x as i64 == y as i64,
    ensures
        x == y,
{
    assert(x == y) by (bit_vector)
        requires
            x as i64 == y as i64,
    ;
}

/// Process one fetched chunk against the store: decode each log in the
/// given order, insert the known events with their cached block
/// timestamps, count an undecodable log — a foreign signature or
/// malformed data — as skipped, and advance the per-chunk checkpoint to
/// `chunk_end`.
///
/// The caller hands the logs sorted into chain order, as
/// [`sort_logs_by_position`] leaves them; the rows the chunk appends then
/// stand in ascending chain order, and their sequence numbers grow with
/// it. Replaying an already-indexed range changes no table, no counter
/// and no sequence number: every accepted event lands as a duplicate and
/// is only counted as skipped. A chunk over a range indexed for the first
/// time stores every accepted event.
pub fn process_chunk(
    processor: &EventProcessor,
    store: &mut Store,
    logs: &Vec<RawLogEntry>,
    cache: &TimestampCache,
    from_block: u64,
    chunk_end: u64,
    stats: &mut BackfillStats,
)
    requires
        old(store).inv(),
        from_block <= chunk_end,
        chunk_end - from_block < u64::MAX,
        old(stats).events_processed + logs@.len() <= u64::MAX,
        old(stats).events_skipped + logs@.len() <= u64::MAX,
    ensures
        final(store).inv(),
        crate::store::checkpoint_monotone(old(store).last_block(), final(store).last_block()),
        final(store).last_block() == match old(store).last_block() {
            None => Some(chunk_end as i64),
            Some(b) => Some(
                if b >= chunk_end as i64 {
                    b
                } else {
                    chunk_end as i64
                },
            ),
        },
        final(stats).blocks_processed == chunk_end - from_block + 1,
        appended_seqs_ascend(*final(store), *old(store)),
        (sorted_by_position(logs@) && positions_fit(logs@)) ==> appended_in_chain_order(
            *final(store),
            *old(store),
        ),
        table_headroom(*old(store), logs@.len() as int) ==> final(stats).events_processed
            + final(stats).events_skipped == old(stats).events_processed
            + old(stats).events_skipped + accepted_count(logs@) + undecodable_count(logs@),
        chunk_replayed(*old(store), logs@) ==> {
            &&& final(store).messages() == old(store).messages()
            &&& final(store).handshakes() == old(store).handshakes()
            &&& final(store).handshake_responses() == old(store).handshake_responses()
            &&& final(store).counters() == old(store).counters()
            &&& final(stats).events_processed == old(stats).events_processed
            &&& final(stats).events_skipped == old(stats).events_skipped + accepted_count(logs@)
                + undecodable_count(logs@)
        },
        (chunk_fresh(*old(store), logs@) && table_headroom(*old(store), logs@.len() as int)) ==> {
            &&& final(stats).events_processed == old(stats).events_processed + accepted_count(
                logs@,
            )
            &&& final(stats).events_skipped == old(stats).events_skipped + undecodable_count(
                logs@,
            )
            &&& chunk_replayed(*final(store), logs@)
        },
{
    let ghost s0 = *store;
    let ghost st0 = *stats;
    let n: usize = logs.len();
    let mut k: usize = 0;
    proof {
        assert forall|i: int, j: int| 0 <= i < j < s0.handshake_responses().len()
            implies s0.handshake_responses()[i].global_seq
            < s0.handshake_responses()[j].global_seq by {
            assert(s0.handshake_responses()[i].global_seq == i);
            assert(s0.handshake_responses()[j].global_seq == j);
        }
    }
    while k < n
        invariant
            store.inv(),
            n == logs@.len(),
            k <= n,
            st0.events_processed + logs@.len() <= u64::MAX,
            st0.events_skipped + logs@.len() <= u64::MAX,
            store.last_block() == s0.last_block(),
            stats.blocks_processed == st0.blocks_processed,
            st0.events_processed <= stats.events_processed,
            st0.events_skipped <= stats.events_skipped,
            stats.events_processed + stats.events_skipped <= st0.events_processed
                + st0.events_skipped + k,
            s0.messages().len() <= store.messages().len(),
            s0.handshakes().len() <= store.handshakes().len(),
            s0.handshake_responses().len() <= store.handshake_responses().len(),
            store.messages().len() + store.handshakes().len() + store.handshake_responses().len()
                <= s0.messages().len() + s0.handshakes().len() + s0.handshake_responses().len()
                + k,
            appended_seqs_ascend(*store, s0),
            (sorted_by_position(logs@) && positions_fit(logs@)) ==> {
                &&& rows_provenance(*store, s0, logs@, k as int)
                &&& appended_in_chain_order(*store, s0)
            },
            table_headroom(s0, logs@.len() as int) ==> stats.events_processed
                + stats.events_skipped == st0.events_processed + st0.events_skipped
                + accepted_count(logs@.subrange(0, k as int)) + undecodable_count(
                logs@.subrange(0, k as int),
            ),
            chunk_replayed(s0, logs@) ==> {
                &&& store.messages() == s0.messages()
                &&& store.handshakes() == s0.handshakes()
                &&& store.handshake_responses() == s0.handshake_responses()
                &&& store.counters() == s0.counters()
                &&& stats.events_processed == st0.events_processed
                &&& stats.events_skipped == st0.events_skipped + accepted_count(
                    logs@.subrange(0, k as int),
                ) + undecodable_count(logs@.subrange(0, k as int))
            },
            (chunk_fresh(s0, logs@) && table_headroom(s0, logs@.len() as int)) ==> {
                &&& stats.events_processed == st0.events_processed + accepted_count(
                    logs@.subrange(0, k as int),
                )
                &&& stats.events_skipped == st0.events_skipped + undecodable_count(
                    logs@.subrange(0, k as int),
                )
                &&& positions_from(*store, s0, logs@, k as int)
                &&& chunk_replayed(*store, logs@.subrange(0, k as int))
            },
        decreases n - k,
    {
        let entry = &logs[k];
        let ghost prefix = logs@.subrange(0, k as int);
        let ghost prefix1 = logs@.subrange(0, k as int + 1);
        proof {
            assert(prefix1.drop_last() =~= prefix);
            assert(prefix1.last() == logs@[k as int]);
        }
        match decode_log(&entry.log) {
            None => {
                proof {
                    assert forall|e: VerbethEvent|
                        !#[trigger] spec_entry_decodes_to(logs@[k as int], e) by {}
                    assert(spec_undecodable(logs@[k as int]));
                    if spec_accepted(logs@[k as int]) {
                        let e = choose|e: VerbethEvent|
                            spec_entry_accepted(logs@[k as int], e);
                        assert(spec_entry_decodes_to(logs@[k as int], e));
                        assert(false);
                    }
                    if sorted_by_position(logs@) && positions_fit(logs@) {
                        lemma_chain_rows_widen(*store, s0, logs@, k as int);
                    }
                    if chunk_fresh(s0, logs@) && table_headroom(s0, logs@.len() as int) {
                        lemma_positions_widen(*store, s0, logs@, k as int);
                        lemma_replayed_prefix_extend(*store, logs@, k as int);
                    }
                }
                // an undecodable log is skipped, and counted as skipped
                stats.events_skipped = stats.events_skipped + 1;
            }
            Some(event) => {
                let ghost ev = event;
                let bts: u64 = match cache.get(entry.block_number) {
                    Some(ts) => ts,
                    None => 0,
                };
                let lwm = LogWithMeta {
                    event,
                    block_number: entry.block_number,
                    log_index: entry.log_index,
                    block_timestamp: bts,
                };
                let ghost pre = *store;
                proof {
                    assert(spec_entry_decodes_to(logs@[k as int], ev));
                    assert(!spec_undecodable(logs@[k as int]));
                    // any accepted witness for this entry agrees with the
                    // decoded event in variant and payload sizes
                    if spec_accepted(logs@[k as int]) {
                        let e2 = choose|e2: VerbethEvent|
                            spec_entry_accepted(logs@[k as int], e2);
                        lemma_decode_deterministic(
                            topics_view(logs@[k as int].log.topics@),
                            logs@[k as int].log.data@,
                            ev,
                            e2,
                        );
                        assert(spec_size_violation(ev) is None);
                    }
                    if spec_size_violation(ev) is None {
                        assert(spec_entry_accepted(logs@[k as int], ev));
                        assert(spec_accepted(logs@[k as int]));
                    }
                    // under headroom no stream can be exhausted
                    if table_headroom(s0, logs@.len() as int) {
                        match ev {
                            VerbethEvent::MessageSent { topic, .. } => {
                                crate::store::lemma_msg_count_le_len(pre.messages(), topic@);
                            },
                            VerbethEvent::Handshake { recipient_hash, .. } => {
                                crate::store::lemma_hs_count_le_len(
                                    pre.handshakes(),
                                    recipient_hash@,
                                );
                            },
                            VerbethEvent::HandshakeResponse { .. } => {},
                        }
                        assert(!spec_stream_exhausted_for(pre, ev));
                    }
                    // under replay, the accepted event is already present
                    if chunk_replayed(s0, logs@) && spec_size_violation(ev) is None {
                        assert(spec_entry_accepted(logs@[k as int], ev));
                        assert(spec_event_present_at(
                            s0,
                            ev,
                            logs@[k as int].block_number as i64,
                            logs@[k as int].log_index as i64,
                        ));
                    }
                    // under freshness, it cannot be present yet: not in the
                    // pre-chunk store, and no earlier entry shares its
                    // chain position
                    if chunk_fresh(s0, logs@) && table_headroom(s0, logs@.len() as int)
                        && spec_size_violation(ev) is None {
                        let bnk = logs@[k as int].block_number as i64;
                        let lik = logs@[k as int].log_index as i64;
                        assert(spec_entry_accepted(logs@[k as int], ev));
                        assert(!spec_event_present_at(s0, ev, bnk, lik));
                        if spec_event_present_at(pre, ev, bnk, lik) {
                            let i = choose|i: int|
                                0 <= i < k && (#[trigger] logs@[i]).block_number as i64 == bnk
                                    && logs@[i].log_index as i64 == lik;
                            lemma_u64_as_i64_injective(
                                logs@[i].block_number,
                                logs@[k as int].block_number,
                            );
                            lemma_u64_as_i64_injective(
                                logs@[i].log_index,
                                logs@[k as int].log_index,
                            );
                            assert(false);
                        }
                    }
                }
                let res = processor.process(store, lwm);
                proof {
                    let ghost inserted = res == Result::<bool, crate::error::IndexerError>::Ok(
                        true,
                    );
                    lemma_seq_order_extend(pre, *store, lwm, inserted, s0);
                    if sorted_by_position(logs@) && positions_fit(logs@) {
                        if inserted {
                            lemma_chain_rows_extend(pre, *store, lwm, s0, logs@, k as int);
                        } else {
                            lemma_chain_rows_widen(*store, s0, logs@, k as int);
                        }
                    }
                    if chunk_fresh(s0, logs@) && table_headroom(s0, logs@.len() as int) {
                        if inserted {
                            lemma_positions_extend(*store, pre, s0, logs@, k as int, lwm);
                        } else {
                            lemma_positions_widen(*store, s0, logs@, k as int);
                        }
                        lemma_replayed_prefix_preserved(
                            pre,
                            *store,
                            lwm,
                            inserted,
                            logs@,
                            k as int,
                        );
                        if spec_size_violation(ev) is None {
                            lemma_entry_now_present(pre, *store, lwm, logs@, k as int);
                        }
                        lemma_replayed_prefix_extend(*store, logs@, k as int);
                    }
                }
                match res {
                    Ok(true) => {
                        stats.events_processed = stats.events_processed + 1;
                    }
                    Ok(false) => {
                        stats.events_skipped = stats.events_skipped + 1;
                    }
                    Err(_) => {}
                }
            }
        }
        k += 1;
    }
    proof {
        assert(logs@.subrange(0, n as int) =~= logs@);
    }
    stats.blocks_processed = chunk_end - from_block + 1;
    #[verifier::truncate]
    let end_i64: i64 = chunk_end as i64;
    store.set_last_processed_block(end_i64);
}

} // verus!
