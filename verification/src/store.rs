//! In-memory model of the event store: three event tables, the per-stream
//! sequence counters, and the `last_block` checkpoint.
//!
//! The store performs each sequence-consuming insert as one atomic step:
//! the duplicate test, the counter upsert and the row insert happen inside a
//! single call, and a duplicate leaves the counter untouched. The durability
//! layer that mirrors this model into an embedded database lives outside the
//! library.

use vstd::prelude::*;

use crate::models::{EventCounts, HandshakeRow, HsrRow, MessageRow};

verus! {

/// Which of the three logical streams a sequence counter belongs to.
#[derive(Clone, Copy, Debug, PartialEq, Eq, Structural)]
pub enum StreamKind {
    Message,
    Handshake,
    HandshakeResponse,
}

/// One row of the sequence-counter table: the next unassigned sequence
/// number of the stream identified by `(kind, key)`. `key` is `None` for the
/// single global handshake-response stream.
#[derive(Clone, Copy, Debug)]
pub struct SeqCounter {
    pub kind: StreamKind,
    pub key: Option<[u8; 32]>,
    pub next_seq: i64,
}

/// View of a counter key as the mathematical key it stands for.
pub open spec fn key_view(key: Option<[u8; 32]>) -> Option<Seq<u8>> {
    match key {
        Some(k) => Some(k@),
        None => None,
    }
}

/// Whether counter row `c` is the counter of stream `(kind, key)`.
pub open spec fn sc_matches(c: SeqCounter, kind: StreamKind, key: Option<Seq<u8>>) -> bool {
    c.kind == kind && key_view(c.key) == key
}

/// Value of the counter of stream `(kind, key)`: the first matching row, or
/// 0 where no row exists yet.
pub open spec fn counter_val(cs: Seq<SeqCounter>, kind: StreamKind, key: Option<Seq<u8>>) -> int
    decreases cs.len(),
{
    if cs.len() == 0 {
        0
    } else if sc_matches(cs[0], kind, key) {
        cs[0].next_seq as int
    } else {
        counter_val(cs.subrange(1, cs.len() as int), kind, key)
    }
}

/// Number of message rows whose topic is `t`.
pub open spec fn msg_count(rows: Seq<MessageRow>, t: Seq<u8>) -> int
    decreases rows.len(),
{
    if rows.len() == 0 {
        0
    } else {
        msg_count(rows.drop_last(), t) + if rows.last().topic@ == t {
            1int
        } else {
            0int
        }
    }
}

/// Number of handshake rows whose recipient hash is `t`.
pub open spec fn hs_count(rows: Seq<HandshakeRow>, t: Seq<u8>) -> int
    decreases rows.len(),
{
    if rows.len() == 0 {
        0
    } else {
        hs_count(rows.drop_last(), t) + if rows.last().recipient_hash@ == t {
            1int
        } else {
            0int
        }
    }
}

/// A per-topic count never exceeds the table length.
pub proof fn lemma_msg_count_le_len(rows: Seq<MessageRow>, t: Seq<u8>)
    ensures
        0 <= msg_count(rows, t) <= rows.len(),
    decreases rows.len(),
{
    if rows.len() > 0 {
        lemma_msg_count_le_len(rows.drop_last(), t);
    }
}

/// A per-recipient count never exceeds the table length.
pub proof fn lemma_hs_count_le_len(rows: Seq<HandshakeRow>, t: Seq<u8>)
    ensures
        0 <= hs_count(rows, t) <= rows.len(),
    decreases rows.len(),
{
    if rows.len() > 0 {
        lemma_hs_count_le_len(rows.drop_last(), t);
    }
}

/// A counter never reads above the largest storable sequence number.
pub proof fn lemma_counter_val_le_max(cs: Seq<SeqCounter>, kind: StreamKind, key: Option<Seq<u8>>)
    ensures
        counter_val(cs, kind, key) <= i64::MAX,
    decreases cs.len(),
{
    if cs.len() > 0 && !sc_matches(cs[0], kind, key) {
        lemma_counter_val_le_max(cs.subrange(1, cs.len() as int), kind, key);
    }
}

/// Whether a message row at chain position `(bn, li)` is already stored.
pub open spec fn msg_has_pos(rows: Seq<MessageRow>, bn: i64, li: i64) -> bool {
    exists|i: int|
        0 <= i < rows.len() && rows[i].block_number == bn && rows[i].log_index == li
}

/// Whether a handshake row at chain position `(bn, li)` is already stored.
pub open spec fn hs_has_pos(rows: Seq<HandshakeRow>, bn: i64, li: i64) -> bool {
    exists|i: int|
        0 <= i < rows.len() && rows[i].block_number == bn && rows[i].log_index == li
}

/// Whether a handshake-response row at chain position `(bn, li)` is already
/// stored.
pub open spec fn hsr_has_pos(rows: Seq<HsrRow>, bn: i64, li: i64) -> bool {
    exists|i: int|
        0 <= i < rows.len() && rows[i].block_number == bn && rows[i].log_index == li
}

/// The checkpoint does not regress: once set, it only moves forward.
pub open spec fn checkpoint_monotone(before: Option<i64>, after: Option<i64>) -> bool {
    match before {
        None => true,
        Some(b) => match after {
            Some(a) => a >= b,
            None => false,
        },
    }
}

/// The counter table holds at most one row per stream, and only
/// non-negative counter values.
pub open spec fn counters_wf_seq(cs: Seq<SeqCounter>) -> bool {
    &&& forall|i: int, j: int|
        0 <= i < j < cs.len() ==> !sc_matches(cs[i], cs[j].kind, key_view(cs[j].key))
    &&& forall|i: int| 0 <= i < cs.len() ==> cs[i].next_seq >= 0
}

/// Invariant of the store's data: counters mirror row counts, sequence
/// numbers are dense and unique per stream, chain positions are unique per
/// table, and every stored payload is within its protocol bound.
pub open spec fn store_inv(
    msgs: Seq<MessageRow>,
    hss: Seq<HandshakeRow>,
    hsrs: Seq<HsrRow>,
    cs: Seq<SeqCounter>,
) -> bool {
    // counter table shape
    &&& counters_wf_seq(cs)
    // counters mirror row counts, for present and absent counter rows alike
    &&& forall|t: Seq<u8>|
        #[trigger] counter_val(cs, StreamKind::Message, Some(t)) == msg_count(msgs, t)
    &&& forall|t: Seq<u8>|
        #[trigger] counter_val(cs, StreamKind::Handshake, Some(t)) == hs_count(hss, t)
    &&& counter_val(cs, StreamKind::HandshakeResponse, None) == hsrs.len()
    // kinds that take a key never pair with a keyless counter row, and
    // conversely
    &&& counter_val(cs, StreamKind::Message, None) == 0
    &&& counter_val(cs, StreamKind::Handshake, None) == 0
    &&& forall|t: Seq<u8>| #[trigger] counter_val(cs, StreamKind::HandshakeResponse, Some(t)) == 0
    // sequence numbers are in range per stream
    &&& forall|i: int|
        0 <= i < msgs.len() ==> 0 <= #[trigger] msgs[i].seq < msg_count(msgs, msgs[i].topic@)
    &&& forall|i: int|
        0 <= i < hss.len() ==> 0 <= #[trigger] hss[i].seq < hs_count(hss, hss[i].recipient_hash@)
    &&& forall|i: int| 0 <= i < hsrs.len() ==> #[trigger] hsrs[i].global_seq == i
    // sequence numbers are unique per stream
    &&& forall|i: int, j: int|
        0 <= i < j < msgs.len() && msgs[i].topic@ == msgs[j].topic@ ==> msgs[i].seq != msgs[j].seq
    &&& forall|i: int, j: int|
        0 <= i < j < hss.len() && hss[i].recipient_hash@ == hss[j].recipient_hash@ ==> hss[i].seq
            != hss[j].seq
    // chain positions are unique per table
    &&& forall|i: int, j: int|
        0 <= i < j < msgs.len() ==> !(msgs[i].block_number == msgs[j].block_number
            && msgs[i].log_index == msgs[j].log_index)
    &&& forall|i: int, j: int|
        0 <= i < j < hss.len() ==> !(hss[i].block_number == hss[j].block_number
            && hss[i].log_index == hss[j].log_index)
    &&& forall|i: int, j: int|
        0 <= i < j < hsrs.len() ==> !(hsrs[i].block_number == hsrs[j].block_number
            && hsrs[i].log_index == hsrs[j].log_index)
    // every stored payload is within its protocol bound
    &&& forall|i: int|
        0 <= i < msgs.len() ==> #[trigger] msgs[i].ciphertext@.len()
            <= crate::events::MAX_CIPHERTEXT_SIZE
    &&& forall|i: int|
        0 <= i < hss.len() ==> {
            &&& #[trigger] hss[i].pub_keys@.len() <= crate::events::MAX_PUB_KEYS_SIZE
            &&& hss[i].ephemeral_pub_key@.len() <= crate::events::MAX_EPHEMERAL_KEY_SIZE
            &&& hss[i].plaintext_payload@.len() <= crate::events::MAX_PLAINTEXT_PAYLOAD_SIZE
        }
    &&& forall|i: int|
        0 <= i < hsrs.len() ==> #[trigger] hsrs[i].ciphertext@.len()
            <= crate::events::MAX_HSR_CIPHERTEXT_SIZE
}

/// Appending a message row adds one to the count of its topic and leaves
/// every other count unchanged.
proof fn lemma_msg_count_push(rows: Seq<MessageRow>, r: MessageRow, t: Seq<u8>)
    ensures
        msg_count(rows.push(r), t) == msg_count(rows, t) + if r.topic@ == t {
            1int
        } else {
            0int
        },
{
    assert(rows.push(r).drop_last() =~= rows);
    assert(rows.push(r).last() == r);
}

/// Appending a handshake row adds one to the count of its recipient hash
/// and leaves every other count unchanged.
proof fn lemma_hs_count_push(rows: Seq<HandshakeRow>, r: HandshakeRow, t: Seq<u8>)
    ensures
        hs_count(rows.push(r), t) == hs_count(rows, t) + if r.recipient_hash@ == t {
            1int
        } else {
            0int
        },
{
    assert(rows.push(r).drop_last() =~= rows);
    assert(rows.push(r).last() == r);
}

/// View of an optional borrowed key as the mathematical key it stands for.
pub open spec fn opt_key_view(key: Option<&[u8; 32]>) -> Option<Seq<u8>> {
    match key {
        Some(k) => Some(k@),
        None => None,
    }
}

/// A counter lookup skips any prefix without a matching row.
proof fn lemma_counter_val_skip(cs: Seq<SeqCounter>, kind: StreamKind, key: Option<Seq<u8>>, i: int)
    requires
        0 <= i <= cs.len(),
        forall|k: int| 0 <= k < i ==> !sc_matches(cs[k], kind, key),
    ensures
        counter_val(cs, kind, key) == counter_val(cs.subrange(i, cs.len() as int), kind, key),
    decreases i,
{
    if i == 0 {
        assert(cs.subrange(0, cs.len() as int) =~= cs);
    } else {
        assert(!sc_matches(cs[0], kind, key));
        let tail = cs.subrange(1, cs.len() as int);
        assert forall|k: int| 0 <= k < i - 1 implies !sc_matches(tail[k], kind, key) by {
            assert(tail[k] == cs[k + 1]);
        }
        lemma_counter_val_skip(tail, kind, key, i - 1);
        assert(tail.subrange(i - 1, tail.len() as int) =~= cs.subrange(i, cs.len() as int));
    }
}

/// Replacing a counter row in place does not disturb the counter of any
/// other stream.
proof fn lemma_counter_val_update_other(
    cs: Seq<SeqCounter>,
    i: int,
    c: SeqCounter,
    kind: StreamKind,
    key: Option<Seq<u8>>,
) requires
        0 <= i < cs.len(),
        c.kind == cs[i].kind,
        key_view(c.key) == key_view(cs[i].key),
        !(kind == c.kind && key == key_view(c.key)),
    ensures
        counter_val(cs.update(i, c), kind, key) == counter_val(cs, kind, key),
    decreases cs.len(),
{
    let cs2 = cs.update(i, c);
    if i == 0 {
        assert(!sc_matches(cs2[0], kind, key));
        assert(!sc_matches(cs[0], kind, key));
        assert(cs2.subrange(1, cs2.len() as int) =~= cs.subrange(1, cs.len() as int));
    } else {
        assert(cs2[0] == cs[0]);
        if !sc_matches(cs[0], kind, key) {
            let tail = cs.subrange(1, cs.len() as int);
            lemma_counter_val_update_other(tail, i - 1, c, kind, key);
            assert(cs2.subrange(1, cs2.len() as int) =~= tail.update(i - 1, c));
        }
    }
}

/// Appending a counter row for one stream does not disturb the counter of
/// any other stream.
proof fn lemma_counter_val_push_other(
    cs: Seq<SeqCounter>,
    c: SeqCounter,
    kind: StreamKind,
    key: Option<Seq<u8>>,
) requires
        !sc_matches(c, kind, key),
    ensures
        counter_val(cs.push(c), kind, key) == counter_val(cs, kind, key),
    decreases cs.len(),
{
    let cs2 = cs.push(c);
    if cs.len() == 0 {
        assert(cs2[0] == c);
        assert(!sc_matches(cs2[0], kind, key));
        assert(cs2.subrange(1, cs2.len() as int) =~= Seq::<SeqCounter>::empty());
        assert(counter_val(Seq::<SeqCounter>::empty(), kind, key) == 0);
        assert(counter_val(cs2, kind, key) == 0);
    } else {
        assert(cs2[0] == cs[0]);
        if !sc_matches(cs[0], kind, key) {
            let tail = cs.subrange(1, cs.len() as int);
            lemma_counter_val_push_other(tail, c, kind, key);
            assert(cs2.subrange(1, cs2.len() as int) =~= tail.push(c));
            assert(counter_val(cs2, kind, key) == counter_val(tail.push(c), kind, key));
        }
    }
}

/// Whether a message row at chain position `(bn, li)` is stored.
fn contains_message_pos(rows: &Vec<MessageRow>, bn: i64, li: i64) -> (r: bool)
    ensures
        r == msg_has_pos(rows@, bn, li),
{
    let mut i: usize = 0;
    while i < rows.len()
        invariant
            i <= rows@.len(),
            forall|k: int|
                0 <= k < i ==> !(rows@[k].block_number == bn && rows@[k].log_index == li),
        decreases rows@.len() - i,
    {
        if rows[i].block_number == bn && rows[i].log_index == li {
            return true;
        }
        i += 1;
    }
    false
}

/// Whether a handshake row at chain position `(bn, li)` is stored.
fn contains_handshake_pos(rows: &Vec<HandshakeRow>, bn: i64, li: i64) -> (r: bool)
    ensures
        r == hs_has_pos(rows@, bn, li),
{
    let mut i: usize = 0;
    while i < rows.len()
        invariant
            i <= rows@.len(),
            forall|k: int|
                0 <= k < i ==> !(rows@[k].block_number == bn && rows@[k].log_index == li),
        decreases rows@.len() - i,
    {
        if rows[i].block_number == bn && rows[i].log_index == li {
            return true;
        }
        i += 1;
    }
    false
}

/// Whether a handshake-response row at chain position `(bn, li)` is stored.
fn contains_hsr_pos(rows: &Vec<HsrRow>, bn: i64, li: i64) -> (r: bool)
    ensures
        r == hsr_has_pos(rows@, bn, li),
{
    let mut i: usize = 0;
    while i < rows.len()
        invariant
            i <= rows@.len(),
            forall|k: int|
                0 <= k < i ==> !(rows@[k].block_number == bn && rows@[k].log_index == li),
        decreases rows@.len() - i,
    {
        if rows[i].block_number == bn && rows[i].log_index == li {
            return true;
        }
        i += 1;
    }
    false
}

/// Owned copy of an optional borrowed 32-byte key.
fn copy_key(key: Option<&[u8; 32]>) -> (r: Option<[u8; 32]>)
    ensures
        key_view(r) == opt_key_view(key),
{
    match key {
        Some(k) => Some(*k),
        None => None,
    }
}

/// Element-wise equality of two 32-byte keys.
fn bytes32_eq(a: &[u8; 32], b: &[u8; 32]) -> (r: bool)
    ensures
        r == (a@ == b@),
{
    let mut i: usize = 0;
    while i < 32
        invariant
            i <= 32,
            forall|k: int| 0 <= k < i ==> a@[k] == b@[k],
        decreases 32 - i,
    {
        if a[i] != b[i] {
            assert(a@[i as int] != b@[i as int]);
            return false;
        }
        i += 1;
    }
    assert(a@ =~= b@);
    true
}

/// Whether counter row `c` belongs to stream `(kind, key)`.
fn counter_entry_matches(c: &SeqCounter, kind: StreamKind, key: Option<&[u8; 32]>) -> (r: bool)
    ensures
        r == sc_matches(*c, kind, opt_key_view(key)),
{
    if c.kind != kind {
        return false;
    }
    match (key, &c.key) {
        (Some(a), Some(b)) => bytes32_eq(a, b),
        (None, None) => true,
        _ => false,
    }
}

/// Index of the counter row of stream `(kind, key)`, if one exists.
fn find_counter(counters: &Vec<SeqCounter>, kind: StreamKind, key: Option<&[u8; 32]>) -> (r:
    Option<usize>)
    ensures
        match r {
            Some(i) => {
                &&& i < counters@.len()
                &&& sc_matches(counters@[i as int], kind, opt_key_view(key))
                &&& forall|k: int|
                    0 <= k < i ==> !sc_matches(counters@[k], kind, opt_key_view(key))
                &&& counter_val(counters@, kind, opt_key_view(key)) == counters@[i as int].next_seq
            },
            None => {
                &&& forall|k: int|
                    0 <= k < counters@.len() ==> !sc_matches(counters@[k], kind, opt_key_view(key))
                &&& counter_val(counters@, kind, opt_key_view(key)) == 0
            },
        },
{
    let ghost okey = opt_key_view(key);
    let mut i: usize = 0;
    while i < counters.len()
        invariant
            i <= counters@.len(),
            okey == opt_key_view(key),
            forall|k: int| 0 <= k < i ==> !sc_matches(counters@[k], kind, okey),
        decreases counters@.len() - i,
    {
        if counter_entry_matches(&counters[i], kind, key) {
            proof {
                lemma_counter_val_skip(counters@, kind, okey, i as int);
            }
            return Some(i);
        }
        i += 1;
    }
    proof {
        lemma_counter_val_skip(counters@, kind, okey, counters@.len() as int);
        assert(counters@.subrange(counters@.len() as int, counters@.len() as int)
            =~= Seq::<SeqCounter>::empty());
    }
    None
}

/// The event store model.
pub struct Store {
    messages: Vec<MessageRow>,
    handshakes: Vec<HandshakeRow>,
    handshake_responses: Vec<HsrRow>,
    counters: Vec<SeqCounter>,
    last_block: Option<i64>,
}

impl Store {
    /// Stored message rows, oldest first.
    pub closed spec fn messages(&self) -> Seq<MessageRow> {
        self.messages@
    }

    /// Stored handshake rows, oldest first.
    pub closed spec fn handshakes(&self) -> Seq<HandshakeRow> {
        self.handshakes@
    }

    /// Stored handshake-response rows, oldest first.
    pub closed spec fn handshake_responses(&self) -> Seq<HsrRow> {
        self.handshake_responses@
    }

    /// The sequence-counter table.
    pub closed spec fn counters(&self) -> Seq<SeqCounter> {
        self.counters@
    }

    /// The checkpoint: every block up to and including it has been committed
    /// or deliberately skipped. `None` until first written.
    pub closed spec fn last_block(&self) -> Option<i64> {
        self.last_block
    }

    /// The counter table holds at most one row per stream, and only
    /// non-negative counter values.
    pub open spec fn counters_wf(&self) -> bool {
        counters_wf_seq(self.counters())
    }

    /// Full store invariant.
    ///
    /// Ties every counter to the number of stored rows of its stream, keeps
    /// sequence numbers dense and unique per stream, keeps chain positions
    /// unique per table, and keeps every stored payload within its protocol
    /// bound.
    pub open spec fn inv(&self) -> bool {
        store_inv(self.messages(), self.handshakes(), self.handshake_responses(), self.counters())
    }

    /// Open an empty store, as the schema migration leaves a fresh database.
    pub fn new() -> (s: Store)
        ensures
            s.inv(),
            s.messages() =~= Seq::<MessageRow>::empty(),
            s.handshakes() =~= Seq::<HandshakeRow>::empty(),
            s.handshake_responses() =~= Seq::<HsrRow>::empty(),
            s.counters() =~= Seq::<SeqCounter>::empty(),
            s.last_block() is None,
    {
        Store {
            messages: Vec::new(),
            handshakes: Vec::new(),
            handshake_responses: Vec::new(),
            counters: Vec::new(),
            last_block: None,
        }
    }

    /// The checkpoint, or `None` if never written.
    pub fn get_last_processed_block(&self) -> (r: Option<i64>)
        ensures
            r == self.last_block(),
    {
        self.last_block
    }

    /// Advance the checkpoint to `block`, monotonically: a write below the
    /// current checkpoint leaves it unchanged, so `last_block` never
    /// regresses.
    pub fn set_last_processed_block(&mut self, block: i64)
        ensures
            checkpoint_monotone(old(self).last_block(), final(self).last_block()),
            final(self).messages() == old(self).messages(),
            final(self).handshakes() == old(self).handshakes(),
            final(self).handshake_responses() == old(self).handshake_responses(),
            final(self).counters() == old(self).counters(),
            final(self).last_block() == match old(self).last_block() {
                None => Some(block),
                Some(b) => Some(if b >= block { b } else { block }),
            },
            old(self).inv() ==> final(self).inv(),
    {
        match self.last_block {
            None => {
                self.last_block = Some(block);
            }
            Some(b) => {
                if block > b {
                    self.last_block = Some(block);
                }
            }
        }
    }

    /// The Sequencer: read the next sequence number of stream `(kind, key)`
    /// (0 where no counter row exists yet) and write back its successor, in
    /// one step.
    ///
    /// This is the counter half of the insert transaction. On its own it
    /// advances the counter without storing a row, which is exactly the
    /// naive two-step that loses gap-freeness; the `insert_*` operations
    /// call it and re-establish the full invariant by storing the row that
    /// consumes the number.
    pub fn get_and_increment_seq(&mut self, kind: StreamKind, key: Option<&[u8; 32]>) -> (r:
        Result<i64, crate::error::IndexerError>)
        requires
            old(self).counters_wf(),
        ensures
            final(self).messages() == old(self).messages(),
            final(self).handshakes() == old(self).handshakes(),
            final(self).handshake_responses() == old(self).handshake_responses(),
            final(self).last_block() == old(self).last_block(),
            final(self).counters_wf(),
            (r is Err) <==> counter_val(old(self).counters(), kind, opt_key_view(key))
                == i64::MAX,
            match r {
                Ok(n) => {
                    &&& 0 <= n < i64::MAX
                    &&& n == counter_val(old(self).counters(), kind, opt_key_view(key))
                    &&& counter_val(final(self).counters(), kind, opt_key_view(key)) == n + 1
                    &&& forall|k2: StreamKind, q2: Option<Seq<u8>>|
                        !(k2 == kind && q2 == opt_key_view(key)) ==> #[trigger] counter_val(
                            final(self).counters(),
                            k2,
                            q2,
                        ) == counter_val(old(self).counters(), k2, q2)
                },
                Err(e) => {
                    &&& final(self).counters() == old(self).counters()
                    &&& e is Database
                },
            },
    {
        let ghost okey = opt_key_view(key);
        let ghost cs0 = self.counters@;
        match find_counter(&self.counters, kind, key) {
            Some(i) => {
                let entry = self.counters[i];
                if entry.next_seq == i64::MAX {
                    return Err(crate::error::IndexerError::Database(
                        "sequence counter exhausted".to_string(),
                    ));
                }
                let n = entry.next_seq;
                let updated = SeqCounter { next_seq: n + 1, ..entry };
                self.counters.set(i, updated);
                proof {
                    let cs1 = self.counters@;
                    assert(cs1 =~= cs0.update(i as int, updated));
                    // the updated row is still the first match, so the
                    // counter of this stream now reads n + 1
                    assert forall|k: int| 0 <= k < i implies !sc_matches(cs1[k], kind, okey) by {
                        assert(cs1[k] == cs0[k]);
                    }
                    lemma_counter_val_skip(cs1, kind, okey, i as int);
                    assert(cs1.subrange(i as int, cs1.len() as int)[0] == updated);
                    // counters of other streams are untouched
                    assert forall|k2: StreamKind, q2: Option<Seq<u8>>|
                        !(k2 == kind && q2 == okey) implies #[trigger] counter_val(cs1, k2, q2)
                        == counter_val(cs0, k2, q2) by {
                        lemma_counter_val_update_other(cs0, i as int, updated, k2, q2);
                    }
                }
                Ok(n)
            }
            None => {
                let fresh = SeqCounter { kind, key: copy_key(key), next_seq: 1 };
                self.counters.push(fresh);
                proof {
                    let cs1 = self.counters@;
                    assert(cs1 =~= cs0.push(fresh));
                    assert(key_view(fresh.key) == okey);
                    assert forall|k: int| 0 <= k < cs0.len() implies !sc_matches(
                        cs1[k],
                        kind,
                        okey,
                    ) by {
                        assert(cs1[k] == cs0[k]);
                    }
                    lemma_counter_val_skip(cs1, kind, okey, cs0.len() as int);
                    assert(cs1.subrange(cs0.len() as int, cs1.len() as int)[0] == fresh);
                    assert(counter_val(cs1, kind, okey) == 1);
                    assert forall|k2: StreamKind, q2: Option<Seq<u8>>|
                        !(k2 == kind && q2 == okey) implies #[trigger] counter_val(cs1, k2, q2)
                        == counter_val(cs0, k2, q2) by {
                        lemma_counter_val_push_other(cs0, fresh, k2, q2);
                    }
                }
                Ok(0)
            }
        }
    }

    /// Insert one `MessageSent` event as a single transaction: the
    /// duplicate test on its chain position, the sequence assignment and the
    /// row insert happen together, and a duplicate consumes no sequence
    /// number.
    ///
    /// `row.seq` is assigned by the store; an incoming value is ignored.
    /// Returns `Ok(true)` on a fresh insert and `Ok(false)` on a duplicate.
    pub fn insert_message(&mut self, row: MessageRow) -> (r: Result<
        bool,
        crate::error::IndexerError,
    >)
        requires
            old(self).inv(),
            row.ciphertext@.len() <= crate::events::MAX_CIPHERTEXT_SIZE,
        ensures
            final(self).inv(),
            final(self).handshakes() == old(self).handshakes(),
            final(self).handshake_responses() == old(self).handshake_responses(),
            final(self).last_block() == old(self).last_block(),
            (r is Err) <==> (!msg_has_pos(old(self).messages(), row.block_number, row.log_index)
                && msg_count(old(self).messages(), row.topic@) == i64::MAX),
            match r {
                Ok(inserted) => {
                    if inserted {
                        &&& !msg_has_pos(old(self).messages(), row.block_number, row.log_index)
                        &&& final(self).messages() == old(self).messages().push(
                            (MessageRow {
                                seq: msg_count(old(self).messages(), row.topic@) as i64,
                                ..row
                            }),
                        )
                        &&& forall|k2: StreamKind, q2: Option<Seq<u8>>|
                            !(k2 == StreamKind::Message && q2 == Some(row.topic@))
                                ==> #[trigger] counter_val(final(self).counters(), k2, q2)
                                == counter_val(old(self).counters(), k2, q2)
                    } else {
                        &&& msg_has_pos(old(self).messages(), row.block_number, row.log_index)
                        &&& final(self).messages() == old(self).messages()
                        &&& final(self).counters() == old(self).counters()
                    }
                },
                Err(e) => {
                    &&& e is Database
                    &&& final(self).messages() == old(self).messages()
                    &&& final(self).counters() == old(self).counters()
                },
            },
    {
        if contains_message_pos(&self.messages, row.block_number, row.log_index) {
            return Ok(false);
        }
        let ghost msgs0 = self.messages@;
        let ghost cs0 = self.counters@;
        let seq: i64 = match self.get_and_increment_seq(StreamKind::Message, Some(&row.topic)) {
            Ok(n) => n,
            Err(e) => {
                return Err(e);
            }
        };
        proof {
            assert(seq == msg_count(msgs0, row.topic@));
        }
        let new_row = MessageRow { seq, ..row };
        self.messages.push(new_row);
        proof {
            let msgs1 = self.messages@;
            let cs1 = self.counters@;
            assert(msgs1 =~= msgs0.push(new_row));
            assert forall|t: Seq<u8>| #[trigger] counter_val(cs1, StreamKind::Message, Some(t))
                == msg_count(msgs1, t) by {
                lemma_msg_count_push(msgs0, new_row, t);
                if t != row.topic@ {
                    assert(counter_val(cs1, StreamKind::Message, Some(t)) == counter_val(
                        cs0,
                        StreamKind::Message,
                        Some(t),
                    ));
                }
            }
            assert forall|t: Seq<u8>| #[trigger] counter_val(cs1, StreamKind::Handshake, Some(t))
                == hs_count(self.handshakes@, t) by {
                assert(counter_val(cs1, StreamKind::Handshake, Some(t)) == counter_val(
                    cs0,
                    StreamKind::Handshake,
                    Some(t),
                ));
            }
            assert forall|t: Seq<u8>| #[trigger] counter_val(
                cs1,
                StreamKind::HandshakeResponse,
                Some(t),
            ) == 0 by {
                assert(counter_val(cs1, StreamKind::HandshakeResponse, Some(t)) == counter_val(
                    cs0,
                    StreamKind::HandshakeResponse,
                    Some(t),
                ));
            }
            assert forall|i: int| 0 <= i < msgs1.len() implies 0 <= #[trigger] msgs1[i].seq
                < msg_count(msgs1, msgs1[i].topic@) by {
                lemma_msg_count_push(msgs0, new_row, msgs1[i].topic@);
                if i < msgs0.len() {
                    assert(msgs1[i] == msgs0[i]);
                } else {
                    assert(msgs1[i] == new_row);
                }
            }
            assert forall|i: int, j: int|
                0 <= i < j < msgs1.len() && msgs1[i].topic@ == msgs1[j].topic@ implies msgs1[i].seq
                != msgs1[j].seq by {
                if j == msgs0.len() {
                    assert(msgs1[i] == msgs0[i]);
                    assert(msgs1[j] == new_row);
                }
            }
            assert(self.inv());
        }
        Ok(true)
    }

    /// Insert one `Handshake` event as a single transaction, as
    /// [`Store::insert_message`] does for messages.
    ///
    /// `row.seq` is assigned by the store; an incoming value is ignored.
    pub fn insert_handshake(&mut self, row: HandshakeRow) -> (r: Result<
        bool,
        crate::error::IndexerError,
    >)
        requires
            old(self).inv(),
            row.pub_keys@.len() <= crate::events::MAX_PUB_KEYS_SIZE,
            row.ephemeral_pub_key@.len() <= crate::events::MAX_EPHEMERAL_KEY_SIZE,
            row.plaintext_payload@.len() <= crate::events::MAX_PLAINTEXT_PAYLOAD_SIZE,
        ensures
            final(self).inv(),
            final(self).messages() == old(self).messages(),
            final(self).handshake_responses() == old(self).handshake_responses(),
            final(self).last_block() == old(self).last_block(),
            (r is Err) <==> (!hs_has_pos(old(self).handshakes(), row.block_number, row.log_index)
                && hs_count(old(self).handshakes(), row.recipient_hash@) == i64::MAX),
            match r {
                Ok(inserted) => {
                    if inserted {
                        &&& !hs_has_pos(old(self).handshakes(), row.block_number, row.log_index)
                        &&& final(self).handshakes() == old(self).handshakes().push(
                            (HandshakeRow {
                                seq: hs_count(old(self).handshakes(), row.recipient_hash@) as i64,
                                ..row
                            }),
                        )
                        &&& forall|k2: StreamKind, q2: Option<Seq<u8>>|
                            !(k2 == StreamKind::Handshake && q2 == Some(row.recipient_hash@))
                                ==> #[trigger] counter_val(final(self).counters(), k2, q2)
                                == counter_val(old(self).counters(), k2, q2)
                    } else {
                        &&& hs_has_pos(old(self).handshakes(), row.block_number, row.log_index)
                        &&& final(self).handshakes() == old(self).handshakes()
                        &&& final(self).counters() == old(self).counters()
                    }
                },
                Err(e) => {
                    &&& e is Database
                    &&& final(self).handshakes() == old(self).handshakes()
                    &&& final(self).counters() == old(self).counters()
                },
            },
    {
        if contains_handshake_pos(&self.handshakes, row.block_number, row.log_index) {
            return Ok(false);
        }
        let ghost hss0 = self.handshakes@;
        let ghost cs0 = self.counters@;
        let seq: i64 = match self.get_and_increment_seq(
            StreamKind::Handshake,
            Some(&row.recipient_hash),
        ) {
            Ok(n) => n,
            Err(e) => {
                return Err(e);
            }
        };
        proof {
            assert(seq == hs_count(hss0, row.recipient_hash@));
        }
        let new_row = HandshakeRow { seq, ..row };
        self.handshakes.push(new_row);
        proof {
            let hss1 = self.handshakes@;
            let cs1 = self.counters@;
            assert(hss1 =~= hss0.push(new_row));
            assert forall|t: Seq<u8>| #[trigger] counter_val(cs1, StreamKind::Handshake, Some(t))
                == hs_count(hss1, t) by {
                lemma_hs_count_push(hss0, new_row, t);
                if t != row.recipient_hash@ {
                    assert(counter_val(cs1, StreamKind::Handshake, Some(t)) == counter_val(
                        cs0,
                        StreamKind::Handshake,
                        Some(t),
                    ));
                }
            }
            assert forall|t: Seq<u8>| #[trigger] counter_val(cs1, StreamKind::Message, Some(t))
                == msg_count(self.messages@, t) by {
                assert(counter_val(cs1, StreamKind::Message, Some(t)) == counter_val(
                    cs0,
                    StreamKind::Message,
                    Some(t),
                ));
            }
            assert forall|t: Seq<u8>| #[trigger] counter_val(
                cs1,
                StreamKind::HandshakeResponse,
                Some(t),
            ) == 0 by {
                assert(counter_val(cs1, StreamKind::HandshakeResponse, Some(t)) == counter_val(
                    cs0,
                    StreamKind::HandshakeResponse,
                    Some(t),
                ));
            }
            assert forall|i: int| 0 <= i < hss1.len() implies 0 <= #[trigger] hss1[i].seq
                < hs_count(hss1, hss1[i].recipient_hash@) by {
                lemma_hs_count_push(hss0, new_row, hss1[i].recipient_hash@);
                if i < hss0.len() {
                    assert(hss1[i] == hss0[i]);
                } else {
                    assert(hss1[i] == new_row);
                }
            }
            assert forall|i: int, j: int|
                0 <= i < j < hss1.len() && hss1[i].recipient_hash@ == hss1[j].recipient_hash@
                implies hss1[i].seq != hss1[j].seq by {
                if j == hss0.len() {
                    assert(hss1[i] == hss0[i]);
                    assert(hss1[j] == new_row);
                }
            }
            assert(counter_val(cs1, StreamKind::HandshakeResponse, None)
                == self.handshake_responses@.len());
            assert(counter_val(cs1, StreamKind::Message, None) == 0);
            assert(counter_val(cs1, StreamKind::Handshake, None) == 0);
            assert forall|i: int, j: int| 0 <= i < j < hss1.len() implies !(hss1[i].block_number
                == hss1[j].block_number && hss1[i].log_index == hss1[j].log_index) by {
                if j == hss0.len() {
                    assert(hss1[i] == hss0[i]);
                    assert(hss1[j] == new_row);
                }
            }
            assert forall|i: int| 0 <= i < hss1.len() implies {
                &&& #[trigger] hss1[i].pub_keys@.len() <= crate::events::MAX_PUB_KEYS_SIZE
                &&& hss1[i].ephemeral_pub_key@.len() <= crate::events::MAX_EPHEMERAL_KEY_SIZE
                &&& hss1[i].plaintext_payload@.len() <= crate::events::MAX_PLAINTEXT_PAYLOAD_SIZE
            } by {
                if i < hss0.len() {
                    assert(hss1[i] == hss0[i]);
                } else {
                    assert(hss1[i] == new_row);
                }
            }
            assert(self.inv());
        }
        Ok(true)
    }

    /// Insert one `HandshakeResponse` event as a single transaction on the
    /// global stream, as [`Store::insert_message`] does for messages.
    ///
    /// `row.global_seq` is assigned by the store; an incoming value is
    /// ignored.
    pub fn insert_hsr(&mut self, row: HsrRow) -> (r: Result<bool, crate::error::IndexerError>)
        requires
            old(self).inv(),
            row.ciphertext@.len() <= crate::events::MAX_HSR_CIPHERTEXT_SIZE,
        ensures
            final(self).inv(),
            final(self).messages() == old(self).messages(),
            final(self).handshakes() == old(self).handshakes(),
            final(self).last_block() == old(self).last_block(),
            (r is Err) <==> (!hsr_has_pos(
                old(self).handshake_responses(),
                row.block_number,
                row.log_index,
            ) && old(self).handshake_responses().len() == i64::MAX),
            match r {
                Ok(inserted) => {
                    if inserted {
                        &&& !hsr_has_pos(
                            old(self).handshake_responses(),
                            row.block_number,
                            row.log_index,
                        )
                        &&& final(self).handshake_responses() == old(
                            self,
                        ).handshake_responses().push(
                            (HsrRow {
                                global_seq: old(self).handshake_responses().len() as i64,
                                ..row
                            }),
                        )
                        &&& forall|k2: StreamKind, q2: Option<Seq<u8>>|
                            !(k2 == StreamKind::HandshakeResponse && q2 is None)
                                ==> #[trigger] counter_val(final(self).counters(), k2, q2)
                                == counter_val(old(self).counters(), k2, q2)
                    } else {
                        &&& hsr_has_pos(
                            old(self).handshake_responses(),
                            row.block_number,
                            row.log_index,
                        )
                        &&& final(self).handshake_responses() == old(self).handshake_responses()
                        &&& final(self).counters() == old(self).counters()
                    }
                },
                Err(e) => {
                    &&& e is Database
                    &&& final(self).handshake_responses() == old(self).handshake_responses()
                    &&& final(self).counters() == old(self).counters()
                },
            },
    {
        if contains_hsr_pos(&self.handshake_responses, row.block_number, row.log_index) {
            return Ok(false);
        }
        let ghost hsrs0 = self.handshake_responses@;
        let ghost cs0 = self.counters@;
        let seq: i64 = match self.get_and_increment_seq(StreamKind::HandshakeResponse, None) {
            Ok(n) => n,
            Err(e) => {
                return Err(e);
            }
        };
        proof {
            assert(seq == hsrs0.len());
        }
        let new_row = HsrRow { global_seq: seq, ..row };
        self.handshake_responses.push(new_row);
        proof {
            let hsrs1 = self.handshake_responses@;
            let cs1 = self.counters@;
            assert(hsrs1 =~= hsrs0.push(new_row));
            assert forall|t: Seq<u8>| #[trigger] counter_val(cs1, StreamKind::Message, Some(t))
                == msg_count(self.messages@, t) by {
                assert(counter_val(cs1, StreamKind::Message, Some(t)) == counter_val(
                    cs0,
                    StreamKind::Message,
                    Some(t),
                ));
            }
            assert forall|t: Seq<u8>| #[trigger] counter_val(cs1, StreamKind::Handshake, Some(t))
                == hs_count(self.handshakes@, t) by {
                assert(counter_val(cs1, StreamKind::Handshake, Some(t)) == counter_val(
                    cs0,
                    StreamKind::Handshake,
                    Some(t),
                ));
            }
            assert forall|t: Seq<u8>| #[trigger] counter_val(
                cs1,
                StreamKind::HandshakeResponse,
                Some(t),
            ) == 0 by {
                assert(counter_val(cs1, StreamKind::HandshakeResponse, Some(t)) == counter_val(
                    cs0,
                    StreamKind::HandshakeResponse,
                    Some(t),
                ));
            }
            assert forall|i: int| 0 <= i < hsrs1.len() implies #[trigger] hsrs1[i].global_seq
                == i by {
                if i < hsrs0.len() {
                    assert(hsrs1[i] == hsrs0[i]);
                } else {
                    assert(hsrs1[i] == new_row);
                }
            }
            assert(counter_val(cs1, StreamKind::HandshakeResponse, None) == hsrs1.len());
            assert forall|i: int, j: int| 0 <= i < j < hsrs1.len() implies !(
            hsrs1[i].block_number == hsrs1[j].block_number && hsrs1[i].log_index
                == hsrs1[j].log_index) by {
                if j == hsrs0.len() {
                    assert(hsrs1[i] == hsrs0[i]);
                    assert(hsrs1[j] == new_row);
                }
            }
            assert forall|i: int| 0 <= i < hsrs1.len() implies #[trigger] hsrs1[i].ciphertext@.len()
                <= crate::events::MAX_HSR_CIPHERTEXT_SIZE by {
                if i < hsrs0.len() {
                    assert(hsrs1[i] == hsrs0[i]);
                } else {
                    assert(hsrs1[i] == new_row);
                }
            }
            assert(self.inv());
        }
        Ok(true)
    }

    /// The stored message rows, oldest first.
    pub fn get_messages(&self) -> (r: &Vec<MessageRow>)
        ensures
            r@ == self.messages(),
    {
        &self.messages
    }

    /// The stored handshake rows, oldest first.
    pub fn get_handshakes(&self) -> (r: &Vec<HandshakeRow>)
        ensures
            r@ == self.handshakes(),
    {
        &self.handshakes
    }

    /// The stored handshake-response rows, oldest first.
    pub fn get_handshake_responses(&self) -> (r: &Vec<HsrRow>)
        ensures
            r@ == self.handshake_responses(),
    {
        &self.handshake_responses
    }

    /// The next sequence number of stream `(kind, key)`, without consuming
    /// it.
    pub fn get_next_seq(&self, kind: StreamKind, key: Option<&[u8; 32]>) -> (r: i64)
        ensures
            r == counter_val(self.counters(), kind, opt_key_view(key)),
    {
        match find_counter(&self.counters, kind, key) {
            Some(i) => self.counters[i].next_seq,
            None => 0,
        }
    }

    /// Number of stored events per table, saturating at `i64::MAX`.
    pub fn get_event_counts(&self) -> (r: EventCounts)
        ensures
            self.messages().len() <= i64::MAX ==> r.messages == self.messages().len(),
            self.handshakes().len() <= i64::MAX ==> r.handshakes == self.handshakes().len(),
            self.handshake_responses().len() <= i64::MAX ==> r.handshake_responses
                == self.handshake_responses().len(),
            r.messages >= 0 && r.handshakes >= 0 && r.handshake_responses >= 0,
            (r.messages == 0) == (self.messages().len() == 0),
            (r.handshakes == 0) == (self.handshakes().len() == 0),
            (r.handshake_responses == 0) == (self.handshake_responses().len() == 0),
    {
        EventCounts {
            messages: saturating_len_i64(self.messages.len()),
            handshakes: saturating_len_i64(self.handshakes.len()),
            handshake_responses: saturating_len_i64(self.handshake_responses.len()),
        }
    }

    /// Whether no event of any stream is stored.
    pub fn is_db_empty(&self) -> (r: bool)
        ensures
            r == (self.messages().len() == 0 && self.handshakes().len() == 0
                && self.handshake_responses().len() == 0),
    {
        let counts = self.get_event_counts();
        counts.messages == 0 && counts.handshakes == 0 && counts.handshake_responses == 0
    }
}

/// A table length as `i64`, saturating at `i64::MAX`.
fn saturating_len_i64(n: usize) -> (r: i64)
    ensures
        n <= i64::MAX ==> r == n,
        r >= 0,
        (r == 0) == (n == 0),
{
    if n as u64 <= i64::MAX as u64 {
        n as i64
    } else {
        i64::MAX
    }
}

} // verus!
