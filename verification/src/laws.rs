//! Stream-level laws of the store invariant: per-stream sequence numbers
//! are exactly `{0, …, N−1}` (gap-freeness) and every `(stream key, seq)`
//! pair names at most one stored record.

use vstd::prelude::*;
use vstd::set_lib::{lemma_int_range, lemma_len_subset, set_int_range};

use crate::models::{HandshakeRow, MessageRow};
use crate::store::{hs_count, msg_count, Store};

verus! {

/// Whether some stored message with topic `t` carries sequence number `q`.
pub open spec fn msg_has_seq(rows: Seq<MessageRow>, t: Seq<u8>, q: int) -> bool {
    exists|i: int| 0 <= i < rows.len() && rows[i].topic@ == t && rows[i].seq == q
}

/// Whether some stored handshake with recipient hash `t` carries sequence
/// number `q`.
pub open spec fn hs_has_seq(rows: Seq<HandshakeRow>, t: Seq<u8>, q: int) -> bool {
    exists|i: int| 0 <= i < rows.len() && rows[i].recipient_hash@ == t && rows[i].seq == q
}

/// A stream key paired with one assigned sequence number.
pub open spec fn msg_pairs(rows: Seq<MessageRow>) -> Seq<(Seq<u8>, int)> {
    rows.map(|i: int, r: MessageRow| (r.topic@, r.seq as int))
}

/// A stream key paired with one assigned sequence number.
pub open spec fn hs_pairs(rows: Seq<HandshakeRow>) -> Seq<(Seq<u8>, int)> {
    rows.map(|i: int, r: HandshakeRow| (r.recipient_hash@, r.seq as int))
}

/// Number of pairs carrying stream key `t`.
pub open spec fn pair_count(ps: Seq<(Seq<u8>, int)>, t: Seq<u8>) -> int
    decreases ps.len(),
{
    if ps.len() == 0 {
        0
    } else {
        pair_count(ps.drop_last(), t) + if ps.last().0 == t {
            1int
        } else {
            0int
        }
    }
}

/// The set of sequence numbers assigned under stream key `t`.
pub open spec fn pair_seqs(ps: Seq<(Seq<u8>, int)>, t: Seq<u8>) -> Set<int>
    decreases ps.len(),
{
    if ps.len() == 0 {
        Set::empty()
    } else if ps.last().0 == t {
        pair_seqs(ps.drop_last(), t).insert(ps.last().1)
    } else {
        pair_seqs(ps.drop_last(), t)
    }
}

/// Membership in `pair_seqs` is witnessed by a pair, and conversely.
proof fn lemma_pair_seqs_contains(ps: Seq<(Seq<u8>, int)>, t: Seq<u8>, q: int)
    ensures
        pair_seqs(ps, t).contains(q) <==> exists|i: int|
            0 <= i < ps.len() && ps[i].0 == t && ps[i].1 == q,
    decreases ps.len(),
{
    if ps.len() > 0 {
        lemma_pair_seqs_contains(ps.drop_last(), t, q);
        let n = ps.len() - 1;
        if pair_seqs(ps, t).contains(q) {
            if !(ps.last().0 == t && ps.last().1 == q) {
                let i = choose|i: int|
                    0 <= i < ps.drop_last().len() && ps.drop_last()[i].0 == t
                        && ps.drop_last()[i].1 == q;
                assert(ps[i] == ps.drop_last()[i]);
            }
        }
        if exists|i: int| 0 <= i < ps.len() && ps[i].0 == t && ps[i].1 == q {
            let i = choose|i: int| 0 <= i < ps.len() && ps[i].0 == t && ps[i].1 == q;
            if i < n {
                assert(ps.drop_last()[i] == ps[i]);
            }
        }
    }
}

/// With sequence numbers unique per stream key, the set of assigned
/// numbers is as large as the number of pairs.
proof fn lemma_pair_seqs_card(ps: Seq<(Seq<u8>, int)>, t: Seq<u8>)
    requires
        forall|i: int, j: int|
            0 <= i < j < ps.len() && ps[i].0 == t && ps[j].0 == t ==> ps[i].1 != ps[j].1,
    ensures
        pair_seqs(ps, t).finite(),
        pair_seqs(ps, t).len() == pair_count(ps, t),
    decreases ps.len(),
{
    if ps.len() > 0 {
        let prefix = ps.drop_last();
        assert forall|i: int, j: int|
            0 <= i < j < prefix.len() && prefix[i].0 == t && prefix[j].0 == t implies prefix[i].1
            != prefix[j].1 by {
            assert(prefix[i] == ps[i]);
            assert(prefix[j] == ps[j]);
        }
        lemma_pair_seqs_card(prefix, t);
        if ps.last().0 == t {
            lemma_pair_seqs_contains(prefix, t, ps.last().1);
            assert forall|i: int|
                0 <= i < prefix.len() && prefix[i].0 == t implies prefix[i].1 != ps.last().1 by {
                assert(prefix[i] == ps[i]);
                assert(ps.last() == ps[ps.len() - 1]);
            }
            assert(!pair_seqs(prefix, t).contains(ps.last().1));
        }
    }
}

/// A finite set of `n` integers drawn from `{0, …, n−1}` is all of them.
proof fn lemma_pigeonhole(s: Set<int>, n: int)
    requires
        0 <= n,
        s.finite(),
        s.len() == n,
        forall|q: int| s.contains(q) ==> 0 <= q < n,
    ensures
        forall|q: int| 0 <= q < n ==> s.contains(q),
{
    lemma_int_range(0, n);
    assert forall|q: int| 0 <= q < n implies s.contains(q) by {
        if !s.contains(q) {
            let r = set_int_range(0, n).remove(q);
            assert(s.subset_of(r));
            lemma_len_subset(s, r);
            assert(r.len() == n - 1);
            assert(false);
        }
    }
}

/// Gap-freeness of the per-topic message streams: under the store
/// invariant, the sequence numbers stored for any topic `t` are exactly
/// `{0, …, N−1}`, where `N` is the number of stored messages with topic
/// `t`.
pub proof fn lemma_message_stream_gap_free(s: Store, t: Seq<u8>)
    requires
        s.inv(),
    ensures
        forall|i: int|
            0 <= i < s.messages().len() && s.messages()[i].topic@ == t ==> 0
                <= #[trigger] s.messages()[i].seq < msg_count(s.messages(), t),
        forall|q: int| 0 <= q < msg_count(s.messages(), t) ==> #[trigger] msg_has_seq(
            s.messages(),
            t,
            q,
        ),
{
    let rows = s.messages();
    let ps = msg_pairs(rows);
    let n = msg_count(rows, t);
    lemma_msg_pair_count(rows, t);
    assert forall|i: int, j: int|
        0 <= i < j < ps.len() && ps[i].0 == t && ps[j].0 == t implies ps[i].1 != ps[j].1 by {
        assert(ps[i] == (rows[i].topic@, rows[i].seq as int));
        assert(ps[j] == (rows[j].topic@, rows[j].seq as int));
    }
    lemma_pair_seqs_card(ps, t);
    assert forall|q: int| pair_seqs(ps, t).contains(q) implies 0 <= q < n by {
        lemma_pair_seqs_contains(ps, t, q);
        let i = choose|i: int| 0 <= i < ps.len() && ps[i].0 == t && ps[i].1 == q;
        assert(ps[i] == (rows[i].topic@, rows[i].seq as int));
    }
    lemma_pigeonhole(pair_seqs(ps, t), n);
    assert forall|q: int| 0 <= q < n implies #[trigger] msg_has_seq(rows, t, q) by {
        lemma_pair_seqs_contains(ps, t, q);
        let i = choose|i: int| 0 <= i < ps.len() && ps[i].0 == t && ps[i].1 == q;
        assert(ps[i] == (rows[i].topic@, rows[i].seq as int));
        assert(0 <= i < rows.len() && rows[i].topic@ == t && rows[i].seq == q);
    }
}

/// Gap-freeness of the per-recipient handshake streams, as
/// [`lemma_message_stream_gap_free`] states it for topics.
pub proof fn lemma_handshake_stream_gap_free(s: Store, t: Seq<u8>)
    requires
        s.inv(),
    ensures
        forall|i: int|
            0 <= i < s.handshakes().len() && s.handshakes()[i].recipient_hash@ == t ==> 0
                <= #[trigger] s.handshakes()[i].seq < hs_count(s.handshakes(), t),
        forall|q: int| 0 <= q < hs_count(s.handshakes(), t) ==> #[trigger] hs_has_seq(
            s.handshakes(),
            t,
            q,
        ),
{
    let rows = s.handshakes();
    let ps = hs_pairs(rows);
    let n = hs_count(rows, t);
    lemma_hs_pair_count(rows, t);
    assert forall|i: int, j: int|
        0 <= i < j < ps.len() && ps[i].0 == t && ps[j].0 == t implies ps[i].1 != ps[j].1 by {
        assert(ps[i] == (rows[i].recipient_hash@, rows[i].seq as int));
        assert(ps[j] == (rows[j].recipient_hash@, rows[j].seq as int));
    }
    lemma_pair_seqs_card(ps, t);
    assert forall|q: int| pair_seqs(ps, t).contains(q) implies 0 <= q < n by {
        lemma_pair_seqs_contains(ps, t, q);
        let i = choose|i: int| 0 <= i < ps.len() && ps[i].0 == t && ps[i].1 == q;
        assert(ps[i] == (rows[i].recipient_hash@, rows[i].seq as int));
    }
    lemma_pigeonhole(pair_seqs(ps, t), n);
    assert forall|q: int| 0 <= q < n implies #[trigger] hs_has_seq(rows, t, q) by {
        lemma_pair_seqs_contains(ps, t, q);
        let i = choose|i: int| 0 <= i < ps.len() && ps[i].0 == t && ps[i].1 == q;
        assert(ps[i] == (rows[i].recipient_hash@, rows[i].seq as int));
        assert(0 <= i < rows.len() && rows[i].recipient_hash@ == t && rows[i].seq == q);
    }
}

/// Gap-freeness of the global handshake-response stream: the stored
/// `global_seq` values are exactly `{0, …, N−1}`.
pub proof fn lemma_hsr_stream_gap_free(s: Store)
    requires
        s.inv(),
    ensures
        forall|i: int|
            0 <= i < s.handshake_responses().len()
                ==> #[trigger] s.handshake_responses()[i].global_seq == i,
        forall|q: int|
            0 <= q < s.handshake_responses().len()
                ==> #[trigger] s.handshake_responses()[q].global_seq == q,
{
}

/// At-most-once per `(topic, seq)`: two stored messages that share topic
/// and sequence number are the same record.
pub proof fn lemma_message_at_most_once(s: Store)
    requires
        s.inv(),
    ensures
        forall|i: int, j: int|
            0 <= i < s.messages().len() && 0 <= j < s.messages().len()
                && s.messages()[i].topic@ == s.messages()[j].topic@
                && s.messages()[i].seq == s.messages()[j].seq ==> i == j,
{
}

/// At-most-once per `(recipient_hash, seq)` for handshakes.
pub proof fn lemma_handshake_at_most_once(s: Store)
    requires
        s.inv(),
    ensures
        forall|i: int, j: int|
            0 <= i < s.handshakes().len() && 0 <= j < s.handshakes().len()
                && s.handshakes()[i].recipient_hash@ == s.handshakes()[j].recipient_hash@
                && s.handshakes()[i].seq == s.handshakes()[j].seq ==> i == j,
{
}

/// At-most-once per `global_seq` for handshake responses.
pub proof fn lemma_hsr_at_most_once(s: Store)
    requires
        s.inv(),
    ensures
        forall|i: int, j: int|
            0 <= i < s.handshake_responses().len() && 0 <= j < s.handshake_responses().len()
                && s.handshake_responses()[i].global_seq == s.handshake_responses()[j].global_seq
                ==> i == j,
{
}

/// `msg_count` agrees with `pair_count` over the key/seq projection.
proof fn lemma_msg_pair_count(rows: Seq<MessageRow>, t: Seq<u8>)
    ensures
        pair_count(msg_pairs(rows), t) == msg_count(rows, t),
    decreases rows.len(),
{
    if rows.len() > 0 {
        lemma_msg_pair_count(rows.drop_last(), t);
        assert(msg_pairs(rows).drop_last() =~= msg_pairs(rows.drop_last()));
        assert(msg_pairs(rows).last() == (rows.last().topic@, rows.last().seq as int));
    }
}

/// `hs_count` agrees with `pair_count` over the key/seq projection.
proof fn lemma_hs_pair_count(rows: Seq<HandshakeRow>, t: Seq<u8>)
    ensures
        pair_count(hs_pairs(rows), t) == hs_count(rows, t),
    decreases rows.len(),
{
    if rows.len() > 0 {
        lemma_hs_pair_count(rows.drop_last(), t);
        assert(hs_pairs(rows).drop_last() =~= hs_pairs(rows.drop_last()));
        assert(hs_pairs(rows).last() == (rows.last().recipient_hash@, rows.last().seq as int));
    }
}

} // verus!
