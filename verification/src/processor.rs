//! The event processor: payload-size validation, stream selection, and the
//! sequenced, idempotent insert of a decoded event.

use vstd::prelude::*;

use crate::error::{IndexerError, PayloadField};
use crate::events::{
    LogWithMeta, VerbethEvent, MAX_CIPHERTEXT_SIZE, MAX_EPHEMERAL_KEY_SIZE, MAX_HSR_CIPHERTEXT_SIZE,
    MAX_PLAINTEXT_PAYLOAD_SIZE, MAX_PUB_KEYS_SIZE,
};
use crate::models::{HandshakeRow, HsrRow, MessageRow};
use crate::store::{hs_count, hs_has_pos, hsr_has_pos, msg_count, msg_has_pos, Store};

verus! {

/// The first size bound that `event` violates, if any, with the offending
/// size and the bound. Bounds are tested in field order within each event.
pub open spec fn spec_size_violation(event: VerbethEvent) -> Option<(PayloadField, int, int)> {
    match event {
        VerbethEvent::MessageSent { ciphertext, .. } => {
            if ciphertext@.len() > MAX_CIPHERTEXT_SIZE {
                Some((PayloadField::Ciphertext, ciphertext@.len() as int, MAX_CIPHERTEXT_SIZE as int))
            } else {
                None
            }
        },
        VerbethEvent::Handshake { pub_keys, ephemeral_pub_key, plaintext_payload, .. } => {
            if pub_keys@.len() > MAX_PUB_KEYS_SIZE {
                Some((PayloadField::PubKeys, pub_keys@.len() as int, MAX_PUB_KEYS_SIZE as int))
            } else if ephemeral_pub_key@.len() > MAX_EPHEMERAL_KEY_SIZE {
                Some(
                    (
                        PayloadField::EphemeralPubKey,
                        ephemeral_pub_key@.len() as int,
                        MAX_EPHEMERAL_KEY_SIZE as int,
                    ),
                )
            } else if plaintext_payload@.len() > MAX_PLAINTEXT_PAYLOAD_SIZE {
                Some(
                    (
                        PayloadField::PlaintextPayload,
                        plaintext_payload@.len() as int,
                        MAX_PLAINTEXT_PAYLOAD_SIZE as int,
                    ),
                )
            } else {
                None
            }
        },
        VerbethEvent::HandshakeResponse { ciphertext, .. } => {
            if ciphertext@.len() > MAX_HSR_CIPHERTEXT_SIZE {
                Some(
                    (
                        PayloadField::HsrCiphertext,
                        ciphertext@.len() as int,
                        MAX_HSR_CIPHERTEXT_SIZE as int,
                    ),
                )
            } else {
                None
            }
        },
    }
}

/// Reject an event whose payload exceeds a protocol size bound, naming the
/// first offending field.
pub fn validate_payload_sizes(event: &VerbethEvent) -> (r: Result<(), IndexerError>)
    ensures
        match spec_size_violation(*event) {
            None => r is Ok,
            Some((f, s, m)) => {
                &&& r matches Err(IndexerError::PayloadTooLarge { field, size, max })
                    && field == f && size == s && max == m
            },
        },
{
    match event {
        VerbethEvent::MessageSent { ciphertext, .. } => {
            if ciphertext.len() > MAX_CIPHERTEXT_SIZE {
                return Err(IndexerError::PayloadTooLarge {
                    field: PayloadField::Ciphertext,
                    size: ciphertext.len(),
                    max: MAX_CIPHERTEXT_SIZE,
                });
            }
        }
        VerbethEvent::Handshake { pub_keys, ephemeral_pub_key, plaintext_payload, .. } => {
            if pub_keys.len() > MAX_PUB_KEYS_SIZE {
                return Err(IndexerError::PayloadTooLarge {
                    field: PayloadField::PubKeys,
                    size: pub_keys.len(),
                    max: MAX_PUB_KEYS_SIZE,
                });
            }
            if ephemeral_pub_key.len() > MAX_EPHEMERAL_KEY_SIZE {
                return Err(IndexerError::PayloadTooLarge {
                    field: PayloadField::EphemeralPubKey,
                    size: ephemeral_pub_key.len(),
                    max: MAX_EPHEMERAL_KEY_SIZE,
                });
            }
            if plaintext_payload.len() > MAX_PLAINTEXT_PAYLOAD_SIZE {
                return Err(IndexerError::PayloadTooLarge {
                    field: PayloadField::PlaintextPayload,
                    size: plaintext_payload.len(),
                    max: MAX_PLAINTEXT_PAYLOAD_SIZE,
                });
            }
        }
        VerbethEvent::HandshakeResponse { ciphertext, .. } => {
            if ciphertext.len() > MAX_HSR_CIPHERTEXT_SIZE {
                return Err(IndexerError::PayloadTooLarge {
                    field: PayloadField::HsrCiphertext,
                    size: ciphertext.len(),
                    max: MAX_HSR_CIPHERTEXT_SIZE,
                });
            }
        }
    }
    Ok(())
}

/// Whether an event of this kind at chain position `(bn, li)` is already
/// stored in the table of its stream.
pub open spec fn spec_event_present_at(s: Store, e: VerbethEvent, bn: i64, li: i64) -> bool {
    match e {
        VerbethEvent::MessageSent { .. } => msg_has_pos(s.messages(), bn, li),
        VerbethEvent::Handshake { .. } => hs_has_pos(s.handshakes(), bn, li),
        VerbethEvent::HandshakeResponse { .. } => hsr_has_pos(s.handshake_responses(), bn, li),
    }
}

/// Whether the chain position of `log` is already stored in the table of
/// its stream.
pub open spec fn spec_event_present(s: Store, log: LogWithMeta) -> bool {
    spec_event_present_at(s, log.event, log.block_number as i64, log.log_index as i64)
}

/// Whether the sequence space of the stream of `e` is exhausted — the only
/// condition, aside from a size violation, on which processing fails.
pub open spec fn spec_stream_exhausted_for(s: Store, e: VerbethEvent) -> bool {
    match e {
        VerbethEvent::MessageSent { topic, .. } => msg_count(s.messages(), topic@) == i64::MAX,
        VerbethEvent::Handshake { recipient_hash, .. } => hs_count(s.handshakes(), recipient_hash@)
            == i64::MAX,
        VerbethEvent::HandshakeResponse { .. } => s.handshake_responses().len() == i64::MAX,
    }
}

/// Whether the sequence space of the stream of `log` is exhausted.
pub open spec fn spec_stream_exhausted(s: Store, log: LogWithMeta) -> bool {
    spec_stream_exhausted_for(s, log.event)
}

/// The table row that processing `log` appends on a fresh insert.
pub open spec fn spec_message_row(s: Store, log: LogWithMeta) -> MessageRow
    recommends
        log.event is MessageSent,
{
    match log.event {
        VerbethEvent::MessageSent { sender, ciphertext, timestamp, topic, nonce } => MessageRow {
            topic,
            seq: msg_count(s.messages(), topic@) as i64,
            sender,
            ciphertext,
            timestamp: timestamp as i64,
            nonce: nonce as i64,
            block_number: log.block_number as i64,
            log_index: log.log_index as i64,
            block_timestamp: log.block_timestamp as i64,
        },
        _ => arbitrary(),
    }
}

/// The table row that processing `log` appends on a fresh insert.
pub open spec fn spec_handshake_row(s: Store, log: LogWithMeta) -> HandshakeRow
    recommends
        log.event is Handshake,
{
    match log.event {
        VerbethEvent::Handshake {
            recipient_hash,
            sender,
            pub_keys,
            ephemeral_pub_key,
            plaintext_payload,
        } => HandshakeRow {
            recipient_hash,
            seq: hs_count(s.handshakes(), recipient_hash@) as i64,
            sender,
            pub_keys,
            ephemeral_pub_key,
            plaintext_payload,
            block_number: log.block_number as i64,
            log_index: log.log_index as i64,
            block_timestamp: log.block_timestamp as i64,
        },
        _ => arbitrary(),
    }
}

/// The table row that processing `log` appends on a fresh insert.
pub open spec fn spec_hsr_row(s: Store, log: LogWithMeta) -> HsrRow
    recommends
        log.event is HandshakeResponse,
{
    match log.event {
        VerbethEvent::HandshakeResponse {
            in_response_to,
            responder,
            responder_ephemeral_r,
            ciphertext,
        } => HsrRow {
            global_seq: s.handshake_responses().len() as i64,
            in_response_to,
            responder,
            responder_ephemeral_r,
            ciphertext,
            block_number: log.block_number as i64,
            log_index: log.log_index as i64,
            block_timestamp: log.block_timestamp as i64,
        },
        _ => arbitrary(),
    }
}

/// Table state after processing `log`: a fresh insert appends exactly one
/// row to the table of the log's stream; everything else leaves every
/// table, and the counters, as they were.
pub open spec fn spec_tables_after(pre: Store, post: Store, log: LogWithMeta, inserted: bool) -> bool {
    if inserted {
        match log.event {
            VerbethEvent::MessageSent { .. } => {
                &&& post.messages() == pre.messages().push(spec_message_row(pre, log))
                &&& post.handshakes() == pre.handshakes()
                &&& post.handshake_responses() == pre.handshake_responses()
            },
            VerbethEvent::Handshake { .. } => {
                &&& post.messages() == pre.messages()
                &&& post.handshakes() == pre.handshakes().push(spec_handshake_row(pre, log))
                &&& post.handshake_responses() == pre.handshake_responses()
            },
            VerbethEvent::HandshakeResponse { .. } => {
                &&& post.messages() == pre.messages()
                &&& post.handshakes() == pre.handshakes()
                &&& post.handshake_responses() == pre.handshake_responses().push(
                    spec_hsr_row(pre, log),
                )
            },
        }
    } else {
        &&& post.messages() == pre.messages()
        &&& post.handshakes() == pre.handshakes()
        &&& post.handshake_responses() == pre.handshake_responses()
        &&& post.counters() == pre.counters()
    }
}

/// Store state after `process` returns `r` on `log`: the tables change per
/// [`spec_tables_after`], and the checkpoint not at all.
pub open spec fn spec_process_post(
    pre: Store,
    post: Store,
    log: LogWithMeta,
    r: Result<bool, IndexerError>,
) -> bool {
    &&& post.last_block() == pre.last_block()
    &&& spec_tables_after(pre, post, log, r == Result::<bool, IndexerError>::Ok(true))
}

/// Processes decoded logs against the store.
pub struct EventProcessor {}

impl EventProcessor {
    pub fn new() -> (p: EventProcessor) {
        EventProcessor {  }
    }

    /// Process one decoded log: validate its payload sizes, then insert it
    /// into the table of its stream with a freshly assigned sequence number,
    /// all in one store transaction.
    ///
    /// Returns `Ok(true)` on a fresh insert, `Ok(false)` on a duplicate of
    /// an already-stored chain position (which consumes no sequence number
    /// and changes nothing), `PayloadTooLarge` on a size violation (ditto),
    /// and a store error only on sequence-space exhaustion.
    pub fn process(&self, store: &mut Store, log: LogWithMeta) -> (r: Result<bool, IndexerError>)
        requires
            old(store).inv(),
        ensures
            final(store).inv(),
            spec_process_post(*old(store), *final(store), log, r),
            match spec_size_violation(log.event) {
                Some((f, s, m)) => r matches Err(IndexerError::PayloadTooLarge { field, size, max })
                    && field == f && size == s && max == m,
                None => {
                    &&& r == Result::<bool, IndexerError>::Ok(true) <==> (!spec_event_present(
                        *old(store),
                        log,
                    ) && !spec_stream_exhausted(*old(store), log))
                    &&& r == Result::<bool, IndexerError>::Ok(false) <==> spec_event_present(
                        *old(store),
                        log,
                    )
                    &&& (r is Err) <==> (!spec_event_present(*old(store), log)
                        && spec_stream_exhausted(*old(store), log))
                    &&& (r is Err) ==> (r matches Err(e) && e is Database)
                },
            },
    {
        if let Err(e) = validate_payload_sizes(&log.event) {
            return Err(e);
        }
        match log.event {
            VerbethEvent::MessageSent { sender, ciphertext, timestamp, topic, nonce } => {
                let row = MessageRow {
                    topic,
                    seq: 0,
                    sender,
                    ciphertext,
                    #[verifier::truncate]
                    timestamp: timestamp as i64,
                    #[verifier::truncate]
                    nonce: nonce as i64,
                    #[verifier::truncate]
                    block_number: log.block_number as i64,
                    #[verifier::truncate]
                    log_index: log.log_index as i64,
                    #[verifier::truncate]
                    block_timestamp: log.block_timestamp as i64,
                };
                store.insert_message(row)
            }
            VerbethEvent::Handshake {
                recipient_hash,
                sender,
                pub_keys,
                ephemeral_pub_key,
                plaintext_payload,
            } => {
                let row = HandshakeRow {
                    recipient_hash,
                    seq: 0,
                    sender,
                    pub_keys,
                    ephemeral_pub_key,
                    plaintext_payload,
                    #[verifier::truncate]
                    block_number: log.block_number as i64,
                    #[verifier::truncate]
                    log_index: log.log_index as i64,
                    #[verifier::truncate]
                    block_timestamp: log.block_timestamp as i64,
                };
                store.insert_handshake(row)
            }
            VerbethEvent::HandshakeResponse {
                in_response_to,
                responder,
                responder_ephemeral_r,
                ciphertext,
            } => {
                let row = HsrRow {
                    global_seq: 0,
                    in_response_to,
                    responder,
                    responder_ephemeral_r,
                    ciphertext,
                    #[verifier::truncate]
                    block_number: log.block_number as i64,
                    #[verifier::truncate]
                    log_index: log.log_index as i64,
                    #[verifier::truncate]
                    block_timestamp: log.block_timestamp as i64,
                };
                store.insert_hsr(row)
            }
        }
    }
}

} // verus!
