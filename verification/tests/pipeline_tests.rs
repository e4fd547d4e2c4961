//! End-to-end scenarios over the processor, the backfill worker's chunk
//! processing, the live subscription handling and the retry drainer.

use verbeth_indexer::backfill::{
    chunk_end, is_rate_limit_error, next_chunk_start, process_chunk, rpc_retry_delay_ms,
    sort_logs_by_position, BackfillStats, RawLogEntry, TimestampCache,
};
use verbeth_indexer::decode::encode_message_sent_log;
use verbeth_indexer::error::{IndexerError, PayloadField};
use verbeth_indexer::events::{LogWithMeta, VerbethEvent};
use verbeth_indexer::processor::{validate_payload_sizes, EventProcessor};
use verbeth_indexer::retry_queue::RetryQueue;
use verbeth_indexer::store::{Store, StreamKind};
use verbeth_indexer::subscriber::{drain_retry_queue, handle_live_log, LiveOutcome};

const TOPIC: [u8; 32] = [0x11; 32];

fn message_entry(block_number: u64, log_index: u64, nonce: u64) -> RawLogEntry {
    RawLogEntry {
        log: encode_message_sent_log(&[0xaa; 20], &vec![1, 2, 3], 1_700_000_000, &TOPIC, nonce),
        block_number,
        log_index,
    }
}

fn message_event(nonce: u64) -> VerbethEvent {
    VerbethEvent::MessageSent {
        sender: [0xaa; 20],
        ciphertext: vec![1, 2, 3],
        timestamp: 1_700_000_000,
        topic: TOPIC,
        nonce,
    }
}

fn fresh_stats() -> BackfillStats {
    BackfillStats { blocks_processed: 0, events_processed: 0, events_skipped: 0 }
}

fn run_backfill_chunk(store: &mut Store, logs: Vec<RawLogEntry>, from: u64, to: u64) -> BackfillStats {
    let processor = EventProcessor::new();
    let mut cache = TimestampCache::new();
    for entry in &logs {
        if cache.get(entry.block_number).is_none() {
            cache.insert(entry.block_number, 1_700_000_000 + entry.block_number);
        }
    }
    let sorted = sort_logs_by_position(logs);
    let mut stats = fresh_stats();
    process_chunk(&processor, store, &sorted, &cache, from, to, &mut stats);
    stats
}

#[test]
fn backfill_assigns_chain_ordered_sequences() {
    // three messages on one topic at (100, 0), (100, 1), (101, 0),
    // deliberately handed over out of order
    let mut store = Store::new();
    let logs = vec![
        message_entry(101, 0, 3),
        message_entry(100, 0, 1),
        message_entry(100, 1, 2),
    ];
    let stats = run_backfill_chunk(&mut store, logs, 100, 101);
    assert_eq!(stats.events_processed, 3);
    assert_eq!(stats.events_skipped, 0);
    assert_eq!(stats.blocks_processed, 2);
    assert_eq!(store.get_last_processed_block(), Some(101));
    let rows = store.get_messages();
    assert_eq!(rows.len(), 3);
    // sequence numbers follow chain order
    assert_eq!((rows[0].block_number, rows[0].log_index, rows[0].seq), (100, 0, 0));
    assert_eq!((rows[1].block_number, rows[1].log_index, rows[1].seq), (100, 1, 1));
    assert_eq!((rows[2].block_number, rows[2].log_index, rows[2].seq), (101, 0, 2));
    // block timestamps came from the per-chunk cache
    assert_eq!(rows[0].block_timestamp, 1_700_000_100);
    assert_eq!(rows[2].block_timestamp, 1_700_000_101);
}

#[test]
fn backfill_replay_is_idempotent() {
    let mut store = Store::new();
    let logs = vec![
        message_entry(100, 0, 1),
        message_entry(100, 1, 2),
        message_entry(101, 0, 3),
    ];
    run_backfill_chunk(&mut store, logs.clone(), 100, 101);
    let next_before = store.get_next_seq(StreamKind::Message, Some(&TOPIC));
    // re-run the backfill over the already-indexed range
    let stats = run_backfill_chunk(&mut store, logs, 100, 101);
    assert_eq!(store.get_messages().len(), 3);
    assert_eq!(store.get_next_seq(StreamKind::Message, Some(&TOPIC)), next_before);
    assert_eq!(stats.events_processed, 0);
    assert_eq!(stats.events_skipped, 3);
    assert_eq!(store.get_last_processed_block(), Some(101));
}

#[test]
fn oversized_ciphertext_is_rejected_without_a_sequence() {
    let mut store = Store::new();
    let processor = EventProcessor::new();
    let log = LogWithMeta {
        event: VerbethEvent::MessageSent {
            sender: [0xaa; 20],
            ciphertext: vec![0; 65_537],
            timestamp: 0,
            topic: TOPIC,
            nonce: 0,
        },
        block_number: 100,
        log_index: 0,
        block_timestamp: 0,
    };
    match processor.process(&mut store, log) {
        Err(IndexerError::PayloadTooLarge { field, size, max }) => {
            assert_eq!(field, PayloadField::Ciphertext);
            assert_eq!(size, 65_537);
            assert_eq!(max, 65_536);
        }
        other => panic!("expected PayloadTooLarge, got {:?}", other.map(|_| ())),
    }
    assert!(store.is_db_empty());
    assert_eq!(store.get_next_seq(StreamKind::Message, Some(&TOPIC)), 0);
}

#[test]
fn handshakes_for_distinct_recipients_each_start_at_zero() {
    let mut store = Store::new();
    let processor = EventProcessor::new();
    for (i, rh) in [[0xa1u8; 32], [0xb2; 32]].iter().enumerate() {
        let log = LogWithMeta {
            event: VerbethEvent::Handshake {
                recipient_hash: *rh,
                sender: [0xbb; 20],
                pub_keys: vec![9; 65],
                ephemeral_pub_key: vec![8; 32],
                plaintext_payload: vec![7; 16],
            },
            block_number: 200,
            log_index: i as u64,
            block_timestamp: 0,
        };
        assert_eq!(processor.process(&mut store, log).unwrap(), true);
    }
    let rows = store.get_handshakes();
    assert_eq!(rows.len(), 2);
    assert_eq!(rows[0].seq, 0);
    assert_eq!(rows[1].seq, 0);
}

#[test]
fn gap_recovery_closes_the_window_without_duplicates() {
    // live ingestion reached block 500 while the checkpoint is at 490
    let mut store = Store::new();
    let mut queue = RetryQueue::new();
    let processor = EventProcessor::new();
    store.set_last_processed_block(490);
    let live = LogWithMeta {
        event: message_event(1),
        block_number: 500,
        log_index: 0,
        block_timestamp: 0,
    };
    assert!(matches!(handle_live_log(&processor, &mut store, &mut queue, live), LiveOutcome::Inserted));
    assert_eq!(store.get_last_processed_block(), Some(500));

    // the connection drops; gap recovery backfills from 491 to the head,
    // re-presenting block 500 and surfacing a missed event at 495
    let range = verbeth_indexer::subscriber::gap_recovery_range(
        store.get_last_processed_block(),
        500,
    );
    assert!(range.is_none()); // checkpoint already covers the head
    let range = verbeth_indexer::subscriber::gap_recovery_range(Some(490), 500);
    assert_eq!(range, Some((491, 500)));

    let logs = vec![message_entry(500, 0, 1), message_entry(495, 0, 9)];
    let stats = run_backfill_chunk(&mut store, logs, 491, 500);
    assert_eq!(stats.events_processed, 1); // the missed event
    assert_eq!(stats.events_skipped, 1); // the replayed one
    assert_eq!(store.get_messages().len(), 2);
    assert_eq!(store.get_last_processed_block(), Some(500));
}

#[test]
fn drainer_retries_a_transient_failure_once() {
    // a log whose first attempt failed in transit sits in the queue; the
    // drainer's next tick stores it and advances the checkpoint
    let mut store = Store::new();
    let mut queue = RetryQueue::new();
    let processor = EventProcessor::new();
    let log = LogWithMeta {
        event: message_event(5),
        block_number: 123,
        log_index: 0,
        block_timestamp: 0,
    };
    assert!(queue.push(log, "connection reset".to_string()).is_none());
    assert_eq!(queue.len(), 1);
    let dead = drain_retry_queue(&processor, &mut store, &mut queue);
    assert!(dead.is_empty());
    assert_eq!(queue.len(), 0);
    assert_eq!(store.get_messages().len(), 1);
    assert_eq!(store.get_last_processed_block(), Some(123));
}

#[test]
fn live_duplicate_does_not_advance_the_checkpoint() {
    let mut store = Store::new();
    let mut queue = RetryQueue::new();
    let processor = EventProcessor::new();
    let log = LogWithMeta {
        event: message_event(1),
        block_number: 300,
        log_index: 0,
        block_timestamp: 0,
    };
    let copy = LogWithMeta {
        event: message_event(1),
        block_number: 300,
        log_index: 0,
        block_timestamp: 0,
    };
    assert!(matches!(handle_live_log(&processor, &mut store, &mut queue, log), LiveOutcome::Inserted));
    store.set_last_processed_block(310);
    assert!(matches!(
        handle_live_log(&processor, &mut store, &mut queue, copy),
        LiveOutcome::Duplicate
    ));
    assert_eq!(store.get_last_processed_block(), Some(310));
    assert_eq!(store.get_messages().len(), 1);
}

#[test]
fn permanently_failing_event_is_dead_lettered_after_three_attempts() {
    let mut store = Store::new();
    let mut queue = RetryQueue::new();
    let processor = EventProcessor::new();
    let oversize = LogWithMeta {
        event: VerbethEvent::MessageSent {
            sender: [0xaa; 20],
            ciphertext: vec![0; 65_537],
            timestamp: 0,
            topic: TOPIC,
            nonce: 0,
        },
        block_number: 400,
        log_index: 0,
        block_timestamp: 0,
    };
    match handle_live_log(&processor, &mut store, &mut queue, oversize) {
        LiveOutcome::Queued { dead } => assert!(dead.is_none()),
        other => panic!("expected Queued, got {:?}", other),
    }
    assert_eq!(queue.len(), 1);
    // tick 1: attempt 1 fails, re-queued; tick 2: attempt 2 fails,
    // re-queued; tick 3: retries exhausted, dead-lettered
    assert!(drain_retry_queue(&processor, &mut store, &mut queue).is_empty());
    assert_eq!(queue.len(), 1);
    assert!(drain_retry_queue(&processor, &mut store, &mut queue).is_empty());
    assert_eq!(queue.len(), 1);
    let dead = drain_retry_queue(&processor, &mut store, &mut queue);
    assert_eq!(dead.len(), 1);
    assert_eq!(dead[0].retry_count, 3);
    assert_eq!(dead[0].last_error, "payload too large");
    assert_eq!(queue.len(), 0);
    assert!(store.is_db_empty());
}

#[test]
fn full_queue_sacrifices_the_oldest_entry() {
    let mut queue = RetryQueue::new();
    for i in 0..1000u64 {
        let log = LogWithMeta {
            event: message_event(i),
            block_number: i,
            log_index: 0,
            block_timestamp: 0,
        };
        assert!(queue.push(log, "transient".to_string()).is_none());
    }
    assert_eq!(queue.len(), 1000);
    let log = LogWithMeta {
        event: message_event(1000),
        block_number: 1000,
        log_index: 0,
        block_timestamp: 0,
    };
    let dead = queue.push(log, "transient".to_string()).expect("oldest entry dead-lettered");
    assert_eq!(dead.log.block_number, 0);
    assert_eq!(queue.len(), 1000);
}

#[test]
fn payload_bounds_are_checked_field_by_field() {
    let cases: Vec<(VerbethEvent, PayloadField, usize, usize)> = vec![
        (
            VerbethEvent::Handshake {
                recipient_hash: [0; 32],
                sender: [0; 20],
                pub_keys: vec![0; 66],
                ephemeral_pub_key: Vec::new(),
                plaintext_payload: Vec::new(),
            },
            PayloadField::PubKeys,
            66,
            65,
        ),
        (
            VerbethEvent::Handshake {
                recipient_hash: [0; 32],
                sender: [0; 20],
                pub_keys: Vec::new(),
                ephemeral_pub_key: vec![0; 1217],
                plaintext_payload: Vec::new(),
            },
            PayloadField::EphemeralPubKey,
            1217,
            1216,
        ),
        (
            VerbethEvent::Handshake {
                recipient_hash: [0; 32],
                sender: [0; 20],
                pub_keys: Vec::new(),
                ephemeral_pub_key: Vec::new(),
                plaintext_payload: vec![0; 1025],
            },
            PayloadField::PlaintextPayload,
            1025,
            1024,
        ),
        (
            VerbethEvent::HandshakeResponse {
                in_response_to: [0; 32],
                responder: [0; 20],
                responder_ephemeral_r: [0; 32],
                ciphertext: vec![0; 4097],
            },
            PayloadField::HsrCiphertext,
            4097,
            4096,
        ),
    ];
    for (event, want_field, want_size, want_max) in cases {
        match validate_payload_sizes(&event) {
            Err(IndexerError::PayloadTooLarge { field, size, max }) => {
                assert_eq!(field, want_field);
                assert_eq!(size, want_size);
                assert_eq!(max, want_max);
            }
            other => panic!("expected PayloadTooLarge, got {:?}", other),
        }
    }
    // boundary values pass
    let ok = VerbethEvent::Handshake {
        recipient_hash: [0; 32],
        sender: [0; 20],
        pub_keys: vec![0; 65],
        ephemeral_pub_key: vec![0; 1216],
        plaintext_payload: vec![0; 1024],
    };
    assert!(validate_payload_sizes(&ok).is_ok());
}

#[test]
fn unknown_signature_logs_are_counted_as_skipped() {
    let mut store = Store::new();
    let mut foreign = message_entry(102, 0, 7);
    foreign.log.topics[0] = [0u8; 32];
    let logs = vec![message_entry(100, 0, 1), foreign];
    let stats = run_backfill_chunk(&mut store, logs, 100, 102);
    assert_eq!(stats.events_processed, 1);
    assert_eq!(stats.events_skipped, 1); // the foreign-signature log
    assert_eq!(store.get_messages().len(), 1);
}

#[test]
fn gap_recovery_ignores_a_corrupt_negative_checkpoint() {
    let range = verbeth_indexer::subscriber::gap_recovery_range(Some(-7), 5);
    assert_eq!(range, Some((1, 5)));
    let range = verbeth_indexer::subscriber::gap_recovery_range(Some(-7), 0);
    assert_eq!(range, None);
}

#[test]
fn rate_limit_errors_are_recognised_by_text() {
    assert!(is_rate_limit_error("server returned 429 Too Many Requests"));
    assert!(is_rate_limit_error("compute units exceeded"));
    assert!(is_rate_limit_error("rate limit hit"));
    assert!(!is_rate_limit_error("connection refused"));
    assert!(!is_rate_limit_error(""));
}

#[test]
fn rpc_retry_backs_off_exponentially() {
    let msg = "429";
    assert_eq!(rpc_retry_delay_ms(msg, 0), Some(1000));
    assert_eq!(rpc_retry_delay_ms(msg, 1), Some(2000));
    assert_eq!(rpc_retry_delay_ms(msg, 2), Some(4000));
    assert_eq!(rpc_retry_delay_ms(msg, 3), Some(8000));
    assert_eq!(rpc_retry_delay_ms(msg, 4), Some(16000));
    assert_eq!(rpc_retry_delay_ms(msg, 5), None);
    assert_eq!(rpc_retry_delay_ms("disk full", 0), None);
}

#[test]
fn chunks_cover_the_range_without_overrun() {
    assert_eq!(chunk_end(100, 10, 200), 109);
    assert_eq!(chunk_end(100, 10, 105), 105);
    assert_eq!(chunk_end(100, 1, 200), 100);
    assert_eq!(next_chunk_start(100, 10, 200), Some(110));
    assert_eq!(next_chunk_start(195, 10, 200), None);
}
