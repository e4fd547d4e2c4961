//! Tests of the store model: sequencing, idempotent inserts, the
//! checkpoint and the aggregate counts.

use verbeth_indexer::models::{HandshakeRow, HsrRow, MessageRow};
use verbeth_indexer::store::{Store, StreamKind};

fn message_row(topic: [u8; 32], block_number: i64, log_index: i64) -> MessageRow {
    MessageRow {
        topic,
        seq: 0,
        sender: [0xaa; 20],
        ciphertext: vec![1, 2, 3],
        timestamp: 1_700_000_000,
        nonce: 7,
        block_number,
        log_index,
        block_timestamp: 1_700_000_100,
    }
}

fn handshake_row(recipient_hash: [u8; 32], block_number: i64, log_index: i64) -> HandshakeRow {
    HandshakeRow {
        recipient_hash,
        seq: 0,
        sender: [0xbb; 20],
        pub_keys: vec![9; 65],
        ephemeral_pub_key: vec![8; 32],
        plaintext_payload: vec![7; 16],
        block_number,
        log_index,
        block_timestamp: 0,
    }
}

fn hsr_row(block_number: i64, log_index: i64) -> HsrRow {
    HsrRow {
        global_seq: 0,
        in_response_to: [0x33; 32],
        responder: [0xcc; 20],
        responder_ephemeral_r: [0x44; 32],
        ciphertext: vec![5; 64],
        block_number,
        log_index,
        block_timestamp: 0,
    }
}

#[test]
fn fresh_store_is_empty() {
    let store = Store::new();
    assert!(store.is_db_empty());
    assert!(store.get_last_processed_block().is_none());
    let counts = store.get_event_counts();
    assert_eq!(counts.messages, 0);
    assert_eq!(counts.handshakes, 0);
    assert_eq!(counts.handshake_responses, 0);
}

#[test]
fn sequencer_assigns_dense_numbers() {
    let mut store = Store::new();
    let topic = [0x11; 32];
    assert_eq!(store.insert_message(message_row(topic, 100, 0)).unwrap(), true);
    assert_eq!(store.insert_message(message_row(topic, 100, 1)).unwrap(), true);
    assert_eq!(store.insert_message(message_row(topic, 101, 0)).unwrap(), true);
    let rows = store.get_messages();
    assert_eq!(rows.len(), 3);
    assert_eq!(rows[0].seq, 0);
    assert_eq!(rows[1].seq, 1);
    assert_eq!(rows[2].seq, 2);
    assert_eq!(store.get_next_seq(StreamKind::Message, Some(&topic)), 3);
}

#[test]
fn sequencer_keeps_streams_independent() {
    let mut store = Store::new();
    let a = [0x01; 32];
    let b = [0x02; 32];
    store.insert_message(message_row(a, 1, 0)).unwrap();
    store.insert_message(message_row(b, 1, 1)).unwrap();
    store.insert_message(message_row(a, 2, 0)).unwrap();
    assert_eq!(store.get_next_seq(StreamKind::Message, Some(&a)), 2);
    assert_eq!(store.get_next_seq(StreamKind::Message, Some(&b)), 1);
    let rows = store.get_messages();
    assert_eq!(rows[1].seq, 0); // first event of topic b
}

#[test]
fn get_and_increment_seq_counts_up() {
    let mut store = Store::new();
    let key = [0x55; 32];
    assert_eq!(store.get_and_increment_seq(StreamKind::Message, Some(&key)).unwrap(), 0);
    assert_eq!(store.get_and_increment_seq(StreamKind::Message, Some(&key)).unwrap(), 1);
    assert_eq!(store.get_and_increment_seq(StreamKind::HandshakeResponse, None).unwrap(), 0);
    assert_eq!(store.get_next_seq(StreamKind::Message, Some(&key)), 2);
    assert_eq!(store.get_next_seq(StreamKind::HandshakeResponse, None), 1);
}

#[test]
fn duplicate_insert_consumes_no_sequence() {
    let mut store = Store::new();
    let topic = [0x11; 32];
    assert_eq!(store.insert_message(message_row(topic, 100, 0)).unwrap(), true);
    // same chain position again: ignored, counter untouched
    assert_eq!(store.insert_message(message_row(topic, 100, 0)).unwrap(), false);
    assert_eq!(store.get_messages().len(), 1);
    assert_eq!(store.get_next_seq(StreamKind::Message, Some(&topic)), 1);
    // the next fresh insert continues gap-free
    assert_eq!(store.insert_message(message_row(topic, 100, 1)).unwrap(), true);
    assert_eq!(store.get_messages()[1].seq, 1);
}

#[test]
fn handshakes_sequence_per_recipient() {
    let mut store = Store::new();
    let a = [0xa1; 32];
    let b = [0xb2; 32];
    assert_eq!(store.insert_handshake(handshake_row(a, 7, 0)).unwrap(), true);
    assert_eq!(store.insert_handshake(handshake_row(b, 7, 1)).unwrap(), true);
    let rows = store.get_handshakes();
    assert_eq!(rows[0].seq, 0);
    assert_eq!(rows[1].seq, 0);
}

#[test]
fn handshake_responses_use_one_global_stream() {
    let mut store = Store::new();
    assert_eq!(store.insert_hsr(hsr_row(5, 0)).unwrap(), true);
    assert_eq!(store.insert_hsr(hsr_row(5, 1)).unwrap(), true);
    assert_eq!(store.insert_hsr(hsr_row(6, 0)).unwrap(), true);
    let rows = store.get_handshake_responses();
    assert_eq!(rows[0].global_seq, 0);
    assert_eq!(rows[1].global_seq, 1);
    assert_eq!(rows[2].global_seq, 2);
}

#[test]
fn checkpoint_never_regresses() {
    let mut store = Store::new();
    store.set_last_processed_block(10);
    assert_eq!(store.get_last_processed_block(), Some(10));
    store.set_last_processed_block(5);
    assert_eq!(store.get_last_processed_block(), Some(10));
    store.set_last_processed_block(20);
    assert_eq!(store.get_last_processed_block(), Some(20));
}

#[test]
fn counts_track_all_tables() {
    let mut store = Store::new();
    store.insert_message(message_row([1; 32], 1, 0)).unwrap();
    store.insert_handshake(handshake_row([2; 32], 1, 1)).unwrap();
    store.insert_hsr(hsr_row(1, 2)).unwrap();
    store.insert_hsr(hsr_row(1, 3)).unwrap();
    let counts = store.get_event_counts();
    assert_eq!(counts.messages, 1);
    assert_eq!(counts.handshakes, 1);
    assert_eq!(counts.handshake_responses, 2);
    assert!(!store.is_db_empty());
}

#[test]
fn per_topic_sequences_are_gap_free_and_unique() {
    let mut store = Store::new();
    let topics = [[0x01u8; 32], [0x02; 32], [0x01; 32], [0x03; 32], [0x01; 32], [0x02; 32]];
    for (i, t) in topics.iter().enumerate() {
        store.insert_message(message_row(*t, 50 + i as i64, 0)).unwrap();
    }
    for t in [[0x01u8; 32], [0x02; 32], [0x03; 32]] {
        let seqs: Vec<i64> = store
            .get_messages()
            .iter()
            .filter(|r| r.topic == t)
            .map(|r| r.seq)
            .collect();
        let n = seqs.len() as i64;
        // exactly {0, .., n-1}: bounded, and each value occurs once
        for q in 0..n {
            assert_eq!(seqs.iter().filter(|s| **s == q).count(), 1);
        }
        for s in &seqs {
            assert!(*s >= 0 && *s < n);
        }
    }
}
