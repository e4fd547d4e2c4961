//! Tests of the supporting pieces: startup decisions, URL derivation,
//! reconnect backoff, the timestamp cache, sorting, the health payload and
//! error texts.

use verbeth_indexer::backfill::{
    blocks_needing_timestamps, sort_logs_by_position, RawLogEntry, TimestampCache,
};
use verbeth_indexer::decode::{encode_message_sent_log, RawLog};
use verbeth_indexer::error::{IndexerError, PayloadField};
use verbeth_indexer::health::build_health_response;
use verbeth_indexer::store::Store;
use verbeth_indexer::subscriber::next_reconnect_backoff;
use verbeth_indexer::supervisor::{compute_start_block, derive_http_url};

#[test]
fn start_block_for_a_fresh_store_is_a_bounded_window() {
    // seven days below the head, floored at the creation block
    assert_eq!(compute_start_block(true, None, 0, 1_000_000, 7), 1_000_000 - 7 * 43_200);
    assert_eq!(compute_start_block(true, None, 900_000, 1_000_000, 7), 900_000);
    // a head inside the window starts at the creation block
    assert_eq!(compute_start_block(true, None, 50, 100, 7), 50);
}

#[test]
fn start_block_for_a_resumed_store_follows_the_checkpoint() {
    assert_eq!(compute_start_block(false, Some(41), 0, 1_000_000, 7), 42);
    assert_eq!(compute_start_block(false, None, 37_097_547, 99_000_000, 7), 37_097_548);
}

#[test]
fn http_url_is_derived_from_the_websocket_url() {
    let derive = |s: &str| -> String {
        String::from_utf8(derive_http_url(&s.as_bytes().to_vec())).unwrap()
    };
    assert_eq!(derive("wss://node.example/ws"), "https://node.example/ws");
    assert_eq!(derive("ws://localhost:8546"), "http://localhost:8546");
    assert_eq!(derive("https://already.http"), "https://already.http");
    assert_eq!(derive(""), "");
}

#[test]
fn reconnect_backoff_doubles_up_to_a_minute() {
    assert_eq!(next_reconnect_backoff(1, false), 2);
    assert_eq!(next_reconnect_backoff(2, false), 4);
    assert_eq!(next_reconnect_backoff(16, false), 32);
    assert_eq!(next_reconnect_backoff(32, false), 60);
    assert_eq!(next_reconnect_backoff(60, false), 60);
}

#[test]
fn reconnect_backoff_resets_after_a_successful_connect() {
    assert_eq!(next_reconnect_backoff(60, true), 1);
    assert_eq!(next_reconnect_backoff(8, true), 1);
    assert_eq!(next_reconnect_backoff(1, true), 1);
}

#[test]
fn timestamp_cache_returns_what_was_inserted() {
    let mut cache = TimestampCache::new();
    assert_eq!(cache.get(100), None);
    cache.insert(100, 1_700_000_000);
    cache.insert(101, 1_700_000_002);
    assert_eq!(cache.get(100), Some(1_700_000_000));
    assert_eq!(cache.get(101), Some(1_700_000_002));
    assert_eq!(cache.get(102), None);
}

fn entry(block_number: u64, log_index: u64) -> RawLogEntry {
    RawLogEntry {
        log: encode_message_sent_log(&[0; 20], &Vec::new(), 0, &[0; 32], 0),
        block_number,
        log_index,
    }
}

#[test]
fn uncached_blocks_are_listed_once() {
    let mut cache = TimestampCache::new();
    cache.insert(6, 60);
    let logs = vec![entry(5, 0), entry(5, 1), entry(6, 0), entry(7, 0)];
    let need = blocks_needing_timestamps(&logs, &cache);
    assert_eq!(need.len(), 2);
    assert!(need.contains(&5));
    assert!(need.contains(&7));
}

#[test]
fn logs_sort_into_chain_order() {
    let logs = vec![entry(101, 0), entry(100, 1), entry(100, 0), entry(99, 5)];
    let sorted = sort_logs_by_position(logs);
    let positions: Vec<(u64, u64)> =
        sorted.iter().map(|e| (e.block_number, e.log_index)).collect();
    assert_eq!(positions, vec![(99, 5), (100, 0), (100, 1), (101, 0)]);
}

#[test]
fn empty_log_lists_sort_to_empty() {
    let logs: Vec<RawLogEntry> = Vec::new();
    assert!(sort_logs_by_position(logs).is_empty());
}

#[test]
fn decoding_ignores_extra_raw_log_constructions() {
    // a raw log is plain data; building one by hand round-trips through
    // its public fields
    let log = RawLog { topics: vec![[1; 32]], data: vec![0; 32] };
    assert_eq!(log.topics.len(), 1);
    assert_eq!(log.data.len(), 32);
}

#[test]
fn health_reports_syncing_until_a_checkpoint_exists() {
    let mut store = Store::new();
    let health = build_health_response(&store, 5);
    assert_eq!(health.status, "syncing");
    assert_eq!(health.last_block, None);
    assert_eq!(health.uptime_seconds, 5);
    assert_eq!(health.counts.messages, 0);
    store.set_last_processed_block(77);
    let health = build_health_response(&store, 6);
    assert_eq!(health.status, "ok");
    assert_eq!(health.last_block, Some(77));
}

#[test]
fn error_messages_name_their_cause() {
    assert_eq!(IndexerError::Database("locked".to_string()).message(), "locked");
    assert_eq!(IndexerError::Pool("timed out".to_string()).message(), "timed out");
    assert_eq!(IndexerError::Rpc("eof".to_string()).message(), "eof");
    assert_eq!(IndexerError::Config("missing var".to_string()).message(), "missing var");
    assert_eq!(IndexerError::Decode("bad word".to_string()).message(), "bad word");
    assert_eq!(IndexerError::BlockNotFound(9).message(), "block not found");
    let e = IndexerError::PayloadTooLarge { field: PayloadField::Ciphertext, size: 1, max: 0 };
    assert_eq!(e.message(), "payload too large");
}

#[test]
fn payload_fields_have_wire_labels() {
    assert_eq!(PayloadField::Ciphertext.label(), "ciphertext");
    assert_eq!(PayloadField::PubKeys.label(), "pubKeys");
    assert_eq!(PayloadField::EphemeralPubKey.label(), "ephemeralPubKey");
    assert_eq!(PayloadField::PlaintextPayload.label(), "plaintextPayload");
    assert_eq!(PayloadField::HsrCiphertext.label(), "hsrCiphertext");
}
