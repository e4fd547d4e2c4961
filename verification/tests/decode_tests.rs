//! Tests of the raw-log decoder and the canonical encoders.

use verbeth_indexer::decode::{
    decode_log, encode_handshake_log, encode_hsr_log, encode_message_sent_log, handshake_signature,
    hsr_signature, message_sent_signature, RawLog,
};
use verbeth_indexer::events::VerbethEvent;

fn sample_message_log() -> RawLog {
    encode_message_sent_log(
        &[0xaa; 20],
        &vec![1, 2, 3, 4, 5],
        1_700_000_000,
        &[0x11; 32],
        42,
    )
}

#[test]
fn message_sent_round_trip() {
    let log = sample_message_log();
    match decode_log(&log) {
        Some(VerbethEvent::MessageSent { sender, ciphertext, timestamp, topic, nonce }) => {
            assert_eq!(sender, [0xaa; 20]);
            assert_eq!(ciphertext, vec![1, 2, 3, 4, 5]);
            assert_eq!(timestamp, 1_700_000_000);
            assert_eq!(topic, [0x11; 32]);
            assert_eq!(nonce, 42);
        }
        other => panic!("expected MessageSent, got {:?}", other),
    }
}

#[test]
fn message_sent_round_trip_empty_ciphertext() {
    let log = encode_message_sent_log(&[0; 20], &Vec::new(), 0, &[0; 32], 0);
    match decode_log(&log) {
        Some(VerbethEvent::MessageSent { ciphertext, timestamp, nonce, .. }) => {
            assert!(ciphertext.is_empty());
            assert_eq!(timestamp, 0);
            assert_eq!(nonce, 0);
        }
        other => panic!("expected MessageSent, got {:?}", other),
    }
}

#[test]
fn handshake_round_trip() {
    let log = encode_handshake_log(
        &[0x22; 32],
        &[0xbb; 20],
        &vec![9; 65],
        &vec![8; 1216],
        &vec![7; 100],
    );
    match decode_log(&log) {
        Some(VerbethEvent::Handshake {
            recipient_hash,
            sender,
            pub_keys,
            ephemeral_pub_key,
            plaintext_payload,
        }) => {
            assert_eq!(recipient_hash, [0x22; 32]);
            assert_eq!(sender, [0xbb; 20]);
            assert_eq!(pub_keys, vec![9; 65]);
            assert_eq!(ephemeral_pub_key, vec![8; 1216]);
            assert_eq!(plaintext_payload, vec![7; 100]);
        }
        other => panic!("expected Handshake, got {:?}", other),
    }
}

#[test]
fn hsr_round_trip() {
    let log = encode_hsr_log(&[0x33; 32], &[0xcc; 20], &[0x44; 32], &vec![6; 4096]);
    match decode_log(&log) {
        Some(VerbethEvent::HandshakeResponse {
            in_response_to,
            responder,
            responder_ephemeral_r,
            ciphertext,
        }) => {
            assert_eq!(in_response_to, [0x33; 32]);
            assert_eq!(responder, [0xcc; 20]);
            assert_eq!(responder_ephemeral_r, [0x44; 32]);
            assert_eq!(ciphertext, vec![6; 4096]);
        }
        other => panic!("expected HandshakeResponse, got {:?}", other),
    }
}

#[test]
fn unknown_signature_is_skipped() {
    let mut log = sample_message_log();
    log.topics[0] = [0u8; 32];
    assert!(decode_log(&log).is_none());
}

#[test]
fn empty_topics_are_skipped() {
    let log = RawLog { topics: Vec::new(), data: Vec::new() };
    assert!(decode_log(&log).is_none());
}

#[test]
fn wrong_topic_count_is_skipped() {
    let mut log = sample_message_log();
    log.topics.pop();
    assert!(decode_log(&log).is_none());
}

#[test]
fn oversized_timestamp_is_skipped() {
    let mut log = sample_message_log();
    // a nonzero byte in the high half of the timestamp word pushes the
    // value past the 64-bit range the indexer stores
    log.data[32] = 1;
    assert!(decode_log(&log).is_none());
}

#[test]
fn truncated_data_is_skipped() {
    let mut log = sample_message_log();
    log.data.truncate(100);
    assert!(decode_log(&log).is_none());
}

#[test]
fn nonzero_padding_is_skipped() {
    let mut log = sample_message_log();
    // the ciphertext is 5 bytes, so the last tail byte is padding
    let last = log.data.len() - 1;
    log.data[last] = 0xff;
    assert!(decode_log(&log).is_none());
}

#[test]
fn nonzero_address_padding_is_skipped() {
    let mut log = sample_message_log();
    log.topics[1][0] = 1;
    assert!(decode_log(&log).is_none());
}

#[test]
fn signatures_are_distinct() {
    let a = message_sent_signature();
    let b = handshake_signature();
    let c = hsr_signature();
    assert_ne!(a, b);
    assert_ne!(a, c);
    assert_ne!(b, c);
    assert_eq!(a[0], 0x12);
    assert_eq!(b[0], 0x4b);
    assert_eq!(c[0], 0x89);
}
