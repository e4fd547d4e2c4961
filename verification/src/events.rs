//! Typed Verbeth events and the size bounds their payloads must respect.

use vstd::prelude::*;

verus! {

/// Largest accepted `MessageSent.ciphertext`, in bytes (64 KiB).
pub const MAX_CIPHERTEXT_SIZE: usize = 65536;

/// Largest accepted `Handshake.pub_keys`: version byte + X25519 + Ed25519.
pub const MAX_PUB_KEYS_SIZE: usize = 65;

/// Largest accepted `Handshake.ephemeral_pub_key`: X25519 32 + ML-KEM 1184.
pub const MAX_EPHEMERAL_KEY_SIZE: usize = 1216;

/// Largest accepted `Handshake.plaintext_payload` (1 KiB of metadata).
pub const MAX_PLAINTEXT_PAYLOAD_SIZE: usize = 1024;

/// Largest accepted `HandshakeResponse.ciphertext` (4 KiB).
pub const MAX_HSR_CIPHERTEXT_SIZE: usize = 4096;

/// A decoded Verbeth protocol event.
#[derive(Clone, Debug)]
pub enum VerbethEvent {
    MessageSent {
        sender: [u8; 20],
        ciphertext: Vec<u8>,
        timestamp: u64,
        topic: [u8; 32],
        nonce: u64,
    },
    Handshake {
        recipient_hash: [u8; 32],
        sender: [u8; 20],
        pub_keys: Vec<u8>,
        ephemeral_pub_key: Vec<u8>,
        plaintext_payload: Vec<u8>,
    },
    HandshakeResponse {
        in_response_to: [u8; 32],
        responder: [u8; 20],
        responder_ephemeral_r: [u8; 32],
        ciphertext: Vec<u8>,
    },
}

/// A decoded event together with its position on the chain.
#[derive(Clone, Debug)]
pub struct LogWithMeta {
    pub event: VerbethEvent,
    pub block_number: u64,
    pub log_index: u64,
    pub block_timestamp: u64,
}

/// Two events agree in variant and in the content of every field.
pub open spec fn event_views_eq(x: VerbethEvent, y: VerbethEvent) -> bool {
    match (x, y) {
        (
            VerbethEvent::MessageSent { sender: s1, ciphertext: c1, timestamp: t1, topic: p1, nonce: n1 },
            VerbethEvent::MessageSent { sender: s2, ciphertext: c2, timestamp: t2, topic: p2, nonce: n2 },
        ) => s1 == s2 && c1@ == c2@ && t1 == t2 && p1 == p2 && n1 == n2,
        (
            VerbethEvent::Handshake {
                recipient_hash: r1,
                sender: s1,
                pub_keys: k1,
                ephemeral_pub_key: q1,
                plaintext_payload: l1,
            },
            VerbethEvent::Handshake {
                recipient_hash: r2,
                sender: s2,
                pub_keys: k2,
                ephemeral_pub_key: q2,
                plaintext_payload: l2,
            },
        ) => r1 == r2 && s1 == s2 && k1@ == k2@ && q1@ == q2@ && l1@ == l2@,
        (
            VerbethEvent::HandshakeResponse {
                in_response_to: i1,
                responder: s1,
                responder_ephemeral_r: h1,
                ciphertext: c1,
            },
            VerbethEvent::HandshakeResponse {
                in_response_to: i2,
                responder: s2,
                responder_ephemeral_r: h2,
                ciphertext: c2,
            },
        ) => i1 == i2 && s1 == s2 && h1 == h2 && c1@ == c2@,
        _ => false,
    }
}

/// Two logs agree in chain position and in the content of their events.
pub open spec fn log_views_eq(a: LogWithMeta, b: LogWithMeta) -> bool {
    &&& event_views_eq(a.event, b.event)
    &&& a.block_number == b.block_number
    &&& a.log_index == b.log_index
    &&& a.block_timestamp == b.block_timestamp
}

/// A byte vector whose content equals the given one.
fn duplicate_bytes(v: &Vec<u8>) -> (r: Vec<u8>)
    ensures
        r@ == v@,
{
    let r = v.clone();
    proof {
        assert forall|i: int| 0 <= i < v@.len() implies r@[i] == v@[i] by {
            assert(vstd::pervasive::cloned::<u8>(v[i], r[i]));
        }
        assert(r@ =~= v@);
    }
    r
}

/// An event whose content equals the given one.
pub fn duplicate_event(e: &VerbethEvent) -> (r: VerbethEvent)
    ensures
        event_views_eq(r, *e),
{
    match e {
        VerbethEvent::MessageSent { sender, ciphertext, timestamp, topic, nonce } => {
            VerbethEvent::MessageSent {
                sender: *sender,
                ciphertext: duplicate_bytes(ciphertext),
                timestamp: *timestamp,
                topic: *topic,
                nonce: *nonce,
            }
        }
        VerbethEvent::Handshake {
            recipient_hash,
            sender,
            pub_keys,
            ephemeral_pub_key,
            plaintext_payload,
        } => {
            VerbethEvent::Handshake {
                recipient_hash: *recipient_hash,
                sender: *sender,
                pub_keys: duplicate_bytes(pub_keys),
                ephemeral_pub_key: duplicate_bytes(ephemeral_pub_key),
                plaintext_payload: duplicate_bytes(plaintext_payload),
            }
        }
        VerbethEvent::HandshakeResponse {
            in_response_to,
            responder,
            responder_ephemeral_r,
            ciphertext,
        } => {
            VerbethEvent::HandshakeResponse {
                in_response_to: *in_response_to,
                responder: *responder,
                responder_ephemeral_r: *responder_ephemeral_r,
                ciphertext: duplicate_bytes(ciphertext),
            }
        }
    }
}

/// A log whose content equals the given one.
pub fn duplicate_log(log: &LogWithMeta) -> (r: LogWithMeta)
    ensures
        log_views_eq(r, *log),
{
    LogWithMeta {
        event: duplicate_event(&log.event),
        block_number: log.block_number,
        log_index: log.log_index,
        block_timestamp: log.block_timestamp,
    }
}

} // verus!
